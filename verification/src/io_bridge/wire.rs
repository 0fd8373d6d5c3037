//! The byte format shared by telemetry and commands: each number takes four
//! bytes, least significant first.

use crate::io_bridge::command_vector::MAX_JOINTS;
use crate::numeric::binary32::{
    decoded, law_bytes_round_trip, law_encoding_round_trip, number_zero, Binary32,
};
use vstd::prelude::*;

verus! {

/// Bytes of the numbers `s`, one after the other.
pub open spec fn encoded_all(s: Seq<Binary32>) -> Seq<u8> {
    Seq::new(4 * s.len(), |i: int| s[i / 4].encoded()[i % 4])
}

/// Numbers that the bytes `b` hold; one to three bytes left over are ignored.
pub open spec fn decoded_all(b: Seq<u8>) -> Seq<Binary32> {
    Seq::new(b.len() / 4, |i: int| decoded(b.subrange(4 * i, 4 * i + 4)))
}

/// The first `MAX_JOINTS` numbers of `s`, filled up with zeros.
pub open spec fn filled(s: Seq<Binary32>) -> Seq<Binary32> {
    Seq::new(
        MAX_JOINTS as nat,
        |i: int|
            if i < s.len() {
                s[i]
            } else {
                number_zero()
            },
    )
}

/// The smaller of two lengths.
pub open spec fn shorter(a: nat, b: nat) -> nat {
    if a <= b {
        a
    } else {
        b
    }
}

/// Reading the bytes of some numbers gives the numbers back.
pub proof fn law_numbers_round_trip(s: Seq<Binary32>)
    ensures
        decoded_all(encoded_all(s)) == s,
{
    let b = encoded_all(s);
    assert forall|i: int| 0 <= i < s.len() implies #[trigger] decoded_all(b)[i] == s[i] by {
        law_bytes_round_trip(s[i]);
        assert(b.subrange(4 * i, 4 * i + 4) =~= s[i].encoded());
    }
    assert(decoded_all(b) =~= s);
}

/// Writing the numbers that some bytes hold gives the bytes back, up to the last
/// whole number.
pub proof fn law_number_bytes_round_trip(b: Seq<u8>)
    ensures
        encoded_all(decoded_all(b)) == b.take(4 * (b.len() / 4) as int),
{
    let s = decoded_all(b);
    assert forall|i: int| 0 <= i < 4 * s.len() implies #[trigger] encoded_all(s)[i] == b[i] by {
        let k = i / 4;
        let part = b.subrange(4 * k, 4 * k + 4);
        law_encoding_round_trip(part);
        assert(part[i % 4] == b[i]);
    }
    assert(encoded_all(s) =~= b.take(4 * (b.len() / 4) as int));
}

/// An array that holds `x` everywhere.
pub fn repeated(x: Binary32) -> (a: [Binary32; MAX_JOINTS])
    ensures
        a@ == Seq::new(MAX_JOINTS as nat, |i: int| x),
{
    let mut a: [Binary32; MAX_JOINTS] = [x;MAX_JOINTS];
    let mut i: usize = 0;
    while i < MAX_JOINTS
        invariant
            i <= MAX_JOINTS,
            forall|j: int| 0 <= j < i ==> #[trigger] a@[j] == x,
        decreases MAX_JOINTS - i,
    {
        a[i] = x;
        i = i + 1;
    }
    assert(a@ =~= Seq::new(MAX_JOINTS as nat, |i: int| x));
    a
}

/// Copies numbers into an array, up to its end.
pub fn copy_numbers(dst: &mut [Binary32; MAX_JOINTS], src: &[Binary32]) -> (n: usize)
    ensures
        n == shorter(src@.len(), MAX_JOINTS as nat),
        forall|i: int| 0 <= i < n ==> #[trigger] final(dst)@[i] == src@[i],
        forall|i: int| n <= i < MAX_JOINTS ==> #[trigger] final(dst)@[i] == old(dst)@[i],
{
    let n: usize = if src.len() < MAX_JOINTS {
        src.len()
    } else {
        MAX_JOINTS
    };
    let mut i: usize = 0;
    while i < n
        invariant
            i <= n <= MAX_JOINTS,
            n <= src@.len(),
            forall|j: int| 0 <= j < i ==> #[trigger] dst@[j] == src@[j],
            forall|j: int| i <= j < MAX_JOINTS ==> #[trigger] dst@[j] == old(dst)@[j],
        decreases n - i,
    {
        dst[i] = src[i];
        i = i + 1;
    }
    n
}

/// Writes the first `len` numbers, as far as `out` has room for them, and returns
/// the number of bytes written.
pub fn write_numbers(values: &[Binary32; MAX_JOINTS], len: usize, out: &mut [u8]) -> (written:
    usize)
    requires
        shorter(len as nat, old(out)@.len() / 4) <= MAX_JOINTS,
    ensures
        written == 4 * shorter(len as nat, old(out)@.len() / 4),
        final(out)@ == encoded_all(values@.take(written as int / 4)) + old(out)@.skip(
            written as int,
        ),
{
    let room: usize = out.len() / 4;
    let n: usize = if len < room {
        len
    } else {
        room
    };
    let mut i: usize = 0;
    while i < n
        invariant
            i <= n <= MAX_JOINTS,
            4 * n <= out@.len(),
            out@.len() == old(out)@.len(),
            forall|j: int|
                0 <= j < 4 * i ==> #[trigger] out@[j] == values@[j / 4].encoded()[j % 4],
            forall|j: int| 4 * i <= j < out@.len() ==> #[trigger] out@[j] == old(out)@[j],
        decreases n - i,
    {
        let b: [u8; 4] = values[i].to_le_bytes();
        out[4 * i] = b[0];
        out[4 * i + 1] = b[1];
        out[4 * i + 2] = b[2];
        out[4 * i + 3] = b[3];
        i = i + 1;
    }
    proof {
        assert(final(out)@ =~= encoded_all(values@.take(n as int)) + old(out)@.skip(4 * n as int));
    }
    4 * n
}

/// The bytes of a number are those of its encoding, least significant first.
pub proof fn law_least_significant_first(s: Seq<Binary32>, i: int)
    requires
        0 <= i < s.len(),
    ensures
        ({
            let b = encoded_all(s);
            s[i].bits == b[4 * i] + 256 * b[4 * i + 1] + 65536 * b[4 * i + 2] + 16777216 * b[4 * i
                + 3]
        }),
{
    let b = encoded_all(s);
    let e = s[i].encoded();
    assert(b[4 * i] == e[0] && b[4 * i + 1] == e[1] && b[4 * i + 2] == e[2] && b[4 * i + 3]
        == e[3]);
}

} // verus!
