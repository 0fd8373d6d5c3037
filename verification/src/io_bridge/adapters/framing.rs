//! What the codecs share: frames of fixed size, frames that begin with their
//! length, and text that is cut where the buffer ends.

use crate::io_bridge::adapters::{returned, Telemetry};
use crate::io_bridge::command_vector::MAX_JOINTS;
use crate::io_bridge::wire::{decoded_all, filled, repeated, shorter};
use crate::numeric::binary32::{number_zero, Binary32};
use crate::numeric::binary64::Binary64;
use crate::numeric::bounded_text::{lemma_wrote_both, placed, put_str, wrote};
use crate::text::occurs_at;
use vstd::prelude::*;
use vstd::slice::*;
use vstd::string::*;

verus! {

/// The big-endian number of the four bytes from position `k` on.
pub open spec fn four_bytes(b: Seq<u8>, k: int) -> nat {
    (16777216 * b[k] + 65536 * b[k + 1] + 256 * b[k + 2] + b[k + 3]) as nat
}

/// The double precision number that the eight bytes from position `k` on encode,
/// most significant first.
pub open spec fn double_at(b: Seq<u8>, k: int) -> Binary64 {
    Binary64 { bits: (four_bytes(b, k) * 0x1_0000_0000 + four_bytes(b, k + 4)) as u64 }
}

fn read_u32_be(b: &[u8], k: usize) -> (n: u32)
    requires
        k + 4 <= b@.len(),
    ensures
        n == four_bytes(b@, k as int),
{
    16777216 * (b[k] as u32) + 65536 * (b[k + 1] as u32) + 256 * (b[k + 2] as u32) + b[k + 3] as u32
}

fn read_f64_be(b: &[u8], k: usize) -> (x: Binary64)
    requires
        k + 8 <= b@.len(),
    ensures
        x == double_at(b@, k as int),
{
    let total: usize = b.len();
    assert(k + 8 <= total);
    let high: u32 = read_u32_be(b, k);
    let low: u32 = read_u32_be(b, k + 4);
    Binary64 { bits: high as u64 * 0x1_0000_0000 + low as u64 }
}

/// Size of a frame of fixed size.
pub open spec fn fixed_size(joint_count: nat) -> nat {
    if 4 * joint_count > usize::MAX {
        usize::MAX as nat
    } else {
        4 * joint_count
    }
}

/// The message that a frame of fixed size holds: one number per joint.
pub open spec fn fixed_telemetry(acc: Seq<u8>, joint_count: nat) -> Option<Telemetry> {
    if joint_count == 0 || acc.len() < fixed_size(joint_count) {
        None
    } else {
        let active = shorter(joint_count, MAX_JOINTS as nat);
        Some(
            Telemetry {
                consumed: fixed_size(joint_count),
                values: filled(decoded_all(acc).take(active as int)),
                active,
            },
        )
    }
}

/// Decodes a frame of fixed size.
pub fn decode_fixed(acc: &[u8], joint_count: usize) -> (r: Option<
    (usize, [Binary32; MAX_JOINTS], usize),
>)
    ensures
        returned(r) == fixed_telemetry(acc@, joint_count as nat),
        r is Some ==> 0 < (r->0).0 <= acc@.len(),
        r is Some ==> (r->0).2 <= MAX_JOINTS,
{
    let frame_size: usize = if joint_count > usize::MAX / 4 {
        usize::MAX
    } else {
        4 * joint_count
    };
    if frame_size == 0 || acc.len() < frame_size {
        return None;
    }
    let n: usize = if joint_count < MAX_JOINTS {
        joint_count
    } else {
        MAX_JOINTS
    };
    let ghost all = decoded_all(acc@);
    assert(4 * n <= acc@.len());
    let mut values: [Binary32; MAX_JOINTS] = repeated(Binary32::zero());
    let mut i: usize = 0;
    while i < n
        invariant
            i <= n <= MAX_JOINTS,
            4 * n <= acc@.len(),
            all == decoded_all(acc@),
            forall|j: int| 0 <= j < i ==> #[trigger] values@[j] == all[j],
            forall|j: int| i <= j < MAX_JOINTS ==> #[trigger] values@[j] == number_zero(),
        decreases n - i,
    {
        let k: usize = 4 * i;
        assert(acc@.subrange(4 * i as int, 4 * i as int + 4) =~= seq![
            acc@[k as int],
            acc@[k + 1],
            acc@[k + 2],
            acc@[k + 3],
        ]);
        values[i] = Binary32::from_le_bytes(acc[k], acc[k + 1], acc[k + 2], acc[k + 3]);
        i = i + 1;
    }
    assert(values@ =~= filled(all.take(n as int)));
    Some((frame_size, values, n))
}

/// How many double precision numbers a frame of `size` bytes holds from position `offset`
/// behind its length on.
pub open spec fn held_doubles(size: nat, offset: nat) -> nat {
    if size < 4 + offset {
        0
    } else {
        ((size - 4 - offset) / 8) as nat
    }
}

/// The message of a frame that begins with its length: double precision numbers, one
/// per joint, from position `offset` behind the length on; at most `joints` of them. A
/// complete frame that is too short for all of them is a message too, with those that it
/// holds. A length below that of the length itself announces no frame.
pub open spec fn prefixed_telemetry(
    acc: Seq<u8>,
    joint_count: nat,
    joints: nat,
    offset: nat,
) -> Option<Telemetry> {
    let size = four_bytes(acc, 0);
    let active = shorter(shorter(joint_count, joints), held_doubles(size, offset));
    if acc.len() < 4 || size < 4 || acc.len() < size {
        None
    } else {
        Some(
            Telemetry {
                consumed: size,
                values: filled(
                    Seq::new(
                        active,
                        |i: int| double_at(acc, 4 + offset + 8 * i).narrowed(),
                    ),
                ),
                active,
            },
        )
    }
}

/// Decodes a frame that begins with its length.
pub fn decode_prefixed(acc: &[u8], joint_count: usize, joints: usize, offset: usize) -> (r: Option<
    (usize, [Binary32; MAX_JOINTS], usize),
>)
    requires
        joints <= MAX_JOINTS,
        offset <= 1024,
    ensures
        returned(r) == prefixed_telemetry(acc@, joint_count as nat, joints as nat, offset as nat),
        r is Some ==> 0 < (r->0).0 <= acc@.len(),
        r is Some ==> (r->0).2 <= MAX_JOINTS,
{
    if acc.len() < 4 {
        return None;
    }
    let size: usize = read_u32_be(acc, 0) as usize;
    if size < 4 || acc.len() < size {
        return None;
    }
    let held: usize = if size < 4 + offset {
        0
    } else {
        (size - 4 - offset) / 8
    };
    let wanted: usize = if joint_count < joints {
        joint_count
    } else {
        joints
    };
    let n: usize = if wanted < held {
        wanted
    } else {
        held
    };
    let mut values: [Binary32; MAX_JOINTS] = repeated(Binary32::zero());
    let mut i: usize = 0;
    while i < n
        invariant
            i <= n <= MAX_JOINTS,
            offset <= 1024,
            n > 0 ==> 4 + offset + 8 * n <= size,
            size <= acc@.len(),
            forall|j: int|
                0 <= j < i ==> #[trigger] values@[j] == double_at(
                    acc@,
                    4 + offset + 8 * j,
                ).narrowed(),
            forall|j: int| i <= j < MAX_JOINTS ==> #[trigger] values@[j] == number_zero(),
        decreases n - i,
    {
        values[i] = read_f64_be(acc, 4 + offset + 8 * i).narrow();
        i = i + 1;
    }
    assert(values@ =~= filled(
        Seq::new(n as nat, |i: int| double_at(acc@, 4 + offset + 8 * i).narrowed()),
    ));
    Some((size, values, n))
}

/// The bytes of a text.
pub open spec fn lit(s: &str) -> Seq<u8> {
    s.spec_bytes()
}

/// The beginning of `text` that fits into `room` bytes.
pub open spec fn cut_to_room(text: Seq<u8>, room: nat) -> Seq<u8> {
    text.take(shorter(text.len(), room) as int)
}

/// A text that was written from the beginning of a buffer on is cut to its room, and
/// leaves what comes behind as it was.
pub proof fn lemma_written_from_start(before: Seq<u8>, text: Seq<u8>, after: Seq<u8>, next: int)
    requires
        wrote(before, 0, text, after, next),
    ensures
        next == cut_to_room(text, before.len()).len(),
        after == cut_to_room(text, before.len()) + before.skip(next),
{
    assert(after =~= cut_to_room(text, before.len()) + before.skip(next));
}

/// The numbers with six decimals, with `separator` between them.
pub open spec fn joined(values: Seq<Binary32>, separator: Seq<u8>) -> Seq<u8>
    decreases values.len(),
{
    if values.len() == 0 {
        Seq::empty()
    } else if values.len() == 1 {
        values[0].text(6)
    } else {
        joined(values.drop_last(), separator) + separator + values.last().text(6)
    }
}

/// Writes the numbers with six decimals, with `separator` between them.
pub fn put_joined(out: &mut [u8], pos: usize, values: &[Binary32], separator: &str) -> (next: usize)
    requires
        pos <= old(out)@.len(),
    ensures
        wrote(old(out)@, pos as int, joined(values@, lit(separator)), final(out)@, next as int),
        next <= final(out)@.len(),
        final(out)@.len() == old(out)@.len(),
{
    let ghost before = out@;
    let mut next: usize = pos;
    let mut i: usize = 0;
    assert(out@ =~= placed(before, pos as int, joined(values@.take(0), lit(separator))));
    while i < values.len()
        invariant
            i <= values@.len(),
            pos <= before.len(),
            before.len() == out@.len(),
            next <= out@.len(),
            wrote(
                before,
                pos as int,
                joined(values@.take(i as int), lit(separator)),
                out@,
                next as int,
            ),
        decreases values@.len() - i,
    {
        let ghost done = joined(values@.take(i as int), lit(separator));
        let ghost out0 = out@;
        let ghost at0 = next as int;
        proof {
            assert(values@.take(i + 1).drop_last() =~= values@.take(i as int));
            assert(values@.take(i + 1).last() == values@[i as int]);
        }
        if i > 0 {
            next = put_str(out, next, separator);
        }
        let ghost between = if i > 0 {
            lit(separator)
        } else {
            Seq::empty()
        };
        let ghost out1 = out@;
        let ghost at1 = next as int;
        next = values[i].put_text(out, next, 6);
        proof {
            let text = values@[i as int].text(6);
            assert(wrote(out0, at0, between, out1, at1)) by {
                assert(out0 =~= placed(out0, at0, Seq::empty()));
            }
            lemma_wrote_both(before, pos as int, done, out0, at0, between, out1, at1);
            lemma_wrote_both(
                before,
                pos as int,
                done + between,
                out1,
                at1,
                text,
                out@,
                next as int,
            );
            assert(done + between + text =~= joined(values@.take(i + 1), lit(separator)));
        }
        i = i + 1;
    }
    assert(values@.take(i as int) =~= values@);
    next
}

/// Position of the first `w` in `s` at or behind position `from`.
pub open spec fn first_at(s: Seq<u8>, w: Seq<u8>, from: int) -> Option<int>
    decreases s.len() - from + 1,
{
    if from < 0 || from + w.len() > s.len() {
        None
    } else if occurs_at(s, w, from) {
        Some(from)
    } else {
        first_at(s, w, from + 1)
    }
}

/// What is found lies behind the start and ends within the text.
pub proof fn lemma_first_at(s: Seq<u8>, w: Seq<u8>, from: int)
    ensures
        first_at(s, w, from) is Some ==> {
            let k = first_at(s, w, from)->0;
            0 <= from <= k && k + w.len() <= s.len() && occurs_at(s, w, k) && (forall|j: int|
                from <= j < k ==> !occurs_at(s, w, j))
        },
        first_at(s, w, from) is None ==> forall|j: int|
            from <= j && 0 <= from ==> !occurs_at(s, w, j),
    decreases s.len() - from + 1,
{
    if from < 0 || from + w.len() > s.len() {
    } else if occurs_at(s, w, from) {
    } else {
        lemma_first_at(s, w, from + 1);
    }
}

fn stands_at(s: &[u8], w: &[u8], k: usize) -> (r: bool)
    requires
        k + w@.len() <= s@.len(),
    ensures
        r == occurs_at(s@, w@, k as int),
{
    let total: usize = s.len();
    let mut i: usize = 0;
    while i < w.len()
        invariant
            i <= w@.len(),
            total == s@.len(),
            k + w@.len() <= s@.len(),
            forall|j: int| 0 <= j < i ==> s@[k + j] == #[trigger] w@[j],
        decreases w@.len() - i,
    {
        if s[k + i] != w[i] {
            assert(!occurs_at(s@, w@, k as int)) by {
                if occurs_at(s@, w@, k as int) {
                    assert(s@.subrange(k as int, k + w@.len())[i as int] == w@[i as int]);
                }
            }
            return false;
        }
        i = i + 1;
    }
    assert(s@.subrange(k as int, k + w@.len()) =~= w@);
    true
}

/// Position of the first `needle` at or behind position `from`.
pub fn find_from(haystack: &[u8], needle: &[u8], from: usize) -> (r: Option<usize>)
    ensures
        match r {
            None => first_at(haystack@, needle@, from as int) is None,
            Some(k) => first_at(haystack@, needle@, from as int) == Some(k as int),
        },
        r is Some ==> from <= r->0 && r->0 + needle@.len() <= haystack@.len(),
{
    proof {
        lemma_first_at(haystack@, needle@, from as int);
    }
    if needle.len() > haystack.len() {
        return None;
    }
    let last: usize = haystack.len() - needle.len();
    let mut k: usize = from;
    while k <= last
        invariant
            last + needle@.len() == haystack@.len(),
            from <= k,
            first_at(haystack@, needle@, from as int) == first_at(haystack@, needle@, k as int),
        decreases last + 1 - k,
    {
        if stands_at(haystack, needle, k) {
            return Some(k);
        }
        if k == last {
            return None;
        }
        k = k + 1;
    }
    None
}

} // verus!
