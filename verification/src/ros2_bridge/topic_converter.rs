//! Register frames become numbers in the format of the vectors.

use crate::io_bridge::wire::decoded_all;
use crate::numeric::accuracy::{law_small_whole_is_exact, one_unit};
use crate::numeric::binary32::{law_bytes_round_trip, whole_single, Binary32};
use vstd::prelude::*;

verus! {

/// Size of a frame that carries nothing.
pub const EMPTY_FRAME: usize = 16;

/// Zeros, which stand for a frame that cannot be read.
pub open spec fn no_frame() -> Seq<u8> {
    Seq::new(EMPTY_FRAME as nat, |i: int| 0u8)
}

/// `s`, filled up with zeros to `n` bytes.
pub open spec fn zero_filled(s: Seq<u8>, n: nat) -> Seq<u8> {
    Seq::new(
        n,
        |i: int|
            if i < s.len() {
                s[i]
            } else {
                0u8
            },
    )
}

/// The bytes of a register as a number.
pub open spec fn register_bytes(high: u8, low: u8) -> Seq<u8> {
    whole_single((256 * high + low) as u64).encoded()
}

/// The bytes of the registers `s`, each a big-endian pair.
pub open spec fn registers(s: Seq<u8>) -> Seq<u8>
    decreases s.len(),
{
    if s.len() < 2 {
        Seq::empty()
    } else {
        registers(s.take(s.len() - 2)) + register_bytes(s[s.len() - 2], s[s.len() - 1])
    }
}

/// What becomes of a frame, by its function code. A reading of registers (3 or 4) passes
/// its payload on, filled up to whole numbers; a writing of registers (16) gives each
/// register as a number; any other frame is cut, or filled up, to 16 bytes.
pub open spec fn converted(raw: Seq<u8>) -> Seq<u8> {
    if raw.len() < 4 {
        no_frame()
    } else if raw[0] == 0x03 || raw[0] == 0x04 {
        let n = raw[1] as int;
        if raw.len() >= 2 + n + 2 {
            zero_filled(raw.subrange(2, 2 + n), (4 * ((n + 3) / 4)) as nat)
        } else {
            no_frame()
        }
    } else if raw[0] == 0x10 {
        let n = raw[6] as int;
        if raw.len() >= 7 + n {
            registers(raw.subrange(7, 7 + n))
        } else {
            no_frame()
        }
    } else {
        zero_filled(raw, EMPTY_FRAME as nat)
    }
}

/// The frame can be taken apart: one that writes registers has its head, and whole
/// registers.
pub open spec fn well_formed(raw: Seq<u8>) -> bool {
    raw.len() >= 4 && raw[0] == 0x10 ==> raw.len() >= 7 && (raw.len() >= 7 + raw[6] ==> raw[6] % 2
        == 0)
}

/// Whether the frame can be taken apart.
pub fn is_well_formed(raw: &[u8]) -> (r: bool)
    ensures
        r == well_formed(raw@),
{
    if raw.len() < 4 || raw[0] != 0x10 {
        return true;
    }
    raw.len() >= 7 && (raw.len() < 7 + raw[6] as usize || raw[6] % 2 == 0)
}

/// The `n` bytes of `raw` from position `from` on, as far as there are any, filled up
/// with zeros.
fn fill(raw: &[u8], from: usize, end: usize, n: usize) -> (v: Vec<u8>)
    requires
        from <= end <= raw@.len(),
    ensures
        v@ == zero_filled(raw@.subrange(from as int, end as int), n as nat),
{
    let ghost part = raw@.subrange(from as int, end as int);
    let mut v: Vec<u8> = Vec::new();
    let mut i: usize = 0;
    while i < n
        invariant
            i <= n,
            from <= end <= raw@.len(),
            part == raw@.subrange(from as int, end as int),
            v@ == zero_filled(part, n as nat).take(i as int),
        decreases n - i,
    {
        if i < end - from {
            v.push(raw[from + i]);
        } else {
            v.push(0);
        }
        i = i + 1;
        assert(v@ =~= zero_filled(part, n as nat).take(i as int));
    }
    assert(v@ =~= zero_filled(part, n as nat));
    v
}

fn read_registers(raw: &[u8], n: usize) -> (v: Vec<u8>)
    requires
        n % 2 == 0,
        n <= 255,
        7 + n <= raw@.len(),
    ensures
        v@ == registers(raw@.subrange(7, 7 + n)),
{
    let mut v: Vec<u8> = Vec::new();
    let mut i: usize = 0;
    while i < n
        invariant
            i <= n <= 255,
            i % 2 == 0,
            n % 2 == 0,
            7 + n <= raw@.len(),
            v@ == registers(raw@.subrange(7, 7 + i)),
        decreases n - i,
    {
        proof {
            let s = raw@.subrange(7, 7 + i + 2);
            assert(s.take(s.len() - 2) =~= raw@.subrange(7, 7 + i));
        }
        let value: u64 = 256 * (raw[7 + i] as u64) + raw[8 + i] as u64;
        let bytes: [u8; 4] = Binary32::from_whole(value).to_le_bytes();
        let ghost before = v@;
        v.push(bytes[0]);
        v.push(bytes[1]);
        v.push(bytes[2]);
        v.push(bytes[3]);
        assert(v@ =~= before + bytes@);
        i = i + 2;
    }
    v
}

/// Converts a frame.
pub fn fieldbus_parse_modbus_frame(raw: &[u8]) -> (v: Vec<u8>)
    requires
        well_formed(raw@),
    ensures
        v@ == converted(raw@),
{
    if raw.len() < 4 {
        let v: Vec<u8> = fill(raw, 0, 0, EMPTY_FRAME);
        assert(v@ =~= no_frame());
        return v;
    }
    let code: u8 = raw[0];
    if code == 0x03 || code == 0x04 {
        let n: usize = raw[1] as usize;
        if raw.len() >= 2 + n + 2 {
            return fill(raw, 2, 2 + n, 4 * ((n + 3) / 4));
        }
        let v: Vec<u8> = fill(raw, 0, 0, EMPTY_FRAME);
        assert(v@ =~= no_frame());
        return v;
    }
    if code == 0x10 {
        let n: usize = raw[6] as usize;
        if raw.len() >= 7 + n {
            return read_registers(raw, n);
        }
        let v: Vec<u8> = fill(raw, 0, 0, EMPTY_FRAME);
        assert(v@ =~= no_frame());
        return v;
    }
    let v: Vec<u8> = fill(raw, 0, raw.len(), EMPTY_FRAME);
    assert(raw@.subrange(0, raw@.len() as int) =~= raw@);
    v
}

/// A frame always becomes whole numbers.
pub proof fn law_converted_is_whole_numbers(raw: Seq<u8>)
    requires
        well_formed(raw),
    ensures
        converted(raw).len() % 4 == 0,
{
    if raw.len() >= 7 && raw[0] == 0x10 && raw.len() >= 7 + raw[6] {
        lemma_registers_length(raw.subrange(7, 7 + raw[6] as int));
    }
}

proof fn lemma_registers_length(s: Seq<u8>)
    ensures
        registers(s).len() == 4 * (s.len() / 2),
    decreases s.len(),
{
    if s.len() >= 2 {
        lemma_registers_length(s.take(s.len() - 2));
    }
}

/// A frame that cannot be read becomes zeros.
pub proof fn law_short_frame_is_empty(raw: Seq<u8>, i: int)
    requires
        raw.len() < 4 || ((raw[0] == 3 || raw[0] == 4) && raw.len() < raw[1] + 4) || (raw[0] == 16
            && raw.len() >= 7 && raw.len() < raw[6] + 7),
        0 <= i < 16,
    ensures
        converted(raw).len() == 16,
        converted(raw)[i] == 0,
{
}

/// A reading of registers passes its payload on byte by byte, behind the code and the count.
/// What fills it up to whole numbers is zeros, less than one number of them.
pub proof fn law_reading_passes_through(raw: Seq<u8>, i: int)
    requires
        raw.len() >= 4,
        raw[0] == 3 || raw[0] == 4,
        raw.len() >= raw[1] + 4,
        0 <= i < converted(raw).len(),
    ensures
        raw[1] <= converted(raw).len() < raw[1] + 4,
        i < raw[1] ==> converted(raw)[i] == raw[2 + i],
        i >= raw[1] ==> converted(raw)[i] == 0,
{
}

/// A writing of registers gives for each register, a big-endian pair behind the head of seven
/// bytes, exactly its number, in the order of the registers.
pub proof fn law_registers_are_numbers(raw: Seq<u8>, k: int)
    requires
        well_formed(raw),
        raw.len() >= 7,
        raw[0] == 16,
        raw.len() >= raw[6] + 7,
        0 <= k < raw[6] / 2,
    ensures
        decoded_all(converted(raw)).len() == raw[6] / 2,
        decoded_all(converted(raw))[k].finite(),
        decoded_all(converted(raw))[k].value() == (256 * raw[7 + 2 * k] + raw[8 + 2 * k])
            * one_unit(),
{
    let s = raw.subrange(7, 7 + raw[6] as int);
    let n = (256 * raw[7 + 2 * k] + raw[8 + 2 * k]) as u64;
    lemma_registers_length(s);
    lemma_register_at(s, k);
    law_bytes_round_trip(whole_single(n));
    law_small_whole_is_exact(n);
}

proof fn lemma_register_at(s: Seq<u8>, k: int)
    requires
        s.len() % 2 == 0,
        0 <= k < s.len() / 2,
    ensures
        registers(s).len() == 4 * (s.len() / 2),
        registers(s).subrange(4 * k, 4 * k + 4) == register_bytes(s[2 * k], s[2 * k + 1]),
    decreases s.len(),
{
    let t = s.take(s.len() - 2);
    lemma_registers_length(s);
    lemma_registers_length(t);
    if k < t.len() / 2 {
        lemma_register_at(t, k);
        assert(registers(s).subrange(4 * k, 4 * k + 4) =~= registers(t).subrange(
            4 * k,
            4 * k + 4,
        ));
    } else {
        assert(registers(s).subrange(4 * k, 4 * k + 4) =~= register_bytes(
            s[2 * k],
            s[2 * k + 1],
        ));
    }
}

/// Any other frame keeps its first 16 bytes, and is filled up with zeros.
pub proof fn law_other_frame_is_cut(raw: Seq<u8>, i: int)
    requires
        raw.len() >= 4,
        raw[0] != 3,
        raw[0] != 4,
        raw[0] != 16,
        0 <= i < 16,
    ensures
        converted(raw).len() == 16,
        i < raw.len() ==> converted(raw)[i] == raw[i],
        i >= raw.len() ==> converted(raw)[i] == 0,
{
}

} // verus!
