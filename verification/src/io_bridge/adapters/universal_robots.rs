//! Universal Robots: telemetry from the Real-Time Client (port 30003), commands in
//! URScript (port 30002).
//!
//! Telemetry, behind its length in four big-endian bytes, holds the actual positions
//! of six joints as double precision numbers from position 248 on. A command is
//! `servoj([q1, .., q6], 0, 0, 0.008, 0.05, 100)`.

use crate::io_bridge::adapters::framing::{
    cut_to_room, decode_prefixed, joined, lemma_written_from_start, lit, prefixed_telemetry,
    put_joined,
};
use crate::io_bridge::adapters::{BrandAdapter, FrameStrategy, Framing, Telemetry};
use crate::io_bridge::command_vector::{CommandVector, MAX_JOINTS};
use crate::io_bridge::robot_brand::RobotBrand;
use crate::io_bridge::wire::shorter;
use crate::numeric::binary32::Binary32;
use crate::numeric::bounded_text::{lemma_wrote_both, put_str};
use crate::text::occurs_at;
use vstd::prelude::*;
use vstd::slice::*;

verus! {

pub const UR_JOINTS: usize = 6;

pub const UR_Q_ACTUAL_BODY_OFFSET: usize = 248;

/// Codec of the Universal Robots.
pub struct UniversalRobots;

/// The text of a command.
pub open spec fn servoj(values: Seq<Binary32>) -> Seq<u8> {
    lit("servoj([") + joined(
        values.take(shorter(values.len(), UR_JOINTS as nat) as int),
        lit(", "),
    ) + lit("], 0, 0, 0.008, 0.05, 100)\n")
}

impl BrandAdapter for UniversalRobots {
    open spec fn brand_is(&self) -> RobotBrand {
        RobotBrand::UniversalRobots
    }

    open spec fn protocol_text(&self) -> Seq<char> {
        "UR RT-Client + URScript"@
    }

    open spec fn framing(&self) -> Framing {
        Framing::LengthPrefixed { header_bytes: 4 }
    }

    open spec fn telemetry(&self, acc: Seq<u8>, joint_count: nat) -> Option<Telemetry> {
        prefixed_telemetry(acc, joint_count, UR_JOINTS as nat, UR_Q_ACTUAL_BODY_OFFSET as nat)
    }

    open spec fn encoding(&self, values: Seq<Binary32>, room: nat) -> Seq<u8> {
        cut_to_room(servoj(values), room)
    }

    open spec fn hint(&self) -> nat {
        1024
    }

    fn brand(&self) -> (b: RobotBrand) {
        RobotBrand::UniversalRobots
    }

    fn protocol_label(&self) -> (s: &'static str) {
        "UR RT-Client + URScript"
    }

    fn frame_strategy(&self) -> (f: FrameStrategy) {
        FrameStrategy::LengthPrefixed { header_bytes: 4 }
    }

    fn decode_telemetry(&self, acc: &[u8], joint_count: usize) -> (r: Option<
        (usize, [Binary32; MAX_JOINTS], usize),
    >) {
        decode_prefixed(acc, joint_count, UR_JOINTS, UR_Q_ACTUAL_BODY_OFFSET)
    }

    fn encode_command(&self, command: &CommandVector, out: &mut [u8]) -> (written: usize) {
        let values: &[Binary32] = command.as_slice();
        let n: usize = if values.len() < UR_JOINTS {
            values.len()
        } else {
            UR_JOINTS
        };
        let first: &[Binary32] = slice_subrange(values, 0, n);
        assert(first@ =~= command@.take(shorter(command@.len(), UR_JOINTS as nat) as int));
        let ghost before = out@;
        let head: usize = put_str(out, 0, "servoj([");
        let ghost out1 = out@;
        let body: usize = put_joined(out, head, first, ", ");
        let ghost out2 = out@;
        let written: usize = put_str(out, body, "], 0, 0, 0.008, 0.05, 100)\n");
        proof {
            let t1 = lit("servoj([");
            let t2 = joined(first@, lit(", "));
            let t3 = lit("], 0, 0, 0.008, 0.05, 100)\n");
            lemma_wrote_both(before, 0, t1, out1, head as int, t2, out2, body as int);
            lemma_wrote_both(before, 0, t1 + t2, out2, body as int, t3, out@, written as int);
            lemma_written_from_start(before, servoj(command@), out@, written as int);
        }
        written
    }

    fn buffer_hint(&self) -> (n: usize) {
        1024
    }
}

/// Where the text of value `k` begins in a command: behind `servoj([`, the texts before it,
/// and a comma and a space behind each of these.
pub open spec fn value_at(values: Seq<Binary32>, k: int) -> int
    decreases k,
{
    if k <= 0 {
        8
    } else {
        value_at(values, k - 1) + values[k - 1].text(6).len() + 2
    }
}

/// Where the texts of some numbers begin, with a separator of two bytes between them.
proof fn lemma_joined_at(values: Seq<Binary32>, sep: Seq<u8>, k: int)
    requires
        0 <= k < values.len(),
        sep.len() == 2,
    ensures
        ({
            let all = joined(values, sep);
            let at = value_at(values, k) - 8;
            let end = at + values[k].text(6).len();
            &&& occurs_at(all, values[k].text(6), at)
            &&& k + 1 < values.len() ==> occurs_at(all, sep, end)
            &&& k + 1 == values.len() ==> end == all.len()
        }),
    decreases values.len(),
{
    let all = joined(values, sep);
    let t = values[k].text(6);
    let at = value_at(values, k) - 8;
    if values.len() == 1 {
        assert(all.subrange(0, t.len() as int) =~= t);
    } else {
        let front = values.drop_last();
        let head = joined(front, sep);
        let last = values.last().text(6);
        lemma_joined_at(front, sep, front.len() - 1);
        lemma_value_at(values, front, front.len() - 1);
        assert(value_at(values, values.len() - 1) == value_at(values, values.len() - 2)
            + values[values.len() - 2].text(6).len() + 2);
        if k + 1 == values.len() {
            assert(all.subrange(at, at + t.len()) =~= t);
        } else {
            lemma_joined_at(front, sep, k);
            lemma_value_at(values, front, k);
            assert(front[k] == values[k]);
            assert(all.subrange(at, at + t.len()) =~= head.subrange(at, at + t.len()));
            let end = at + t.len();
            if k + 2 == values.len() {
                assert(end == head.len());
                assert(all.subrange(end, end + 2) =~= sep);
            } else {
                assert(all.subrange(end, end + 2) =~= head.subrange(end, end + 2));
            }
        }
    }
}

proof fn lemma_value_at(a: Seq<Binary32>, b: Seq<Binary32>, k: int)
    requires
        b.len() <= a.len(),
        k <= b.len(),
        forall|i: int| 0 <= i < b.len() ==> #[trigger] a[i] == b[i],
    ensures
        value_at(a, k) == value_at(b, k),
    decreases k,
{
    if k > 0 {
        lemma_value_at(a, b, k - 1);
        assert(a[k - 1] == b[k - 1]);
    }
}

/// A command calls `servoj` with the values of the joints, in order: the text of value `k`
/// stands behind those of the values before it. At most six values are sent, and behind the
/// last one stand the parameters of the servo.
pub proof fn law_command_lists_the_values(values: Seq<Binary32>, room: nat, k: int)
    requires
        0 <= k < values.len(),
        k < 6,
        room >= servoj(values).len(),
    ensures
        ({
            let bytes = UniversalRobots.encoding(values, room);
            let end = value_at(values, k) + values[k].text(6).len();
            &&& occurs_at(bytes, lit("servoj(["), 0)
            &&& occurs_at(bytes, values[k].text(6), value_at(values, k))
            &&& k + 1 < values.len() && k < 5 ==> occurs_at(bytes, lit(", "), end)
            &&& k + 1 == values.len() || k == 5 ==> bytes.skip(end) == lit(
                "], 0, 0, 0.008, 0.05, 100)\n",
            )
        }),
{
    let bytes = UniversalRobots.encoding(values, room);
    let n = shorter(values.len(), UR_JOINTS as nat) as int;
    let first = values.take(n);
    let sep = lit(", ");
    let open = lit("servoj([");
    let close = lit("], 0, 0, 0.008, 0.05, 100)\n");
    let list = joined(first, sep);
    reveal_strlit(", ");
    reveal_strlit("servoj([");
    assert(", ".is_ascii());
    assert("servoj([".is_ascii());
    assert(sep.len() == 2);
    assert(open.len() == 8);
    assert(bytes =~= open + list + close);
    lemma_joined_at(first, sep, k);
    lemma_value_at(values, first, k);
    let t = values[k].text(6);
    let at = value_at(values, k);
    let end = at + t.len();
    assert(first[k] == values[k]);
    assert(bytes.subrange(0, 8) =~= open);
    assert(bytes.subrange(at, end) =~= list.subrange(at - 8, end - 8));
    if k + 1 < n {
        assert(bytes.subrange(end, end + 2) =~= list.subrange(end - 8, end - 6));
    } else {
        assert(bytes.skip(end) =~= close);
    }
}

} // verus!
