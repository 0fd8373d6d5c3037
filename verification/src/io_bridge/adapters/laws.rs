//! What holds of every codec.

use crate::io_bridge::adapters::framing::{
    double_at, first_at, fixed_size, fixed_telemetry, four_bytes, held_doubles, lemma_first_at,
    lit, prefixed_telemetry,
};
use crate::io_bridge::adapters::{adapter_of, Adapter, BrandAdapter, Telemetry};
use crate::io_bridge::command_vector::MAX_JOINTS;
use crate::io_bridge::robot_brand::RobotBrand;
use crate::io_bridge::wire::{decoded_all, filled, law_numbers_round_trip, shorter};
use crate::numeric::binary32::Binary32;
use crate::numeric::binary64::Binary64;
use crate::text::occurs_at;
use vstd::prelude::*;
use vstd::string::*;

verus! {

/// A decoded message takes at least one byte, and no more than there are.
pub proof fn law_message_is_consumed(a: Adapter, acc: Seq<u8>, joint_count: nat)
    ensures
        a.telemetry(acc, joint_count) is Some ==> 0 < a.telemetry(acc, joint_count)->0.consumed
            <= acc.len(),
{
    reveal_strlit("\n");
    assert("\n".is_ascii());
    assert(lit("\n").len() == 1);
    lemma_first_at(acc, lit("\n"), 0);
    reveal_strlit("</Rob>");
    assert("</Rob>".is_ascii());
    assert(lit("</Rob>").len() == 6);
    lemma_first_at(acc, lit("</Rob>"), 0);
}

/// Where no message is decoded, more bytes are needed: there are bytes behind which a
/// message is. Left out are a robot without joints, whose frames of fixed size are empty,
/// and a length that announces no frame.
pub proof fn law_none_needs_more_bytes(a: Adapter, acc: Seq<u8>, joint_count: nat)
    requires
        joint_count > 0,
        a.telemetry(acc, joint_count) is None,
        (a is UniversalRobots || a is FrankaEmika) && acc.len() >= 4 ==> four_bytes(acc, 0) >= 4,
    ensures
        exists|more: Seq<u8>| a.telemetry(#[trigger] (acc + more), joint_count) is Some,
{
    let more = match a {
        Adapter::Kuka(_) => lit("</Rob>"),
        Adapter::Comau(_) => lit("\n"),
        Adapter::UniversalRobots(_) | Adapter::FrankaEmika(_) => if acc.len() >= 4 {
            Seq::new(four_bytes(acc, 0), |i: int| 0u8)
        } else {
            Seq::new(0x1_0000_0000, |i: int| 255u8)
        },
        Adapter::Amr(_) | Adapter::Generic(_) => Seq::new(fixed_size(joint_count), |i: int| 0u8),
    };
    let all = acc + more;
    match a {
        Adapter::Kuka(_) => {
            lemma_found_at_end(acc, lit("</Rob>"));
        },
        Adapter::Comau(_) => {
            lemma_found_at_end(acc, lit("\n"));
        },
        Adapter::UniversalRobots(_) | Adapter::FrankaEmika(_) => {
            if acc.len() >= 4 {
                assert(four_bytes(all, 0) == four_bytes(acc, 0));
            } else {
                assert(all[3] == 255);
            }
        },
        _ => {},
    }
    assert(a.telemetry(acc + more, joint_count) is Some);
}

proof fn lemma_found_at_end(s: Seq<u8>, w: Seq<u8>)
    ensures
        first_at(s + w, w, 0) is Some,
{
    lemma_first_at(s + w, w, 0);
    assert((s + w).subrange(s.len() as int, s.len() as int + w.len()) =~= w);
    assert(occurs_at(s + w, w, s.len() as int));
}

/// What follows a message does not change it.
pub proof fn law_later_bytes_do_not_matter(
    a: Adapter,
    acc: Seq<u8>,
    more: Seq<u8>,
    joint_count: nat,
)
    requires
        a.telemetry(acc, joint_count) is Some,
    ensures
        a.telemetry(acc + more, joint_count) == a.telemetry(acc, joint_count),
{
    match a {
        Adapter::Kuka(_) => {
            lemma_first_at_extends(acc, more, lit("</Rob>"), 0);
            lemma_first_at(acc, lit("</Rob>"), 0);
            let end = first_at(acc, lit("</Rob>"), 0)->0;
            assert((acc + more).take(end) =~= acc.take(end));
        },
        Adapter::Comau(_) => {
            lemma_first_at_extends(acc, more, lit("\n"), 0);
            lemma_first_at(acc, lit("\n"), 0);
            let end = first_at(acc, lit("\n"), 0)->0;
            assert((acc + more).take(end) =~= acc.take(end));
        },
        Adapter::UniversalRobots(_) => {
            lemma_prefixed_extends(acc, more, joint_count, 6, 248);
        },
        Adapter::FrankaEmika(_) => {
            lemma_prefixed_extends(acc, more, joint_count, 7, 8);
        },
        Adapter::Amr(_) => {
            lemma_fixed_extends(acc, more, joint_count);
        },
        Adapter::Generic(_) => {
            lemma_fixed_extends(acc, more, joint_count);
        },
    }
}

proof fn lemma_first_at_extends(s: Seq<u8>, more: Seq<u8>, w: Seq<u8>, from: int)
    requires
        first_at(s, w, from) is Some,
    ensures
        first_at(s + more, w, from) == first_at(s, w, from),
    decreases s.len() - from + 1,
{
    assert((s + more).subrange(from, from + w.len()) =~= s.subrange(from, from + w.len()));
    if !occurs_at(s, w, from) {
        lemma_first_at_extends(s, more, w, from + 1);
    }
}

proof fn lemma_fixed_extends(acc: Seq<u8>, more: Seq<u8>, joint_count: nat)
    requires
        fixed_telemetry(acc, joint_count) is Some,
    ensures
        fixed_telemetry(acc + more, joint_count) == fixed_telemetry(acc, joint_count),
{
    let active = shorter(joint_count, MAX_JOINTS as nat);
    assert(4 * active <= acc.len());
    assert forall|i: int| 0 <= i < active implies #[trigger] decoded_all(acc + more)[i]
        == decoded_all(acc)[i] by {
        assert((acc + more).subrange(4 * i, 4 * i + 4) =~= acc.subrange(4 * i, 4 * i + 4));
    }
    assert(decoded_all(acc + more).take(active as int) =~= decoded_all(acc).take(active as int));
}

proof fn lemma_prefixed_extends(
    acc: Seq<u8>,
    more: Seq<u8>,
    joint_count: nat,
    joints: nat,
    offset: nat,
)
    requires
        prefixed_telemetry(acc, joint_count, joints, offset) is Some,
    ensures
        prefixed_telemetry(acc + more, joint_count, joints, offset) == prefixed_telemetry(
            acc,
            joint_count,
            joints,
            offset,
        ),
{
    let active = shorter(
        shorter(joint_count, joints),
        held_doubles(four_bytes(acc, 0), offset),
    );
    assert(four_bytes(acc + more, 0) == four_bytes(acc, 0));
    assert forall|i: int| 0 <= i < active implies #[trigger] double_at(
        acc + more,
        4 + offset + 8 * i,
    ) == double_at(acc, 4 + offset + 8 * i) by {
        let k = 4 + offset + 8 * i;
        assert(four_bytes(acc + more, k) == four_bytes(acc, k));
        assert(four_bytes(acc + more, k + 4) == four_bytes(acc, k + 4));
    }
    assert(Seq::new(active, |i: int| double_at(acc + more, 4 + offset + 8 * i).narrowed())
        =~= Seq::new(active, |i: int| double_at(acc, 4 + offset + 8 * i).narrowed()));
}

/// A command never takes more room than there is.
pub proof fn law_encoding_fits(a: Adapter, values: Seq<Binary32>, room: nat)
    ensures
        a.encoding(values, room).len() <= room,
{
}

/// In the generic format, and in that of the mobile platforms, reading what was
/// written for a command gives its values back.
pub proof fn law_fixed_round_trip(a: Adapter, values: Seq<Binary32>, room: nat)
    requires
        a is Generic || a is Amr,
        0 < values.len() <= MAX_JOINTS,
        room >= 4 * values.len(),
    ensures
        a.telemetry(a.encoding(values, room), values.len()) == Some(
            Telemetry {
                consumed: 4 * values.len(),
                values: filled(values),
                active: values.len(),
            },
        ),
{
    assert(values.take(values.len() as int) =~= values);
    law_numbers_round_trip(values);
}

/// `n` in `width` bytes, most significant first.
pub open spec fn big_endian(n: nat, width: nat) -> Seq<u8>
    decreases width,
{
    if width == 0 {
        Seq::empty()
    } else {
        big_endian(n / 256, (width - 1) as nat).push((n % 256) as u8)
    }
}

/// Where the positions of the joints begin in a frame that begins with its length: for the
/// Universal Robots at 248 behind the length, for the Franka robots at 8.
pub open spec fn positions_at(a: Adapter) -> int {
    if a is UniversalRobots {
        252
    } else {
        12
    }
}

/// How many joints such a frame has.
pub open spec fn positions_in(a: Adapter) -> nat {
    if a is UniversalRobots {
        6
    } else {
        7
    }
}

proof fn lemma_big_endian_four(b: Seq<u8>, k: int, n: nat)
    requires
        0 <= k,
        k + 4 <= b.len(),
        n < 0x1_0000_0000,
        b.subrange(k, k + 4) == big_endian(n, 4),
    ensures
        four_bytes(b, k) == n,
{
    reveal_with_fuel(big_endian, 5);
    let s = b.subrange(k, k + 4);
    let n1 = n / 256;
    let n2 = n1 / 256;
    let n3 = n2 / 256;
    assert(s[0] == b[k] && s[1] == b[k + 1] && s[2] == b[k + 2] && s[3] == b[k + 3]);
    assert(s[3] == (n % 256) as u8);
    assert(s[2] == (n1 % 256) as u8);
    assert(s[1] == (n2 % 256) as u8);
    assert(s[0] == (n3 % 256) as u8);
    assert(n3 < 256);
}

proof fn lemma_big_endian_split(n: nat)
    requires
        n < 0x1_0000_0000_0000_0000,
    ensures
        big_endian(n, 8) == big_endian(n / 0x1_0000_0000, 4) + big_endian(n % 0x1_0000_0000, 4),
{
    reveal_with_fuel(big_endian, 9);
    let high = n / 0x1_0000_0000;
    let low = n % 0x1_0000_0000;
    let n1 = n / 256;
    let n2 = n1 / 256;
    let n3 = n2 / 256;
    let n4 = n3 / 256;
    assert(n4 == high);
    assert(low % 256 == n % 256);
    assert((low / 256) % 256 == n1 % 256);
    assert((low / 256 / 256) % 256 == n2 % 256);
    assert((low / 256 / 256 / 256) % 256 == n3 % 256);
    assert(big_endian(n, 8) =~= big_endian(high, 4) + big_endian(low, 4));
}

proof fn lemma_big_endian_length(n: nat, width: nat)
    ensures
        big_endian(n, width).len() == width,
    decreases width,
{
    if width > 0 {
        lemma_big_endian_length(n / 256, (width - 1) as nat);
    }
}

proof fn lemma_big_endian_eight(b: Seq<u8>, k: int, n: nat)
    requires
        0 <= k,
        k + 8 <= b.len(),
        n < 0x1_0000_0000_0000_0000,
        b.subrange(k, k + 8) == big_endian(n, 8),
    ensures
        double_at(b, k).bits == n,
{
    let high = n / 0x1_0000_0000;
    let low = n % 0x1_0000_0000;
    lemma_big_endian_split(n);
    lemma_big_endian_length(high, 4);
    lemma_big_endian_length(low, 4);
    let s = b.subrange(k, k + 8);
    assert(b.subrange(k, k + 4) =~= s.take(4));
    assert(s.take(4) =~= big_endian(high, 4));
    assert(b.subrange(k + 4, k + 8) =~= s.skip(4));
    assert(s.skip(4) =~= big_endian(low, 4));
    lemma_big_endian_four(b, k, high);
    lemma_big_endian_four(b, k + 4, low);
}

/// A frame of a Universal Robot or a Franka robot, which begins with its length and holds
/// the positions of the joints as double precision numbers, most significant byte first,
/// reads as these positions, in order and in single precision.
pub proof fn law_positions_are_read(
    a: Adapter,
    acc: Seq<u8>,
    q: Seq<Binary64>,
    joint_count: nat,
)
    requires
        a is UniversalRobots || a is FrankaEmika,
        acc.len() < 0x1_0000_0000,
        positions_at(a) + 8 * positions_in(a) <= acc.len(),
        acc.subrange(0, 4) == big_endian(acc.len(), 4),
        q.len() == positions_in(a),
        forall|k: int|
            0 <= k < q.len() ==> acc.subrange(
                positions_at(a) + 8 * k,
                positions_at(a) + 8 * k + 8,
            ) == big_endian((#[trigger] q[k]).bits as nat, 8),
    ensures
        a.telemetry(acc, joint_count) is Some,
        ({
            let t = a.telemetry(acc, joint_count)->0;
            &&& t.consumed == acc.len()
            &&& t.active == shorter(joint_count, positions_in(a))
            &&& forall|k: int| 0 <= k < t.active ==> #[trigger] t.values[k] == q[k].narrowed()
        }),
{
    lemma_big_endian_four(acc, 0, acc.len());
    let t = a.telemetry(acc, joint_count)->0;
    assert forall|k: int| 0 <= k < t.active implies #[trigger] t.values[k] == q[k].narrowed() by {
        let at = positions_at(a) + 8 * k;
        assert(acc.subrange(at, at + 8) == big_endian(q[k].bits as nat, 8));
        lemma_big_endian_eight(acc, at, q[k].bits as nat);
        assert(double_at(acc, at) == q[k]);
    }
}

/// A frame of a Universal Robot or a Franka robot has a position for each joint of the brand.
pub proof fn law_frames_fit_the_brand(a: Adapter)
    requires
        a is UniversalRobots || a is FrankaEmika,
    ensures
        positions_in(a) == a.brand_is().dof(),
        adapter_of(a.brand_is()) is UniversalRobots <==> a is UniversalRobots,
{
}

/// Each brand gets the adapter that speaks for it.
pub proof fn law_adapter_of_brand(b: RobotBrand)
    ensures
        adapter_of(b).brand_is() == b,
{
}

} // verus!
