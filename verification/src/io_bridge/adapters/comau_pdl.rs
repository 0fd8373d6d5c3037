//! Comau over a PDL2 socket bridge.
//!
//! Telemetry and commands are lines of numbers with commas between them, which a
//! PDL2 program can read and write:
//! ```text
//! 0.1234,-1.5708,3.1416,0.0,0.0,0.0
//! ```

use crate::io_bridge::adapters::framing::{
    cut_to_room, find_from, first_at, joined, lemma_first_at, lemma_written_from_start, lit,
    put_joined,
};
use crate::io_bridge::adapters::{BrandAdapter, FrameStrategy, Framing, Telemetry};
use crate::io_bridge::command_vector::{CommandVector, MAX_JOINTS};
use crate::io_bridge::robot_brand::RobotBrand;
use crate::io_bridge::wire::{filled, repeated, shorter};
use crate::numeric::binary32::{number_zero, Binary32};
use crate::numeric::bounded_text::{lemma_wrote_both, put_str};
use crate::numeric::parse_text::{
    parse_number, parsed_number, space_at_end, space_at_start, trim, trim_text,
};
use crate::numeric::reread::{law_text_is_plain, law_text_reads_back, number_char, reread};
use crate::text::occurs_at;
use vstd::prelude::*;
use vstd::slice::*;
use vstd::string::*;

verus! {

pub const COMAU_JOINTS: usize = 6;

/// Codec of the Comau robots.
pub struct ComauPdl2;

/// A comma, or ASCII white space.
pub open spec fn separates(b: u8) -> bool {
    b == 44 || b == 32 || b == 9 || b == 10 || b == 12 || b == 13
}

/// End of the field that begins at position `from`.
pub open spec fn field_end(line: Seq<u8>, from: int) -> int
    decreases line.len() - from,
{
    if from < 0 || from >= line.len() || separates(line[from]) {
        from
    } else {
        field_end(line, from + 1)
    }
}

/// The number that a field holds, if it holds one; an empty field holds none.
pub open spec fn field_value(field: Seq<u8>) -> Option<Binary32> {
    parsed_number(trim_text(field))
}

/// Reads the fields from position `from` on, the first of which is field `i`, into
/// `values`; `n` is the number of fields up to the last one that counted. Fields from
/// number `limit` on and fields that hold no number are passed over.
pub open spec fn read_fields(
    line: Seq<u8>,
    from: int,
    i: nat,
    limit: nat,
    values: Seq<Binary32>,
    n: nat,
) -> (Seq<Binary32>, nat)
    decreases line.len() - from,
    when 0 <= from <= line.len()
{
    let end = field_end(line, from);
    let field = line.subrange(from, end);
    let rest = end + 1;
    proof {
        lemma_field_end(line, from);
    }
    let (next, count) = match field_value(field) {
        Some(x) if i < limit => (values.update(i as int, x), i + 1),
        _ => (values, n),
    };
    if end == line.len() {
        (next, count)
    } else {
        read_fields(line, rest, i + 1, limit, next, count)
    }
}

/// A field ends within the line.
pub proof fn lemma_field_end(line: Seq<u8>, from: int)
    requires
        0 <= from <= line.len(),
    ensures
        from <= field_end(line, from) <= line.len(),
    decreases line.len() - from,
{
    if from < line.len() && !separates(line[from]) {
        lemma_field_end(line, from + 1);
    }
}

/// No more fields count than are asked for.
proof fn lemma_fields_counted(
    line: Seq<u8>,
    from: int,
    i: nat,
    limit: nat,
    values: Seq<Binary32>,
    n: nat,
)
    requires
        0 <= from <= line.len(),
        n <= limit,
    ensures
        read_fields(line, from, i, limit, values, n).1 <= limit,
    decreases line.len() - from,
{
    let end = field_end(line, from);
    lemma_field_end(line, from);
    let (next, count) = match field_value(line.subrange(from, end)) {
        Some(x) if i < limit => (values.update(i as int, x), i + 1),
        _ => (values, n),
    };
    if end < line.len() {
        lemma_fields_counted(line, end + 1, i + 1, limit, next, count);
    }
}

/// The message in the first line.
pub open spec fn csv_telemetry(acc: Seq<u8>, joint_count: nat) -> Option<Telemetry> {
    match first_at(acc, lit("\n"), 0) {
        None => None,
        Some(end) => {
            let r = read_fields(
                acc.take(end),
                0,
                0,
                shorter(joint_count, MAX_JOINTS as nat),
                Seq::new(MAX_JOINTS as nat, |i: int| number_zero()),
                0,
            );
            Some(Telemetry { consumed: (end + 1) as nat, values: r.0, active: r.1 })
        },
    }
}

/// Whatever a line holds, it is a message as soon as it is complete: it takes the bytes up
/// to the end of the line, and has no more values than the robot has joints.
pub proof fn law_line_is_consumed(acc: Seq<u8>, joint_count: nat)
    ensures
        csv_telemetry(acc, joint_count) is Some <==> acc.contains(10u8),
        csv_telemetry(acc, joint_count) matches Some(t) ==> {
            &&& 0 < t.consumed <= acc.len()
            &&& acc[t.consumed - 1] == 10
            &&& forall|j: int| 0 <= j < t.consumed - 1 ==> #[trigger] acc[j] != 10
            &&& t.active <= joint_count
            &&& t.active <= MAX_JOINTS
        },
{
    lemma_comma();
    lemma_first_at(acc, lit("\n"), 0);
    assert forall|j: int| 0 <= j < acc.len() implies (acc[j] == 10 <==> #[trigger] occurs_at(
        acc,
        lit("\n"),
        j,
    )) by {
        assert(acc.subrange(j, j + 1) =~= seq![acc[j]]);
        assert(seq![acc[j]][0] == acc[j] && seq![10u8][0] == 10u8);
    }
    match first_at(acc, lit("\n"), 0) {
        None => {
            assert forall|j: int| 0 <= j < acc.len() implies #[trigger] acc[j] != 10 by {
                assert(!occurs_at(acc, lit("\n"), j));
            }
        },
        Some(end) => {
            assert(occurs_at(acc, lit("\n"), end));
            assert forall|j: int| 0 <= j < end implies #[trigger] acc[j] != 10 by {
                assert(!occurs_at(acc, lit("\n"), j));
            }
            lemma_fields_counted(
                acc.take(end),
                0,
                0,
                shorter(joint_count, MAX_JOINTS as nat),
                Seq::new(MAX_JOINTS as nat, |i: int| number_zero()),
                0,
            );
        },
    }
}

/// The text of a command.
pub open spec fn csv_command(values: Seq<Binary32>) -> Seq<u8> {
    joined(values.take(shorter(values.len(), COMAU_JOINTS as nat) as int), lit(",")) + lit("\n")
}

fn find_field_end(line: &[u8], from: usize) -> (end: usize)
    requires
        from <= line@.len(),
    ensures
        end == field_end(line@, from as int),
        from <= end <= line@.len(),
{
    let mut k: usize = from;
    while k < line.len() && !(line[k] == 44 || line[k] == 32 || line[k] == 9 || line[k] == 10
        || line[k] == 12 || line[k] == 13)
        invariant
            from <= k <= line@.len(),
            field_end(line@, from as int) == field_end(line@, k as int),
        decreases line@.len() - k,
    {
        k = k + 1;
    }
    k
}

fn read_line(line: &[u8], limit: usize) -> (r: ([Binary32; MAX_JOINTS], usize))
    requires
        limit <= MAX_JOINTS,
    ensures
        (r.0@, r.1 as nat) == read_fields(
            line@,
            0,
            0,
            limit as nat,
            Seq::new(MAX_JOINTS as nat, |i: int| number_zero()),
            0,
        ),
        r.1 <= limit,
{
    let mut values: [Binary32; MAX_JOINTS] = repeated(Binary32::zero());
    let mut n: usize = 0;
    let mut i: usize = 0;
    let mut from: usize = 0;
    let ghost want = read_fields(
        line@,
        0,
        0,
        limit as nat,
        Seq::new(MAX_JOINTS as nat, |i: int| number_zero()),
        0,
    );
    loop
        invariant
            limit <= MAX_JOINTS,
            from <= line@.len(),
            i <= from,
            n <= limit,
            want == read_fields(line@, from as int, i as nat, limit as nat, values@, n as nat),
            want == read_fields(
                line@,
                0,
                0,
                limit as nat,
                Seq::new(MAX_JOINTS as nat, |i: int| number_zero()),
                0,
            ),
        decreases line@.len() - from,
    {
        let end: usize = find_field_end(line, from);
        let field: &[u8] = slice_subrange(line, from, end);
        if i < limit {
            match parse_number(trim(field)) {
                None => {},
                Some(x) => {
                    values[i] = x;
                    n = i + 1;
                },
            }
        }
        if end == line.len() {
            return (values, n);
        }
        from = end + 1;
        i = i + 1;
    }
}

impl BrandAdapter for ComauPdl2 {
    open spec fn brand_is(&self) -> RobotBrand {
        RobotBrand::Comau
    }

    open spec fn protocol_text(&self) -> Seq<char> {
        "PDL2 Socket (CSV/TCP)"@
    }

    open spec fn framing(&self) -> Framing {
        Framing::Delimited { terminator: lit("\n") }
    }

    open spec fn telemetry(&self, acc: Seq<u8>, joint_count: nat) -> Option<Telemetry> {
        csv_telemetry(acc, joint_count)
    }

    open spec fn encoding(&self, values: Seq<Binary32>, room: nat) -> Seq<u8> {
        cut_to_room(csv_command(values), room)
    }

    open spec fn hint(&self) -> nat {
        1024
    }

    fn brand(&self) -> (b: RobotBrand) {
        RobotBrand::Comau
    }

    fn protocol_label(&self) -> (s: &'static str) {
        "PDL2 Socket (CSV/TCP)"
    }

    fn frame_strategy(&self) -> (f: FrameStrategy) {
        FrameStrategy::Delimited { terminator: "\n".as_bytes() }
    }

    fn decode_telemetry(&self, acc: &[u8], joint_count: usize) -> (r: Option<
        (usize, [Binary32; MAX_JOINTS], usize),
    >) {
        let term: &[u8] = "\n".as_bytes();
        let total: usize = acc.len();
        proof {
            assert(total == acc@.len());
            reveal_strlit("\n");
            assert("\n".is_ascii());
            assert(lit("\n").len() == 1);
        }
        match find_from(acc, term, 0) {
            None => None,
            Some(end) => {
                let limit: usize = if joint_count < MAX_JOINTS {
                    joint_count
                } else {
                    MAX_JOINTS
                };
                let line: &[u8] = slice_subrange(acc, 0, end);
                assert(line@ =~= acc@.take(end as int));
                let (values, n) = read_line(line, limit);
                Some((end + 1, values, n))
            },
        }
    }

    fn encode_command(&self, command: &CommandVector, out: &mut [u8]) -> (written: usize) {
        let values: &[Binary32] = command.as_slice();
        let n: usize = if values.len() < COMAU_JOINTS {
            values.len()
        } else {
            COMAU_JOINTS
        };
        let first: &[Binary32] = slice_subrange(values, 0, n);
        assert(first@ =~= command@.take(shorter(command@.len(), COMAU_JOINTS as nat) as int));
        let ghost before = out@;
        let line: usize = put_joined(out, 0, first, ",");
        let ghost mid = out@;
        let written: usize = put_str(out, line, "\n");
        proof {
            let text = joined(first@, lit(","));
            lemma_wrote_both(before, 0, text, mid, line as int, lit("\n"), out@, written as int);
            lemma_written_from_start(before, csv_command(command@), out@, written as int);
        }
        written
    }

    fn buffer_hint(&self) -> (n: usize) {
        1024
    }
}

/// A byte that may stand between two numbers of a line: a comma, or white space but for the
/// end of the line.
pub open spec fn between(sep: u8) -> bool {
    sep == 44 || sep == 32 || sep == 9 || sep == 12 || sep == 13
}

/// The texts of numbers, read from left to right.
proof fn lemma_joined_front(values: Seq<Binary32>, sep: u8)
    requires
        values.len() >= 2,
    ensures
        joined(values, seq![sep]) == values[0].text(6) + seq![sep] + joined(
            values.skip(1),
            seq![sep],
        ),
    decreases values.len(),
{
    let rest = values.skip(1);
    if values.len() == 2 {
        assert(joined(values.drop_last(), seq![sep]) == values[0].text(6));
        assert(rest[0] == values.last());
    } else {
        lemma_joined_front(values.drop_last(), sep);
        assert(values.drop_last().skip(1) =~= rest.drop_last());
        assert(joined(values, seq![sep]) =~= values[0].text(6) + seq![sep] + joined(
            rest,
            seq![sep],
        ));
    }
}

proof fn lemma_comma()
    ensures
        lit(",") == seq![44u8],
        lit("\n") == seq![10u8],
{
    reveal_strlit(",");
    reveal_strlit("\n");
    assert(",".is_ascii());
    assert("\n".is_ascii());
    assert(lit(",") =~= seq![44u8]);
    assert(lit("\n") =~= seq![10u8]);
}

/// A field without separators ends where the next separator stands, or the line.
proof fn lemma_field_ends(line: Seq<u8>, from: int, end: int, sep: u8)
    requires
        between(sep),
        0 <= from <= end <= line.len(),
        forall|i: int| from <= i < end ==> number_char(#[trigger] line[i]),
        end == line.len() || line[end] == sep,
    ensures
        field_end(line, from) == end,
    decreases end - from,
{
    if from < end {
        assert(number_char(line[from]));
        lemma_field_ends(line, from + 1, end, sep);
    }
}

/// The text of a number, as a field, holds the number.
pub proof fn lemma_plain_field(x: Binary32)
    ensures
        field_value(x.text(6)) == Some(reread(x, 6)),
{
    let t = x.text(6);
    law_text_is_plain(x, 6);
    law_text_reads_back(x, 6);
    assert(number_char(t[0]));
    assert(number_char(t[t.len() - 1]));
    if t.len() >= 2 {
        assert(number_char(t[t.len() - 2]));
    }
    if t.len() >= 3 {
        assert(number_char(t[t.len() - 3]));
    }
    assert(space_at_start(t) == 0);
    assert(space_at_end(t) == 0);
}

/// What reading a line of numbers from the field `i` on makes of `before`.
pub open spec fn reread_into(
    before: Seq<Binary32>,
    values: Seq<Binary32>,
    i: int,
    limit: nat,
) -> Seq<Binary32> {
    Seq::new(
        before.len(),
        |j: int|
            if i <= j < values.len() && j < limit {
                reread(values[j], 6)
            } else {
                before[j]
            },
    )
}

/// The first field of a line of numbers.
proof fn lemma_first_field(line: Seq<u8>, from: int, rest: Seq<Binary32>, sep: u8)
    requires
        between(sep),
        rest.len() > 0,
        0 <= from <= line.len(),
        line.skip(from) == joined(rest, seq![sep]),
    ensures
        ({
            let end = from + rest[0].text(6).len();
            &&& rest[0].text(6).len() > 0
            &&& field_end(line, from) == end
            &&& end <= line.len()
            &&& line.subrange(from, end) == rest[0].text(6)
            &&& end == line.len() <==> rest.len() == 1
            &&& rest.len() > 1 ==> line.skip(end + 1) == joined(rest.skip(1), seq![sep])
        }),
{
    let t = rest[0].text(6);
    let end = from + t.len();
    let tail = line.skip(from);
    law_text_is_plain(rest[0], 6);
    if rest.len() >= 2 {
        lemma_joined_front(rest, sep);
    }
    assert(tail.len() == line.len() - from);
    assert(tail.take(t.len() as int) =~= t);
    assert forall|j: int| from <= j < end implies number_char(#[trigger] line[j]) by {
        assert(line[j] == tail[j - from]);
        assert(tail[j - from] == tail.take(t.len() as int)[j - from]);
        assert(number_char(t[j - from]));
    }
    if rest.len() >= 2 {
        assert(line[end] == tail[t.len() as int]);
        assert(line.skip(end + 1) =~= tail.skip(t.len() as int + 1));
        assert(tail.skip(t.len() as int + 1) =~= joined(rest.skip(1), seq![sep]));
    }
    lemma_field_ends(line, from, end, sep);
    assert(line.subrange(from, end) =~= t);
}

proof fn lemma_fields_read(
    line: Seq<u8>,
    from: int,
    values: Seq<Binary32>,
    i: nat,
    limit: nat,
    before: Seq<Binary32>,
    n: nat,
    sep: u8,
)
    requires
        between(sep),
        i < values.len(),
        limit <= before.len(),
        0 <= from <= line.len(),
        line.skip(from) == joined(values.skip(i as int), seq![sep]),
    ensures
        read_fields(line, from, i, limit, before, n) == (
            reread_into(before, values, i as int, limit),
            if i < limit {
                shorter(values.len(), limit)
            } else {
                n
            },
        ),
    decreases values.len() - i,
{
    let rest = values.skip(i as int);
    let t = values[i as int].text(6);
    let end = from + t.len();
    assert(rest[0] == values[i as int]);
    lemma_first_field(line, from, rest, sep);
    lemma_plain_field(values[i as int]);
    let next = if i < limit {
        before.update(i as int, reread(values[i as int], 6))
    } else {
        before
    };
    let count = if i < limit {
        i + 1
    } else {
        n
    };
    if rest.len() >= 2 {
        assert(rest.skip(1) =~= values.skip(i as int + 1));
        lemma_fields_read(line, end + 1, values, i + 1, limit, next, count, sep);
        assert(reread_into(next, values, i as int + 1, limit) =~= reread_into(
            before,
            values,
            i as int,
            limit,
        ));
    } else {
        assert(next =~= reread_into(before, values, i as int, limit));
    }
}

proof fn lemma_joined_plain(values: Seq<Binary32>, sep: u8)
    ensures
        forall|i: int|
            0 <= i < joined(values, seq![sep]).len() ==> number_char(
                #[trigger] joined(values, seq![sep])[i],
            ) || joined(values, seq![sep])[i] == sep,
    decreases values.len(),
{
    if values.len() > 0 {
        law_text_is_plain(values.last(), 6);
        lemma_joined_plain(values.drop_last(), sep);
        let head = joined(values.drop_last(), seq![sep]);
        let all = joined(values, seq![sep]);
        let t = values.last().text(6);
        assert forall|i: int| 0 <= i < all.len() implies number_char(#[trigger] all[i]) || all[i]
            == sep by {
            if values.len() == 1 {
                assert(all[i] == t[i]);
            } else if i < head.len() {
                assert(all[i] == head[i]);
            } else if i > head.len() {
                assert(all[i] == t[i - head.len() - 1]);
            }
        }
    }
}

/// A line of numbers with a comma, or a white space character, between each two of them reads
/// as these numbers, each the one nearest to the number rounded to six decimals, in order and
/// as far as the robot has joints.
pub proof fn law_numbers_of_a_line(values: Seq<Binary32>, sep: u8, more: Seq<u8>, joint_count: nat)
    requires
        between(sep),
        values.len() > 0,
        joint_count > 0,
    ensures
        ({
            let acc = joined(values, seq![sep]) + seq![10u8] + more;
            let n = shorter(values.len(), shorter(joint_count, MAX_JOINTS as nat));
            csv_telemetry(acc, joint_count) matches Some(t) && {
                &&& t.consumed == joined(values, seq![sep]).len() + 1
                &&& t.active == n
                &&& t.values == filled(Seq::new(n, |i: int| reread(values[i], 6)))
            }
        }),
{
    lemma_comma();
    assert(values.skip(0) =~= values);
    let line = joined(values, seq![sep]);
    let acc = line + seq![10u8] + more;
    lemma_joined_plain(values, sep);
    lemma_first_at(acc, lit("\n"), 0);
    assert(acc.subrange(line.len() as int, line.len() as int + 1) =~= lit("\n"));
    assert(occurs_at(acc, lit("\n"), line.len() as int));
    assert forall|j: int| 0 <= j < line.len() implies !occurs_at(acc, lit("\n"), j) by {
        assert(acc[j] == line[j]);
        if occurs_at(acc, lit("\n"), j) {
            assert(acc.subrange(j, j + 1)[0] == acc[j]);
        }
    }
    let end = first_at(acc, lit("\n"), 0)->0;
    assert(end == line.len());
    assert(acc.take(end) =~= line);
    assert(line.skip(0) =~= line);
    let zeros = Seq::new(MAX_JOINTS as nat, |i: int| number_zero());
    let limit = shorter(joint_count, MAX_JOINTS as nat);
    let n = shorter(values.len(), limit);
    lemma_fields_read(line, 0, values, 0, limit, zeros, 0, sep);
    assert(reread_into(zeros, values, 0, limit) =~= filled(
        Seq::new(n, |i: int| reread(values[i], 6)),
    ));
}

/// Reading the line that was written for a command gives, for each of its values, the
/// number nearest to the value rounded to six decimals.
pub proof fn law_line_reads_back(values: Seq<Binary32>, joint_count: nat)
    requires
        0 < values.len() <= COMAU_JOINTS,
        joint_count >= values.len(),
    ensures
        csv_telemetry(csv_command(values), joint_count) == Some(
            Telemetry {
                consumed: csv_command(values).len(),
                values: filled(Seq::new(values.len(), |i: int| reread(values[i], 6))),
                active: values.len(),
            },
        ),
{
    lemma_comma();
    assert(values.take(values.len() as int) =~= values);
    law_numbers_of_a_line(values, 44, Seq::empty(), joint_count);
    assert(joined(values, seq![44u8]) + seq![10u8] + Seq::<u8>::empty() =~= csv_command(values));
}

} // verus!
