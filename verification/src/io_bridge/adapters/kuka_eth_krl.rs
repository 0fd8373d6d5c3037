//! KUKA over Ethernet KRL: XML on TCP, port 7911 of the controller.
//!
//! Telemetry comes in the variables `SEND[n]`, commands go out in the variables `An`:
//! ```xml
//! <?xml version="1.0" encoding="UTF-8"?><Rob><Data>
//!   <Var Name="SEND[1]">-0.1234</Var><Var Name="SEND[2]">1.5708</Var>
//! </Data></Rob>
//! ```

use crate::io_bridge::adapters::framing::{
    cut_to_room, find_from, first_at, lemma_first_at, lemma_written_from_start, lit,
};
use crate::io_bridge::adapters::{BrandAdapter, FrameStrategy, Framing, Telemetry};
use crate::io_bridge::command_vector::{CommandVector, MAX_JOINTS};
use crate::io_bridge::robot_brand::RobotBrand;
use crate::io_bridge::wire::{repeated, shorter};
use crate::numeric::binary32::{number_zero, Binary32};
use crate::numeric::bounded_text::{lemma_wrote_both, put_decimal, put_str, wrote};
use crate::numeric::decimal::decimal;
use crate::numeric::parse_text::{
    parse_index, parse_number, parsed_index, parsed_number, trim, trim_text,
};
use crate::text::occurs_at;
use vstd::prelude::*;
use vstd::slice::*;

verus! {

/// Codec of the KUKA robots.
pub struct KukaEthernetKrl;

/// A variable found in a message: its name, its value and where it ends.
pub struct Variable {
    pub name: Seq<u8>,
    pub value: Binary32,
    pub next: int,
}

/// The first variable at or behind position `from`; nothing if there is none, or if
/// what it holds is no number.
pub open spec fn variable_at(body: Seq<u8>, from: int) -> Option<Variable> {
    match first_at(body, lit("<Var Name=\""), from) {
        None => None,
        Some(start) => {
            let name_begin = start + lit("<Var Name=\"").len();
            match first_at(body, lit("\""), name_begin) {
                None => None,
                Some(name_end) => match first_at(body, lit(">"), name_end + 1) {
                    None => None,
                    Some(close) => match first_at(body, lit("</Var>"), close + 1) {
                        None => None,
                        Some(value_end) => match parsed_number(
                            trim_text(body.subrange(close + 1, value_end)),
                        ) {
                            None => None,
                            Some(value) => Some(
                                Variable {
                                    name: body.subrange(name_begin, name_end),
                                    value,
                                    next: value_end + lit("</Var>").len(),
                                },
                            ),
                        },
                    },
                },
            }
        },
    }
}

/// The number between the first `[` and the first `]` of a name.
pub open spec fn bracket_index(name: Seq<u8>) -> Option<nat> {
    match first_at(name, lit("["), 0) {
        None => None,
        Some(open) => match first_at(name, lit("]"), 0) {
            None => None,
            Some(close) => if close <= open {
                None
            } else {
                parsed_index(trim_text(name.subrange(open + 1, close)), usize::MAX as nat)
            },
        },
    }
}

/// Which joint the variable `name` is for: the one in brackets, or the next one.
pub open spec fn joint_of(name: Seq<u8>, n: nat) -> nat {
    match bracket_index(name) {
        Some(i) => if 1 <= i <= MAX_JOINTS {
            (i - 1) as nat
        } else {
            n
        },
        None => n,
    }
}

/// Reads the variables from position `from` on into `values`, of which `n` are in
/// use, until `limit` of them are.
pub open spec fn read_variables(
    body: Seq<u8>,
    from: int,
    limit: nat,
    values: Seq<Binary32>,
    n: nat,
) -> (Seq<Binary32>, nat)
    decreases body.len() - from,
{
    proof {
        lemma_variable_at(body, from);
    }
    match variable_at(body, from) {
        None => (values, n),
        Some(var) => if n >= limit {
            (values, n)
        } else if occurs_at(var.name, lit("SEND"), 0) {
            let joint = joint_of(var.name, n);
            read_variables(
                body,
                var.next,
                limit,
                values.update(joint as int, var.value),
                if n > joint + 1 {
                    n
                } else {
                    joint + 1
                },
            )
        } else {
            read_variables(body, var.next, limit, values, n)
        },
    }
}

/// A variable lies behind the position from which it was looked for.
pub proof fn lemma_variable_at(body: Seq<u8>, from: int)
    ensures
        variable_at(body, from) is Some ==> from < variable_at(body, from)->0.next <= body.len(),
{
    lemma_first_at(body, lit("<Var Name=\""), from);
    if first_at(body, lit("<Var Name=\""), from) is Some {
        let name_begin = first_at(body, lit("<Var Name=\""), from)->0 + lit("<Var Name=\"").len();
        lemma_first_at(body, lit("\""), name_begin);
        if first_at(body, lit("\""), name_begin) is Some {
            let name_end = first_at(body, lit("\""), name_begin)->0;
            lemma_first_at(body, lit(">"), name_end + 1);
            if first_at(body, lit(">"), name_end + 1) is Some {
                let close = first_at(body, lit(">"), name_end + 1)->0;
                lemma_first_at(body, lit("</Var>"), close + 1);
            }
        }
    }
}

/// The message up to the first `</Rob>`.
pub open spec fn xml_telemetry(acc: Seq<u8>, joint_count: nat) -> Option<Telemetry> {
    match first_at(acc, lit("</Rob>"), 0) {
        None => None,
        Some(end) => {
            let r = read_variables(
                acc.take(end),
                0,
                shorter(joint_count, MAX_JOINTS as nat),
                Seq::new(MAX_JOINTS as nat, |i: int| number_zero()),
                0,
            );
            Some(
                Telemetry {
                    consumed: (end + lit("</Rob>").len()) as nat,
                    values: r.0,
                    active: r.1,
                },
            )
        },
    }
}

/// The variable of axis `n` with the given value.
pub open spec fn axis_variable(n: nat, value: Binary32) -> Seq<u8> {
    lit("<Var Name=\"A") + decimal(n) + lit("\">") + value.text(6) + lit("</Var>")
}

/// The variables `A1`, `A2` and so on with the given values.
pub open spec fn axis_variables(values: Seq<Binary32>) -> Seq<u8>
    decreases values.len(),
{
    if values.len() == 0 {
        Seq::empty()
    } else {
        axis_variables(values.drop_last()) + axis_variable(values.len(), values.last())
    }
}

/// The text of a command.
pub open spec fn xml_command(values: Seq<Binary32>) -> Seq<u8> {
    lit("<?xml version=\"1.0\" encoding=\"UTF-8\"?><Rob><Data>") + lit(
        "<Var Name=\"CMD\">SONNY</Var>",
    ) + axis_variables(values) + lit("</Data></Rob>")
}

struct ParsedVar<'a> {
    name: &'a [u8],
    value: Binary32,
    next_offset: usize,
}

/// Extracts a `<Var Name="...">value</Var>` element at or behind position `from`.
fn parse_var(body: &[u8], from: usize) -> (r: Option<ParsedVar<'_>>)
    requires
        from <= body@.len(),
    ensures
        match r {
            None => variable_at(body@, from as int) is None,
            Some(v) => variable_at(body@, from as int) is Some && {
                let want = variable_at(body@, from as int)->0;
                v.name@ == want.name && v.value == want.value && v.next_offset == want.next
            },
        },
        r is Some ==> from < r->0.next_offset <= body@.len(),
{
    let tag: &[u8] = "<Var Name=\"".as_bytes();
    let quote: &[u8] = "\"".as_bytes();
    let bracket: &[u8] = ">".as_bytes();
    let end_tag: &[u8] = "</Var>".as_bytes();
    let total: usize = body.len();
    proof {
        assert(total == body@.len());
        reveal_strlit("\"");
        assert("\"".is_ascii());
        reveal_strlit(">");
        assert(">".is_ascii());
    }
    match find_from(body, tag, from) {
        None => None,
        Some(start) => {
            let name_begin: usize = start + tag.len();
            match find_from(body, quote, name_begin) {
                None => None,
                Some(name_end) => match find_from(body, bracket, name_end + 1) {
                    None => None,
                    Some(close) => match find_from(body, end_tag, close + 1) {
                        None => None,
                        Some(value_end) => {
                            let text: &[u8] = slice_subrange(body, close + 1, value_end);
                            match parse_number(trim(text)) {
                                None => None,
                                Some(value) => Some(
                                    ParsedVar {
                                        name: slice_subrange(body, name_begin, name_end),
                                        value,
                                        next_offset: value_end + end_tag.len(),
                                    },
                                ),
                            }
                        },
                    },
                },
            }
        },
    }
}

fn parse_bracket_index(name: &[u8]) -> (r: Option<usize>)
    ensures
        match r {
            None => bracket_index(name@) is None,
            Some(i) => bracket_index(name@) == Some(i as nat),
        },
{
    match find_from(name, "[".as_bytes(), 0) {
        None => None,
        Some(open) => match find_from(name, "]".as_bytes(), 0) {
            None => None,
            Some(close) => if close <= open {
                None
            } else {
                parse_index(trim(slice_subrange(name, open + 1, close)))
            },
        },
    }
}

fn starts_with_send(name: &[u8]) -> (r: bool)
    ensures
        r == occurs_at(name@, lit("SEND"), 0),
{
    let word: &[u8] = "SEND".as_bytes();
    proof {
        lemma_first_at(name@, lit("SEND"), 0);
    }
    match find_from(name, word, 0) {
        None => false,
        Some(k) => k == 0,
    }
}

fn read_body(body: &[u8], limit: usize) -> (r: ([Binary32; MAX_JOINTS], usize))
    requires
        limit <= MAX_JOINTS,
    ensures
        (r.0@, r.1 as nat) == read_variables(
            body@,
            0,
            limit as nat,
            Seq::new(MAX_JOINTS as nat, |i: int| number_zero()),
            0,
        ),
        r.1 <= MAX_JOINTS,
{
    let mut values: [Binary32; MAX_JOINTS] = repeated(Binary32::zero());
    let mut n: usize = 0;
    let mut from: usize = 0;
    let ghost want = read_variables(
        body@,
        0,
        limit as nat,
        Seq::new(MAX_JOINTS as nat, |i: int| number_zero()),
        0,
    );
    loop
        invariant
            limit <= MAX_JOINTS,
            n <= MAX_JOINTS,
            from <= body@.len(),
            want == read_variables(body@, from as int, limit as nat, values@, n as nat),
            want == read_variables(
                body@,
                0,
                limit as nat,
                Seq::new(MAX_JOINTS as nat, |i: int| number_zero()),
                0,
            ),
        decreases body@.len() - from,
    {
        match parse_var(body, from) {
            None => {
                return (values, n);
            },
            Some(var) => {
                if n >= limit {
                    return (values, n);
                }
                if starts_with_send(var.name) {
                    let joint: usize = match parse_bracket_index(var.name) {
                        Some(i) => if i >= 1 && i <= MAX_JOINTS {
                            i - 1
                        } else {
                            n
                        },
                        None => n,
                    };
                    values[joint] = var.value;
                    if joint + 1 > n {
                        n = joint + 1;
                    }
                }
                from = var.next_offset;
            },
        }
    }
}

/// Writes the variable of axis `n`.
fn put_variable(out: &mut [u8], pos: usize, n: usize, value: Binary32) -> (next: usize)
    requires
        pos <= old(out)@.len(),
    ensures
        wrote(old(out)@, pos as int, axis_variable(n as nat, value), final(out)@, next as int),
        next <= final(out)@.len(),
        final(out)@.len() == old(out)@.len(),
{
    let ghost before = out@;
    let a1: usize = put_str(out, pos, "<Var Name=\"A");
    let ghost out1 = out@;
    let a2: usize = put_decimal(out, a1, n as u128);
    let ghost out2 = out@;
    let a3: usize = put_str(out, a2, "\">");
    let ghost out3 = out@;
    let a4: usize = value.put_text(out, a3, 6);
    let ghost out4 = out@;
    let next: usize = put_str(out, a4, "</Var>");
    proof {
        let p = pos as int;
        let t1 = lit("<Var Name=\"A");
        let t2 = t1 + decimal(n as nat);
        let t3 = t2 + lit("\">");
        let t4 = t3 + value.text(6);
        lemma_wrote_both(before, p, t1, out1, a1 as int, decimal(n as nat), out2, a2 as int);
        lemma_wrote_both(before, p, t2, out2, a2 as int, lit("\">"), out3, a3 as int);
        lemma_wrote_both(before, p, t3, out3, a3 as int, value.text(6), out4, a4 as int);
        lemma_wrote_both(before, p, t4, out4, a4 as int, lit("</Var>"), out@, next as int);
    }
    next
}

impl BrandAdapter for KukaEthernetKrl {
    open spec fn brand_is(&self) -> RobotBrand {
        RobotBrand::Kuka
    }

    open spec fn protocol_text(&self) -> Seq<char> {
        "Ethernet KRL (XML/TCP)"@
    }

    open spec fn framing(&self) -> Framing {
        Framing::Delimited { terminator: lit("</Rob>") }
    }

    open spec fn telemetry(&self, acc: Seq<u8>, joint_count: nat) -> Option<Telemetry> {
        xml_telemetry(acc, joint_count)
    }

    open spec fn encoding(&self, values: Seq<Binary32>, room: nat) -> Seq<u8> {
        cut_to_room(xml_command(values), room)
    }

    open spec fn hint(&self) -> nat {
        1024
    }

    fn brand(&self) -> (b: RobotBrand) {
        RobotBrand::Kuka
    }

    fn protocol_label(&self) -> (s: &'static str) {
        "Ethernet KRL (XML/TCP)"
    }

    fn frame_strategy(&self) -> (f: FrameStrategy) {
        FrameStrategy::Delimited { terminator: "</Rob>".as_bytes() }
    }

    fn decode_telemetry(&self, acc: &[u8], joint_count: usize) -> (r: Option<
        (usize, [Binary32; MAX_JOINTS], usize),
    >) {
        let term: &[u8] = "</Rob>".as_bytes();
        let total: usize = acc.len();
        proof {
            assert(total == acc@.len());
            reveal_strlit("</Rob>");
            assert("</Rob>".is_ascii());
            assert(lit("</Rob>").len() == 6);
        }
        match find_from(acc, term, 0) {
            None => None,
            Some(end) => {
                let limit: usize = if joint_count < MAX_JOINTS {
                    joint_count
                } else {
                    MAX_JOINTS
                };
                let body: &[u8] = slice_subrange(acc, 0, end);
                assert(body@ =~= acc@.take(end as int));
                let (values, n) = read_body(body, limit);
                Some((end + term.len(), values, n))
            },
        }
    }

    fn encode_command(&self, command: &CommandVector, out: &mut [u8]) -> (written: usize) {
        let values: &[Binary32] = command.as_slice();
        let ghost before = out@;
        let head: usize = put_str(out, 0, "<?xml version=\"1.0\" encoding=\"UTF-8\"?><Rob><Data>");
        let ghost out1 = out@;
        let mut next: usize = put_str(out, head, "<Var Name=\"CMD\">SONNY</Var>");
        let ghost start = lit("<?xml version=\"1.0\" encoding=\"UTF-8\"?><Rob><Data>") + lit(
            "<Var Name=\"CMD\">SONNY</Var>",
        );
        let mut i: usize = 0;
        proof {
            lemma_wrote_both(
                before,
                0,
                lit("<?xml version=\"1.0\" encoding=\"UTF-8\"?><Rob><Data>"),
                out1,
                head as int,
                lit("<Var Name=\"CMD\">SONNY</Var>"),
                out@,
                next as int,
            );
            assert(start + axis_variables(values@.take(0)) =~= start);
        }
        while i < values.len()
            invariant
                i <= values@.len(),
                values@.len() <= MAX_JOINTS,
                out@.len() == before.len(),
                next <= out@.len(),
                wrote(before, 0, start + axis_variables(values@.take(i as int)), out@, next as int),
            decreases values@.len() - i,
        {
            let ghost mid = out@;
            let ghost at = next as int;
            next = put_variable(out, next, i + 1, values[i]);
            proof {
                assert(values@.take(i + 1).drop_last() =~= values@.take(i as int));
                assert(values@.take(i + 1).last() == values@[i as int]);
                let done = start + axis_variables(values@.take(i as int));
                let text = axis_variable(i as nat + 1, values@[i as int]);
                lemma_wrote_both(before, 0, done, mid, at, text, out@, next as int);
                assert(done + text =~= start + axis_variables(values@.take(i + 1)));
            }
            i = i + 1;
        }
        assert(values@.take(i as int) =~= values@);
        let ghost mid = out@;
        let ghost at = next as int;
        let written: usize = put_str(out, next, "</Data></Rob>");
        proof {
            let done = start + axis_variables(values@);
            lemma_wrote_both(before, 0, done, mid, at, lit("</Data></Rob>"), out@, written as int);
            lemma_written_from_start(before, xml_command(command@), out@, written as int);
        }
        written
    }

    fn buffer_hint(&self) -> (n: usize) {
        1024
    }
}

/// What a command begins with.
pub open spec fn command_head() -> Seq<u8> {
    lit("<?xml version=\"1.0\" encoding=\"UTF-8\"?><Rob><Data><Var Name=\"CMD\">SONNY</Var>")
}

/// The variable `Ak` with its value.
pub open spec fn axis_text(k: nat, value: Binary32) -> Seq<u8> {
    lit("<Var Name=\"A") + decimal(k) + lit("\">") + value.text(6) + lit("</Var>")
}

/// Where the variable of value `k` begins in a command: behind the head and the variables
/// before it.
pub open spec fn axis_at(values: Seq<Binary32>, k: int) -> int
    decreases k,
{
    if k <= 0 {
        command_head().len() as int
    } else {
        axis_at(values, k - 1) + axis_text(k as nat, values[k - 1]).len()
    }
}

proof fn lemma_axes_at(values: Seq<Binary32>, k: int)
    requires
        0 <= k <= values.len(),
    ensures
        axis_variables(values.take(k)).len() == axis_at(values, k) - command_head().len(),
        k < values.len() ==> axis_variables(values.take(k + 1)) == axis_variables(values.take(k))
            + axis_text((k + 1) as nat, values[k]),
    decreases k,
{
    if k < values.len() {
        assert(values.take(k + 1).drop_last() =~= values.take(k));
        assert(values.take(k + 1).last() == values[k]);
    }
    if k > 0 {
        lemma_axes_at(values, k - 1);
    } else {
        assert(values.take(0).len() == 0);
    }
}

/// The variables of the first values come first.
proof fn lemma_axes_prefix(values: Seq<Binary32>, k: int, n: int)
    requires
        0 <= k <= n <= values.len(),
    ensures
        ({
            let some = axis_variables(values.take(k));
            let all = axis_variables(values.take(n));
            some.len() <= all.len() && all.take(some.len() as int) == some
        }),
    decreases n - k,
{
    let some = axis_variables(values.take(k));
    let all = axis_variables(values.take(n));
    if k < n {
        lemma_axes_prefix(values, k, n - 1);
        lemma_axes_at(values, n - 1);
        let most = axis_variables(values.take(n - 1));
        assert(all.take(some.len() as int) =~= most.take(some.len() as int));
    } else {
        assert(all.take(some.len() as int) =~= some);
    }
}

/// A command sends value `k` in the variable `A` of the number `k + 1`, in order, between
/// its head and its end.
pub proof fn law_command_names_the_axes(values: Seq<Binary32>, room: nat, k: int)
    requires
        0 <= k < values.len(),
        room >= xml_command(values).len(),
    ensures
        ({
            let bytes = KukaEthernetKrl.encoding(values, room);
            &&& occurs_at(bytes, command_head(), 0)
            &&& occurs_at(bytes, axis_text((k + 1) as nat, values[k]), axis_at(values, k))
            &&& bytes.skip(axis_at(values, values.len() as int)) == lit("</Data></Rob>")
        }),
{
    let bytes = KukaEthernetKrl.encoding(values, room);
    let n = values.len() as int;
    let head = command_head();
    let axes = axis_variables(values);
    lemma_head();
    assert(values.take(n) =~= values);
    assert(bytes =~= head + axes + lit("</Data></Rob>"));
    lemma_axes_at(values, k);
    lemma_axes_at(values, n);
    lemma_axes_prefix(values, k + 1, n);
    let before = axis_variables(values.take(k));
    let with = axis_variables(values.take(k + 1));
    let text = axis_text((k + 1) as nat, values[k]);
    let at = axis_at(values, k);
    assert(bytes.subrange(0, head.len() as int) =~= head);
    assert(bytes.subrange(at, at + text.len()) =~= axes.take(with.len() as int).skip(
        before.len() as int,
    ));
    assert(with.skip(before.len() as int) =~= text);
    assert(bytes.skip(axis_at(values, n)) =~= lit("</Data></Rob>"));
}

proof fn lemma_head()
    ensures
        command_head() == lit("<?xml version=\"1.0\" encoding=\"UTF-8\"?><Rob><Data>") + lit(
            "<Var Name=\"CMD\">SONNY</Var>",
        ),
{
    reveal_strlit("<?xml version=\"1.0\" encoding=\"UTF-8\"?><Rob><Data>");
    reveal_strlit("<Var Name=\"CMD\">SONNY</Var>");
    reveal_strlit(
        "<?xml version=\"1.0\" encoding=\"UTF-8\"?><Rob><Data><Var Name=\"CMD\">SONNY</Var>",
    );
    assert("<?xml version=\"1.0\" encoding=\"UTF-8\"?><Rob><Data>".is_ascii());
    assert("<Var Name=\"CMD\">SONNY</Var>".is_ascii());
    assert(
        "<?xml version=\"1.0\" encoding=\"UTF-8\"?><Rob><Data><Var Name=\"CMD\">SONNY</Var>".is_ascii());
    assert(command_head() =~= lit("<?xml version=\"1.0\" encoding=\"UTF-8\"?><Rob><Data>") + lit(
        "<Var Name=\"CMD\">SONNY</Var>",
    ));
}

} // verus!
