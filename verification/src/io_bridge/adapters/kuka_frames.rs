//! What the telemetry of a KUKA robot reads as.

use crate::io_bridge::adapters::comau_pdl::lemma_plain_field;
use crate::io_bridge::adapters::framing::{first_at, lemma_first_at, lit};
use crate::io_bridge::adapters::kuka_eth_krl::{
    bracket_index, joint_of, read_variables, variable_at, KukaEthernetKrl,
};
use crate::io_bridge::adapters::{BrandAdapter, Telemetry};
use crate::io_bridge::command_vector::MAX_JOINTS;
use crate::io_bridge::wire::{filled, shorter};
use crate::numeric::binary32::{number_zero, Binary32};
use crate::numeric::decimal::decimal;
use crate::numeric::parse_text::{is_digit, space_at_end, space_at_start, trim_text};
use crate::numeric::reread::{
    digits, law_index_reads_back, law_text_is_plain, number_char, reread,
};
use crate::text::occurs_at;
use vstd::prelude::*;
use vstd::string::*;

verus! {

/// A variable of a message: the number in its brackets, and its value.
pub struct SentValue {
    pub index: nat,
    pub value: Binary32,
}

/// The variable `SEND[index]` with its value.
pub open spec fn sent_variable(s: SentValue) -> Seq<u8> {
    lit("<Var Name=\"SEND[") + decimal(s.index) + lit("]\">") + s.value.text(6) + lit("</Var>")
}

/// The variables from number `i` on, one behind the other.
pub open spec fn sent_variables(sent: Seq<SentValue>, i: int) -> Seq<u8>
    decreases sent.len() - i,
{
    if i < 0 || i >= sent.len() {
        Seq::empty()
    } else {
        sent_variable(sent[i]) + sent_variables(sent, i + 1)
    }
}

/// The values of the first `i` variables: each at the entry that its index names.
pub open spec fn told(sent: Seq<SentValue>, i: int) -> Seq<Binary32>
    decreases i,
{
    if i <= 0 {
        Seq::new(MAX_JOINTS as nat, |j: int| number_zero())
    } else {
        told(sent, i - 1).update(sent[i - 1].index - 1, reread(sent[i - 1].value, 6))
    }
}

/// The largest index of the first `i` variables.
pub open spec fn highest(sent: Seq<SentValue>, i: int) -> nat
    decreases i,
{
    if i <= 0 {
        0
    } else if sent[i - 1].index > highest(sent, i - 1) {
        sent[i - 1].index
    } else {
        highest(sent, i - 1)
    }
}

/// A message with the given variables, between `head` and `tail`.
pub open spec fn sent_message(head: Seq<u8>, sent: Seq<SentValue>, tail: Seq<u8>) -> Seq<u8> {
    head + sent_variables(sent, 0) + tail + lit("</Rob>")
}

/// The head of a message holds neither a variable nor the end of a tag.
pub open spec fn plain_head(head: Seq<u8>) -> bool {
    forall|i: int| 0 <= i < head.len() ==> #[trigger] head[i] != 86 && head[i] != 47
}

/// The tail of a message holds neither a variable nor the end of the message.
pub open spec fn plain_tail(tail: Seq<u8>) -> bool {
    forall|i: int| 0 <= i < tail.len() ==> #[trigger] tail[i] != 86 && tail[i] != 82
}

/// What begins a variable.
proof fn lemma_open_mark()
    ensures
        lit("<Var Name=\"").len() == 11,
        lit("<Var Name=\"")[1] == 86,
        lit("<Var Name=\"SEND[").len() == 16,
        lit("<Var Name=\"SEND[").take(11) == lit("<Var Name=\""),
        lit("<Var Name=\"SEND[")[0] == 60,
        forall|i: int| 0 <= i < 16 ==> #[trigger] lit("<Var Name=\"SEND[")[i] != 82,
{
    let long = seq![60u8, 86, 97, 114, 32, 78, 97, 109, 101, 61, 34, 83, 69, 78, 68, 91];
    let short = seq![60u8, 86, 97, 114, 32, 78, 97, 109, 101, 61, 34];
    reveal_strlit("<Var Name=\"");
    reveal_strlit("<Var Name=\"SEND[");
    assert("<Var Name=\"".is_ascii());
    assert("<Var Name=\"SEND[".is_ascii());
    assert(lit("<Var Name=\"") =~= short);
    assert(lit("<Var Name=\"SEND[") =~= long);
    assert(long.take(11) =~= short);
}

/// What the name of a variable begins with.
proof fn lemma_name_mark()
    ensures
        lit("<Var Name=\"SEND[").len() == 16,
        lit("<Var Name=\"SEND[").subrange(11, 15) == lit("SEND"),
        lit("SEND").len() == 4,
        lit("<Var Name=\"SEND[")[15] == 91,
        forall|i: int|
            11 <= i < 15 ==> #[trigger] lit("<Var Name=\"SEND[")[i] != 91,
        forall|i: int|
            11 <= i < 16 ==> #[trigger] lit("<Var Name=\"SEND[")[i] != 34 && lit(
                "<Var Name=\"SEND[",
            )[i] != 93,
        lit("[") == seq![91u8],
        lit("]") == seq![93u8],
{
    let long = seq![60u8, 86, 97, 114, 32, 78, 97, 109, 101, 61, 34, 83, 69, 78, 68, 91];
    reveal_strlit("<Var Name=\"SEND[");
    reveal_strlit("SEND");
    reveal_strlit("[");
    reveal_strlit("]");
    assert("<Var Name=\"SEND[".is_ascii());
    assert("SEND".is_ascii());
    assert("[".is_ascii());
    assert("]".is_ascii());
    assert(lit("<Var Name=\"SEND[") =~= long);
    assert(lit("SEND") =~= seq![83u8, 69, 78, 68]);
    assert(long.subrange(11, 15) =~= seq![83u8, 69, 78, 68]);
    assert(lit("[") =~= seq![91u8]);
    assert(lit("]") =~= seq![93u8]);
}

/// What ends a name, a tag and a variable.
proof fn lemma_close_marks()
    ensures
        lit("\"") == seq![34u8],
        lit(">") == seq![62u8],
        lit("]\">").len() == 3,
        lit("]\">")[0] == 93,
        lit("]\">")[1] == 34,
        lit("]\">")[2] == 62,
        lit("</Var>").len() == 6,
        lit("</Var>")[0] == 60,
        forall|i: int| 0 <= i < 6 ==> #[trigger] lit("</Var>")[i] != 82,
{
    reveal_strlit("\"");
    reveal_strlit(">");
    reveal_strlit("]\">");
    reveal_strlit("</Var>");
    assert("\"".is_ascii());
    assert(">".is_ascii());
    assert("]\">".is_ascii());
    assert("</Var>".is_ascii());
    assert(lit("\"") =~= seq![34u8]);
    assert(lit(">") =~= seq![62u8]);
    assert(lit("]\">") =~= seq![93u8, 34, 62]);
    assert(lit("</Var>") =~= seq![60u8, 47, 86, 97, 114, 62]);
}

/// What ends a message.
proof fn lemma_end_mark()
    ensures
        lit("</Rob>").len() == 6,
        lit("</Rob>")[0] == 60,
        lit("</Rob>")[1] == 47,
        lit("</Rob>")[2] == 82,
{
    reveal_strlit("</Rob>");
    assert("</Rob>".is_ascii());
    assert(lit("</Rob>") =~= seq![60u8, 47, 82, 111, 98, 62]);
}

/// A mark is found where it stands, if something in it differs at every earlier place.
proof fn lemma_found(s: Seq<u8>, w: Seq<u8>, from: int, k: int, p: int)
    requires
        0 <= from <= k,
        occurs_at(s, w, k),
        0 <= p < w.len(),
        forall|i: int| from + p <= i < k + p ==> #[trigger] s[i] != w[p],
    ensures
        first_at(s, w, from) == Some(k),
{
    lemma_first_at(s, w, from);
    assert forall|j: int| from <= j < k implies !occurs_at(s, w, j) by {
        if occurs_at(s, w, j) {
            assert(s.subrange(j, j + w.len())[p] == s[j + p]);
        }
    }
}

/// A mark is not found, if something in it differs at every place.
proof fn lemma_not_found(s: Seq<u8>, w: Seq<u8>, from: int, p: int)
    requires
        0 <= from,
        0 <= p < w.len(),
        forall|i: int| from + p <= i < s.len() ==> #[trigger] s[i] != w[p],
    ensures
        first_at(s, w, from) is None,
{
    lemma_first_at(s, w, from);
    if first_at(s, w, from) is Some {
        let k = first_at(s, w, from)->0;
        assert(s.subrange(k, k + w.len())[p] == s[k + p]);
    }
}

/// One byte stands where it stands.
proof fn lemma_one_byte(s: Seq<u8>, b: u8, k: int)
    requires
        0 <= k < s.len(),
        s[k] == b,
    ensures
        occurs_at(s, seq![b], k),
{
    assert(s.subrange(k, k + 1) =~= seq![b]);
}

/// The index of a name.
proof fn lemma_name(name: Seq<u8>, index: nat)
    requires
        name == lit("<Var Name=\"SEND[").skip(11) + decimal(index) + lit("]"),
        1 <= index <= MAX_JOINTS,
    ensures
        bracket_index(name) == Some(index),
        occurs_at(name, lit("SEND"), 0),
{
    let d = decimal(index);
    let long = lit("<Var Name=\"SEND[");
    lemma_name_mark();
    law_index_reads_back(index, usize::MAX as nat);
    let dl = d.len() as int;
    assert(name.len() == 5 + dl + 1);
    assert forall|i: int| 0 <= i < 5 implies #[trigger] name[i] == long[11 + i] by {}
    assert forall|i: int| 5 <= i < 5 + dl implies #[trigger] name[i] == d[i - 5] by {}
    assert(name.subrange(0, 4) =~= long.subrange(11, 15));
    assert(name[4] == long[15]);
    lemma_one_byte(name, 91, 4);
    lemma_found(name, lit("["), 0, 4, 0);
    assert(name[5 + dl] == 93);
    assert forall|i: int| 0 <= i < 5 + dl implies #[trigger] name[i] != 93 by {
        if i >= 5 {
            assert(is_digit(d[i - 5]));
        }
    }
    lemma_one_byte(name, 93, 5 + dl);
    lemma_found(name, lit("]"), 0, 5 + dl, 0);
    assert(name.subrange(5, 5 + dl) =~= d);
    lemma_digits_untrimmed(d);
}

proof fn lemma_digits_untrimmed(d: Seq<u8>)
    requires
        digits(d),
        d.len() > 0,
    ensures
        trim_text(d) == d,
{
    assert(is_digit(d[0]));
    assert(is_digit(d[d.len() - 1]));
    if d.len() >= 2 {
        assert(is_digit(d[d.len() - 2]));
    }
    if d.len() >= 3 {
        assert(is_digit(d[d.len() - 3]));
    }
    assert(space_at_start(d) == 0);
    assert(space_at_end(d) == 0);
}

/// The parts of what stands at a place stand one behind the other.
proof fn lemma_parts(body: Seq<u8>, pos: int, a: Seq<u8>, b: Seq<u8>)
    requires
        0 <= pos,
        pos + a.len() + b.len() <= body.len(),
        body.subrange(pos, pos + a.len() + b.len()) == a + b,
    ensures
        body.subrange(pos, pos + a.len()) == a,
        body.subrange(pos + a.len(), pos + a.len() + b.len()) == b,
{
    let whole = body.subrange(pos, pos + a.len() + b.len());
    assert(whole.take(a.len() as int) =~= a);
    assert(whole.skip(a.len() as int) =~= b);
    assert(body.subrange(pos, pos + a.len()) =~= whole.take(a.len() as int));
    assert(body.subrange(pos + a.len(), pos + a.len() + b.len()) =~= whole.skip(a.len() as int));
}

/// What stands at a place, byte by byte.
proof fn lemma_bytes(body: Seq<u8>, pos: int, a: Seq<u8>)
    requires
        0 <= pos,
        pos + a.len() <= body.len(),
        body.subrange(pos, pos + a.len()) == a,
    ensures
        forall|i: int| pos <= i < pos + a.len() ==> #[trigger] body[i] == a[i - pos],
{
    assert forall|i: int| pos <= i < pos + a.len() implies #[trigger] body[i] == a[i - pos] by {
        assert(body.subrange(pos, pos + a.len())[i - pos] == body[i]);
    }
}

/// The begin of a variable is found.
proof fn lemma_tag_found(body: Seq<u8>, from: int, pos: int)
    requires
        0 <= from <= pos,
        pos + 16 <= body.len(),
        body.subrange(pos, pos + 16) == lit("<Var Name=\"SEND["),
        forall|i: int| from <= i < pos ==> #[trigger] body[i] != 86,
    ensures
        first_at(body, lit("<Var Name=\""), from) == Some(pos),
{
    let long = lit("<Var Name=\"SEND[");
    let tag = lit("<Var Name=\"");
    lemma_open_mark();
    assert(body.subrange(pos, pos + 11) =~= body.subrange(pos, pos + 16).take(11));
    assert(body.subrange(pos, pos + 16)[0] == body[pos]);
    lemma_found(body, tag, from, pos, 1);
}

/// The end of the name, and that of the tag, are found.
proof fn lemma_name_found(body: Seq<u8>, pos: int, index: nat)
    requires
        0 <= pos,
        pos + 19 + decimal(index).len() <= body.len(),
        body.subrange(pos, pos + 16) == lit("<Var Name=\"SEND["),
        body.subrange(pos + 16, pos + 16 + decimal(index).len()) == decimal(index),
        body.subrange(pos + 16 + decimal(index).len(), pos + 19 + decimal(index).len()) == lit(
            "]\">",
        ),
    ensures
        ({
            let dl = decimal(index).len();
            &&& first_at(body, lit("\""), pos + 11) == Some(pos + 17 + dl)
            &&& first_at(body, lit(">"), pos + 18 + dl) == Some(pos + 18 + dl)
            &&& body.subrange(pos + 11, pos + 17 + dl) == lit("<Var Name=\"SEND[").skip(11)
                + decimal(index) + lit("]")
        }),
{
    let long = lit("<Var Name=\"SEND[");
    let d = decimal(index);
    let dl = d.len() as int;
    let c = lit("]\">");
    lemma_name_mark();
    lemma_close_marks();
    law_index_reads_back(index, index);
    lemma_bytes(body, pos, long);
    lemma_bytes(body, pos + 16, d);
    lemma_bytes(body, pos + 16 + dl, c);
    assert(body[pos + 16 + dl] == 93);
    assert(body[pos + 17 + dl] == 34);
    assert(body[pos + 18 + dl] == 62);
    lemma_one_byte(body, 34, pos + 17 + dl);
    lemma_one_byte(body, 62, pos + 18 + dl);
    assert forall|i: int| pos + 11 <= i < pos + 17 + dl implies #[trigger] body[i] != 34 by {
        if i < pos + 16 {
            assert(body[i] == long[i - pos]);
        } else if i < pos + 16 + dl {
            assert(body[i] == d[i - pos - 16]);
            assert(is_digit(d[i - pos - 16]));
        }
    }
    lemma_found(body, lit("\""), pos + 11, pos + 17 + dl, 0);
    lemma_found(body, lit(">"), pos + 18 + dl, pos + 18 + dl, 0);
    let name = long.skip(11) + d + lit("]");
    assert(body.subrange(pos + 11, pos + 17 + dl) =~= name);
}

/// The end of the value is found.
proof fn lemma_value_found(body: Seq<u8>, at: int, x: Binary32)
    requires
        0 <= at,
        at + x.text(6).len() + 6 <= body.len(),
        body.subrange(at, at + x.text(6).len()) == x.text(6),
        body.subrange(at + x.text(6).len(), at + x.text(6).len() + 6) == lit("</Var>"),
    ensures
        first_at(body, lit("</Var>"), at) == Some(at + x.text(6).len()),
{
    let t = x.text(6);
    lemma_close_marks();
    law_text_is_plain(x, 6);
    lemma_bytes(body, at, t);
    assert forall|i: int| at <= i < at + t.len() implies #[trigger] body[i] != 60 by {
        assert(body[i] == t[i - at]);
        assert(number_char(t[i - at]));
    }
    lemma_found(body, lit("</Var>"), at, at + t.len(), 0);
}

/// A variable that stands behind a gap is found, with its name, its value and its end.
proof fn lemma_variable(body: Seq<u8>, from: int, pos: int, s: SentValue)
    requires
        0 <= from <= pos,
        pos + sent_variable(s).len() <= body.len(),
        body.subrange(pos, pos + sent_variable(s).len()) == sent_variable(s),
        forall|i: int| from <= i < pos ==> #[trigger] body[i] != 86,
    ensures
        ({
            let v = variable_at(body, from);
            &&& v is Some
            &&& v->0.name == lit("<Var Name=\"SEND[").skip(11) + decimal(s.index) + lit("]")
            &&& v->0.value == reread(s.value, 6)
            &&& v->0.next == pos + sent_variable(s).len()
        }),
{
    let long = lit("<Var Name=\"SEND[");
    let d = decimal(s.index);
    let c = lit("]\">");
    let t = s.value.text(6);
    let e = lit("</Var>");
    lemma_open_mark();
    lemma_close_marks();
    lemma_parts(body, pos, long + d + c + t, e);
    lemma_parts(body, pos, long + d + c, t);
    lemma_parts(body, pos, long + d, c);
    lemma_parts(body, pos, long, d);
    lemma_tag_found(body, from, pos);
    lemma_name_found(body, pos, s.index);
    lemma_value_found(body, pos + 19 + d.len(), s.value);
    lemma_plain_field(s.value);
}

/// The text of the variables from number `i` on, with its first one apart.
proof fn lemma_first_variable(
    body: Seq<u8>,
    pos: int,
    sent: Seq<SentValue>,
    i: int,
    tail: Seq<u8>,
)
    requires
        0 <= i < sent.len(),
        0 <= pos <= body.len(),
        body.skip(pos) == sent_variables(sent, i) + tail,
    ensures
        ({
            let sv = sent_variable(sent[i]);
            &&& pos + sv.len() <= body.len()
            &&& body.subrange(pos, pos + sv.len()) == sv
            &&& body.skip(pos + sv.len()) == sent_variables(sent, i + 1) + tail
        }),
{
    let sv = sent_variable(sent[i]);
    let rest = body.skip(pos);
    assert(rest =~= sv + (sent_variables(sent, i + 1) + tail));
    assert(body.subrange(pos, pos + sv.len()) =~= rest.take(sv.len() as int));
    assert(rest.take(sv.len() as int) =~= sv);
    assert(body.skip(pos + sv.len()) =~= rest.skip(sv.len() as int));
    assert(rest.skip(sv.len() as int) =~= sent_variables(sent, i + 1) + tail);
}

/// Behind the last variable there is none.
proof fn lemma_no_variable(body: Seq<u8>, from: int, pos: int, tail: Seq<u8>)
    requires
        0 <= from <= pos <= body.len(),
        forall|k: int| from <= k < pos ==> #[trigger] body[k] != 86,
        body.skip(pos) == tail,
        plain_tail(tail),
    ensures
        variable_at(body, from) is None,
{
    lemma_open_mark();
    assert forall|i: int| from + 1 <= i < body.len() implies #[trigger] body[i] != 86 by {
        if i >= pos {
            assert(body[i] == tail[i - pos]);
        }
    }
    lemma_not_found(body, lit("<Var Name=\""), from, 1);
}

/// One step of the reading.
proof fn lemma_read_one(
    body: Seq<u8>,
    from: int,
    limit: nat,
    values: Seq<Binary32>,
    n: nat,
    s: SentValue,
    next: int,
)
    requires
        ({
            let v = variable_at(body, from);
            &&& v is Some
            &&& v->0.name == lit("<Var Name=\"SEND[").skip(11) + decimal(s.index) + lit("]")
            &&& v->0.value == reread(s.value, 6)
            &&& v->0.next == next
        }),
        1 <= s.index <= MAX_JOINTS,
        n < limit,
    ensures
        read_variables(body, from, limit, values, n) == read_variables(
            body,
            next,
            limit,
            values.update(s.index - 1, reread(s.value, 6)),
            if s.index > n {
                s.index
            } else {
                n
            },
        ),
{
    let v = variable_at(body, from)->0;
    lemma_name(v.name, s.index);
    assert(joint_of(v.name, n) == s.index - 1);
}

/// Reading goes on from variable `i`, which stands behind a gap without variables.
proof fn lemma_read_on(
    body: Seq<u8>,
    from: int,
    pos: int,
    sent: Seq<SentValue>,
    i: int,
    tail: Seq<u8>,
    limit: nat,
)
    requires
        0 <= i <= sent.len(),
        0 < limit,
        0 <= from <= pos <= body.len(),
        forall|k: int| from <= k < pos ==> #[trigger] body[k] != 86,
        body.skip(pos) == sent_variables(sent, i) + tail,
        plain_tail(tail),
        forall|k: int| 0 <= k < sent.len() ==> 1 <= (#[trigger] sent[k]).index <= MAX_JOINTS,
        forall|k: int| 0 <= k < sent.len() - 1 ==> (#[trigger] sent[k]).index < limit,
    ensures
        read_variables(body, from, limit, told(sent, i), highest(sent, i)) == (
            told(sent, sent.len() as int),
            highest(sent, sent.len() as int),
        ),
    decreases sent.len() - i,
{
    if i == sent.len() {
        assert(body.skip(pos) =~= tail);
        lemma_no_variable(body, from, pos, tail);
    } else {
        let s = sent[i];
        let next = pos + sent_variable(s).len();
        lemma_first_variable(body, pos, sent, i, tail);
        lemma_variable(body, from, pos, s);
        lemma_highest(sent, i);
        assert(highest(sent, i) < limit);
        lemma_read_one(body, from, limit, told(sent, i), highest(sent, i), s, next);
        lemma_read_on(body, next, next, sent, i + 1, tail, limit);
        assert(told(sent, i + 1) == told(sent, i).update(s.index - 1, reread(s.value, 6)));
    }
}

/// The largest of some indices is one of them.
proof fn lemma_highest(sent: Seq<SentValue>, i: int)
    requires
        0 <= i <= sent.len(),
    ensures
        highest(sent, i) == 0 || exists|k: int|
            0 <= k < i && highest(sent, i) == (#[trigger] sent[k]).index,
        forall|k: int| 0 <= k < i ==> (#[trigger] sent[k]).index <= highest(sent, i),
    decreases i,
{
    if i > 0 {
        lemma_highest(sent, i - 1);
        assert(sent[i - 1].index <= highest(sent, i));
        if highest(sent, i) == sent[i - 1].index {
        } else if highest(sent, i - 1) != 0 {
            let k = choose|k: int|
                0 <= k < i - 1 && highest(sent, i - 1) == (#[trigger] sent[k]).index;
            assert(highest(sent, i) == sent[k].index);
        }
    }
}

/// A variable holds no byte of the end of a message that the tail could not hold.
proof fn lemma_variable_plain(s: SentValue)
    ensures
        sent_variable(s).len() > 0,
        sent_variable(s)[0] == 60,
        forall|k: int| 0 <= k < sent_variable(s).len() ==> #[trigger] sent_variable(s)[k] != 82,
{
    let sv = sent_variable(s);
    let long = lit("<Var Name=\"SEND[");
    let d = decimal(s.index);
    let c = lit("]\">");
    let t = s.value.text(6);
    let e = lit("</Var>");
    lemma_open_mark();
    lemma_close_marks();
    law_index_reads_back(s.index, s.index);
    law_text_is_plain(s.value, 6);
    let dl = d.len() as int;
    let tl = t.len() as int;
    assert(sv[0] == long[0]);
    assert forall|k: int| 0 <= k < sv.len() implies #[trigger] sv[k] != 82 by {
        if k < 16 {
            assert(sv[k] == long[k]);
        } else if k < 16 + dl {
            assert(sv[k] == d[k - 16]);
            assert(is_digit(d[k - 16]));
        } else if k < 19 + dl {
            assert(sv[k] == c[k - 16 - dl]);
        } else if k < 19 + dl + tl {
            assert(sv[k] == t[k - 19 - dl]);
            assert(number_char(t[k - 19 - dl]));
        } else {
            assert(sv[k] == e[k - 19 - dl - tl]);
        }
    }
}

proof fn lemma_variables_plain(sent: Seq<SentValue>, i: int)
    requires
        0 <= i,
    ensures
        forall|k: int|
            0 <= k < sent_variables(sent, i).len() ==> #[trigger] sent_variables(sent, i)[k] != 82,
        i < sent.len() ==> sent_variables(sent, i).len() > 0 && sent_variables(sent, i)[0] == 60,
    decreases sent.len() - i,
{
    if i < sent.len() {
        let sv = sent_variable(sent[i]);
        let all = sent_variables(sent, i);
        lemma_variable_plain(sent[i]);
        lemma_variables_plain(sent, i + 1);
        assert forall|k: int| 0 <= k < all.len() implies #[trigger] all[k] != 82 by {
            if k < sv.len() {
                assert(all[k] == sv[k]);
            } else {
                assert(all[k] == sent_variables(sent, i + 1)[k - sv.len()]);
            }
        }
        assert(all[0] == sv[0]);
    }
}

/// Before its end, a message does not end.
proof fn lemma_no_end_before(head: Seq<u8>, vars: Seq<u8>, tail: Seq<u8>, mark: Seq<u8>, j: int)
    requires
        plain_head(head),
        plain_tail(tail),
        vars.len() > 0,
        vars[0] == 60,
        forall|k: int| 0 <= k < vars.len() ==> #[trigger] vars[k] != 82,
        mark.len() == 6,
        mark[0] == 60,
        mark[1] == 47,
        mark[2] == 82,
        0 <= j < head.len() + vars.len() + tail.len(),
    ensures
        !occurs_at(head + vars + tail + mark, mark, j),
{
    let acc = head + vars + tail + mark;
    let a = head.len() as int;
    let b = a + vars.len();
    let end = b + tail.len();
    assert(acc.len() == end + 6);
    if occurs_at(acc, mark, j) {
        let part = acc.subrange(j, j + 6);
        assert(part[1] == acc[j + 1]);
        assert(part[2] == acc[j + 2]);
        if j + 1 < a {
            assert(acc[j + 1] == head[j + 1]);
        } else if j + 1 == a {
            assert(acc[j + 1] == vars[0]);
        } else if j + 2 < b {
            assert(acc[j + 2] == vars[j + 2 - a]);
        } else if j + 2 < end {
            assert(acc[j + 2] == tail[j + 2 - b]);
        } else {
            assert(acc[j + 2] == mark[j + 2 - end]);
        }
        assert(false);
    }
}

/// The end of a message is found.
proof fn lemma_end_found(head: Seq<u8>, vars: Seq<u8>, tail: Seq<u8>)
    requires
        plain_head(head),
        plain_tail(tail),
        vars.len() > 0,
        vars[0] == 60,
        forall|k: int| 0 <= k < vars.len() ==> #[trigger] vars[k] != 82,
    ensures
        first_at(head + vars + tail + lit("</Rob>"), lit("</Rob>"), 0) == Some(
            (head + vars + tail).len() as int,
        ),
{
    let mark = lit("</Rob>");
    let acc = head + vars + tail + mark;
    let end = (head + vars + tail).len() as int;
    lemma_end_mark();
    lemma_stands_at_end(head + vars + tail, mark);
    assert forall|j: int| 0 <= j < end implies !#[trigger] occurs_at(acc, mark, j) by {
        lemma_no_end_before(head, vars, tail, mark, j);
    }
    lemma_first_is(acc, mark, end);
}

proof fn lemma_stands_at_end(s: Seq<u8>, w: Seq<u8>)
    ensures
        occurs_at(s + w, w, s.len() as int),
{
    assert((s + w).subrange(s.len() as int, s.len() + w.len() as int) =~= w);
}

proof fn lemma_first_is(s: Seq<u8>, w: Seq<u8>, k: int)
    requires
        0 <= k,
        occurs_at(s, w, k),
        forall|j: int| 0 <= j < k ==> !#[trigger] occurs_at(s, w, j),
    ensures
        first_at(s, w, 0) == Some(k),
{
    lemma_first_at(s, w, 0);
}

/// The variable `SEND[k]` sets the entry of joint `k`, and no other, to the number that its
/// text stands for. The message is all of the bytes, and as many joints are active as the
/// largest index says. Reading stops when the last joint was set, so that only the last
/// variable may name it.
pub proof fn law_variable_sets_its_joint(
    head: Seq<u8>,
    sent: Seq<SentValue>,
    tail: Seq<u8>,
    joint_count: nat,
)
    requires
        plain_head(head),
        plain_tail(tail),
        sent.len() > 0,
        joint_count > 0,
        forall|k: int| 0 <= k < sent.len() ==> 1 <= (#[trigger] sent[k]).index <= MAX_JOINTS,
        forall|k: int|
            0 <= k < sent.len() - 1 ==> (#[trigger] sent[k]).index < shorter(
                joint_count,
                MAX_JOINTS as nat,
            ),
    ensures
        KukaEthernetKrl.telemetry(sent_message(head, sent, tail), joint_count) == Some(
            Telemetry {
                consumed: sent_message(head, sent, tail).len(),
                values: told(sent, sent.len() as int),
                active: highest(sent, sent.len() as int),
            },
        ),
{
    let acc = sent_message(head, sent, tail);
    let vars = sent_variables(sent, 0);
    let body = head + vars + tail;
    let limit = shorter(joint_count, MAX_JOINTS as nat);
    lemma_variables_plain(sent, 0);
    lemma_end_found(head, vars, tail);
    lemma_end_mark();
    assert(acc.take(body.len() as int) =~= body);
    assert forall|k: int| 0 <= k < head.len() implies #[trigger] body[k] != 86 by {
        assert(body[k] == head[k]);
    }
    assert(body.skip(head.len() as int) =~= vars + tail);
    lemma_read_on(body, 0, head.len() as int, sent, 0, tail, limit);
}

/// The variables `SEND[1]` to `SEND[n]` with the given values.
pub open spec fn in_order(values: Seq<Binary32>) -> Seq<SentValue> {
    Seq::new(values.len(), |i: int| SentValue { index: (i + 1) as nat, value: values[i] })
}

proof fn lemma_told_in_order(values: Seq<Binary32>, i: int)
    requires
        0 <= i <= values.len() <= MAX_JOINTS,
    ensures
        told(in_order(values), i) == filled(Seq::new(i as nat, |j: int| reread(values[j], 6))),
        highest(in_order(values), i) == i,
    decreases i,
{
    let want = filled(Seq::new(i as nat, |j: int| reread(values[j], 6)));
    if i > 0 {
        lemma_told_in_order(values, i - 1);
        assert(in_order(values)[i - 1].index == i);
        assert(told(in_order(values), i) =~= want);
    } else {
        assert(told(in_order(values), i) =~= want);
    }
}

/// The usual message of a robot, with the variables `SEND[1]` to `SEND[n]`, reads as its `n`
/// values, in order.
pub proof fn law_message_reads_in_order(
    head: Seq<u8>,
    values: Seq<Binary32>,
    tail: Seq<u8>,
    joint_count: nat,
)
    requires
        plain_head(head),
        plain_tail(tail),
        0 < values.len() <= joint_count,
        values.len() <= MAX_JOINTS,
    ensures
        KukaEthernetKrl.telemetry(sent_message(head, in_order(values), tail), joint_count) == Some(
            Telemetry {
                consumed: sent_message(head, in_order(values), tail).len(),
                values: filled(Seq::new(values.len(), |j: int| reread(values[j], 6))),
                active: values.len(),
            },
        ),
{
    law_variable_sets_its_joint(head, in_order(values), tail, joint_count);
    lemma_told_in_order(values, values.len() as int);
}

} // verus!
