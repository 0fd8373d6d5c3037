//! Text as sequences of characters.

use crate::numeric::binary32::Binary32;
use crate::numeric::binary64::Binary64;
use crate::numeric::decimal::decimal;
use vstd::prelude::*;
use vstd::string::*;

verus! {

/// `String::push` appends one character.
pub assume_specification[ String::push ](s: &mut String, c: char)
    ensures
        final(s)@ == old(s)@.push(c),
;

/// `String::clear` removes every character.
pub assume_specification[ String::clear ](s: &mut String)
    ensures
        final(s)@ == Seq::<char>::empty(),
;

/// The characters of ASCII bytes.
pub open spec fn ascii_chars(b: Seq<u8>) -> Seq<char> {
    Seq::new(b.len(), |i: int| b[i] as char)
}

/// `n` in decimal notation.
pub open spec fn number_text(n: nat) -> Seq<char> {
    ascii_chars(decimal(n))
}

/// `c`, in lower case if it is an ASCII letter.
pub open spec fn lower_char(c: char) -> char {
    if 'A' <= c <= 'Z' {
        ((c as u32) + 32) as char
    } else {
        c
    }
}

/// `s` with its ASCII letters in lower case.
pub open spec fn lowered(s: Seq<char>) -> Seq<char> {
    Seq::new(s.len(), |i: int| lower_char(s[i]))
}

/// `w` stands in `s` from position `k` on.
pub open spec fn occurs_at<T>(s: Seq<T>, w: Seq<T>, k: int) -> bool {
    0 <= k && k + w.len() <= s.len() && s.subrange(k, k + w.len()) == w
}

/// `w` stands somewhere in `s`.
pub open spec fn occurs<T>(s: Seq<T>, w: Seq<T>) -> bool {
    exists|k: int| occurs_at(s, w, k)
}

/// A lower case ASCII letter.
pub open spec fn is_small_letter(c: char) -> bool {
    'a' <= c <= 'z'
}

/// `w` stands in the lower case text `s` from position `k` on, as a word of its own: no
/// letter comes directly before it or behind it.
pub open spec fn separate_at(s: Seq<char>, w: Seq<char>, k: int) -> bool {
    &&& occurs_at(s, w, k)
    &&& k > 0 ==> !is_small_letter(s[k - 1])
    &&& k + w.len() < s.len() ==> !is_small_letter(s[k + w.len()])
}

/// `w` stands somewhere in `s` as a word of its own.
pub open spec fn occurs_separate(s: Seq<char>, w: Seq<char>) -> bool {
    exists|k: int| separate_at(s, w, k)
}

/// A white space character.
pub open spec fn is_space(c: char) -> bool {
    let n = c as u32;
    ||| 9 <= n <= 13
    ||| n == 0x20
    ||| n == 0x85
    ||| n == 0xa0
    ||| n == 0x1680
    ||| 0x2000 <= n <= 0x200a
    ||| n == 0x2028
    ||| n == 0x2029
    ||| n == 0x202f
    ||| n == 0x205f
    ||| n == 0x3000
}

/// `s` holds nothing but white space.
pub open spec fn blank(s: Seq<char>) -> bool {
    forall|i: int| 0 <= i < s.len() ==> is_space(#[trigger] s[i])
}

/// Appends ASCII bytes.
pub fn push_ascii(out: &mut String, b: &Vec<u8>)
    ensures
        final(out)@ == old(out)@ + ascii_chars(b@),
{
    let mut i: usize = 0;
    assert(out@ =~= old(out)@ + ascii_chars(b@.take(0)));
    while i < b.len()
        invariant
            i <= b@.len(),
            out@ == old(out)@ + ascii_chars(b@.take(i as int)),
        decreases b@.len() - i,
    {
        out.push(b[i] as char);
        i = i + 1;
        assert(out@ =~= old(out)@ + ascii_chars(b@.take(i as int)));
    }
    assert(b@.take(i as int) =~= b@);
}

/// Appends a number in decimal notation.
pub fn push_number(out: &mut String, n: u64)
    ensures
        final(out)@ == old(out)@ + number_text(n as nat),
    decreases n,
{
    if n >= 10 {
        push_number(out, n / 10);
    }
    out.push((n % 10 + 48) as u8 as char);
    assert(out@ =~= old(out)@ + number_text(n as nat));
}

/// `n` spaces; none if `n` is negative.
pub open spec fn spaces(n: int) -> Seq<char> {
    Seq::new(
        if n > 0 {
            n as nat
        } else {
            0
        },
        |i: int| ' ',
    )
}

/// `s`, filled up with spaces on the right to `width` characters.
pub open spec fn flush_left(s: Seq<char>, width: nat) -> Seq<char> {
    s + spaces(width - s.len())
}

/// `s`, filled up with spaces on the left to `width` characters.
pub open spec fn flush_right(s: Seq<char>, width: nat) -> Seq<char> {
    spaces(width - s.len()) + s
}

fn push_spaces(out: &mut String, n: usize)
    ensures
        final(out)@ == old(out)@ + spaces(n as int),
{
    let mut i: usize = 0;
    assert(out@ =~= old(out)@ + spaces(0));
    while i < n
        invariant
            i <= n,
            out@ == old(out)@ + spaces(i as int),
        decreases n - i,
    {
        out.push(' ');
        i = i + 1;
        assert(out@ =~= old(out)@ + spaces(i as int));
    }
}

/// Appends a text, filled up with spaces on the right.
pub fn push_flush_left(out: &mut String, s: &str, width: usize)
    ensures
        final(out)@ == old(out)@ + flush_left(s@, width as nat),
{
    let n: usize = chars_of(s).len();
    out.append(s);
    if n < width {
        push_spaces(out, width - n);
    }
    assert(out@ =~= old(out)@ + flush_left(s@, width as nat));
}

/// Appends a text, filled up with spaces on the left.
pub fn push_flush_right(out: &mut String, s: &str, width: usize)
    ensures
        final(out)@ == old(out)@ + flush_right(s@, width as nat),
{
    let n: usize = chars_of(s).len();
    if n < width {
        push_spaces(out, width - n);
    }
    out.append(s);
    assert(out@ =~= old(out)@ + flush_right(s@, width as nat));
}

/// `x` with `p` decimals.
pub open spec fn double_text(x: Binary64, p: nat) -> Seq<char> {
    ascii_chars(x.text(p))
}

/// `x` with `p` decimals, and a sign also where it is not negative.
pub open spec fn signed_text(x: Binary32, p: nat) -> Seq<char> {
    if x.nan() || x.negative() {
        ascii_chars(x.text(p))
    } else {
        seq!['+'] + ascii_chars(x.text(p))
    }
}

/// Appends a number with `p` decimals.
pub fn push_double(out: &mut String, x: Binary64, p: u32)
    requires
        p <= 9,
    ensures
        final(out)@ == old(out)@ + double_text(x, p as nat),
{
    let mut digits: Vec<u8> = Vec::new();
    x.push_text(&mut digits, p);
    assert(digits@ =~= x.text(p as nat));
    push_ascii(out, &digits);
}

/// The number with `p` decimals and a sign.
pub fn signed_string(x: Binary32, p: u32) -> (s: String)
    requires
        p <= 9,
    ensures
        s@ == signed_text(x, p as nat),
{
    let mut s: String = String::new();
    if !x.is_nan() && !x.is_negative() {
        s.push('+');
    }
    let mut digits: Vec<u8> = Vec::new();
    x.push_text(&mut digits, p);
    assert(digits@ =~= x.text(p as nat));
    push_ascii(&mut s, &digits);
    assert(s@ =~= signed_text(x, p as nat));
    s
}

/// Some texts with `separator` between them.
pub open spec fn joined(parts: Seq<Seq<char>>, separator: Seq<char>) -> Seq<char>
    decreases parts.len(),
{
    if parts.len() == 0 {
        Seq::empty()
    } else if parts.len() == 1 {
        parts[0]
    } else {
        joined(parts.drop_last(), separator) + separator + parts.last()
    }
}

/// What some strings say.
pub open spec fn texts(s: Seq<String>) -> Seq<Seq<char>> {
    Seq::new(s.len(), |i: int| s[i]@)
}

/// Appends some texts with `separator` between them.
pub fn push_joined(out: &mut String, parts: &Vec<String>, separator: &str)
    ensures
        final(out)@ == old(out)@ + joined(texts(parts@), separator@),
{
    let ghost all = texts(parts@);
    let mut i: usize = 0;
    assert(out@ =~= old(out)@ + joined(all.take(0), separator@));
    while i < parts.len()
        invariant
            i <= parts@.len(),
            all == texts(parts@),
            out@ == old(out)@ + joined(all.take(i as int), separator@),
        decreases parts@.len() - i,
    {
        proof {
            assert(all.take(i + 1).drop_last() =~= all.take(i as int));
            assert(all.take(i + 1).last() == all[i as int]);
        }
        if i > 0 {
            out.append(separator);
        }
        out.append(parts[i].as_str());
        i = i + 1;
        assert(out@ =~= old(out)@ + joined(all.take(i as int), separator@));
    }
    assert(all.take(i as int) =~= all);
}

/// The characters of a text.
pub fn chars_of(s: &str) -> (v: Vec<char>)
    ensures
        v@ == s@,
{
    let mut v: Vec<char> = Vec::new();
    for c in it: s.chars()
        invariant
            it.seq() == s@,
            v@ == s@.take(it.index() as int),
    {
        v.push(c);
        assert(v@ =~= s@.take(it.index() + 1));
    }
    assert(v@ =~= s@);
    v
}

fn lower_of(c: char) -> (r: char)
    ensures
        r == lower_char(c),
{
    if 'A' <= c && c <= 'Z' {
        (c as u8 + 32) as char
    } else {
        c
    }
}

/// The characters of a text, ASCII letters in lower case.
pub fn lowered_chars(s: &str) -> (v: Vec<char>)
    ensures
        v@ == lowered(s@),
{
    let chars: Vec<char> = chars_of(s);
    let mut v: Vec<char> = Vec::new();
    let mut i: usize = 0;
    while i < chars.len()
        invariant
            i <= chars@.len(),
            chars@ == s@,
            v@ == lowered(s@.take(i as int)),
        decreases chars@.len() - i,
    {
        v.push(lower_of(chars[i]));
        i = i + 1;
        assert(v@ =~= lowered(s@.take(i as int)));
    }
    assert(s@.take(i as int) =~= s@);
    v
}

/// Whether a text holds nothing but white space.
pub fn is_blank(s: &str) -> (r: bool)
    ensures
        r == blank(s@),
{
    let chars: Vec<char> = chars_of(s);
    let mut i: usize = 0;
    while i < chars.len()
        invariant
            i <= chars@.len(),
            chars@ == s@,
            forall|j: int| 0 <= j < i ==> is_space(#[trigger] s@[j]),
        decreases chars@.len() - i,
    {
        let n: u32 = chars[i] as u32;
        let space: bool = (9 <= n && n <= 13) || n == 0x20 || n == 0x85 || n == 0xa0 || n == 0x1680
            || (0x2000 <= n && n <= 0x200a) || n == 0x2028 || n == 0x2029 || n == 0x202f || n
            == 0x205f || n == 0x3000;
        if !space {
            assert(!is_space(s@[i as int]));
            return false;
        }
        i = i + 1;
    }
    true
}

/// Whether the characters are those of the word.
pub fn same_text(s: &Vec<char>, word: &str) -> (r: bool)
    ensures
        r == (s@ == word@),
{
    let w: Vec<char> = chars_of(word);
    if s.len() != w.len() {
        return false;
    }
    let mut i: usize = 0;
    while i < s.len()
        invariant
            i <= s@.len(),
            w@ == word@,
            s@.len() == w@.len(),
            forall|j: int| 0 <= j < i ==> s@[j] == #[trigger] w@[j],
        decreases s@.len() - i,
    {
        if s[i] != w[i] {
            return false;
        }
        i = i + 1;
    }
    assert(s@ =~= w@);
    true
}

/// The text made of some characters.
pub fn string_of(chars: &Vec<char>) -> (s: String)
    ensures
        s@ == chars@,
{
    let mut s: String = String::new();
    let mut i: usize = 0;
    while i < chars.len()
        invariant
            i <= chars@.len(),
            s@ == chars@.take(i as int),
        decreases chars@.len() - i,
    {
        s.push(chars[i]);
        i = i + 1;
        assert(s@ =~= chars@.take(i as int));
    }
    assert(s@ =~= chars@);
    s
}

/// The bytes of a text.
pub fn bytes_of(s: &str) -> (v: Vec<u8>)
    ensures
        v@ == s.spec_bytes(),
{
    let b: &[u8] = s.as_bytes();
    let mut v: Vec<u8> = Vec::new();
    let mut i: usize = 0;
    while i < b.len()
        invariant
            i <= b@.len(),
            v@ == b@.take(i as int),
        decreases b@.len() - i,
    {
        v.push(b[i]);
        i = i + 1;
        assert(v@ =~= b@.take(i as int));
    }
    assert(v@ =~= b@);
    v
}

fn word_at(s: &Vec<char>, w: &Vec<char>, k: usize) -> (r: bool)
    requires
        k + w@.len() <= s@.len(),
    ensures
        r == occurs_at(s@, w@, k as int),
{
    let total: usize = s.len();
    let mut i: usize = 0;
    while i < w.len()
        invariant
            i <= w@.len(),
            total == s@.len(),
            k + w@.len() <= s@.len(),
            forall|j: int| 0 <= j < i ==> s@[k + j] == #[trigger] w@[j],
        decreases w@.len() - i,
    {
        if s[k + i] != w[i] {
            assert(!occurs_at(s@, w@, k as int)) by {
                if occurs_at(s@, w@, k as int) {
                    assert(s@.subrange(k as int, k + w@.len())[i as int] == w@[i as int]);
                }
            }
            return false;
        }
        i = i + 1;
    }
    assert(s@.subrange(k as int, k + w@.len()) =~= w@);
    true
}

/// Whether the word stands in the text.
pub fn has_word(s: &Vec<char>, word: &str) -> (r: bool)
    ensures
        r == occurs(s@, word@),
{
    let w: Vec<char> = chars_of(word);
    let mut k: usize = 0;
    let total: usize = s.len();
    while k <= total && w.len() <= total - k
        invariant
            total == s@.len(),
            k <= total + 1,
            w@ == word@,
            forall|j: int| 0 <= j < k ==> !occurs_at(s@, w@, j),
        decreases total + 1 - k,
    {
        if word_at(s, &w, k) {
            return true;
        }
        if k == total {
            assert(forall|j: int| j > total ==> !occurs_at(s@, w@, j));
            return false;
        }
        k = k + 1;
    }
    assert(forall|j: int| j >= k ==> !occurs_at(s@, w@, j));
    false
}

/// Whether the word stands in the text as a word of its own.
pub fn has_separate_word(s: &Vec<char>, word: &str) -> (r: bool)
    ensures
        r == occurs_separate(s@, word@),
{
    let w: Vec<char> = chars_of(word);
    let mut k: usize = 0;
    let total: usize = s.len();
    while k <= total && w.len() <= total - k
        invariant
            total == s@.len(),
            k <= total + 1,
            w@ == word@,
            forall|j: int| 0 <= j < k ==> !separate_at(s@, w@, j),
        decreases total + 1 - k,
    {
        if word_at(s, &w, k) {
            let end: usize = k + w.len();
            let open: bool = k == 0 || !('a' <= s[k - 1] && s[k - 1] <= 'z');
            let closed: bool = end == total || !('a' <= s[end] && s[end] <= 'z');
            if open && closed {
                assert(separate_at(s@, w@, k as int));
                return true;
            }
        }
        if k == total {
            assert(forall|j: int| j > total ==> !separate_at(s@, w@, j));
            return false;
        }
        k = k + 1;
    }
    assert(forall|j: int| j >= k ==> !separate_at(s@, w@, j));
    false
}

/// What stands in a text stands in it as well when more is put behind it, or before it.
pub proof fn lemma_grows(front: Seq<char>, back: Seq<char>, w: Seq<char>)
    ensures
        occurs(front, w) ==> occurs(front + back, w),
        occurs(back, w) ==> occurs(front + back, w),
        occurs(w, w),
{
    let s = front + back;
    if occurs(front, w) {
        let k = choose|k: int| occurs_at(front, w, k);
        assert(s.subrange(k, k + w.len()) =~= front.subrange(k, k + w.len()));
        assert(occurs_at(s, w, k));
    }
    if occurs(back, w) {
        let k = choose|k: int| occurs_at(back, w, k);
        let n = front.len() + k;
        assert(s.subrange(n, n + w.len()) =~= back.subrange(k, k + w.len()));
        assert(occurs_at(s, w, n));
    }
    assert(w.subrange(0, w.len() as int) =~= w);
    assert(occurs_at(w, w, 0));
}

/// Putting texts together in another order of brackets gives the same text.
pub proof fn lemma_brackets(a: Seq<char>, b: Seq<char>, c: Seq<char>, d: Seq<char>)
    ensures
        a + b + c + d == a + (b + c + d),
        a + b + c == a + (b + c),
{
    assert(a + b + c + d =~= a + (b + c + d));
    assert(a + b + c =~= a + (b + c));
}

/// Filling up keeps the text at its side, gives at least the width, and adds spaces alone.
pub proof fn law_flush(s: Seq<char>, width: nat, i: int)
    ensures
        flush_left(s, width).len() == if s.len() > width { s.len() } else { width },
        flush_right(s, width).len() == flush_left(s, width).len(),
        0 <= i < s.len() ==> flush_left(s, width)[i] == s[i],
        s.len() <= i < width ==> flush_left(s, width)[i] == ' ',
        0 <= i < s.len() ==> flush_right(s, width)[flush_right(s, width).len() - s.len() + i]
            == s[i],
        0 <= i < width - s.len() ==> flush_right(s, width)[i] == ' ',
{
}

/// A joined text holds each of its parts.
pub proof fn law_joined_holds_parts(parts: Seq<Seq<char>>, separator: Seq<char>, i: int)
    requires
        0 <= i < parts.len(),
    ensures
        occurs(joined(parts, separator), parts[i]),
    decreases parts.len(),
{
    if parts.len() == 1 {
        lemma_grows(parts[0], parts[0], parts[0]);
    } else {
        let front = joined(parts.drop_last(), separator);
        if i < parts.len() - 1 {
            law_joined_holds_parts(parts.drop_last(), separator, i);
        }
        lemma_grows(front, separator, parts[i]);
        lemma_grows(front + separator, parts.last(), parts[i]);
    }
}

/// Lowering takes each capital letter to its small letter, which lies 32 places further, keeps
/// everything else, and changes nothing when it is done again.
pub proof fn law_lowering(s: Seq<char>, i: int)
    requires
        0 <= i < s.len(),
    ensures
        lowered(s).len() == s.len(),
        65 <= s[i] as u32 <= 90 ==> lowered(s)[i] as u32 == s[i] as u32 + 32,
        !(65 <= s[i] as u32 <= 90) ==> lowered(s)[i] == s[i],
        lowered(lowered(s)) == lowered(s),
{
    assert(lowered(lowered(s)) =~= lowered(s));
}

} // verus!
