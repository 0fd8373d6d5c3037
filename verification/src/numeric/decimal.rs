//! Whole numbers in decimal notation.

use vstd::arithmetic::div_mod::*;
use vstd::arithmetic::mul::*;
use vstd::arithmetic::power2::*;
use vstd::prelude::*;

verus! {

/// `10^n`.
pub open spec fn ten(n: nat) -> nat
    decreases n,
{
    if n == 0 {
        1
    } else {
        10 * ten((n - 1) as nat)
    }
}

pub proof fn lemma_ten_positive(n: nat)
    ensures
        ten(n) > 0,
    decreases n,
{
    if n > 0 {
        lemma_ten_positive((n - 1) as nat);
    }
}

pub proof fn lemma_ten_adds(a: nat, b: nat)
    ensures
        ten(a + b) == ten(a) * ten(b),
    decreases a,
{
    if a == 0 {
        assert(1 * ten(b) == ten(b));
    } else {
        lemma_ten_adds((a - 1) as nat, b);
        assert(a + b - 1 == (a - 1) as nat + b);
        let x = ten((a - 1) as nat);
        let y = ten(b);
        assert(10 * (x * y) == (10 * x) * y) by (nonlinear_arith);
    }
}

pub proof fn lemma_ten_grows(a: nat, b: nat)
    requires
        a <= b,
    ensures
        ten(a) <= ten(b),
    decreases b,
{
    if a < b {
        lemma_ten_grows(a, (b - 1) as nat);
        lemma_ten_positive((b - 1) as nat);
    }
}

/// `10^n` lies below `16^n`.
pub proof fn lemma_ten_below_power(n: nat)
    ensures
        ten(n) <= pow2(4 * n),
    decreases n,
{
    lemma2_to64();
    if n > 0 {
        lemma_ten_below_power((n - 1) as nat);
        lemma_pow2_adds(4, (4 * (n - 1)) as nat);
        assert(4 + 4 * (n - 1) == 4 * n);
        lemma_pow2_pos((4 * (n - 1)) as nat);
    }
}

/// ASCII digits of `n`, most significant first.
pub open spec fn decimal(n: nat) -> Seq<u8>
    decreases n,
{
    if n < 10 {
        seq![(n + 48) as u8]
    } else {
        decimal(n / 10).push((n % 10 + 48) as u8)
    }
}

/// The last `width` digits of `n`, with leading zeros.
pub open spec fn padded(n: nat, width: nat) -> Seq<u8>
    decreases width,
{
    if width == 0 {
        Seq::empty()
    } else {
        padded(n / 10, (width - 1) as nat).push((n % 10 + 48) as u8)
    }
}

/// Appends the decimal notation of `n`.
pub fn push_decimal(out: &mut Vec<u8>, n: u128)
    ensures
        final(out)@ == old(out)@ + decimal(n as nat),
    decreases n,
{
    if n < 10 {
        out.push((n + 48) as u8);
        assert(out@ =~= old(out)@ + decimal(n as nat));
    } else {
        push_decimal(out, n / 10);
        out.push((n % 10 + 48) as u8);
        assert(out@ =~= old(out)@ + decimal(n as nat));
    }
}

/// Appends the last `width` digits of `n`.
pub fn push_padded(out: &mut Vec<u8>, n: u128, width: u32)
    ensures
        final(out)@ == old(out)@ + padded(n as nat, width as nat),
    decreases width,
{
    if width == 0 {
        assert(out@ =~= old(out)@ + padded(n as nat, width as nat));
    } else {
        push_padded(out, n / 10, width - 1);
        out.push((n % 10 + 48) as u8);
        assert(out@ =~= old(out)@ + padded(n as nat, width as nat));
    }
}

/// Number written with the digits `d`, least significant first.
pub open spec fn number_of(d: Seq<u8>) -> nat
    decreases d.len(),
{
    if d.len() == 0 {
        0
    } else {
        d[0] as nat + 10 * number_of(d.skip(1))
    }
}

/// Every element is a digit.
pub open spec fn all_digits(d: Seq<u8>) -> bool {
    forall|i: int| 0 <= i < d.len() ==> #[trigger] d[i] < 10
}

/// Digits without a zero in the most significant place.
pub open spec fn trimmed(d: Seq<u8>) -> bool {
    &&& all_digits(d)
    &&& d.len() > 0 ==> d[d.len() - 1] > 0
}

pub proof fn lemma_number_push(d: Seq<u8>, x: u8)
    ensures
        number_of(d.push(x)) == number_of(d) + x * ten(d.len()),
    decreases d.len(),
{
    let e = d.push(x);
    if d.len() == 0 {
        assert(e.skip(1) =~= Seq::<u8>::empty());
        assert(number_of(e.skip(1)) == 0);
        assert(e[0] == x);
        assert(x * ten(0) == x) by (nonlinear_arith)
            requires
                ten(0) == 1,
        ;
    } else {
        assert(e.skip(1) =~= d.skip(1).push(x));
        assert(e[0] == d[0]);
        lemma_number_push(d.skip(1), x);
        let t = ten((d.len() - 1) as nat);
        assert(10 * (x * t) == x * (10 * t)) by (nonlinear_arith);
    }
}

/// Splitting the digits splits the number.
pub proof fn lemma_number_split(d: Seq<u8>, n: int)
    requires
        0 <= n <= d.len(),
    ensures
        number_of(d) == number_of(d.take(n)) + ten(n as nat) * number_of(d.skip(n)),
    decreases n,
{
    if n == 0 {
        assert(d.take(0) =~= Seq::<u8>::empty());
        assert(d.skip(0) =~= d);
        assert(1 * number_of(d) == number_of(d));
    } else {
        let r = d.skip(1);
        lemma_number_split(r, n - 1);
        assert(d.take(n).skip(1) =~= r.take(n - 1));
        assert(d.take(n)[0] == d[0]);
        assert(r.skip(n - 1) =~= d.skip(n));
        let t = ten((n - 1) as nat);
        let v = number_of(d.skip(n));
        assert(10 * (t * v) == (10 * t) * v) by (nonlinear_arith);
    }
}

pub proof fn lemma_number_bound(d: Seq<u8>)
    requires
        all_digits(d),
    ensures
        number_of(d) < ten(d.len()),
    decreases d.len(),
{
    if d.len() > 0 {
        assert forall|i: int| 0 <= i < d.skip(1).len() implies #[trigger] d.skip(1)[i] < 10 by {
            assert(d.skip(1)[i] == d[i + 1]);
        }
        lemma_number_bound(d.skip(1));
        assert(d[0] < 10);
    }
}

/// A number without leading zeros has its length's size.
pub proof fn lemma_number_lower(d: Seq<u8>)
    requires
        trimmed(d),
        d.len() > 0,
    ensures
        number_of(d) >= ten((d.len() - 1) as nat),
{
    let n = d.len() - 1;
    lemma_number_split(d, n);
    assert(d.skip(n) =~= seq![d[n]]);
    assert(seq![d[n]].skip(1) =~= Seq::<u8>::empty());
    assert(number_of(seq![d[n]]) == d[n]) by {
        assert(seq![d[n]][0] == d[n]);
        assert(number_of(Seq::<u8>::empty()) == 0);
    }
    lemma_ten_positive(n as nat);
    let x = d[n];
    assert(ten(n as nat) * x >= ten(n as nat)) by (nonlinear_arith)
        requires
            x >= 1,
            ten(n as nat) > 0,
    ;
}

/// Multiplies the number by a small factor.
pub fn scale_digits(d: &mut Vec<u8>, factor: u8)
    requires
        trimmed(old(d)@),
        1 <= factor <= 9,
    ensures
        trimmed(final(d)@),
        number_of(final(d)@) == factor * number_of(old(d)@),
        final(d)@.len() >= old(d)@.len(),
{
    let n: usize = d.len();
    let ghost before = d@;
    let mut carry: u8 = 0;
    let mut i: usize = 0;
    proof {
        assert(d@.take(0) =~= Seq::<u8>::empty());
        assert(before.skip(0) =~= before);
        let v = number_of(before);
        assert(ten(0) * (0 + factor * v) == factor * v) by (nonlinear_arith)
            requires
                ten(0) == 1,
        ;
    }
    while i < n
        invariant
            1 <= factor <= 9,
            n == before.len(),
            d@.len() == n,
            i <= n,
            carry < factor,
            trimmed(before),
            all_digits(d@),
            forall|j: int| i <= j < n ==> #[trigger] d@[j] == before[j],
            factor * number_of(before) == number_of(d@.take(i as int)) + ten(i as nat) * (carry
                + factor * number_of(before.skip(i as int))),
            i == n ==> (n > 0 ==> carry > 0 || d@[n - 1] > 0),
        decreases n - i,
    {
        let ghost prev = d@;
        let x: u8 = d[i];
        assert(x < 10);
        assert(x * factor <= 9 * factor) by (nonlinear_arith)
            requires
                x <= 9,
        ;
        let t: u8 = x * factor + carry;
        d[i] = t % 10;
        proof {
            let k = i as int;
            let digit = (t % 10) as u8;
            let next = (t / 10) as u8;
            assert(d@.take(k + 1) =~= prev.take(k).push(digit));
            lemma_number_push(prev.take(k), digit);
            assert(before.skip(k).skip(1) =~= before.skip(k + 1));
            assert(before.skip(k)[0] == x);
            let rest = number_of(before.skip(k + 1));
            let p = ten(i as nat);
            assert(number_of(before.skip(k)) == x + 10 * rest);
            assert(factor * (x + 10 * rest) == x * factor + 10 * (factor * rest))
                by (nonlinear_arith);
            assert(p * (carry + (x * factor + 10 * (factor * rest))) == digit * p + (10 * p) * (next
                + factor * rest)) by (nonlinear_arith)
                requires
                    x * factor + carry == 10 * next + digit,
            ;
            assert(ten((i + 1) as nat) == 10 * p);
            if i + 1 == n {
                assert(x > 0);
                assert(t > 0) by (nonlinear_arith)
                    requires
                        t == x * factor + carry,
                        x > 0,
                        factor > 0,
                        carry >= 0,
                ;
            }
        }
        carry = t / 10;
        i = i + 1;
    }
    proof {
        assert(before.skip(n as int) =~= Seq::<u8>::empty());
        assert(d@.take(n as int) =~= d@);
        assert(factor * 0 == 0) by (nonlinear_arith);
    }
    if carry > 0 {
        proof {
            lemma_number_push(d@, carry);
            assert(ten(n as nat) * carry == carry * ten(n as nat)) by (nonlinear_arith);
        }
        d.push(carry);
    } else {
        assert(ten(n as nat) * 0 == 0) by (nonlinear_arith);
    }
}

/// Appends the decimal notation of a number given by its digits.
pub fn push_digits(out: &mut Vec<u8>, d: &Vec<u8>)
    requires
        trimmed(d@),
        d@.len() > 0,
    ensures
        final(out)@ == old(out)@ + decimal(number_of(d@)),
{
    let ghost start = out@;
    let mut i: usize = d.len();
    while i > 0
        invariant
            i <= d@.len(),
            trimmed(d@),
            d@.len() > 0,
            i == d@.len() ==> out@ == start,
            i < d@.len() ==> out@ == start + decimal(number_of(d@.skip(i as int))),
        decreases i,
    {
        i = i - 1;
        proof {
            let k = i as int;
            let tail = d@.skip(k);
            assert(tail.skip(1) =~= d@.skip(k + 1));
            assert(tail[0] == d@[k]);
            assert(d@[k] < 10);
            let rest = number_of(d@.skip(k + 1));
            if k + 1 == d@.len() {
                assert(d@.skip(k + 1) =~= Seq::<u8>::empty());
            } else {
                assert(trimmed(d@.skip(k + 1))) by {
                    assert forall|j: int| 0 <= j < d@.skip(k + 1).len() implies #[trigger] d@.skip(
                        k + 1,
                    )[j] < 10 by {
                        assert(d@.skip(k + 1)[j] == d@[k + 1 + j]);
                    }
                }
                lemma_number_lower(d@.skip(k + 1));
                lemma_ten_positive((d@.skip(k + 1).len() - 1) as nat);
                assert((d@[k] + 10 * rest) / 10 == rest);
                assert((d@[k] + 10 * rest) % 10 == d@[k]);
            }
        }
        out.push(d[i] + 48);
        assert(out@ =~= start + decimal(number_of(d@.skip(i as int))));
    }
    assert(d@.skip(0) =~= d@);
}

/// Digits of `n`, least significant first.
pub fn digits_of(n: u64) -> (d: Vec<u8>)
    ensures
        trimmed(d@),
        number_of(d@) == n,
        n > 0 ==> d@.len() > 0,
{
    let mut d: Vec<u8> = Vec::new();
    let mut x: u64 = n;
    proof {
        assert(x * ten(0) == x) by (nonlinear_arith)
            requires
                ten(0) == 1,
        ;
    }
    while x > 0
        invariant
            all_digits(d@),
            n == number_of(d@) + x * ten(d@.len()),
            x == 0 ==> (d@.len() > 0 ==> d@[d@.len() - 1] > 0),
            n > 0 ==> d@.len() > 0 || x > 0,
        decreases x,
    {
        let ghost prev = d@;
        d.push((x % 10) as u8);
        proof {
            lemma_number_push(prev, (x % 10) as u8);
            let p = ten(prev.len());
            let q = x / 10;
            let r = x % 10;
            assert(x * p == r * p + q * (10 * p)) by (nonlinear_arith)
                requires
                    x == 10 * q + r,
            ;
            assert(ten(d@.len()) == 10 * p);
        }
        x = x / 10;
    }
    proof {
        assert(0 * ten(d@.len()) == 0) by (nonlinear_arith);
    }
    d
}

} // verus!
