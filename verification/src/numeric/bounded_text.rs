//! Text that is written into a buffer in place, and cut where the buffer ends.

use crate::numeric::binary32::{self, Binary32};
use crate::numeric::decimal::{decimal, lemma_ten_grows, lemma_ten_positive, padded, ten};
use crate::numeric::fixed_text::{
    fixed, half_even, infinity_text, lemma_half_even_scale, magnitude_text, nan_text, scaled_units,
    sign_text,
};
use crate::numeric::magnitudes::parts;
use crate::numeric::rounding::{magnitude, power_of_two};
use vstd::arithmetic::div_mod::*;
use vstd::arithmetic::power2::*;
use vstd::prelude::*;
use vstd::string::*;

verus! {

/// The buffer `buf` with `text` in it from position `pos` on, as far as there is room.
pub open spec fn placed(buf: Seq<u8>, pos: int, text: Seq<u8>) -> Seq<u8> {
    Seq::new(
        buf.len(),
        |i: int|
            if pos <= i < pos + text.len() {
                text[i - pos]
            } else {
                buf[i]
            },
    )
}

/// Where a text ends that is placed at position `pos`.
pub open spec fn behind(buf: Seq<u8>, pos: int, text: Seq<u8>) -> int {
    if pos + text.len() <= buf.len() {
        pos + text.len()
    } else {
        buf.len() as int
    }
}

/// Placing `text` at position `pos` of `before` gave `after`, and ended at `next`.
pub open spec fn wrote(
    before: Seq<u8>,
    pos: int,
    text: Seq<u8>,
    after: Seq<u8>,
    next: int,
) -> bool {
    &&& after == placed(before, pos, text)
    &&& next == behind(before, pos, text)
}

/// Two texts that are placed one behind the other are placed as one.
pub proof fn lemma_wrote_both(
    before: Seq<u8>,
    pos: int,
    first: Seq<u8>,
    mid: Seq<u8>,
    between: int,
    second: Seq<u8>,
    after: Seq<u8>,
    next: int,
)
    requires
        0 <= pos <= before.len(),
        wrote(before, pos, first, mid, between),
        wrote(mid, between, second, after, next),
    ensures
        wrote(before, pos, first + second, after, next),
{
    assert(after =~= placed(before, pos, first + second));
}

/// Writes one byte.
pub fn put_byte(out: &mut [u8], pos: usize, b: u8) -> (next: usize)
    requires
        pos <= old(out)@.len(),
    ensures
        wrote(old(out)@, pos as int, seq![b], final(out)@, next as int),
        next <= final(out)@.len(),
        final(out)@.len() == old(out)@.len(),
{
    if pos < out.len() {
        out[pos] = b;
        assert(out@ =~= placed(old(out)@, pos as int, seq![b]));
        pos + 1
    } else {
        assert(out@ =~= placed(old(out)@, pos as int, seq![b]));
        pos
    }
}

/// Writes the bytes of a text.
pub fn put_str(out: &mut [u8], pos: usize, s: &str) -> (next: usize)
    requires
        pos <= old(out)@.len(),
    ensures
        wrote(old(out)@, pos as int, s.spec_bytes(), final(out)@, next as int),
        next <= final(out)@.len(),
        final(out)@.len() == old(out)@.len(),
{
    let b: &[u8] = s.as_bytes();
    let ghost before = out@;
    let mut next: usize = pos;
    let mut i: usize = 0;
    assert(out@ =~= placed(before, pos as int, b@.take(0)));
    while i < b.len()
        invariant
            i <= b@.len(),
            pos <= before.len(),
            before.len() == out@.len(),
            next <= out@.len(),
            wrote(before, pos as int, b@.take(i as int), out@, next as int),
        decreases b@.len() - i,
    {
        let ghost mid = out@;
        let ghost between = next;
        next = put_byte(out, next, b[i]);
        proof {
            lemma_wrote_both(
                before,
                pos as int,
                b@.take(i as int),
                mid,
                between as int,
                seq![b@[i as int]],
                out@,
                next as int,
            );
            assert(b@.take(i as int) + seq![b@[i as int]] =~= b@.take(i + 1));
        }
        i = i + 1;
    }
    assert(b@.take(i as int) =~= b@);
    next
}

/// Writes the decimal notation of `n`.
pub fn put_decimal(out: &mut [u8], pos: usize, n: u128) -> (next: usize)
    requires
        pos <= old(out)@.len(),
    ensures
        wrote(old(out)@, pos as int, decimal(n as nat), final(out)@, next as int),
        next <= final(out)@.len(),
        final(out)@.len() == old(out)@.len(),
    decreases n,
{
    let ghost before = out@;
    if n < 10 {
        put_byte(out, pos, (n + 48) as u8)
    } else {
        let between: usize = put_decimal(out, pos, n / 10);
        let ghost mid = out@;
        let next: usize = put_byte(out, between, (n % 10 + 48) as u8);
        proof {
            let d = seq![(n % 10 + 48) as u8];
            lemma_wrote_both(
                before,
                pos as int,
                decimal(n as nat / 10),
                mid,
                between as int,
                d,
                out@,
                next as int,
            );
            assert(decimal(n as nat / 10) + d =~= decimal(n as nat));
        }
        next
    }
}

/// Writes the last `width` digits of `n`.
pub fn put_padded(out: &mut [u8], pos: usize, n: u128, width: u32) -> (next: usize)
    requires
        pos <= old(out)@.len(),
    ensures
        wrote(old(out)@, pos as int, padded(n as nat, width as nat), final(out)@, next as int),
        next <= final(out)@.len(),
        final(out)@.len() == old(out)@.len(),
    decreases width,
{
    let ghost before = out@;
    if width == 0 {
        assert(out@ =~= placed(before, pos as int, padded(n as nat, 0)));
        pos
    } else {
        let between: usize = put_padded(out, pos, n / 10, width - 1);
        let ghost mid = out@;
        let next: usize = put_byte(out, between, (n % 10 + 48) as u8);
        proof {
            let d = seq![(n % 10 + 48) as u8];
            lemma_wrote_both(
                before,
                pos as int,
                padded(n as nat / 10, (width - 1) as nat),
                mid,
                between as int,
                d,
                out@,
                next as int,
            );
            assert(padded(n as nat / 10, (width - 1) as nat) + d =~= padded(
                n as nat,
                width as nat,
            ));
        }
        next
    }
}

/// Writes `whole`, a point and the last `p` digits of `rest`.
fn put_parts(out: &mut [u8], pos: usize, whole: u128, rest: u128, p: u32) -> (next: usize)
    requires
        pos <= old(out)@.len(),
    ensures
        wrote(
            old(out)@,
            pos as int,
            decimal(whole as nat) + seq![46u8] + padded(rest as nat, p as nat),
            final(out)@,
            next as int,
        ),
        next <= final(out)@.len(),
        final(out)@.len() == old(out)@.len(),
{
    let ghost before = out@;
    let first: usize = put_decimal(out, pos, whole);
    let ghost out1 = out@;
    let second: usize = put_byte(out, first, 46);
    let ghost out2 = out@;
    let next: usize = put_padded(out, second, rest, p);
    proof {
        let t1 = decimal(whole as nat);
        let t2 = seq![46u8];
        let t3 = padded(rest as nat, p as nat);
        lemma_wrote_both(before, pos as int, t1, out1, first as int, t2, out2, second as int);
        lemma_wrote_both(before, pos as int, t1 + t2, out2, second as int, t3, out@, next as int);
    }
    next
}

fn power_of_ten(p: u32) -> (r: u128)
    requires
        p <= 9,
    ensures
        r == ten(p as nat),
        r > 0,
{
    let mut r: u128 = 1;
    let mut i: u32 = 0;
    while i < p
        invariant
            i <= p <= 9,
            r == ten(i as nat),
        decreases p - i,
    {
        proof {
            lemma_ten_grows((i + 1) as nat, 9);
            reveal_with_fuel(ten, 11);
        }
        r = r * 10;
        i = i + 1;
    }
    proof {
        lemma_ten_positive(p as nat);
    }
    r
}

/// Writes a finite, non-negative number with `p` decimals.
fn put_magnitude(out: &mut [u8], pos: usize, b: u32, p: u32) -> (next: usize)
    requires
        pos <= old(out)@.len(),
        b < binary32::INFINITY_BITS,
        1 <= p <= 9,
    ensures
        wrote(
            old(out)@,
            pos as int,
            magnitude_text(
                binary32::FRACTION_BITS as nat,
                binary32::SMALLEST_EXPONENT as nat,
                b as nat,
                p as nat,
            ),
            final(out)@,
            next as int,
        ),
        next <= final(out)@.len(),
        final(out)@.len() == old(out)@.len(),
{
    let f: u32 = binary32::FRACTION_BITS;
    let k: u32 = binary32::SMALLEST_EXPONENT;
    let ghost v = magnitude(f as nat, b as nat);
    let ghost t = ten(p as nat);
    let ghost u = pow2(k as nat);
    proof {
        lemma2_to64();
        assert(pow2(23) == 8388608);
        lemma_ten_positive(p as nat);
        lemma_pow2_pos(k as nat);
    }
    let (m, e) = parts(f, b as u64);
    proof {
        lemma_pow2_pos(e as nat);
        assert(b as nat / 8388608 <= 254);
    }
    if e >= k {
        let x: u32 = e - k;
        let scale: u128 = power_of_two(x);
        proof {
            if x < 104 {
                lemma_pow2_strictly_increases(x as nat, 104);
            }
            lemma_pow2_adds(64, 40);
            lemma2_to64_rest();
            assert(m * scale <= 0xff_ffff * pow2(104)) by (nonlinear_arith)
                requires
                    m <= 0xff_ffff,
                    scale <= pow2(104),
            ;
            assert(pow2(104) == 0x1_0000_0000_0000_0000 * 0x100_0000_0000);
        }
        let whole: u128 = m as u128 * scale;
        let next: usize = put_parts(out, pos, whole, 0, p);
        proof {
            lemma_pow2_adds(x as nat, k as nat);
            assert(v * t == (whole * t) * u + 0) by (nonlinear_arith)
                requires
                    v == m * pow2(e as nat),
                    pow2(e as nat) == pow2(x as nat) * u,
                    whole == m * pow2(x as nat),
            ;
            lemma_fundamental_div_mod_converse((v * t) as int, u as int, (whole * t) as int, 0);
            assert(half_even(v * t, u) == whole * t);
            assert(whole * t == t * whole + 0) by (nonlinear_arith);
            lemma_fundamental_div_mod_converse((whole * t) as int, t as int, whole as int, 0);
            assert(fixed(whole as nat * t, p as nat) == decimal(whole as nat) + seq![46u8] + padded(
                0,
                p as nat,
            ));
        }
        next
    } else {
        let s: u32 = k - e;
        let n: u128 = scaled_units(m, s, p);
        proof {
            lemma_pow2_adds(e as nat, s as nat);
            lemma_pow2_pos(s as nat);
            lemma_half_even_scale(m as nat * t, pow2(s as nat), pow2(e as nat));
            assert(v * t == pow2(e as nat) * (m * t)) by (nonlinear_arith)
                requires
                    v == m * pow2(e as nat),
            ;
            assert(n == half_even(v * t, u));
        }
        let unit: u128 = power_of_ten(p);
        put_parts(out, pos, n / unit, n % unit, p)
    }
}

impl Binary32 {
    /// Writes the number with `p` decimals.
    pub fn put_text(self, out: &mut [u8], pos: usize, p: u32) -> (next: usize)
        requires
            pos <= old(out)@.len(),
            1 <= p <= 9,
        ensures
            wrote(old(out)@, pos as int, self.text(p as nat), final(out)@, next as int),
            next <= final(out)@.len(),
            final(out)@.len() == old(out)@.len(),
    {
        if self.is_nan() {
            proof {
                lemma_names();
            }
            return put_str(out, pos, "NaN");
        }
        let ghost before = out@;
        let mut signed: usize = pos;
        if self.is_negative() {
            signed = put_byte(out, pos, 45);
        }
        let ghost mid = out@;
        assert(wrote(before, pos as int, sign_text(self.negative()), mid, signed as int)) by {
            assert(before =~= placed(before, pos as int, Seq::empty()));
        }
        let ghost rest = if self.infinite() {
            infinity_text()
        } else {
            magnitude_text(
                binary32::FRACTION_BITS as nat,
                binary32::SMALLEST_EXPONENT as nat,
                self.absolute(),
                p as nat,
            )
        };
        let next: usize = if self.is_infinite() {
            proof {
                lemma_names();
            }
            put_str(out, signed, "inf")
        } else {
            let b: u32 = self.absolute_value().bits;
            put_magnitude(out, signed, b, p)
        };
        proof {
            lemma_wrote_both(
                before,
                pos as int,
                sign_text(self.negative()),
                mid,
                signed as int,
                rest,
                out@,
                next as int,
            );
        }
        next
    }
}

proof fn lemma_names()
    ensures
        "NaN".spec_bytes() == nan_text(),
        "inf".spec_bytes() == infinity_text(),
{
    reveal_strlit("NaN");
    reveal_strlit("inf");
    assert("NaN".is_ascii());
    assert("inf".is_ascii());
    assert("NaN".spec_bytes() =~= nan_text());
    assert("inf".spec_bytes() =~= infinity_text());
}

} // verus!
