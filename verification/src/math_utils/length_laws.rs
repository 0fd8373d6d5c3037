//! The lengths of vectors and quaternions, held against exact arithmetic.

use crate::math_utils::kinematics_math::{close, epsilon, one, Quaternion, Vector3, EPSILON};
use crate::math_utils::rotation_laws::lemma_one;
use crate::math_utils::vector_laws::{
    exact, imaginary, lemma_combined, lemma_four_squares, quaternion_within, vector_within,
};
use crate::numeric::accuracy::{
    abs, huge, law_root_is_near, lemma_abs_product, lemma_difference_error, lemma_near_bound,
    lemma_product_error, lemma_quotient_error, lemma_quotient_finite, lemma_sizes, near, one_unit,
};
use crate::numeric::binary32::{law_position_orders_values, signed, Binary32};
use crate::numeric::rounding::lemma_magnitude_compose;
use vstd::arithmetic::power2::*;
use vstd::prelude::*;

verus! {

/// The number 1 is more than `2^104` units.
proof fn lemma_one_is_large()
    ensures
        one_unit() >= 20282409603651670423947251286016,
{
    lemma2_to64();
    lemma2_to64_rest();
    lemma_pow2_adds(52, 52);
    lemma_pow2_strictly_increases(104, 149);
    assert(pow2(52) == 0x10_0000_0000_0000);
    assert(0x10_0000_0000_0000int * 0x10_0000_0000_0000int == 20282409603651670423947251286016int);
}

/// A bound of ordinary size for the parts of a vector: from `2^-20` to `2^20`.
pub open spec fn ordinary_bound(most: int) -> bool {
    one_unit() <= 1048576 * most && most <= 1048576 * one_unit()
}

/// The square of the length of a vector is the sum of the squares of its components, up to one
/// part in `2^19`.
pub proof fn law_vector_length(v: Vector3, most: int)
    requires
        vector_within(v, most),
        ordinary_bound(most),
        abs(v.x.value()) == most || abs(v.y.value()) == most || abs(v.z.value()) == most,
    ensures
        ({
            let r = v.length().value();
            let square = exact(v).dot(exact(v));
            &&& v.length().finite()
            &&& r > 0
            &&& 524288 * abs(r * r - square) <= square
        }),
{
    let one = one_unit() as int;
    let size = lemma_size_of(most);
    lemma_combined(v.x, v.x, v.y, v.y, v.z, v.z, most, most, size);
    let (x, y, z) = (v.x.value(), v.y.value(), v.z.value());
    lemma_square(x);
    lemma_square(y);
    lemma_square(z);
    let square = x * x + y * y + z * z;
    assert(square >= most * most);
    assert(0 <= square);
    lemma_root_of(v.inner(v), square, most, size, 9);
}

/// The square of the length of a quaternion is the sum of the squares of its parts, up to one
/// part in `2^19`.
pub proof fn law_quaternion_length(q: Quaternion, most: int)
    requires
        quaternion_within(q, most),
        ordinary_bound(most),
        abs(q.w.value()) == most || abs(q.x.value()) == most || abs(q.y.value()) == most || abs(
            q.z.value(),
        ) == most,
    ensures
        ({
            let r = q.length().value();
            let square = q.w.value() * q.w.value() + imaginary(q).dot(imaginary(q));
            &&& q.length().finite()
            &&& r > 0
            &&& 524288 * abs(r * r - square) <= square
        }),
{
    let one = one_unit() as int;
    let size = lemma_size_of(most);
    lemma_four_squares(q, most, size);
    let (w, x, y, z) = (q.w.value(), q.x.value(), q.y.value(), q.z.value());
    lemma_square(w);
    lemma_square(x);
    lemma_square(y);
    lemma_square(z);
    let square = w * w + (x * x + y * y + z * z);
    assert(square >= most * most);
    let n = q.w.product(q.w).sum(q.x.product(q.x)).sum(q.y.product(q.y)).sum(q.z.product(q.z));
    lemma_root_of(n, square, most, size, 15);
}

proof fn lemma_square(x: int)
    ensures
        x * x == abs(x) * abs(x),
        x * x >= 0,
{
    assert((-x) * (-x) == x * x) by (nonlinear_arith);
    assert(x * x >= 0) by (nonlinear_arith);
}

/// The size of the squares of numbers up to `most`, in units.
proof fn lemma_size_of(most: int) -> (size: int)
    requires
        ordinary_bound(most),
    ensures
        0 <= size <= 0x1000_0000_0000 * one_unit(),
        most * most <= size * one_unit() <= most * most + one_unit(),
{
    let one = one_unit() as int;
    lemma_sizes();
    let square = most * most;
    let size = square / one + 1;
    assert(square <= 0x100_0000_0000 * (one * one) && square >= 0) by (nonlinear_arith)
        requires
            square == most * most,
            0 <= most <= 1048576 * one,
    ;
    assert(square / one * one <= square < square / one * one + one && square / one >= 0)
        by (nonlinear_arith)
        requires
            one > 0,
            square >= 0,
    ;
    let q = square / one;
    assert((q + 1) * one == q * one + one) by (nonlinear_arith);
    assert(q <= 0x100_0000_0000 * one) by (nonlinear_arith)
        requires
            q * one <= 0x100_0000_0000 * (one * one),
            one > 0,
    ;
    size
}

/// The root of a sum of squares.
proof fn lemma_root_of(n: Binary32, square: int, most: int, size: int, k: int)
    requires
        n.finite(),
        ordinary_bound(most),
        square >= most * most,
        size * one_unit() <= most * most + one_unit(),
        0 <= k <= 15,
        16777216 * abs(n.value() * one_unit() - square) <= (k * size + 134217728) * one_unit(),
    ensures
        n.root().finite(),
        n.root().value() > 0,
        524288 * abs(n.root().value() * n.root().value() - square) <= square,
{
    let one = one_unit() as int;
    let m2 = most * most;
    lemma_one_is_large();
    assert((k * size + 134217728) * one == k * (size * one) + 134217728 * one)
        by (nonlinear_arith);
    let s1 = size * one;
    assert(k * s1 <= 15 * (m2 + one)) by (nonlinear_arith)
        requires
            s1 <= m2 + one,
            m2 + one >= 0,
            0 <= k <= 15,
    ;
    assert(134217743 * one <= m2) by (nonlinear_arith)
        requires
            one <= 1048576 * most,
            one >= 20282409603651670423947251286016,
            m2 == most * most,
    ;
    let w = n.value() * one;
    assert(16777216 * abs(w - square) <= 16 * square);
    assert(n.value() > 0) by (nonlinear_arith)
        requires
            w > 0,
            w == n.value() * one,
            one > 0,
    ;
    law_root_is_near(n);
    let r = n.root().value();
    let q = r * r;
    assert(r > 8388608) by (nonlinear_arith)
        requires
            w <= 4 * (r * r),
            2 * w >= m2,
            m2 >= 134217743 * one,
            one >= 20282409603651670423947251286016,
            r > 0,
    ;
    assert(r * (r + 8388608) <= 2 * q) by (nonlinear_arith)
        requires
            r > 8388608,
            q == r * r,
    ;
    assert((r + 8388608) * (r + 8388608) <= 4 * q) by (nonlinear_arith)
        requires
            r > 8388608,
            q == r * r,
    ;
    assert(2097152 * abs(w - q) <= q);
}

/// A vector that is not shorter than the tolerance is divided by its length, up to rounding;
/// a shorter one becomes zero.
pub proof fn law_direction_of_vector(v: Vector3)
    requires
        v.length().finite(),
        v.length().value() <= 1048576 * one_unit(),
        v.x.finite(),
        v.y.finite(),
        v.z.finite(),
        v.direction().x.finite(),
        v.direction().y.finite(),
        v.direction().z.finite(),
    ensures
        v.length().below(epsilon()) ==> v.direction() == Vector3::origin(),
        !v.length().below(epsilon()) ==> divided(v.x, v.direction().x, v.length()) && divided(
            v.y,
            v.direction().y,
            v.length(),
        ) && divided(v.z, v.direction().z, v.length()),
{
    if !v.length().below(epsilon()) {
        lemma_divided(v.x, v.length());
        lemma_divided(v.y, v.length());
        lemma_divided(v.z, v.length());
    }
}

/// `d` times `length` is `x`, up to rounding.
pub open spec fn divided(x: Binary32, d: Binary32, length: Binary32) -> bool {
    let one = one_unit() as int;
    16777216 * abs(d.value() * length.value() - x.value() * one) <= 16 * (abs(x.value()) * one)
        + 33554432 * length.value()
}

proof fn lemma_epsilon()
    ensures
        epsilon().finite(),
        one_unit() <= 1048576 * epsilon().value(),
        999999997 * one_unit() < 1000000000000000 * epsilon().value() < 1000000000 * one_unit(),
{
    lemma2_to64();
    assert(pow2(23) == 8388608);
    lemma_magnitude_compose(23, 106, 8796093);
    assert(106 * 8388608 + 8796093 == EPSILON as int);
    assert(pow2(43) == 8796093022208) by {
        lemma2_to64_rest();
    }
    lemma_pow2_adds(43, 106);
    lemma_pow2_pos(106);
    let u = pow2(106) as int;
    assert(8796093022208 * u <= 1048576 * (8796093 * u));
    assert(epsilon().value() == 8796093 * u);
}

proof fn lemma_divided(x: Binary32, n: Binary32)
    requires
        x.finite(),
        n.finite(),
        !n.below(epsilon()),
        n.value() <= 1048576 * one_unit(),
        x.product(one().quotient(n)).finite(),
    ensures
        divided(x, x.product(one().quotient(n)), n),
{
    let unit = one();
    let one = one_unit() as int;
    let len = n.value();
    lemma_sizes();
    lemma_one();
    lemma_one_is_large();
    lemma_epsilon();
    law_position_orders_values(n, epsilon());
    assert(unit.size() == one && n.size() == len);
    assert(one * one <= huge() * len) by (nonlinear_arith)
        requires
            huge() >= 0x1000_0000_0000_0000 * one,
            one <= 1048576 * len,
            one > 0,
    ;
    lemma_quotient_finite(unit, n);
    lemma_quotient_error(unit, n);
    let inverse = unit.quotient(n);
    let k = inverse.value();
    lemma_product_error(x, inverse);
    lemma_division(x.value(), k, x.product(inverse).value(), len, one);
}

proof fn lemma_division(x: int, k: int, d: int, len: int, one: int)
    requires
        one >= 20282409603651670423947251286016,
        0 < len <= 1048576 * one,
        near(one * one, k, len),
        near(x * k, d, one),
    ensures
        16777216 * abs(d * len - x * one) <= 16 * (abs(x) * one) + 33554432 * len,
{
    let square = one * one;
    let kl = k * len;
    lemma_near_bound(square, k, len);
    assert(square > 0) by (nonlinear_arith)
        requires
            one > 0,
            square == one * one,
    ;
    assert(len <= square) by (nonlinear_arith)
        requires
            len <= 1048576 * one,
            one > 1048576,
            square == one * one,
    ;
    assert(8388608 * len <= square) by (nonlinear_arith)
        requires
            len <= 1048576 * one,
            one >= 20282409603651670423947251286016,
            square == one * one,
    ;
    lemma_abs_product(k, len);
    assert((abs(k) + 8388608) * len == abs(k) * len + 8388608 * len) by (nonlinear_arith);
    assert(16777216 * abs(square - kl) <= 4 * square);
    // The quotient, taken x times.
    let xa = abs(x);
    let off = abs(square - kl);
    assert(abs(x * square - x * kl) == xa * off) by {
        assert(x * square - x * kl == x * (square - kl)) by (nonlinear_arith);
        lemma_abs_of_product(x, square - kl);
    }
    assert(16777216 * (xa * off) <= 4 * (xa * square)) by (nonlinear_arith)
        requires
            16777216 * off <= 4 * square,
            xa >= 0,
    ;
    // The product, taken over the length.
    lemma_abs_product(x * k - d * one, len);
    assert((x * k - d * one) * len == x * kl - (d * len) * one) by (nonlinear_arith)
        requires
            kl == k * len,
    ;
    let e = abs(x * k - d * one);
    let da = abs(d);
    assert(16777216 * (e * len) <= (da * len) * one + 8388608 * (len * one)) by (nonlinear_arith)
        requires
            16777216 * e <= (da + 8388608) * one,
            len > 0,
    ;
    let g = d * len - x * one;
    lemma_abs_product(g, one);
    lemma_abs_product(d, len);
    assert(g * one == (d * len) * one - x * square) by (nonlinear_arith)
        requires
            g == d * len - x * one,
            square == one * one,
    ;
    let ga = abs(g);
    let dl = da * len;
    assert(16777216 * (ga * one) <= 4 * (xa * square) + dl * one + 8388608 * (len * one));
    assert(xa * square == (xa * one) * one) by (nonlinear_arith)
        requires
            square == one * one,
    ;
    assert(16777216 * ga <= 4 * (xa * one) + dl + 8388608 * len) by (nonlinear_arith)
        requires
            16777216 * (ga * one) <= 4 * ((xa * one) * one) + dl * one + 8388608 * (len * one),
            one > 0,
    ;
    lemma_abs_product(x, one);
    assert(dl <= xa * one + ga);
    assert(xa * one >= 0) by (nonlinear_arith)
        requires
            xa >= 0,
            one > 0,
    ;
}

proof fn lemma_abs_of_product(x: int, y: int)
    ensures
        abs(x * y) == abs(x) * abs(y),
{
    if y > 0 {
        lemma_abs_product(x, y);
    } else if y < 0 {
        lemma_abs_product(x, -y);
        assert(x * (-y) == -(x * y)) by (nonlinear_arith);
    } else {
        assert(x * y == 0 && abs(x) * abs(y) == 0) by (nonlinear_arith)
            requires
                y == 0,
                abs(y) == 0,
        ;
    }
}

pub open spec fn parts_finite(q: Quaternion) -> bool {
    q.w.finite() && q.x.finite() && q.y.finite() && q.z.finite()
}

/// `r` times `n` is the quaternion with the real part `w` and the imaginary part `x`, `y`, `z`,
/// up to rounding.
pub open spec fn parts_over(w: int, x: int, y: int, z: int, n: int, r: Quaternion) -> bool {
    let one = one_unit() as int;
    &&& near(w * one, r.w.value(), n)
    &&& near(x * one, r.x.value(), n)
    &&& near(y * one, r.y.value(), n)
    &&& near(z * one, r.z.value(), n)
}

proof fn lemma_over(q: Quaternion, n: Binary32)
    requires
        n.finite(),
        !n.below(epsilon()),
        parts_finite(q.over(n)),
    ensures
        parts_over(q.w.value(), q.x.value(), q.y.value(), q.z.value(), n.value(), q.over(n)),
{
    lemma_epsilon();
    lemma_sizes();
    law_position_orders_values(n, epsilon());
    lemma_quotient_error(q.w, n);
    lemma_quotient_error(q.x, n);
    lemma_quotient_error(q.y, n);
    lemma_quotient_error(q.z, n);
}

/// A quaternion that is not shorter than the tolerance is divided by its length, up to
/// rounding; a shorter one becomes the identity.
pub proof fn law_direction_of_quaternion(q: Quaternion)
    requires
        q.length().finite(),
        parts_finite(q.direction()),
    ensures
        q.length().below(epsilon()) ==> q.direction() == Quaternion::unit(),
        !q.length().below(epsilon()) ==> parts_over(
            q.w.value(),
            q.x.value(),
            q.y.value(),
            q.z.value(),
            q.length().value(),
            q.direction(),
        ),
{
    if !q.length().below(epsilon()) {
        lemma_over(q, q.length());
    }
}

/// The inverse has the real part and the opposite imaginary part, over the square of the
/// length, up to rounding; where that square is below the tolerance it is the identity.
pub proof fn law_inverse(q: Quaternion)
    requires
        q.length().product(q.length()).finite(),
        parts_finite(q.inverted()),
    ensures
        ({
            let one = one_unit() as int;
            let n = q.length().product(q.length());
            let r = q.length().value();
            &&& near(r * r, n.value(), one)
            &&& n.below(epsilon()) ==> q.inverted() == Quaternion::unit()
            &&& !n.below(epsilon()) ==> parts_over(
                q.w.value(),
                -q.x.value(),
                -q.y.value(),
                -q.z.value(),
                n.value(),
                q.inverted(),
            )
        }),
{
    let n = q.length().product(q.length());
    lemma_product_error(q.length(), q.length());
    if !n.below(epsilon()) {
        lemma_over(q.conjugated(), n);
    }
}

/// A rotation around an axis has the cosine of the half angle as its real part, and the sine
/// times the direction of the axis as its imaginary part, up to rounding.
pub proof fn law_rotation_around(axis: Vector3, c: Binary32, s: Binary32)
    requires
        parts_finite(Quaternion::around(axis, c, s)),
    ensures
        ({
            let one = one_unit() as int;
            let q = Quaternion::around(axis, c, s);
            let d = axis.direction();
            &&& q.w == c
            &&& near(d.x.value() * s.value(), q.x.value(), one)
            &&& near(d.y.value() * s.value(), q.y.value(), one)
            &&& near(d.z.value() * s.value(), q.z.value(), one)
        }),
{
    let d = axis.direction();
    lemma_product_error(d.x, s);
    lemma_product_error(d.y, s);
    lemma_product_error(d.z, s);
}

/// Two numbers are close if they differ by clearly less than a millionth, and not if they
/// differ by clearly more.
pub proof fn law_close(a: Binary32, b: Binary32)
    requires
        a.difference(b).finite(),
    ensures
        ({
            let d = abs(a.value() - b.value());
            &&& 1000001 * d < one_unit() ==> close(a, b)
            &&& 999999 * d > one_unit() ==> !close(a, b)
        }),
{
    let d = a.difference(b);
    let size = signed(false, d.absolute());
    lemma_epsilon();
    lemma_sizes();
    lemma_one_is_large();
    lemma_difference_error(a, b);
    law_position_orders_values(size, epsilon());
    assert(size.value() == abs(d.value()));
}

} // verus!
