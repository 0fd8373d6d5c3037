//! What a quaternion does to a vector, held against exact arithmetic.

use crate::io_bridge::jerk_limiter::{lemma_two, number_two};
use crate::math_utils::kinematics_math::{
    combined, one, two, Matrix3, Quaternion, Vector3, ONE_BITS,
};
use crate::math_utils::vector_laws::{
    exact, imaginary, law_image_is_near, lemma_minor, lemma_product_of, matrix_within,
    quaternion_within, row, vector_within, within, Exact3,
};
use crate::numeric::accuracy::{
    abs, lemma_abs_product, lemma_difference_error, lemma_sizes, lemma_sum_finite, one_unit,
};
use crate::numeric::binary32::{
    law_product_commutes, law_product_one, law_product_zero, law_sum_commutes, law_sum_with_zero,
    number_zero, Binary32,
};
use crate::numeric::rounding::lemma_magnitude_compose;
use vstd::arithmetic::power2::*;
use vstd::prelude::*;

verus! {

/// The vector `v` turned by a quaternion with the real part `w` and the imaginary part `u`, in
/// exact arithmetic: `v + 2 w (u × v) + 2 u × (u × v)`, where the number 1 is `unit` and the
/// result is counted in cubes of units.
pub open spec fn turned(unit: int, w: int, u: Exact3, v: Exact3) -> Exact3 {
    let c = u.cross(v);
    v.times(unit * unit).plus(c.times(2 * w)).plus(u.cross(c).times(2))
}

/// The product of two quaternions in exact arithmetic, given by their real and imaginary parts.
pub open spec fn multiplied(w: int, a: Exact3, v: int, b: Exact3) -> (int, Exact3) {
    (w * v - a.dot(b), b.times(w).plus(a.times(v)).plus(a.cross(b)))
}

/// A quaternion of length 1 turns a vector to the product of the quaternion, the vector and the
/// conjugate. At another length the vector is kept to the amount by which the squared length
/// falls short of 1.
pub proof fn law_turned_is_sandwich(unit: int, w: int, u: Exact3, v: Exact3)
    ensures
        ({
            let half = multiplied(w, u, 0, v);
            let whole = multiplied(half.0, half.1, w, u.times(-1)).1;
            let t = turned(unit, w, u, v);
            let rest = unit * unit - w * w - u.dot(u);
            &&& t.x == whole.x + rest * v.x
            &&& t.y == whole.y + rest * v.y
            &&& t.z == whole.z + rest * v.z
        }),
{
    lemma_sandwich(unit, w, u.x, u.y, u.z, v.x, v.y, v.z);
    lemma_sandwich(unit, w, u.y, u.z, u.x, v.y, v.z, v.x);
    lemma_sandwich(unit, w, u.z, u.x, u.y, v.z, v.x, v.y);
    let half = multiplied(w, u, 0, v);
    let h = half.1;
    assert(w * 0 == 0) by (nonlinear_arith);
    assert(0 * u.x == 0 && 0 * u.y == 0 && 0 * u.z == 0) by (nonlinear_arith);
    assert(h.x == w * v.x + (u.y * v.z - u.z * v.y));
    assert(h.y == w * v.y + (u.z * v.x - u.x * v.z));
    assert(h.z == w * v.z + (u.x * v.y - u.y * v.x));
    assert(half.0 == -(u.x * v.x + u.y * v.y + u.z * v.z));
}

proof fn lemma_sandwich(unit: int, w: int, a: int, b: int, c: int, x: int, y: int, z: int)
    ensures
        ({
            let s = -(a * x + b * y + c * z);
            let hx = w * x + (b * z - c * y);
            let hy = w * y + (c * x - a * z);
            let hz = w * z + (a * y - b * x);
            let rest = unit * unit - w * w - (a * a + b * b + c * c);
            (unit * unit) * x + (2 * w) * (b * z - c * y) + 2 * (b * (a * y - b * x) - c * (c * x
                - a * z)) == s * (-1 * a) + w * hx + (hy * (-1 * c) - hz * (-1 * b)) + rest * x
        }),
{
    let s = -(a * x + b * y + c * z);
    let hx = w * x + (b * z - c * y);
    let hy = w * y + (c * x - a * z);
    let hz = w * z + (a * y - b * x);
    let rest = unit * unit - w * w - (a * a + b * b + c * c);
    assert((2 * w) * (b * z - c * y) == 2 * (w * (b * z)) - 2 * (w * (c * y))) by (nonlinear_arith);
    assert(b * (a * y - b * x) == b * (a * y) - b * (b * x)) by (nonlinear_arith);
    assert(c * (c * x - a * z) == c * (c * x) - c * (a * z)) by (nonlinear_arith);
    lemma_distributed(-a, -(a * x), -(b * y), -(c * z), 0, 0);
    assert((-a) * -(a * x) == a * (a * x)) by (nonlinear_arith);
    assert((-a) * -(b * y) == b * (a * y)) by (nonlinear_arith);
    assert((-a) * -(c * z) == c * (a * z)) by (nonlinear_arith);
    assert(s * (-1 * a) == (-a) * s) by (nonlinear_arith);
    assert(w * hx == w * (w * x) + w * (b * z) - w * (c * y)) by (nonlinear_arith)
        requires
            hx == w * x + (b * z - c * y),
    ;
    assert(hy * (-1 * c) == -(w * (c * y)) - c * (c * x) + c * (a * z)) by (nonlinear_arith)
        requires
            hy == w * y + (c * x - a * z),
    ;
    assert(hz * (-1 * b) == -(w * (b * z)) - b * (a * y) + b * (b * x)) by (nonlinear_arith)
        requires
            hz == w * z + (a * y - b * x),
    ;
    lemma_distributed(x, unit * unit, -(w * w), -(a * a), -(b * b), -(c * c));
    assert(rest * x == x * rest) by (nonlinear_arith);
    assert(x * (unit * unit) == (unit * unit) * x) by (nonlinear_arith);
    assert(x * -(w * w) == -(w * (w * x))) by (nonlinear_arith);
    assert(x * -(a * a) == -(a * (a * x))) by (nonlinear_arith);
    assert(x * -(b * b) == -(b * (b * x))) by (nonlinear_arith);
    assert(x * -(c * c) == -(c * (c * x))) by (nonlinear_arith);
}

proof fn lemma_distributed(k: int, a: int, b: int, c: int, d: int, e: int)
    ensures
        k * (a + b + c + d + e) == k * a + k * b + k * c + k * d + k * e,
{
    assert(k * (a + b + c + d + e) == k * a + k * b + k * c + k * d + k * e) by (nonlinear_arith);
}

/// The factor of one component in another, up to rounding, and the bound of it.
spec fn factor(m: Binary32, exact: int) -> bool {
    let one = one_unit() as int;
    &&& within(m, 30 * one)
    &&& 16777216 * abs(m.value() * one - exact) <= 101 * (one * one)
}

/// The numbers 1 and 2 in units.
pub proof fn lemma_one()
    ensures
        one().finite(),
        one().value() == one_unit(),
        two().finite(),
        two().value() == 2 * one_unit(),
{
    lemma2_to64();
    assert(pow2(23) == 8388608);
    lemma_magnitude_compose(23, 126, 8388608);
    lemma_pow2_adds(23, 126);
    assert(126 * 8388608 + 8388608 == ONE_BITS as int);
    lemma_two();
    assert(two() == number_two());
}

/// Twice a sum or a difference of products of bounded numbers.
proof fn lemma_doubled(a: Binary32, b: Binary32, c: Binary32, d: Binary32)
    requires
        within(a, 2 * one_unit() as int),
        within(b, 2 * one_unit() as int),
        within(c, 2 * one_unit() as int),
        within(d, 2 * one_unit() as int),
    ensures
        ({
            let one = one_unit() as int;
            let s = Quaternion::plus_entry(a, b, c, d);
            let t = Quaternion::minus_entry(a, b, c, d);
            let ab = a.value() * b.value();
            let cd = c.value() * d.value();
            &&& within(s, 28 * one)
            &&& within(t, 28 * one)
            &&& 16777216 * abs(s.value() * one - 2 * (ab + cd)) <= 70 * (one * one)
            &&& 16777216 * abs(t.value() * one - 2 * (ab - cd)) <= 70 * (one * one)
        }),
{
    let one = one_unit() as int;
    lemma_sizes();
    lemma_one();
    let ab = a.value() * b.value();
    let cd = c.value() * d.value();
    assert((2 * one) * (2 * one) == (4 * one) * one) by (nonlinear_arith);
    lemma_minor(a, b, c, d, 2 * one, 2 * one, 4 * one);
    let s = a.product(b).sum(c.product(d));
    let t = a.product(b).difference(c.product(d));
    assert((2 * one) * (13 * one) == (26 * one) * one) by (nonlinear_arith);
    lemma_product_of(two(), s, 2 * one, 13 * one, 26 * one);
    lemma_product_of(two(), t, 2 * one, 13 * one, 26 * one);
    lemma_doubled_error(s.value(), two().product(s).value(), ab + cd, one);
    lemma_doubled_error(t.value(), two().product(t).value(), ab - cd, one);
}

proof fn lemma_doubled_error(s: int, m: int, exact: int, one: int)
    requires
        one > 1000000000,
        16 * abs(m) <= 17 * (26 * one) + 16,
        16777216 * abs(m * one - (2 * one) * s) <= (abs(m) + 8388608) * one,
        16777216 * abs(s * one - exact) <= (5 * (4 * one) + 67108864) * one,
    ensures
        16777216 * abs(m * one - 2 * exact) <= 70 * (one * one),
{
    assert((2 * one) * s == 2 * (s * one)) by (nonlinear_arith);
    let k = abs(m);
    assert((k + 8388608) * one + 2 * ((5 * (4 * one) + 67108864) * one) <= 70 * (one * one))
        by (nonlinear_arith)
        requires
            16 * k <= 17 * (26 * one) + 16,
            one > 1000000000,
    ;
}

/// The entry on the diagonal.
proof fn lemma_diagonal(a: Binary32, b: Binary32)
    requires
        within(a, 2 * one_unit() as int),
        within(b, 2 * one_unit() as int),
    ensures
        factor(
            Quaternion::diagonal(a, b),
            one_unit() * one_unit() - 2 * (a.value() * a.value() + b.value() * b.value()),
        ),
{
    let unit = one();
    let one = one_unit() as int;
    lemma_sizes();
    lemma_one();
    lemma_doubled(a, a, b, b);
    let t = Quaternion::plus_entry(a, a, b, b);
    let d = unit.difference(t);
    assert(Quaternion::diagonal(a, b) == d);
    lemma_sum_finite(unit, t);
    lemma_difference_error(unit, t);
    let off = one - t.value() - d.value();
    lemma_abs_product(off, one);
    assert(off * one == one * one - t.value() * one - d.value() * one) by (nonlinear_arith)
        requires
            off == one - t.value() - d.value(),
    ;
    let o = abs(off);
    assert(16777216 * o <= 31 * one);
    assert(16777216 * (o * one) <= 31 * (one * one)) by (nonlinear_arith)
        requires
            16777216 * o <= 31 * one,
            one > 0,
    ;
}

/// A row of factors times a vector, where the factors are known up to rounding.
proof fn lemma_row(
    r: int,
    m: Exact3,
    f: Exact3,
    v: Exact3,
    one: int,
    most: int,
)
    requires
        one > 0,
        most >= 0,
        abs(v.x) <= most,
        abs(v.y) <= most,
        abs(v.z) <= most,
        16777216 * abs(m.x * one - f.x) <= 101 * (one * one),
        16777216 * abs(m.y * one - f.y) <= 101 * (one * one),
        16777216 * abs(m.z * one - f.z) <= 101 * (one * one),
        16777216 * abs(r * one - m.dot(v)) <= (9 * (30 * most) + 134217728) * one,
    ensures
        16384 * abs(r * (one * one) - f.dot(v)) <= (most + 131072) * (one * one),
{
    let square = one * one;
    let first = r * one - m.dot(v);
    lemma_abs_product(first, one);
    let e = abs(first);
    assert(16777216 * (e * one) <= 270 * (most * square) + 134217728 * square)
        by (nonlinear_arith)
        requires
            16777216 * e <= (9 * (30 * most) + 134217728) * one,
            one > 0,
            square == one * one,
    ;
    lemma_factor_error(m.x, f.x, v.x, one, most);
    lemma_factor_error(m.y, f.y, v.y, one, most);
    lemma_factor_error(m.z, f.z, v.z, one, most);
    lemma_distributed(one, r * one, -(m.x * v.x), -(m.y * v.y), -(m.z * v.z), 0);
    assert(first * one == one * first) by (nonlinear_arith);
    assert(one * (r * one) == r * (one * one)) by (nonlinear_arith);
    assert(one * -(m.x * v.x) == -((m.x * one) * v.x)) by (nonlinear_arith);
    assert(one * -(m.y * v.y) == -((m.y * one) * v.y)) by (nonlinear_arith);
    assert(one * -(m.z * v.z) == -((m.z * one) * v.z)) by (nonlinear_arith);
    assert(one * 0 == 0);
    assert((most + 131072) * square == most * square + 131072 * square) by (nonlinear_arith);
    assert(most * square >= 0) by (nonlinear_arith)
        requires
            most >= 0,
            square == one * one,
    ;
}

proof fn lemma_factor_error(m: int, f: int, v: int, one: int, most: int)
    requires
        one > 0,
        abs(v) <= most,
        16777216 * abs(m * one - f) <= 101 * (one * one),
    ensures
        16777216 * abs((m * one) * v - f * v) <= 101 * (most * (one * one)),
{
    let d = m * one - f;
    let square = one * one;
    let da = abs(d);
    let va = abs(v);
    assert(d * v == (m * one) * v - f * v) by (nonlinear_arith)
        requires
            d == m * one - f,
    ;
    assert(abs(d * v) == da * va) by (nonlinear_arith)
        requires
            da == if d < 0 { -d } else { d },
            va == if v < 0 { -v } else { v },
            abs(d * v) == if d * v < 0 { -(d * v) } else { d * v },
    ;
    assert(16777216 * (da * va) <= (101 * square) * va) by (nonlinear_arith)
        requires
            16777216 * da <= 101 * square,
            va >= 0,
    ;
    assert((101 * square) * va <= 101 * (most * square)) by (nonlinear_arith)
        requires
            0 <= va <= most,
            square >= 0,
    ;
}

/// A component of a turned vector as the sum of the components of the vector.
proof fn lemma_turned(unit: int, w: int, a: int, b: int, c: int, x: int, y: int, z: int)
    ensures
        (unit * unit) * x + (2 * w) * (b * z - c * y) + 2 * (b * (a * y - b * x) - c * (c * x - a
            * z)) == (unit * unit - 2 * (b * b + c * c)) * x + (2 * (a * b - w * c)) * y + (2 * (a
            * c + w * b)) * z,
{
    assert((2 * w) * (b * z - c * y) == 2 * (w * (b * z)) - 2 * (w * (c * y))) by (nonlinear_arith);
    assert(b * (a * y - b * x) == b * (a * y) - b * (b * x)) by (nonlinear_arith);
    assert(c * (c * x - a * z) == c * (c * x) - c * (a * z)) by (nonlinear_arith);
    assert((unit * unit - 2 * (b * b + c * c)) * x == (unit * unit) * x - 2 * (b * (b * x)) - 2 * (c
        * (c * x))) by (nonlinear_arith);
    assert((2 * (a * b - w * c)) * y == 2 * (b * (a * y)) - 2 * (w * (c * y))) by (nonlinear_arith);
    assert((2 * (a * c + w * b)) * z == 2 * (c * (a * z)) + 2 * (w * (b * z))) by (nonlinear_arith);
}

/// Rotating a vector gives the vector turned by the quaternion, up to rounding: a quaternion
/// with parts of at most 2 and a vector of at most `most` give each component within
/// `most / 2^14`, and a few units, of the exact one.
pub proof fn law_rotation_turns(q: Quaternion, v: Vector3, most: int)
    requires
        quaternion_within(q, 2 * one_unit() as int),
        vector_within(v, most),
        0 <= most <= 0x1_0000_0000 * one_unit(),
    ensures
        ({
            let one = one_unit() as int;
            let r = q.matrix().image(v);
            let t = turned(one, q.w.value(), imaginary(q), exact(v));
            let error = (most + 131072) * (one * one);
            &&& r.x.finite() && r.y.finite() && r.z.finite()
            &&& 16384 * abs(r.x.value() * (one * one) - t.x) <= error
            &&& 16384 * abs(r.y.value() * (one * one) - t.y) <= error
            &&& 16384 * abs(r.z.value() * (one * one) - t.z) <= error
        }),
{
    let one = one_unit() as int;
    let m = q.matrix();
    let (w, x, y, z) = (q.w.value(), q.x.value(), q.y.value(), q.z.value());
    let e = exact(v);
    lemma_sizes();
    lemma_diagonal(q.y, q.z);
    lemma_diagonal(q.x, q.z);
    lemma_diagonal(q.x, q.y);
    lemma_doubled(q.x, q.y, q.w, q.z);
    lemma_doubled(q.x, q.z, q.w, q.y);
    lemma_doubled(q.y, q.z, q.w, q.x);
    assert(m.at(0, 0) == Quaternion::diagonal(q.y, q.z));
    assert(m.at(0, 1) == Quaternion::minus_entry(q.x, q.y, q.w, q.z));
    assert(m.at(0, 2) == Quaternion::plus_entry(q.x, q.z, q.w, q.y));
    assert(m.at(1, 0) == Quaternion::plus_entry(q.x, q.y, q.w, q.z));
    assert(m.at(1, 1) == Quaternion::diagonal(q.x, q.z));
    assert(m.at(1, 2) == Quaternion::minus_entry(q.y, q.z, q.w, q.x));
    assert(m.at(2, 0) == Quaternion::minus_entry(q.x, q.z, q.w, q.y));
    assert(m.at(2, 1) == Quaternion::plus_entry(q.y, q.z, q.w, q.x));
    assert(m.at(2, 2) == Quaternion::diagonal(q.x, q.y));
    assert(matrix_within(m, 30 * one));
    assert((30 * one) * most == (30 * most) * one) by (nonlinear_arith);
    law_image_is_near(m, v, 30 * one, most, 30 * most);
    let r = m.image(v);
    let f = Exact3 {
        x: one * one - 2 * (y * y + z * z),
        y: 2 * (x * y - w * z),
        z: 2 * (x * z + w * y),
    };
    lemma_row(r.x.value(), row(m, 0), f, e, one, most);
    lemma_turned(one, w, x, y, z, e.x, e.y, e.z);
    let g = Exact3 {
        x: 2 * (x * y + w * z),
        y: one * one - 2 * (x * x + z * z),
        z: 2 * (y * z - w * x),
    };
    lemma_row(r.y.value(), row(m, 1), g, e, one, most);
    lemma_turned(one, w, y, z, x, e.y, e.z, e.x);
    let h = Exact3 {
        x: 2 * (x * z - w * y),
        y: 2 * (y * z + w * x),
        z: one * one - 2 * (x * x + y * y),
    };
    lemma_row(r.z.value(), row(m, 2), h, e, one, most);
    lemma_turned(one, w, z, x, y, e.z, e.x, e.y);
    assert(x * y == y * x) by (nonlinear_arith);
    assert(x * z == z * x) by (nonlinear_arith);
    assert(y * z == z * y) by (nonlinear_arith);
}

/// The vectors of length 1 along the axes.
pub open spec fn axis(k: int) -> Vector3 {
    let o = number_zero();
    if k == 0 {
        Vector3 { x: one(), y: o, z: o }
    } else if k == 1 {
        Vector3 { x: o, y: one(), z: o }
    } else {
        Vector3 { x: o, y: o, z: one() }
    }
}

/// One of three numbers is picked by a 1 among zeros.
proof fn lemma_pick(a: Binary32, b: Binary32, c: Binary32)
    requires
        a.finite(),
        b.finite(),
        c.finite(),
    ensures
        combined(a, one(), b, number_zero(), c, number_zero()).same_number(a),
        combined(a, number_zero(), b, one(), c, number_zero()).same_number(b),
        combined(a, number_zero(), b, number_zero(), c, one()).same_number(c),
{
    let o = number_zero();
    law_product_one(a);
    law_product_one(b);
    law_product_one(c);
    law_product_commutes(a, one());
    law_product_commutes(b, one());
    law_product_commutes(c, one());
    law_product_zero(a);
    law_product_zero(b);
    law_product_zero(c);
    law_product_commutes(a, o);
    law_product_commutes(b, o);
    law_product_commutes(c, o);
    let (x, y, z) = (a.product(o), b.product(o), c.product(o));
    law_sum_with_zero(a, y);
    law_sum_with_zero(a.sum(y), z);
    law_sum_commutes(x, b);
    law_sum_with_zero(b, x);
    law_sum_with_zero(b.sum(x), z);
    law_sum_with_zero(x, y);
    law_sum_commutes(x.sum(y), c);
    law_sum_with_zero(c, x.sum(y));
}

/// A matrix takes each axis to its column.
pub proof fn law_axes_go_to_columns(m: Matrix3, k: int)
    requires
        0 <= k < 3,
        forall|i: int, j: int| 0 <= i < 3 && 0 <= j < 3 ==> (#[trigger] m.at(i, j)).finite(),
    ensures
        m.image(axis(k)).same_numbers(Vector3 { x: m.at(0, k), y: m.at(1, k), z: m.at(2, k) }),
{
    lemma_pick(m.at(0, 0), m.at(0, 1), m.at(0, 2));
    lemma_pick(m.at(1, 0), m.at(1, 1), m.at(1, 2));
    lemma_pick(m.at(2, 0), m.at(2, 1), m.at(2, 2));
}

/// A rotation around an axis keeps the axis, and turns the next axis towards the one after it,
/// in the order x, y, z, x: by the angle with cosine `c` and sine `s`.
pub proof fn law_rotations_turn_the_axes(c: Binary32, s: Binary32)
    requires
        c.finite(),
        s.finite(),
    ensures
        ({
            let o = number_zero();
            let n = s.opposite();
            let m = Matrix3::turn_x(c, s);
            &&& m.image(axis(0)).same_numbers(axis(0))
            &&& m.image(axis(1)).same_numbers(Vector3 { x: o, y: c, z: s })
            &&& m.image(axis(2)).same_numbers(Vector3 { x: o, y: n, z: c })
        }),
        ({
            let o = number_zero();
            let n = s.opposite();
            let m = Matrix3::turn_y(c, s);
            &&& m.image(axis(1)).same_numbers(axis(1))
            &&& m.image(axis(2)).same_numbers(Vector3 { x: s, y: o, z: c })
            &&& m.image(axis(0)).same_numbers(Vector3 { x: c, y: o, z: n })
        }),
        ({
            let o = number_zero();
            let n = s.opposite();
            let m = Matrix3::turn_z(c, s);
            &&& m.image(axis(2)).same_numbers(axis(2))
            &&& m.image(axis(0)).same_numbers(Vector3 { x: c, y: s, z: o })
            &&& m.image(axis(1)).same_numbers(Vector3 { x: n, y: c, z: o })
        }),
{
    let o = number_zero();
    let n = s.opposite();
    lemma_one();
    lemma_pick(one(), o, o);
    lemma_pick(o, one(), o);
    lemma_pick(o, o, one());
    lemma_pick(o, c, n);
    lemma_pick(o, s, c);
    lemma_pick(c, o, s);
    lemma_pick(n, o, c);
    lemma_pick(c, n, o);
    lemma_pick(s, c, o);
    let x = Matrix3::turn_x(c, s);
    assert(x.at(0, 0) == one() && x.at(0, 1) == o && x.at(0, 2) == o);
    assert(x.at(1, 0) == o && x.at(1, 1) == c && x.at(1, 2) == n);
    assert(x.at(2, 0) == o && x.at(2, 1) == s && x.at(2, 2) == c);
    let y = Matrix3::turn_y(c, s);
    assert(y.at(0, 0) == c && y.at(0, 1) == o && y.at(0, 2) == s);
    assert(y.at(1, 0) == o && y.at(1, 1) == one() && y.at(1, 2) == o);
    assert(y.at(2, 0) == n && y.at(2, 1) == o && y.at(2, 2) == c);
    let z = Matrix3::turn_z(c, s);
    assert(z.at(0, 0) == c && z.at(0, 1) == n && z.at(0, 2) == o);
    assert(z.at(1, 0) == s && z.at(1, 1) == c && z.at(1, 2) == o);
    assert(z.at(2, 0) == o && z.at(2, 1) == o && z.at(2, 2) == one());
}

} // verus!
