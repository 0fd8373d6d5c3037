//! What vectors, matrices and quaternions compute, held against exact arithmetic.
//!
//! Numbers are counted in units of the smallest positive number, and products of two numbers
//! in squares of units. A bound `size` of such products is given in units: the products are
//! at most `size` times the number 1.

use crate::math_utils::kinematics_math::{combined, Matrix3, Quaternion, Vector3};
use crate::numeric::accuracy::{
    abs, huge, lemma_abs_product, lemma_difference_error, lemma_near_bound, lemma_product_error,
    lemma_product_finite, lemma_sizes, lemma_sum_error, lemma_sum_finite, near, one_unit,
};
use crate::numeric::binary32::Binary32;
use vstd::prelude::*;
use vstd::std_specs::ops::{AddSpec, MulSpec, SubSpec};

verus! {

/// A vector in exact arithmetic.
pub struct Exact3 {
    pub x: int,
    pub y: int,
    pub z: int,
}

impl Exact3 {
    pub open spec fn plus(self, other: Exact3) -> Exact3 {
        Exact3 { x: self.x + other.x, y: self.y + other.y, z: self.z + other.z }
    }

    pub open spec fn times(self, k: int) -> Exact3 {
        Exact3 { x: k * self.x, y: k * self.y, z: k * self.z }
    }

    pub open spec fn dot(self, other: Exact3) -> int {
        self.x * other.x + self.y * other.y + self.z * other.z
    }

    pub open spec fn cross(self, other: Exact3) -> Exact3 {
        Exact3 {
            x: self.y * other.z - self.z * other.y,
            y: self.z * other.x - self.x * other.z,
            z: self.x * other.y - self.y * other.x,
        }
    }
}

/// The numbers of a vector.
pub open spec fn exact(v: Vector3) -> Exact3 {
    Exact3 { x: v.x.value(), y: v.y.value(), z: v.z.value() }
}

/// `x` is a number of at most `most`.
pub open spec fn within(x: Binary32, most: int) -> bool {
    x.finite() && abs(x.value()) <= most
}

pub open spec fn vector_within(v: Vector3, most: int) -> bool {
    within(v.x, most) && within(v.y, most) && within(v.z, most)
}

/// A product of two bounded numbers.
pub proof fn lemma_product_of(x: Binary32, y: Binary32, a: int, b: int, size: int)
    requires
        within(x, a),
        within(y, b),
        0 <= size <= 0x1000_0000_0000 * one_unit(),
        a * b <= size * one_unit(),
    ensures
        x.product(y).finite(),
        16 * abs(x.product(y).value()) <= 17 * size + 16,
        16777216 * abs(x.product(y).value() * one_unit() - x.value() * y.value()) <= (abs(
            x.product(y).value(),
        ) + 8388608) * one_unit(),
{
    let one = one_unit() as int;
    lemma_sizes();
    let xs = abs(x.value());
    let ys = abs(y.value());
    assert(x.size() == xs && y.size() == ys);
    assert(xs * ys <= a * b) by (nonlinear_arith)
        requires
            0 <= xs <= a,
            0 <= ys <= b,
    ;
    assert(size * one <= huge() * one) by (nonlinear_arith)
        requires
            size <= huge(),
            one > 0,
    ;
    lemma_product_finite(x, y);
    lemma_product_error(x, y);
    let p = x.product(y).value();
    lemma_near_bound(x.value() * y.value(), p, one);
    assert(abs(x.value() * y.value()) == xs * ys) by (nonlinear_arith)
        requires
            xs == abs(x.value()),
            ys == abs(y.value()),
            abs(x.value()) == if x.value() < 0 { -x.value() } else { x.value() },
            abs(y.value()) == if y.value() < 0 { -y.value() } else { y.value() },
            abs(x.value() * y.value()) == if x.value() * y.value() < 0 {
                -(x.value() * y.value())
            } else {
                x.value() * y.value()
            },
    ;
    let r = abs(p);
    assert(16777215 * (r * one) <= 16777216 * (size * one) + 8388608 * one);
    assert(16777215 * r <= 16777216 * size + 8388608) by (nonlinear_arith)
        requires
            16777215 * (r * one) <= 16777216 * (size * one) + 8388608 * one,
            one > 0,
    ;
}

/// A sum of two bounded numbers.
proof fn lemma_sum_of(x: Binary32, y: Binary32, a: int, b: int)
    requires
        within(x, a),
        within(y, b),
        a + b <= huge(),
    ensures
        x.sum(y).finite(),
        16777215 * abs(x.sum(y).value()) <= 16777216 * (a + b) + 8388608,
        16777216 * abs(x.value() + y.value() - x.sum(y).value()) <= abs(x.sum(y).value())
            + 8388608,
        x.difference(y).finite(),
        16777215 * abs(x.difference(y).value()) <= 16777216 * (a + b) + 8388608,
        16777216 * abs(x.value() - y.value() - x.difference(y).value()) <= abs(
            x.difference(y).value(),
        ) + 8388608,
{
    lemma_sum_finite(x, y);
    lemma_sum_error(x, y);
    lemma_difference_error(x, y);
}

/// `a * x + b * y + c * z` is near to the exact sum of the products.
pub proof fn lemma_combined(
    a: Binary32,
    x: Binary32,
    b: Binary32,
    y: Binary32,
    c: Binary32,
    z: Binary32,
    left: int,
    right: int,
    size: int,
)
    requires
        within(a, left),
        within(b, left),
        within(c, left),
        within(x, right),
        within(y, right),
        within(z, right),
        0 <= size <= 0x1000_0000_0000 * one_unit(),
        left * right <= size * one_unit(),
    ensures
        combined(a, x, b, y, c, z).finite(),
        abs(combined(a, x, b, y, c, z).value()) <= 4 * size + 6,
        16777216 * abs(
            combined(a, x, b, y, c, z).value() * one_unit() - (a.value() * x.value() + b.value()
                * y.value() + c.value() * z.value()),
        ) <= (9 * size + 134217728) * one_unit(),
{
    let one = one_unit() as int;
    lemma_sizes();
    lemma_product_of(a, x, left, right, size);
    lemma_product_of(b, y, left, right, size);
    lemma_product_of(c, z, left, right, size);
    let k = a.product(x);
    let l = b.product(y);
    let m = c.product(z);
    lemma_sum_of(k, l, 2 * size + 1, 2 * size + 1);
    let s = k.sum(l);
    lemma_sum_of(s, m, 3 * size + 4, 2 * size + 1);
    let r = s.sum(m);
    lemma_three_products(
        k.value(),
        l.value(),
        m.value(),
        s.value(),
        r.value(),
        a.value() * x.value(),
        b.value() * y.value(),
        c.value() * z.value(),
        size,
        one,
    );
}

proof fn lemma_three_products(
    k: int,
    l: int,
    m: int,
    s: int,
    r: int,
    ax: int,
    by: int,
    cz: int,
    size: int,
    one: int,
)
    requires
        size >= 0,
        one > 0,
        16 * abs(k) <= 17 * size + 16,
        16 * abs(l) <= 17 * size + 16,
        16 * abs(m) <= 17 * size + 16,
        16777216 * abs(k * one - ax) <= (abs(k) + 8388608) * one,
        16777216 * abs(l * one - by) <= (abs(l) + 8388608) * one,
        16777216 * abs(m * one - cz) <= (abs(m) + 8388608) * one,
        16777216 * abs(k + l - s) <= abs(s) + 8388608,
        16777216 * abs(s + m - r) <= abs(r) + 8388608,
    ensures
        abs(r) <= 4 * size + 6,
        16777216 * abs(r * one - (ax + by + cz)) <= (9 * size + 134217728) * one,
{
    let off = r - (k + l + m);
    let most = 9 * size + 134217728 - (abs(k) + abs(l) + abs(m) + 25165824);
    assert(16777216 * abs(off) <= most);
    lemma_scaled(off, most, one);
    assert(r * one == off * one + k * one + l * one + m * one) by (nonlinear_arith)
        requires
            off == r - (k + l + m),
    ;
    assert((9 * size + 134217728) * one == most * one + (abs(k) + 8388608) * one + (abs(l)
        + 8388608) * one + (abs(m) + 8388608) * one) by (nonlinear_arith)
        requires
            most == 9 * size + 134217728 - (abs(k) + abs(l) + abs(m) + 25165824),
    ;
}

/// A bound of an error, times the number 1.
proof fn lemma_scaled(off: int, most: int, one: int)
    requires
        one > 0,
        16777216 * abs(off) <= most,
    ensures
        16777216 * abs(off * one) <= most * one,
{
    let o = abs(off);
    assert(abs(off * one) == o * one) by {
        lemma_abs_product(off, one);
    }
    assert(16777216 * (o * one) <= most * one) by (nonlinear_arith)
        requires
            16777216 * o <= most,
            one > 0,
    ;
}

/// Adding, subtracting and scaling vectors goes component by component, up to rounding.
pub proof fn law_components(a: Vector3, b: Vector3, k: Binary32)
    ensures
        ({
            let s = a.add_spec(b);
            &&& s.x.finite() ==> near(a.x.value() + b.x.value(), s.x.value(), 1)
            &&& s.y.finite() ==> near(a.y.value() + b.y.value(), s.y.value(), 1)
            &&& s.z.finite() ==> near(a.z.value() + b.z.value(), s.z.value(), 1)
        }),
        ({
            let d = a.sub_spec(b);
            &&& d.x.finite() ==> near(a.x.value() - b.x.value(), d.x.value(), 1)
            &&& d.y.finite() ==> near(a.y.value() - b.y.value(), d.y.value(), 1)
            &&& d.z.finite() ==> near(a.z.value() - b.z.value(), d.z.value(), 1)
        }),
        ({
            let one = one_unit() as int;
            let m = <Vector3 as MulSpec<Binary32>>::mul_spec(a, k);
            &&& m.x.finite() ==> near(a.x.value() * k.value(), m.x.value(), one)
            &&& m.y.finite() ==> near(a.y.value() * k.value(), m.y.value(), one)
            &&& m.z.finite() ==> near(a.z.value() * k.value(), m.z.value(), one)
        }),
{
    if a.x.sum(b.x).finite() {
        lemma_sum_error(a.x, b.x);
    }
    if a.y.sum(b.y).finite() {
        lemma_sum_error(a.y, b.y);
    }
    if a.z.sum(b.z).finite() {
        lemma_sum_error(a.z, b.z);
    }
    if a.x.difference(b.x).finite() {
        lemma_difference_error(a.x, b.x);
    }
    if a.y.difference(b.y).finite() {
        lemma_difference_error(a.y, b.y);
    }
    if a.z.difference(b.z).finite() {
        lemma_difference_error(a.z, b.z);
    }
    if a.x.product(k).finite() {
        lemma_product_error(a.x, k);
    }
    if a.y.product(k).finite() {
        lemma_product_error(a.y, k);
    }
    if a.z.product(k).finite() {
        lemma_product_error(a.z, k);
    }
}

/// The inner product is the exact one, up to rounding.
pub proof fn law_dot_is_near(a: Vector3, b: Vector3, left: int, right: int, size: int)
    requires
        vector_within(a, left),
        vector_within(b, right),
        0 <= size <= 0x1000_0000_0000 * one_unit(),
        left * right <= size * one_unit(),
    ensures
        a.inner(b).finite(),
        16777216 * abs(a.inner(b).value() * one_unit() - exact(a).dot(exact(b))) <= (9 * size
            + 134217728) * one_unit(),
{
    lemma_combined(a.x, b.x, a.y, b.y, a.z, b.z, left, right, size);
}

/// The cross product is the exact one, up to rounding: it turns from the first vector to the
/// second as the axes turn, x to y to z.
pub proof fn law_cross_is_near(a: Vector3, b: Vector3, left: int, right: int, size: int)
    requires
        vector_within(a, left),
        vector_within(b, right),
        0 <= size <= 0x1000_0000_0000 * one_unit(),
        left * right <= size * one_unit(),
    ensures
        ({
            let one = one_unit() as int;
            let c = a.outer(b);
            let e = exact(a).cross(exact(b));
            let most = (5 * size + 67108864) * one;
            &&& vector_within(c, 3 * size + 4)
            &&& 16777216 * abs(c.x.value() * one - e.x) <= most
            &&& 16777216 * abs(c.y.value() * one - e.y) <= most
            &&& 16777216 * abs(c.z.value() * one - e.z) <= most
        }),
{
    lemma_minor(a.y, b.z, a.z, b.y, left, right, size);
    lemma_minor(a.z, b.x, a.x, b.z, left, right, size);
    lemma_minor(a.x, b.y, a.y, b.x, left, right, size);
}

/// `a * x - b * y` is near to the exact difference of the products.
pub proof fn lemma_minor(
    a: Binary32,
    x: Binary32,
    b: Binary32,
    y: Binary32,
    left: int,
    right: int,
    size: int,
)
    requires
        within(a, left),
        within(b, left),
        within(x, right),
        within(y, right),
        0 <= size <= 0x1000_0000_0000 * one_unit(),
        left * right <= size * one_unit(),
    ensures
        ({
            let one = one_unit() as int;
            let d = a.product(x).difference(b.product(y));
            let s = a.product(x).sum(b.product(y));
            let ax = a.value() * x.value();
            let by = b.value() * y.value();
            &&& within(d, 3 * size + 4)
            &&& 16777216 * abs(d.value() * one - (ax - by)) <= (5 * size + 67108864) * one
            &&& within(s, 3 * size + 4)
            &&& 16777216 * abs(s.value() * one - (ax + by)) <= (5 * size + 67108864) * one
        }),
{
    let one = one_unit() as int;
    lemma_sizes();
    lemma_product_of(a, x, left, right, size);
    lemma_product_of(b, y, left, right, size);
    let k = a.product(x);
    let l = b.product(y);
    lemma_sum_of(k, l, 2 * size + 1, 2 * size + 1);
    let ax = a.value() * x.value();
    let by = b.value() * y.value();
    lemma_two_products(k.value(), l.value(), k.sum(l).value(), ax, by, size, one);
    assert((-l.value()) * one == -(l.value() * one)) by (nonlinear_arith);
    lemma_two_products(k.value(), -l.value(), k.difference(l).value(), ax, -by, size, one);
}

proof fn lemma_two_products(k: int, l: int, r: int, ax: int, by: int, size: int, one: int)
    requires
        size >= 0,
        one > 0,
        16 * abs(k) <= 17 * size + 16,
        16 * abs(l) <= 17 * size + 16,
        16777216 * abs(k * one - ax) <= (abs(k) + 8388608) * one,
        16777216 * abs(l * one - by) <= (abs(l) + 8388608) * one,
        16777216 * abs(k + l - r) <= abs(r) + 8388608,
    ensures
        abs(r) <= 3 * size + 4,
        16777216 * abs(r * one - (ax + by)) <= (5 * size + 67108864) * one,
{
    let off = r - (k + l);
    let most = 5 * size + 67108864 - (abs(k) + abs(l) + 16777216);
    assert(16777216 * abs(off) <= most);
    lemma_scaled(off, most, one);
    assert(r * one == off * one + k * one + l * one) by (nonlinear_arith)
        requires
            off == r - (k + l),
    ;
    assert((5 * size + 67108864) * one == most * one + (abs(k) + 8388608) * one + (abs(l)
        + 8388608) * one) by (nonlinear_arith)
        requires
            most == 5 * size + 67108864 - (abs(k) + abs(l) + 16777216),
    ;
}

/// The entries of a matrix are at most `most`.
pub open spec fn matrix_within(m: Matrix3, most: int) -> bool {
    forall|i: int, j: int| 0 <= i < 3 && 0 <= j < 3 ==> within(#[trigger] m.at(i, j), most)
}

/// A row of a matrix.
pub open spec fn row(m: Matrix3, i: int) -> Exact3 {
    Exact3 { x: m.at(i, 0).value(), y: m.at(i, 1).value(), z: m.at(i, 2).value() }
}

/// A column of a matrix.
pub open spec fn column(m: Matrix3, j: int) -> Exact3 {
    Exact3 { x: m.at(0, j).value(), y: m.at(1, j).value(), z: m.at(2, j).value() }
}

/// A matrix times a vector holds the products of its rows with the vector, up to rounding.
pub proof fn law_image_is_near(m: Matrix3, v: Vector3, left: int, right: int, size: int)
    requires
        matrix_within(m, left),
        vector_within(v, right),
        0 <= size <= 0x1000_0000_0000 * one_unit(),
        left * right <= size * one_unit(),
    ensures
        ({
            let one = one_unit() as int;
            let r = m.image(v);
            let most = (9 * size + 134217728) * one;
            &&& vector_within(r, 4 * size + 6)
            &&& 16777216 * abs(r.x.value() * one - row(m, 0).dot(exact(v))) <= most
            &&& 16777216 * abs(r.y.value() * one - row(m, 1).dot(exact(v))) <= most
            &&& 16777216 * abs(r.z.value() * one - row(m, 2).dot(exact(v))) <= most
        }),
{
    lemma_combined(m.at(0, 0), v.x, m.at(0, 1), v.y, m.at(0, 2), v.z, left, right, size);
    lemma_combined(m.at(1, 0), v.x, m.at(1, 1), v.y, m.at(1, 2), v.z, left, right, size);
    lemma_combined(m.at(2, 0), v.x, m.at(2, 1), v.y, m.at(2, 2), v.z, left, right, size);
}

/// A product of matrices holds the products of the rows of the first with the columns of the
/// second, up to rounding.
pub proof fn law_matrix_product_is_near(
    m: Matrix3,
    n: Matrix3,
    i: int,
    j: int,
    left: int,
    right: int,
    size: int,
)
    requires
        0 <= i < 3,
        0 <= j < 3,
        matrix_within(m, left),
        matrix_within(n, right),
        0 <= size <= 0x1000_0000_0000 * one_unit(),
        left * right <= size * one_unit(),
    ensures
        m.mul_spec(n).at(i, j).finite(),
        16777216 * abs(
            m.mul_spec(n).at(i, j).value() * one_unit() - row(m, i).dot(column(n, j)),
        ) <= (9 * size + 134217728) * one_unit(),
{
    assert(m.mul_spec(n).at(i, j) == m.entry(n, i, j));
    lemma_combined(
        m.at(i, 0),
        n.at(0, j),
        m.at(i, 1),
        n.at(1, j),
        m.at(i, 2),
        n.at(2, j),
        left,
        right,
        size,
    );
}

/// The imaginary part of a quaternion.
pub open spec fn imaginary(q: Quaternion) -> Exact3 {
    Exact3 { x: q.x.value(), y: q.y.value(), z: q.z.value() }
}

pub open spec fn quaternion_within(q: Quaternion, most: int) -> bool {
    within(q.w, most) && within(q.x, most) && within(q.y, most) && within(q.z, most)
}

/// The product of quaternions with the real parts `w`, `v` and the imaginary parts `a`, `b`
/// has the real part `w v - a · b` and the imaginary part `w b + v a + a × b`, up to rounding.
pub proof fn law_quaternion_product_is_near(
    p: Quaternion,
    q: Quaternion,
    left: int,
    right: int,
    size: int,
)
    requires
        quaternion_within(p, left),
        quaternion_within(q, right),
        0 <= size <= 0x1000_0000_0000 * one_unit(),
        left * right <= size * one_unit(),
    ensures
        ({
            let one = one_unit() as int;
            let r = p.mul_spec(q);
            let a = imaginary(p);
            let b = imaginary(q);
            let w = p.w.value() * q.w.value() - a.dot(b);
            let u = b.times(p.w.value()).plus(a.times(q.w.value())).plus(a.cross(b));
            let most = (15 * size + 134217728) * one;
            &&& quaternion_within(r, 5 * size + 8)
            &&& 16777216 * abs(r.w.value() * one - w) <= most
            &&& 16777216 * abs(r.x.value() * one - u.x) <= most
            &&& 16777216 * abs(r.y.value() * one - u.y) <= most
            &&& 16777216 * abs(r.z.value() * one - u.z) <= most
        }),
{
    let ww = Factor { a: p.w, b: q.w, up: true };
    let (wx, wy, wz) = (
        Factor { a: p.w, b: q.x, up: true },
        Factor { a: p.w, b: q.y, up: true },
        Factor { a: p.w, b: q.z, up: true },
    );
    lemma_four(
        ww,
        Factor { a: p.x, b: q.x, up: false },
        Factor { a: p.y, b: q.y, up: false },
        Factor { a: p.z, b: q.z, up: false },
        left,
        right,
        size,
    );
    lemma_four(
        wx,
        Factor { a: p.x, b: q.w, up: true },
        Factor { a: p.y, b: q.z, up: true },
        Factor { a: p.z, b: q.y, up: false },
        left,
        right,
        size,
    );
    lemma_four(
        wy,
        Factor { a: p.x, b: q.z, up: false },
        Factor { a: p.y, b: q.w, up: true },
        Factor { a: p.z, b: q.x, up: true },
        left,
        right,
        size,
    );
    lemma_four(
        wz,
        Factor { a: p.x, b: q.y, up: true },
        Factor { a: p.y, b: q.x, up: false },
        Factor { a: p.z, b: q.w, up: true },
        left,
        right,
        size,
    );
    let (w, v) = (p.w.value(), q.w.value());
    assert(v * p.x.value() == p.x.value() * v) by (nonlinear_arith);
    assert(v * p.y.value() == p.y.value() * v) by (nonlinear_arith);
    assert(v * p.z.value() == p.z.value() * v) by (nonlinear_arith);
}

/// A product that is added or subtracted.
struct Factor {
    a: Binary32,
    b: Binary32,
    up: bool,
}

impl Factor {
    spec fn exact(self) -> int {
        if self.up {
            self.a.value() * self.b.value()
        } else {
            -(self.a.value() * self.b.value())
        }
    }

    spec fn fits(self, left: int, right: int) -> bool {
        within(self.a, left) && within(self.b, right)
    }

    spec fn joined(self, sum: Binary32) -> Binary32 {
        if self.up {
            sum.sum(self.a.product(self.b))
        } else {
            sum.difference(self.a.product(self.b))
        }
    }
}

proof fn lemma_joined(f: Factor, sum: Binary32, left: int, right: int, size: int, most: int) -> (p:
    int)
    requires
        f.fits(left, right),
        0 <= size <= 0x1000_0000_0000 * one_unit(),
        left * right <= size * one_unit(),
        within(sum, most),
        most <= 0x10_0000_0000_0000 * one_unit(),
    ensures
        f.joined(sum).finite(),
        16777215 * abs(f.joined(sum).value()) <= 16777216 * (most + 2 * size + 1) + 8388608,
        16 * abs(p) <= 17 * size + 16,
        16777216 * abs(p * one_unit() - f.exact()) <= (abs(p) + 8388608) * one_unit(),
        16777216 * abs(sum.value() + p - f.joined(sum).value()) <= abs(f.joined(sum).value())
            + 8388608,
{
    lemma_sizes();
    lemma_product_of(f.a, f.b, left, right, size);
    let k = f.a.product(f.b);
    lemma_sum_of(sum, k, most, 2 * size + 1);
    assert((-k.value()) * one_unit() == -(k.value() * one_unit())) by (nonlinear_arith);
    if f.up {
        k.value()
    } else {
        -k.value()
    }
}

/// Four products, added or subtracted from left to right.
proof fn lemma_four(
    e: Factor,
    f: Factor,
    g: Factor,
    h: Factor,
    left: int,
    right: int,
    size: int,
)
    requires
        e.up,
        e.fits(left, right),
        f.fits(left, right),
        g.fits(left, right),
        h.fits(left, right),
        0 <= size <= 0x1000_0000_0000 * one_unit(),
        left * right <= size * one_unit(),
    ensures
        ({
            let one = one_unit() as int;
            let r = h.joined(g.joined(f.joined(e.a.product(e.b))));
            &&& within(r, 5 * size + 8)
            &&& 16777216 * abs(
                r.value() * one - (e.exact() + f.exact() + g.exact() + h.exact()),
            ) <= (15 * size + 134217728) * one
        }),
{
    let one = one_unit() as int;
    lemma_sizes();
    lemma_product_of(e.a, e.b, left, right, size);
    let first = e.a.product(e.b);
    let l = lemma_joined(f, first, left, right, size, 2 * size + 1);
    let s = f.joined(first);
    let m = lemma_joined(g, s, left, right, size, 5 * size + 4);
    let t = g.joined(s);
    let n = lemma_joined(h, t, left, right, size, 8 * size + 8);
    let r = h.joined(t);
    lemma_four_products(
        first.value(),
        l,
        m,
        n,
        s.value(),
        t.value(),
        r.value(),
        e.exact(),
        f.exact(),
        g.exact(),
        h.exact(),
        size,
        one,
    );
}

proof fn lemma_four_products(
    k: int,
    l: int,
    m: int,
    n: int,
    s: int,
    t: int,
    r: int,
    ek: int,
    el: int,
    em: int,
    en: int,
    size: int,
    one: int,
)
    requires
        size >= 0,
        one > 0,
        16 * abs(k) <= 17 * size + 16,
        16 * abs(l) <= 17 * size + 16,
        16 * abs(m) <= 17 * size + 16,
        16 * abs(n) <= 17 * size + 16,
        16777216 * abs(k * one - ek) <= (abs(k) + 8388608) * one,
        16777216 * abs(l * one - el) <= (abs(l) + 8388608) * one,
        16777216 * abs(m * one - em) <= (abs(m) + 8388608) * one,
        16777216 * abs(n * one - en) <= (abs(n) + 8388608) * one,
        16777216 * abs(k + l - s) <= abs(s) + 8388608,
        16777216 * abs(s + m - t) <= abs(t) + 8388608,
        16777216 * abs(t + n - r) <= abs(r) + 8388608,
    ensures
        abs(r) <= 5 * size + 8,
        16777216 * abs(r * one - (ek + el + em + en)) <= (15 * size + 134217728) * one,
{
    let off = r - (k + l + m + n);
    let most = 15 * size + 134217728 - (abs(k) + abs(l) + abs(m) + abs(n) + 33554432);
    lemma_three_sums(k, l, m, n, s, t, r, size);
    lemma_scaled(off, most, one);
    assert(r * one == off * one + k * one + l * one + m * one + n * one) by (nonlinear_arith)
        requires
            off == r - (k + l + m + n),
    ;
    assert((15 * size + 134217728) * one == most * one + (abs(k) + 8388608) * one + (abs(l)
        + 8388608) * one + (abs(m) + 8388608) * one + (abs(n) + 8388608) * one)
        by (nonlinear_arith)
        requires
            most == 15 * size + 134217728 - (abs(k) + abs(l) + abs(m) + abs(n) + 33554432),
    ;
}

proof fn lemma_three_sums(k: int, l: int, m: int, n: int, s: int, t: int, r: int, size: int)
    requires
        size >= 0,
        16 * abs(k) <= 17 * size + 16,
        16 * abs(l) <= 17 * size + 16,
        16 * abs(m) <= 17 * size + 16,
        16 * abs(n) <= 17 * size + 16,
        16777216 * abs(k + l - s) <= abs(s) + 8388608,
        16777216 * abs(s + m - t) <= abs(t) + 8388608,
        16777216 * abs(t + n - r) <= abs(r) + 8388608,
    ensures
        abs(r) <= 5 * size + 8,
        16777216 * abs(r - (k + l + m + n)) <= 15 * size + 134217728 - (abs(k) + abs(l) + abs(m)
            + abs(n) + 33554432),
{
    let (ka, la, ma, na) = (abs(k), abs(l), abs(m), abs(n));
    let sa = lemma_sum_bound(k, l, s);
    let ta = lemma_sum_bound(s, m, t);
    let ra = lemma_sum_bound(t, n, r);
    let (e, f, g) = (abs(k + l - s), abs(s + m - t), abs(t + n - r));
    let off = abs(r - (k + l + m + n));
    assert(off <= e + f + g) by {
        assert(abs(r - (k + l + m + n)) <= abs(r - (t + n)) + abs(t + n - (k + l + m + n)));
        assert(abs(t - (k + l + m)) <= abs(t - (s + m)) + abs(s - (k + l)));
    }
    lemma_three_bounds(ka, la, ma, na, sa, ta, ra, e, f, g, off, size);
}

/// How large a rounded sum is.
proof fn lemma_sum_bound(x: int, y: int, r: int) -> (size: int)
    requires
        16777216 * abs(x + y - r) <= abs(r) + 8388608,
    ensures
        size == abs(r),
        16777215 * size <= 16777216 * (abs(x) + abs(y)) + 8388608,
{
    abs(r)
}

proof fn lemma_three_bounds(
    k: int,
    l: int,
    m: int,
    n: int,
    s: int,
    t: int,
    r: int,
    e: int,
    f: int,
    g: int,
    off: int,
    size: int,
)
    requires
        size >= 0,
        16 * k <= 17 * size + 16,
        16 * l <= 17 * size + 16,
        16 * m <= 17 * size + 16,
        16 * n <= 17 * size + 16,
        16777215 * s <= 16777216 * (k + l) + 8388608,
        16777215 * t <= 16777216 * (s + m) + 8388608,
        16777215 * r <= 16777216 * (t + n) + 8388608,
        16777216 * e <= s + 8388608,
        16777216 * f <= t + 8388608,
        16777216 * g <= r + 8388608,
        off <= e + f + g,
    ensures
        r <= 5 * size + 8,
        16777216 * off <= 15 * size + 134217728 - (k + l + m + n + 33554432),
{
    assert(8 * s <= 18 * size + 24);
    assert(8 * t <= 27 * size + 40);
    assert(8 * r <= 36 * size + 56);
}

/// A quaternion times its conjugate is its squared length, and has no imaginary part, up to
/// rounding.
pub proof fn law_product_with_conjugate(q: Quaternion, most: int, size: int)
    requires
        quaternion_within(q, most),
        0 <= size <= 0x1000_0000_0000 * one_unit(),
        most * most <= size * one_unit(),
    ensures
        ({
            let one = one_unit() as int;
            let r = q.mul_spec(q.conjugated());
            let u = imaginary(q);
            let error = (15 * size + 134217728) * one;
            &&& 16777216 * abs(r.w.value() * one - (q.w.value() * q.w.value() + u.dot(u))) <= error
            &&& 16777216 * abs(r.x.value() * one) <= error
            &&& 16777216 * abs(r.y.value() * one) <= error
            &&& 16777216 * abs(r.z.value() * one) <= error
        }),
{
    let c = q.conjugated();
    law_quaternion_product_is_near(q, c, most, most, size);
    let (w, x, y, z) = (q.w.value(), q.x.value(), q.y.value(), q.z.value());
    assert(c.x.value() == -x && c.y.value() == -y && c.z.value() == -z);
    assert(x * (-x) == -(x * x) && y * (-y) == -(y * y) && z * (-z) == -(z * z))
        by (nonlinear_arith);
    assert(w * (-x) == -(w * x) && w * (-y) == -(w * y) && w * (-z) == -(w * z))
        by (nonlinear_arith);
    assert(x * (-y) == y * (-x)) by (nonlinear_arith);
    assert(y * (-z) == z * (-y)) by (nonlinear_arith);
    assert(z * (-x) == x * (-z)) by (nonlinear_arith);
}

/// The sum of the squares of the parts of a quaternion.
pub proof fn lemma_four_squares(q: Quaternion, most: int, size: int)
    requires
        quaternion_within(q, most),
        0 <= size <= 0x1000_0000_0000 * one_unit(),
        most * most <= size * one_unit(),
    ensures
        ({
            let n = q.w.product(q.w).sum(q.x.product(q.x)).sum(q.y.product(q.y)).sum(
                q.z.product(q.z),
            );
            let exact = q.w.value() * q.w.value() + imaginary(q).dot(imaginary(q));
            &&& n.finite()
            &&& 16777216 * abs(n.value() * one_unit() - exact) <= (15 * size + 134217728)
                * one_unit()
        }),
{
    lemma_four(
        Factor { a: q.w, b: q.w, up: true },
        Factor { a: q.x, b: q.x, up: true },
        Factor { a: q.y, b: q.y, up: true },
        Factor { a: q.z, b: q.z, up: true },
        most,
        most,
        size,
    );
}

} // verus!
