//! Vectors, rotation matrices and quaternions.
//!
//! Sine and cosine come from the caller: the rotations take the values of both.

use crate::numeric::binary32::{
    law_difference_is_opposite, law_product_commutes, law_product_one, law_product_zero,
    law_sum_commutes, law_sum_with_zero, number_zero, signed, Binary32,
};
use crate::numeric::whole::HALF_BITS;
use std::ops::{Add, Mul, Sub};
use vstd::prelude::*;
use vstd::std_specs::cmp::PartialEqSpecImpl;
use vstd::std_specs::ops::{AddSpecImpl, MulSpecImpl, SubSpecImpl};

verus! {

/// Encoding of the tolerance 0.000001.
pub const EPSILON: u32 = 0x3586_37bd;

/// The number 1.
pub const ONE_BITS: u32 = 0x3f80_0000;

/// The number 2.
pub const TWO_BITS: u32 = 0x4000_0000;

pub open spec fn epsilon() -> Binary32 {
    Binary32 { bits: EPSILON }
}

pub open spec fn one() -> Binary32 {
    Binary32 { bits: ONE_BITS }
}

pub open spec fn two() -> Binary32 {
    Binary32 { bits: TWO_BITS }
}

/// Two numbers differ by less than the tolerance.
pub open spec fn close(a: Binary32, b: Binary32) -> bool {
    signed(false, a.difference(b).absolute()).below(epsilon())
}

/// Whether two numbers differ by less than the tolerance.
pub fn approx_eq(a: Binary32, b: Binary32) -> (r: bool)
    ensures
        r == close(a, b),
{
    a.minus(b).absolute_value().less_than(Binary32 { bits: EPSILON })
}

/// `a * x + b * y + c * z`, from left to right.
pub open spec fn combined(
    a: Binary32,
    x: Binary32,
    b: Binary32,
    y: Binary32,
    c: Binary32,
    z: Binary32,
) -> Binary32 {
    a.product(x).sum(b.product(y)).sum(c.product(z))
}

fn combine(a: Binary32, x: Binary32, b: Binary32, y: Binary32, c: Binary32, z: Binary32) -> (r:
    Binary32)
    ensures
        r == combined(a, x, b, y, c, z),
{
    a.times(x).plus(b.times(y)).plus(c.times(z))
}

#[derive(Debug, Clone, Copy)]
pub struct Vector3 {
    pub x: Binary32,
    pub y: Binary32,
    pub z: Binary32,
}

impl Vector3 {
    pub fn new(x: Binary32, y: Binary32, z: Binary32) -> (v: Vector3)
        ensures
            v == (Vector3 { x, y, z }),
    {
        Vector3 { x, y, z }
    }

    pub open spec fn same_numbers(self, other: Vector3) -> bool {
        self.x.same_number(other.x) && self.y.same_number(other.y) && self.z.same_number(other.z)
    }

    pub open spec fn origin() -> Vector3 {
        Vector3 { x: number_zero(), y: number_zero(), z: number_zero() }
    }

    pub fn zero() -> (v: Vector3)
        ensures
            v == Vector3::origin(),
    {
        Vector3 { x: Binary32::zero(), y: Binary32::zero(), z: Binary32::zero() }
    }

    pub open spec fn inner(self, other: Vector3) -> Binary32 {
        combined(self.x, other.x, self.y, other.y, self.z, other.z)
    }

    pub fn dot(&self, other: &Vector3) -> (r: Binary32)
        ensures
            r == self.inner(*other),
    {
        combine(self.x, other.x, self.y, other.y, self.z, other.z)
    }

    pub open spec fn outer(self, other: Vector3) -> Vector3 {
        Vector3 {
            x: self.y.product(other.z).difference(self.z.product(other.y)),
            y: self.z.product(other.x).difference(self.x.product(other.z)),
            z: self.x.product(other.y).difference(self.y.product(other.x)),
        }
    }

    pub fn cross(&self, other: &Vector3) -> (v: Vector3)
        ensures
            v == self.outer(*other),
    {
        Vector3 {
            x: self.y.times(other.z).minus(self.z.times(other.y)),
            y: self.z.times(other.x).minus(self.x.times(other.z)),
            z: self.x.times(other.y).minus(self.y.times(other.x)),
        }
    }

    pub open spec fn length(self) -> Binary32 {
        self.inner(self).root()
    }

    pub fn norm(&self) -> (r: Binary32)
        ensures
            r == self.length(),
    {
        self.dot(self).square_root()
    }

    pub open spec fn scaled(self, k: Binary32) -> Vector3 {
        Vector3 { x: self.x.product(k), y: self.y.product(k), z: self.z.product(k) }
    }

    /// The vector of length 1 in the same direction; zero for a vector shorter than the
    /// tolerance.
    pub open spec fn direction(self) -> Vector3 {
        if self.length().below(epsilon()) {
            Vector3::origin()
        } else {
            self.scaled(one().quotient(self.length()))
        }
    }

    pub fn normalized(&self) -> (v: Vector3)
        ensures
            v == self.direction(),
    {
        let n: Binary32 = self.norm();
        if n.less_than(Binary32 { bits: EPSILON }) {
            return Vector3::zero();
        }
        *self * (Binary32 { bits: ONE_BITS }).divided_by(n)
    }

    pub fn to_array(&self) -> (a: [Binary32; 3])
        ensures
            a@ == seq![self.x, self.y, self.z],
    {
        let a: [Binary32; 3] = [self.x, self.y, self.z];
        assert(a@ =~= seq![self.x, self.y, self.z]);
        a
    }
}

impl Add for Vector3 {
    type Output = Vector3;

    fn add(self, other: Vector3) -> (v: Vector3) {
        Vector3 { x: self.x.plus(other.x), y: self.y.plus(other.y), z: self.z.plus(other.z) }
    }
}

impl AddSpecImpl for Vector3 {
    open spec fn obeys_add_spec() -> bool {
        true
    }

    open spec fn add_req(self, other: Vector3) -> bool {
        true
    }

    open spec fn add_spec(self, other: Vector3) -> Vector3 {
        Vector3 { x: self.x.sum(other.x), y: self.y.sum(other.y), z: self.z.sum(other.z) }
    }
}

impl Sub for Vector3 {
    type Output = Vector3;

    fn sub(self, other: Vector3) -> (v: Vector3) {
        Vector3 { x: self.x.minus(other.x), y: self.y.minus(other.y), z: self.z.minus(other.z) }
    }
}

impl SubSpecImpl for Vector3 {
    open spec fn obeys_sub_spec() -> bool {
        true
    }

    open spec fn sub_req(self, other: Vector3) -> bool {
        true
    }

    open spec fn sub_spec(self, other: Vector3) -> Vector3 {
        Vector3 {
            x: self.x.difference(other.x),
            y: self.y.difference(other.y),
            z: self.z.difference(other.z),
        }
    }
}

impl Mul<Binary32> for Vector3 {
    type Output = Vector3;

    fn mul(self, scalar: Binary32) -> (v: Vector3) {
        Vector3 { x: self.x.times(scalar), y: self.y.times(scalar), z: self.z.times(scalar) }
    }
}

impl MulSpecImpl<Binary32> for Vector3 {
    open spec fn obeys_mul_spec() -> bool {
        true
    }

    open spec fn mul_req(self, scalar: Binary32) -> bool {
        true
    }

    open spec fn mul_spec(self, scalar: Binary32) -> Vector3 {
        self.scaled(scalar)
    }
}

impl PartialEq for Vector3 {
    fn eq(&self, other: &Vector3) -> (r: bool) {
        self.x.equals(other.x) && self.y.equals(other.y) && self.z.equals(other.z)
    }
}

impl PartialEqSpecImpl for Vector3 {
    open spec fn obeys_eq_spec() -> bool {
        true
    }

    open spec fn eq_spec(&self, other: &Vector3) -> bool {
        self.same_numbers(*other)
    }
}

#[derive(Debug, Clone, Copy)]
pub struct Matrix3 {
    pub data: [[Binary32; 3]; 3],
}

impl Matrix3 {
    /// Entry in row `i` and column `j`.
    pub open spec fn at(self, i: int, j: int) -> Binary32 {
        self.data@[i]@[j]
    }

    pub fn new(data: [[Binary32; 3]; 3]) -> (m: Matrix3)
        ensures
            m.data == data,
    {
        Matrix3 { data }
    }

    pub open spec fn unit() -> Matrix3 {
        let o = number_zero();
        Matrix3 { data: [[one(), o, o], [o, one(), o], [o, o, one()]] }
    }

    pub fn identity() -> (m: Matrix3)
        ensures
            m == Matrix3::unit(),
    {
        let i: Binary32 = Binary32 { bits: ONE_BITS };
        let o: Binary32 = Binary32::zero();
        Matrix3 { data: [[i, o, o], [o, i, o], [o, o, i]] }
    }

    /// The matrix of a rotation around the x axis.
    pub open spec fn turn_x(c: Binary32, s: Binary32) -> Matrix3 {
        Matrix3 {
            data: [
                [one(), number_zero(), number_zero()],
                [number_zero(), c, s.opposite()],
                [number_zero(), s, c],
            ],
        }
    }

    /// Rotation around the x axis by the angle with cosine `c` and sine `s`.
    pub fn rotation_x(c: Binary32, s: Binary32) -> (m: Matrix3)
        ensures
            m == Matrix3::turn_x(c, s),
    {
        let i: Binary32 = Binary32 { bits: ONE_BITS };
        let o: Binary32 = Binary32::zero();
        Matrix3 { data: [[i, o, o], [o, c, s.negated()], [o, s, c]] }
    }

    /// The matrix of a rotation around the y axis.
    pub open spec fn turn_y(c: Binary32, s: Binary32) -> Matrix3 {
        Matrix3 {
            data: [
                [c, number_zero(), s],
                [number_zero(), one(), number_zero()],
                [s.opposite(), number_zero(), c],
            ],
        }
    }

    /// Rotation around the y axis by the angle with cosine `c` and sine `s`.
    pub fn rotation_y(c: Binary32, s: Binary32) -> (m: Matrix3)
        ensures
            m == Matrix3::turn_y(c, s),
    {
        let i: Binary32 = Binary32 { bits: ONE_BITS };
        let o: Binary32 = Binary32::zero();
        Matrix3 { data: [[c, o, s], [o, i, o], [s.negated(), o, c]] }
    }

    /// The matrix of a rotation around the z axis.
    pub open spec fn turn_z(c: Binary32, s: Binary32) -> Matrix3 {
        Matrix3 {
            data: [
                [c, s.opposite(), number_zero()],
                [s, c, number_zero()],
                [number_zero(), number_zero(), one()],
            ],
        }
    }

    /// Rotation around the z axis by the angle with cosine `c` and sine `s`.
    pub fn rotation_z(c: Binary32, s: Binary32) -> (m: Matrix3)
        ensures
            m == Matrix3::turn_z(c, s),
    {
        let i: Binary32 = Binary32 { bits: ONE_BITS };
        let o: Binary32 = Binary32::zero();
        Matrix3 { data: [[c, s.negated(), o], [s, c, o], [o, o, i]] }
    }

    /// Row `i` times a vector.
    pub open spec fn row_times(self, i: int, v: Vector3) -> Binary32 {
        combined(self.at(i, 0), v.x, self.at(i, 1), v.y, self.at(i, 2), v.z)
    }

    pub open spec fn image(self, v: Vector3) -> Vector3 {
        Vector3 {
            x: self.row_times(0, v),
            y: self.row_times(1, v),
            z: self.row_times(2, v),
        }
    }

    pub fn mul_vector(&self, v: &Vector3) -> (r: Vector3)
        ensures
            r == self.image(*v),
    {
        let d: &[[Binary32; 3]; 3] = &self.data;
        Vector3 {
            x: combine(d[0][0], v.x, d[0][1], v.y, d[0][2], v.z),
            y: combine(d[1][0], v.x, d[1][1], v.y, d[1][2], v.z),
            z: combine(d[2][0], v.x, d[2][1], v.y, d[2][2], v.z),
        }
    }

    /// Row `i` of this matrix times column `j` of another.
    pub open spec fn entry(self, other: Matrix3, i: int, j: int) -> Binary32 {
        combined(
            self.at(i, 0),
            other.at(0, j),
            self.at(i, 1),
            other.at(1, j),
            self.at(i, 2),
            other.at(2, j),
        )
    }

    fn multiply_entry(&self, other: &Matrix3, i: usize, j: usize) -> (r: Binary32)
        requires
            i < 3,
            j < 3,
        ensures
            r == self.entry(*other, i as int, j as int),
    {
        combine(
            self.data[i][0],
            other.data[0][j],
            self.data[i][1],
            other.data[1][j],
            self.data[i][2],
            other.data[2][j],
        )
    }

    pub open spec fn same_numbers(self, other: Matrix3) -> bool {
        forall|i: int, j: int|
            0 <= i < 3 && 0 <= j < 3 ==> (#[trigger] self.at(i, j)).same_number(other.at(i, j))
    }
}

impl Mul for Matrix3 {
    type Output = Matrix3;

    fn mul(self, other: Matrix3) -> (m: Matrix3) {
        Matrix3 {
            data: [
                [
                    self.multiply_entry(&other, 0, 0),
                    self.multiply_entry(&other, 0, 1),
                    self.multiply_entry(&other, 0, 2),
                ],
                [
                    self.multiply_entry(&other, 1, 0),
                    self.multiply_entry(&other, 1, 1),
                    self.multiply_entry(&other, 1, 2),
                ],
                [
                    self.multiply_entry(&other, 2, 0),
                    self.multiply_entry(&other, 2, 1),
                    self.multiply_entry(&other, 2, 2),
                ],
            ],
        }
    }
}

impl MulSpecImpl for Matrix3 {
    open spec fn obeys_mul_spec() -> bool {
        true
    }

    open spec fn mul_req(self, other: Matrix3) -> bool {
        true
    }

    open spec fn mul_spec(self, other: Matrix3) -> Matrix3 {
        Matrix3 {
            data: [
                [self.entry(other, 0, 0), self.entry(other, 0, 1), self.entry(other, 0, 2)],
                [self.entry(other, 1, 0), self.entry(other, 1, 1), self.entry(other, 1, 2)],
                [self.entry(other, 2, 0), self.entry(other, 2, 1), self.entry(other, 2, 2)],
            ],
        }
    }
}

impl PartialEq for Matrix3 {
    fn eq(&self, other: &Matrix3) -> (r: bool) {
        let mut i: usize = 0;
        while i < 3
            invariant
                i <= 3,
                forall|k: int, l: int|
                    0 <= k < i && 0 <= l < 3 ==> (#[trigger] self.at(k, l)).same_number(
                        other.at(k, l),
                    ),
            decreases 3 - i,
        {
            let mut j: usize = 0;
            while j < 3
                invariant
                    i < 3,
                    j <= 3,
                    forall|k: int, l: int|
                        0 <= k < i && 0 <= l < 3 ==> (#[trigger] self.at(k, l)).same_number(
                            other.at(k, l),
                        ),
                    forall|l: int|
                        0 <= l < j ==> (#[trigger] self.at(i as int, l)).same_number(
                            other.at(i as int, l),
                        ),
                decreases 3 - j,
            {
                if !self.data[i][j].equals(other.data[i][j]) {
                    assert(!self.at(i as int, j as int).same_number(
                        other.at(i as int, j as int),
                    ));
                    return false;
                }
                j = j + 1;
            }
            i = i + 1;
        }
        true
    }
}

impl PartialEqSpecImpl for Matrix3 {
    open spec fn obeys_eq_spec() -> bool {
        true
    }

    open spec fn eq_spec(&self, other: &Matrix3) -> bool {
        self.same_numbers(*other)
    }
}

#[derive(Debug, Clone, Copy)]
pub struct Quaternion {
    pub w: Binary32,
    pub x: Binary32,
    pub y: Binary32,
    pub z: Binary32,
}

impl Quaternion {
    pub fn new(w: Binary32, x: Binary32, y: Binary32, z: Binary32) -> (q: Quaternion)
        ensures
            q == (Quaternion { w, x, y, z }),
    {
        Quaternion { w, x, y, z }
    }

    pub open spec fn unit() -> Quaternion {
        Quaternion { w: one(), x: number_zero(), y: number_zero(), z: number_zero() }
    }

    pub fn identity() -> (q: Quaternion)
        ensures
            q == Quaternion::unit(),
    {
        Quaternion {
            w: Binary32 { bits: ONE_BITS },
            x: Binary32::zero(),
            y: Binary32::zero(),
            z: Binary32::zero(),
        }
    }

    /// Half of an angle.
    pub fn half_angle(angle: Binary32) -> (h: Binary32)
        ensures
            h == angle.product(Binary32 { bits: HALF_BITS }),
    {
        angle.times(Binary32 { bits: HALF_BITS })
    }

    /// The quaternion of a rotation around `axis`.
    pub open spec fn around(axis: Vector3, c: Binary32, s: Binary32) -> Quaternion {
        Quaternion {
            w: c,
            x: axis.direction().x.product(s),
            y: axis.direction().y.product(s),
            z: axis.direction().z.product(s),
        }
    }

    /// Rotation around `axis` by the angle whose half has cosine `c` and sine `s`.
    pub fn from_axis_angle(axis: &Vector3, c: Binary32, s: Binary32) -> (q: Quaternion)
        ensures
            q == Quaternion::around(*axis, c, s),
    {
        let a: Vector3 = axis.normalized();
        Quaternion { w: c, x: a.x.times(s), y: a.y.times(s), z: a.z.times(s) }
    }

    /// `1 - 2 (a² + b²)`.
    pub open spec fn diagonal(a: Binary32, b: Binary32) -> Binary32 {
        one().difference(two().product(a.product(a).sum(b.product(b))))
    }

    /// `2 (a b + c d)`.
    pub open spec fn plus_entry(a: Binary32, b: Binary32, c: Binary32, d: Binary32) -> Binary32 {
        two().product(a.product(b).sum(c.product(d)))
    }

    /// `2 (a b - c d)`.
    pub open spec fn minus_entry(a: Binary32, b: Binary32, c: Binary32, d: Binary32) -> Binary32 {
        two().product(a.product(b).difference(c.product(d)))
    }

    pub open spec fn matrix(self) -> Matrix3 {
        let w = self.w;
        let x = self.x;
        let y = self.y;
        let z = self.z;
        Matrix3 {
            data: [
                [
                    Self::diagonal(y, z),
                    Self::minus_entry(x, y, w, z),
                    Self::plus_entry(x, z, w, y),
                ],
                [
                    Self::plus_entry(x, y, w, z),
                    Self::diagonal(x, z),
                    Self::minus_entry(y, z, w, x),
                ],
                [
                    Self::minus_entry(x, z, w, y),
                    Self::plus_entry(y, z, w, x),
                    Self::diagonal(x, y),
                ],
            ],
        }
    }

    pub fn to_matrix(&self) -> (m: Matrix3)
        ensures
            m == self.matrix(),
    {
        let i: Binary32 = Binary32 { bits: ONE_BITS };
        let t: Binary32 = Binary32 { bits: TWO_BITS };
        let w: Binary32 = self.w;
        let x: Binary32 = self.x;
        let y: Binary32 = self.y;
        let z: Binary32 = self.z;
        let xx: Binary32 = x.times(x);
        let yy: Binary32 = y.times(y);
        let zz: Binary32 = z.times(z);
        let xy: Binary32 = x.times(y);
        let xz: Binary32 = x.times(z);
        let yz: Binary32 = y.times(z);
        let wx: Binary32 = w.times(x);
        let wy: Binary32 = w.times(y);
        let wz: Binary32 = w.times(z);
        Matrix3 {
            data: [
                [i.minus(t.times(yy.plus(zz))), t.times(xy.minus(wz)), t.times(xz.plus(wy))],
                [t.times(xy.plus(wz)), i.minus(t.times(xx.plus(zz))), t.times(yz.minus(wx))],
                [t.times(xz.minus(wy)), t.times(yz.plus(wx)), i.minus(t.times(xx.plus(yy)))],
            ],
        }
    }

    pub fn rotate_vector(&self, v: &Vector3) -> (r: Vector3)
        ensures
            r == self.matrix().image(*v),
    {
        self.to_matrix().mul_vector(v)
    }

    pub open spec fn length(self) -> Binary32 {
        self.w.product(self.w).sum(self.x.product(self.x)).sum(self.y.product(self.y)).sum(
            self.z.product(self.z),
        ).root()
    }

    pub fn norm(&self) -> (r: Binary32)
        ensures
            r == self.length(),
    {
        self.w.times(self.w).plus(self.x.times(self.x)).plus(self.y.times(self.y)).plus(
            self.z.times(self.z),
        ).square_root()
    }

    pub open spec fn over(self, n: Binary32) -> Quaternion {
        Quaternion {
            w: self.w.quotient(n),
            x: self.x.quotient(n),
            y: self.y.quotient(n),
            z: self.z.quotient(n),
        }
    }

    fn divided_by(&self, n: Binary32) -> (q: Quaternion)
        ensures
            q == self.over(n),
    {
        Quaternion {
            w: self.w.divided_by(n),
            x: self.x.divided_by(n),
            y: self.y.divided_by(n),
            z: self.z.divided_by(n),
        }
    }

    /// The quaternion of length 1; the identity for one shorter than the tolerance.
    pub open spec fn direction(self) -> Quaternion {
        if self.length().below(epsilon()) {
            Quaternion::unit()
        } else {
            self.over(self.length())
        }
    }

    pub fn normalized(&self) -> (q: Quaternion)
        ensures
            q == self.direction(),
    {
        let n: Binary32 = self.norm();
        if n.less_than(Binary32 { bits: EPSILON }) {
            return Quaternion::identity();
        }
        self.divided_by(n)
    }

    pub open spec fn conjugated(self) -> Quaternion {
        Quaternion {
            w: self.w,
            x: self.x.opposite(),
            y: self.y.opposite(),
            z: self.z.opposite(),
        }
    }

    pub fn conjugate(&self) -> (q: Quaternion)
        ensures
            q == self.conjugated(),
    {
        Quaternion { w: self.w, x: self.x.negated(), y: self.y.negated(), z: self.z.negated() }
    }

    /// The conjugate over the squared length; the identity where that is below the
    /// tolerance.
    pub open spec fn inverted(self) -> Quaternion {
        let n = self.length().product(self.length());
        if n.below(epsilon()) {
            Quaternion::unit()
        } else {
            self.conjugated().over(n)
        }
    }

    pub fn inverse(&self) -> (q: Quaternion)
        ensures
            q == self.inverted(),
    {
        let n: Binary32 = self.norm();
        let n_sq: Binary32 = n.times(n);
        if n_sq.less_than(Binary32 { bits: EPSILON }) {
            return Quaternion::identity();
        }
        self.conjugate().divided_by(n_sq)
    }
}

impl Mul for Quaternion {
    type Output = Quaternion;

    fn mul(self, other: Quaternion) -> (q: Quaternion) {
        let (w, x, y, z) = (self.w, self.x, self.y, self.z);
        let (ow, ox, oy, oz) = (other.w, other.x, other.y, other.z);
        Quaternion {
            w: w.times(ow).minus(x.times(ox)).minus(y.times(oy)).minus(z.times(oz)),
            x: w.times(ox).plus(x.times(ow)).plus(y.times(oz)).minus(z.times(oy)),
            y: w.times(oy).minus(x.times(oz)).plus(y.times(ow)).plus(z.times(ox)),
            z: w.times(oz).plus(x.times(oy)).minus(y.times(ox)).plus(z.times(ow)),
        }
    }
}

impl MulSpecImpl for Quaternion {
    open spec fn obeys_mul_spec() -> bool {
        true
    }

    open spec fn mul_req(self, other: Quaternion) -> bool {
        true
    }

    open spec fn mul_spec(self, other: Quaternion) -> Quaternion {
        let (w, x, y, z) = (self.w, self.x, self.y, self.z);
        let (ow, ox, oy, oz) = (other.w, other.x, other.y, other.z);
        Quaternion {
            w: w.product(ow).difference(x.product(ox)).difference(y.product(oy)).difference(
                z.product(oz),
            ),
            x: w.product(ox).sum(x.product(ow)).sum(y.product(oz)).difference(z.product(oy)),
            y: w.product(oy).difference(x.product(oz)).sum(y.product(ow)).sum(z.product(ox)),
            z: w.product(oz).sum(x.product(oy)).difference(y.product(ox)).sum(z.product(ow)),
        }
    }
}

impl PartialEq for Quaternion {
    fn eq(&self, other: &Quaternion) -> (r: bool) {
        self.w.equals(other.w) && self.x.equals(other.x) && self.y.equals(other.y)
            && self.z.equals(other.z)
    }
}

impl PartialEqSpecImpl for Quaternion {
    open spec fn obeys_eq_spec() -> bool {
        true
    }

    open spec fn eq_spec(&self, other: &Quaternion) -> bool {
        self.w.same_number(other.w) && self.x.same_number(other.x) && self.y.same_number(other.y)
            && self.z.same_number(other.z)
    }
}

/// The inner product does not depend on the order of the vectors.
pub proof fn law_dot_commutes(a: Vector3, b: Vector3)
    ensures
        a.inner(b) == b.inner(a),
{
    law_product_commutes(a.x, b.x);
    law_product_commutes(a.y, b.y);
    law_product_commutes(a.z, b.z);
}

/// Conjugating twice gives the quaternion back.
pub proof fn law_conjugate_twice(q: Quaternion)
    ensures
        q.conjugated().conjugated() == q,
{
}

/// The identity matrix keeps every finite vector.
pub proof fn law_identity_keeps_vector(v: Vector3)
    requires
        v.x.finite(),
        v.y.finite(),
        v.z.finite(),
    ensures
        Matrix3::unit().image(v).same_numbers(v),
{
    law_product_one(v.x);
    law_product_one(v.y);
    law_product_one(v.z);
    law_product_zero(v.x);
    law_product_zero(v.y);
    law_product_zero(v.z);
    let o = number_zero();
    let m = Matrix3::unit();
    assert(m.at(0, 0) == one() && m.at(0, 1) == o && m.at(0, 2) == o);
    assert(m.at(1, 0) == o && m.at(1, 1) == one() && m.at(1, 2) == o);
    assert(m.at(2, 0) == o && m.at(2, 1) == o && m.at(2, 2) == one());
    let x = o.product(v.x);
    let y = o.product(v.y);
    let z = o.product(v.z);
    law_sum_with_zero(v.x, y);
    law_sum_with_zero(v.x.sum(y), z);
    law_sum_commutes(x, v.y);
    law_sum_with_zero(v.y, x);
    law_sum_with_zero(v.y.sum(x), z);
    law_sum_with_zero(x, y);
    law_sum_commutes(x.sum(y), v.z);
    law_sum_with_zero(v.z, x.sum(y));
}

/// Exchanging the vectors of a cross product gives the opposite vector.
pub proof fn law_cross_is_opposite(a: Vector3, b: Vector3)
    requires
        !a.outer(b).x.nan(),
        !a.outer(b).y.nan(),
        !a.outer(b).z.nan(),
    ensures
        a.outer(b).x.same_number(b.outer(a).x.opposite()),
        a.outer(b).y.same_number(b.outer(a).y.opposite()),
        a.outer(b).z.same_number(b.outer(a).z.opposite()),
{
    law_product_commutes(a.y, b.z);
    law_product_commutes(a.z, b.y);
    law_product_commutes(a.z, b.x);
    law_product_commutes(a.x, b.z);
    law_product_commutes(a.x, b.y);
    law_product_commutes(a.y, b.x);
    law_difference_is_opposite(a.y.product(b.z), a.z.product(b.y));
    law_difference_is_opposite(a.z.product(b.x), a.x.product(b.z));
    law_difference_is_opposite(a.x.product(b.y), a.y.product(b.x));
}

} // verus!
