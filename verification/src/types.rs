//! Cartesian vectors in two and three dimensions.
//!
//! Components and lengths are fixed-point numbers with 32 fractional bits:
//! a field holds its value times `2^32`, so [`ONE`] stands for 1 and the
//! smallest step is `2^-32`, about `2.3e-10`. The contracts speak of the
//! fields as they are held. Lengths are rounded down to a step, and
//! rescaling rounds each component to the nearest step; both roundings are
//! part of the contracts.

use crate::sqrt::{
    floor_sqrt, is_floor_sqrt, isqrt, lemma_floor_sqrt, lemma_floor_sqrt_is,
    lemma_floor_sqrt_monotonic,
};
use crate::wide::{le_wide, mul_wide, wide};
use vstd::prelude::*;

verus! {

/// A point of the plane, its coordinates counted in steps of `2^-32`: what
/// a [`Vec2D`] stands for.
pub struct Vector2 {
    pub x: int,
    pub y: int,
}

/// A point of space, its coordinates counted in steps of `2^-32`: what a
/// [`Vec3D`] stands for.
pub struct Vector3 {
    pub x: int,
    pub y: int,
    pub z: int,
}

/// The magnitude of one component, `c`, of a vector whose squared norm is
/// `n`, once the vector has been stretched to the norm `new`: the whole
/// number of steps nearest to the exact value `new * |c| / sqrt(n)`, the larger one
/// where two are equally near. Zero where `n` is zero.
///
/// Twice the exact value is rounded down first; half of that, rounded to
/// the nearest, is the result.
pub open spec fn scaled_magnitude(c: int, n: nat, new: nat) -> nat {
    if n == 0 {
        0
    } else {
        (floor_sqrt(((4 * ((new * c) * (new * c))) / (n as int)) as nat) + 1) / 2
    }
}

/// The component `c` of a vector whose squared norm is `n`, once the vector
/// has been stretched to the norm `new`: the whole number nearest to the
/// exact value `new * c / sqrt(n)`. Zero where `n` is zero.
pub open spec fn scaled(c: int, n: nat, new: nat) -> int {
    if c < 0 {
        -(scaled_magnitude(c, n, new) as int)
    } else {
        scaled_magnitude(c, n, new) as int
    }
}

/// Whether `c` is a value of `i64`.
pub open spec fn fits_i64(c: int) -> bool {
    i64::MIN <= c <= i64::MAX
}

/// The number 1 as a component or a length: `2^32` steps.
pub const ONE: i64 = 0x1_0000_0000;

impl Vector2 {
    /// The square of the Euclidean norm.
    pub open spec fn norm_squared(self) -> nat {
        (self.x * self.x + self.y * self.y) as nat
    }

    /// The Euclidean norm, rounded down.
    pub open spec fn norm(self) -> nat {
        floor_sqrt(self.norm_squared())
    }

    /// The vector stretched or shrunk to the norm `new` along its own
    /// direction, each component rounded to the nearest step. The
    /// zero vector, which has no direction, stays where it is.
    pub open spec fn rescaled(self, new: nat) -> Vector2 {
        Vector2 {
            x: scaled(self.x, self.norm_squared(), new),
            y: scaled(self.y, self.norm_squared(), new),
        }
    }

    /// Whether both coordinates are values of `i64`.
    pub open spec fn fits(self) -> bool {
        fits_i64(self.x) && fits_i64(self.y)
    }
}

impl Vector3 {
    /// The square of the Euclidean norm.
    pub open spec fn norm_squared(self) -> nat {
        (self.x * self.x + self.y * self.y + self.z * self.z) as nat
    }

    /// The Euclidean norm, rounded down.
    pub open spec fn norm(self) -> nat {
        floor_sqrt(self.norm_squared())
    }

    /// The square of the norm of the projection onto the xy plane.
    pub open spec fn planar_norm_squared(self) -> nat {
        (self.x * self.x + self.y * self.y) as nat
    }

    /// The norm of the projection onto the xy plane, rounded down.
    pub open spec fn planar_norm(self) -> nat {
        floor_sqrt(self.planar_norm_squared())
    }

    /// The vector seen in the vertical plane that contains it: horizontal
    /// distance from the z axis, rounded down, and height.
    pub open spec fn to_plane(self) -> Vector2 {
        Vector2 { x: self.planar_norm() as int, y: self.z }
    }

    /// The vector stretched or shrunk to the norm `new` along its own
    /// direction, each component rounded to the nearest step. The
    /// zero vector, which has no direction, stays where it is.
    pub open spec fn rescaled(self, new: nat) -> Vector3 {
        Vector3 {
            x: scaled(self.x, self.norm_squared(), new),
            y: scaled(self.y, self.norm_squared(), new),
            z: scaled(self.z, self.norm_squared(), new),
        }
    }

    /// Whether all three coordinates are values of `i64`.
    pub open spec fn fits(self) -> bool {
        fits_i64(self.x) && fits_i64(self.y) && fits_i64(self.z)
    }
}

/// A 3 dimensional Cartesian vector.
#[derive(Debug, Copy, Clone, PartialEq, Eq, Structural)]
pub struct Vec3D {
    /// The vector's size in the x direction, in steps of `2^-32`.
    pub x: i64,
    /// The vector's size in the y direction, in steps of `2^-32`.
    pub y: i64,
    /// The vector's size in the z direction, in steps of `2^-32`.
    pub z: i64,
}

/// A 2 dimensional Cartesian vector.
#[derive(Debug, Copy, Clone, PartialEq, Eq, Structural)]
pub struct Vec2D {
    /// The vector's size in the x direction, in steps of `2^-32`.
    pub x: i64,
    /// The vector's size in the y direction, in steps of `2^-32`.
    pub y: i64,
}

impl View for Vec3D {
    type V = Vector3;

    open spec fn view(&self) -> Vector3 {
        Vector3 { x: self.x as int, y: self.y as int, z: self.z as int }
    }
}

impl View for Vec2D {
    type V = Vector2;

    open spec fn view(&self) -> Vector2 {
        Vector2 { x: self.x as int, y: self.y as int }
    }
}

/// The square of a component.
fn square(c: i64) -> (s: u128)
    ensures
        s == c * c,
        s <= 0x4000_0000_0000_0000_0000_0000_0000_0000,
{
    let a: i128 = c as i128;
    assert(0 <= a * a <= 0x4000_0000_0000_0000_0000_0000_0000_0000) by (nonlinear_arith)
        requires
            -0x8000_0000_0000_0000 <= a <= 0x8000_0000_0000_0000,
    ;
    (a * a) as u128
}

/// The magnitude of a component.
fn magnitude(c: i64) -> (a: u128)
    ensures
        a == vstd::math::abs(c as int),
        a <= 0x8000_0000_0000_0000,
{
    if c < 0 {
        (-(c as i128)) as u128
    } else {
        c as u128
    }
}

/// Whether the rounded magnitude of a rescaled component is at least `m`.
/// `target` is `4 * (new * c)^2`, whole.
fn reaches(m: u128, n: u128, target: (u128, u128)) -> (r: bool)
    requires
        1 <= m <= 0x8000_0000_0000_0000,
    ensures
        r == ((2 * m - 1) * (2 * m - 1) * n <= wide(target.0, target.1)),
{
    let e: u128 = 2 * m - 1;
    assert(e * e <= u128::MAX) by (nonlinear_arith)
        requires
            e < 0x1_0000_0000_0000_0000,
    ;
    le_wide(mul_wide(e * e, n), target)
}

/// One component of a rescaled vector.
fn scale_component(c: i64, n: u128, new: u64) -> (r: i64)
    requires
        n > 0,
        fits_i64(scaled(c as int, n as nat, new as nat)),
    ensures
        r == scaled(c as int, n as nat, new as nat),
{
    let a: u128 = magnitude(c);
    assert(2 * (new * a) <= u128::MAX) by (nonlinear_arith)
        requires
            a <= 0x8000_0000_0000_0000,
            new <= 0xffff_ffff_ffff_ffff,
    ;
    let p: u128 = 2 * ((new as u128) * a);
    let target: (u128, u128) = mul_wide(p, p);
    let ghost goal = scaled_magnitude(c as int, n as nat, new as nat);
    proof {
        lemma_scaled_magnitude(c as int, n as nat, new as nat);
        assert(p * p == 4 * ((new * c) * (new * c))) by (nonlinear_arith)
            requires
                p == 2 * (new * a),
                a == c || a == -c,
        ;
    }
    let mut low: u128 = 0;
    let mut high: u128 = 0x8000_0000_0000_0001;
    while high - low > 1
        invariant
            low <= goal < high <= 0x8000_0000_0000_0001,
            n > 0,
            wide(target.0, target.1) == 4 * ((new * c) * (new * c)),
            wide(target.0, target.1) < (2 * goal + 1) * (2 * goal + 1) * n,
            goal >= 1 ==> (2 * goal - 1) * (2 * goal - 1) * n <= wide(target.0, target.1),
        decreases high - low,
    {
        let m: u128 = low + (high - low) / 2;
        let ghost t = wide(target.0, target.1);
        if reaches(m, n, target) {
            assert(m <= goal) by (nonlinear_arith)
                requires
                    (2 * m - 1) * (2 * m - 1) * n <= t,
                    t < (2 * goal + 1) * (2 * goal + 1) * n,
                    n > 0,
                    m >= 1,
                    goal >= 0,
            {
                if m > goal {
                    assert(2 * m - 1 >= 2 * goal + 1);
                    assert((2 * m - 1) * (2 * m - 1) >= (2 * goal + 1) * (2 * goal + 1));
                    assert((2 * m - 1) * (2 * m - 1) * n >= (2 * goal + 1) * (2 * goal + 1) * n);
                }
            }
            low = m;
        } else {
            assert(goal < m) by (nonlinear_arith)
                requires
                    (2 * m - 1) * (2 * m - 1) * n > t,
                    goal >= 1 ==> (2 * goal - 1) * (2 * goal - 1) * n <= t,
                    n > 0,
                    m >= 1,
                    goal >= 0,
            {
                if goal >= m {
                    assert(2 * goal - 1 >= 2 * m - 1);
                    assert((2 * goal - 1) * (2 * goal - 1) >= (2 * m - 1) * (2 * m - 1));
                    assert((2 * goal - 1) * (2 * goal - 1) * n >= (2 * m - 1) * (2 * m - 1) * n);
                }
            }
            high = m;
        }
    }
    if c < 0 {
        (-(low as i128)) as i64
    } else {
        low as i64
    }
}

impl Vec3D {
    /// Creates a new 3D vector from its components, taken as they are: each
    /// is a number of steps of `2^-32`.
    pub fn new(x: i64, y: i64, z: i64) -> (v: Vec3D)
        ensures
            v@ == (Vector3 { x: x as int, y: y as int, z: z as int }),
    {
        Vec3D { x, y, z }
    }

    /// Creates the 3D vector with the given whole components.
    pub fn from_units(x: i32, y: i32, z: i32) -> (v: Vec3D)
        ensures
            v@ == (Vector3 { x: x * ONE, y: y * ONE, z: z * ONE }),
    {
        Vec3D { x: x as i64 * ONE, y: y as i64 * ONE, z: z as i64 * ONE }
    }

    /// The square of the length.
    fn length_squared(&self) -> (n: u128)
        ensures
            n == self@.norm_squared(),
            n <= 0xc000_0000_0000_0000_0000_0000_0000_0000,
    {
        square(self.x) + square(self.y) + square(self.z)
    }

    /// Whether this is the zero vector, which has a length but no
    /// direction.
    pub fn is_zero(&self) -> (r: bool)
        ensures
            r == (self@.norm_squared() == 0),
            r == (self@ == Vector3 { x: 0, y: 0, z: 0 }),
    {
        proof {
            lemma_zero_vector(self@, 0);
        }
        self.x == 0 && self.y == 0 && self.z == 0
    }

    /// Whether the vector lies along the z axis, the zero vector included:
    /// it has no extent in the xy plane, and so no horizontal direction.
    pub fn is_vertical(&self) -> (r: bool)
        ensures
            r == (self@.planar_norm_squared() == 0),
            r == (self@.x == 0 && self@.y == 0),
    {
        proof {
            lemma_zero_vector_2d(Vector2 { x: self@.x, y: self@.y }, 0);
        }
        self.x == 0 && self.y == 0
    }

    /// Returns the length of the vector: `sqrt(x^2 + y^2 + z^2)`, rounded
    /// down to a step of `2^-32`.
    pub fn length(&self) -> (r: u64)
        ensures
            r == self@.norm(),
            is_floor_sqrt(self@.norm_squared(), r as nat),
    {
        isqrt(self.length_squared())
    }

    /// Returns the length on the xy plane only: `sqrt(x^2 + y^2)`, rounded
    /// down to a step of `2^-32`.
    pub fn length_xy(&self) -> (r: u64)
        ensures
            r == self@.planar_norm(),
            is_floor_sqrt(self@.planar_norm_squared(), r as nat),
    {
        isqrt(square(self.x) + square(self.y))
    }

    /// Converts the vector into its 2D projection: x becomes the length on
    /// the xy plane, y becomes the height z. That length has to fit in
    /// `i64`, which it does where `x^2 + y^2` is below `2^126`.
    pub fn to_2d(&self) -> (p: Vec2D)
        requires
            self@.planar_norm_squared() < 0x4000_0000_0000_0000_0000_0000_0000_0000
                || self@.to_plane().fits(),
        ensures
            p@ == self@.to_plane(),
    {
        let r: u64 = self.length_xy();
        assert(r < 0x8000_0000_0000_0000) by (nonlinear_arith)
            requires
                r * r <= self@.planar_norm_squared(),
                self@.planar_norm_squared() < 0x4000_0000_0000_0000_0000_0000_0000_0000 || r
                    < 0x8000_0000_0000_0000,
        ;
        Vec2D { x: r as i64, y: self.z }
    }

    /// Updates the vector to a new length, keeping its direction. Each
    /// component is rounded to the nearest step of `2^-32`, so the new
    /// length, rounded down, is `new` or one step less. The zero vector has
    /// no direction and is left as it is; no other vector becomes zero
    /// unless `new` is zero.
    pub fn update_length(&mut self, new: u64)
        requires
            new <= i64::MAX || old(self)@.rescaled(new as nat).fits(),
        ensures
            final(self)@ == old(self)@.rescaled(new as nat),
            old(self)@.norm_squared() == 0 ==> *final(self) == *old(self),
            old(self)@.norm_squared() > 0 ==> final(self)@.norm() <= new <= final(self)@.norm() + 1,
            old(self)@.norm_squared() > 0 && new > 0 ==> final(self)@.norm_squared() > 0,
    {
        let n: u128 = self.length_squared();
        if n != 0 {
            proof {
                lemma_rescaled_norm(self@, new as nat);
                if new > 0 {
                    lemma_rescaled_nonzero(self@, new as nat);
                }
                if new <= i64::MAX {
                    lemma_rescaled_fits(self@, new as nat);
                }
            }
            let x: i64 = scale_component(self.x, n, new);
            let y: i64 = scale_component(self.y, n, new);
            let z: i64 = scale_component(self.z, n, new);
            self.x = x;
            self.y = y;
            self.z = z;
        } else {
            assert(self.x == 0 && self.y == 0 && self.z == 0) by (nonlinear_arith)
                requires
                    self.x * self.x + self.y * self.y + self.z * self.z <= 0,
            ;
        }
    }
}

impl Vec2D {
    /// Creates a new 2D vector from its components, taken as they are: each
    /// is a number of steps of `2^-32`.
    pub fn new(x: i64, y: i64) -> (v: Vec2D)
        ensures
            v@ == (Vector2 { x: x as int, y: y as int }),
    {
        Vec2D { x, y }
    }

    /// Creates the 2D vector with the given whole components.
    pub fn from_units(x: i32, y: i32) -> (v: Vec2D)
        ensures
            v@ == (Vector2 { x: x * ONE, y: y * ONE }),
    {
        Vec2D { x: x as i64 * ONE, y: y as i64 * ONE }
    }

    /// The square of the length.
    fn length_squared(&self) -> (n: u128)
        ensures
            n == self@.norm_squared(),
            n <= 0x8000_0000_0000_0000_0000_0000_0000_0000,
    {
        square(self.x) + square(self.y)
    }

    /// Whether this is the zero vector, which has a length but no
    /// direction.
    pub fn is_zero(&self) -> (r: bool)
        ensures
            r == (self@.norm_squared() == 0),
            r == (self@ == Vector2 { x: 0, y: 0 }),
    {
        proof {
            lemma_zero_vector_2d(self@, 0);
        }
        self.x == 0 && self.y == 0
    }

    /// Returns the length of the vector: `sqrt(x^2 + y^2)`, rounded down to
    /// a step of `2^-32`.
    pub fn length(&self) -> (r: u64)
        ensures
            r == self@.norm(),
            is_floor_sqrt(self@.norm_squared(), r as nat),
    {
        isqrt(self.length_squared())
    }

    /// Updates the vector to a new length, keeping its direction. Each
    /// component is rounded to the nearest step of `2^-32`, so the new
    /// length, rounded down, is `new` or one step less. The zero vector has
    /// no direction and is left as it is; no other vector becomes zero
    /// unless `new` is zero.
    pub fn update_length(&mut self, new: u64)
        requires
            new <= i64::MAX || old(self)@.rescaled(new as nat).fits(),
        ensures
            final(self)@ == old(self)@.rescaled(new as nat),
            old(self)@.norm_squared() == 0 ==> *final(self) == *old(self),
            old(self)@.norm_squared() > 0 ==> final(self)@.norm() <= new <= final(self)@.norm() + 1,
            old(self)@.norm_squared() > 0 && new > 0 ==> final(self)@.norm_squared() > 0,
    {
        let n: u128 = self.length_squared();
        if n != 0 {
            proof {
                lemma_rescaled_norm_2d(self@, new as nat);
                if new > 0 {
                    lemma_rescaled_nonzero_2d(self@, new as nat);
                }
                if new <= i64::MAX {
                    lemma_rescaled_fits_2d(self@, new as nat);
                }
            }
            let x: i64 = scale_component(self.x, n, new);
            let y: i64 = scale_component(self.y, n, new);
            self.x = x;
            self.y = y;
        } else {
            assert(self.x == 0 && self.y == 0) by (nonlinear_arith)
                requires
                    self.x * self.x + self.y * self.y <= 0,
            ;
        }
    }
}

/// How a rescaled component is rounded: its magnitude `m` is the whole
/// number nearest to `new * |c| / sqrt(n)`. Stated without the root and
/// without halves: twice the exact value lies below `2 m + 1`, and not
/// below `2 m - 1`.
pub proof fn lemma_scaled_magnitude(c: int, n: nat, new: nat)
    requires
        n > 0,
    ensures
        ({
            let m = scaled_magnitude(c, n, new);
            &&& 4 * ((new * c) * (new * c)) < (2 * m + 1) * (2 * m + 1) * n
            &&& m >= 1 ==> (2 * m - 1) * (2 * m - 1) * n <= 4 * ((new * c) * (new * c))
        }),
{
    let p = 4 * ((new * c) * (new * c));
    let d = n as int;
    assert(p >= 0) by (nonlinear_arith)
        requires
            p == 4 * ((new * c) * (new * c)),
    ;
    let q = p / d;
    let r = p % d;
    vstd::arithmetic::div_mod::lemma_fundamental_div_mod(p, d);
    vstd::arithmetic::div_mod::lemma_mod_pos_bound(p, d);
    vstd::arithmetic::div_mod::lemma_div_pos_is_pos(p, d);
    let k = floor_sqrt(q as nat);
    lemma_floor_sqrt(q as nat);
    let m = (k + 1) / 2;
    assert(m == scaled_magnitude(c, n, new));
    assert(p < (2 * m + 1) * (2 * m + 1) * n) by (nonlinear_arith)
        requires
            q < (k + 1) * (k + 1),
            0 <= k + 1 <= 2 * m + 1,
            p == d * q + r,
            0 <= r < d,
            d == n,
    {
        assert((k + 1) * (k + 1) <= (2 * m + 1) * (2 * m + 1));
        assert(q + 1 <= (2 * m + 1) * (2 * m + 1));
        assert(d * (q + 1) <= d * ((2 * m + 1) * (2 * m + 1)));
    }
    if m >= 1 {
        assert((2 * m - 1) * (2 * m - 1) * n <= p) by (nonlinear_arith)
            requires
                k * k <= q,
                0 <= 2 * m - 1 <= k,
                p == d * q + r,
                0 <= r < d,
                d == n,
        {
            assert((2 * m - 1) * (2 * m - 1) <= k * k);
            assert(d * ((2 * m - 1) * (2 * m - 1)) <= d * q);
        }
    }
}

/// A rescaled component keeps the sign of the component it came from, and
/// its magnitude is at most `new` where the component belongs to a vector of
/// squared norm `n`.
pub proof fn lemma_scaled_range(c: int, n: nat, new: nat)
    requires
        c * c <= n,
    ensures
        c >= 0 ==> 0 <= scaled(c, n, new) <= new,
        c <= 0 ==> -(new as int) <= scaled(c, n, new) <= 0,
        c == 0 ==> scaled(c, n, new) == 0,
{
    let m = scaled_magnitude(c, n, new);
    if n > 0 && m >= 1 {
        lemma_scaled_magnitude(c, n, new);
        let e = 2 * m - 1;
        assert(e <= 2 * new && c != 0) by (nonlinear_arith)
            requires
                e * e * n <= 4 * ((new * c) * (new * c)),
                c * c <= n,
                n > 0,
                e >= 1,
        {
            assert(4 * ((new * c) * (new * c)) == (2 * new) * (2 * new) * (c * c));
            assert((2 * new) * (2 * new) * (c * c) <= (2 * new) * (2 * new) * n);
            assert(e * e * n <= (2 * new) * (2 * new) * n);
            assert(e * e <= (2 * new) * (2 * new));
        }
    }
}

/// Rescaling to a norm that fits in `i64` gives a vector whose components
/// fit in `i64`.
pub proof fn lemma_rescaled_fits(v: Vector3, new: nat)
    requires
        new <= i64::MAX,
    ensures
        v.rescaled(new).fits(),
{
    let n = v.norm_squared();
    assert(v.x * v.x <= n && v.y * v.y <= n && v.z * v.z <= n) by (nonlinear_arith)
        requires
            n == (v.x * v.x + v.y * v.y + v.z * v.z) as nat,
    ;
    lemma_scaled_range(v.x, n, new);
    lemma_scaled_range(v.y, n, new);
    lemma_scaled_range(v.z, n, new);
}

/// What is left of a rounded magnitude once the half that rounding may have
/// added is taken off: `2 m - 1`, or zero for `m = 0`.
spec fn lower_twice(m: nat) -> nat {
    if m >= 1 {
        (2 * m - 1) as nat
    } else {
        0
    }
}

/// Rescaling keeps the promised length: the norm of the rescaled vector,
/// rounded down, is `new` or one unit less.
pub proof fn lemma_rescaled_norm(v: Vector3, new: nat)
    requires
        v.norm_squared() > 0,
    ensures
        v.rescaled(new).norm() <= new <= v.rescaled(new).norm() + 1,
{
    let n = v.norm_squared();
    let a = scaled_magnitude(v.x, n, new);
    let b = scaled_magnitude(v.y, n, new);
    let c = scaled_magnitude(v.z, n, new);
    lemma_scaled_magnitude(v.x, n, new);
    lemma_scaled_magnitude(v.y, n, new);
    lemma_scaled_magnitude(v.z, n, new);
    let w = v.rescaled(new);
    let s = a * a + b * b + c * c;
    assert(w.x * w.x == a * a) by (nonlinear_arith)
        requires
            w.x == a || w.x == -a,
    ;
    assert(w.y * w.y == b * b) by (nonlinear_arith)
        requires
            w.y == b || w.y == -b,
    ;
    assert(w.z * w.z == c * c) by (nonlinear_arith)
        requires
            w.z == c || w.z == -c,
    ;
    assert(w.norm_squared() == s);
    let px = 4 * ((new * v.x) * (new * v.x));
    let py = 4 * ((new * v.y) * (new * v.y));
    let pz = 4 * ((new * v.z) * (new * v.z));
    assert(v.x * v.x + v.y * v.y + v.z * v.z >= 0) by (nonlinear_arith);
    let f = 4 * (new * new);
    let xx = v.x * v.x;
    let yy = v.y * v.y;
    let zz = v.z * v.z;
    assert(px == f * xx && px >= 0) by (nonlinear_arith)
        requires
            px == 4 * ((new * v.x) * (new * v.x)),
            f == 4 * (new * new),
            xx == v.x * v.x,
    ;
    assert(py == f * yy && py >= 0) by (nonlinear_arith)
        requires
            py == 4 * ((new * v.y) * (new * v.y)),
            f == 4 * (new * new),
            yy == v.y * v.y,
    ;
    assert(pz == f * zz && pz >= 0) by (nonlinear_arith)
        requires
            pz == 4 * ((new * v.z) * (new * v.z)),
            f == 4 * (new * new),
            zz == v.z * v.z,
    ;
    assert(px + py + pz == 4 * (new * new) * n) by (nonlinear_arith)
        requires
            px == f * xx,
            py == f * yy,
            pz == f * zz,
            n == xx + yy + zz,
            f == 4 * (new * new),
    ;
    let la = lower_twice(a);
    let lb = lower_twice(b);
    let lc = lower_twice(c);
    assert(la * la * n <= px) by (nonlinear_arith)
        requires
            a >= 1 ==> (2 * a - 1) * (2 * a - 1) * n <= px,
            la == (if a >= 1 {
                2 * a - 1
            } else {
                0
            }),
            px >= 0,
    ;
    assert(lb * lb * n <= py) by (nonlinear_arith)
        requires
            b >= 1 ==> (2 * b - 1) * (2 * b - 1) * n <= py,
            lb == (if b >= 1 {
                2 * b - 1
            } else {
                0
            }),
            py >= 0,
    ;
    assert(lc * lc * n <= pz) by (nonlinear_arith)
        requires
            c >= 1 ==> (2 * c - 1) * (2 * c - 1) * n <= pz,
            lc == (if c >= 1 {
                2 * c - 1
            } else {
                0
            }),
            pz >= 0,
    ;
    let low = la * la + lb * lb + lc * lc;
    let high = (2 * a + 1) * (2 * a + 1) + (2 * b + 1) * (2 * b + 1) + (2 * c + 1) * (2 * c + 1);
    assert(low * n <= 4 * (new * new) * n && 4 * (new * new) * n < high * n) by (nonlinear_arith)
        requires
            la * la * n <= px,
            lb * lb * n <= py,
            lc * lc * n <= pz,
            px < (2 * a + 1) * (2 * a + 1) * n,
            py < (2 * b + 1) * (2 * b + 1) * n,
            pz < (2 * c + 1) * (2 * c + 1) * n,
            px + py + pz == 4 * (new * new) * n,
            low == la * la + lb * lb + lc * lc,
            high == (2 * a + 1) * (2 * a + 1) + (2 * b + 1) * (2 * b + 1) + (2 * c + 1) * (2 * c
                + 1),
    ;
    assert(low <= 4 * (new * new) && 4 * (new * new) < high) by (nonlinear_arith)
        requires
            low * n <= 4 * (new * new) * n,
            4 * (new * new) * n < high * n,
            n > 0,
    ;
    lemma_within_one(a, b, c, new);
}

/// The arithmetic behind `lemma_rescaled_norm`. Three natural numbers, each
/// within a half of its share of a length `new`: the rounded-down root of
/// the sum of their squares is `new` or one less.
proof fn lemma_within_one(a: nat, b: nat, c: nat, new: nat)
    requires
        lower_twice(a) * lower_twice(a) + lower_twice(b) * lower_twice(b) + lower_twice(c)
            * lower_twice(c) <= 4 * (new * new),
        4 * (new * new) < (2 * a + 1) * (2 * a + 1) + (2 * b + 1) * (2 * b + 1) + (2 * c + 1) * (2
            * c + 1),
    ensures
        floor_sqrt(a * a + b * b + c * c) <= new <= floor_sqrt(a * a + b * b + c * c) + 1,
{
    let s = a * a + b * b + c * c;
    let l = floor_sqrt(s);
    lemma_floor_sqrt(s);
    // From above: the sum of the squares stays below (new + 1)^2.
    let la = lower_twice(a);
    let lb = lower_twice(b);
    let lc = lower_twice(c);
    let low = la * la + lb * lb + lc * lc;
    let lk = la + lb + lc;
    assert(lk * lk <= 3 * low) by (nonlinear_arith)
        requires
            lk == la + lb + lc,
            low == la * la + lb * lb + lc * lc,
    {
        assert(3 * low - lk * lk == (la - lb) * (la - lb) + (lb - lc) * (lb - lc) + (la - lc) * (la
            - lc));
    }
    assert(lk <= 4 * new) by (nonlinear_arith)
        requires
            lk * lk <= 3 * low,
            low <= 4 * (new * new),
    {
        assert(lk * lk <= 12 * (new * new));
        assert((4 * new) * (4 * new) == 16 * (new * new));
    }
    assert(4 * (a * a) <= (la + 1) * (la + 1)) by (nonlinear_arith)
        requires
            la == 2 * a - 1 || (la == 0 && a == 0),
    ;
    assert(4 * (b * b) <= (lb + 1) * (lb + 1)) by (nonlinear_arith)
        requires
            lb == 2 * b - 1 || (lb == 0 && b == 0),
    ;
    assert(4 * (c * c) <= (lc + 1) * (lc + 1)) by (nonlinear_arith)
        requires
            lc == 2 * c - 1 || (lc == 0 && c == 0),
    ;
    assert(4 * s <= low + 2 * lk + 3) by (nonlinear_arith)
        requires
            4 * (a * a) <= (la + 1) * (la + 1),
            4 * (b * b) <= (lb + 1) * (lb + 1),
            4 * (c * c) <= (lc + 1) * (lc + 1),
            s == a * a + b * b + c * c,
            low == la * la + lb * lb + lc * lc,
            lk == la + lb + lc,
    ;
    assert(l <= new) by (nonlinear_arith)
        requires
            l * l <= s,
            4 * s <= low + 2 * lk + 3,
            low <= 4 * (new * new),
            lk <= 4 * new,
    {
        assert(4 * s < 4 * ((new + 1) * (new + 1)));
        assert(l * l < (new + 1) * (new + 1));
    }
    // From below: new^2 stays below (l + 2)^2.
    let k = a + b + c;
    assert(k * k <= 3 * s) by (nonlinear_arith)
        requires
            k == a + b + c,
            s == a * a + b * b + c * c,
    {
        assert(3 * s - k * k == (a - b) * (a - b) + (b - c) * (b - c) + (a - c) * (a - c));
    }
    assert(k <= 2 * l + 1) by (nonlinear_arith)
        requires
            k * k <= 3 * s,
            s < (l + 1) * (l + 1),
    ;
    assert(4 * (new * new) < 4 * s + 4 * k + 3) by (nonlinear_arith)
        requires
            4 * (new * new) < (2 * a + 1) * (2 * a + 1) + (2 * b + 1) * (2 * b + 1) + (2 * c + 1)
                * (2 * c + 1),
            s == a * a + b * b + c * c,
            k == a + b + c,
    ;
    assert(new <= l + 1) by (nonlinear_arith)
        requires
            4 * (new * new) < 4 * s + 4 * k + 3,
            s < (l + 1) * (l + 1),
            k <= 2 * l + 1,
    {
        assert(4 * (new * new) < 4 * ((l + 2) * (l + 2)));
        assert(new * new < (l + 2) * (l + 2));
    }
}

/// A component that carries at least a third of the squared norm does not
/// round to zero when the vector is rescaled to a length of one or more.
pub proof fn lemma_scaled_nonzero(c: int, n: nat, new: nat)
    requires
        n > 0,
        new >= 1,
        3 * (c * c) >= n,
    ensures
        scaled_magnitude(c, n, new) >= 1,
{
    let m = scaled_magnitude(c, n, new);
    lemma_scaled_magnitude(c, n, new);
    assert(m >= 1) by (nonlinear_arith)
        requires
            4 * ((new * c) * (new * c)) < (2 * m + 1) * (2 * m + 1) * n,
            3 * (c * c) >= n,
            n > 0,
            new >= 1,
            m >= 0,
    {
        assert((new * c) * (new * c) == (new * new) * (c * c));
        assert((new * new) * (c * c) >= c * c);
        if m == 0 {
            assert((2 * m + 1) * (2 * m + 1) * n == n);
            assert(4 * (c * c) < n);
        }
    }
}

/// Rescaling a vector that has a direction to a length of one or more
/// gives a vector that has a direction: rounding never takes the last
/// component away.
pub proof fn lemma_rescaled_nonzero(v: Vector3, new: nat)
    requires
        v.norm_squared() > 0,
        new >= 1,
    ensures
        v.rescaled(new).norm_squared() > 0,
{
    let n = v.norm_squared();
    let w = v.rescaled(new);
    assert(v.x * v.x >= 0 && v.y * v.y >= 0 && v.z * v.z >= 0) by (nonlinear_arith);
    assert(w.x * w.x >= 0 && w.y * w.y >= 0 && w.z * w.z >= 0) by (nonlinear_arith);
    if 3 * (v.x * v.x) >= n {
        lemma_scaled_nonzero(v.x, n, new);
        assert(w.x * w.x >= 1) by (nonlinear_arith)
            requires
                w.x >= 1 || w.x <= -1,
        ;
    } else if 3 * (v.y * v.y) >= n {
        lemma_scaled_nonzero(v.y, n, new);
        assert(w.y * w.y >= 1) by (nonlinear_arith)
            requires
                w.y >= 1 || w.y <= -1,
        ;
    } else {
        lemma_scaled_nonzero(v.z, n, new);
        assert(w.z * w.z >= 1) by (nonlinear_arith)
            requires
                w.z >= 1 || w.z <= -1,
        ;
    }
}

/// A vector of the plane, laid into space with height zero.
pub open spec fn flat(v: Vector2) -> Vector3 {
    Vector3 { x: v.x, y: v.y, z: 0 }
}

/// A vector of the plane behaves as the vector of space with the same x and
/// y and with z = 0: same squared norm, and rescaling commutes with laying
/// it flat.
pub proof fn lemma_flat(v: Vector2, new: nat)
    ensures
        flat(v).norm_squared() == v.norm_squared(),
        flat(v).norm() == v.norm(),
        flat(v).rescaled(new) == flat(v.rescaled(new)),
{
    let n = v.norm_squared();
    let f = flat(v);
    assert(f.z * f.z == 0) by (nonlinear_arith)
        requires
            f.z == 0,
    ;
    lemma_scaled_range(0, n, new);
}

/// Rescaling a vector of the plane to a norm that fits in `i64` gives a
/// vector whose components fit in `i64`.
pub proof fn lemma_rescaled_fits_2d(v: Vector2, new: nat)
    requires
        new <= i64::MAX,
    ensures
        v.rescaled(new).fits(),
{
    lemma_flat(v, new);
    lemma_rescaled_fits(flat(v), new);
}

/// Rescaling keeps the promised length in the plane too: the norm of the
/// rescaled vector, rounded down, is `new` or one unit less.
pub proof fn lemma_rescaled_norm_2d(v: Vector2, new: nat)
    requires
        v.norm_squared() > 0,
    ensures
        v.rescaled(new).norm() <= new <= v.rescaled(new).norm() + 1,
{
    lemma_flat(v, new);
    lemma_rescaled_norm(flat(v), new);
    lemma_flat(v.rescaled(new), new);
}

/// Rescaling a vector of the plane that has a direction to a length of one
/// or more gives a vector that has a direction.
pub proof fn lemma_rescaled_nonzero_2d(v: Vector2, new: nat)
    requires
        v.norm_squared() > 0,
        new >= 1,
    ensures
        v.rescaled(new).norm_squared() > 0,
{
    lemma_flat(v, new);
    lemma_rescaled_nonzero(flat(v), new);
    lemma_flat(v.rescaled(new), new);
}

/// Where nothing has to be rounded, a rescaled component is the component
/// times the factor: for a vector of norm exactly `l`, stretched to `k * l`,
/// the component `c` becomes `k * c`.
pub proof fn lemma_scaled_multiple(c: int, l: nat, k: nat)
    requires
        l > 0,
    ensures
        scaled(c, l * l, k * l) == k * c,
{
    let n = l * l;
    let new = k * l;
    let m = if c < 0 {
        -(k * c)
    } else {
        k * c
    };
    assert(n > 0) by (nonlinear_arith)
        requires
            n == l * l,
            l > 0,
    ;
    assert(m >= 0) by (nonlinear_arith)
        requires
            m == (if c < 0 {
                -(k * c)
            } else {
                k * c
            }),
    ;
    let e = 2 * m;
    assert(4 * ((new * c) * (new * c)) == (e * e) * n) by (nonlinear_arith)
        requires
            new == k * l,
            n == l * l,
            e == 2 * (k * c) || e == -(2 * (k * c)),
    ;
    assert(e * e >= 0) by (nonlinear_arith);
    vstd::arithmetic::div_mod::lemma_div_by_multiple(e * e, n as int);
    assert(e * e < (e + 1) * (e + 1)) by (nonlinear_arith)
        requires
            e >= 0,
    ;
    lemma_floor_sqrt_is((e * e) as nat, e as nat);
}

/// Direction is kept exactly where no rounding is needed: a vector of norm
/// exactly `l`, rescaled to `k * l`, is the vector times `k`.
pub proof fn lemma_rescaled_multiple(v: Vector3, l: nat, k: nat)
    requires
        l > 0,
        v.norm_squared() == l * l,
    ensures
        v.rescaled(k * l) == (Vector3 { x: k * v.x, y: k * v.y, z: k * v.z }),
{
    lemma_scaled_multiple(v.x, l, k);
    lemma_scaled_multiple(v.y, l, k);
    lemma_scaled_multiple(v.z, l, k);
}

/// Direction is kept exactly in the plane too: a vector of norm exactly
/// `l`, rescaled to `k * l`, is the vector times `k`.
pub proof fn lemma_rescaled_multiple_2d(v: Vector2, l: nat, k: nat)
    requires
        l > 0,
        v.norm_squared() == l * l,
    ensures
        v.rescaled(k * l) == (Vector2 { x: k * v.x, y: k * v.y }),
{
    lemma_scaled_multiple(v.x, l, k);
    lemma_scaled_multiple(v.y, l, k);
}

/// The zero vector is the only vector of squared norm zero; its length is
/// zero, and rescaling it to any length leaves it at zero.
pub proof fn lemma_zero_vector(v: Vector3, new: nat)
    ensures
        v.norm_squared() == 0 <==> v == (Vector3 { x: 0, y: 0, z: 0 }),
        v.norm_squared() == 0 ==> v.norm() == 0 && v.planar_norm() == 0 && v.rescaled(new) == v,
{
    assert(v.x * v.x + v.y * v.y + v.z * v.z <= 0 ==> v.x == 0 && v.y == 0 && v.z == 0)
        by (nonlinear_arith);
    assert(0nat * 0nat <= 0 < (0nat + 1) * (0nat + 1)) by (nonlinear_arith);
    lemma_floor_sqrt_is(0, 0);
}

/// The zero vector of the plane is the only one of squared norm zero; its
/// length is zero, and rescaling it to any length leaves it at zero.
pub proof fn lemma_zero_vector_2d(v: Vector2, new: nat)
    ensures
        v.norm_squared() == 0 <==> v == (Vector2 { x: 0, y: 0 }),
        v.norm_squared() == 0 ==> v.norm() == 0 && v.rescaled(new) == v,
{
    assert(v.x * v.x + v.y * v.y <= 0 ==> v.x == 0 && v.y == 0) by (nonlinear_arith);
    assert(0nat * 0nat <= 0 < (0nat + 1) * (0nat + 1)) by (nonlinear_arith);
    lemma_floor_sqrt_is(0, 0);
}

/// The length of the projection against the length of the vector: laying a
/// vector into its vertical plane rounds the horizontal distance down, which
/// can cost at most one unit of length and never adds any.
pub proof fn lemma_projection_norm(v: Vector3)
    ensures
        v.to_plane().norm() <= v.norm() <= v.to_plane().norm() + 1,
{
    let n = v.norm_squared();
    let h = v.planar_norm_squared();
    let r = v.planar_norm();
    let m = v.to_plane().norm_squared();
    let l = floor_sqrt(m);
    lemma_floor_sqrt(h);
    lemma_floor_sqrt(m);
    lemma_floor_sqrt(n);
    assert(v.x * v.x + v.y * v.y >= 0 && v.z * v.z >= 0 && r * r >= 0) by (nonlinear_arith);
    assert(m == r * r + v.z * v.z);
    assert(n == h + v.z * v.z);
    lemma_floor_sqrt_monotonic(m, n);
    assert(v.norm() <= l + 1) by (nonlinear_arith)
        requires
            v.norm() * v.norm() <= n,
            n == h + v.z * v.z,
            m == r * r + v.z * v.z,
            h < (r + 1) * (r + 1),
            m < (l + 1) * (l + 1),
            r * r <= m,
            l >= 0,
            r >= 0,
    {
        assert(r <= l);
        assert(n < m + 2 * r + 1);
        assert(n < (l + 2) * (l + 2));
    }
}

/// Two scaled magnitudes against the components they came from. With `a`
/// at least `new' * p / sqrt(n)` rounded down and `b + 1` above
/// `new' * q / sqrt(n)`, the ratio `a / p` is at most `(b + 1) / q`.
proof fn lemma_magnitudes_in_ratio(p: nat, q: nat, n: nat, new: nat, a: nat, b: nat)
    requires
        n > 0,
        a * a * n <= (new * p) * (new * p),
        (new * q) * (new * q) < (b + 1) * (b + 1) * n,
    ensures
        a * q <= (b + 1) * p,
{
    if new == 0 {
        assert(a == 0) by (nonlinear_arith)
            requires
                a * a * n <= (new * p) * (new * p),
                new == 0,
                n > 0,
        ;
        assert(a * q == 0 && (b + 1) * p >= 0) by (nonlinear_arith)
            requires
                a == 0,
        ;
    } else {
        let x = a * a * n;
        let y = (new * p) * (new * p);
        let z = (new * q) * (new * q);
        let w = (b + 1) * (b + 1) * n;
        let k = n * (new * new);
        assert(x * z <= y * w) by (nonlinear_arith)
            requires
                0 <= x <= y,
                0 <= z <= w,
        ;
        assert(x * z == k * ((a * q) * (a * q))) by (nonlinear_arith)
            requires
                x == a * a * n,
                z == (new * q) * (new * q),
                k == n * (new * new),
        ;
        assert(y * w == k * (((b + 1) * p) * ((b + 1) * p))) by (nonlinear_arith)
            requires
                y == (new * p) * (new * p),
                w == (b + 1) * (b + 1) * n,
                k == n * (new * new),
        ;
        assert(k > 0) by (nonlinear_arith)
            requires
                k == n * (new * new),
                n > 0,
                new > 0,
        ;
        let l = a * q;
        let r = (b + 1) * p;
        assert(l * l <= r * r) by (nonlinear_arith)
            requires
                k * (l * l) <= k * (r * r),
                k > 0,
        ;
        assert(l <= r) by (nonlinear_arith)
            requires
                l * l <= r * r,
                l >= 0,
                r >= 0,
        ;
    }
}

/// One half of `lemma_scaled_in_ratio`: with `a` and `b` the rounded
/// magnitudes that belong to `p` and `q`, twice `a * q - b * p` is at most
/// `p + q`.
proof fn lemma_rounded_in_ratio(p: nat, q: nat, n: nat, new: nat, a: nat, b: nat)
    requires
        n > 0,
        a >= 1 ==> (2 * a - 1) * (2 * a - 1) * n <= 4 * ((new * p) * (new * p)),
        4 * ((new * q) * (new * q)) < (2 * b + 1) * (2 * b + 1) * n,
    ensures
        2 * (a * q - b * p) <= p + q,
{
    if a >= 1 {
        let low = (2 * a - 1) as nat;
        let twice = 2 * new;
        assert((twice * p) * (twice * p) == 4 * ((new * p) * (new * p))) by (nonlinear_arith)
            requires
                twice == 2 * new,
        ;
        assert((twice * q) * (twice * q) == 4 * ((new * q) * (new * q))) by (nonlinear_arith)
            requires
                twice == 2 * new,
        ;
        lemma_magnitudes_in_ratio(p, q, n, twice, low, 2 * b);
        assert(2 * (a * q - b * p) <= p + q) by (nonlinear_arith)
            requires
                low * q <= (2 * b + 1) * p,
                low == 2 * a - 1,
        ;
    } else {
        assert(2 * (a * q - b * p) <= p + q) by (nonlinear_arith)
            requires
                a == 0,
                b >= 0,
                p >= 0,
                q >= 0,
        ;
    }
}

/// Two components of a rescaled vector against the two they came from: the
/// cross term `scaled(c1) * c2 - scaled(c2) * c1`, which is zero where the
/// ratio is kept exactly, is at most the mean of `|c1|` and `|c2|` in
/// magnitude.
pub proof fn lemma_scaled_in_ratio(c1: int, c2: int, n: nat, new: nat)
    ensures
        2 * vstd::math::abs(scaled(c1, n, new) * c2 - scaled(c2, n, new) * c1) <= vstd::math::abs(
            c1,
        ) + vstd::math::abs(c2),
{
    let a = scaled_magnitude(c1, n, new);
    let b = scaled_magnitude(c2, n, new);
    let p = vstd::math::abs(c1);
    let q = vstd::math::abs(c2);
    let cross = scaled(c1, n, new) * c2 - scaled(c2, n, new) * c1;
    if n == 0 {
        assert(cross == 0) by (nonlinear_arith)
            requires
                cross == 0 * c2 - 0 * c1,
        ;
    } else {
        lemma_scaled_magnitude(c1, n, new);
        lemma_scaled_magnitude(c2, n, new);
        assert((new * c1) * (new * c1) == (new * p) * (new * p)) by (nonlinear_arith)
            requires
                p == c1 || p == -c1,
        ;
        assert((new * c2) * (new * c2) == (new * q) * (new * q)) by (nonlinear_arith)
            requires
                q == c2 || q == -c2,
        ;
        lemma_rounded_in_ratio(p, q, n, new, a, b);
        lemma_rounded_in_ratio(q, p, n, new, b, a);
        let inner = a * q - b * p;
        assert(cross == inner || cross == -inner) by (nonlinear_arith)
            requires
                cross == scaled(c1, n, new) * c2 - scaled(c2, n, new) * c1,
                inner == a * q - b * p,
                (c1 < 0 && scaled(c1, n, new) == -a && p == -c1) || (c1 >= 0 && scaled(c1, n, new)
                    == a && p == c1),
                (c2 < 0 && scaled(c2, n, new) == -b && q == -c2) || (c2 >= 0 && scaled(c2, n, new)
                    == b && q == c2),
        ;
    }
}

/// Rescaling keeps the direction, as far as rounding allows. The cross
/// product of the rescaled vector and the vector it came from, which is
/// zero for vectors of one direction, has no component larger in magnitude
/// than the mean of the magnitudes of the two components of the vector that
/// enter it.
pub proof fn lemma_rescaled_parallel(v: Vector3, new: nat)
    ensures
        ({
            let w = v.rescaled(new);
            &&& 2 * vstd::math::abs(w.x * v.y - w.y * v.x) <= vstd::math::abs(v.x)
                + vstd::math::abs(v.y)
            &&& 2 * vstd::math::abs(w.y * v.z - w.z * v.y) <= vstd::math::abs(v.y)
                + vstd::math::abs(v.z)
            &&& 2 * vstd::math::abs(w.z * v.x - w.x * v.z) <= vstd::math::abs(v.z)
                + vstd::math::abs(v.x)
        }),
{
    let n = v.norm_squared();
    lemma_scaled_in_ratio(v.x, v.y, n, new);
    lemma_scaled_in_ratio(v.y, v.z, n, new);
    lemma_scaled_in_ratio(v.z, v.x, n, new);
}

/// Rescaling keeps the direction in the plane too: the cross term of the
/// rescaled vector and the vector it came from is at most the mean of the
/// magnitudes of the vector's two components.
pub proof fn lemma_rescaled_parallel_2d(v: Vector2, new: nat)
    ensures
        2 * vstd::math::abs(v.rescaled(new).x * v.y - v.rescaled(new).y * v.x) <= vstd::math::abs(
            v.x,
        ) + vstd::math::abs(v.y),
{
    lemma_scaled_in_ratio(v.x, v.y, v.norm_squared(), new);
}

/// The length scales with the vector. A vector taken `k` times has `k`
/// times the length, as far as rounding down allows: not less than `k`
/// times the rounded length, and less than `k` times the next step.
pub proof fn lemma_norm_scales(v: Vector3, k: nat)
    requires
        k >= 1,
    ensures
        ({
            let w = Vector3 { x: k * v.x, y: k * v.y, z: k * v.z };
            k * v.norm() <= w.norm() < k * (v.norm() + 1)
        }),
{
    let w = Vector3 { x: k * v.x, y: k * v.y, z: k * v.z };
    let n = v.norm_squared();
    let m = w.norm_squared();
    let r = v.norm();
    let big = w.norm();
    lemma_floor_sqrt(n);
    lemma_floor_sqrt(m);
    assert(v.x * v.x + v.y * v.y + v.z * v.z >= 0) by (nonlinear_arith);
    assert(w.x * w.x + w.y * w.y + w.z * w.z == (k * k) * (v.x * v.x + v.y * v.y + v.z * v.z))
        by (nonlinear_arith)
        requires
            w.x == k * v.x,
            w.y == k * v.y,
            w.z == k * v.z,
    ;
    assert(m == (k * k) * n);
    let low = k * r;
    let high = k * (r + 1);
    assert(low * low <= m && m < high * high) by (nonlinear_arith)
        requires
            m == (k * k) * n,
            r * r <= n,
            n < (r + 1) * (r + 1),
            low == k * r,
            high == k * (r + 1),
            k >= 1,
    {
        assert(low * low == (k * k) * (r * r));
        assert(high * high == (k * k) * ((r + 1) * (r + 1)));
        assert((k * k) * (r * r) <= (k * k) * n);
        assert((k * k) * (n + 1) <= (k * k) * ((r + 1) * (r + 1)));
    }
    assert(low <= big && big < high) by (nonlinear_arith)
        requires
            low * low <= m,
            m < high * high,
            big * big <= m,
            m < (big + 1) * (big + 1),
            low >= 0,
            big >= 0,
            high >= 0,
    ;
}

/// A rescaled component stands to the old one as the new length to the
/// old, as far as rounding allows: with `m` the new magnitude of the
/// component `c` and `l` the old length rounded down, `m * l` and
/// `new * |c|` differ by at most `l / 2 + m`.
pub proof fn lemma_scaled_proportion(c: int, n: nat, new: nat)
    requires
        n > 0,
    ensures
        ({
            let m = scaled_magnitude(c, n, new);
            let l = floor_sqrt(n);
            let p = vstd::math::abs(c);
            -l <= 2 * (new * p) - 2 * (m * l) <= 2 * m + l
        }),
{
    let m = scaled_magnitude(c, n, new);
    let l = floor_sqrt(n);
    let p = vstd::math::abs(c);
    let e = 2 * (new * p);
    lemma_scaled_magnitude(c, n, new);
    lemma_floor_sqrt(n);
    assert(e >= 0 && e * e == 4 * ((new * c) * (new * c))) by (nonlinear_arith)
        requires
            e == 2 * (new * p),
            p == c || p == -c,
            p >= 0,
            new >= 0,
    ;
    let up = (2 * m + 1) * (l + 1);
    assert(e < up) by (nonlinear_arith)
        requires
            e * e < (2 * m + 1) * (2 * m + 1) * n,
            n < (l + 1) * (l + 1),
            up == (2 * m + 1) * (l + 1),
            e >= 0,
            m >= 0,
            l >= 0,
    {
        assert((2 * m + 1) * (2 * m + 1) * n <= (2 * m + 1) * (2 * m + 1) * ((l + 1) * (l + 1)));
        assert(up * up == (2 * m + 1) * (2 * m + 1) * ((l + 1) * (l + 1)));
        assert(e * e < up * up);
    }
    assert(up == 2 * (m * l) + 2 * m + l + 1) by (nonlinear_arith)
        requires
            up == (2 * m + 1) * (l + 1),
    ;
    if m >= 1 {
        let down = (2 * m - 1) * l;
        assert(down <= e) by (nonlinear_arith)
            requires
                (2 * m - 1) * (2 * m - 1) * n <= e * e,
                l * l <= n,
                down == (2 * m - 1) * l,
                e >= 0,
                m >= 1,
                l >= 0,
        {
            assert((2 * m - 1) * (2 * m - 1) * (l * l) <= (2 * m - 1) * (2 * m - 1) * n);
            assert(down * down == (2 * m - 1) * (2 * m - 1) * (l * l));
            assert(down * down <= e * e);
        }
        assert(down == 2 * (m * l) - l) by (nonlinear_arith)
            requires
                down == (2 * m - 1) * l,
        ;
    } else {
        assert(m * l == 0) by (nonlinear_arith)
            requires
                m == 0,
        ;
    }
}

/// Rescaling a vector to its own length, rounded down, changes it by one
/// step at most: no component grows in magnitude, and none shrinks by more
/// than a step.
pub proof fn lemma_scaled_to_own_norm(c: int, n: nat)
    requires
        n > 0,
        c * c <= n,
    ensures
        vstd::math::abs(c) - 1 <= scaled_magnitude(c, n, floor_sqrt(n)) <= vstd::math::abs(c),
{
    let l = floor_sqrt(n);
    let m = scaled_magnitude(c, n, l);
    let p = vstd::math::abs(c);
    lemma_floor_sqrt(n);
    lemma_scaled_proportion(c, n, l);
    lemma_scaled_range(c, n, l);
    assert(l >= 1) by (nonlinear_arith)
        requires
            n < (l + 1) * (l + 1),
            n > 0,
            l >= 0,
    ;
    assert(p - 1 <= m <= p) by (nonlinear_arith)
        requires
            -l <= 2 * (l * p) - 2 * (m * l) <= 2 * m + l,
            m <= l,
            l >= 1,
            m >= 0,
            p >= 0,
    {
        assert(2 * (l * p) - 2 * (m * l) == 2 * l * (p - m));
        if p - m <= -1 {
            assert(2 * l * (p - m) <= -2 * l);
        }
        if p - m >= 2 {
            assert(2 * l * (p - m) >= 4 * l);
        }
    }
}

/// Rescaling a vector to its own length, rounded down, moves no component
/// by more than one step.
pub proof fn lemma_rescaled_to_own_norm(v: Vector3)
    requires
        v.norm_squared() > 0,
    ensures
        ({
            let w = v.rescaled(v.norm());
            &&& vstd::math::abs(w.x - v.x) <= 1
            &&& vstd::math::abs(w.y - v.y) <= 1
            &&& vstd::math::abs(w.z - v.z) <= 1
        }),
{
    let n = v.norm_squared();
    assert(v.x * v.x <= n && v.y * v.y <= n && v.z * v.z <= n) by (nonlinear_arith)
        requires
            n == (v.x * v.x + v.y * v.y + v.z * v.z) as nat,
    ;
    lemma_scaled_to_own_norm(v.x, n);
    lemma_scaled_to_own_norm(v.y, n);
    lemma_scaled_to_own_norm(v.z, n);
}

/// A component of a vector whose length, rounded down, is `new` or one
/// step less moves by one step at most when the vector is rescaled to
/// `new`.
pub proof fn lemma_scaled_again(c: int, n: nat, new: nat)
    requires
        n > 0,
        c * c <= n,
        floor_sqrt(n) <= new <= floor_sqrt(n) + 1,
    ensures
        vstd::math::abs(c) - 1 <= scaled_magnitude(c, n, new) <= vstd::math::abs(c) + 1,
{
    let l = floor_sqrt(n);
    let m = scaled_magnitude(c, n, new);
    let p = vstd::math::abs(c);
    lemma_floor_sqrt(n);
    lemma_scaled_proportion(c, n, new);
    lemma_scaled_range(c, n, new);
    assert(l >= 1) by (nonlinear_arith)
        requires
            n < (l + 1) * (l + 1),
            n > 0,
            l >= 0,
    ;
    let gap = p - m;
    assert(-1 <= gap <= 1) by (nonlinear_arith)
        requires
            -l <= 2 * (new * p) - 2 * (m * l) <= 2 * m + l,
            gap == p - m,
            l <= new <= l + 1,
            0 <= m <= new,
            l >= 1,
            p >= 0,
    {
        if new == l {
            assert(2 * (new * p) - 2 * (m * l) == 2 * l * gap);
            if gap <= -1 {
                assert(2 * l * gap <= -2 * l);
            }
            if gap >= 2 {
                assert(2 * l * gap >= 4 * l);
            }
        } else {
            assert(2 * (new * p) - 2 * (m * l) == 2 * new * gap + 2 * m);
            if gap <= -2 {
                assert(2 * new * gap <= -4 * new);
            }
            if gap >= 1 {
                assert(2 * new * gap >= 2 * new);
            }
        }
    }
}

/// Rescaling a second time to the same length changes next to nothing: no
/// component moves by more than one step.
pub proof fn lemma_rescaled_twice(v: Vector3, new: nat)
    ensures
        ({
            let w = v.rescaled(new);
            let u = w.rescaled(new);
            &&& vstd::math::abs(u.x - w.x) <= 1
            &&& vstd::math::abs(u.y - w.y) <= 1
            &&& vstd::math::abs(u.z - w.z) <= 1
        }),
{
    let w = v.rescaled(new);
    let n = w.norm_squared();
    lemma_zero_vector(w, new);
    if n > 0 {
        lemma_zero_vector(v, new);
        lemma_rescaled_norm(v, new);
        assert(w.x * w.x <= n && w.y * w.y <= n && w.z * w.z <= n) by (nonlinear_arith)
            requires
                n == (w.x * w.x + w.y * w.y + w.z * w.z) as nat,
        ;
        lemma_scaled_again(w.x, n, new);
        lemma_scaled_again(w.y, n, new);
        lemma_scaled_again(w.z, n, new);
    }
}

/// The length scales with the vector in the plane too.
pub proof fn lemma_norm_scales_2d(v: Vector2, k: nat)
    requires
        k >= 1,
    ensures
        ({
            let w = Vector2 { x: k * v.x, y: k * v.y };
            k * v.norm() <= w.norm() < k * (v.norm() + 1)
        }),
{
    let w = Vector2 { x: k * v.x, y: k * v.y };
    lemma_flat(v, 0);
    lemma_flat(w, 0);
    lemma_norm_scales(flat(v), k);
    assert(k * 0 == 0);
}

/// Rescaling a vector of the plane to its own length, rounded down, moves
/// no component by more than one step.
pub proof fn lemma_rescaled_to_own_norm_2d(v: Vector2)
    requires
        v.norm_squared() > 0,
    ensures
        vstd::math::abs(v.rescaled(v.norm()).x - v.x) <= 1,
        vstd::math::abs(v.rescaled(v.norm()).y - v.y) <= 1,
{
    let n = v.norm_squared();
    assert(v.x * v.x <= n && v.y * v.y <= n) by (nonlinear_arith)
        requires
            n == (v.x * v.x + v.y * v.y) as nat,
    ;
    lemma_scaled_to_own_norm(v.x, n);
    lemma_scaled_to_own_norm(v.y, n);
}

/// Rescaling a vector of the plane a second time to the same length moves
/// no component by more than one step.
pub proof fn lemma_rescaled_twice_2d(v: Vector2, new: nat)
    ensures
        vstd::math::abs(v.rescaled(new).rescaled(new).x - v.rescaled(new).x) <= 1,
        vstd::math::abs(v.rescaled(new).rescaled(new).y - v.rescaled(new).y) <= 1,
{
    let w = v.rescaled(new);
    let n = w.norm_squared();
    lemma_zero_vector_2d(w, new);
    if n > 0 {
        lemma_zero_vector_2d(v, new);
        lemma_rescaled_norm_2d(v, new);
        assert(w.x * w.x <= n && w.y * w.y <= n) by (nonlinear_arith)
            requires
                n == (w.x * w.x + w.y * w.y) as nat,
        ;
        lemma_scaled_again(w.x, n, new);
        lemma_scaled_again(w.y, n, new);
    }
}

} // verus!
