//! A point mass under constant gravity, seen in the vertical plane of its
//! flight: x is the horizontal distance, y the height.
//!
//! Positions, velocities, gravity and times are fixed-point numbers with 32
//! fractional bits, as the components of the vectors are: a field holds its
//! value times `2^32`. Positions follow the closed form of the motion,
//! `y + vy * t - g * t^2 / 2`, rounded down to a step of `2^-32`.

use crate::sqrt::{floor_sqrt, isqrt_wide};
use crate::types::{fits_i64, Vec2D, Vector2};
use crate::wide::{mul_wide, wide};
use vstd::prelude::*;

verus! {

/// The state of a flight, every quantity counted in steps of `2^-32`: what
/// a [`Projectile`] stands for.
pub struct Flight {
    /// Where the projectile is.
    pub position: Vector2,
    /// How far it moves per unit of time.
    pub velocity: Vector2,
    /// How much vertical velocity it loses per unit of time; positive pulls
    /// down.
    pub gravity: int,
}

/// Twice the height gained after the time `t` by leaving with vertical
/// velocity `vy` under gravity `g`: `2 * vy * t - g * t^2`.
pub open spec fn twice_rise(vy: int, g: int, t: int) -> int {
    2 * vy * t - g * t * t
}

/// The number under the root in the solution of `h + vy * t - g * t^2 / 2 = 0`
/// for `t`.
pub open spec fn discriminant(vy: int, g: int, h: int) -> int {
    vy * vy + 2 * g * h
}

impl Flight {
    /// The vertical velocity in the units in which the exact height is a
    /// whole number: `2^32` times the field.
    pub open spec fn fine_velocity(self) -> int {
        self.velocity.y * 0x1_0000_0000
    }

    /// The height `h` in the units of the discriminant: `2^64` times the
    /// field.
    pub open spec fn fine_height(h: int) -> int {
        h * 0x1_0000_0000_0000_0000
    }

    /// The exact height after the time `t`, before any rounding, times
    /// `2^65`: `2^65 * (y + vy * t - g * t^2 / 2)` with `y` in steps and
    /// the other quantities in units.
    pub open spec fn exact_height(self, t: int) -> int {
        2 * Self::fine_height(self.position.y) + twice_rise(self.fine_velocity(), self.gravity, t)
    }

    /// The state after the time `dt`. Gravity acts on the vertical velocity
    /// only; every result is rounded down to a step.
    pub open spec fn advance(self, dt: nat) -> Flight {
        Flight {
            position: Vector2 {
                x: self.position.x + (self.velocity.x * dt) / 0x1_0000_0000,
                y: self.position.y + twice_rise(self.fine_velocity(), self.gravity, dt as int)
                    / 0x2_0000_0000_0000_0000,
            },
            velocity: Vector2 {
                x: self.velocity.x,
                y: self.velocity.y - (self.gravity * dt) / 0x1_0000_0000,
            },
            gravity: self.gravity,
        }
    }

    /// The height after the time `t`, rounded down to a step.
    pub open spec fn height_at(self, t: nat) -> int {
        self.advance(t).position.y
    }

    /// Whether every number of the state is a value of `i64`.
    pub open spec fn fits(self) -> bool {
        self.position.fits() && self.velocity.fits() && fits_i64(self.gravity)
    }

    /// The time of the impact for a launch from `launch_height` above the
    /// ground: the later root of `h + vy * t - g * t^2 / 2 = 0`, rounded
    /// down to a step. `None` where the flight never comes down to the
    /// ground: without gravity, where the equation has no real root, and
    /// where its later root lies in the past.
    pub open spec fn impact_time(self, launch_height: int) -> Option<nat> {
        let vy = self.fine_velocity();
        let g = self.gravity;
        let d = discriminant(vy, g, Self::fine_height(launch_height));
        if g == 0 || d < 0 {
            None
        } else {
            let reach = floor_sqrt(d as nat) + (if g > 0 {
                vy
            } else {
                -vy
            });
            if reach < 0 {
                None
            } else {
                Some((reach / (if g > 0 {
                    g
                } else {
                    -g
                })) as nat)
            }
        }
    }

    /// Whether sampling every `step` gives a finite trajectory: the step is
    /// not zero and the flight, launched from its own height, comes down at
    /// a time that `u64` can hold.
    pub open spec fn has_trajectory(self, step: nat) -> bool {
        &&& step > 0
        &&& self.impact_time(self.position.y) is Some
        &&& self.impact_time(self.position.y)->0 <= u64::MAX
    }

    /// The number of samples from the launch to the impact, one every
    /// `step`, the launch included.
    pub open spec fn sample_count(self, step: nat) -> nat {
        if self.has_trajectory(step) {
            self.impact_time(self.position.y)->0 / step + 1
        } else {
            0
        }
    }

    /// The position at the `k`-th sample, at the time `k * step`.
    pub open spec fn sample(self, step: nat, k: nat) -> Vector2 {
        self.advance(k * step).position
    }

    /// The positions from the launch to the impact, one every `step`.
    pub open spec fn trajectory(self, step: nat) -> Seq<Vector2> {
        Seq::new(self.sample_count(step), |k: int| self.sample(step, k as nat))
    }

    /// The state after advancing by each of `steps` in turn.
    pub open spec fn advance_each(self, steps: Seq<nat>) -> Flight
        decreases steps.len(),
    {
        if steps.len() == 0 {
            self
        } else {
            self.advance_each(steps.drop_last()).advance(steps.last())
        }
    }
}

/// The time that a list of steps takes in all.
pub open spec fn total(steps: Seq<nat>) -> nat
    decreases steps.len(),
{
    if steps.len() == 0 {
        0
    } else {
        total(steps.drop_last()) + steps.last()
    }
}

/// The outcome of asking when a projectile comes down.
#[derive(Debug, Copy, Clone, PartialEq, Eq, Structural)]
pub enum Impact {
    /// It reaches the ground at this time, rounded down to a step of
    /// `2^-32`.
    At(u64),
    /// It never lands.
    Never,
    /// It lands, but later than `u64` can tell: after more than `2^32`
    /// units of time.
    Beyond,
}

/// A projectile in flight.
#[derive(Debug, Copy, Clone, PartialEq, Eq, Structural)]
pub struct Projectile {
    /// Current position; x is the horizontal distance, y the height.
    pub position: Vec2D,
    /// Current velocity.
    pub velocity: Vec2D,
    /// Downward acceleration.
    pub gravity: i64,
}

impl View for Projectile {
    type V = Flight;

    open spec fn view(&self) -> Flight {
        Flight { position: self.position@, velocity: self.velocity@, gravity: self.gravity as int }
    }
}

/// A 64-bit quantity times a 64-bit time stays inside `i128`, with room to
/// add another 64-bit quantity.
proof fn lemma_product_fits(a: int, t: int)
    by (nonlinear_arith)
    requires
        -0x8000_0000_0000_0000 <= a <= 0x7fff_ffff_ffff_ffff,
        0 <= t <= 0xffff_ffff_ffff_ffff,
    ensures
        -0x7fff_ffff_ffff_ffff_8000_0000_0000_0000 <= a * t
            <= 0x7fff_ffff_ffff_ffff_0000_0000_0000_0000,
{
}

/// `a` divided by `2^32`, rounded down.
fn floor_to_step(a: i128) -> (q: i128)
    requires
        -0x7fff_ffff_ffff_ffff_8000_0000_0000_0000 <= a,
    ensures
        q == a / 0x1_0000_0000,
{
    if a >= 0 {
        a / 0x1_0000_0000
    } else {
        -((0xffff_ffff - a) / 0x1_0000_0000)
    }
}

impl Projectile {
    /// A projectile at the origin with the given velocity, under the given
    /// gravity.
    pub fn new(velocity: Vec2D, gravity: i64) -> (p: Projectile)
        ensures
            p.position@ == (Vector2 { x: 0, y: 0 }),
            p.velocity == velocity,
            p.gravity == gravity,
    {
        Projectile { position: Vec2D { x: 0, y: 0 }, velocity, gravity }
    }

    /// A projectile at the given launch point with the given velocity, under
    /// the given gravity.
    pub fn launch_from(position: Vec2D, velocity: Vec2D, gravity: i64) -> (p: Projectile)
        ensures
            p.position == position,
            p.velocity == velocity,
            p.gravity == gravity,
    {
        Projectile { position, velocity, gravity }
    }

    /// The position after the time `elapsed`, or `None` where one of its
    /// coordinates is no value of `i64`. The projectile itself is left as it
    /// is.
    pub fn position_at(&self, elapsed: u64) -> (r: Option<Vec2D>)
        ensures
            match r {
                Some(p) => p@ == self@.advance(elapsed as nat).position,
                None => !self@.advance(elapsed as nat).position.fits(),
            },
    {
        let t: i128 = elapsed as i128;
        let vx: i128 = self.velocity.x as i128;
        let vy: i128 = self.velocity.y as i128;
        let g: i128 = self.gravity as i128;
        proof {
            lemma_product_fits(vx as int, t as int);
            lemma_product_fits(g as int, t as int);
        }
        let x: i128 = self.position.x as i128 + floor_to_step(vx * t);
        let gt: i128 = g * t;
        let ghost rise = twice_rise(self@.fine_velocity(), g as int, t as int);
        if gt > 0x4000_0000_0000_0000_0000_0000_0000_0000 || gt
            < -0x4000_0000_0000_0000_0000_0000_0000_0000 {
            proof {
                lemma_far_out(vy as int, g as int, t as int);
            }
            return None;
        }
        let w: i128 = 0x2_0000_0000 * vy - gt;
        assert(w * t == rise) by (nonlinear_arith)
            requires
                w == 0x2_0000_0000 * vy - g * t,
                rise == 2 * (vy * 0x1_0000_0000) * t - g * t * t,
        ;
        let m: u128 = if w < 0 {
            (-w) as u128
        } else {
            w as u128
        };
        let product: (u128, u128) = mul_wide(m, elapsed as u128);
        let ghost whole = wide(product.0, product.1);
        assert(rise == whole || rise == -whole) by (nonlinear_arith)
            requires
                rise == w * t,
                whole == m * t,
                m == w || m == -w,
        ;
        if product.0 >= 4 {
            return None;
        }
        let q: u128 = product.0 * 0x8000_0000_0000_0000 + product.1 / 0x2_0000_0000_0000_0000;
        let delta: i128 = if w >= 0 {
            q as i128
        } else if product.1 % 0x2_0000_0000_0000_0000 == 0 {
            -(q as i128)
        } else {
            -(q as i128) - 1
        };
        assert(w >= 0 ==> rise == whole) by (nonlinear_arith)
            requires
                rise == w * t,
                whole == m * t,
                m == w || m == -w,
                t >= 0,
                w >= 0 ==> m == w,
        ;
        assert(w < 0 ==> rise == -whole) by (nonlinear_arith)
            requires
                rise == w * t,
                whole == m * t,
                w < 0 ==> m == -w,
        ;
        assert(delta == rise / 0x2_0000_0000_0000_0000);
        let y: i128 = self.position.y as i128 + delta;
        if x < -0x8000_0000_0000_0000 || x > 0x7fff_ffff_ffff_ffff || y < -0x8000_0000_0000_0000
            || y > 0x7fff_ffff_ffff_ffff {
            return None;
        }
        Some(Vec2D { x: x as i64, y: y as i64 })
    }

    /// Whether the projectile can be moved ahead by `time_delta`: whether the
    /// position and the velocity that it would have are made of values of
    /// `i64`.
    pub fn can_advance(&self, time_delta: u64) -> (r: bool)
        ensures
            r == self@.advance(time_delta as nat).fits(),
    {
        let g: i128 = self.gravity as i128;
        let t: i128 = time_delta as i128;
        proof {
            lemma_product_fits(g as int, t as int);
        }
        let vy: i128 = self.velocity.y as i128 - floor_to_step(g * t);
        -0x8000_0000_0000_0000 <= vy && vy <= 0x7fff_ffff_ffff_ffff && self.position_at(
            time_delta,
        ).is_some()
    }

    /// Moves the projectile ahead by `time_delta`: the position follows the
    /// closed form of the motion, the vertical velocity loses
    /// `gravity * time_delta`, the horizontal velocity and the gravity stay.
    /// The new state has to fit in `i64`, which `can_advance` tells.
    pub fn advance(&mut self, time_delta: u64)
        requires
            old(self)@.advance(time_delta as nat).fits(),
        ensures
            final(self)@ == old(self)@.advance(time_delta as nat),
    {
        let position: Vec2D = match self.position_at(time_delta) {
            Some(p) => p,
            // Never taken: the new position fits.
            None => self.position,
        };
        let g: i128 = self.gravity as i128;
        let t: i128 = time_delta as i128;
        proof {
            lemma_product_fits(g as int, t as int);
        }
        let vy: i128 = self.velocity.y as i128 - floor_to_step(g * t);
        self.position = position;
        self.velocity = Vec2D { x: self.velocity.x, y: vy as i64 };
    }

    /// The time of the impact for a launch from `launch_height` above the
    /// ground with the current velocity: the later root of the equation of
    /// the height, rounded down to a step of `2^-32`. `Never` without
    /// gravity, where the equation has no real root, and where its later
    /// root lies in the past; `Beyond` where the time is more than `u64`
    /// holds.
    pub fn time_to_impact(&self, launch_height: i64) -> (r: Impact)
        ensures
            match r {
                Impact::At(t) => self@.impact_time(launch_height as int) == Some(t as nat),
                Impact::Never => self@.impact_time(launch_height as int) is None,
                Impact::Beyond => self@.impact_time(launch_height as int) is Some
                    && self@.impact_time(launch_height as int)->0 > u64::MAX,
            },
    {
        let vy: i128 = self.velocity.y as i128;
        let g: i128 = self.gravity as i128;
        let h: i128 = launch_height as i128;
        if g == 0 {
            return Impact::Never;
        }
        let ghost d = discriminant(self@.fine_velocity(), g as int, Flight::fine_height(h as int));
        assert(0 <= vy * vy <= 0x4000_0000_0000_0000_0000_0000_0000_0000) by (nonlinear_arith)
            requires
                -0x8000_0000_0000_0000 <= vy <= 0x8000_0000_0000_0000,
        ;
        assert(-0x4000_0000_0000_0000_0000_0000_0000_0000 <= g * h
            <= 0x4000_0000_0000_0000_0000_0000_0000_0000) by (nonlinear_arith)
            requires
                -0x8000_0000_0000_0000 <= g <= 0x8000_0000_0000_0000,
                -0x8000_0000_0000_0000 <= h <= 0x8000_0000_0000_0000,
        ;
        let squared: u128 = (vy * vy) as u128;
        let gh: i128 = g * h;
        assert(d == 0x1_0000_0000_0000_0000 * (squared + 2 * gh)) by (nonlinear_arith)
            requires
                d == (vy * 0x1_0000_0000) * (vy * 0x1_0000_0000) + 2 * g * (h
                    * 0x1_0000_0000_0000_0000),
                squared == vy * vy,
                gh == g * h,
        ;
        let inner: u128 = if gh >= 0 {
            squared + 2 * (gh as u128)
        } else {
            let drop: u128 = 2 * ((-gh) as u128);
            if drop > squared {
                return Impact::Never;
            }
            squared - drop
        };
        let shifted: (u128, u128) = mul_wide(inner, 0x1_0000_0000_0000_0000);
        assert(wide(shifted.0, shifted.1) == d) by (nonlinear_arith)
            requires
                wide(shifted.0, shifted.1) == inner * 0x1_0000_0000_0000_0000,
                d == 0x1_0000_0000_0000_0000 * (squared + 2 * gh),
                inner == squared + 2 * gh,
        ;
        let s: u128 = isqrt_wide(shifted.0, shifted.1);
        assert(s < 0x1_0000_0000_0000_0000_0000_0000) by (nonlinear_arith)
            requires
                s * s <= d,
                d == 0x1_0000_0000_0000_0000 * inner,
                inner <= 0xffff_ffff_ffff_ffff_ffff_ffff_ffff_ffff,
        ;
        let fine: i128 = vy * 0x1_0000_0000;
        let reach: i128 = s as i128 + (if g > 0 {
            fine
        } else {
            -fine
        });
        if reach < 0 {
            return Impact::Never;
        }
        let pull: i128 = if g > 0 {
            g
        } else {
            -g
        };
        let t: u128 = (reach as u128) / (pull as u128);
        if t > 0xffff_ffff_ffff_ffff {
            return Impact::Beyond;
        }
        Impact::At(t as u64)
    }

    /// The positions from the launch to the impact, one every `time_step`,
    /// each computed from the launch state. `None` where there is no such
    /// list: the step is zero, the projectile, launched from its own
    /// height, never lands or lands later than `u64` can tell, or one of the
    /// positions has a coordinate that is no value of `i64`. The projectile
    /// itself is left as it is.
    pub fn trajectory(&self, time_step: u64) -> (r: Option<Vec<Vec2D>>)
        ensures
            match r {
                Some(v) => {
                    &&& self@.has_trajectory(time_step as nat)
                    &&& v@.len() == self@.trajectory(time_step as nat).len()
                    &&& forall|k: int|
                        0 <= k < v@.len() ==> (#[trigger] v@[k])@ == self@.trajectory(
                            time_step as nat,
                        )[k]
                },
                None => !self@.has_trajectory(time_step as nat) || exists|k: nat|
                    k < self@.sample_count(time_step as nat) && !(#[trigger] self@.sample(
                        time_step as nat,
                        k,
                    )).fits(),
            },
    {
        if time_step == 0 {
            return None;
        }
        let last: u64 = match self.time_to_impact(self.position.y) {
            Impact::At(t) => t,
            Impact::Never => {
                return None;
            },
            Impact::Beyond => {
                return None;
            },
        };
        let ghost step = time_step as nat;
        let ghost count = self@.sample_count(step);
        let mut out: Vec<Vec2D> = Vec::new();
        let mut t: u64 = 0;
        proof {
            lemma_samples_before(0, step, last as nat);
        }
        loop
            invariant_except_break
                t == out@.len() * step,
                t <= last,
                out@.len() < count,
            invariant
                step == time_step,
                step > 0,
                self@.has_trajectory(step),
                count == self@.sample_count(step),
                count == (last as nat) / step + 1,
                forall|k: int|
                    0 <= k < out@.len() ==> (#[trigger] out@[k])@ == self@.sample(step, k as nat),
            ensures
                out@.len() == count,
            decreases last - t,
        {
            let ghost k = out@.len();
            match self.position_at(t) {
                Some(p) => {
                    out.push(p);
                },
                None => {
                    assert(!self@.sample(step, k).fits());
                    return None;
                },
            }
            if last - t < time_step {
                proof {
                    lemma_samples_last(k, step, last as nat);
                }
                break ;
            }
            t = t + time_step;
            proof {
                assert((k + 1) * step == k * step + step) by (nonlinear_arith);
                lemma_samples_before(k + 1, step, last as nat);
            }
        }
        Some(out)
    }
}

/// Where gravity times the time is beyond `2^126`, the height is far
/// outside `i64`.
proof fn lemma_far_out(vy: int, g: int, t: int)
    requires
        -0x8000_0000_0000_0000 <= vy <= 0x7fff_ffff_ffff_ffff,
        -0x8000_0000_0000_0000 <= g <= 0x7fff_ffff_ffff_ffff,
        0 <= t <= 0xffff_ffff_ffff_ffff,
        g * t > 0x4000_0000_0000_0000_0000_0000_0000_0000 || g * t
            < -0x4000_0000_0000_0000_0000_0000_0000_0000,
    ensures
        twice_rise(vy * 0x1_0000_0000, g, t) / 0x2_0000_0000_0000_0000
            > 0x1_0000_0000_0000_0000_0000 || twice_rise(vy * 0x1_0000_0000, g, t)
            / 0x2_0000_0000_0000_0000 < -0x1_0000_0000_0000_0000_0000,
{
    let gt = g * t;
    let w = 0x2_0000_0000 * vy - gt;
    let rise = twice_rise(vy * 0x1_0000_0000, g, t);
    assert(w * t == rise) by (nonlinear_arith)
        requires
            w == 0x2_0000_0000 * vy - g * t,
            rise == 2 * (vy * 0x1_0000_0000) * t - g * t * t,
    ;
    assert(t >= 0x4000_0000_0000_0000) by (nonlinear_arith)
        requires
            -0x8000_0000_0000_0000 <= g <= 0x7fff_ffff_ffff_ffff,
            0 <= t,
            g * t > 0x4000_0000_0000_0000_0000_0000_0000_0000 || g * t
                < -0x4000_0000_0000_0000_0000_0000_0000_0000,
    ;
    assert(rise > 0x4000_0000_0000_0000_0000_0000_0000_0000_0000_0000 || rise
        < -0x4000_0000_0000_0000_0000_0000_0000_0000_0000_0000) by (nonlinear_arith)
        requires
            rise == w * t,
            t >= 0x4000_0000_0000_0000,
            w > 0x2000_0000_0000_0000_0000_0000_0000_0000 || w
                < -0x2000_0000_0000_0000_0000_0000_0000_0000,
    ;
}

/// A sample taken no later than the time `last` is one of the first
/// `last / step + 1`.
proof fn lemma_samples_before(k: nat, step: nat, last: nat)
    requires
        step > 0,
        k * step <= last,
    ensures
        k < last / step + 1,
{
    vstd::arithmetic::div_mod::lemma_div_by_multiple(k as int, step as int);
    vstd::arithmetic::div_mod::lemma_div_is_ordered((k * step) as int, last as int, step as int);
}

/// The sample after which the next one would fall behind the time `last`
/// is number `last / step`.
proof fn lemma_samples_last(k: nat, step: nat, last: nat)
    requires
        step > 0,
        k * step <= last < k * step + step,
    ensures
        k == last / step,
{
    vstd::arithmetic::div_mod::lemma_fundamental_div_mod_converse(
        last as int,
        step as int,
        k as int,
        last - k * step,
    );
}

/// However the time is cut into steps, and whatever the gravity: gravity
/// stays what it is, the horizontal velocity does not change, and the
/// horizontal displacement is the horizontal velocity times the time
/// elapsed, short of it by less than one step of `2^-32` for each step of
/// time taken.
pub proof fn lemma_steps(f: Flight, steps: Seq<nat>)
    ensures
        f.advance_each(steps).gravity == f.gravity,
        f.advance_each(steps).velocity.x == f.velocity.x,
        0x1_0000_0000 * (f.advance_each(steps).position.x - f.position.x) <= f.velocity.x * total(
            steps,
        ) <= 0x1_0000_0000 * (f.advance_each(steps).position.x - f.position.x) + 0xffff_ffff
            * steps.len(),
    decreases steps.len(),
{
    if steps.len() == 0 {
        assert(f.velocity.x * 0 == 0);
    } else {
        let before = steps.drop_last();
        let dt = steps.last();
        lemma_steps(f, before);
        assert(f.velocity.x * (total(before) + dt) == f.velocity.x * total(before) + f.velocity.x
            * dt) by (nonlinear_arith);
    }
}

/// Without gravity the velocity never changes, over any number of steps,
/// and both coordinates grow linearly with the time elapsed: each
/// displacement is the velocity times that time, short of it by less than
/// one step of `2^-32` for each step of time taken.
pub proof fn lemma_no_gravity(f: Flight, steps: Seq<nat>)
    requires
        f.gravity == 0,
    ensures
        f.advance_each(steps).velocity == f.velocity,
        0x1_0000_0000 * (f.advance_each(steps).position.x - f.position.x) <= f.velocity.x * total(
            steps,
        ) <= 0x1_0000_0000 * (f.advance_each(steps).position.x - f.position.x) + 0xffff_ffff
            * steps.len(),
        0x1_0000_0000 * (f.advance_each(steps).position.y - f.position.y) <= f.velocity.y * total(
            steps,
        ) <= 0x1_0000_0000 * (f.advance_each(steps).position.y - f.position.y) + 0xffff_ffff
            * steps.len(),
    decreases steps.len(),
{
    lemma_steps(f, steps);
    if steps.len() == 0 {
        assert(f.velocity.y * 0 == 0);
    } else {
        let before = steps.drop_last();
        let dt = steps.last();
        let vy = f.velocity.y;
        lemma_no_gravity(f, before);
        let a = vy * dt;
        assert(twice_rise(vy * 0x1_0000_0000, 0, dt as int) == 0x2_0000_0000 * a && 0 * dt == 0)
            by (nonlinear_arith)
            requires
                a == vy * dt,
        ;
        assert((0x2_0000_0000 * a) / 0x2_0000_0000_0000_0000 == a / 0x1_0000_0000);
        assert(vy * (total(before) + dt) == vy * total(before) + vy * dt) by (nonlinear_arith);
    }
}

/// What one more step of time adds to twice the height gained.
pub proof fn lemma_rise_step(vy: int, g: int, t: int)
    ensures
        twice_rise(vy, g, t + 1) - twice_rise(vy, g, t) == 2 * vy - g * (2 * t + 1),
{
    assert(twice_rise(vy, g, t + 1) - twice_rise(vy, g, t) == 2 * vy - g * (2 * t + 1))
        by (nonlinear_arith);
}

/// What the time from `t1` to `t2` adds to twice the height gained: its
/// length times twice the vertical velocity in the middle of it.
pub proof fn lemma_rise_between(vy: int, g: int, t1: int, t2: int)
    ensures
        twice_rise(vy, g, t2) - twice_rise(vy, g, t1) == (t2 - t1) * (2 * vy - g * (t1 + t2)),
{
    let d = t2 - t1;
    let u = t1 + t2;
    assert(t2 * t2 - t1 * t1 == d * u) by (nonlinear_arith)
        requires
            d == t2 - t1,
            u == t1 + t2,
    ;
    assert(2 * vy * t2 - 2 * vy * t1 == d * (2 * vy)) by (nonlinear_arith)
        requires
            d == t2 - t1,
    ;
    assert(g * t2 * t2 - g * t1 * t1 == g * (t2 * t2 - t1 * t1)) by (nonlinear_arith);
    assert(g * (d * u) == d * (g * u)) by (nonlinear_arith);
    assert(d * (2 * vy) - d * (g * u) == d * (2 * vy - g * u)) by (nonlinear_arith);
}

/// The exact height has a single peak. Under downward gravity, of any two
/// times up to the peak, at `vy / g`, the later is strictly higher, and of
/// any two from the peak on, strictly lower.
pub proof fn lemma_exact_height_profile(vy: int, g: int, t1: nat, t2: nat)
    requires
        g > 0,
        t1 < t2,
    ensures
        g * t2 <= vy ==> twice_rise(vy, g, t1 as int) < twice_rise(vy, g, t2 as int),
        g * t1 >= vy ==> twice_rise(vy, g, t1 as int) > twice_rise(vy, g, t2 as int),
{
    lemma_rise_between(vy, g, t1 as int, t2 as int);
    let d = t2 - t1;
    let m = 2 * vy - g * (t1 + t2);
    assert(g * (t1 + t2) == g * t1 + g * t2 && g * t1 + g <= g * t2) by (nonlinear_arith)
        requires
            g > 0,
            t1 + 1 <= t2,
    ;
    if g * t2 <= vy {
        assert(d * m > 0) by (nonlinear_arith)
            requires
                d >= 1,
                m >= 1,
        ;
    }
    if g * t1 >= vy {
        assert(d * m < 0) by (nonlinear_arith)
            requires
                d >= 1,
                m <= -1,
        ;
    }
}

/// The height is the exact height rounded down to a step: `2^65` times the
/// height is at most the exact height in its own units, and less than one
/// step below it.
pub proof fn lemma_height_is_rounded(f: Flight, t: nat)
    ensures
        0x2_0000_0000_0000_0000 * f.height_at(t) <= f.exact_height(t as int)
            < 0x2_0000_0000_0000_0000 * (f.height_at(t) + 1),
{
}

/// The flight has a single peak. Under downward gravity, of two times up to
/// the peak the later is strictly higher on the exact height, and not lower
/// once rounded to steps; of two times from the peak on it is strictly
/// lower, and not higher once rounded. Rounded heights differ wherever the
/// exact heights differ by a step of `2^-32` or more.
pub proof fn lemma_height_between(f: Flight, t1: nat, t2: nat)
    requires
        f.gravity > 0,
        t1 < t2,
    ensures
        f.gravity * t2 <= f.fine_velocity() ==> f.exact_height(t1 as int) < f.exact_height(
            t2 as int,
        ) && f.height_at(t1) <= f.height_at(t2),
        f.gravity * t1 >= f.fine_velocity() ==> f.exact_height(t1 as int) > f.exact_height(
            t2 as int,
        ) && f.height_at(t1) >= f.height_at(t2),
        f.exact_height(t2 as int) - f.exact_height(t1 as int) >= 0x2_0000_0000_0000_0000
            ==> f.height_at(t1) < f.height_at(t2),
        f.exact_height(t1 as int) - f.exact_height(t2 as int) >= 0x2_0000_0000_0000_0000
            ==> f.height_at(t1) > f.height_at(t2),
{
    lemma_exact_height_profile(f.fine_velocity(), f.gravity, t1, t2);
    lemma_height_is_rounded(f, t1);
    lemma_height_is_rounded(f, t2);
}

/// Gravity times twice the height, written with the discriminant: the form
/// from which the roots are read.
proof fn lemma_completed_square(vy: int, g: int, h: int, t: int)
    ensures
        g * (2 * h + twice_rise(vy, g, t)) == discriminant(vy, g, h) - (g * t - vy) * (g * t
            - vy),
{
    let gt = g * t;
    let up = 2 * vy * t;
    let down = g * t * t;
    assert(g * (2 * h) == 2 * g * h) by (nonlinear_arith);
    assert(g * up == 2 * (vy * gt)) by (nonlinear_arith)
        requires
            up == 2 * vy * t,
            gt == g * t,
    ;
    assert(g * down == gt * gt) by (nonlinear_arith)
        requires
            down == g * t * t,
            gt == g * t,
    ;
    assert((gt - vy) * (gt - vy) == gt * gt - 2 * (vy * gt) + vy * vy) by (nonlinear_arith);
    assert(g * (2 * h + (up - down)) == g * (2 * h) + g * up - g * down) by (nonlinear_arith);
}

/// From the launch to the impact the projectile is never below the ground.
/// Under downward gravity, launched from the ground or above it: at no time
/// up to the impact is the height negative, exactly or rounded.
pub proof fn lemma_flight_above_ground(f: Flight, t: nat)
    requires
        f.gravity > 0,
        f.position.y >= 0,
        t <= f.impact_time(f.position.y)->0,
    ensures
        f.impact_time(f.position.y) is Some,
        f.exact_height(t as int) >= 0,
        f.height_at(t) >= 0,
{
    let vy = f.fine_velocity();
    let g = f.gravity;
    let h = Flight::fine_height(f.position.y);
    let d = discriminant(vy, g, h);
    let u = t as int;
    assert(d >= vy * vy && vy * vy >= 0) by (nonlinear_arith)
        requires
            d == vy * vy + 2 * g * h,
            g > 0,
            h >= 0,
    ;
    let s = floor_sqrt(d as nat);
    crate::sqrt::lemma_floor_sqrt(d as nat);
    assert(s + vy >= 0 && s - vy >= 0) by (nonlinear_arith)
        requires
            d >= vy * vy,
            d < (s + 1) * (s + 1),
            s >= 0,
    ;
    let reach = s + vy;
    let last = reach / g;
    vstd::arithmetic::div_mod::lemma_fundamental_div_mod(reach, g);
    vstd::arithmetic::div_mod::lemma_mod_pos_bound(reach, g);
    vstd::arithmetic::div_mod::lemma_div_pos_is_pos(reach, g);
    assert(f.impact_time(f.position.y) == Some(last as nat));
    let e = g * u - vy;
    assert(-vy <= e <= s) by (nonlinear_arith)
        requires
            e == g * u - vy,
            0 <= u <= last,
            reach == g * last + reach % g,
            0 <= reach % g,
            reach == s + vy,
            g > 0,
    {
        assert(g * u <= g * last);
        assert(g * u >= 0);
    }
    assert(0 <= e * e <= d) by (nonlinear_arith)
        requires
            -vy <= e <= s,
            s + vy >= 0,
            s - vy >= 0,
            s * s <= d,
            vy * vy <= d,
    {
        if e >= 0 {
            assert(e * e <= s * s);
        } else {
            assert(e * e <= vy * vy);
        }
    }
    lemma_completed_square(vy, g, h, u);
    let rise = twice_rise(vy, g, u);
    assert(2 * h + rise >= 0) by (nonlinear_arith)
        requires
            g * (2 * h + rise) == d - e * e,
            e * e <= d,
            g > 0,
    ;
    lemma_height_is_rounded(f, t);
}

/// The closed form agrees with the flight itself. Under downward gravity,
/// launched from the ground or above it, a projectile comes down, and the
/// exact height passes through zero within the step of time that starts at
/// the reported time: there it is still at or above the ground, and one
/// step of `2^-32` later it is below, exactly and rounded. So the height
/// at the reported time is less than what the projectile falls in one step
/// of time.
pub proof fn lemma_impact_matches_flight(f: Flight)
    requires
        f.gravity > 0,
        f.position.y >= 0,
    ensures
        f.impact_time(f.position.y) is Some,
        f.exact_height(f.impact_time(f.position.y)->0 as int) >= 0,
        f.exact_height((f.impact_time(f.position.y)->0 + 1) as int) < 0,
        f.height_at(f.impact_time(f.position.y)->0) >= 0,
        f.height_at(f.impact_time(f.position.y)->0 + 1) < 0,
        f.exact_height(f.impact_time(f.position.y)->0 as int) < f.gravity * (2 * f.impact_time(
            f.position.y,
        )->0 + 1) - 2 * f.fine_velocity(),
{
    let vy = f.fine_velocity();
    let g = f.gravity;
    let h = Flight::fine_height(f.position.y);
    let d = discriminant(vy, g, h);
    assert(d >= vy * vy && vy * vy >= 0) by (nonlinear_arith)
        requires
            d == vy * vy + 2 * g * h,
            g > 0,
            h >= 0,
    ;
    let s = floor_sqrt(d as nat);
    crate::sqrt::lemma_floor_sqrt(d as nat);
    lemma_rise_step(vy, g, (s + vy) / g);
    assert(s + vy >= 0) by (nonlinear_arith)
        requires
            d >= vy * vy,
            d < (s + 1) * (s + 1),
            s >= 0,
    ;
    let reach = s + vy;
    let t = reach / g;
    vstd::arithmetic::div_mod::lemma_fundamental_div_mod(reach, g);
    vstd::arithmetic::div_mod::lemma_mod_pos_bound(reach, g);
    vstd::arithmetic::div_mod::lemma_div_pos_is_pos(reach, g);
    assert(f.impact_time(f.position.y) == Some(t as nat));
    lemma_flight_above_ground(f, t as nat);
    let e = g * (t + 1) - vy;
    assert(e >= s + 1) by (nonlinear_arith)
        requires
            e == g * (t + 1) - vy,
            reach == g * t + reach % g,
            reach % g < g,
            reach == s + vy,
    ;
    assert(e * e > d) by (nonlinear_arith)
        requires
            e >= s + 1,
            s >= 0,
            d < (s + 1) * (s + 1),
    ;
    lemma_completed_square(vy, g, h, t + 1);
    assert(2 * h + twice_rise(vy, g, t + 1) < 0) by (nonlinear_arith)
        requires
            g * (2 * h + twice_rise(vy, g, t + 1)) == d - e * e,
            e * e > d,
            g > 0,
    ;
    lemma_height_is_rounded(f, (t + 1) as nat);
}

/// No other time looks like the impact. Under downward gravity, a time at
/// which the projectile is at or above the ground while one step of `2^-32`
/// later it is below is the time that the closed form gives.
pub proof fn lemma_impact_is_last_time_above(f: Flight, t: nat)
    requires
        f.gravity > 0,
        f.height_at(t) >= 0,
        f.height_at(t + 1) < 0,
    ensures
        f.impact_time(f.position.y) == Some(t),
{
    let vy = f.fine_velocity();
    let g = f.gravity;
    let h = Flight::fine_height(f.position.y);
    let d = discriminant(vy, g, h);
    let u = t as int;
    let e = g * u - vy;
    let e1 = g * (u + 1) - vy;
    lemma_height_is_rounded(f, t);
    lemma_height_is_rounded(f, t + 1);
    lemma_completed_square(vy, g, h, u);
    lemma_completed_square(vy, g, h, u + 1);
    assert(e * e <= d) by (nonlinear_arith)
        requires
            g * (2 * h + twice_rise(vy, g, u)) == d - e * e,
            2 * h + twice_rise(vy, g, u) >= 0,
            g > 0,
    ;
    assert(e1 * e1 > d) by (nonlinear_arith)
        requires
            g * (2 * h + twice_rise(vy, g, u + 1)) == d - e1 * e1,
            2 * h + twice_rise(vy, g, u + 1) < 0,
            g > 0,
    ;
    assert(d >= 0) by (nonlinear_arith)
        requires
            e * e <= d,
    ;
    let s = floor_sqrt(d as nat);
    crate::sqrt::lemma_floor_sqrt(d as nat);
    assert(e1 == e + g) by (nonlinear_arith)
        requires
            e == g * u - vy,
            e1 == g * (u + 1) - vy,
    ;
    assert(-s <= e <= s) by (nonlinear_arith)
        requires
            e * e <= d,
            d < (s + 1) * (s + 1),
            s >= 0,
    ;
    assert(e1 > s) by (nonlinear_arith)
        requires
            e1 * e1 > d,
            s * s <= d,
            e1 > -s,
            s >= 0,
    ;
    let reach = s + vy;
    assert(g * u >= 0) by (nonlinear_arith)
        requires
            g > 0,
            u >= 0,
    ;
    vstd::arithmetic::div_mod::lemma_fundamental_div_mod_converse(reach, g, u, reach - g * u);
}

/// Where the impact falls on a step of time, the height there is zero.
/// Under downward gravity, launched from the ground or above it: if the
/// discriminant is the square of `s` and gravity divides `s + vy`, the
/// impact is at `(s + vy) / g` and the projectile is on the ground then,
/// exactly and rounded.
pub proof fn lemma_impact_on_the_step(f: Flight, s: nat)
    requires
        f.gravity > 0,
        f.position.y >= 0,
        discriminant(f.fine_velocity(), f.gravity, Flight::fine_height(f.position.y)) == s * s,
        (s + f.fine_velocity()) % f.gravity == 0,
    ensures
        f.impact_time(f.position.y) == Some(((s + f.fine_velocity()) / f.gravity) as nat),
        f.exact_height((s + f.fine_velocity()) / f.gravity) == 0,
        f.height_at(((s + f.fine_velocity()) / f.gravity) as nat) == 0,
{
    let vy = f.fine_velocity();
    let g = f.gravity;
    let h = Flight::fine_height(f.position.y);
    let d = discriminant(vy, g, h);
    assert(d >= vy * vy && vy * vy >= 0) by (nonlinear_arith)
        requires
            d == vy * vy + 2 * g * h,
            g > 0,
            h >= 0,
    ;
    assert(s * s < (s + 1) * (s + 1)) by (nonlinear_arith);
    crate::sqrt::lemma_floor_sqrt_is(d as nat, s);
    assert(s + vy >= 0) by (nonlinear_arith)
        requires
            s * s >= vy * vy,
            s >= 0,
    ;
    let reach = s + vy;
    let t = reach / g;
    vstd::arithmetic::div_mod::lemma_fundamental_div_mod(reach, g);
    vstd::arithmetic::div_mod::lemma_div_pos_is_pos(reach, g);
    assert(f.impact_time(f.position.y) == Some(t as nat));
    lemma_completed_square(vy, g, h, t);
    let e = g * t - vy;
    assert(e == s);
    assert(2 * h + twice_rise(vy, g, t) == 0) by (nonlinear_arith)
        requires
            g * (2 * h + twice_rise(vy, g, t)) == d - e * e,
            d == s * s,
            e == s,
            g > 0,
    ;
    lemma_height_is_rounded(f, t as nat);
}

} // verus!
