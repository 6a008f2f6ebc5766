//! Per-entity physics: velocity/position integration, wall resolution and
//! pairwise impulse response, all in exact integer arithmetic.
//!
//! Fractional factors (friction, the time step) are rationals `num / den`
//! applied by a sign-preserving truncating division, so every contract can
//! state the resulting value exactly. Positions are clamped into the
//! position bound; the clamp exists only to keep the math total and never
//! fires for arena-sized coordinates.

use vstd::prelude::*;
use crate::geometry::COORD_LIMIT;
use crate::geometry::POS_LIMIT;
use crate::geometry::Vec2;
use crate::geometry::clamp_coord;
use crate::geometry::clamp_spec;

verus! {

/// Largest velocity magnitude a body may carry.
pub const VEL_LIMIT: i64 = 8388608;

/// Largest mass-equivalent of a body.
pub const MASS_LIMIT: i64 = 1048576;

/// Largest magnitude of the gravity acceleration per step.
pub const GRAV_LIMIT: i64 = 1048576;

/// Largest denominator (and numerator) of a configured rational factor.
pub const DEN_LIMIT: i64 = 1000000;

/// Ticks per second: time steps are given in these units.
pub const TIME_SCALE: i64 = 1000;

/// Host-supplied configuration constants for the integrator and the
/// collision response.
#[derive(Clone, Copy, Debug, PartialEq, Eq, Structural)]
pub struct PhysicsConfig {
    /// Added to the y velocity each step.
    pub gravity: i64,
    /// Per-step velocity damping factor, `friction_num / friction_den`.
    pub friction_num: i64,
    pub friction_den: i64,
    /// Damping applied to the velocity exchanged in a collision.
    pub collision_friction_num: i64,
    pub collision_friction_den: i64,
}

impl PhysicsConfig {
    pub open spec fn wf(self) -> bool {
        &&& -GRAV_LIMIT <= self.gravity <= GRAV_LIMIT
        &&& 1 <= self.friction_den <= DEN_LIMIT
        &&& 0 <= self.friction_num <= self.friction_den
        &&& 1 <= self.collision_friction_den <= DEN_LIMIT
        &&& 0 <= self.collision_friction_num <= self.collision_friction_den
    }
}

/// The physics state of one body: its velocity and its mass-equivalent
/// (for circles, derived from the squared radius).
#[derive(Clone, Copy, Debug, PartialEq, Eq, Structural)]
pub struct Physics {
    pub velocity: Vec2,
    pub mass: i64,
}

/// Truncating (toward zero) division of `n` by a positive `d`.
pub open spec fn div_tz(n: int, d: int) -> int {
    if n >= 0 {
        n / d
    } else {
        -((-n) / d)
    }
}

/// `v` scaled by the rational `num / den`, rounding toward zero.
pub open spec fn scale_spec(v: int, num: int, den: int) -> int {
    div_tz(v * num, den)
}

/// `v` clamped into the velocity bound.
pub open spec fn clamp_vel_spec(v: int) -> int {
    if v < -VEL_LIMIT {
        -VEL_LIMIT as int
    } else if v > VEL_LIMIT {
        VEL_LIMIT as int
    } else {
        v
    }
}

/// Dividing a bounded value by a positive divisor keeps the magnitude.
proof fn lemma_div_tz_bound(n: int, d: int, bound: int)
    requires
        1 <= d,
        0 <= bound,
        -bound <= n <= bound,
    ensures
        -bound <= div_tz(n, d) <= bound,
        n >= 0 ==> 0 <= div_tz(n, d),
        n <= 0 ==> div_tz(n, d) <= 0,
{
    if n >= 0 {
        assert(0 <= n / d <= n) by (nonlinear_arith)
            requires
                n >= 0,
                d >= 1,
        ;
    } else {
        assert(0 <= (-n) / d <= -n) by (nonlinear_arith)
            requires
                -n >= 0,
                d >= 1,
        ;
    }
}

/// Exec truncating division by a positive divisor.
fn div_tz_exec(n: i64, d: i64) -> (r: i64)
    requires
        1 <= d,
        -0x4000000000000000 <= n <= 0x4000000000000000,
    ensures
        r == div_tz(n as int, d as int),
        n >= 0 ==> 0 <= r <= n,
        n <= 0 ==> n <= r <= 0,
{
    proof {
        lemma_div_tz_bound(n as int, d as int, 0x4000000000000000);
    }
    if n >= 0 {
        n / d
    } else {
        -((-n) / d)
    }
}

/// A quotient bound: if `|n| <= q * d` then `|div_tz(n, d)| <= q`.
proof fn lemma_div_tz_quotient_bound(n: int, d: int, q: int)
    requires
        1 <= d,
        0 <= q,
        -(q * d) <= n <= q * d,
    ensures
        -q <= div_tz(n, d) <= q,
{
    if n >= 0 {
        assert(0 <= n / d <= q) by (nonlinear_arith)
            requires
                1 <= d,
                0 <= n <= q * d,
        ;
    } else {
        assert(0 <= (-n) / d <= q) by (nonlinear_arith)
            requires
                1 <= d,
                0 < -n,
                -(q * d) <= n,
        ;
    }
}

/// Scaling by a factor of at most one never grows the magnitude.
pub proof fn lemma_scale_spec_bound(v: int, num: int, den: int)
    requires
        1 <= den,
        0 <= num <= den,
    ensures
        v >= 0 ==> 0 <= scale_spec(v, num, den) <= v,
        v <= 0 ==> v <= scale_spec(v, num, den) <= 0,
{
    let q: int = if v >= 0 {
        v
    } else {
        -v
    };
    assert(-(q * den) <= v * num <= q * den && (v >= 0 ==> v * num >= 0) && (v <= 0 ==> v * num
        <= 0)) by (nonlinear_arith)
        requires
            0 <= num <= den,
            1 <= den,
            q == (if v >= 0 {
                v
            } else {
                -v
            }),
    ;
    lemma_div_tz_quotient_bound(v * num, den, q);
}

/// Exec scaling by a rational factor, rounding toward zero.
fn scale(v: i64, num: i64, den: i64) -> (r: i64)
    requires
        1 <= den <= DEN_LIMIT,
        0 <= num <= DEN_LIMIT,
        -8 * COORD_LIMIT <= v <= 8 * COORD_LIMIT,
    ensures
        r == scale_spec(v as int, num as int, den as int),
        v >= 0 ==> r >= 0,
        v <= 0 ==> r <= 0,
        num <= den ==> -8 * COORD_LIMIT <= r <= 8 * COORD_LIMIT && (v >= 0 ==> r <= v) && (v <= 0
            ==> v <= r),
{
    proof {
        assert(-0x4000000000000000 <= v * num <= 0x4000000000000000 && (v >= 0 ==> v * num >= 0)
            && (v <= 0 ==> v * num <= 0)) by (nonlinear_arith)
            requires
                -8 * COORD_LIMIT <= v <= 8 * COORD_LIMIT,
                0 <= num <= DEN_LIMIT,
        ;
        if num <= den {
            let q: int = if v >= 0 {
                v as int
            } else {
                -v as int
            };
            assert(-(q * den) <= v * num <= q * den) by (nonlinear_arith)
                requires
                    0 <= num <= den,
                    q == (if v >= 0 {
                        v as int
                    } else {
                        -v as int
                    }),
            ;
            lemma_div_tz_quotient_bound(v * num, den as int, q);
        }
    }
    div_tz_exec(v * num, den)
}

/// The ceiling (away from zero) share of the separation `o` that a body of
/// the opposing mass `mb` takes, out of the mass sum `msum`.
pub open spec fn share_spec(o: int, mb: int, msum: int) -> int {
    if o >= 0 {
        (o * mb + msum - 1) / msum
    } else {
        -(((-o) * mb + msum - 1) / msum)
    }
}

/// Exec computation of [`share_spec`].
fn share(o: i64, mb: i64, msum: i64) -> (r: i64)
    requires
        1 <= mb <= MASS_LIMIT,
        2 <= msum <= 2 * MASS_LIMIT,
        mb < msum,
        -4 * COORD_LIMIT <= o <= 4 * COORD_LIMIT,
    ensures
        r == share_spec(o as int, mb as int, msum as int),
        o >= 0 ==> 0 <= r <= o,
        o <= 0 ==> o <= r <= 0,
{
    proof {
        assert(0 <= 4 * COORD_LIMIT * mb + msum - 1 <= 0x4000000000000000) by (nonlinear_arith)
            requires
                1 <= mb <= MASS_LIMIT,
                2 <= msum <= 2 * MASS_LIMIT,
        ;
        assert(o >= 0 ==> 0 <= o * mb + msum - 1 <= 4 * COORD_LIMIT * mb + msum - 1)
            by (nonlinear_arith)
            requires
                o <= 4 * COORD_LIMIT,
                1 <= mb,
                2 <= msum,
        ;
        assert(o <= 0 ==> 0 <= (-o) * mb + msum - 1 <= 4 * COORD_LIMIT * mb + msum - 1)
            by (nonlinear_arith)
            requires
                -4 * COORD_LIMIT <= o,
                1 <= mb,
                2 <= msum,
        ;
        assert(o >= 0 ==> 0 <= (o * mb + msum - 1) / (msum as int) <= o) by (nonlinear_arith)
            requires
                1 <= mb < msum,
                2 <= msum,
                o >= 0 ==> 0 <= o,
        ;
        assert(o <= 0 ==> 0 <= ((-o) * mb + msum - 1) / (msum as int) <= -o) by (nonlinear_arith)
            requires
                1 <= mb < msum,
                2 <= msum,
        ;
    }
    if o >= 0 {
        (o * mb + msum - 1) / msum
    } else {
        -(((-o) * mb + msum - 1) / msum)
    }
}

/// The post-collision velocity of a body along the collision axis: a 1D
/// elastic exchange with the opposing body, damped by the collision
/// friction and clamped into the velocity bound.
pub open spec fn exchange_spec(va: int, vb: int, ma: int, mb: int, cfg: PhysicsConfig) -> int {
    clamp_vel_spec(
        scale_spec(
            div_tz((ma - mb) * va + 2 * mb * vb, ma + mb),
            cfg.collision_friction_num as int,
            cfg.collision_friction_den as int,
        ),
    )
}

/// The outcome of one single-perspective pairwise resolution: the new own
/// position and physics state, given the counterpart's snapshot and the
/// separation vector `o`.
pub open spec fn resolve_single_spec(
    ph: Physics,
    pos: Vec2,
    other: Physics,
    o: Vec2,
    cfg: PhysicsConfig,
) -> (Vec2, Physics) {
    let npos = Vec2 {
        x: clamp_spec(pos.x + share_spec(o.x as int, other.mass as int, ph.mass + other.mass)) as i64,
        y: clamp_spec(pos.y + share_spec(o.y as int, other.mass as int, ph.mass + other.mass)) as i64,
    };
    let nvel = if o.x != 0 {
        Vec2 {
            x: exchange_spec(
                ph.velocity.x as int,
                other.velocity.x as int,
                ph.mass as int,
                other.mass as int,
                cfg,
            ) as i64,
            y: ph.velocity.y,
        }
    } else if o.y != 0 {
        Vec2 {
            x: ph.velocity.x,
            y: exchange_spec(
                ph.velocity.y as int,
                other.velocity.y as int,
                ph.mass as int,
                other.mass as int,
                cfg,
            ) as i64,
        }
    } else {
        ph.velocity
    };
    (npos, Physics { velocity: nvel, mass: ph.mass })
}

impl Physics {
    /// Velocity and mass are within their bounds.
    pub open spec fn wf(self) -> bool {
        &&& -VEL_LIMIT <= self.velocity.x <= VEL_LIMIT
        &&& -VEL_LIMIT <= self.velocity.y <= VEL_LIMIT
        &&& 1 <= self.mass <= MASS_LIMIT
    }

    /// A body at rest with the given mass-equivalent.
    pub fn new(mass: i64) -> (r: Physics)
        requires
            1 <= mass <= MASS_LIMIT,
        ensures
            r.velocity == (Vec2 { x: 0, y: 0 }),
            r.mass == mass,
            r.wf(),
    {
        Physics { velocity: Vec2 { x: 0, y: 0 }, mass }
    }

    /// The velocity after one integration step: gravity, then friction,
    /// then the clamp into the velocity bound.
    pub open spec fn integrate_vel_spec(self, cfg: PhysicsConfig) -> Vec2 {
        Vec2 {
            x: clamp_vel_spec(
                scale_spec(
                    self.velocity.x as int,
                    cfg.friction_num as int,
                    cfg.friction_den as int,
                ),
            ) as i64,
            y: clamp_vel_spec(
                scale_spec(
                    self.velocity.y + cfg.gravity,
                    cfg.friction_num as int,
                    cfg.friction_den as int,
                ),
            ) as i64,
        }
    }

    /// The position advanced by `velocity * delta / TIME_SCALE`, clamped.
    pub open spec fn advance_spec(pos: Vec2, vel: Vec2, delta: int) -> Vec2 {
        Vec2 {
            x: clamp_spec(pos.x + div_tz(vel.x * delta, TIME_SCALE as int)) as i64,
            y: clamp_spec(pos.y + div_tz(vel.y * delta, TIME_SCALE as int)) as i64,
        }
    }

    /// One integration step: apply gravity and friction to the velocity,
    /// then advance `pos` by the new velocity over `delta` ticks.
    pub fn update(&mut self, pos: &mut Vec2, delta: i64, cfg: &PhysicsConfig)
        requires
            old(self).wf(),
            old(pos).pos_wf(),
            cfg.wf(),
            0 <= delta <= TIME_SCALE,
        ensures
            final(self).velocity == old(self).integrate_vel_spec(*cfg),
            final(self).mass == old(self).mass,
            final(self).wf(),
            *final(pos) == Physics::advance_spec(*old(pos), final(self).velocity, delta as int),
            final(pos).pos_wf(),
    {
        let vx = scale(self.velocity.x, cfg.friction_num, cfg.friction_den);
        let vy = scale(self.velocity.y + cfg.gravity, cfg.friction_num, cfg.friction_den);
        let vx = if vx < -VEL_LIMIT {
            -VEL_LIMIT
        } else if vx > VEL_LIMIT {
            VEL_LIMIT
        } else {
            vx
        };
        let vy = if vy < -VEL_LIMIT {
            -VEL_LIMIT
        } else if vy > VEL_LIMIT {
            VEL_LIMIT
        } else {
            vy
        };
        self.velocity = Vec2 { x: vx, y: vy };
        let sx = scale(vx, delta, TIME_SCALE);
        let sy = scale(vy, delta, TIME_SCALE);
        pos.x = clamp_coord(pos.x + sx);
        pos.y = clamp_coord(pos.y + sy);
    }

    /// The velocity after bouncing off a wall: each component opposed by the
    /// push-back vector is inverted and damped; the others are kept.
    pub open spec fn bounce_spec(vel: Vec2, o: Vec2, cfg: PhysicsConfig) -> Vec2 {
        Vec2 {
            x: if (o.x > 0 && vel.x < 0) || (o.x < 0 && vel.x > 0) {
                (-scale_spec(
                    vel.x as int,
                    cfg.collision_friction_num as int,
                    cfg.collision_friction_den as int,
                )) as i64
            } else {
                vel.x
            },
            y: if (o.y > 0 && vel.y < 0) || (o.y < 0 && vel.y > 0) {
                (-scale_spec(
                    vel.y as int,
                    cfg.collision_friction_num as int,
                    cfg.collision_friction_den as int,
                )) as i64
            } else {
                vel.y
            },
        }
    }

    /// Wall response: translate `pos` back inside along `o` and invert (and
    /// damp) each velocity component that was carrying the body outside.
    pub fn collide_bound(&mut self, pos: &mut Vec2, o: Vec2, cfg: &PhysicsConfig)
        requires
            old(self).wf(),
            old(pos).pos_wf(),
            cfg.wf(),
            -4 * COORD_LIMIT <= o.x <= 4 * COORD_LIMIT,
            -4 * COORD_LIMIT <= o.y <= 4 * COORD_LIMIT,
        ensures
            final(self).velocity == Physics::bounce_spec(old(self).velocity, o, *cfg),
            final(self).mass == old(self).mass,
            final(self).wf(),
            final(pos).x == clamp_spec(old(pos).x + o.x),
            final(pos).y == clamp_spec(old(pos).y + o.y),
            final(pos).pos_wf(),
    {
        pos.x = clamp_coord(pos.x + o.x);
        pos.y = clamp_coord(pos.y + o.y);
        let vx = if (o.x > 0 && self.velocity.x < 0) || (o.x < 0 && self.velocity.x > 0) {
            -scale(self.velocity.x, cfg.collision_friction_num, cfg.collision_friction_den)
        } else {
            self.velocity.x
        };
        let vy = if (o.y > 0 && self.velocity.y < 0) || (o.y < 0 && self.velocity.y > 0) {
            -scale(self.velocity.y, cfg.collision_friction_num, cfg.collision_friction_den)
        } else {
            self.velocity.y
        };
        self.velocity = Vec2 { x: vx, y: vy };
    }

    /// Pairwise response from this body's own perspective: move own position
    /// by its mass-proportional share of the separation vector `o` (rounded
    /// away from zero, so two symmetric calls fully separate the pair) and
    /// exchange velocity elastically along the collision axis. The
    /// counterpart is read from its pre-pass snapshot and never mutated.
    pub fn resolve_collision_single(
        &mut self,
        pos: &mut Vec2,
        other_pos: &Vec2,
        other: &Physics,
        o: Vec2,
        cfg: &PhysicsConfig,
    )
        requires
            old(self).wf(),
            old(pos).pos_wf(),
            other.wf(),
            cfg.wf(),
            -4 * COORD_LIMIT <= o.x <= 4 * COORD_LIMIT,
            -4 * COORD_LIMIT <= o.y <= 4 * COORD_LIMIT,
        ensures
            (*final(pos), *final(self)) == resolve_single_spec(
                *old(self),
                *old(pos),
                *other,
                o,
                *cfg,
            ),
            final(self).mass == old(self).mass,
            final(self).wf(),
            final(pos).pos_wf(),
    {
        let msum = self.mass + other.mass;
        let sx = share(o.x, other.mass, msum);
        let sy = share(o.y, other.mass, msum);
        pos.x = clamp_coord(pos.x + sx);
        pos.y = clamp_coord(pos.y + sy);
        if o.x != 0 {
            let vx = self.exchange(self.velocity.x, other.velocity.x, other.mass, cfg);
            self.velocity = Vec2 { x: vx, y: self.velocity.y };
        } else if o.y != 0 {
            let vy = self.exchange(self.velocity.y, other.velocity.y, other.mass, cfg);
            self.velocity = Vec2 { x: self.velocity.x, y: vy };
        }
    }

    /// The 1D elastic exchange along one axis.
    fn exchange(&self, va: i64, vb: i64, mb: i64, cfg: &PhysicsConfig) -> (r: i64)
        requires
            self.wf(),
            1 <= mb <= MASS_LIMIT,
            -VEL_LIMIT <= va <= VEL_LIMIT,
            -VEL_LIMIT <= vb <= VEL_LIMIT,
            cfg.wf(),
        ensures
            r == exchange_spec(va as int, vb as int, self.mass as int, mb as int, *cfg),
            -VEL_LIMIT <= r <= VEL_LIMIT,
    {
        let msum = self.mass + mb;
        proof {
            assert(-((3 * VEL_LIMIT) * msum) <= (self.mass - mb) * va + 2 * mb * vb <= (3
                * VEL_LIMIT) * msum && -0x4000000000000000 <= (self.mass - mb) * va
                <= 0x4000000000000000 && -0x4000000000000000 <= 2 * mb * vb <= 0x4000000000000000
                && -0x4000000000000000 <= (self.mass - mb) * va + 2 * mb * vb
                <= 0x4000000000000000) by (nonlinear_arith)
                requires
                    1 <= self.mass <= MASS_LIMIT,
                    1 <= mb <= MASS_LIMIT,
                    msum == self.mass + mb,
                    -VEL_LIMIT <= va <= VEL_LIMIT,
                    -VEL_LIMIT <= vb <= VEL_LIMIT,
            ;
            lemma_div_tz_quotient_bound(
                (self.mass - mb) * va + 2 * mb * vb,
                msum as int,
                3 * VEL_LIMIT,
            );
        }
        let n = (self.mass - mb) * va + 2 * mb * vb;
        let e = div_tz_exec(n, msum);
        let s = scale(e, cfg.collision_friction_num, cfg.collision_friction_den);
        if s < -VEL_LIMIT {
            -VEL_LIMIT
        } else if s > VEL_LIMIT {
            VEL_LIMIT
        } else {
            s
        }
    }
}

} // verus!
