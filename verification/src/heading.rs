//! Directions of travel.
//!
//! A heading is kept as a vector that points the way, not as an angle: the
//! angle of `(x, y)` is measured from the +x axis towards +y, so `(1, 0)` is
//! 0°, `(0, 1)` is 90° and `(-1, 0)` is 180°. Mirroring an angle is then a
//! change of sign, and a step along it needs a square root but no
//! trigonometry. Only the direction of the vector counts: however long or
//! short it is, a bullet that follows it flies at [`BULLET_SPEED`].

use vstd::prelude::*;
use crate::arith::{
    floor_sqrt, isqrt, lemma_floor_div, lemma_floor_sqrt_bounds, lemma_sq_lt_implies_lt,
    lemma_sq_monotonic, lemma_sq_of_product, magnitude, mul_div_toward_zero, sq,
};

verus! {

/// Distance a bullet covers per microsecond, in length units. With a million
/// units to the pixel this is also its speed in pixels per second.
pub const BULLET_SPEED: u64 = 85;

/// Squared lengths are brought up to at least this, two to the power of
/// 124, before their root is taken.
pub const FINE: u128 = 0x1000_0000_0000_0000_0000_0000_0000_0000;

/// A direction on the playing field.
#[derive(Clone, Copy, Debug, PartialEq, Eq, Structural)]
pub struct Heading {
    pub x: i64,
    pub y: i64,
}

/// The power of two by which a vector of squared length `n` is stretched
/// before its length is taken: the least that brings the squared length to
/// [`FINE`] or more. The length then has 62 binary digits or more, and
/// rounding it down to a whole number hardly changes it.
pub open spec fn spread(n: nat) -> nat
    decreases
            (if n < FINE {
                FINE - n
            } else {
                0
            }),
{
    if n == 0 || n >= FINE {
        1
    } else {
        2 * spread(4 * n)
    }
}

impl Heading {
    /// A heading points somewhere, and both of its parts can change sign.
    pub open spec fn wf(self) -> bool {
        &&& self.x != 0 || self.y != 0
        &&& self.x > i64::MIN
        &&& self.y > i64::MIN
    }

    /// The squared length of the vector.
    pub open spec fn norm_sq(self) -> nat {
        (self.x * self.x + self.y * self.y) as nat
    }

    /// The length of the vector stretched by `spread(norm_sq)`, rounded
    /// down.
    pub open spec fn fine_length(self) -> nat {
        floor_sqrt(self.norm_sq() * spread(self.norm_sq()) * spread(self.norm_sq()))
    }

    /// The heading that points the way of `(dx, dy)`; a vector without
    /// length points along +x, the way an angle of 0° does.
    pub open spec fn pointing(dx: i64, dy: i64) -> Heading {
        if dx == 0 && dy == 0 {
            Heading { x: 1, y: 0 }
        } else {
            Heading { x: dx, y: dy }
        }
    }

    /// The heading of angle `a` turned into that of `180° - a`: mirrored
    /// about the vertical axis.
    pub open spec fn mirrored_x(self) -> Heading {
        Heading { x: (-self.x) as i64, y: self.y }
    }

    /// The heading of angle `a` turned into that of `-a`: mirrored about the
    /// horizontal axis.
    pub open spec fn mirrored_y(self) -> Heading {
        Heading { x: self.x, y: (-self.y) as i64 }
    }

    /// How far along x a bullet with this heading gets in `dt` microseconds:
    /// the share `x / length` of the distance `BULLET_SPEED * dt`, with `x`
    /// and the length both taken of the stretched vector, rounded towards
    /// zero. [`lemma_step_is_true_to_a_unit`] says how near that is to the
    /// share by the true length.
    pub open spec fn step_x(self, dt: u32) -> int {
        mul_div_toward_zero(
            self.x * spread(self.norm_sq()),
            BULLET_SPEED * dt,
            self.fine_length() as int,
        )
    }

    /// How far along y a bullet with this heading gets in `dt` microseconds.
    pub open spec fn step_y(self, dt: u32) -> int {
        mul_div_toward_zero(
            self.y * spread(self.norm_sq()),
            BULLET_SPEED * dt,
            self.fine_length() as int,
        )
    }

    /// Whether the heading is one that can be used: see [`Heading::wf`].
    pub fn is_wf(&self) -> (ok: bool)
        ensures
            ok == self.wf(),
    {
        (self.x != 0 || self.y != 0) && self.x > i64::MIN && self.y > i64::MIN
    }

    /// The heading of 0°, along +x.
    pub fn east() -> (h: Heading)
        ensures
            h == (Heading { x: 1, y: 0 }),
            h.wf(),
    {
        Heading { x: 1, y: 0 }
    }

    /// The heading that points the way of `(dx, dy)`.
    pub fn toward(dx: i64, dy: i64) -> (h: Heading)
        requires
            dx > i64::MIN,
            dy > i64::MIN,
        ensures
            h == Heading::pointing(dx, dy),
            h.wf(),
    {
        if dx == 0 && dy == 0 {
            Heading { x: 1, y: 0 }
        } else {
            Heading { x: dx, y: dy }
        }
    }

    /// Mirrors the heading about the vertical axis.
    pub fn flip_x(&self) -> (h: Heading)
        requires
            self.wf(),
        ensures
            h == self.mirrored_x(),
            h.wf(),
    {
        Heading { x: -self.x, y: self.y }
    }

    /// Mirrors the heading about the horizontal axis.
    pub fn flip_y(&self) -> (h: Heading)
        requires
            self.wf(),
        ensures
            h == self.mirrored_y(),
            h.wf(),
    {
        Heading { x: self.x, y: -self.y }
    }

    /// The step a bullet with this heading takes in `dt` microseconds.
    pub fn travel(&self, dt: u32) -> (step: (i128, i128))
        requires
            self.wf(),
        ensures
            step.0 == self.step_x(dt),
            step.1 == self.step_y(dt),
            -(BULLET_SPEED * dt) <= step.0 <= BULLET_SPEED * dt,
            -(BULLET_SPEED * dt) <= step.1 <= BULLET_SPEED * dt,
            true_to_a_unit(step.0 as int, self.x as int, self.norm_sq(), dt),
            true_to_a_unit(step.1 as int, self.y as int, self.norm_sq(), dt),
    {
        let mx: u128 = magnitude(self.x) as u128;
        let my: u128 = magnitude(self.y) as u128;
        assert(mx * mx == self.x * self.x && mx * mx <= 0x7fff_ffff_ffff_ffff
            * 0x7fff_ffff_ffff_ffff) by (nonlinear_arith)
            requires
                mx == self.x || mx == -self.x,
                0 <= mx <= 0x7fff_ffff_ffff_ffff,
        ;
        assert(my * my == self.y * self.y && my * my <= 0x7fff_ffff_ffff_ffff
            * 0x7fff_ffff_ffff_ffff) by (nonlinear_arith)
            requires
                my == self.y || my == -self.y,
                0 <= my <= 0x7fff_ffff_ffff_ffff,
        ;
        assert(mx * mx + my * my >= 1) by (nonlinear_arith)
            requires
                mx >= 1 || my >= 1,
                mx >= 0,
                my >= 0,
        ;
        let n: u128 = mx * mx + my * my;
        let (f, wide): (u128, u128) = stretch_factor(n);
        let l: u128 = isqrt(wide) as u128;
        let way: u64 = BULLET_SPEED * (dt as u64);
        proof {
            lemma_fine_length(*self);
            lemma_step_bounded(*self, dt);
            lemma_step_is_true_to_a_unit(*self, dt);
            assert(-self.x * f == -(self.x * f) && -self.y * f == -(self.y * f))
                by (nonlinear_arith);
        }
        (share(self.x, f, way, l), share(self.y, f, way, l))
    }
}

/// The factor for a vector of squared length `n`, and the squared length
/// of the vector stretched by it.
fn stretch_factor(n: u128) -> (r: (u128, u128))
    requires
        1 <= n < 0x8000_0000_0000_0000_0000_0000_0000_0000,
    ensures
        r.0 == spread(n as nat),
        r.1 == n * r.0 * r.0,
{
    let mut f: u128 = 1;
    let mut wide: u128 = n;
    assert(n * 1 * 1 == n) by (nonlinear_arith);
    while wide < FINE
        invariant
            f >= 1,
            wide >= 1,
            wide == n * f * f,
            f * f <= wide,
            wide < 0x8000_0000_0000_0000_0000_0000_0000_0000,
            spread(n as nat) == f * spread(wide as nat),
        decreases
                (if wide < FINE {
                    FINE - wide
                } else {
                    0
                }),
    {
        proof {
            assert(f <= f * f) by (nonlinear_arith)
                requires
                    f >= 1,
            ;
            assert(n * (2 * f) * (2 * f) == 4 * (n * f * f)) by (nonlinear_arith);
            assert((2 * f) * (2 * f) == 4 * (f * f)) by (nonlinear_arith);
            assert(f * (2 * spread((4 * wide) as nat)) == (2 * f) * spread((4 * wide) as nat))
                by (nonlinear_arith);
        }
        wide = wide * 4;
        f = f * 2;
    }
    proof {
        assert(f * 1 == f) by (nonlinear_arith);
    }
    (f, wide)
}

/// `|v| * f * way / l` with the sign of `v`.
fn share(v: i64, f: u128, way: u64, l: u128) -> (r: i128)
    requires
        0 < l < 0x1_0000_0000_0000_0000,
        v >= 0 ==> v * f <= l,
        v < 0 ==> -v * f <= l,
        f >= 1,
    ensures
        r == mul_div_toward_zero(v * f, way as int, l as int),
{
    let m: u128 = magnitude(v) as u128;
    assert(m * f == (if v >= 0 { v * f } else { -v * f })) by (nonlinear_arith)
        requires
            m == (if v >= 0 { v as int } else { -v }),
    ;
    let stretched: u128 = m * f;
    assert(stretched * way <= 0xffff_ffff_ffff_ffff * 0xffff_ffff_ffff_ffff) by (nonlinear_arith)
        requires
            0 <= stretched <= 0xffff_ffff_ffff_ffff,
            0 <= way <= 0xffff_ffff_ffff_ffff,
    ;
    let q: u128 = stretched * (way as u128) / l;
    assert(q <= way) by (nonlinear_arith)
        requires
            q == (stretched * way) / (l as int),
            0 <= stretched <= l,
            l > 0,
            way >= 0,
    ;
    proof {
        assert(v * f >= 0 <==> v >= 0) by (nonlinear_arith)
            requires
                f >= 1,
        ;
        assert(-(v * f) == -v * f) by (nonlinear_arith);
    }
    if v >= 0 {
        q as i128
    } else {
        -(q as i128)
    }
}

/// What the stretching achieves: the stretched squared length is at least
/// [`FINE`], and is four times that at most unless nothing was stretched.
pub proof fn lemma_spread(n: nat)
    requires
        n >= 1,
    ensures
        spread(n) >= 1,
        n * spread(n) * spread(n) >= FINE,
        n < FINE ==> n * spread(n) * spread(n) < 4 * FINE,
        n >= FINE ==> spread(n) == 1,
    decreases
            (if n < FINE {
                FINE - n
            } else {
                0
            }),
{
    if n >= FINE {
        assert(n * 1 * 1 == n) by (nonlinear_arith);
    } else {
        lemma_spread(4 * n);
        let f = spread(4 * n);
        assert(n * (2 * f) * (2 * f) == (4 * n) * f * f) by (nonlinear_arith);
        if 4 * n >= FINE {
            assert((4 * n) * 1 * 1 == 4 * n) by (nonlinear_arith);
        }
    }
}

/// The length of the stretched vector has between 62 and 64 binary digits,
/// and neither part of the stretched vector is longer than it.
pub proof fn lemma_fine_length(h: Heading)
    requires
        h.wf(),
    ensures
        h.norm_sq() >= 1,
        spread(h.norm_sq()) >= 1,
        0x4000_0000_0000_0000 <= h.fine_length() < 0x1_0000_0000_0000_0000,
        -h.fine_length() <= h.x * spread(h.norm_sq()) <= h.fine_length(),
        -h.fine_length() <= h.y * spread(h.norm_sq()) <= h.fine_length(),
{
    let n = h.norm_sq();
    let f = spread(n) as int;
    let ax: int = if h.x >= 0 { h.x as int } else { -h.x };
    let ay: int = if h.y >= 0 { h.y as int } else { -h.y };
    assert(ax * ax == h.x * h.x && ay * ay == h.y * h.y) by (nonlinear_arith)
        requires
            ax == h.x || ax == -h.x,
            ay == h.y || ay == -h.y,
    ;
    assert(ax * ax >= 0 && ay * ay >= 0 && (ax >= 1 ==> ax * ax >= 1) && (ay >= 1 ==> ay * ay
        >= 1)) by (nonlinear_arith);
    assert(ax * ax <= 0x7fff_ffff_ffff_ffff * 0x7fff_ffff_ffff_ffff) by (nonlinear_arith)
        requires
            0 <= ax <= 0x7fff_ffff_ffff_ffff,
    ;
    assert(ay * ay <= 0x7fff_ffff_ffff_ffff * 0x7fff_ffff_ffff_ffff) by (nonlinear_arith)
        requires
            0 <= ay <= 0x7fff_ffff_ffff_ffff,
    ;
    lemma_spread(n);
    let wide = n * spread(n) * spread(n);
    let l = h.fine_length() as int;
    lemma_floor_sqrt_bounds(wide);
    assert(0x4000_0000_0000_0000int * 0x4000_0000_0000_0000int
        == 0x1000_0000_0000_0000_0000_0000_0000_0000) by (nonlinear_arith);
    assert(0x1_0000_0000_0000_0000int * 0x1_0000_0000_0000_0000int
        == 0x1_0000_0000_0000_0000_0000_0000_0000_0000) by (nonlinear_arith);
    assert(0x7fff_ffff_ffff_ffffint * 0x7fff_ffff_ffff_ffffint
        < 0x4000_0000_0000_0000_0000_0000_0000_0000) by (nonlinear_arith);
    assert(n * 1 * 1 == n) by (nonlinear_arith);
    assert(wide < 0x1_0000_0000_0000_0000_0000_0000_0000_0000);
    // at least 62 binary digits
    if l < 0x4000_0000_0000_0000 {
        lemma_sq_monotonic(l + 1, 0x4000_0000_0000_0000);
    }
    // fewer than 65
    if l >= 0x1_0000_0000_0000_0000 {
        lemma_sq_monotonic(0x1_0000_0000_0000_0000, l);
    }
    // the parts
    lemma_sq_of_product(ax, f);
    lemma_sq_of_product(ay, f);
    assert((ax * ax) * (f * f) <= wide && (ay * ay) * (f * f) <= wide) by (nonlinear_arith)
        requires
            wide == (ax * ax + ay * ay) * f * f,
            ax * ax >= 0,
            ay * ay >= 0,
            f >= 0,
    ;
    assert(ax * f >= 0 && ay * f >= 0) by (nonlinear_arith)
        requires
            ax >= 0,
            ay >= 0,
            f >= 0,
    ;
    lemma_sq_lt_implies_lt(ax * f, l + 1);
    lemma_sq_lt_implies_lt(ay * f, l + 1);
    assert(h.x * f == ax * f || h.x * f == -(ax * f)) by (nonlinear_arith)
        requires
            ax == h.x || ax == -h.x,
    ;
    assert(h.y * f == ay * f || h.y * f == -(ay * f)) by (nonlinear_arith)
        requires
            ay == h.y || ay == -h.y,
    ;
}

/// Mirroring twice about the same axis gives the heading back.
pub proof fn lemma_mirror_twice(h: Heading)
    requires
        h.wf(),
    ensures
        h.mirrored_x().mirrored_x() == h,
        h.mirrored_y().mirrored_y() == h,
        h.mirrored_x().wf(),
        h.mirrored_y().wf(),
{
}

/// Mirroring changes neither the length of a heading nor the size of the
/// steps taken along it.
pub proof fn lemma_mirror_keeps_speed(h: Heading, dt: u32)
    requires
        h.wf(),
    ensures
        h.mirrored_x().fine_length() == h.fine_length(),
        h.mirrored_y().fine_length() == h.fine_length(),
        h.mirrored_x().step_x(dt) == -h.step_x(dt),
        h.mirrored_x().step_y(dt) == h.step_y(dt),
        h.mirrored_y().step_x(dt) == h.step_x(dt),
        h.mirrored_y().step_y(dt) == -h.step_y(dt),
{
    assert((-h.x) * (-h.x) == h.x * h.x) by (nonlinear_arith);
    assert((-h.y) * (-h.y) == h.y * h.y) by (nonlinear_arith);
    assert(h.mirrored_x().norm_sq() == h.norm_sq());
    assert(h.mirrored_y().norm_sq() == h.norm_sq());
    let way = BULLET_SPEED * dt;
    let f = spread(h.norm_sq()) as int;
    let l = h.fine_length() as int;
    lemma_fine_length(h);
    assert((-h.x) * f == -(h.x * f) && (-h.y) * f == -(h.y * f)) by (nonlinear_arith);
    assert(-(-(h.x * f)) == h.x * f);
    assert(0 * way == 0) by (nonlinear_arith);
    assert(0int / l == 0) by (nonlinear_arith)
        requires
            l > 0,
    ;
    assert(h.x * f == 0 <==> h.x == 0) by (nonlinear_arith)
        requires
            f >= 1,
    ;
    assert(h.y * f == 0 <==> h.y == 0) by (nonlinear_arith)
        requires
            f >= 1,
    ;
    assert(h.x * f > 0 <==> h.x > 0) by (nonlinear_arith)
        requires
            f >= 1,
    ;
    assert(h.y * f > 0 <==> h.y > 0) by (nonlinear_arith)
        requires
            f >= 1,
    ;
}

/// Along either axis a bullet covers at most `BULLET_SPEED * dt`, and it
/// never moves against its heading.
pub proof fn lemma_step_bounded(h: Heading, dt: u32)
    requires
        h.wf(),
    ensures
        -(BULLET_SPEED * dt) <= h.step_x(dt) <= BULLET_SPEED * dt,
        -(BULLET_SPEED * dt) <= h.step_y(dt) <= BULLET_SPEED * dt,
        h.x >= 0 ==> h.step_x(dt) >= 0,
        h.x <= 0 ==> h.step_x(dt) <= 0,
        h.y >= 0 ==> h.step_y(dt) >= 0,
        h.y <= 0 ==> h.step_y(dt) <= 0,
{
    lemma_fine_length(h);
    let way = BULLET_SPEED * dt;
    let f = spread(h.norm_sq()) as int;
    let l = h.fine_length() as int;
    let sx = h.x * f;
    let sy = h.y * f;
    let ax: int = if sx >= 0 { sx } else { -sx };
    let ay: int = if sy >= 0 { sy } else { -sy };
    assert((sx >= 0 <==> h.x >= 0) && (sx <= 0 <==> h.x <= 0)) by (nonlinear_arith)
        requires
            sx == h.x * f,
            f >= 1,
    ;
    assert((sy >= 0 <==> h.y >= 0) && (sy <= 0 <==> h.y <= 0)) by (nonlinear_arith)
        requires
            sy == h.y * f,
            f >= 1,
    ;
    assert(0 <= (ax * way) / l <= way && (ax == 0 ==> (ax * way) / l == 0)) by (nonlinear_arith)
        requires
            0 <= ax <= l,
            l > 0,
            way >= 0,
    ;
    assert(0 <= (ay * way) / l <= way && (ay == 0 ==> (ay * way) / l == 0)) by (nonlinear_arith)
        requires
            0 <= ay <= l,
            l > 0,
            way >= 0,
    ;
}

/// One part of a step is less than a unit away from the share of
/// `BULLET_SPEED * dt` that the part `v` of a heading of squared length
/// `n` has by the true length of the heading, `v * BULLET_SPEED * dt /
/// sqrt(n)`: a unit more than the step is beyond that share, and so is a
/// unit less.
pub open spec fn true_to_a_unit(step: int, v: int, n: nat, dt: u32) -> bool {
    let size = if step >= 0 { step } else { -step };
    let whole = sq(v * (BULLET_SPEED * dt));
    &&& sq(size + 1) * n > whole
    &&& size >= 1 ==> sq(size - 1) * n < whole
}

/// Whatever the length of a heading, a bullet that follows it flies at
/// [`BULLET_SPEED`]: along each axis its step is less than one unit away
/// from the share by the true length of the heading.
pub proof fn lemma_step_is_true_to_a_unit(h: Heading, dt: u32)
    requires
        h.wf(),
    ensures
        true_to_a_unit(h.step_x(dt), h.x as int, h.norm_sq(), dt),
        true_to_a_unit(h.step_y(dt), h.y as int, h.norm_sq(), dt),
{
    lemma_fine_length(h);
    lemma_step_bounded(h, dt);
    lemma_part_is_true(h.x as int, h.norm_sq(), dt, h.fine_length() as int);
    lemma_part_is_true(h.y as int, h.norm_sq(), dt, h.fine_length() as int);
}

/// One part of a step, by the numbers.
proof fn lemma_part_is_true(v: int, n: nat, dt: u32, l: int)
    requires
        n >= 1,
        l == floor_sqrt(n * spread(n) * spread(n)),
        0x4000_0000_0000_0000 <= l,
        -l <= v * spread(n) <= l,
    ensures
        true_to_a_unit(
            mul_div_toward_zero(v * spread(n), BULLET_SPEED * dt, l),
            v,
            n,
            dt,
        ),
{
    let f = spread(n) as int;
    let way: int = BULLET_SPEED * dt;
    let a: int = if v >= 0 { v } else { -v };
    let wide = n * spread(n) * spread(n);
    lemma_spread(n);
    lemma_floor_sqrt_bounds(wide);
    assert(a * f == (if v * f >= 0 { v * f } else { -(v * f) })) by (nonlinear_arith)
        requires
            a == (if v >= 0 { v } else { -v }),
            f >= 1,
    ;
    let af = a * f;
    assert(-(v * f) == -v * f) by (nonlinear_arith);
    let q = (af * way) / l;
    let step = mul_div_toward_zero(v * f, way, l);
    assert(step == q || step == -q);
    assert(af * way >= 0) by (nonlinear_arith)
        requires
            af >= 0,
            way >= 0,
    ;
    lemma_floor_div(af * way, l);
    assert(q <= way) by (nonlinear_arith)
        requires
            q * l <= af * way,
            0 <= af <= l,
            l > 0,
            way >= 0,
            q >= 0,
    ;
    let size: int = if step >= 0 { step } else { -step };
    assert(size == q);
    // (a way)² f² = (af way)²
    let whole = sq(v * way);
    assert(whole == (a * way) * (a * way)) by (nonlinear_arith)
        requires
            whole == (v * way) * (v * way),
            a == v || a == -v,
    ;
    assert((af * way) * (af * way) == whole * (f * f)) by (nonlinear_arith)
        requires
            af == a * f,
            whole == (a * way) * (a * way),
    ;
    assert(wide == n * (f * f)) by (nonlinear_arith)
        requires
            wide == n * f * f,
    ;
    // a unit more is beyond the true share
    lemma_sq_monotonic(af * way + 1, (q + 1) * l);
    lemma_sq_of_product(q + 1, l);
    assert((af * way + 1) * (af * way + 1) > (af * way) * (af * way)) by (nonlinear_arith)
        requires
            af * way >= 0,
    ;
    assert(sq(q + 1) * wide >= sq(q + 1) * (l * l)) by (nonlinear_arith)
        requires
            wide >= l * l,
            sq(q + 1) >= 0,
    ;
    assert(sq(q + 1) * n > whole) by (nonlinear_arith)
        requires
            sq(q + 1) * wide > whole * (f * f),
            wide == n * (f * f),
            f >= 1,
    ;
    // and so is a unit less
    if q >= 1 {
        assert((q - 1) * (l + 1) <= af * way) by (nonlinear_arith)
            requires
                q * l <= af * way,
                q <= l + 1,
        ;
        assert((q - 1) * (l + 1) >= 0) by (nonlinear_arith)
            requires
                q >= 1,
                l >= 0,
        ;
        lemma_sq_monotonic((q - 1) * (l + 1), af * way);
        lemma_sq_of_product(q - 1, l + 1);
        assert(sq(q - 1) * wide <= sq(q - 1) * ((l + 1) * (l + 1))) by (nonlinear_arith)
            requires
                wide < (l + 1) * (l + 1),
                sq(q - 1) >= 0,
        ;
        if q == 1 {
            assert(sq(0) * n == 0) by (nonlinear_arith);
            assert(whole > 0) by {
                // q >= 1 takes af way >= l > 0
                assert(af * way >= 1);
                assert(whole * (f * f) >= 1) by (nonlinear_arith)
                    requires
                        (af * way) * (af * way) == whole * (f * f),
                        af * way >= 1,
                ;
                assert(whole >= 0) by (nonlinear_arith)
                    requires
                        whole == (a * way) * (a * way),
                ;
                if whole == 0 {
                    assert(whole * (f * f) == 0) by (nonlinear_arith)
                        requires
                            whole == 0,
                    ;
                }
            }
        } else {
            assert(sq(q - 1) >= 1) by (nonlinear_arith)
                requires
                    q >= 2,
            ;
            assert(sq(q - 1) * wide < sq(q - 1) * ((l + 1) * (l + 1))) by (nonlinear_arith)
                requires
                    wide < (l + 1) * (l + 1),
                    sq(q - 1) >= 1,
            ;
            assert(sq(q - 1) * n < whole) by (nonlinear_arith)
                requires
                    sq(q - 1) * wide < whole * (f * f),
                    wide == n * (f * f),
                    f >= 1,
            ;
        }
    }
}

} // verus!
