//! The ring a jump of the tower lands in.
//!
//! A jump goes from the tower towards the pointer. Its length is the
//! distance to the pointer, but never less than [`TOWER_INNER`] nor more
//! than [`TOWER_OUTER`].

use vstd::prelude::*;
use crate::arith::{
    ceil_sqrt, div_ceil, isqrt_ceil, lemma_ceil_sqrt_bounds, lemma_floor_div,
    lemma_sq_lt_implies_lt, lemma_sq_monotonic, lemma_sq_of_product, magnitude,
    mul_div_toward_zero, scale_toward_zero, sq,
};

verus! {

/// Inner radius of the ring, in units.
pub const TOWER_INNER: u64 = 100_000_000;

/// Outer radius of the ring, in units.
pub const TOWER_OUTER: u64 = 250_000_000;

/// One part of a jump that is stretched to the inner radius. `v` is that
/// part of the way to the pointer and `n` the squared length of the whole
/// way: the result is `v * TOWER_INNER / sqrt(n)`, rounded away from zero.
pub open spec fn stretched(v: int, n: nat) -> int {
    let size = ceil_sqrt(div_ceil(v * v * (TOWER_INNER * TOWER_INNER), n as int) as nat);
    if v >= 0 {
        size as int
    } else {
        -size
    }
}

/// One part of a jump that is cut back to the outer radius: `v` times
/// `TOWER_OUTER` over the length of the whole way, where the length is
/// rounded up and the quotient towards zero.
pub open spec fn shortened(v: int, n: nat) -> int {
    mul_div_toward_zero(v, TOWER_OUTER as int, ceil_sqrt(n) as int)
}

/// One part of the jump the tower makes when the pointer is pressed the way
/// `v` along this axis, at a squared distance of `n`. A press on the tower
/// itself moves nothing. A press inside the ring is where the tower lands;
/// a nearer one is stretched to the inner radius and a further one cut back
/// to the outer radius.
pub open spec fn jump_part(v: int, n: nat) -> int {
    if n == 0 {
        0
    } else if n < TOWER_INNER * TOWER_INNER {
        stretched(v, n)
    } else if n > TOWER_OUTER * TOWER_OUTER {
        shortened(v, n)
    } else {
        v
    }
}

/// The size of `v` without its sign.
pub open spec fn abs(v: int) -> int {
    if v >= 0 {
        v
    } else {
        -v
    }
}

/// The squares of the two radii.
pub proof fn lemma_ring_squares()
    ensures
        TOWER_INNER * TOWER_INNER == 10_000_000_000_000_000,
        TOWER_OUTER * TOWER_OUTER == 62_500_000_000_000_000,
{
    assert(100_000_000int * 100_000_000int == 10_000_000_000_000_000) by (nonlinear_arith);
    assert(250_000_000int * 250_000_000int == 62_500_000_000_000_000) by (nonlinear_arith);
}

/// `div_ceil(a, n)` is the least number of `n`s that make up `a`.
pub proof fn lemma_div_ceil(a: int, n: int)
    requires
        a >= 0,
        n > 0,
    ensures
        div_ceil(a, n) >= 0,
        div_ceil(a, n) * n >= a,
        (div_ceil(a, n) - 1) * n < a || a == 0,
        a == 0 ==> div_ceil(a, n) == 0,
{
    let q = a / n;
    let r = a % n;
    assert(a == q * n + r && 0 <= r < n && q >= 0) by (nonlinear_arith)
        requires
            a >= 0,
            n > 0,
            q == a / n,
            r == a % n,
    ;
    assert((q + 1) * n == q * n + n) by (nonlinear_arith);
    assert((q - 1) * n == q * n - n) by (nonlinear_arith);
    assert((q + 1 - 1) * n == q * n);
}

/// A stretched part is at least as long as the part it came from, at most
/// as long as the inner radius, and points the same way.
pub proof fn lemma_stretched_bounds(v: int, n: nat)
    requires
        0 < n < TOWER_INNER * TOWER_INNER,
        v * v <= n,
    ensures
        v >= 0 ==> v <= stretched(v, n) <= TOWER_INNER,
        v <= 0 ==> -(TOWER_INNER as int) <= stretched(v, n) <= v,
        sq(stretched(v, n)) * n >= v * v * (TOWER_INNER * TOWER_INNER),
        v == 0 ==> stretched(v, n) == 0,
        v != 0 ==> sq(abs(stretched(v, n)) - 1) * n < v * v * (TOWER_INNER * TOWER_INNER),
{
    let i2: int = TOWER_INNER * TOWER_INNER;
    let a: int = v * v * i2;
    assert(v * v >= 0) by (nonlinear_arith);
    assert(a >= 0 && a <= n * i2 && a >= v * v * n) by (nonlinear_arith)
        requires
            a == v * v * i2,
            0 <= v * v <= n,
            n < i2,
    ;
    let q = div_ceil(a, n as int);
    lemma_div_ceil(a, n as int);
    lemma_ring_squares();
    // q is at most the inner radius squared
    if a != 0 {
        assert(q - 1 < i2) by (nonlinear_arith)
            requires
                (q - 1) * n < n * i2,
                n > 0,
        ;
    }
    // and at least v squared
    assert(q >= v * v) by (nonlinear_arith)
        requires
            q * n >= a,
            a >= v * v * n,
            n > 0,
    ;
    let s = ceil_sqrt(q as nat);
    lemma_ceil_sqrt_bounds(q as nat);
    let inner: nat = TOWER_INNER as nat;
    assert(q <= inner * inner);
    assert(s <= inner);
    let m: int = if v >= 0 { v } else { -v };
    assert(m * m == v * v) by (nonlinear_arith)
        requires
            m == v || m == -v,
    ;
    if m > s {
        lemma_sq_monotonic(s as int + 1, m);
        assert((s + 1) * (s + 1) > s * s) by (nonlinear_arith)
            requires
                s >= 0,
        ;
    }
    assert(sq(stretched(v, n)) == s * s) by (nonlinear_arith)
        requires
            stretched(v, n) == s || stretched(v, n) == -s,
    ;
    assert(s * s * n >= a) by (nonlinear_arith)
        requires
            s * s >= q,
            q * n >= a,
            n > 0,
    ;
    if v == 0 {
        assert(a == 0) by (nonlinear_arith)
            requires
                a == v * v * i2,
                v == 0,
        ;
        assert(0nat * 0nat == 0) by (nonlinear_arith);
        assert(s == 0);
    } else {
        assert(v * v >= 1) by (nonlinear_arith)
            requires
                v != 0,
        ;
        assert(s >= 1);
        let below: nat = (s - 1) as nat;
        assert(below * below < q) by {
            if below * below >= q {
                assert(q as nat <= below * below);
            }
        }
        assert(sq(s - 1) * n < a) by (nonlinear_arith)
            requires
                sq(s - 1) == below * below,
                below * below <= q - 1,
                (q - 1) * n < a,
                n > 0,
        ;
    }
}

/// A shortened part is at most as long as the part it came from and points
/// the same way.
pub proof fn lemma_shortened_bounds(v: int, n: nat)
    requires
        n > TOWER_OUTER * TOWER_OUTER,
    ensures
        ceil_sqrt(n) > TOWER_OUTER,
        v >= 0 ==> 0 <= shortened(v, n) <= v,
        v <= 0 ==> v <= shortened(v, n) <= 0,
{
    let l = ceil_sqrt(n) as int;
    lemma_ceil_sqrt_bounds(n);
    let outer: int = TOWER_OUTER as int;
    if l <= outer {
        lemma_sq_monotonic(l, outer);
    }
    let m: int = if v >= 0 { v } else { -v };
    assert(0 <= (m * outer) / l <= m) by (nonlinear_arith)
        requires
            m >= 0,
            0 < outer < l,
    ;
}

/// The jump towards a pointer that is `(vx, vy)` away.
pub fn jump(vx: i64, vy: i64) -> (d: (i64, i64))
    ensures
        d.0 == jump_part(vx as int, (sq(vx as int) + sq(vy as int)) as nat),
        d.1 == jump_part(vy as int, (sq(vx as int) + sq(vy as int)) as nat),
{
    let ax: u128 = magnitude(vx) as u128;
    let ay: u128 = magnitude(vy) as u128;
    assert(ax * ax == sq(vx as int) && ax * ax <= 0x8000_0000_0000_0000 * 0x8000_0000_0000_0000)
        by (nonlinear_arith)
        requires
            ax == vx || ax == -vx,
            0 <= ax <= 0x8000_0000_0000_0000,
    ;
    assert(ay * ay == sq(vy as int) && ay * ay <= 0x8000_0000_0000_0000 * 0x8000_0000_0000_0000)
        by (nonlinear_arith)
        requires
            ay == vy || ay == -vy,
            0 <= ay <= 0x8000_0000_0000_0000,
    ;
    let n: u128 = ax * ax + ay * ay;
    proof {
        lemma_ring_squares();
    }
    let inner_sq: u128 = (TOWER_INNER as u128) * (TOWER_INNER as u128);
    let outer_sq: u128 = (TOWER_OUTER as u128) * (TOWER_OUTER as u128);
    if n == 0 {
        (0, 0)
    } else if n < inner_sq {
        (stretch(vx, n), stretch(vy, n))
    } else if n > outer_sq {
        let l: u128 = isqrt_ceil(n);
        proof {
            lemma_shortened_bounds(vx as int, n as nat);
            lemma_shortened_bounds(vy as int, n as nat);
        }
        let dx: i128 = scale_toward_zero(vx, TOWER_OUTER, l);
        let dy: i128 = scale_toward_zero(vy, TOWER_OUTER, l);
        (dx as i64, dy as i64)
    } else {
        (vx, vy)
    }
}

/// One part of a jump that is stretched to the inner radius.
fn stretch(v: i64, n: u128) -> (d: i64)
    requires
        0 < n < TOWER_INNER * TOWER_INNER,
        v * v <= n,
    ensures
        d == stretched(v as int, n as nat),
{
    let a: u128 = magnitude(v) as u128;
    let inner: u128 = TOWER_INNER as u128;
    proof {
        assert(a * a == v * v) by (nonlinear_arith)
            requires
                a == v || a == -v,
        ;
        if a >= inner {
            lemma_sq_monotonic(inner as int, a as int);
        }
        lemma_ring_squares();
        assert(a * a * (inner * inner) <= 10_000_000_000_000_000 * 10_000_000_000_000_000)
            by (nonlinear_arith)
            requires
                0 <= a * a <= 10_000_000_000_000_000,
                inner * inner == 10_000_000_000_000_000,
        ;
        lemma_stretched_bounds(v as int, n as nat);
    }
    let inner_sq: u128 = inner * inner;
    let whole: u128 = a * a * inner_sq;
    let q: u128 = if whole % n == 0 { whole / n } else { whole / n + 1 };
    proof {
        lemma_div_ceil(whole as int, n as int);
        assert(q * n >= whole);
        assert(q <= whole) by (nonlinear_arith)
            requires
                (q - 1) * n < whole || whole == 0,
                q >= 0,
                n >= 1,
                whole == 0 ==> q == 0,
        ;
    }
    let size: u128 = isqrt_ceil(q);
    if v >= 0 {
        size as i64
    } else {
        -(size as i64)
    }
}


/// The squared length of the jump towards a pointer that is `(vx, vy)` away.
pub open spec fn jump_sq(vx: int, vy: int) -> int {
    let n = (sq(vx) + sq(vy)) as nat;
    sq(jump_part(vx, n)) + sq(jump_part(vy, n))
}

/// How far the jump towards `(vx, vy)` leans off the straight way there:
/// the cross product of the two, which is zero when they are in line.
pub open spec fn jump_lean(vx: int, vy: int) -> int {
    let n = (sq(vx) + sq(vy)) as nat;
    jump_part(vx, n) * vy - jump_part(vy, n) * vx
}

/// The square of a number is the square of its size.
proof fn lemma_sq_abs(v: int)
    ensures
        sq(v) == abs(v) * abs(v),
        sq(v) >= 0,
        v != 0 ==> sq(v) > 0,
{
    assert(v * v == (-v) * (-v)) by (nonlinear_arith);
    assert(v * v >= 0 && (v != 0 ==> v * v > 0)) by (nonlinear_arith);
}

/// A stretched jump is at least as long as the inner radius and no longer
/// than the outer radius.
proof fn lemma_stretched_in_ring(vx: int, vy: int)
    requires
        0 < sq(vx) + sq(vy) < TOWER_INNER * TOWER_INNER,
    ensures
        TOWER_INNER * TOWER_INNER <= jump_sq(vx, vy) <= TOWER_OUTER * TOWER_OUTER,
{
    let n = (sq(vx) + sq(vy)) as nat;
    let i2: int = TOWER_INNER * TOWER_INNER;
    lemma_ring_squares();
    lemma_sq_abs(vx);
    lemma_sq_abs(vy);
    lemma_stretched_bounds(vx, n);
    lemma_stretched_bounds(vy, n);
    let dx = stretched(vx, n);
    let dy = stretched(vy, n);
    lemma_sq_abs(dx);
    lemma_sq_abs(dy);
    // at least the inner radius
    assert(sq(dx) + sq(dy) >= i2) by (nonlinear_arith)
        requires
            sq(dx) * n >= vx * vx * i2,
            sq(dy) * n >= vy * vy * i2,
            n == vx * vx + vy * vy,
            n > 0,
    ;
    // and no part longer than the inner radius
    lemma_sq_monotonic(abs(dx), TOWER_INNER as int);
    lemma_sq_monotonic(abs(dy), TOWER_INNER as int);
}

/// A shortened jump is at least as long as the inner radius and no longer
/// than the outer radius.
proof fn lemma_shortened_in_ring(vx: int, vy: int)
    requires
        sq(vx) + sq(vy) > TOWER_OUTER * TOWER_OUTER,
    ensures
        TOWER_INNER * TOWER_INNER <= jump_sq(vx, vy) <= TOWER_OUTER * TOWER_OUTER,
{
    let n = (sq(vx) + sq(vy)) as nat;
    let o: int = TOWER_OUTER as int;
    let i: int = TOWER_INNER as int;
    let l = ceil_sqrt(n) as int;
    lemma_ring_squares();
    lemma_sq_abs(vx);
    lemma_sq_abs(vy);
    lemma_shortened_bounds(vx, n);
    lemma_shortened_bounds(vy, n);
    lemma_ceil_sqrt_bounds(n);
    let a = abs(vx);
    let b = abs(vy);
    let big_a = (a * o) / l;
    let big_b = (b * o) / l;
    assert(a * o >= 0 && b * o >= 0) by (nonlinear_arith)
        requires
            a >= 0,
            b >= 0,
            o >= 0,
    ;
    lemma_floor_div(a * o, l);
    lemma_floor_div(b * o, l);
    let dx = shortened(vx, n);
    let dy = shortened(vy, n);
    assert(dx == big_a || dx == -big_a);
    assert(dy == big_b || dy == -big_b);
    assert(sq(dx) == big_a * big_a) by (nonlinear_arith)
        requires
            dx == big_a || dx == -big_a,
    ;
    assert(sq(dy) == big_b * big_b) by (nonlinear_arith)
        requires
            dy == big_b || dy == -big_b,
    ;
    // no longer than the outer radius
    lemma_sq_monotonic(big_a * l, a * o);
    lemma_sq_monotonic(big_b * l, b * o);
    lemma_sq_of_product(big_a, l);
    lemma_sq_of_product(big_b, l);
    lemma_sq_of_product(a, o);
    lemma_sq_of_product(b, o);
    assert((big_a * big_a + big_b * big_b) * (l * l) == (big_a * big_a) * (l * l) + (big_b * big_b)
        * (l * l)) by (nonlinear_arith);
    assert((a * a + b * b) * (o * o) == (a * a) * (o * o) + (b * b) * (o * o))
        by (nonlinear_arith);
    assert((big_a * big_a + big_b * big_b) * (l * l) <= n * (o * o));
    assert(big_a * big_a + big_b * big_b <= o * o) by (nonlinear_arith)
        requires
            (big_a * big_a + big_b * big_b) * (l * l) <= n * (o * o),
            n <= l * l,
            l > 0,
            o * o >= 0,
            big_a * big_a + big_b * big_b >= 0,
    ;
    // the longer part alone reaches the inner radius
    let m = if a >= b { a } else { b };
    let big_m = if a >= b { big_a } else { big_b };
    assert(n <= (2 * m) * (2 * m)) by (nonlinear_arith)
        requires
            n == a * a + b * b,
            0 <= a <= m,
            0 <= b <= m,
    ;
    assert(l <= 2 * m) by {
        let twice: nat = (2 * m) as nat;
        assert(n <= twice * twice);
    }
    assert(big_m >= i) by (nonlinear_arith)
        requires
            big_m == (m * o) / l,
            0 < l <= 2 * m,
            o == 250_000_000,
            i == 100_000_000,
    ;
    lemma_sq_monotonic(i, big_m);
    assert(big_a * big_a >= 0 && big_b * big_b >= 0) by (nonlinear_arith);
}

/// Every jump that moves the tower at all lands it in the ring around
/// where it stood: at least the inner and at most the outer radius away.
/// Each part of the jump points the way of the pointer, and a pointer
/// inside the ring is exactly where the tower lands.
pub proof fn lemma_jump_lands_in_ring(vx: int, vy: int)
    requires
        vx != 0 || vy != 0,
    ensures
        TOWER_INNER * TOWER_INNER <= jump_sq(vx, vy) <= TOWER_OUTER * TOWER_OUTER,
        vx >= 0 ==> jump_part(vx, (sq(vx) + sq(vy)) as nat) >= 0,
        vx <= 0 ==> jump_part(vx, (sq(vx) + sq(vy)) as nat) <= 0,
        vy >= 0 ==> jump_part(vy, (sq(vx) + sq(vy)) as nat) >= 0,
        vy <= 0 ==> jump_part(vy, (sq(vx) + sq(vy)) as nat) <= 0,
        TOWER_INNER * TOWER_INNER <= sq(vx) + sq(vy) <= TOWER_OUTER * TOWER_OUTER ==> {
            &&& jump_part(vx, (sq(vx) + sq(vy)) as nat) == vx
            &&& jump_part(vy, (sq(vx) + sq(vy)) as nat) == vy
        },
{
    let n = (sq(vx) + sq(vy)) as nat;
    lemma_sq_abs(vx);
    lemma_sq_abs(vy);
    lemma_ring_squares();
    if n < TOWER_INNER * TOWER_INNER {
        lemma_stretched_in_ring(vx, vy);
        lemma_stretched_bounds(vx, n);
        lemma_stretched_bounds(vy, n);
    } else if n > TOWER_OUTER * TOWER_OUTER {
        lemma_shortened_in_ring(vx, vy);
        lemma_shortened_bounds(vx, n);
        lemma_shortened_bounds(vy, n);
    }
}

/// A lean that stays below the longer part of the way, either side, is
/// shorter than the way.
proof fn lemma_small_lean(a: int, b: int, c: int)
    requires
        a >= 0,
        b >= 0,
        a > 0 || b > 0,
        c < a || c < b,
        -c < a || -c < b,
    ensures
        c * c < a * a + b * b,
{
    let m = if a >= b { a } else { b };
    let e = if c >= 0 { c } else { -c };
    assert(e * e == c * c) by (nonlinear_arith)
        requires
            e == c || e == -c,
    ;
    assert(0 <= e < m);
    assert(e * e < m * m) by (nonlinear_arith)
        requires
            0 <= e < m,
    ;
    assert(a * a >= 0 && b * b >= 0) by (nonlinear_arith);
}

/// The lean of a jump, by the sizes of its parts.
proof fn lemma_lean_by_sizes(vx: int, vy: int, dx: int, dy: int)
    requires
        vx >= 0 ==> dx >= 0,
        vx <= 0 ==> dx <= 0,
        vy >= 0 ==> dy >= 0,
        vy <= 0 ==> dy <= 0,
    ensures
        sq(dx * vy - dy * vx) == sq(abs(dx) * abs(vy) - abs(dy) * abs(vx)),
{
    let c = abs(dx) * abs(vy) - abs(dy) * abs(vx);
    let lean = dx * vy - dy * vx;
    let sx: int = if vx >= 0 { 1 } else { -1 };
    let sy: int = if vy >= 0 { 1 } else { -1 };
    assert(dx == sx * abs(dx) && vx == sx * abs(vx));
    assert(dy == sy * abs(dy) && vy == sy * abs(vy));
    assert(lean == c || lean == -c) by (nonlinear_arith)
        requires
            sx == 1 || sx == -1,
            sy == 1 || sy == -1,
            lean == (sx * abs(dx)) * (sy * abs(vy)) - (sy * abs(dy)) * (sx * abs(vx)),
            c == abs(dx) * abs(vy) - abs(dy) * abs(vx),
    ;
    assert(lean * lean == c * c) by (nonlinear_arith)
        requires
            lean == c || lean == -c,
    ;
}

/// One side of the lean of a stretched jump: had the part of size `big_a`
/// been one shorter, it would have fallen behind the other part.
proof fn lemma_stretched_side(a: int, b: int, big_a: int, big_b: int, n: int, i2: int)
    requires
        a >= 0,
        b > 0,
        big_a >= 1,
        big_b >= 0,
        n > 0,
        i2 > 0,
        sq(big_a - 1) * n < a * a * i2,
        sq(big_b) * n >= b * b * i2,
    ensures
        big_a * b - big_b * a < b,
{
    let left = (big_a - 1) * b;
    let right = big_b * a;
    lemma_sq_of_product(big_a - 1, b);
    lemma_sq_of_product(big_b, a);
    assert(b * b > 0) by (nonlinear_arith)
        requires
            b > 0,
    ;
    assert(a * a >= 0) by (nonlinear_arith);
    // left² · n  <  a² b² i2  <=  right² · n
    assert((left * left) * n < (a * a * i2) * (b * b)) by (nonlinear_arith)
        requires
            left * left == sq(big_a - 1) * (b * b),
            sq(big_a - 1) * n < a * a * i2,
            b * b > 0,
    ;
    assert((right * right) * n >= (b * b * i2) * (a * a)) by (nonlinear_arith)
        requires
            right * right == sq(big_b) * (a * a),
            sq(big_b) * n >= b * b * i2,
            a * a >= 0,
    ;
    assert((a * a * i2) * (b * b) == (b * b * i2) * (a * a)) by (nonlinear_arith);
    assert(left * left < right * right) by (nonlinear_arith)
        requires
            (left * left) * n < (right * right) * n,
            n > 0,
    ;
    assert(left >= 0 && right >= 0) by (nonlinear_arith)
        requires
            left == (big_a - 1) * b,
            right == big_b * a,
            big_a >= 1,
            b > 0,
            big_b >= 0,
            a >= 0,
    ;
    lemma_sq_lt_implies_lt(left, right);
    assert(left == big_a * b - b) by (nonlinear_arith)
        requires
            left == (big_a - 1) * b,
    ;
}

/// One side of the lean of a shortened jump.
proof fn lemma_shortened_side(a: int, b: int, big_a: int, big_b: int, l: int, o: int)
    requires
        a > 0,
        b >= 0,
        l > 0,
        o >= 0,
        big_a >= 0,
        big_a * l <= a * o,
        b * o < (big_b + 1) * l,
    ensures
        big_a * b - big_b * a < a,
{
    // big_a · b · l  <=  a · o · b  <  (big_b + 1) · l · a
    assert((big_a * b) * l <= (a * b) * o) by (nonlinear_arith)
        requires
            big_a * l <= a * o,
            b >= 0,
    ;
    assert((a * b) * o < ((big_b + 1) * a) * l) by (nonlinear_arith)
        requires
            b * o < (big_b + 1) * l,
            a > 0,
    ;
    assert(big_a * b < (big_b + 1) * a) by (nonlinear_arith)
        requires
            (big_a * b) * l < ((big_b + 1) * a) * l,
            l > 0,
    ;
    assert((big_b + 1) * a == big_b * a + a) by (nonlinear_arith);
}

/// A jump hardly leaves the straight way to the pointer: with the jump and
/// the way laid side by side, the cross product of the two is smaller than
/// the way is long. So the tower lands less than one unit beside the line
/// from where it stood through the pointer.
pub proof fn lemma_jump_keeps_direction(vx: int, vy: int)
    requires
        vx != 0 || vy != 0,
    ensures
        sq(jump_lean(vx, vy)) < sq(vx) + sq(vy),
{
    let n = (sq(vx) + sq(vy)) as nat;
    let dx = jump_part(vx, n);
    let dy = jump_part(vy, n);
    let a = abs(vx);
    let b = abs(vy);
    let big_a = abs(dx);
    let big_b = abs(dy);
    let c = big_a * b - big_b * a;
    lemma_sq_abs(vx);
    lemma_sq_abs(vy);
    lemma_ring_squares();
    lemma_jump_lands_in_ring(vx, vy);
    lemma_lean_by_sizes(vx, vy, dx, dy);
    assert(0 * b == 0 && 0 * a == 0 && big_a * 0 == 0 && big_b * 0 == 0) by (nonlinear_arith);
    if n < TOWER_INNER * TOWER_INNER {
        let i2: int = TOWER_INNER * TOWER_INNER;
        lemma_stretched_bounds(vx, n);
        lemma_stretched_bounds(vy, n);
        lemma_sq_abs(dx);
        lemma_sq_abs(dy);
        assert(sq(big_a) == sq(dx) && sq(big_b) == sq(dy));
        if b > 0 && big_a >= 1 {
            if a == 0 {
                assert(big_a == 0);
            }
            lemma_stretched_side(a, b, big_a, big_b, n as int, i2);
        }
        if a > 0 && big_b >= 1 {
            if b == 0 {
                assert(big_b == 0);
            }
            lemma_stretched_side(b, a, big_b, big_a, n as int, i2);
        }
        assert(c < a || c < b) by {
            if b > 0 && big_a == 0 {
                assert(big_b * a >= 0) by (nonlinear_arith)
                    requires
                        big_b >= 0,
                        a >= 0,
                ;
            }
        }
        assert(-c < a || -c < b) by {
            if a > 0 && big_b == 0 {
                assert(big_a * b >= 0) by (nonlinear_arith)
                    requires
                        big_a >= 0,
                        b >= 0,
                ;
            }
        }
        lemma_small_lean(a, b, c);
    } else if n > TOWER_OUTER * TOWER_OUTER {
        let o: int = TOWER_OUTER as int;
        let l = ceil_sqrt(n) as int;
        lemma_shortened_bounds(vx, n);
        lemma_shortened_bounds(vy, n);
        assert(a * o >= 0 && b * o >= 0) by (nonlinear_arith)
            requires
                a >= 0,
                b >= 0,
                o >= 0,
        ;
        lemma_floor_div(a * o, l);
        lemma_floor_div(b * o, l);
        assert(big_a == (a * o) / l);
        assert(big_b == (b * o) / l);
        if a > 0 {
            lemma_shortened_side(a, b, big_a, big_b, l, o);
        }
        if b > 0 {
            lemma_shortened_side(b, a, big_b, big_a, l, o);
        }
        if a == 0 {
            assert(big_a == 0);
        }
        if b == 0 {
            assert(big_b == 0);
        }
        lemma_small_lean(a, b, c);
    } else {
        assert(c == 0) by (nonlinear_arith)
            requires
                c == a * b - b * a,
        ;
        lemma_small_lean(a, b, c);
    }
}

/// The size of one part of a jump, less the unit that rounding may have
/// added to it.
pub open spec fn jump_part_less_rounding(v: int, n: nat) -> int {
    if v == 0 {
        0
    } else {
        abs(jump_part(v, n)) - 1
    }
}

/// One part of a shortened jump, made two units longer, is longer than its
/// share of the outer radius.
proof fn lemma_shortened_is_tight(v: int, n: nat)
    requires
        n > TOWER_OUTER * TOWER_OUTER,
        v * v <= n,
    ensures
        sq(abs(shortened(v, n)) + 2) * n > v * v * (TOWER_OUTER * TOWER_OUTER),
{
    let o: int = TOWER_OUTER as int;
    let l = ceil_sqrt(n) as int;
    let a = abs(v);
    lemma_ring_squares();
    lemma_sq_abs(v);
    lemma_shortened_bounds(v, n);
    lemma_ceil_sqrt_bounds(n);
    let big_a = (a * o) / l;
    assert(a * o >= 0) by (nonlinear_arith)
        requires
            a >= 0,
            o >= 0,
    ;
    lemma_floor_div(a * o, l);
    assert(abs(shortened(v, n)) == big_a);
    // the length rounded up is the first whose square reaches n
    let k = l - 1;
    assert(k * k < n) by {
        if k * k >= n {
            let below: nat = k as nat;
            assert(n <= below * below);
        }
    }
    // a is at most l, so big_a is at most the outer radius, which is below l
    if a > l {
        lemma_sq_monotonic(l + 1, a);
        assert((l + 1) * (l + 1) > l * l) by (nonlinear_arith)
            requires
                l >= 0,
        ;
    }
    assert(big_a <= o) by (nonlinear_arith)
        requires
            big_a * l <= a * o,
            0 <= a <= l,
            l > 0,
            o >= 0,
            big_a >= 0,
    ;
    assert((big_a + 2) * k > a * o) by {
        if big_a <= l - 2 {
            assert((big_a + 2) * k >= (big_a + 1) * l) by (nonlinear_arith)
                requires
                    k == l - 1,
                    0 <= big_a <= l - 2,
            ;
        } else {
            // big_a == o == l - 1, which takes a == l
            assert(a >= l) by (nonlinear_arith)
                requires
                    big_a * l <= a * o,
                    big_a == o,
                    o > 0,
                    l > 0,
            ;
            assert((big_a + 2) * k > a * o) by (nonlinear_arith)
                requires
                    big_a == l - 1,
                    k == l - 1,
                    a == l,
                    o == l - 1,
                    l > 1,
            ;
        }
    }
    lemma_sq_monotonic(a * o + 1, (big_a + 2) * k);
    assert((a * o + 1) * (a * o + 1) > (a * o) * (a * o)) by (nonlinear_arith)
        requires
            a * o >= 0,
    ;
    lemma_sq_of_product(big_a + 2, k);
    lemma_sq_of_product(a, o);
    assert(sq(big_a + 2) * n >= sq(big_a + 2) * (k * k)) by (nonlinear_arith)
        requires
            n >= k * k,
            sq(big_a + 2) >= 0,
    ;
}

/// The length of a jump is the distance to the pointer, held between the
/// two radii. A jump that was stretched ends on or just outside the inner
/// circle: with each part that moves taken one unit shorter it ends inside
/// it. A jump that was cut back ends on or just inside the outer circle:
/// with each part taken two units longer it ends outside it.
pub proof fn lemma_jump_length_is_clamped(vx: int, vy: int)
    requires
        vx != 0 || vy != 0,
    ensures
        sq(vx) + sq(vy) < TOWER_INNER * TOWER_INNER ==> {
            let n = (sq(vx) + sq(vy)) as nat;
            &&& jump_sq(vx, vy) >= TOWER_INNER * TOWER_INNER
            &&& sq(jump_part_less_rounding(vx, n)) + sq(jump_part_less_rounding(vy, n))
                < TOWER_INNER * TOWER_INNER
        },
        TOWER_INNER * TOWER_INNER <= sq(vx) + sq(vy) <= TOWER_OUTER * TOWER_OUTER ==> jump_sq(
            vx,
            vy,
        ) == sq(vx) + sq(vy),
        sq(vx) + sq(vy) > TOWER_OUTER * TOWER_OUTER ==> {
            let n = (sq(vx) + sq(vy)) as nat;
            &&& jump_sq(vx, vy) <= TOWER_OUTER * TOWER_OUTER
            &&& sq(abs(jump_part(vx, n)) + 2) + sq(abs(jump_part(vy, n)) + 2) > TOWER_OUTER
                * TOWER_OUTER
        },
{
    let n = (sq(vx) + sq(vy)) as nat;
    lemma_sq_abs(vx);
    lemma_sq_abs(vy);
    lemma_ring_squares();
    lemma_jump_lands_in_ring(vx, vy);
    if n < TOWER_INNER * TOWER_INNER {
        let i2: int = TOWER_INNER * TOWER_INNER;
        lemma_stretched_bounds(vx, n);
        lemma_stretched_bounds(vy, n);
        let ex = jump_part_less_rounding(vx, n);
        let ey = jump_part_less_rounding(vy, n);
        assert(sq(0) == 0);
        assert(sq(ex) * n <= vx * vx * i2) by (nonlinear_arith)
            requires
                vx == 0 ==> sq(ex) == 0,
                vx != 0 ==> sq(ex) * n < vx * vx * i2,
                i2 >= 0,
        ;
        assert(sq(ey) * n <= vy * vy * i2) by (nonlinear_arith)
            requires
                vy == 0 ==> sq(ey) == 0,
                vy != 0 ==> sq(ey) * n < vy * vy * i2,
                i2 >= 0,
        ;
        assert(sq(ex) * n + sq(ey) * n < vx * vx * i2 + vy * vy * i2);
        assert(sq(ex) + sq(ey) < i2) by (nonlinear_arith)
            requires
                sq(ex) * n + sq(ey) * n < vx * vx * i2 + vy * vy * i2,
                n == vx * vx + vy * vy,
                n > 0,
        ;
    } else if n > TOWER_OUTER * TOWER_OUTER {
        let o2: int = TOWER_OUTER * TOWER_OUTER;
        lemma_shortened_is_tight(vx, n);
        lemma_shortened_is_tight(vy, n);
        let fx = abs(shortened(vx, n)) + 2;
        let fy = abs(shortened(vy, n)) + 2;
        assert(sq(fx) + sq(fy) > o2) by (nonlinear_arith)
            requires
                sq(fx) * n > vx * vx * o2,
                sq(fy) * n > vy * vy * o2,
                n == vx * vx + vy * vy,
                n > 0,
        ;
    }
}

} // verus!
