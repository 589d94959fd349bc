//! Whole-number square roots and the few facts about squares that the
//! geometry of the game rests on.

use vstd::prelude::*;

verus! {

/// The square of `a`.
pub open spec fn sq(a: int) -> int {
    a * a
}

/// Whether `r` is the whole part of the square root of `n`: the square of
/// `r` does not exceed `n`, and the square of the next number does.
pub open spec fn is_floor_sqrt(n: nat, r: nat) -> bool {
    r * r <= n < (r + 1) * (r + 1)
}

/// The largest natural number whose square does not exceed `n`.
pub open spec fn floor_sqrt(n: nat) -> nat {
    choose|r: nat| is_floor_sqrt(n, r)
}

/// A root found by halving: twice the root of a quarter of `n`, and one
/// more if that still fits.
spec fn root_by_quarters(n: nat) -> nat
    decreases n,
{
    if n == 0 {
        0
    } else {
        let r = 2 * root_by_quarters(n / 4);
        if (r + 1) * (r + 1) <= n {
            r + 1
        } else {
            r
        }
    }
}

/// Every natural number has a whole root.
proof fn lemma_root_exists(n: nat)
    ensures
        is_floor_sqrt(n, root_by_quarters(n)),
    decreases n,
{
    if n == 0 {
        assert(root_by_quarters(n) == 0);
        assert(0 * 0 == 0 && (0 + 1) * (0 + 1) == 1) by (nonlinear_arith);
    } else {
        let q = n / 4;
        let s = root_by_quarters(q);
        lemma_root_exists(q);
        let r = 2 * s;
        assert(4 * q <= n < 4 * q + 4);
        assert(r * r == 4 * (s * s)) by (nonlinear_arith)
            requires
                r == 2 * s,
        ;
        assert((r + 2) * (r + 2) == 4 * ((s + 1) * (s + 1))) by (nonlinear_arith)
            requires
                r == 2 * s,
        ;
        assert(r * r <= n);
        assert(n < (r + 2) * (r + 2));
        if (r + 1) * (r + 1) <= n {
            assert(root_by_quarters(n) == r + 1);
            assert((r + 1 + 1) * (r + 1 + 1) == (r + 2) * (r + 2));
            assert(root_by_quarters(n) * root_by_quarters(n) == (r + 1) * (r + 1));
        } else {
            assert(root_by_quarters(n) == r);
            assert(root_by_quarters(n) * root_by_quarters(n) == r * r);
        }
    }
}

/// The smallest natural number whose square is at least `n`.
pub open spec fn ceil_sqrt(n: nat) -> nat {
    let r = floor_sqrt(n);
    if r * r == n {
        r
    } else {
        r + 1
    }
}

/// Squaring keeps the order of natural numbers.
pub proof fn lemma_sq_monotonic(a: int, b: int)
    requires
        0 <= a <= b,
    ensures
        a * a <= b * b,
{
    assert(a * a <= b * b) by (nonlinear_arith)
        requires
            0 <= a <= b,
    ;
}

/// A smaller square has a smaller root.
pub proof fn lemma_sq_lt_implies_lt(a: int, b: int)
    requires
        0 <= a,
        0 <= b,
        a * a < b * b,
    ensures
        a < b,
{
    if a >= b {
        lemma_sq_monotonic(b, a);
    }
}

/// `floor_sqrt(n)` squared is at most `n`, and the next number squared is more.
pub proof fn lemma_floor_sqrt_bounds(n: nat)
    ensures
        floor_sqrt(n) * floor_sqrt(n) <= n,
        n < (floor_sqrt(n) + 1) * (floor_sqrt(n) + 1),
{
    lemma_root_exists(n);
    assert(is_floor_sqrt(n, floor_sqrt(n)));
}

/// Only one natural number has `n` between its square and the next square.
pub proof fn lemma_floor_sqrt_unique(n: nat, r: nat)
    requires
        r * r <= n,
        n < (r + 1) * (r + 1),
    ensures
        r == floor_sqrt(n),
{
    let f = floor_sqrt(n);
    lemma_floor_sqrt_bounds(n);
    if r < f {
        lemma_sq_monotonic(r as int + 1, f as int);
    } else if f < r {
        lemma_sq_monotonic(f as int + 1, r as int);
    }
}

/// `ceil_sqrt(n)` squared is at least `n`, and no smaller number does that.
pub proof fn lemma_ceil_sqrt_bounds(n: nat)
    ensures
        n <= ceil_sqrt(n) * ceil_sqrt(n),
        forall|m: nat| n <= #[trigger] (m * m) ==> ceil_sqrt(n) <= m,
{
    let f = floor_sqrt(n);
    lemma_floor_sqrt_bounds(n);
    assert forall|m: nat| n <= #[trigger] (m * m) implies ceil_sqrt(n) <= m by {
        if m < ceil_sqrt(n) {
            if f * f == n {
                lemma_sq_monotonic(m as int + 1, f as int);
                assert((m + 1) * (m + 1) == m * m + 2 * m + 1) by (nonlinear_arith);
            } else {
                lemma_sq_monotonic(m as int, f as int);
            }
        }
    }
}

/// The whole part of the square root of `n`.
pub fn isqrt(n: u128) -> (r: u64)
    ensures
        r == floor_sqrt(n as nat),
{
    let mut lo: u128 = 0;
    let mut hi: u128 = 0x1_0000_0000_0000_0000;
    while hi - lo > 1
        invariant
            lo < hi <= 0x1_0000_0000_0000_0000,
            lo * lo <= n,
            n < hi * hi,
        decreases hi - lo,
    {
        let mid: u128 = lo + (hi - lo) / 2;
        assert(mid * mid <= 0xffff_ffff_ffff_ffff * 0xffff_ffff_ffff_ffff) by (nonlinear_arith)
            requires
                0 <= mid <= 0xffff_ffff_ffff_ffff,
        ;
        if mid * mid <= n {
            lo = mid;
        } else {
            hi = mid;
        }
    }
    proof {
        lemma_floor_sqrt_unique(n as nat, lo as nat);
    }
    lo as u64
}

/// The square root of `n`, rounded up to a whole number.
pub fn isqrt_ceil(n: u128) -> (r: u128)
    ensures
        r == ceil_sqrt(n as nat),
{
    let f: u64 = isqrt(n);
    let g: u128 = f as u128;
    proof {
        lemma_floor_sqrt_bounds(n as nat);
    }
    if g * g == n {
        g
    } else {
        g + 1
    }
}

/// The square of a product is the product of the squares.
pub proof fn lemma_sq_of_product(a: int, b: int)
    ensures
        (a * b) * (a * b) == (a * a) * (b * b),
{
    assert((a * b) * (a * b) == (a * a) * (b * b)) by (nonlinear_arith);
}

/// Dividing what is not negative by what is positive rounds down.
pub proof fn lemma_floor_div(a: int, d: int)
    requires
        a >= 0,
        d > 0,
    ensures
        0 <= (a / d) * d <= a,
        a < (a / d + 1) * d,
{
    let q = a / d;
    let r = a % d;
    assert(a == q * d + r && 0 <= r < d && q >= 0) by (nonlinear_arith)
        requires
            a >= 0,
            d > 0,
            q == a / d,
            r == a % d,
    ;
    assert((q + 1) * d == q * d + d) by (nonlinear_arith);
    assert(q * d >= 0) by (nonlinear_arith)
        requires
            q >= 0,
            d > 0,
    ;
}

/// `v * num / den`, rounded towards zero.
pub open spec fn mul_div_toward_zero(v: int, num: int, den: int) -> int {
    if v >= 0 {
        (v * num) / den
    } else {
        -((-v * num) / den)
    }
}

/// `a / den`, rounded up, for `a` that is not negative.
pub open spec fn div_ceil(a: int, den: int) -> int {
    if a % den == 0 {
        a / den
    } else {
        a / den + 1
    }
}

/// The value nearest to `v` that an `i64` can hold.
pub open spec fn clamp_i64(v: int) -> i64 {
    if v < i64::MIN {
        i64::MIN
    } else if v > i64::MAX {
        i64::MAX
    } else {
        v as i64
    }
}

/// The size of `v` without its sign.
pub fn magnitude(v: i64) -> (m: u64)
    ensures
        m == if v >= 0 { v as int } else { -v },
{
    if v >= 0 {
        v as u64
    } else {
        let wide: i128 = -(v as i128);
        wide as u64
    }
}

/// `|v| * num`, which always fits.
fn scaled_magnitude(v: i64, num: u64) -> (p: u128)
    ensures
        v >= 0 ==> p == v * num,
        v < 0 ==> p == -v * num,
        p <= 0x7fff_ffff_ffff_ffff_8000_0000_0000_0000,
{
    let m: u128 = magnitude(v) as u128;
    let wide: u128 = num as u128;
    assert(m * wide <= 0x8000_0000_0000_0000 * 0xffff_ffff_ffff_ffff) by (nonlinear_arith)
        requires
            0 <= m <= 0x8000_0000_0000_0000,
            0 <= wide <= 0xffff_ffff_ffff_ffff,
    ;
    let p: u128 = m * wide;
    assert(v < 0 ==> m * wide == -v * num) by (nonlinear_arith)
        requires
            v < 0 ==> m == -v,
            wide == num,
    ;
    p
}

/// Scales `v` by `num / den` and drops the fraction.
pub fn scale_toward_zero(v: i64, num: u64, den: u128) -> (r: i128)
    requires
        den > 0,
    ensures
        r == mul_div_toward_zero(v as int, num as int, den as int),
{
    let p: u128 = scaled_magnitude(v, num);
    let q: u128 = p / den;
    assert(q <= p) by (nonlinear_arith)
        requires
            q == p / den,
            den > 0,
            p >= 0,
    ;
    if v >= 0 {
        q as i128
    } else {
        -(q as i128)
    }
}

/// Brings a wide value back into the range of a coordinate.
pub fn saturate(v: i128) -> (r: i64)
    ensures
        r == clamp_i64(v as int),
{
    if v < i64::MIN as i128 {
        i64::MIN
    } else if v > i64::MAX as i128 {
        i64::MAX
    } else {
        v as i64
    }
}

/// Ten to the power of `k`.
pub open spec fn pow10(k: nat) -> nat
    decreases k,
{
    if k == 0 {
        1
    } else {
        10 * pow10((k - 1) as nat)
    }
}

/// Powers of ten grow with the exponent.
pub proof fn lemma_pow10_grows(a: nat, b: nat)
    requires
        a <= b,
    ensures
        pow10(a) <= pow10(b),
        pow10(a) >= 1,
    decreases b,
{
    if a == 0 {
        if b > 0 {
            lemma_pow10_grows(0, (b - 1) as nat);
        }
    } else {
        lemma_pow10_grows((a - 1) as nat, (b - 1) as nat);
    }
}

} // verus!
