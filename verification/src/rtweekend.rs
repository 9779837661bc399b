use rand::Rng;
use vstd::arithmetic::div_mod::{
    lemma_div_is_ordered, lemma_div_nonincreasing, lemma_div_pos_is_pos,
};
use vstd::prelude::*;

verus! {

/// One whole unit of the fixed-point scale. Every real-valued quantity of the
/// renderer (coordinate, colour channel, ray parameter) is carried as an
/// `i64` holding the quantity times `SCALE`.
pub const SCALE: i64 = 65536;

/// Stand-in for an unbounded upper ray parameter: the intersection routines
/// accept parameters of magnitude up to this value.
pub const INFINITY: i64 = 0x8000_0000_0000;

/// Largest coordinate magnitude the geometry accepts for ray origins and
/// directions, sphere centers and radii. Keeps every intermediate product of
/// the quadratic solver inside `i128`.
pub const COORD_MAX: i64 = 0x2000_0000;

/// Largest magnitude a hit-record normal component may have; a unit normal
/// has magnitude about `SCALE`, so this leaves a factor of two of slack.
pub const NORMAL_MAX: i64 = 0x20000;

/// Largest refractive index the dielectric material accepts (4.0, beyond any
/// common transparent medium).
pub const IOR_MAX: i64 = 0x40000;

/// Shadow-acne epsilon: the lower ray-parameter bound the integrator uses so
/// a scattered ray does not re-hit its own origin (about 0.001 units).
pub const T_EPSILON: i64 = 66;

/// Magnitude of an integer.
pub open spec fn iabs(a: int) -> int {
    if a >= 0 {
        a
    } else {
        -a
    }
}

/// Division rounding toward zero, the rounding every scaling step of the
/// renderer uses (it is the semantics of `/` on the machine integers).
pub open spec fn tdiv(a: int, b: int) -> int {
    if (a >= 0) == (b >= 0) {
        iabs(a) / iabs(b)
    } else {
        -(iabs(a) / iabs(b))
    }
}

/// The magnitude of a truncating quotient never exceeds the magnitude of the
/// dividend (for a nonzero divisor), and never exceeds `iabs(a)/iabs(b)`.
pub proof fn lemma_tdiv_bounds(a: int, b: int)
    requires
        b != 0,
    ensures
        iabs(tdiv(a, b)) <= iabs(a),
        iabs(tdiv(a, b)) == iabs(a) / iabs(b),
        iabs(a) < iabs(b) ==> tdiv(a, b) == 0,
{
    lemma_div_pos_is_pos(iabs(a), iabs(b));
    lemma_div_nonincreasing(iabs(a), iabs(b));
    if iabs(a) < iabs(b) {
        assert(iabs(a) / iabs(b) == 0) by {
            vstd::arithmetic::div_mod::lemma_basic_div(iabs(a), iabs(b));
        }
    }
}

/// A truncating quotient of nonnegative operands is nonnegative.
pub proof fn lemma_tdiv_sign(a: int, b: int)
    requires
        a >= 0,
        b > 0,
    ensures
        tdiv(a, b) >= 0,
{
    lemma_div_pos_is_pos(a, b);
}

/// Truncating division on `i64`, with its exact value as the contract.
pub fn tdiv64(a: i64, b: i64) -> (r: i64)
    requires
        b != 0,
        -0x4000_0000_0000_0000 <= a <= 0x4000_0000_0000_0000,
        -0x4000_0000_0000_0000 <= b <= 0x4000_0000_0000_0000,
    ensures
        r == tdiv(a as int, b as int),
        iabs(r as int) <= iabs(a as int),
{
    proof {
        lemma_tdiv_bounds(a as int, b as int);
    }
    if a >= 0 {
        if b > 0 {
            a / b
        } else {
            -(a / (-b))
        }
    } else {
        if b > 0 {
            -((-a) / b)
        } else {
            (-a) / (-b)
        }
    }
}

/// Truncating division on `i128`, with its exact value as the contract.
pub fn tdiv128(a: i128, b: i128) -> (r: i128)
    requires
        b != 0,
        iabs(a as int) < 0x4000_0000_0000_0000_0000_0000_0000_0000,
        iabs(b as int) < 0x4000_0000_0000_0000_0000_0000_0000_0000,
    ensures
        r == tdiv(a as int, b as int),
        iabs(r as int) <= iabs(a as int),
{
    proof {
        lemma_tdiv_bounds(a as int, b as int);
    }
    if a >= 0 {
        if b > 0 {
            a / b
        } else {
            -(a / (-b))
        }
    } else {
        if b > 0 {
            -((-a) / b)
        } else {
            (-a) / (-b)
        }
    }
}

/// Whether `r` is the integer square root (rounded down) of `n`.
pub open spec fn is_sqrt_floor(n: int, r: int) -> bool {
    0 <= r && r * r <= n && n < (r + 1) * (r + 1)
}

/// The integer square root, rounded down, of a nonnegative integer.
pub open spec fn sqrt_floor(n: int) -> int {
    choose|r: int| is_sqrt_floor(n, r)
}

/// The integer square root is unique.
pub proof fn lemma_sqrt_floor_unique(n: int, r1: int, r2: int)
    requires
        is_sqrt_floor(n, r1),
        is_sqrt_floor(n, r2),
    ensures
        r1 == r2,
{
    if r1 < r2 {
        assert((r1 + 1) * (r1 + 1) <= r2 * r2) by (nonlinear_arith)
            requires
                0 <= r1,
                r1 < r2,
        ;
    }
    if r2 < r1 {
        assert((r2 + 1) * (r2 + 1) <= r1 * r1) by (nonlinear_arith)
            requires
                0 <= r2,
                r2 < r1,
        ;
    }
}

/// Any witness of `is_sqrt_floor` is the value of `sqrt_floor`.
pub proof fn lemma_sqrt_floor_is(n: int, r: int)
    requires
        is_sqrt_floor(n, r),
    ensures
        sqrt_floor(n) == r,
{
    assert(is_sqrt_floor(n, sqrt_floor(n)));
    lemma_sqrt_floor_unique(n, sqrt_floor(n), r);
}

/// Integer square root by binary search.
pub fn isqrt(n: u128) -> (r: u128)
    requires
        (n as int) < 0x4000_0000_0000_0000_0000_0000_0000_0000,
    ensures
        is_sqrt_floor(n as int, r as int),
        sqrt_floor(n as int) == r as int,
{
    let mut lo: u128 = 0;
    let mut hi: u128 = 0x8000_0000_0000_0000;
    assert(hi * hi == 0x4000_0000_0000_0000_0000_0000_0000_0000);
    while lo + 1 < hi
        invariant
            0 <= lo < hi <= 0x8000_0000_0000_0000,
            lo * lo <= n,
            (n as int) < (hi as int) * (hi as int),
        decreases hi - lo,
    {
        let mid = lo + (hi - lo) / 2;
        assert(lo < mid < hi);
        assert(mid * mid <= 0x4000_0000_0000_0000_0000_0000_0000_0000) by (nonlinear_arith)
            requires
                0 < mid <= 0x8000_0000_0000_0000,
        ;
        if mid * mid <= n {
            lo = mid;
        } else {
            hi = mid;
        }
    }
    proof {
        lemma_sqrt_floor_is(n as int, lo as int);
    }
    lo
}

/// Clamps `x` into `[min_v, max_v]`.
pub open spec fn clamp_spec(x: int, min_v: int, max_v: int) -> int {
    if x < min_v {
        min_v
    } else if x > max_v {
        max_v
    } else {
        x
    }
}

/// Restricts a value to a closed interval.
pub fn clamp(x: i64, min_v: i64, max_v: i64) -> (r: i64)
    requires
        min_v <= max_v,
    ensures
        r == clamp_spec(x as int, min_v as int, max_v as int),
{
    if x < min_v {
        min_v
    } else if x > max_v {
        max_v
    } else {
        x
    }
}

/// A uniform fixed-point sample of [0, 1).
///
/// Relies on rand's `Rng::gen_range` over the integer range `0..SCALE`: the
/// result lies in that range; the range is not empty, so it does not panic.
#[verifier::external_body]
pub fn rand_01() -> (r: i64)
    ensures
        0 <= r < SCALE,
{
    let mut rng = rand::thread_rng();
    rng.gen_range(0..SCALE)
}

/// A uniform fixed-point sample of [min_v, max_v).
///
/// Relies on rand's `Rng::gen_range` over the half-open integer range
/// `min_v..max_v`: the result lies in that range; the requires keeps the
/// range nonempty, so it does not panic.
#[verifier::external_body]
pub fn rand_double(min_v: i64, max_v: i64) -> (r: i64)
    requires
        min_v < max_v,
    ensures
        min_v <= r < max_v,
{
    let mut rng = rand::thread_rng();
    rng.gen_range(min_v..max_v)
}

/// A uniform integer sample of [min_v, max_v], both ends included.
///
/// Relies on rand's `Rng::gen_range` over the inclusive integer range
/// `min_v..=max_v`: the result lies in that range; the requires keeps the
/// range nonempty, so it does not panic.
#[verifier::external_body]
pub fn rand_int(min_v: i32, max_v: i32) -> (r: i32)
    requires
        min_v <= max_v,
    ensures
        min_v <= r <= max_v,
{
    let mut rng = rand::thread_rng();
    rng.gen_range(min_v..=max_v)
}

/// A truncating quotient is monotone in the dividend for a positive
/// divisor.
pub proof fn lemma_tdiv_monotone(n1: int, n2: int, b: int)
    requires
        b >= 1,
        n1 <= n2,
    ensures
        tdiv(n1, b) <= tdiv(n2, b),
{
    if n1 >= 0 {
        lemma_div_is_ordered(n1, n2, b);
    } else if n2 < 0 {
        lemma_div_is_ordered(-n2, -n1, b);
    } else {
        lemma_div_pos_is_pos(n2, b);
        lemma_div_pos_is_pos(-n1, b);
    }
}

/// Every nonnegative integer has an integer square root.
pub proof fn lemma_sqrt_floor_exists(n: nat)
    ensures
        is_sqrt_floor(n as int, sqrt_floor(n as int)),
        sqrt_floor(n as int) >= 0,
    decreases n,
{
    if n == 0 {
        assert(is_sqrt_floor(0, 0));
    } else {
        lemma_sqrt_floor_exists((n - 1) as nat);
        let r = sqrt_floor((n - 1) as int);
        if (r + 1) * (r + 1) <= n {
            assert(is_sqrt_floor(n as int, r + 1)) by {
                assert((r + 1) * (r + 1) < (r + 2) * (r + 2)) by (nonlinear_arith)
                    requires
                        r >= 0,
                ;
            }
            lemma_sqrt_floor_is(n as int, r + 1);
        } else {
            assert(is_sqrt_floor(n as int, r));
            lemma_sqrt_floor_is(n as int, r);
        }
    }
}

/// Dividing an exact multiple returns the factor (truncation loses
/// nothing).
pub proof fn lemma_tdiv_mul_cancel(k: int, b: int)
    requires
        b >= 1,
    ensures
        tdiv(k * b, b) == k,
{
    if k >= 0 {
        assert(k * b >= 0) by (nonlinear_arith)
            requires
                k >= 0,
                b >= 1,
        ;
        assert((k * b) / b == k) by {
            vstd::arithmetic::div_mod::lemma_div_by_multiple(k, b);
        }
    } else {
        assert(k * b < 0) by (nonlinear_arith)
            requires
                k < 0,
                b >= 1,
        ;
        assert(-(k * b) == (-k) * b) by (nonlinear_arith);
        assert(((-k) * b) / b == -k) by {
            vstd::arithmetic::div_mod::lemma_div_by_multiple(-k, b);
        }
    }
}

} // verus!
