use vstd::prelude::*;
use vstd::arithmetic::div_mod::{lemma_fundamental_div_mod, lemma_fundamental_div_mod_converse};

verus! {

/// The fixed-point unit: `ONE` stands for 1.0 in coordinates, speeds and coefficients.
pub const ONE: i64 = 65536;

/// Floor of `a / b` for a positive divisor (the `/` of `int`).
pub fn div_floor(a: i128, b: i128) -> (r: i128)
    requires
        b > 0,
    ensures
        r == a / b,
{
    if a >= 0 {
        ((a as u128) / (b as u128)) as i128
    } else {
        let n: u128 = (-(a + 1)) as u128;
        let q: u128 = n / (b as u128);
        let rm: u128 = n % (b as u128);
        proof {
            lemma_fundamental_div_mod(n as int, b as int);
            assert(n == q * b + rm) by (nonlinear_arith)
                requires
                    n as int == (b as int) * ((n as int) / (b as int)) + ((n as int) % (b as int)),
                    q as int == (n as int) / (b as int),
                    rm as int == (n as int) % (b as int),
            ;
            assert(a == (-(q as int) - 1) * b + (b - rm - 1)) by (nonlinear_arith)
                requires n == q * b + rm, n == -(a + 1);
            lemma_fundamental_div_mod_converse(a as int, b as int, -(q as int) - 1, b - rm - 1);
        }
        -(q as i128) - 1
    }
}


/// Integer square root: the largest `r` with `r * r <= n`.
pub open spec fn root(n: nat) -> nat
    decreases n,
{
    if n == 0 {
        0
    } else {
        let r = root((n - 1) as nat);
        if (r + 1) * (r + 1) <= n {
            r + 1
        } else {
            r
        }
    }
}

/// Smallest `r` with `r * r >= n`.
pub open spec fn root_ceil(n: nat) -> nat {
    if root(n) * root(n) == n {
        root(n)
    } else {
        root(n) + 1
    }
}

pub proof fn lemma_root(n: nat)
    ensures
        root(n) * root(n) <= n < (root(n) + 1) * (root(n) + 1),
    decreases n,
{
    if n > 0 {
        lemma_root((n - 1) as nat);
        let r = root((n - 1) as nat);
        assert((r + 2) * (r + 2) == (r + 1) * (r + 1) + 2 * r + 3) by (nonlinear_arith);
        assert(r * r <= (r + 1) * (r + 1)) by (nonlinear_arith);
        if (r + 1) * (r + 1) <= n {
            assert(root(n) == r + 1);
            assert(n < (r + 2) * (r + 2));
            let s = root(n);
            assert(s * s <= n < (s + 1) * (s + 1));
        } else {
            assert(root(n) == r);
            assert(r * r <= n);
            assert(n < (r + 1) * (r + 1));
            let s = root(n);
            assert(s == r);
            assert(s * s <= n < (s + 1) * (s + 1));
        }
    } else {
        let s = root(n);
        assert(s == 0);
        assert(s * s == 0 && (s + 1) * (s + 1) == 1) by (nonlinear_arith)
            requires s == 0;
    }
}

/// Any `r` that brackets `n` between consecutive squares is the root of `n`.
pub proof fn lemma_root_unique(n: nat, r: nat)
    requires
        r * r <= n < (r + 1) * (r + 1),
    ensures
        root(n) == r,
{
    lemma_root(n);
    let s = root(n);
    if s < r {
        assert((s + 1) * (s + 1) <= r * r) by (nonlinear_arith)
            requires s < r;
    } else if s > r {
        assert((r + 1) * (r + 1) <= s * s) by (nonlinear_arith)
            requires s > r;
    }
}

pub proof fn lemma_root_ceil(n: nat)
    ensures
        n <= root_ceil(n) * root_ceil(n),
        root_ceil(n) == 0 || (root_ceil(n) - 1) * (root_ceil(n) - 1) < n,
{
    lemma_root(n);
    let r = root(n);
    if r > 0 {
        assert((r - 1) * (r - 1) < r * r) by (nonlinear_arith)
            requires r > 0;
    }
}

/// Bound under which squares stay within `u128`.
pub const SQRT_INPUT_LIMIT: u128 = 0x1000_0000_0000_0000_0000_0000_0000_0000;

/// Floor of the square root, by bisection.
pub fn isqrt(n: u128) -> (r: u128)
    requires
        n < SQRT_INPUT_LIMIT,
    ensures
        r == root(n as nat),
        r < 0x4000_0000_0000_0000,
{
    let mut lo: u128 = 0;
    let mut hi: u128 = 0x4000_0000_0000_0000;
    assert(n < hi * hi);
    while hi - lo > 1
        invariant
            lo < hi <= 0x4000_0000_0000_0000,
            lo * lo <= n,
            n < hi * hi,
        decreases hi - lo,
    {
        let mid: u128 = lo + (hi - lo) / 2;
        assert(mid * mid <= 0x4000_0000_0000_0000 * 0x4000_0000_0000_0000) by (nonlinear_arith)
            requires mid <= 0x4000_0000_0000_0000;
        if mid * mid <= n {
            lo = mid;
        } else {
            hi = mid;
        }
    }
    proof {
        lemma_root_unique(n as nat, lo as nat);
    }
    lo
}

/// Ceiling of the square root.
pub fn isqrt_ceil(n: u128) -> (r: u128)
    requires
        n < SQRT_INPUT_LIMIT,
    ensures
        r == root_ceil(n as nat),
        r <= 0x4000_0000_0000_0000,
{
    let r = isqrt(n);
    assert(r * r <= 0x4000_0000_0000_0000 * 0x4000_0000_0000_0000) by (nonlinear_arith)
        requires r < 0x4000_0000_0000_0000;
    proof {
        lemma_root(n as nat);
    }
    if r * r == n {
        r
    } else {
        r + 1
    }
}


pub open spec fn abs(x: int) -> int {
    if x >= 0 {
        x
    } else {
        -x
    }
}

/// Division rounded toward zero, for a positive divisor.
pub open spec fn div_trunc(a: int, b: int) -> int {
    if a >= 0 {
        a / b
    } else {
        -((-a) / b)
    }
}

pub fn div_trunc_exec(a: i128, b: u128) -> (r: i128)
    requires
        b > 0,
        a > i128::MIN,
    ensures
        r == div_trunc(a as int, b as int),
        abs(r as int) <= abs(a as int),
{
    if a >= 0 {
        let q: u128 = (a as u128) / b;
        assert(q <= a) by (nonlinear_arith)
            requires q == (a as int) / (b as int), a >= 0, b > 0;
        q as i128
    } else {
        let q: u128 = ((-a) as u128) / b;
        assert(q <= -a) by (nonlinear_arith)
            requires q == (-(a as int)) / (b as int), a < 0, b > 0;
        -(q as i128)
    }
}


pub proof fn lemma_root_le(n: nat, b: nat)
    requires
        n <= b * b,
    ensures
        root(n) <= b,
{
    lemma_root(n);
    let r = root(n);
    if r > b {
        assert(b * b < r * r) by (nonlinear_arith)
            requires r > b;
    }
}

} // verus!
