//! Fixed-point scalars and complex amplitudes.
use vstd::prelude::*;

verus! {

/// The fixed-point representation of the real number one: thirty fractional bits.
pub const ONE: i64 = 0x4000_0000;

/// Largest absolute value of a component of an amplitude (1024 in real terms).
pub const AMP_LIMIT: i64 = 0x100_0000_0000;

/// Largest absolute value of a component for which products are formed.
pub const FACTOR_LIMIT: i64 = 0x4000_0000_0000_0000;

/// Quotient of `n` by a positive `d`, rounded toward zero.
pub open spec fn div_toward_zero(n: int, d: int) -> int
    recommends
        d > 0,
{
    if n >= 0 {
        n / d
    } else {
        -((-n) / d)
    }
}

/// Computes the quotient rounded toward zero.
pub fn quotient(n: i128, d: i128) -> (r: i128)
    requires
        d > 0,
        n > i128::MIN,
    ensures
        r == div_toward_zero(n as int, d as int),
{
    if n >= 0 {
        n / d
    } else {
        -((-n) / d)
    }
}

/// `r` is the integer square root of `n`: the largest number whose square is at most `n`.
pub open spec fn is_sqrt_floor(n: nat, r: nat) -> bool {
    r * r <= n && n < (r + 1) * (r + 1)
}

/// The integer square root of `n`.
pub open spec fn sqrt_floor(n: nat) -> nat {
    choose|r: nat| is_sqrt_floor(n, r)
}

/// A number has at most one integer square root.
pub proof fn lemma_sqrt_floor_unique(n: nat, a: nat, b: nat)
    requires
        is_sqrt_floor(n, a),
        is_sqrt_floor(n, b),
    ensures
        a == b,
{
    if a < b {
        assert((a + 1) * (a + 1) <= b * b) by (nonlinear_arith)
            requires
                a + 1 <= b,
        ;
    } else if b < a {
        assert((b + 1) * (b + 1) <= a * a) by (nonlinear_arith)
            requires
                b + 1 <= a,
        ;
    }
}

/// Whoever satisfies the defining inequalities is the integer square root.
pub proof fn lemma_sqrt_floor_is(n: nat, r: nat)
    requires
        is_sqrt_floor(n, r),
    ensures
        sqrt_floor(n) == r,
{
    lemma_sqrt_floor_unique(n, r, sqrt_floor(n));
}

/// Computes the integer square root by bisection.
pub fn isqrt(n: u128) -> (r: u64)
    ensures
        is_sqrt_floor(n as nat, r as nat),
        r == sqrt_floor(n as nat),
{
    let mut lo: u128 = 0;
    let mut hi: u128 = 0x1_0000_0000_0000_0000;
    assert(lo * lo <= n);
    assert(n < hi * hi) by (nonlinear_arith)
        requires
            hi == 0x1_0000_0000_0000_0000,
            n <= u128::MAX,
    ;
    while hi - lo > 1
        invariant
            lo < hi <= 0x1_0000_0000_0000_0000,
            lo * lo <= n,
            n < hi * hi,
        decreases hi - lo,
    {
        let mid: u128 = lo + (hi - lo) / 2;
        assert(mid * mid <= u128::MAX) by (nonlinear_arith)
            requires
                mid <= 0xFFFF_FFFF_FFFF_FFFF,
        ;
        if mid * mid <= n {
            lo = mid;
        } else {
            hi = mid;
        }
    }
    proof {
        lemma_sqrt_floor_is(n as nat, lo as nat);
    }
    lo as u64
}

/// A complex fixed-point number.
#[derive(Clone, Copy, PartialEq, Eq, Structural, Debug)]
pub struct Complex {
    pub re: i64,
    pub im: i64,
}

/// The absolute value of a sixty-four bit integer.
pub fn abs_i64(a: i64) -> (r: u64)
    ensures
        r == (if a >= 0 { a as int } else { -(a as int) }),
{
    if a >= 0 {
        a as u64
    } else {
        (-(a as i128)) as u64
    }
}

impl Complex {
    /// Both components lie within the range allowed for amplitudes.
    pub open spec fn in_range(self) -> bool {
        -AMP_LIMIT <= self.re <= AMP_LIMIT && -AMP_LIMIT <= self.im <= AMP_LIMIT
    }

    /// Both components are small enough for products to be formed.
    pub open spec fn moderate(self) -> bool {
        -FACTOR_LIMIT <= self.re <= FACTOR_LIMIT && -FACTOR_LIMIT <= self.im <= FACTOR_LIMIT
    }

    /// Both components are zero.
    pub open spec fn is_zero(self) -> bool {
        self.re == 0 && self.im == 0
    }

    /// The squared magnitude, in units of `ONE * ONE`.
    pub open spec fn norm_sqr(self) -> nat {
        (self.re * self.re + self.im * self.im) as nat
    }

    /// The magnitude, rounded down.
    pub open spec fn norm(self) -> nat {
        sqrt_floor(self.norm_sqr())
    }

    /// The fixed-point product of two complex numbers, each component rounded toward zero.
    pub open spec fn product(self, other: Complex) -> (int, int) {
        (
            div_toward_zero(self.re * other.re - self.im * other.im, ONE as int),
            div_toward_zero(self.re * other.im + self.im * other.re, ONE as int),
        )
    }

    /// The complex number with the given components, if both are in the amplitude range.
    pub open spec fn narrow(re: int, im: int) -> Option<Complex> {
        if -AMP_LIMIT <= re <= AMP_LIMIT && -AMP_LIMIT <= im <= AMP_LIMIT {
            Some(Complex { re: re as i64, im: im as i64 })
        } else {
            None
        }
    }

    /// The number zero.
    pub fn zero() -> (r: Complex)
        ensures
            r == (Complex { re: 0, im: 0 }),
    {
        Complex { re: 0, im: 0 }
    }

    /// Computes the squared magnitude.
    pub fn squared_norm(&self) -> (r: u128)
        ensures
            r == self.norm_sqr(),
    {
        let a: u128 = abs_i64(self.re) as u128;
        let b: u128 = abs_i64(self.im) as u128;
        assert(a * a == self.re * self.re) by (nonlinear_arith)
            requires
                a == self.re || a == -self.re,
        ;
        assert(b * b == self.im * self.im) by (nonlinear_arith)
            requires
                b == self.im || b == -self.im,
        ;
        assert(a * a <= 0x4000_0000_0000_0000_0000_0000_0000_0000) by (nonlinear_arith)
            requires
                a <= 0x8000_0000_0000_0000,
        ;
        assert(b * b <= 0x4000_0000_0000_0000_0000_0000_0000_0000) by (nonlinear_arith)
            requires
                b <= 0x8000_0000_0000_0000,
        ;
        a * a + b * b
    }

    /// Computes the magnitude, rounded down.
    pub fn magnitude(&self) -> (r: u64)
        ensures
            r == self.norm(),
    {
        isqrt(self.squared_norm())
    }

    /// Forms the fixed-point product of two moderate complex numbers.
    pub fn times(&self, other: &Complex) -> (r: (i128, i128))
        requires
            self.moderate(),
            other.moderate(),
        ensures
            r.0 == self.product(*other).0,
            r.1 == self.product(*other).1,
    {
        let a: i128 = self.re as i128;
        let b: i128 = self.im as i128;
        let c: i128 = other.re as i128;
        let d: i128 = other.im as i128;
        proof {
            lemma_product_bound(a as int, c as int);
            lemma_product_bound(b as int, d as int);
            lemma_product_bound(a as int, d as int);
            lemma_product_bound(b as int, c as int);
        }
        (quotient(a * c - b * d, ONE as i128), quotient(a * d + b * c, ONE as i128))
    }

    /// This number times the real factor `f`, each component rounded toward zero.
    pub open spec fn scaled(self, f: i64) -> Complex {
        Complex {
            re: div_toward_zero(self.re * f, ONE as int) as i64,
            im: div_toward_zero(self.im * f, ONE as int) as i64,
        }
    }

    /// Multiplies an amplitude by a factor between zero and `ONE`. Neither component grows.
    pub fn scale(&self, f: i64) -> (r: Complex)
        requires
            self.in_range(),
            0 <= f <= ONE,
        ensures
            r == self.scaled(f),
            r.in_range(),
    {
        proof {
            lemma_scaled_in_range(self.re as int, f as int);
            lemma_scaled_in_range(self.im as int, f as int);
        }
        let re = quotient(self.re as i128 * f as i128, ONE as i128);
        let im = quotient(self.im as i128 * f as i128, ONE as i128);
        Complex { re: re as i64, im: im as i64 }
    }

    /// Narrows two wide components to an amplitude, if they are in range.
    pub fn narrowed(re: i128, im: i128) -> (r: Option<Complex>)
        ensures
            r == Complex::narrow(re as int, im as int),
    {
        if -(AMP_LIMIT as i128) <= re && re <= AMP_LIMIT as i128 && -(AMP_LIMIT as i128) <= im
            && im <= AMP_LIMIT as i128 {
            Some(Complex { re: re as i64, im: im as i64 })
        } else {
            None
        }
    }
}

/// The product of two numbers of magnitude at most `FACTOR_LIMIT` has magnitude at most
/// the square of that limit.
pub proof fn lemma_product_bound(a: int, b: int)
    requires
        -FACTOR_LIMIT <= a <= FACTOR_LIMIT,
        -FACTOR_LIMIT <= b <= FACTOR_LIMIT,
    ensures
        -0x1000_0000_0000_0000_0000_0000_0000_0000 <= a * b
            <= 0x1000_0000_0000_0000_0000_0000_0000_0000,
{
    assert(-0x1000_0000_0000_0000_0000_0000_0000_0000 <= a * b
        <= 0x1000_0000_0000_0000_0000_0000_0000_0000) by (nonlinear_arith)
        requires
            -0x4000_0000_0000_0000 <= a <= 0x4000_0000_0000_0000,
            -0x4000_0000_0000_0000 <= b <= 0x4000_0000_0000_0000,
    ;
}

/// A number times a factor between zero and `ONE`, in fixed point, is no larger in
/// magnitude than the number, and has its sign or is zero.
pub proof fn lemma_scaled_in_range(a: int, f: int)
    requires
        0 <= f <= ONE,
    ensures
        a >= 0 ==> 0 <= div_toward_zero(a * f, ONE as int) <= a,
        a <= 0 ==> a <= div_toward_zero(a * f, ONE as int) <= 0,
        -0x4000_0000 * (if a >= 0 { a } else { -a }) <= a * f <= 0x4000_0000 * (if a >= 0 { a } else { -a }),
{
    if a >= 0 {
        assert(0 <= a * f <= 0x4000_0000 * a) by (nonlinear_arith)
            requires
                0 <= f <= 0x4000_0000,
                a >= 0,
        ;
    } else {
        assert(0x4000_0000 * a <= a * f <= 0) by (nonlinear_arith)
            requires
                0 <= f <= 0x4000_0000,
                a <= 0,
        ;
    }
}

/// Every number has an integer square root.
pub proof fn lemma_sqrt_floor_exists(n: nat)
    ensures
        is_sqrt_floor(n, sqrt_floor(n)),
    decreases n,
{
    if n == 0 {
        assert(0nat * 0nat <= 0nat && 0nat < (0nat + 1) * (0nat + 1)) by (nonlinear_arith);
        assert(is_sqrt_floor(0, 0));
        lemma_sqrt_floor_is(0, 0);
    } else {
        lemma_sqrt_floor_exists((n - 1) as nat);
        let r = sqrt_floor((n - 1) as nat);
        if n < (r + 1) * (r + 1) {
            assert(is_sqrt_floor(n, r));
            lemma_sqrt_floor_is(n, r);
        } else {
            assert((r + 1) * (r + 1) < (r + 1 + 1) * (r + 1 + 1)) by (nonlinear_arith);
            assert(is_sqrt_floor(n, r + 1));
            lemma_sqrt_floor_is(n, r + 1);
        }
    }
}

/// A complex number whose squared magnitude is at least `m * m` has a magnitude of at
/// least `m`.
pub proof fn lemma_norm_at_least(a: Complex, m: nat)
    requires
        a.norm_sqr() >= m * m,
    ensures
        a.norm() >= m,
{
    lemma_sqrt_floor_exists(a.norm_sqr());
    let r = a.norm();
    if r < m {
        assert((r + 1) * (r + 1) <= m * m) by (nonlinear_arith)
            requires
                r + 1 <= m,
        ;
    }
}

} // verus!
