//! The two lookup tables: pulse mixing under field inhomogeneity, and exponential decay.
use crate::fixed::{div_toward_zero, quotient, ONE};
use vstd::arithmetic::div_mod::lemma_div_is_ordered;
use vstd::prelude::*;

verus! {

/// The number of samples that the mixing table holds.
pub const B1_SAMPLES: usize = 361;

/// By how much the sum of the squares of a cosine and a sine may differ from `ONE * ONE`:
/// twice `ONE`. Rounding each value to the nearest fixed-point number changes the sum by
/// less than one and a half times `ONE`.
pub const ROTATION_TOLERANCE: i64 = 0x8000_0000;

/// A rotation angle, held as its cosine and sine in fixed point.
#[derive(Clone, Copy, PartialEq, Eq, Structural, Debug)]
pub struct Rotation {
    pub cos: i64,
    pub sin: i64,
}

impl Rotation {
    /// Both values lie in `[-ONE, ONE]`.
    pub open spec fn unit(self) -> bool {
        -ONE <= self.cos <= ONE && -ONE <= self.sin <= ONE
    }

    /// The sum of the squares of the two values.
    pub open spec fn square_sum(self) -> int {
        self.cos * self.cos + self.sin * self.sin
    }

    /// The pair is the cosine and the sine of an angle, as far as rounding each of them
    /// to the nearest fixed-point number allows: both lie in `[-ONE, ONE]`, and the sum
    /// of their squares differs from `ONE * ONE` by at most `ROTATION_TOLERANCE`.
    pub open spec fn normalized(self) -> bool {
        &&& self.unit()
        &&& ONE * ONE - ROTATION_TOLERANCE <= self.square_sum() <= ONE * ONE
            + ROTATION_TOLERANCE
    }

    /// Tells whether the pair is the cosine and the sine of an angle, up to rounding.
    pub fn is_normalized(&self) -> (r: bool)
        ensures
            r == self.normalized(),
    {
        if !self.is_unit() {
            return false;
        }
        let c: i128 = self.cos as i128;
        let s: i128 = self.sin as i128;
        assert(0 <= c * c <= 0x1000_0000_0000_0000 && 0 <= s * s <= 0x1000_0000_0000_0000)
            by (nonlinear_arith)
            requires
                -0x4000_0000 <= c <= 0x4000_0000,
                -0x4000_0000 <= s <= 0x4000_0000,
        ;
        assert(ONE * ONE == 0x1000_0000_0000_0000) by (nonlinear_arith)
            requires
                ONE == 0x4000_0000,
        ;
        let sum: i128 = c * c + s * s;
        let one: i128 = 0x1000_0000_0000_0000;
        one - ROTATION_TOLERANCE as i128 <= sum && sum <= one + ROTATION_TOLERANCE as i128
    }

    /// Tells whether both values lie in `[-ONE, ONE]`.
    pub fn is_unit(&self) -> (r: bool)
        ensures
            r == self.unit(),
    {
        -ONE <= self.cos && self.cos <= ONE && -ONE <= self.sin && self.sin <= ONE
    }
}

/// One sample of the mixing table: the mixing coefficients of the extra rotation by which
/// the field at that sample turns magnetization further than the nominal flip angle.
#[derive(Clone, Copy, PartialEq, Eq, Structural, Debug)]
pub struct B1Sample {
    /// The sine of the extra angle.
    pub sin: i64,
    /// The squared cosine of half the extra angle.
    pub cos_sq_half: i64,
    /// The squared sine of half the extra angle.
    pub sin_sq_half: i64,
}

impl B1Sample {
    /// All three values lie in `[-ONE, ONE]`.
    pub open spec fn unit(self) -> bool {
        &&& -ONE <= self.sin <= ONE
        &&& -ONE <= self.cos_sq_half <= ONE
        &&& -ONE <= self.sin_sq_half <= ONE
    }

    /// The sample of a perfectly homogeneous field: no extra rotation.
    pub fn flat() -> (r: B1Sample)
        ensures
            r == (B1Sample { sin: 0, cos_sq_half: ONE, sin_sq_half: 0 }),
    {
        B1Sample { sin: 0, cos_sq_half: ONE, sin_sq_half: 0 }
    }
}

/// An RF pulse: its flip angle and its phase.
#[derive(Clone, Copy, PartialEq, Eq, Structural, Debug)]
pub struct Pulse {
    pub angle: Rotation,
    pub phase: Rotation,
}

/// The effective mixing of a pulse: the sine and cosine of the flip angle, averaged over
/// the mixing table, and the phase of the pulse.
#[derive(Clone, Copy, PartialEq, Eq, Structural, Debug)]
pub struct Mixing {
    pub sin: i64,
    pub cos: i64,
    pub phase: Rotation,
}

impl Mixing {
    /// The averaged values are at most three in magnitude, and the phase is a unit.
    pub open spec fn bounded(self) -> bool {
        &&& -0xC000_0000 <= self.sin <= 0xC000_0000
        &&& -0xC000_0000 <= self.cos <= 0xC000_0000
        &&& self.phase.unit()
    }
}

/// The table has the fixed length, and all of its values lie in `[-ONE, ONE]`.
pub open spec fn table_ok(table: Seq<B1Sample>) -> bool {
    &&& table.len() == B1_SAMPLES
    &&& forall|i: int| 0 <= i < table.len() ==> (#[trigger] table[i]).unit()
}

/// The sine of the flip angle at one sample: the nominal angle plus the sample's extra angle.
pub open spec fn sample_sin(angle: Rotation, s: B1Sample) -> int {
    div_toward_zero(
        angle.sin * (s.cos_sq_half - s.sin_sq_half) + angle.cos * s.sin,
        ONE as int,
    )
}

/// The cosine of the flip angle at one sample.
pub open spec fn sample_cos(angle: Rotation, s: B1Sample) -> int {
    div_toward_zero(
        angle.cos * (s.cos_sq_half - s.sin_sq_half) - angle.sin * s.sin,
        ONE as int,
    )
}

/// The sum of the per-sample sines over the first `n` samples.
pub open spec fn sum_sin(table: Seq<B1Sample>, angle: Rotation, n: int) -> int
    decreases n,
{
    if n <= 0 {
        0
    } else {
        sum_sin(table, angle, n - 1) + sample_sin(angle, table[n - 1])
    }
}

/// The sum of the per-sample cosines over the first `n` samples.
pub open spec fn sum_cos(table: Seq<B1Sample>, angle: Rotation, n: int) -> int
    decreases n,
{
    if n <= 0 {
        0
    } else {
        sum_cos(table, angle, n - 1) + sample_cos(angle, table[n - 1])
    }
}

/// The effective mixing of a pulse: the average of the per-sample values over all samples
/// of the table.
pub open spec fn mixing(table: Seq<B1Sample>, pulse: Pulse) -> Mixing {
    Mixing {
        sin: div_toward_zero(sum_sin(table, pulse.angle, table.len() as int), table.len() as int) as i64,
        cos: div_toward_zero(sum_cos(table, pulse.angle, table.len() as int), table.len() as int) as i64,
        phase: pulse.phase,
    }
}

/// At a sample without extra rotation the flip angle is the nominal one.
pub proof fn lemma_flat_sample(angle: Rotation)
    ensures
        sample_sin(angle, B1Sample { sin: 0, cos_sq_half: ONE, sin_sq_half: 0 }) == angle.sin,
        sample_cos(angle, B1Sample { sin: 0, cos_sq_half: ONE, sin_sq_half: 0 }) == angle.cos,
{
    let s = angle.sin as int;
    let c = angle.cos as int;
    assert(s * (ONE - 0) + c * 0 == s * 0x4000_0000) by (nonlinear_arith);
    assert(c * (ONE - 0) - s * 0 == c * 0x4000_0000) by (nonlinear_arith);
}

/// Over a flat table the sums are the nominal values times the number of samples.
pub proof fn lemma_flat_sums(table: Seq<B1Sample>, angle: Rotation, n: int)
    requires
        0 <= n <= table.len(),
        forall|i: int|
            0 <= i < table.len() ==> #[trigger] table[i] == (B1Sample {
                sin: 0,
                cos_sq_half: ONE,
                sin_sq_half: 0,
            }),
    ensures
        sum_sin(table, angle, n) == n * angle.sin,
        sum_cos(table, angle, n) == n * angle.cos,
    decreases n,
{
    if n > 0 {
        lemma_flat_sums(table, angle, n - 1);
        lemma_flat_sample(angle);
        assert(table[n - 1] == (B1Sample { sin: 0, cos_sq_half: ONE, sin_sq_half: 0 }));
        assert((n - 1) * angle.sin + angle.sin == n * angle.sin) by (nonlinear_arith);
        assert((n - 1) * angle.cos + angle.cos == n * angle.cos) by (nonlinear_arith);
    }
}

/// Over a flat table the effective mixing of a pulse is its nominal mixing.
pub proof fn lemma_flat_mixing(table: Seq<B1Sample>, pulse: Pulse)
    requires
        table.len() == B1_SAMPLES,
        forall|i: int|
            0 <= i < table.len() ==> #[trigger] table[i] == (B1Sample {
                sin: 0,
                cos_sq_half: ONE,
                sin_sq_half: 0,
            }),
    ensures
        mixing(table, pulse) == (Mixing {
            sin: pulse.angle.sin,
            cos: pulse.angle.cos,
            phase: pulse.phase,
        }),
{
    lemma_flat_sums(table, pulse.angle, table.len() as int);
}

/// Checks the mixing table.
pub fn mixing_table_ok(table: &Vec<B1Sample>) -> (r: bool)
    ensures
        r == table_ok(table@),
{
    if table.len() != B1_SAMPLES {
        return false;
    }
    let mut i: usize = 0;
    while i < table.len()
        invariant
            i <= table.len(),
            table.len() == B1_SAMPLES,
            forall|j: int| 0 <= j < i ==> (#[trigger] table@[j]).unit(),
        decreases table.len() - i,
    {
        let s = &table[i];
        if !(-ONE <= s.sin && s.sin <= ONE && -ONE <= s.cos_sq_half && s.cos_sq_half <= ONE
            && -ONE <= s.sin_sq_half && s.sin_sq_half <= ONE) {
            return false;
        }
        i += 1;
    }
    true
}

/// The numerators of the per-sample values stay within three times `ONE * ONE`.
proof fn lemma_sample_bound(a: int, b: int, c: int, d: int)
    requires
        -ONE <= a <= ONE,
        -2 * ONE <= b <= 2 * ONE,
        -ONE <= c <= ONE,
        -ONE <= d <= ONE,
    ensures
        -0x3000_0000_0000_0000 <= a * b + c * d <= 0x3000_0000_0000_0000,
        -0x3000_0000_0000_0000 <= a * b - c * d <= 0x3000_0000_0000_0000,
{
    assert(-2 * 0x4000_0000 * 0x4000_0000 <= a * b <= 2 * 0x4000_0000 * 0x4000_0000)
        by (nonlinear_arith)
        requires
            -0x4000_0000 <= a <= 0x4000_0000,
            -2 * 0x4000_0000 <= b <= 2 * 0x4000_0000,
    ;
    assert(-0x4000_0000 * 0x4000_0000 <= c * d <= 0x4000_0000 * 0x4000_0000)
        by (nonlinear_arith)
        requires
            -0x4000_0000 <= c <= 0x4000_0000,
            -0x4000_0000 <= d <= 0x4000_0000,
    ;
}

/// Averages the per-sample mixing of a pulse over the table.
pub fn average_mixing(table: &Vec<B1Sample>, pulse: &Pulse) -> (r: Mixing)
    requires
        table_ok(table@),
        pulse.angle.unit(),
        pulse.phase.unit(),
    ensures
        r == mixing(table@, *pulse),
        r.bounded(),
{
    let n = table.len();
    let sa: i128 = pulse.angle.sin as i128;
    let ca: i128 = pulse.angle.cos as i128;
    let mut total_sin: i128 = 0;
    let mut total_cos: i128 = 0;
    let mut i: usize = 0;
    while i < n
        invariant
            n == table@.len(),
            n == B1_SAMPLES,
            i <= n,
            table_ok(table@),
            pulse.angle.unit(),
            sa == pulse.angle.sin,
            ca == pulse.angle.cos,
            total_sin == sum_sin(table@, pulse.angle, i as int),
            total_cos == sum_cos(table@, pulse.angle, i as int),
            -0xC000_0000 * i <= total_sin <= 0xC000_0000 * i,
            -0xC000_0000 * i <= total_cos <= 0xC000_0000 * i,
        decreases n - i,
    {
        let s = &table[i];
        assert(s.unit());
        let extra_cos: i128 = s.cos_sq_half as i128 - s.sin_sq_half as i128;
        let extra_sin: i128 = s.sin as i128;
        proof {
            lemma_sample_bound(sa as int, extra_cos as int, ca as int, extra_sin as int);
            lemma_sample_bound(ca as int, extra_cos as int, sa as int, extra_sin as int);
        }
        let here_sin = quotient(sa * extra_cos + ca * extra_sin, ONE as i128);
        let here_cos = quotient(ca * extra_cos - sa * extra_sin, ONE as i128);
        total_sin = total_sin + here_sin;
        total_cos = total_cos + here_cos;
        i += 1;
    }
    let avg_sin = quotient(total_sin, n as i128);
    let avg_cos = quotient(total_cos, n as i128);
    Mixing { sin: avg_sin as i64, cos: avg_cos as i64, phase: pulse.phase }
}

/// Samples of the exponential decay `exp(-x)`, in fixed point, at exponents that are
/// multiples of `step`.
#[derive(Clone, PartialEq, Eq, Debug)]
pub struct DecayTable {
    /// The distance between two samples, as a fixed-point exponent.
    pub step: u64,
    pub samples: Vec<i64>,
}

impl DecayTable {
    /// The table starts at `ONE`, never rises, never falls below zero, and its step is
    /// positive and at most `ONE`.
    pub open spec fn valid(&self) -> bool {
        &&& 0 < self.step <= ONE
        &&& self.samples@.len() > 0
        &&& self.samples@[0] == ONE
        &&& forall|i: int| 0 <= i < self.samples@.len() ==> 0 <= #[trigger] self.samples@[i] <= ONE
        &&& forall|i: int|
            0 < i < self.samples@.len() ==> #[trigger] self.samples@[i] <= self.samples@[i - 1]
    }

    /// The place in the table where the exponent `x` is looked up.
    pub open spec fn place(&self, x: nat) -> int {
        if x / (self.step as nat) >= self.samples@.len() {
            self.samples@.len() - 1
        } else {
            (x / (self.step as nat)) as int
        }
    }

    /// The decay factor for the exponent `x`: the sample at or below it, and the last
    /// sample for every exponent beyond the table.
    pub open spec fn factor(&self, x: nat) -> i64 {
        self.samples@[self.place(x)]
    }

    /// Checks the table.
    pub fn is_valid(&self) -> (r: bool)
        ensures
            r == self.valid(),
    {
        if self.step == 0 || self.step > ONE as u64 || self.samples.len() == 0 {
            return false;
        }
        if self.samples[0] != ONE {
            return false;
        }
        let mut i: usize = 1;
        while i < self.samples.len()
            invariant
                1 <= i <= self.samples@.len(),
                self.samples@[0] == ONE,
                forall|j: int| 0 <= j < i ==> 0 <= #[trigger] self.samples@[j] <= ONE,
                forall|j: int| 0 < j < i ==> #[trigger] self.samples@[j] <= self.samples@[j - 1],
            decreases self.samples@.len() - i,
        {
            let s = self.samples[i];
            if s < 0 || s > self.samples[i - 1] {
                return false;
            }
            i += 1;
        }
        true
    }

    /// Looks up the decay factor for an exponent.
    pub fn decay(&self, x: u128) -> (r: i64)
        requires
            self.valid(),
        ensures
            r == self.factor(x as nat),
            0 <= r <= ONE,
    {
        let idx: u128 = x / (self.step as u128);
        if idx >= self.samples.len() as u128 {
            self.samples[self.samples.len() - 1]
        } else {
            self.samples[idx as usize]
        }
    }
}

/// In a valid table a later sample is never larger than an earlier one.
pub proof fn lemma_samples_fall(t: &DecayTable, i: int, j: int)
    requires
        t.valid(),
        0 <= i <= j < t.samples@.len(),
    ensures
        t.samples@[j] <= t.samples@[i],
    decreases j - i,
{
    if i < j {
        lemma_samples_fall(t, i, j - 1);
    }
}

/// A larger exponent never gives a larger decay factor.
pub proof fn lemma_decay_monotone(t: &DecayTable, x: nat, y: nat)
    requires
        t.valid(),
        x <= y,
    ensures
        t.factor(y) <= t.factor(x),
{
    lemma_div_is_ordered(x as int, y as int, t.step as int);
    lemma_samples_fall(t, t.place(x), t.place(y));
}

/// The exponent zero gives the factor `ONE`: nothing decays in no time.
pub proof fn lemma_decay_zero(t: &DecayTable)
    requires
        t.valid(),
    ensures
        t.factor(0) == ONE,
{
    assert(0nat / (t.step as nat) == 0) by (nonlinear_arith)
        requires
            t.step > 0,
    ;
}

} // verus!
