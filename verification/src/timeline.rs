//! The input of the builder: physical parameters and the timeline of each repetition.
use crate::error::ValidationError;
use crate::fixed::ONE;
use crate::graph::Vec3;
use crate::tables::{mixing_table_ok, table_ok, B1Sample, DecayTable, Pulse, Rotation};
use vstd::prelude::*;

verus! {

/// Largest time, in ticks, accepted as a time delta or a relaxation time.
pub const TIME_LIMIT: i64 = 0x8000_0000;

/// Largest absolute value of a component of a k-space offset or a gradient moment.
pub const K_LIMIT: i64 = 0x8000_0000;

impl Vec3 {
    /// Every component has magnitude at most `limit`.
    pub open spec fn within(self, limit: i64) -> bool {
        &&& -limit <= self.x <= limit
        &&& -limit <= self.y <= limit
        &&& -limit <= self.z <= limit
    }

    /// Every component lies between zero and `limit`.
    pub open spec fn positive_within(self, limit: i64) -> bool {
        0 <= self.x <= limit && 0 <= self.y <= limit && 0 <= self.z <= limit
    }

    /// Tells whether every component has magnitude at most `limit`.
    pub fn is_within(&self, limit: i64) -> (r: bool)
        requires
            limit >= 0,
        ensures
            r == self.within(limit),
    {
        -limit <= self.x && self.x <= limit && -limit <= self.y && self.y <= limit && -limit
            <= self.z && self.z <= limit
    }

    /// Tells whether every component lies between zero and `limit`.
    pub fn is_positive_within(&self, limit: i64) -> (r: bool)
        ensures
            r == self.positive_within(limit),
    {
        0 <= self.x && self.x <= limit && 0 <= self.y && self.y <= limit && 0 <= self.z && self.z
            <= limit
    }
}

/// The physical parameters of the tissue and the limits of the search.
#[derive(Clone, Copy, PartialEq, Eq, Structural, Debug)]
pub struct Params {
    /// Longitudinal relaxation time, in ticks.
    pub t1: i64,
    /// Transverse relaxation time, in ticks.
    pub t2: i64,
    /// Time of the additional transverse dephasing, in ticks. It weights what a readout
    /// records and never enters an amplitude.
    pub t2dash: i64,
    /// Diffusion coefficient per tick and squared scaled grid step, in units of
    /// `1 / (ONE * ONE)`.
    pub d: i64,
    /// Largest number of distributions that survive a repetition.
    pub max_dist_count: usize,
    /// Smallest amplitude magnitude that survives a repetition, in fixed point.
    pub min_dist_mag: i64,
    /// Per axis, the largest offset at which a readout still records signal.
    pub nyquist: Vec3,
    /// Per axis, the fixed-point factor that turns grid steps into the unit in which
    /// diffusion is measured; it follows from the field of view.
    pub grad_scale: Vec3,
}

impl Params {
    /// What is wrong with the parameters: the first of the listed defects, if there is one.
    pub open spec fn failure(self) -> Option<ValidationError> {
        if self.max_dist_count == 0 {
            Some(ValidationError::MaxDistCount)
        } else if self.min_dist_mag < 0 {
            Some(ValidationError::MinDistMag)
        } else if !(0 <= self.t1 <= TIME_LIMIT && 0 <= self.t2 <= TIME_LIMIT && 0 <= self.t2dash
            <= TIME_LIMIT) {
            Some(ValidationError::RelaxationTime)
        } else if !(0 <= self.d <= ONE) {
            Some(ValidationError::Diffusion)
        } else if !self.nyquist.positive_within(i64::MAX) {
            Some(ValidationError::Cutoff)
        } else if !self.grad_scale.positive_within(K_LIMIT) {
            Some(ValidationError::FieldOfView)
        } else {
            None
        }
    }

    /// The parameters have none of the defects.
    pub open spec fn valid(self) -> bool {
        self.failure().is_none()
    }

    /// Checks the parameters.
    pub fn validate(&self) -> (r: Option<ValidationError>)
        ensures
            r == self.failure(),
    {
        if self.max_dist_count == 0 {
            Some(ValidationError::MaxDistCount)
        } else if self.min_dist_mag < 0 {
            Some(ValidationError::MinDistMag)
        } else if !(0 <= self.t1 && self.t1 <= TIME_LIMIT && 0 <= self.t2 && self.t2 <= TIME_LIMIT
            && 0 <= self.t2dash && self.t2dash <= TIME_LIMIT) {
            Some(ValidationError::RelaxationTime)
        } else if !(0 <= self.d && self.d <= ONE) {
            Some(ValidationError::Diffusion)
        } else if !self.nyquist.is_positive_within(i64::MAX) {
            Some(ValidationError::Cutoff)
        } else if !self.grad_scale.is_positive_within(K_LIMIT) {
            Some(ValidationError::FieldOfView)
        } else {
            None
        }
    }
}

/// One RF excitation and the events that follow it.
#[derive(Clone, PartialEq, Eq, Debug)]
pub struct Repetition {
    /// The flip angle of the pulse.
    pub pulse_angle: Rotation,
    /// The phase of the pulse.
    pub pulse_phase: Rotation,
    /// The time that each event takes, in ticks.
    pub event_time: Vec<i64>,
    /// The gradient moment of each event, in grid steps.
    pub gradm_event: Vec<Vec3>,
    /// Whether the signal is sampled at the end of each event.
    pub adc_mask: Vec<bool>,
}

impl Repetition {
    /// The pulse of this repetition.
    pub open spec fn pulse(&self) -> Pulse {
        Pulse { angle: self.pulse_angle, phase: self.pulse_phase }
    }

    /// The three per-event sequences have one length.
    pub open spec fn lengths_agree(&self) -> bool {
        self.event_time@.len() == self.gradm_event@.len() && self.event_time@.len()
            == self.adc_mask@.len()
    }

    /// Event `e` has a time delta and a gradient moment within the limits.
    pub open spec fn event_ok(&self, e: int) -> bool {
        0 <= self.event_time@[e] <= TIME_LIMIT && self.gradm_event@[e].within(K_LIMIT)
    }

    /// The first event at or after `e` that is out of the limits, or the number of events.
    pub open spec fn bad_event_from(&self, e: int) -> int
        decreases self.event_time@.len() - e,
    {
        if e < 0 || e >= self.event_time@.len() {
            self.event_time@.len() as int
        } else if !self.event_ok(e) {
            e
        } else {
            self.bad_event_from(e + 1)
        }
    }

    /// What is wrong with this repetition, the `r`-th of its sequence: the first of the
    /// listed defects, if there is one.
    pub open spec fn failure(&self, r: usize) -> Option<ValidationError> {
        if !self.lengths_agree() {
            Some(ValidationError::EventLengths { repetition: r })
        } else if !(self.pulse_angle.normalized() && self.pulse_phase.normalized()) {
            Some(ValidationError::Pulse { repetition: r })
        } else if self.bad_event_from(0) < self.event_time@.len() {
            Some(ValidationError::Event { repetition: r, event: self.bad_event_from(0) as usize })
        } else {
            None
        }
    }

    /// The repetition has none of the defects.
    pub open spec fn valid(&self) -> bool {
        &&& self.lengths_agree()
        &&& self.pulse_angle.normalized()
        &&& self.pulse_phase.normalized()
        &&& forall|e: int| 0 <= e < self.event_time@.len() ==> #[trigger] self.event_ok(e)
    }

    /// Checks this repetition, the `r`-th of its sequence.
    pub fn validate(&self, r: usize) -> (res: Option<ValidationError>)
        ensures
            res == self.failure(r),
            res.is_none() <==> self.valid(),
    {
        let n = self.event_time.len();
        if n != self.gradm_event.len() || n != self.adc_mask.len() {
            return Some(ValidationError::EventLengths { repetition: r });
        }
        if !(self.pulse_angle.is_normalized() && self.pulse_phase.is_normalized()) {
            return Some(ValidationError::Pulse { repetition: r });
        }
        let mut e: usize = 0;
        while e < n
            invariant
                n == self.event_time@.len(),
                self.lengths_agree(),
                self.pulse_angle.normalized(),
                self.pulse_phase.normalized(),
                e <= n,
                self.bad_event_from(0) == self.bad_event_from(e as int),
                forall|j: int| 0 <= j < e ==> #[trigger] self.event_ok(j),
            decreases n - e,
        {
            let dt = self.event_time[e];
            if !(0 <= dt && dt <= TIME_LIMIT && self.gradm_event[e].is_within(K_LIMIT)) {
                assert(!self.event_ok(e as int));
                assert(self.bad_event_from(e as int) == e);
                return Some(ValidationError::Event { repetition: r, event: e });
            }
            e += 1;
        }
        None
    }
}

/// What is wrong with the first repetition at or after `r` that has a defect.
pub open spec fn sequence_failure_from(seq: Seq<Repetition>, r: int) -> Option<ValidationError>
    decreases seq.len() - r,
{
    if r < 0 || r >= seq.len() {
        None
    } else if seq[r].failure(r as usize).is_some() {
        seq[r].failure(r as usize)
    } else {
        sequence_failure_from(seq, r + 1)
    }
}

/// What is wrong with the input as a whole: first the parameters, then the two tables,
/// then the repetitions in order.
pub open spec fn input_failure(
    params: Params,
    b1: Seq<B1Sample>,
    decay: &DecayTable,
    seq: Seq<Repetition>,
) -> Option<ValidationError> {
    if params.failure().is_some() {
        params.failure()
    } else if !table_ok(b1) {
        Some(ValidationError::MixingTable)
    } else if !decay.valid() {
        Some(ValidationError::DecayTable)
    } else {
        sequence_failure_from(seq, 0)
    }
}

/// The input has no defect.
pub open spec fn input_valid(
    params: Params,
    b1: Seq<B1Sample>,
    decay: &DecayTable,
    seq: Seq<Repetition>,
) -> bool {
    &&& params.valid()
    &&& table_ok(b1)
    &&& decay.valid()
    &&& forall|r: int| 0 <= r < seq.len() ==> (#[trigger] seq[r]).valid()
}

/// Checks the whole input, and names the first defect.
pub fn validate_input(
    params: &Params,
    b1: &Vec<B1Sample>,
    decay: &DecayTable,
    seq: &Vec<Repetition>,
) -> (res: Option<ValidationError>)
    ensures
        res == input_failure(*params, b1@, decay, seq@),
        res.is_none() <==> input_valid(*params, b1@, decay, seq@),
{
    let p = params.validate();
    if p.is_some() {
        return p;
    }
    if !mixing_table_ok(b1) {
        return Some(ValidationError::MixingTable);
    }
    if !decay.is_valid() {
        return Some(ValidationError::DecayTable);
    }
    let n = seq.len();
    let mut r: usize = 0;
    while r < n
        invariant
            n == seq@.len(),
            r <= n,
            params.failure().is_none(),
            table_ok(b1@),
            decay.valid(),
            sequence_failure_from(seq@, 0) == sequence_failure_from(seq@, r as int),
            forall|j: int| 0 <= j < r ==> (#[trigger] seq@[j]).valid(),
        decreases n - r,
    {
        let f = seq[r].validate(r);
        if f.is_some() {
            assert(!seq@[r as int].valid());
            assert(sequence_failure_from(seq@, r as int) == f);
            return f;
        }
        r += 1;
    }
    None
}

/// Turns the readout usage of each event into the readout flag: a readout is active
/// where the usage is positive.
pub fn adc_mask_of(usage: &Vec<i32>) -> (mask: Vec<bool>)
    ensures
        mask@.len() == usage@.len(),
        forall|e: int| 0 <= e < usage@.len() ==> #[trigger] mask@[e] == (usage@[e] > 0),
{
    let mut mask: Vec<bool> = Vec::new();
    let mut e: usize = 0;
    while e < usage.len()
        invariant
            e <= usage@.len(),
            mask@.len() == e,
            forall|j: int| 0 <= j < e ==> #[trigger] mask@[j] == (usage@[j] > 0),
        decreases usage@.len() - e,
    {
        mask.push(usage[e] > 0);
        e += 1;
    }
    mask
}

} // verus!
