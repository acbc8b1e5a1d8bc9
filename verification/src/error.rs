//! The failures that building or checking a graph can report.
use vstd::prelude::*;

verus! {

/// What is wrong with a configuration or a sequence.
#[derive(Clone, Copy, PartialEq, Eq, Structural, Debug)]
pub enum ValidationError {
    /// The maximum population size is zero.
    MaxDistCount,
    /// The minimum retained amplitude is negative.
    MinDistMag,
    /// A relaxation time is negative or too large.
    RelaxationTime,
    /// The diffusion coefficient is negative or too large.
    Diffusion,
    /// A component of the cutoff vector is negative.
    Cutoff,
    /// A component of the field-of-view scale is negative or too large.
    FieldOfView,
    /// The mixing table has the wrong length or holds a value outside `[-ONE, ONE]`.
    MixingTable,
    /// The decay table is empty, does not start at `ONE`, rises, or falls below zero,
    /// or its step is out of range.
    DecayTable,
    /// The per-event sequences of the given repetition differ in length.
    EventLengths { repetition: usize },
    /// The flip angle or the phase of the pulse of the given repetition is not the cosine
    /// and the sine of an angle: a value lies outside `[-ONE, ONE]`, or the sum of the
    /// squares differs from `ONE * ONE` by more than the tolerance.
    Pulse { repetition: usize },
    /// An event of the given repetition has a negative or too large time delta, or a
    /// gradient moment that is too large.
    Event { repetition: usize, event: usize },
}

/// Why no graph was produced, or why a graph was refused.
#[derive(Clone, Copy, PartialEq, Eq, Structural, Debug)]
pub enum GraphError {
    /// The input was refused before any repetition was processed.
    Validation(ValidationError),
    /// A computed value left the representable range: an amplitude in the pulse step of
    /// the repetition, where `event` is `None`, or an offset at the given event.
    NumericAnomaly { repetition: usize, event: Option<usize> },
    /// The node at `index` in population `repetition` has an ancestor edge that does not
    /// lead to a node of an earlier population.
    InternalInvariantViolation { repetition: usize, index: usize },
}

} // verus!
