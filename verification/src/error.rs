//! What can go wrong in the simulation core.

use vstd::prelude::*;

verus! {

/// The failures the core reports. None is retried; a failed tick leaves the
/// world as it was.
#[derive(Clone, Copy, Debug, PartialEq, Eq, Structural)]
pub enum SimError {
    /// A tick or a viewport fit was asked of a world without particles.
    EmptyWorld,
    /// Two particles share a position, so the direction between them is undefined.
    DegenerateDistance,
    /// A particle was given a mass that is not positive.
    NonPositiveMass,
    /// A particle was given a radius other than the one its mass determines.
    InconsistentRadius,
    /// The combined mass does not fit the number format.
    MassOverflow,
    /// No scale fits the particles to the display: they span no area, or the
    /// scale would round to zero.
    DegenerateExtent,
}

} // verus!
