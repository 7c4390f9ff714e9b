//! The run-state machine that gates the physics passes of a tick.
use vstd::prelude::*;

verus! {

/// Whether the simulation is paused: `Paused(true)` freezes every body,
/// `Paused(false)` lets the passes run.
#[derive(Clone, Copy, Debug, PartialEq, Eq, Structural, Hash)]
pub struct Paused(pub bool);

impl Paused {
    /// The state after one toggle signal.
    pub open spec fn flipped(self) -> Paused {
        Paused(!self.0)
    }

    /// Returns the state after one toggle signal: paused becomes running and
    /// running becomes paused.
    pub fn toggled(self) -> (r: Paused)
        ensures
            r == self.flipped(),
    {
        Paused(!self.0)
    }

    /// Whether the passes run on a tick in this state.
    pub fn is_running(&self) -> (r: bool)
        ensures
            r == !self.0,
    {
        !self.0
    }
}

impl Default for Paused {
    /// A simulation starts paused.
    fn default() -> (r: Paused)
        ensures
            r == Paused(true),
    {
        Paused(true)
    }
}

/// Applies this tick's toggle signal: the state flips when the signal fired
/// and stays as it was otherwise.
pub fn pause_system(mode: &mut Paused, just_pressed: bool)
    ensures
        *final(mode) == (if just_pressed { old(mode).flipped() } else { *old(mode) }),
{
    if just_pressed {
        let paused = mode.0;
        *mode = Paused(!paused);
    }
}

/// Pauses the simulation again, so that it advances by a single tick at a
/// time.
pub fn debug_stepper_system(mode: &mut Paused)
    ensures
        *final(mode) == Paused(true),
{
    *mode = Paused(true);
}

/// Two toggle signals with no tick between them give back the state they
/// started from.
pub proof fn lemma_double_toggle(mode: Paused)
    ensures
        mode.flipped().flipped() == mode,
{
}

} // verus!
