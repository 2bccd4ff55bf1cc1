use vstd::prelude::*;

verus! {

/// Number of consecutive near readings that confirm a cube.
pub const PRESENCE_SAMPLES: usize = 5;

/// Largest infrared proximity value that counts as a cube on the platform.
pub const INFRARED_NEAR_LIMIT: u8 = 17;

/// Whether an infrared proximity reading counts as near.
pub fn infrared_near(proximity: u8) -> (near: bool)
    ensures
        near == (proximity <= INFRARED_NEAR_LIMIT),
{
    proximity <= INFRARED_NEAR_LIMIT
}

/// What to do after one distance reading.
#[derive(Clone, Copy, Debug, PartialEq, Eq)]
pub enum PresenceStep {
    /// The reading was far: no cube.
    Absent,
    /// Wait, then take another reading.
    SampleAgain,
    /// Wait, then report a cube: enough consecutive readings were near.
    Present,
}

/// The check that a cube sits on the platform: every one of five readings, taken a few
/// milliseconds apart, must be near; a single far reading ends the check.
pub struct PresenceCheck {
    near_samples: usize,
}

impl PresenceCheck {
    #[verifier::type_invariant]
    spec fn inv(self) -> bool {
        self.near_samples <= PRESENCE_SAMPLES
    }

    /// How many near readings the check has seen.
    pub closed spec fn seen(self) -> nat {
        self.near_samples as nat
    }

    /// A check that has taken no reading yet.
    pub fn new() -> (check: PresenceCheck)
        ensures
            check.seen() == 0,
    {
        PresenceCheck { near_samples: 0 }
    }

    /// How many near readings the check has seen.
    pub fn near_samples(&self) -> (n: usize)
        ensures
            n == self.seen(),
            n <= PRESENCE_SAMPLES,
    {
        proof {
            use_type_invariant(self);
        }
        self.near_samples
    }

    /// Account for one reading; the check must not have confirmed a cube yet.
    pub fn observe(&mut self, near: bool) -> (step: PresenceStep)
        requires
            old(self).seen() < PRESENCE_SAMPLES,
        ensures
            !near ==> step == PresenceStep::Absent && final(self).seen() == old(self).seen(),
            near ==> final(self).seen() == old(self).seen() + 1,
            near && final(self).seen() < PRESENCE_SAMPLES ==> step == PresenceStep::SampleAgain,
            near && final(self).seen() == PRESENCE_SAMPLES ==> step == PresenceStep::Present,
    {
        if !near {
            return PresenceStep::Absent;
        }
        self.near_samples = self.near_samples + 1;
        if self.near_samples == PRESENCE_SAMPLES {
            PresenceStep::Present
        } else {
            PresenceStep::SampleAgain
        }
    }
}

} // verus!
