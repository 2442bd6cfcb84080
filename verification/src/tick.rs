//! What a turn of a server's loop amounts to.
use core::ops::BitOrAssign;
use vstd::prelude::*;

verus! {

/// What one turn of a server's loop amounts to.
#[derive(Debug, Clone, Copy, PartialEq, Eq, Structural)]
pub enum TickResult {
    /// There was nothing to do.
    Idle,
    /// Something was done.
    Busy,
    /// Something failed.
    Error,
}

impl TickResult {
    /// What two parts of a turn amount to together: the graver of the two.
    pub open spec fn merged(self, other: TickResult) -> TickResult {
        if self is Error || other is Error {
            TickResult::Error
        } else if self is Busy || other is Busy {
            TickResult::Busy
        } else {
            TickResult::Idle
        }
    }

    /// Notes that something was done.
    pub fn to_busy(&mut self)
        ensures
            *final(self) == old(self).merged(TickResult::Busy),
    {
        self.bitor_assign(TickResult::Busy);
    }

    /// Notes that something failed.
    pub fn to_error(&mut self)
        ensures
            *final(self) == TickResult::Error,
    {
        *self = TickResult::Error;
    }
}

impl BitOrAssign<TickResult> for TickResult {
    fn bitor_assign(&mut self, rhs: TickResult)
        ensures
            *final(self) == old(self).merged(rhs),
    {
        *self = match self {
            TickResult::Idle => rhs,
            TickResult::Busy => {
                if let TickResult::Idle = rhs {
                    TickResult::Busy
                } else {
                    rhs
                }
            },
            TickResult::Error => TickResult::Error,
        }
    }
}

/// It does not matter in which order the parts of a turn are put together, nor whether one is
/// counted twice; one in which nothing was done does not count, and one that failed outweighs all.
pub proof fn law_merging(a: TickResult, b: TickResult, c: TickResult)
    ensures
        a.merged(b) == b.merged(a),
        a.merged(b).merged(c) == a.merged(b.merged(c)),
        a.merged(a) == a,
        a.merged(TickResult::Idle) == a,
        a.merged(TickResult::Error) == TickResult::Error,
{
}

} // verus!
