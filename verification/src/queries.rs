//! Queries over the events of an auction site, each as the decisions it
//! takes on what comes in; running them over streams is left to the caller.

use crate::event::Date;
use vstd::prelude::*;

pub mod q2;
pub mod q3;
pub mod q5;

pub use self::q2::q2;
pub use self::q3::q3;
pub use self::q5::q5;

verus! {

/// A moment by the clock of whoever made an event, in nanoseconds.
pub type Stamp = u128;

/// The later of two stamps.
pub open spec fn later(a: Stamp, b: Stamp) -> Stamp {
    if a < b {
        b
    } else {
        a
    }
}

/// Turns the dates of events into timestamps of the computation, which run
/// slower by a fixed factor.
#[derive(Copy, Clone)]
pub struct NexmarkTimer {
    pub time_dilation: usize,
}

impl NexmarkTimer {
    /// The timestamp at which the date `x` falls.
    pub fn from_nexmark_time(self, x: Date) -> (time: usize)
        requires
            self.time_dilation != 0,
        ensures
            time == x.0 / self.time_dilation,
    {
        x.0 / self.time_dilation
    }
}

} // verus!
