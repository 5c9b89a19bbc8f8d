//! Points in time.

use std::cmp::Ordering;
use vstd::prelude::*;
use vstd::std_specs::cmp::PartialOrdSpecImpl;

verus! {

/// A point on the driver's monotonic clock, in nanoseconds since an epoch of the driver's choosing.
#[derive(Debug, Clone, Copy, PartialEq, Eq, Ord, Structural)]
pub struct Instant {
    /// Nanoseconds since the epoch.
    pub nanos: u64,
}

impl PartialOrdSpecImpl for Instant {
    open spec fn obeys_partial_cmp_spec() -> bool {
        true
    }

    open spec fn partial_cmp_spec(&self, other: &Self) -> Option<Ordering> {
        if self.nanos < other.nanos {
            Some(Ordering::Less)
        } else if self.nanos == other.nanos {
            Some(Ordering::Equal)
        } else {
            Some(Ordering::Greater)
        }
    }
}

impl PartialOrd for Instant {
    fn partial_cmp(&self, other: &Self) -> (r: Option<Ordering>) {
        if self.nanos < other.nanos {
            Some(Ordering::Less)
        } else if self.nanos == other.nanos {
            Some(Ordering::Equal)
        } else {
            Some(Ordering::Greater)
        }
    }
}

} // verus!
