//! Counters of what an association has seen. They start over at the end of their range.

use vstd::prelude::*;

verus! {

/// Counters of an association.
#[derive(Debug, Clone, Copy, PartialEq, Eq, Structural)]
pub struct AssociationStats {
    /// DATA chunks received.
    pub n_datas: u64,
    /// SACK chunks received.
    pub n_sacks: u64,
    /// Expirations of the T3-rtx timer.
    pub n_t3timeouts: u64,
    /// Expirations of the acknowledgement timer.
    pub n_ack_timeouts: u64,
    /// Fast retransmissions.
    pub n_fast_retrans: u64,
}

/// The counter one further.
pub open spec fn next_count(n: u64) -> u64 {
    ((n + 1) % 0x1_0000_0000_0000_0000) as u64
}

impl AssociationStats {
    /// Counters that have counted nothing.
    pub open spec fn zero() -> AssociationStats {
        AssociationStats {
            n_datas: 0,
            n_sacks: 0,
            n_t3timeouts: 0,
            n_ack_timeouts: 0,
            n_fast_retrans: 0,
        }
    }

    /// Counts an expiration of the T3-rtx timer.
    pub fn inc_t3timeouts(&mut self)
        ensures
            *final(self) == (AssociationStats {
                n_t3timeouts: next_count(old(self).n_t3timeouts),
                ..*old(self)
            }),
    {
        self.n_t3timeouts = self.n_t3timeouts.wrapping_add(1);
    }

    /// Counts an expiration of the acknowledgement timer.
    pub fn inc_ack_timeouts(&mut self)
        ensures
            *final(self) == (AssociationStats {
                n_ack_timeouts: next_count(old(self).n_ack_timeouts),
                ..*old(self)
            }),
    {
        self.n_ack_timeouts = self.n_ack_timeouts.wrapping_add(1);
    }
}

impl Default for AssociationStats {
    fn default() -> (r: Self)
        ensures
            r == AssociationStats::zero(),
    {
        AssociationStats {
            n_datas: 0,
            n_sacks: 0,
            n_t3timeouts: 0,
            n_ack_timeouts: 0,
            n_fast_retrans: 0,
        }
    }
}

} // verus!
