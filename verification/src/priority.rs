//! How urgent a message is.

use vstd::prelude::*;

verus! {

#[derive(Copy, Clone, Debug, PartialEq, Eq, Structural)]
pub enum Priority {
    Min,
    VLow,
    Low,
    Normal,
    High,
    VHigh,
    Max,
}

impl Priority {
    /// The rank of the priority, from zero for the lowest to six for the
    /// highest.
    pub open spec fn spec_as_usize(&self) -> int {
        match *self {
            Priority::Min => 0,
            Priority::VLow => 1,
            Priority::Low => 2,
            Priority::Normal => 3,
            Priority::High => 4,
            Priority::VHigh => 5,
            Priority::Max => 6,
        }
    }

    /// The rank of the priority.
    pub fn as_usize(&self) -> (rank: usize)
        ensures
            rank == self.spec_as_usize(),
    {
        match self {
            Priority::Min => 0,
            Priority::VLow => 1,
            Priority::Low => 2,
            Priority::Normal => 3,
            Priority::High => 4,
            Priority::VHigh => 5,
            Priority::Max => 6,
        }
    }
}

} // verus!
