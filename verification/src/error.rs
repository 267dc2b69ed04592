//! Errors of the scheduling core.

use vstd::prelude::*;

verus! {

/// Why a job could not be run.  The first two are consistency errors: a
/// collaborator broke an invariant that the scheduler relies on.
#[derive(Clone, Copy, Debug, PartialEq, Eq, Structural)]
pub enum SchedulerError {
    /// A shuffle was registered again with another number of map partitions.
    ShuffleArityMismatch { shuffle_id: usize, registered: usize, requested: usize },
    /// A pinned dataset node did not name exactly one preferred location for a
    /// partition.
    PinnedLocations { rdd: usize, partition: usize, found: usize },
    /// A job was asked for on a dataset that the lineage graph does not hold.
    UnknownDataset { rdd: usize },
    /// A job asked for a partition that its dataset does not have.
    InvalidPartition { rdd: usize, partition: usize },
    /// No stage id is left for the stages that the job needs.
    OutOfStageIds,
}

} // verus!
