//! The partitioner of a shuffle boundary.

use vstd::prelude::*;

verus! {

/// Assigns every key, by its hash, to one of a fixed number of output partitions.
#[derive(Clone, Copy, Debug, PartialEq, Eq, Structural)]
pub struct Partitioner {
    pub partitions: usize,
}

impl Partitioner {
    /// A partitioner with `partitions` output partitions.
    pub fn new(partitions: usize) -> (p: Self)
        ensures
            p.partitions == partitions,
    {
        Partitioner { partitions }
    }

    /// The number of output partitions of the shuffle.
    pub fn get_num_of_partitions(&self) -> (n: usize)
        ensures
            n == self.partitions,
    {
        self.partitions
    }

    /// The output partition of a key with hash `key_hash`.
    pub fn get_partition(&self, key_hash: u64) -> (p: usize)
        requires
            self.partitions > 0,
        ensures
            p == key_hash as int % self.partitions as int,
            p < self.partitions,
    {
        let n: u64 = self.partitions as u64;
        let r: u64 = key_hash % n;
        r as usize
    }
}

} // verus!
