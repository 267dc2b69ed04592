//! How the partitions of a dataset derive from those of its parents.

use crate::partitioner::Partitioner;
use vstd::prelude::*;

verus! {

/// The shape of a narrow dependency.
#[derive(Clone, Copy, Debug, PartialEq, Eq, Structural)]
pub enum NarrowKind {
    /// Output partition `p` reads input partition `p`.
    OneToOne,
    /// Output partitions `out_start .. out_start + length` read input partitions
    /// `in_start .. in_start + length`, in order; other output partitions read nothing.
    Range { in_start: usize, out_start: usize, length: usize },
}

/// A dependency without data movement: each output partition reads a bounded,
/// known set of partitions of the parent dataset `rdd`.
#[derive(Clone, Copy, Debug, PartialEq, Eq, Structural)]
pub struct NarrowDependency {
    pub rdd: usize,
    pub kind: NarrowKind,
}

impl NarrowDependency {
    /// A one-to-one dependency on `rdd`.
    pub fn one_to_one(rdd: usize) -> (d: Self)
        ensures
            d == (NarrowDependency { rdd, kind: NarrowKind::OneToOne }),
    {
        NarrowDependency { rdd, kind: NarrowKind::OneToOne }
    }

    /// A range dependency on `rdd`.
    pub fn range(rdd: usize, in_start: usize, out_start: usize, length: usize) -> (d: Self)
        ensures
            d == (NarrowDependency { rdd, kind: NarrowKind::Range { in_start, out_start, length } }),
    {
        NarrowDependency { rdd, kind: NarrowKind::Range { in_start, out_start, length } }
    }

    /// The parent dataset.
    pub fn get_rdd_base(&self) -> (rdd: usize)
        ensures
            rdd == self.rdd,
    {
        self.rdd
    }

    /// The range that the dependency names fits the machine's integers.
    pub open spec fn wf(&self) -> bool {
        match self.kind {
            NarrowKind::OneToOne => true,
            NarrowKind::Range { in_start, out_start, length } => in_start + length <= usize::MAX,
        }
    }

    /// The input partitions that output partition `partition` reads.
    pub open spec fn parents_of(&self, partition: usize) -> Seq<usize> {
        match self.kind {
            NarrowKind::OneToOne => seq![partition],
            NarrowKind::Range { in_start, out_start, length } => {
                if out_start <= partition < out_start + length {
                    seq![(partition - out_start + in_start) as usize]
                } else {
                    Seq::empty()
                }
            },
        }
    }

    /// Every input partition that the dependency names for one of the first `splits`
    /// output partitions is below `parent_splits`.
    pub open spec fn within(&self, splits: usize, parent_splits: usize) -> bool {
        match self.kind {
            NarrowKind::OneToOne => splits <= parent_splits,
            NarrowKind::Range { in_start, out_start, length } => in_start + length
                <= parent_splits,
        }
    }

    /// Whether every input partition named for the first `splits` output partitions
    /// is below `parent_splits`.
    pub fn is_within(&self, splits: usize, parent_splits: usize) -> (b: bool)
        ensures
            b == self.within(splits, parent_splits),
            b ==> self.wf(),
    {
        match self.kind {
            NarrowKind::OneToOne => splits <= parent_splits,
            NarrowKind::Range { in_start, out_start, length } => in_start <= parent_splits
                && length <= parent_splits - in_start,
        }
    }

    /// The input partitions that output partition `partition` reads.
    pub fn get_parents(&self, partition: usize) -> (v: Vec<usize>)
        requires
            self.wf(),
        ensures
            v@ == self.parents_of(partition),
    {
        let mut v: Vec<usize> = Vec::new();
        match self.kind {
            NarrowKind::OneToOne => {
                v.push(partition);
            },
            NarrowKind::Range { in_start, out_start, length } => {
                if partition >= out_start && partition - out_start < length {
                    v.push(partition - out_start + in_start);
                }
            },
        }
        assert(v@ =~= self.parents_of(partition));
        v
    }
}

/// Input partitions named by a dependency that lies within `parent_splits` are
/// below `parent_splits`.
pub proof fn lemma_parents_within(d: NarrowDependency, partition: usize, splits: usize, parent_splits: usize)
    requires
        d.within(splits, parent_splits),
        partition < splits,
    ensures
        d.wf(),
        d.parents_of(partition).len() <= 1,
        forall|i: int| 0 <= i < d.parents_of(partition).len() ==> d.parents_of(partition)[i] < parent_splits,
{
}

/// A dependency across a shuffle: the output is produced by repartitioning all of
/// the parent dataset `rdd` by key.
#[derive(Clone, Copy, Debug, PartialEq, Eq, Structural)]
pub struct ShuffleDependency {
    pub shuffle_id: usize,
    pub is_cogroup: bool,
    pub rdd: usize,
    pub partitioner: Partitioner,
}

impl ShuffleDependency {
    /// The id of the shuffle exchange.
    pub fn get_shuffle_id(&self) -> (id: usize)
        ensures
            id == self.shuffle_id,
    {
        self.shuffle_id
    }

    /// The parent dataset, whose partitions are the map side of the shuffle.
    pub fn get_rdd_base(&self) -> (rdd: usize)
        ensures
            rdd == self.rdd,
    {
        self.rdd
    }
}

/// A dependency of a dataset on one parent.
#[derive(Clone, Copy, Debug, PartialEq, Eq, Structural)]
pub enum Dependency {
    NarrowDependency(NarrowDependency),
    ShuffleDependency(ShuffleDependency),
}

impl Dependency {
    /// The parent dataset.
    pub open spec fn parent(&self) -> usize {
        match *self {
            Dependency::NarrowDependency(n) => n.rdd,
            Dependency::ShuffleDependency(s) => s.rdd,
        }
    }
}

} // verus!
