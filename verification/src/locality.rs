//! Where a partition would best be computed.

use crate::cache_tracker::{copy_hosts, entry, has_entry};
use crate::context::Context;
use crate::dependency::{lemma_parents_within, Dependency};
use crate::error::SchedulerError;
use crate::scheduler::DagScheduler;
use vstd::prelude::*;

verus! {

impl DagScheduler {
    /// Where partition `partition` of dataset `rdd` would best be computed.
    ///
    /// A pinned dataset must name exactly one location, else the lookup fails.
    /// Otherwise the answer is the snapshot's entry of the partition, if the
    /// snapshot has one; else the locations that the dataset names, if it names
    /// any or is pinned; else the first non-empty answer among the partitions
    /// that it reads through its narrow dependencies, in order; else nothing.
    pub open spec fn preferred_locs(&self, ctx: &Context, rdd: usize, partition: usize) -> Result<
        Seq<u32>,
        SchedulerError,
    >
        decreases rdd, 2nat, 0nat,
    {
        let node = ctx.rdds@[rdd as int];
        let prefs = node.preferred_locs@[partition as int]@;
        let table = self.cache_locs.deep_view();
        if node.pinned && prefs.len() != 1 {
            Err(SchedulerError::PinnedLocations { rdd, partition, found: prefs.len() as usize })
        } else if has_entry(table, rdd) && partition < entry(table, rdd).len() {
            Ok(entry(table, rdd)[partition as int])
        } else if node.pinned || prefs.len() > 0 {
            Ok(prefs)
        } else {
            self.locs_from_deps(ctx, rdd, partition, 0)
        }
    }

    /// The first non-empty answer among the partitions that `partition` of `rdd`
    /// reads through its narrow dependencies from the `k`-th on.
    pub open spec fn locs_from_deps(&self, ctx: &Context, rdd: usize, partition: usize, k: int) -> Result<
        Seq<u32>,
        SchedulerError,
    >
        decreases rdd, 1nat, ctx.deps(rdd).len() - k,
    {
        if k < 0 || k >= ctx.deps(rdd).len() {
            Ok(Seq::empty())
        } else {
            match ctx.deps(rdd)[k] {
                Dependency::NarrowDependency(n) => {
                    if n.rdd < rdd {
                        match self.locs_from_parts(ctx, n.rdd, n.parents_of(partition), 0) {
                            Err(e) => Err(e),
                            Ok(locs) => if locs.len() > 0 {
                                Ok(locs)
                            } else {
                                self.locs_from_deps(ctx, rdd, partition, k + 1)
                            },
                        }
                    } else {
                        self.locs_from_deps(ctx, rdd, partition, k + 1)
                    }
                },
                Dependency::ShuffleDependency(_) => self.locs_from_deps(ctx, rdd, partition, k + 1),
            }
        }
    }

    /// The first non-empty answer among the partitions `parts` of dataset
    /// `parent`, from the `i`-th on.
    pub open spec fn locs_from_parts(&self, ctx: &Context, parent: usize, parts: Seq<usize>, i: int) -> Result<
        Seq<u32>,
        SchedulerError,
    >
        decreases parent, 3nat, parts.len() - i,
    {
        if i < 0 || i >= parts.len() {
            Ok(Seq::empty())
        } else {
            match self.preferred_locs(ctx, parent, parts[i]) {
                Err(e) => Err(e),
                Ok(locs) => if locs.len() > 0 {
                    Ok(locs)
                } else {
                    self.locs_from_parts(ctx, parent, parts, i + 1)
                },
            }
        }
    }

    /// Where partition `partition` of dataset `rdd` would best be computed; see
    /// [`DagScheduler::preferred_locs`].  Fails when the dataset, or one that is
    /// asked on its behalf, is pinned and does not name exactly one location.
    pub fn get_preferred_locs(&self, ctx: &Context, rdd: usize, partition: usize) -> (r: Result<
        Vec<u32>,
        SchedulerError,
    >)
        requires
            ctx.wf(),
            rdd < ctx.rdds@.len(),
            partition < ctx.rdds@[rdd as int].num_splits,
        ensures
            r matches Ok(v) ==> self.preferred_locs(ctx, rdd, partition) == Ok::<
                Seq<u32>,
                SchedulerError,
            >(v@),
            r matches Err(e) ==> self.preferred_locs(ctx, rdd, partition) == Err::<
                Seq<u32>,
                SchedulerError,
            >(e),
            ctx.rdds@[rdd as int].pinned && ctx.rdds@[rdd as int].preferred_locs@[partition as int]@.len()
                != 1 ==> r is Err,
        decreases rdd,
    {
        proof {
            assert(ctx.rdd_ok(rdd as int));
        }
        let rdd_prefs = ctx.preferred_locations(rdd, partition);
        let pinned = ctx.is_pinned(rdd);
        if pinned && rdd_prefs.len() != 1 {
            return Err(
                SchedulerError::PinnedLocations { rdd, partition, found: rdd_prefs.len() },
            );
        }
        match self.get_cache_locs(rdd) {
            Some(cached) => {
                if partition < cached.len() {
                    assert(cached.deep_view()[partition as int] == cached@[partition as int].deep_view());
                    assert(cached@[partition as int].deep_view() =~= cached@[partition as int]@);
                    return Ok(copy_hosts(&cached[partition]));
                }
            },
            None => {},
        }
        if pinned || rdd_prefs.len() > 0 {
            return Ok(copy_hosts(rdd_prefs));
        }
        let deps = ctx.get_dependencies(rdd);
        let mut k: usize = 0;
        while k < deps.len()
            invariant
                ctx.wf(),
                rdd < ctx.rdds@.len(),
                partition < ctx.rdds@[rdd as int].num_splits,
                deps@ == ctx.deps(rdd),
                k <= deps@.len(),
                self.preferred_locs(ctx, rdd, partition) == self.locs_from_deps(
                    ctx,
                    rdd,
                    partition,
                    k as int,
                ),
                !(ctx.rdds@[rdd as int].pinned && ctx.rdds@[rdd as int].preferred_locs@[partition as int]@.len()
                    != 1),
            decreases deps@.len() - k,
        {
            proof {
                assert(ctx.rdd_ok(rdd as int));
                assert(ctx.dep_ok(
                    rdd as int,
                    ctx.rdds@[rdd as int].num_splits,
                    ctx.rdds@[rdd as int].dependencies@[k as int],
                ));
            }
            match deps[k] {
                Dependency::NarrowDependency(n) => {
                    proof {
                        lemma_parents_within(
                            n,
                            partition,
                            ctx.rdds@[rdd as int].num_splits,
                            ctx.rdds@[n.rdd as int].num_splits,
                        );
                    }
                    let parts = n.get_parents(partition);
                    let mut i: usize = 0;
                    while i < parts.len()
                        invariant
                            ctx.wf(),
                            n.rdd < rdd,
                            rdd < ctx.rdds@.len(),
                            i <= parts@.len(),
                            parts@ == n.parents_of(partition),
                            forall|j: int|
                                0 <= j < parts@.len() ==> parts@[j] < ctx.rdds@[n.rdd as int].num_splits,
                            self.locs_from_parts(ctx, n.rdd, parts@, 0) == self.locs_from_parts(
                                ctx,
                                n.rdd,
                                parts@,
                                i as int,
                            ),
                            k < deps@.len(),
                            deps@ == ctx.deps(rdd),
                            deps@[k as int] == Dependency::NarrowDependency(n),
                            self.preferred_locs(ctx, rdd, partition) == self.locs_from_deps(
                                ctx,
                                rdd,
                                partition,
                                k as int,
                            ),
                            !(ctx.rdds@[rdd as int].pinned && ctx.rdds@[rdd as int].preferred_locs@[partition as int]@.len()
                                != 1),
                        decreases parts@.len() - i,
                    {
                        match self.get_preferred_locs(ctx, n.rdd, parts[i]) {
                            Err(e) => {
                                return Err(e);
                            },
                            Ok(locs) => {
                                if locs.len() > 0 {
                                    return Ok(locs);
                                }
                            },
                        }
                        i = i + 1;
                    }
                },
                Dependency::ShuffleDependency(_) => {},
            }
            k = k + 1;
        }
        Ok(Vec::new())
    }

    /// A pinned dataset that names no location, or more than one, for a partition
    /// never has one picked for it: the lookup fails.
    pub proof fn lemma_pinned_fails(&self, ctx: &Context, rdd: usize, partition: usize)
        requires
            ctx.rdds@[rdd as int].pinned,
            ctx.rdds@[rdd as int].preferred_locs@[partition as int]@.len() != 1,
        ensures
            self.preferred_locs(ctx, rdd, partition) is Err,
    {
    }

    /// Where every pinned dataset names exactly one location per partition,
    /// the lookup of preferred locations succeeds.
    pub proof fn lemma_locs_ok(&self, ctx: &Context, rdd: usize, partition: usize)
        requires
            ctx.wf(),
            ctx.pins_valid(),
            rdd < ctx.rdds@.len(),
            partition < ctx.rdds@[rdd as int].num_splits,
        ensures
            self.preferred_locs(ctx, rdd, partition) is Ok,
        decreases rdd, 2nat, 0nat,
    {
        assert(ctx.rdd_ok(rdd as int));
        let node = ctx.rdds@[rdd as int];
        let prefs = node.preferred_locs@[partition as int]@;
        let table = self.cache_locs.deep_view();
        if node.pinned && prefs.len() != 1 {
            assert(false);
        } else if has_entry(table, rdd) && partition < entry(table, rdd).len() {
        } else if node.pinned || prefs.len() > 0 {
        } else {
            self.lemma_locs_from_deps_ok(ctx, rdd, partition, 0);
        }
    }

    /// See [`DagScheduler::lemma_locs_ok`].
    pub proof fn lemma_locs_from_deps_ok(&self, ctx: &Context, rdd: usize, partition: usize, k: int)
        requires
            ctx.wf(),
            ctx.pins_valid(),
            rdd < ctx.rdds@.len(),
            partition < ctx.rdds@[rdd as int].num_splits,
            0 <= k,
        ensures
            self.locs_from_deps(ctx, rdd, partition, k) is Ok,
        decreases rdd, 1nat, ctx.deps(rdd).len() - k,
    {
        if k < ctx.deps(rdd).len() {
            assert(ctx.rdd_ok(rdd as int));
            assert(ctx.dep_ok(
                rdd as int,
                ctx.rdds@[rdd as int].num_splits,
                ctx.rdds@[rdd as int].dependencies@[k],
            ));
            match ctx.deps(rdd)[k] {
                Dependency::NarrowDependency(n) => {
                    lemma_parents_within(
                        n,
                        partition,
                        ctx.rdds@[rdd as int].num_splits,
                        ctx.rdds@[n.rdd as int].num_splits,
                    );
                    self.lemma_locs_from_parts_ok(ctx, n.rdd, n.parents_of(partition), 0);
                    self.lemma_locs_from_deps_ok(ctx, rdd, partition, k + 1);
                },
                Dependency::ShuffleDependency(_) => {
                    self.lemma_locs_from_deps_ok(ctx, rdd, partition, k + 1);
                },
            }
        }
    }

    /// See [`DagScheduler::lemma_locs_ok`].
    pub proof fn lemma_locs_from_parts_ok(&self, ctx: &Context, parent: usize, parts: Seq<usize>, i: int)
        requires
            ctx.wf(),
            ctx.pins_valid(),
            parent < ctx.rdds@.len(),
            forall|j: int| 0 <= j < parts.len() ==> parts[j] < ctx.rdds@[parent as int].num_splits,
            0 <= i,
        ensures
            self.locs_from_parts(ctx, parent, parts, i) is Ok,
        decreases parent, 3nat, parts.len() - i,
    {
        if i < parts.len() {
            self.lemma_locs_ok(ctx, parent, parts[i]);
            self.lemma_locs_from_parts_ok(ctx, parent, parts, i + 1);
        }
    }
}

} // verus!
