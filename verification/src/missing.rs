//! Which parent stages must be computed before a stage can run.

use crate::cache_tracker::{entry, has_entry, is_cached};
use crate::context::{
    lemma_boundary_below, lemma_boundary_here, lemma_boundary_step, lemma_boundary_uncut,
    lemma_reaches_step, Context,
};
use crate::dependency::{Dependency, ShuffleDependency};
use crate::ids::{strictly_increasing, IdSet};
use crate::scheduler::DagScheduler;
use vstd::prelude::*;

verus! {

impl DagScheduler {
    /// Every partition of dataset `rdd` has a location in the snapshot of cache
    /// locations.
    pub open spec fn fully_cached(&self, ctx: &Context, rdd: usize) -> bool {
        forall|p: int|
            0 <= p < ctx.rdds@[rdd as int].num_splits ==> #[trigger] is_cached(
                self.cache_locs.deep_view(),
                rdd,
                p,
            )
    }

    /// The dataset nodes whose dependencies need not be looked at, because all
    /// their partitions are cached.
    pub open spec fn cached_nodes(&self, ctx: &Context) -> Set<usize> {
        Set::new(|x: usize| x < ctx.rdds@.len() && self.fully_cached(ctx, x))
    }

    /// Stage `id` must be computed before the partitions of `rdd` can be: it
    /// produces a shuffle that a node reads which is reached from `rdd` by narrow
    /// dependencies through nodes that are not fully cached, and it lacks the
    /// output of some partition.
    pub open spec fn is_missing_parent_of(&self, ctx: &Context, rdd: usize, id: usize) -> bool {
        exists|s: ShuffleDependency|
            #[trigger] ctx.at_boundary(self.cached_nodes(ctx), rdd, s) && self.shuffle_registered(
                s.shuffle_id,
            ) && self.stage_of(s.shuffle_id) == id && !self.stage(id).available()
    }

    /// Every shuffle that the partitions of `rdd` are computed from has a stage
    /// with all its output: a job on `rdd` needs no stage but its own.
    pub open spec fn inputs_available(&self, ctx: &Context, rdd: usize) -> bool {
        forall|s: ShuffleDependency| #[trigger]
            ctx.at_boundary(self.cached_nodes(ctx), rdd, s) ==> self.shuffle_registered(
                s.shuffle_id,
            ) && self.stage(self.stage_of(s.shuffle_id)).available()
    }

    /// The stages that must be computed before the partitions of `rdd` can be.
    pub open spec fn missing_parent_stages(&self, ctx: &Context, rdd: usize) -> Set<usize> {
        Set::new(|id: usize| self.is_missing_parent_of(ctx, rdd, id))
    }

    /// Dependency `d` is accounted for by a walk for missing stages.
    pub open spec fn dep_checked(&self, d: Dependency, visited: Set<usize>, missing: Set<usize>) -> bool {
        match d {
            Dependency::NarrowDependency(n) => visited.contains(n.rdd),
            Dependency::ShuffleDependency(s) => self.stage(self.stage_of(s.shuffle_id)).available()
                || missing.contains(self.stage_of(s.shuffle_id)),
        }
    }

    /// Node `x` is fully cached, or each of its dependencies is accounted for.
    pub open spec fn node_checked(
        &self,
        ctx: &Context,
        x: usize,
        visited: Set<usize>,
        missing: Set<usize>,
    ) -> bool {
        self.fully_cached(ctx, x) || forall|k: int|
            0 <= k < ctx.deps(x).len() ==> self.dep_checked(
                #[trigger] ctx.deps(x)[k],
                visited,
                missing,
            )
    }

    /// The state of a walk for missing stages: every visited node below `bound`
    /// is fully cached or has all its dependencies accounted for.
    pub open spec fn check_inv(
        &self,
        ctx: &Context,
        visited: Set<usize>,
        missing: Set<usize>,
        bound: int,
    ) -> bool {
        &&& forall|x: usize| visited.contains(x) ==> x < ctx.rdds@.len()
        &&& forall|x: usize| #[trigger]
            visited.contains(x) && x < bound ==> self.node_checked(ctx, x, visited, missing)
    }

    /// What held of a node for smaller sets holds for larger ones.
    pub proof fn lemma_node_checked_grows(
        &self,
        ctx: &Context,
        x: usize,
        visited_first: Set<usize>,
        missing_first: Set<usize>,
        visited_then: Set<usize>,
        missing_then: Set<usize>,
    )
        requires
            self.node_checked(ctx, x, visited_first, missing_first),
            visited_first.subset_of(visited_then),
            missing_first.subset_of(missing_then),
        ensures
            self.node_checked(ctx, x, visited_then, missing_then),
    {
        if !self.fully_cached(ctx, x) {
            assert forall|k: int| 0 <= k < ctx.deps(x).len() implies self.dep_checked(
                #[trigger] ctx.deps(x)[k],
                visited_then,
                missing_then,
            ) by {
                assert(self.dep_checked(ctx.deps(x)[k], visited_first, missing_first));
            }
        }
    }

    /// Once a walk for missing stages from `r` is over, every node that `r`
    /// reaches through nodes that are not fully cached has been visited and
    /// checked.
    pub proof fn lemma_check_complete(
        &self,
        ctx: &Context,
        visited: Set<usize>,
        missing: Set<usize>,
        r: usize,
        y: usize,
    )
        requires
            ctx.wf(),
            self.check_inv(ctx, visited, missing, r + 1),
            visited.contains(r),
            ctx.reaches(self.cached_nodes(ctx), r, y),
        ensures
            visited.contains(y),
            y <= r,
            self.node_checked(ctx, y, visited, missing),
        decreases r,
    {
        if y != r {
            let cut = self.cached_nodes(ctx);
            let k = choose|k: int|
                (#[trigger] ctx.narrow_parent(r, k)) is Some && ctx.narrow_parent(r, k)->0 < r
                    && ctx.reaches(cut, ctx.narrow_parent(r, k)->0, y);
            let p = ctx.narrow_parent(r, k)->0;
            assert(self.node_checked(ctx, r, visited, missing));
            assert(!cut.contains(r));
            assert(!self.fully_cached(ctx, r));
            assert(self.dep_checked(ctx.deps(r)[k], visited, missing));
            self.lemma_check_complete(ctx, visited, missing, p, y);
        }
    }

    /// What a walk for missing stages from `r` has added: the nodes that `r`
    /// reaches through nodes that are not fully cached, to the nodes visited,
    /// and the stages that must be computed before `r`, to the stages collected.
    pub proof fn lemma_check_exact(
        &self,
        ctx: &Context,
        visited_first: Set<usize>,
        missing_first: Set<usize>,
        visited: Set<usize>,
        missing: Set<usize>,
        r: usize,
    )
        requires
            ctx.wf(),
            self.check_inv(ctx, visited, missing, r + 1),
            visited.contains(r),
            visited_first.subset_of(visited),
            missing_first.subset_of(missing),
            forall|x: usize|
                visited.contains(x) && !visited_first.contains(x) ==> ctx.reaches(
                    self.cached_nodes(ctx),
                    r,
                    x,
                ),
            forall|id: usize|
                missing.contains(id) && !missing_first.contains(id) ==> self.is_missing_parent_of(
                    ctx,
                    r,
                    id,
                ),
        ensures
            visited == visited_first + Set::new(
                |x: usize| ctx.reaches(self.cached_nodes(ctx), r, x),
            ),
            missing == missing_first + self.missing_parent_stages(ctx, r),
    {
        let reached = Set::new(|x: usize| ctx.reaches(self.cached_nodes(ctx), r, x));
        assert forall|x: usize| reached.contains(x) implies visited.contains(x) by {
            self.lemma_check_complete(ctx, visited, missing, r, x);
        }
        assert(visited =~= visited_first + reached);
        self.lemma_check_collects(ctx, visited, missing, r);
        assert(missing =~= missing_first + self.missing_parent_stages(ctx, r));
    }

    /// Once a walk for missing stages from `r` is over, the stages collected
    /// include every stage that must be computed before `r`.
    pub proof fn lemma_check_collects(
        &self,
        ctx: &Context,
        visited: Set<usize>,
        missing: Set<usize>,
        r: usize,
    )
        requires
            ctx.wf(),
            self.check_inv(ctx, visited, missing, r + 1),
            visited.contains(r),
        ensures
            self.missing_parent_stages(ctx, r).subset_of(missing),
    {
        let cut = self.cached_nodes(ctx);
        assert forall|id: usize| self.missing_parent_stages(ctx, r).contains(
            id,
        ) implies missing.contains(id) by {
            let s = choose|s: ShuffleDependency|
                #[trigger] ctx.at_boundary(cut, r, s) && self.shuffle_registered(s.shuffle_id)
                    && self.stage_of(s.shuffle_id) == id && !self.stage(id).available();
            let (y, j) = choose|y: usize, j: int|
                ctx.reaches(cut, r, y) && y < ctx.rdds@.len() && !cut.contains(y) && 0 <= j
                    < ctx.deps(y).len() && #[trigger] ctx.deps(y)[j]
                    == Dependency::ShuffleDependency(s);
            self.lemma_check_complete(ctx, visited, missing, r, y);
            assert(!self.fully_cached(ctx, y));
            assert(self.dep_checked(ctx.deps(y)[j], visited, missing));
        }
    }

    /// A stage that must be computed before a narrow parent must be computed
    /// before the child, if the child is not fully cached.
    pub proof fn lemma_missing_step(&self, ctx: &Context, x: usize, k: int, id: usize)
        requires
            x < ctx.rdds@.len(),
            !self.fully_cached(ctx, x),
            0 <= k < ctx.deps(x).len(),
            ctx.deps(x)[k] matches Dependency::NarrowDependency(n) && n.rdd < x
                && self.is_missing_parent_of(ctx, n.rdd, id),
        ensures
            self.is_missing_parent_of(ctx, x, id),
    {
        let cut = self.cached_nodes(ctx);
        let n = ctx.deps(x)[k]->NarrowDependency_0;
        let s = choose|s: ShuffleDependency|
            #[trigger] ctx.at_boundary(cut, n.rdd, s) && self.shuffle_registered(s.shuffle_id)
                && self.stage_of(s.shuffle_id) == id && !self.stage(id).available();
        lemma_boundary_step(ctx, cut, x, k, s);
        assert(ctx.at_boundary(cut, x, s) && self.shuffle_registered(s.shuffle_id)
            && self.stage_of(s.shuffle_id) == id && !self.stage(id).available());
    }

    /// Whether every partition of dataset `rdd` has a location in the snapshot of
    /// cache locations.
    pub fn is_fully_cached(&self, ctx: &Context, rdd: usize) -> (b: bool)
        requires
            rdd < ctx.rdds@.len(),
        ensures
            b == self.fully_cached(ctx, rdd),
    {
        let n = ctx.number_of_splits(rdd);
        match self.get_cache_locs(rdd) {
            None => {
                proof {
                    if n > 0 {
                        assert(!is_cached(self.cache_locs.deep_view(), rdd, 0));
                    }
                }
                n == 0
            },
            Some(parts) => {
                let ghost table = self.cache_locs.deep_view();
                let mut p: usize = 0;
                while p < n
                    invariant
                        p <= n,
                        n == ctx.rdds@[rdd as int].num_splits,
                        table == self.cache_locs.deep_view(),
                        has_entry(table, rdd),
                        parts.deep_view() == entry(table, rdd),
                        forall|q: int| 0 <= q < p ==> #[trigger] is_cached(table, rdd, q),
                    decreases n - p,
                {
                    if p >= parts.len() {
                        assert(!is_cached(table, rdd, p as int));
                        return false;
                    }
                    assert(parts.deep_view()[p as int] == parts@[p as int].deep_view());
                    if parts[p].len() == 0 {
                        assert(!is_cached(table, rdd, p as int));
                        return false;
                    }
                    p = p + 1;
                }
                true
            },
        }
    }

    /// One step of the walk that collects the stages to compute first: visits
    /// `rdd` unless it has been visited; unless all its partitions are cached,
    /// takes the stage of each of its shuffle dependencies that lacks output, and
    /// walks on through its narrow dependencies.
    fn visit_for_missing_parent_stages(
        &self,
        ctx: &Context,
        missing: &mut IdSet,
        visited: &mut IdSet,
        rdd: usize,
    )
        requires
            ctx.wf(),
            rdd < ctx.rdds@.len(),
            self.boundary_built(ctx, rdd),
            old(missing).wf(),
            old(visited).wf(),
            self.check_inv(ctx, old(visited)@, old(missing)@, rdd + 1),
        ensures
            final(missing).wf(),
            final(visited).wf(),
            old(visited)@.subset_of(final(visited)@),
            old(missing)@.subset_of(final(missing)@),
            final(visited)@.contains(rdd),
            self.check_inv(ctx, final(visited)@, final(missing)@, rdd + 1),
            forall|x: usize| final(visited)@.contains(x) && !old(visited)@.contains(x) ==> x <= rdd,
            forall|id: usize|
                final(missing)@.contains(id) && !old(missing)@.contains(id)
                    ==> self.is_missing_parent_of(ctx, rdd, id),
            old(visited)@.contains(rdd) ==> final(visited)@ == old(visited)@ && final(missing)@
                == old(missing)@,
            !old(visited)@.contains(rdd) && self.fully_cached(ctx, rdd) ==> final(visited)@ == old(
                visited,
            )@.insert(rdd) && final(missing)@ == old(missing)@,
            forall|x: usize|
                final(visited)@.contains(x) && !old(visited)@.contains(x) ==> ctx.reaches(
                    self.cached_nodes(ctx),
                    rdd,
                    x,
                ),
            final(visited)@ == old(visited)@ + Set::new(
                |x: usize| ctx.reaches(self.cached_nodes(ctx), rdd, x),
            ),
            final(missing)@ == old(missing)@ + self.missing_parent_stages(ctx, rdd),
        decreases rdd,
    {
        let ghost visited_first = visited@;
        let ghost missing_first = missing@;
        let ghost cut = self.cached_nodes(ctx);
        if visited.contains(rdd) {
            proof {
                self.lemma_check_exact(ctx, visited@, missing@, visited@, missing@, rdd);
            }
            return ;
        }
        visited.insert(rdd);
        proof {
            assert forall|x: usize| #[trigger] visited@.contains(x) && x < rdd implies self.node_checked(
                ctx,
                x,
                visited@,
                missing@,
            ) by {
                self.lemma_node_checked_grows(ctx, x, visited_first, missing_first, visited@, missing@);
            }
        }
        if self.is_fully_cached(ctx, rdd) {
            proof {
                self.lemma_check_exact(ctx, visited_first, missing_first, visited@, missing@, rdd);
            }
            return ;
        }
        let deps = ctx.get_dependencies(rdd);
        let mut k: usize = 0;
        while k < deps.len()
            invariant
                ctx.wf(),
                rdd < ctx.rdds@.len(),
                self.boundary_built(ctx, rdd),
                !self.fully_cached(ctx, rdd),
                cut == self.cached_nodes(ctx),
                deps@ == ctx.deps(rdd),
                k <= deps@.len(),
                missing.wf(),
                visited.wf(),
                visited_first.subset_of(visited@),
                missing_first.subset_of(missing@),
                visited@.contains(rdd),
                self.check_inv(ctx, visited@, missing@, rdd as int),
                forall|j: int|
                    0 <= j < k ==> self.dep_checked(#[trigger] deps@[j], visited@, missing@),
                forall|x: usize| visited@.contains(x) && !visited_first.contains(x) ==> x <= rdd,
                forall|id: usize|
                    missing@.contains(id) && !missing_first.contains(id) ==> self.is_missing_parent_of(
                        ctx,
                        rdd,
                        id,
                    ),
                forall|x: usize|
                    visited@.contains(x) && !visited_first.contains(x) ==> ctx.reaches(cut, rdd, x),
            decreases deps@.len() - k,
        {
            let ghost visited_then = visited@;
            let ghost missing_then = missing@;
            proof {
                assert(ctx.rdd_ok(rdd as int));
                assert(ctx.dep_ok(
                    rdd as int,
                    ctx.rdds@[rdd as int].num_splits,
                    ctx.rdds@[rdd as int].dependencies@[k as int],
                ));
            }
            match deps[k] {
                Dependency::ShuffleDependency(shuf) => {
                    proof {
                        lemma_boundary_here(ctx, Set::empty(), rdd, k as int, shuf);
                        lemma_boundary_here(ctx, cut, rdd, k as int, shuf);
                    }
                    let id = self.fetch_from_shuffle_to_cache(shuf.shuffle_id);
                    let stage = self.fetch_from_stage_cache(id);
                    if !stage.is_available() {
                        missing.insert(id);
                        proof {
                            assert(ctx.at_boundary(cut, rdd, shuf) && self.shuffle_registered(
                                shuf.shuffle_id,
                            ) && self.stage_of(shuf.shuffle_id) == id && !self.stage(
                                id,
                            ).available());
                        }
                    }
                    proof {
                        assert forall|x: usize| #[trigger]
                            visited@.contains(x) && x < rdd implies self.node_checked(
                            ctx,
                            x,
                            visited@,
                            missing@,
                        ) by {
                            self.lemma_node_checked_grows(ctx, x, visited_then, missing_then, visited@, missing@);
                        }
                        assert forall|j: int| 0 <= j < k + 1 implies self.dep_checked(
                            #[trigger] deps@[j],
                            visited@,
                            missing@,
                        ) by {
                            if j < k {
                                assert(self.dep_checked(deps@[j], visited_then, missing_then));
                            }
                        }
                    }
                },
                Dependency::NarrowDependency(n) => {
                    proof {
                        assert forall|s: ShuffleDependency| #[trigger]
                            ctx.at_boundary(Set::empty(), n.rdd, s) implies self.shuffle_registered(
                            s.shuffle_id,
                        ) && self.has_stage(self.stage_of(s.shuffle_id)) by {
                            lemma_boundary_step(ctx, Set::empty(), rdd, k as int, s);
                        }
                        assert forall|x: usize| #[trigger]
                            visited@.contains(x) && x < n.rdd + 1 implies self.node_checked(
                            ctx,
                            x,
                            visited@,
                            missing@,
                        ) by {}
                    }
                    self.visit_for_missing_parent_stages(ctx, missing, visited, n.rdd);
                    proof {
                        assert forall|x: usize| #[trigger]
                            visited@.contains(x) && x < rdd implies self.node_checked(
                            ctx,
                            x,
                            visited@,
                            missing@,
                        ) by {
                            if x < n.rdd + 1 {
                            } else {
                                assert(visited_then.contains(x));
                                self.lemma_node_checked_grows(ctx, x, visited_then, missing_then, visited@, missing@);
                            }
                        }
                        assert forall|j: int| 0 <= j < k + 1 implies self.dep_checked(
                            #[trigger] deps@[j],
                            visited@,
                            missing@,
                        ) by {
                            if j < k {
                                assert(self.dep_checked(deps@[j], visited_then, missing_then));
                            }
                        }
                        assert forall|x: usize|
                            missing@.contains(x) && !missing_first.contains(
                                x,
                            ) implies self.is_missing_parent_of(ctx, rdd, x) by {
                            if !missing_then.contains(x) {
                                self.lemma_missing_step(ctx, rdd, k as int, x);
                            }
                        }
                        assert forall|x: usize|
                            visited@.contains(x) && !visited_first.contains(x) implies ctx.reaches(
                            cut,
                            rdd,
                            x,
                        ) by {
                            if !visited_then.contains(x) {
                                lemma_reaches_step(ctx, cut, rdd, k as int, x);
                            }
                        }
                    }
                },
            }
            k = k + 1;
        }
        proof {
            self.lemma_check_exact(ctx, visited_first, missing_first, visited@, missing@, rdd);
        }
    }

    /// The stages that must be computed before stage `stage_id` can run, in
    /// ascending order of id: the stages at its shuffle boundaries that lack the
    /// output of some partition, leaving out what lies behind a dataset whose
    /// partitions are all cached.
    pub fn get_missing_parent_stages(&self, ctx: &Context, stage_id: usize) -> (v: Vec<usize>)
        requires
            ctx.wf(),
            self.consistent(ctx),
            self.has_stage(stage_id),
        ensures
            strictly_increasing(v@),
            v@.to_set() == self.missing_parent_stages(ctx, self.stage(stage_id).rdd),
            forall|i: int|
                0 <= i < v@.len() ==> self.has_stage(#[trigger] v@[i]) && self.stage(v@[i]).rdd
                    < self.stage(stage_id).rdd && self.stage(v@[i]).shuffle_dependency is Some,
    {
        let mut missing = IdSet::new();
        let mut visited = IdSet::new();
        let rdd = self.fetch_from_stage_cache(stage_id).get_rdd();
        proof {
            assert(self.stage_ok(ctx, stage_id));
        }
        self.visit_for_missing_parent_stages(ctx, &mut missing, &mut visited, rdd);
        proof {
            self.lemma_check_collects(ctx, visited@, missing@, rdd);
            assert forall|id: usize| missing@.contains(id) implies self.missing_parent_stages(
                ctx,
                rdd,
            ).contains(id) by {
                assert(!Set::<usize>::empty().contains(id));
            }
            assert(missing@ =~= self.missing_parent_stages(ctx, rdd));
        }
        let v = missing.to_vec();
        proof {
            assert forall|i: int| 0 <= i < v@.len() implies self.has_stage(#[trigger] v@[i])
                && self.stage(v@[i]).rdd < self.stage(stage_id).rdd && self.stage(
                v@[i],
            ).shuffle_dependency is Some by {
                let id = v@[i];
                assert(v@.to_set().contains(id));
                assert(self.is_missing_parent_of(ctx, rdd, id));
                let s = choose|s: ShuffleDependency|
                    #[trigger] ctx.at_boundary(self.cached_nodes(ctx), rdd, s)
                        && self.shuffle_registered(s.shuffle_id) && self.stage_of(s.shuffle_id)
                        == id && !self.stage(id).available();
                lemma_boundary_uncut(ctx, self.cached_nodes(ctx), rdd, s);
                lemma_boundary_below(ctx, Set::empty(), rdd, s);
                assert(self.shuffle_ok(ctx, s.shuffle_id));
                assert(self.has_stage(id));
                assert(self.stage_ok(ctx, id));
            }
        }
        v
    }
}

} // verus!
