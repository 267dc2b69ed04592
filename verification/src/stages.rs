//! Building stages: from a dataset back to its nearest shuffle boundaries,
//! one stage for each shuffle.

use crate::cache_tracker::{entry, has_entry};
use crate::context::{
    lemma_boundary_here, lemma_boundary_step, lemma_feeds_step, lemma_reaches_step, Context,
};
use crate::dependency::{Dependency, ShuffleDependency};
use crate::ids::{strictly_increasing, IdSet};
use crate::scheduler::{lemma_bounded_set_len, DagScheduler};
use crate::stage::Stage;
use vstd::prelude::*;

verus! {

impl DagScheduler {
    /// Dependency `d` is accounted for by a walk that has visited the nodes
    /// `visited` and collected the stages `parents`.
    pub open spec fn dep_done(&self, d: Dependency, visited: Set<usize>, parents: Set<usize>) -> bool {
        match d {
            Dependency::NarrowDependency(n) => visited.contains(n.rdd),
            Dependency::ShuffleDependency(s) => self.shuffle_registered(s.shuffle_id)
                && self.has_stage(self.stage_of(s.shuffle_id)) && parents.contains(
                self.stage_of(s.shuffle_id),
            ),
        }
    }

    /// Every dependency of node `x` is accounted for.
    pub open spec fn node_done(
        &self,
        ctx: &Context,
        x: usize,
        visited: Set<usize>,
        parents: Set<usize>,
    ) -> bool {
        forall|k: int|
            0 <= k < ctx.deps(x).len() ==> self.dep_done(#[trigger] ctx.deps(x)[k], visited, parents)
    }

    /// The state of a walk over the narrow region of a node: every visited node
    /// below `bound` has all its dependencies accounted for.
    pub open spec fn walk_inv(
        &self,
        ctx: &Context,
        visited: Set<usize>,
        parents: Set<usize>,
        bound: int,
    ) -> bool {
        &&& forall|x: usize|
            visited.contains(x) ==> x < ctx.rdds@.len() && has_entry(self.cache_tracker.table(), x)
        &&& forall|x: usize| #[trigger]
            visited.contains(x) && x < bound ==> self.node_done(ctx, x, visited, parents)
    }

    /// A dependency that was accounted for in an earlier state of scheduler and
    /// walk is accounted for later.
    pub proof fn lemma_dep_done_grows(
        &self,
        before: &Self,
        d: Dependency,
        visited_first: Set<usize>,
        parents_first: Set<usize>,
        visited_then: Set<usize>,
        parents_then: Set<usize>,
    )
        requires
            self.keeps(before),
            before.dep_done(d, visited_first, parents_first),
            visited_first.subset_of(visited_then),
            parents_first.subset_of(parents_then),
        ensures
            self.dep_done(d, visited_then, parents_then),
    {
        match d {
            Dependency::NarrowDependency(n) => {},
            Dependency::ShuffleDependency(s) => {
                assert(before.shuffle_registered(s.shuffle_id));
                assert(before.has_stage(before.stage_of(s.shuffle_id)));
            },
        }
    }

    /// The stages built in two steps are stages of shuffles that had no stage
    /// before the first step, if each step built stages of such shuffles only.
    pub proof fn lemma_new_stages_step(&self, mid: &Self, before: &Self)
        requires
            mid.keeps(before),
            forall|x: usize| #[trigger]
                mid.has_stage(x) && !before.has_stage(x) ==> (mid.stage(
                    x,
                ).shuffle_dependency matches Some(d) && !before.shuffle_registered(d.shuffle_id)),
            forall|x: usize| #[trigger]
                self.has_stage(x) && !mid.has_stage(x) ==> (self.stage(
                    x,
                ).shuffle_dependency matches Some(d) && !mid.shuffle_registered(d.shuffle_id)),
            forall|x: usize| #[trigger]
                mid.has_stage(x) ==> self.has_stage(x) && self.stage(x) == mid.stage(x),
        ensures
            forall|x: usize| #[trigger]
                self.has_stage(x) && !before.has_stage(x) ==> (self.stage(
                    x,
                ).shuffle_dependency matches Some(d) && !before.shuffle_registered(d.shuffle_id)),
    {
        assert forall|x: usize| #[trigger] self.has_stage(x) && !before.has_stage(x) implies (
        self.stage(x).shuffle_dependency matches Some(d) && !before.shuffle_registered(
            d.shuffle_id,
        )) by {
            if !mid.has_stage(x) {
                let d = self.stage(x).shuffle_dependency->0;
                if before.shuffle_registered(d.shuffle_id) {
                    assert(mid.shuffle_registered(d.shuffle_id));
                }
            }
        }
    }

    /// What held of a node in an earlier state of scheduler and walk holds later.
    pub proof fn lemma_node_done_grows(
        &self,
        before: &Self,
        ctx: &Context,
        x: usize,
        visited_first: Set<usize>,
        parents_first: Set<usize>,
        visited_then: Set<usize>,
        parents_then: Set<usize>,
    )
        requires
            self.keeps(before),
            before.node_done(ctx, x, visited_first, parents_first),
            visited_first.subset_of(visited_then),
            parents_first.subset_of(parents_then),
        ensures
            self.node_done(ctx, x, visited_then, parents_then),
    {
        assert forall|k: int| 0 <= k < ctx.deps(x).len() implies self.dep_done(
            #[trigger] ctx.deps(x)[k],
            visited_then,
            parents_then,
        ) by {
            self.lemma_dep_done_grows(
                before,
                ctx.deps(x)[k],
                visited_first,
                parents_first,
                visited_then,
                parents_then,
            );
        }
    }

    /// The walk invariant survives growth of scheduler, visited set and parents:
    /// it holds up to `outer` if it held so before, holds now up to `inner`, and
    /// every node visited since is below `inner`.
    pub proof fn lemma_walk_inv_grows(
        &self,
        before: &Self,
        ctx: &Context,
        visited_first: Set<usize>,
        parents_first: Set<usize>,
        visited_then: Set<usize>,
        parents_then: Set<usize>,
        inner: int,
        outer: int,
    )
        requires
            self.grows(before),
            before.walk_inv(ctx, visited_first, parents_first, outer),
            self.walk_inv(ctx, visited_then, parents_then, inner),
            inner <= outer,
            visited_first.subset_of(visited_then),
            parents_first.subset_of(parents_then),
            forall|x: usize| visited_then.contains(x) && !visited_first.contains(x) ==> x < inner,
        ensures
            self.walk_inv(ctx, visited_then, parents_then, outer),
    {
        assert forall|x: usize| #[trigger] visited_then.contains(x) && x < outer implies self.node_done(
            ctx,
            x,
            visited_then,
            parents_then,
        ) by {
            if x < inner {
            } else {
                assert(visited_first.contains(x));
                self.lemma_node_done_grows(before, ctx, x, visited_first, parents_first, visited_then, parents_then);
            }
        }
    }

    /// A stage that was a parent of `rdd` stays one as the scheduler grows.
    pub proof fn lemma_parent_grows(&self, before: &Self, ctx: &Context, rdd: usize, id: usize)
        requires
            self.keeps(before),
            before.is_parent_of(ctx, rdd, id),
        ensures
            self.is_parent_of(ctx, rdd, id),
    {
        let s = choose|s: ShuffleDependency|
            #[trigger] ctx.at_boundary(Set::empty(), rdd, s) && before.shuffle_registered(
                s.shuffle_id,
            ) && before.stage_of(s.shuffle_id) == id;
        assert(ctx.at_boundary(Set::empty(), rdd, s) && self.shuffle_registered(s.shuffle_id)
            && self.stage_of(s.shuffle_id) == id);
    }

    /// A parent of a narrow parent is a parent of the child.
    pub proof fn lemma_parent_step(&self, ctx: &Context, x: usize, k: int, id: usize)
        requires
            x < ctx.rdds@.len(),
            0 <= k < ctx.deps(x).len(),
            ctx.deps(x)[k] matches Dependency::NarrowDependency(n) && n.rdd < x
                && self.is_parent_of(ctx, n.rdd, id),
        ensures
            self.is_parent_of(ctx, x, id),
    {
        let n = ctx.deps(x)[k]->NarrowDependency_0;
        let s = choose|s: ShuffleDependency|
            #[trigger] ctx.at_boundary(Set::empty(), n.rdd, s) && self.shuffle_registered(
                s.shuffle_id,
            ) && self.stage_of(s.shuffle_id) == id;
        lemma_boundary_step(ctx, Set::empty(), x, k, s);
        assert(ctx.at_boundary(Set::empty(), x, s) && self.shuffle_registered(s.shuffle_id)
            && self.stage_of(s.shuffle_id) == id);
    }

    /// Once a walk from `r` is over, every node that `r` reaches has been visited
    /// and has its dependencies accounted for.
    pub proof fn lemma_walk_complete(
        &self,
        ctx: &Context,
        visited: Set<usize>,
        parents: Set<usize>,
        r: usize,
        y: usize,
    )
        requires
            ctx.wf(),
            self.walk_inv(ctx, visited, parents, r + 1),
            visited.contains(r),
            ctx.reaches(Set::empty(), r, y),
        ensures
            visited.contains(y),
            y <= r,
            self.node_done(ctx, y, visited, parents),
        decreases r,
    {
        if y != r {
            let k = choose|k: int|
                (#[trigger] ctx.narrow_parent(r, k)) is Some && ctx.narrow_parent(r, k)->0 < r
                    && ctx.reaches(Set::empty(), ctx.narrow_parent(r, k)->0, y);
            let p = ctx.narrow_parent(r, k)->0;
            assert(self.node_done(ctx, r, visited, parents));
            assert(self.dep_done(ctx.deps(r)[k], visited, parents));
            self.lemma_walk_complete(ctx, visited, parents, p, y);
        }
    }

    /// What a walk from `r` has added: the nodes that `r` reaches, to the nodes
    /// visited, and the parent stages of `r`, to the stages collected.
    pub proof fn lemma_walk_exact(
        &self,
        ctx: &Context,
        visited_first: Set<usize>,
        parents_first: Set<usize>,
        visited: Set<usize>,
        parents: Set<usize>,
        r: usize,
    )
        requires
            ctx.wf(),
            self.walk_inv(ctx, visited, parents, r + 1),
            visited.contains(r),
            visited_first.subset_of(visited),
            parents_first.subset_of(parents),
            forall|x: usize|
                visited.contains(x) && !visited_first.contains(x) ==> ctx.reaches(
                    Set::empty(),
                    r,
                    x,
                ),
            forall|id: usize|
                parents.contains(id) && !parents_first.contains(id) ==> self.is_parent_of(ctx, r, id),
        ensures
            visited == visited_first + Set::new(|x: usize| ctx.reaches(Set::empty(), r, x)),
            parents == parents_first + self.parent_stages(ctx, r),
    {
        let reached = Set::new(|x: usize| ctx.reaches(Set::empty(), r, x));
        assert forall|x: usize| reached.contains(x) implies visited.contains(x) by {
            self.lemma_walk_complete(ctx, visited, parents, r, x);
        }
        assert(visited =~= visited_first + reached);
        self.lemma_walk_collects(ctx, visited, parents, r);
        assert(parents =~= parents_first + self.parent_stages(ctx, r));
    }

    /// Once a walk from `r` is over, the stages collected include every parent
    /// stage of `r`, and all of them are built.
    pub proof fn lemma_walk_collects(
        &self,
        ctx: &Context,
        visited: Set<usize>,
        parents: Set<usize>,
        r: usize,
    )
        requires
            ctx.wf(),
            self.walk_inv(ctx, visited, parents, r + 1),
            visited.contains(r),
        ensures
            self.boundary_built(ctx, r),
            self.parent_stages(ctx, r).subset_of(parents),
    {
        assert forall|s: ShuffleDependency| #[trigger]
            ctx.at_boundary(Set::empty(), r, s) implies self.shuffle_registered(s.shuffle_id)
            && self.has_stage(self.stage_of(s.shuffle_id)) && parents.contains(
            self.stage_of(s.shuffle_id),
        ) by {
            let (y, j) = choose|y: usize, j: int|
                ctx.reaches(Set::empty(), r, y) && y < ctx.rdds@.len() && !Set::<usize>::empty().contains(y)
                    && 0 <= j < ctx.deps(y).len() && #[trigger] ctx.deps(y)[j]
                    == Dependency::ShuffleDependency(s);
            self.lemma_walk_complete(ctx, visited, parents, r, y);
            assert(self.dep_done(ctx.deps(y)[j], visited, parents));
        }
        assert forall|id: usize| self.parent_stages(ctx, r).contains(id) implies parents.contains(
            id,
        ) by {
            let s = choose|s: ShuffleDependency|
                #[trigger] ctx.at_boundary(Set::empty(), r, s) && self.shuffle_registered(
                    s.shuffle_id,
                ) && self.stage_of(s.shuffle_id) == id;
        }
    }

    /// A stage that is consistent stays so as the scheduler grows.
    pub proof fn lemma_stage_ok_grows(&self, before: &Self, ctx: &Context, id: usize)
        requires
            self.keeps(before),
            before.has_stage(id),
            before.stage_ok(ctx, id),
        ensures
            self.stage_ok(ctx, id),
    {
        let st = before.stage(id);
        assert(self.stage(id) == st);
        assert forall|s: ShuffleDependency| #[trigger]
            ctx.at_boundary(Set::empty(), st.rdd, s) implies self.shuffle_registered(s.shuffle_id)
            && self.has_stage(self.stage_of(s.shuffle_id)) by {
            assert(before.shuffle_registered(s.shuffle_id));
            assert(before.has_stage(before.stage_of(s.shuffle_id)));
        }
        assert forall|x: usize| self.parent_stages(ctx, st.rdd).contains(x)
            <==> before.parent_stages(ctx, st.rdd).contains(x) by {
            if before.is_parent_of(ctx, st.rdd, x) {
                self.lemma_parent_grows(before, ctx, st.rdd, x);
            }
            if self.is_parent_of(ctx, st.rdd, x) {
                let s = choose|s: ShuffleDependency|
                    #[trigger] ctx.at_boundary(Set::empty(), st.rdd, s) && self.shuffle_registered(
                        s.shuffle_id,
                    ) && self.stage_of(s.shuffle_id) == x;
                assert(before.shuffle_registered(s.shuffle_id));
                assert(ctx.at_boundary(Set::empty(), st.rdd, s) && before.shuffle_registered(
                    s.shuffle_id,
                ) && before.stage_of(s.shuffle_id) == x);
            }
        }
        assert(self.parent_stages(ctx, st.rdd) =~= before.parent_stages(ctx, st.rdd));
        if st.shuffle_dependency is Some {
            let d = st.shuffle_dependency->0;
            assert(before.shuffle_registered(d.shuffle_id));
        }
    }

    /// Growth is transitive.
    pub proof fn lemma_grows_trans(&self, mid: &Self, before: &Self)
        requires
            self.grows(mid),
            mid.grows(before),
        ensures
            self.grows(before),
    {
        assert forall|id: usize| #[trigger] self.has_stage(id) && !before.has_stage(id) implies id
            >= before.next_stage_id by {
            if mid.has_stage(id) {
            }
        }
        assert forall|s: usize| #[trigger] before.shuffle_registered(s) implies self.shuffle_registered(s)
            && self.stage_of(s) == before.stage_of(s) by {
            assert(mid.shuffle_registered(s));
        }
        assert forall|s: usize| #[trigger]
            before.map_output_tracker.registered(s) implies self.map_output_tracker.registered(s)
            && self.map_output_tracker.server_uris@[s] == before.map_output_tracker.server_uris@[s] by {
            assert(mid.map_output_tracker.registered(s));
        }
        assert forall|k: usize| #[trigger]
            has_entry(before.cache_tracker.table(), k) implies has_entry(self.cache_tracker.table(), k)
            && entry(self.cache_tracker.table(), k) == entry(before.cache_tracker.table(), k) by {
            assert(has_entry(mid.cache_tracker.table(), k));
        }
        assert forall|id: usize| #[trigger] before.has_stage(id) implies self.has_stage(id)
            && self.stage(id) == before.stage(id) by {
            assert(mid.has_stage(id));
        }
    }

    /// Extension is transitive.
    pub proof fn lemma_extends_trans(&self, mid: &Self, before: &Self)
        requires
            self.extends(mid),
            mid.extends(before),
        ensures
            self.extends(before),
    {
        self.lemma_grows_trans(mid, before);
        assert forall|s: usize| #[trigger]
            self.shuffle_registered(s) && !before.shuffle_registered(s) implies self.has_stage(
            self.stage_of(s),
        ) && self.stage_of(s) >= before.next_stage_id by {
            if mid.shuffle_registered(s) {
                assert(mid.has_stage(mid.stage_of(s)));
            }
        }
    }

    /// Shuffles whose stage is half built stay those that were so before.
    pub proof fn lemma_pending_kept(&self, before: &Self, ctx: &Context, bound: int)
        requires
            self.extends(before),
            before.pending_above(ctx, bound),
        ensures
            self.pending_above(ctx, bound),
    {
        assert forall|s: usize|
            #[trigger] self.shuffle_registered(s) && !self.has_stage(
                self.stage_of(s),
            ) implies ctx.shuffles@[s as int].rdd >= bound by {
            if before.shuffle_registered(s) {
                if before.has_stage(before.stage_of(s)) {
                    assert(self.has_stage(before.stage_of(s)));
                }
            }
        }
    }

    /// Consistency carries over to a scheduler that differs only in what the
    /// cache tracker holds.
    pub proof fn lemma_consistent_frame(&self, before: &Self, ctx: &Context)
        requires
            before.consistent(ctx),
            self.grows(before),
            self.stage_cache@ == before.stage_cache@,
            self.shuffle_to_map_stage@ == before.shuffle_to_map_stage@,
            self.map_output_tracker == before.map_output_tracker,
            self.next_stage_id == before.next_stage_id,
        ensures
            self.consistent(ctx),
            self.extends(before),
    {
        assert forall|id: usize| #[trigger] self.has_stage(id) implies self.stage_ok(ctx, id) by {
            assert(before.has_stage(id));
            self.lemma_stage_ok_grows(before, ctx, id);
        }
        assert forall|s: usize| #[trigger] self.shuffle_registered(s) implies self.shuffle_ok(
            ctx,
            s,
        ) by {
            assert(before.shuffle_registered(s));
            assert(before.shuffle_ok(ctx, s));
        }
        self.lemma_tracker_kept(before, ctx);
    }

    /// The stage that produces the shuffle `shuf`; it is built first, with all
    /// the stages it depends on, if the shuffle has none yet.  However often and
    /// by whatever path a shuffle is reached, it has one stage.
    pub fn get_shuffle_map_stage(&mut self, ctx: &Context, shuf: ShuffleDependency) -> (id: usize)
        requires
            ctx.wf(),
            shuf.shuffle_id < ctx.shuffles@.len(),
            ctx.shuffles@[shuf.shuffle_id as int] == shuf,
            old(self).consistent(ctx),
            old(self).pending_above(ctx, shuf.rdd + 1),
        ensures
            final(self).consistent(ctx),
            final(self).extends(old(self)),
            final(self).shuffle_registered(shuf.shuffle_id),
            id == final(self).stage_of(shuf.shuffle_id),
            final(self).has_stage(id),
            old(self).shuffle_registered(shuf.shuffle_id) ==> *final(self) == *old(self),
            !old(self).shuffle_registered(shuf.shuffle_id) ==> {
                &&& id == old(self).next_stage_id
                &&& forall|p: int|
                    0 <= p < final(self).stage(id).locs().len() ==> (#[trigger] final(self).stage(
                        id,
                    ).locs()[p]).len() == 0
            },
            final(self).built_for(old(self), ctx, shuf.rdd, Some(shuf), None),
            final(self).counted(old(self), 0),
        decreases shuf.rdd, 4nat,
    {
        let found = match self.shuffle_to_map_stage.get(&shuf.shuffle_id) {
            Some(id) => Some(*id),
            None => None,
        };
        match found {
            Some(id) => {
                proof {
                    if !self.has_stage(id) {
                        assert(self.shuffle_registered(shuf.shuffle_id));
                        assert(false);
                    }
                }
                id
            },
            None => self.new_stage(ctx, shuf.rdd, Some(shuf)),
        }
    }

    /// Builds the stage that computes the partitions of dataset `rdd`, for the
    /// shuffle `shuffle_dependency` or, without one, as the final stage of a job.
    /// The stage gets the next stage id; the stages at the nearest shuffle
    /// boundaries of `rdd` are built before the stage itself is stored.
    pub fn new_stage(
        &mut self,
        ctx: &Context,
        rdd: usize,
        shuffle_dependency: Option<ShuffleDependency>,
    ) -> (id: usize)
        requires
            ctx.wf(),
            rdd < ctx.rdds@.len(),
            old(self).consistent(ctx),
            old(self).pending_above(ctx, rdd + 1),
            match shuffle_dependency {
                Some(d) => d.rdd == rdd && d.shuffle_id < ctx.shuffles@.len()
                    && ctx.shuffles@[d.shuffle_id as int] == d && !old(self).shuffle_registered(
                    d.shuffle_id,
                ),
                None => old(self).next_stage_id + ctx.shuffles@.len() - old(self).shuffle_to_map_stage@.len() < usize::MAX,
            },
        ensures
            final(self).consistent(ctx),
            final(self).extends(old(self)),
            id == old(self).next_stage_id,
            final(self).has_stage(id),
            final(self).stage(id).rdd == rdd,
            final(self).stage(id).shuffle_dependency == shuffle_dependency,
            forall|p: int|
                0 <= p < final(self).stage(id).locs().len() ==> (#[trigger] final(self).stage(
                    id,
                ).locs()[p]).len() == 0,
            final(self).built_for(
                old(self),
                ctx,
                rdd,
                shuffle_dependency,
                if shuffle_dependency is None {
                    Some(id)
                } else {
                    None
                },
            ),
            shuffle_dependency matches Some(d) ==> final(self).map_output_tracker.registered(
                d.shuffle_id,
            ),
            forall|x: usize|
                ctx.reaches(Set::empty(), rdd, x) ==> has_entry(
                    final(self).cache_tracker.table(),
                    x,
                ),
            final(self).counted(
                old(self),
                if shuffle_dependency is None {
                    1
                } else {
                    0
                },
            ),
        decreases rdd, 3nat,
    {
        broadcast use vstd::std_specs::hash::group_hash_axioms;

        let ghost s0 = *self;
        let id = self.next_stage_id;
        proof {
            assert(s0.shuffle_to_map_stage@.dom().finite());
            if shuffle_dependency is Some {
                let d = shuffle_dependency->0;
                let grown = s0.shuffle_to_map_stage@.dom().insert(d.shuffle_id);
                assert forall|x: usize| grown.contains(x) implies x < ctx.shuffles@.len() by {
                    if x != d.shuffle_id {
                        assert(s0.shuffle_registered(x));
                        assert(s0.shuffle_ok(ctx, x));
                    }
                }
                lemma_bounded_set_len(grown, ctx.shuffles.len());
                assert(grown.len() == s0.shuffle_to_map_stage@.dom().len() + 1);
                assert(s0.shuffle_to_map_stage@.len() == s0.shuffle_to_map_stage@.dom().len());
            } else {
                let dom = s0.shuffle_to_map_stage@.dom();
                assert forall|x: usize| dom.contains(x) implies x < ctx.shuffles@.len() by {
                    assert(s0.shuffle_registered(x));
                    assert(s0.shuffle_ok(ctx, x));
                }
                lemma_bounded_set_len(dom, ctx.shuffles.len());
            }
        }
        self.next_stage_id = id + 1;
        match shuffle_dependency {
            Some(d) => {
                self.shuffle_to_map_stage.insert(d.shuffle_id, id);
            },
            None => {},
        }
        let ghost s1 = *self;
        proof {
            assert(s1.shuffle_to_map_stage@.len() == s0.shuffle_to_map_stage@.len() + if shuffle_dependency is Some {
                1int
            } else {
                0int
            });
            assert(s1.grows(&s0));
            assert forall|x: usize| #[trigger] s1.has_stage(x) implies s1.stage_ok(ctx, x) by {
                assert(s0.has_stage(x));
                assert(s0.stage_ok(ctx, x));
                s1.lemma_stage_ok_grows(&s0, ctx, x);
            }
            assert forall|s: usize| #[trigger] s1.shuffle_registered(s) implies s1.shuffle_ok(
                ctx,
                s,
            ) by {
                if s0.shuffle_registered(s) {
                    assert(s0.shuffle_ok(ctx, s));
                } else {
                    if s1.has_stage(id) {
                        assert(s0.has_stage(id));
                        assert(s0.stage_ok(ctx, id));
                    }
                }
            }
            s1.lemma_tracker_kept(&s0, ctx);
            assert(s1.consistent(ctx));
            assert forall|s: usize|
                #[trigger] s1.shuffle_registered(s) && !s1.has_stage(
                    s1.stage_of(s),
                ) implies ctx.shuffles@[s as int].rdd >= rdd by {
                if s0.shuffle_registered(s) {
                }
            }
        }
        let parents = self.get_parent_stages(ctx, rdd);
        let ghost s2 = *self;
        let num_splits = ctx.number_of_splits(rdd);
        self.cache_tracker.register_rdd(rdd, num_splits);
        match shuffle_dependency {
            Some(d) => {
                let r = self.map_output_tracker.register_shuffle(d.shuffle_id, num_splits);
                proof {
                    if r is Err {
                        assert(s2.map_output_tracker.registered(d.shuffle_id));
                        assert(false);
                    }
                }
            },
            None => {},
        }
        let ghost s3 = *self;
        let stage = Stage::new(id, rdd, num_splits, shuffle_dependency, parents);
        proof {
            if s3.has_stage(id) {
                assert(s2.has_stage(id));
                if s1.has_stage(id) {
                    assert(s0.has_stage(id));
                    assert(s0.stage_ok(ctx, id));
                }
            }
        }
        self.stage_cache.insert(id, stage);
        proof {
            let s4 = *self;
            assert(s3.stage_cache@ == s2.stage_cache@);
            assert(!s3.has_stage(id));
            assert(s3.stage_cache@.dom().finite());
            assert(s4.stage_cache@.len() == s3.stage_cache@.len() + 1);
            assert(s4.keeps(&s2));
            assert(s4.shuffle_to_map_stage@ == s2.shuffle_to_map_stage@);
            assert(s4.grows(&s0)) by {
                assert forall|x: usize| #[trigger] s0.has_stage(x) implies s4.has_stage(x)
                    && s4.stage(x) == s0.stage(x) by {
                    assert(s1.has_stage(x));
                    assert(s2.has_stage(x));
                }
                assert forall|x: usize| #[trigger] s4.has_stage(x) && !s0.has_stage(x) implies x
                    >= s0.next_stage_id by {
                    if x != id {
                        assert(s2.has_stage(x));
                        assert(!s1.has_stage(x));
                    }
                }
                assert forall|s: usize| #[trigger] s0.shuffle_registered(s) implies s4.shuffle_registered(
                    s,
                ) && s4.stage_of(s) == s0.stage_of(s) by {
                    assert(s1.shuffle_registered(s));
                }
                assert forall|s: usize| #[trigger]
                    s0.map_output_tracker.registered(s) implies s4.map_output_tracker.registered(s)
                    && s4.map_output_tracker.server_uris@[s]
                    == s0.map_output_tracker.server_uris@[s] by {
                    assert(s1.map_output_tracker.registered(s));
                    assert(s2.map_output_tracker.registered(s));
                    assert(s3.map_output_tracker.registered(s));
                    assert(s3.map_output_tracker.server_uris@[s]
                        == s2.map_output_tracker.server_uris@[s]);
                }
                assert forall|k: usize| #[trigger]
                    has_entry(s0.cache_tracker.table(), k) implies has_entry(
                    s4.cache_tracker.table(),
                    k,
                ) && entry(s4.cache_tracker.table(), k) == entry(s0.cache_tracker.table(), k) by {
                    assert(has_entry(s1.cache_tracker.table(), k));
                    assert(has_entry(s2.cache_tracker.table(), k));
                }
            }
            assert forall|x: usize| #[trigger] s4.has_stage(x) implies s4.stage_ok(ctx, x) by {
                if x == id {
                    let st = s4.stage(id);
                    assert(st == stage);
                    assert forall|y: usize| s4.parent_stages(ctx, rdd).contains(y)
                        <==> s2.parent_stages(ctx, rdd).contains(y) by {
                        if s2.is_parent_of(ctx, rdd, y) {
                            s4.lemma_parent_grows(&s2, ctx, rdd, y);
                        }
                        if s4.is_parent_of(ctx, rdd, y) {
                            let s = choose|s: ShuffleDependency|
                                #[trigger] ctx.at_boundary(Set::empty(), rdd, s)
                                    && s4.shuffle_registered(s.shuffle_id) && s4.stage_of(
                                    s.shuffle_id,
                                ) == y;
                            assert(ctx.at_boundary(Set::empty(), rdd, s) && s2.shuffle_registered(
                                s.shuffle_id,
                            ) && s2.stage_of(s.shuffle_id) == y);
                        }
                    }
                    assert(s4.parent_stages(ctx, rdd) =~= s2.parent_stages(ctx, rdd));
                    assert forall|s: ShuffleDependency| #[trigger]
                        ctx.at_boundary(Set::empty(), rdd, s) implies s4.shuffle_registered(
                        s.shuffle_id,
                    ) && s4.has_stage(s4.stage_of(s.shuffle_id)) by {
                        assert(s2.shuffle_registered(s.shuffle_id));
                        assert(s2.has_stage(s2.stage_of(s.shuffle_id)));
                    }
                    if shuffle_dependency is Some {
                        let d = shuffle_dependency->0;
                        assert(s1.shuffle_registered(d.shuffle_id));
                        assert(s2.shuffle_registered(d.shuffle_id));
                    }
                } else {
                    assert(s2.has_stage(x));
                    assert(s2.stage_ok(ctx, x));
                    s4.lemma_stage_ok_grows(&s2, ctx, x);
                }
            }
            assert forall|s: usize| #[trigger] s4.shuffle_registered(s) implies s4.shuffle_ok(
                ctx,
                s,
            ) by {
                assert(s2.shuffle_registered(s));
                assert(s2.shuffle_ok(ctx, s));
                if s4.stage_of(s) == id {
                    if s1.shuffle_registered(s) {
                        if s0.shuffle_registered(s) {
                            assert(s0.shuffle_ok(ctx, s));
                            assert(false);
                        }
                    } else {
                        assert(s2.stage_of(s) >= s1.next_stage_id);
                        assert(false);
                    }
                } else {
                    if s4.has_stage(s4.stage_of(s)) {
                        assert(s2.has_stage(s2.stage_of(s)));
                    }
                }
            }
            assert(s4.tracker_ok(ctx)) by {
                assert forall|s: usize| #[trigger] s4.map_output_tracker.registered(s) implies s
                    < ctx.shuffles@.len() && s4.map_output_tracker.slots(s).len()
                    == ctx.rdds@[ctx.shuffles@[s as int].rdd as int].num_splits by {
                    if s2.map_output_tracker.registered(s) {
                        assert(s4.map_output_tracker.server_uris@[s]
                            == s2.map_output_tracker.server_uris@[s]);
                    } else {
                        assert(shuffle_dependency is Some && s == shuffle_dependency->0.shuffle_id);
                    }
                }
            }
            assert(s4.consistent(ctx));
            assert forall|s: usize| #[trigger]
                s4.shuffle_registered(s) && !s0.shuffle_registered(s) implies s4.has_stage(
                s4.stage_of(s),
            ) && s4.stage_of(s) >= s0.next_stage_id && (shuffle_dependency == Some(
                ctx.shuffles@[s as int],
            ) || ctx.feeds(rdd, ctx.shuffles@[s as int])) by {
                assert(s2.shuffle_registered(s));
                if s1.shuffle_registered(s) {
                } else {
                    assert(s2.has_stage(s2.stage_of(s)));
                    assert(s2.stage_of(s) >= s1.next_stage_id);
                }
            }
            assert forall|s: usize| #[trigger]
                s4.map_output_tracker.registered(s) && !s0.map_output_tracker.registered(
                    s,
                ) implies s4.shuffle_registered(s) && !s0.shuffle_registered(s) && forall|i: int|
                0 <= i < s4.map_output_tracker.slots(s).len() ==> (
                #[trigger] s4.map_output_tracker.slots(s)[i]) is None by {
                if s2.map_output_tracker.registered(s) {
                    assert(!s1.map_output_tracker.registered(s));
                    assert(s2.shuffle_registered(s) && !s1.shuffle_registered(s));
                    assert(s3.map_output_tracker.registered(s));
                    assert(s3.map_output_tracker.server_uris@[s]
                        == s2.map_output_tracker.server_uris@[s]);
                } else {
                    assert(shuffle_dependency is Some && s == shuffle_dependency->0.shuffle_id);
                    assert(s1.shuffle_registered(s));
                }
            }
            assert forall|k: usize| #[trigger]
                has_entry(s4.cache_tracker.table(), k) && !has_entry(
                    s0.cache_tracker.table(),
                    k,
                ) implies s4.fresh_entry(ctx, k) by {
                if has_entry(s2.cache_tracker.table(), k) {
                    assert(!has_entry(s1.cache_tracker.table(), k));
                    assert(s2.fresh_entry(ctx, k));
                    assert(entry(s4.cache_tracker.table(), k) == entry(
                        s2.cache_tracker.table(),
                        k,
                    ));
                } else {
                    assert(k == rdd);
                }
            }
            assert forall|x: usize| ctx.reaches(Set::empty(), rdd, x) implies has_entry(
                s4.cache_tracker.table(),
                x,
            ) by {
                assert(has_entry(s2.cache_tracker.table(), x));
            }
            assert forall|x: usize| #[trigger] s4.has_stage(x) && !s0.has_stage(x) implies s4.stage(
                x,
            ).no_output() by {
                if x != id {
                    assert(s2.has_stage(x));
                    assert(!s1.has_stage(x));
                    assert(s4.stage(x) == s2.stage(x));
                }
            }
            assert forall|x: usize| #[trigger] s4.has_stage(x) && !s0.has_stage(x) implies (
            if shuffle_dependency is None {
                Some(id)
            } else {
                None
            }) == Some(x) || (s4.stage(x).shuffle_dependency matches Some(d)
                && !s0.shuffle_registered(d.shuffle_id)) by {
                if x != id {
                    assert(s2.has_stage(x));
                    assert(!s1.has_stage(x));
                    let d = s2.stage(x).shuffle_dependency->0;
                    if s0.shuffle_registered(d.shuffle_id) {
                        assert(s1.shuffle_registered(d.shuffle_id));
                    }
                }
            }
        }
        id
    }

    /// The stages at the nearest shuffle boundaries of dataset `rdd`, in
    /// ascending order of id; those that did not exist are built.  Narrow
    /// dependencies are walked through and give no stage of their own.
    pub fn get_parent_stages(&mut self, ctx: &Context, rdd: usize) -> (v: Vec<usize>)
        requires
            ctx.wf(),
            rdd < ctx.rdds@.len(),
            old(self).consistent(ctx),
            old(self).pending_above(ctx, rdd as int),
        ensures
            final(self).consistent(ctx),
            final(self).extends(old(self)),
            strictly_increasing(v@),
            v@.to_set() == final(self).parent_stages(ctx, rdd),
            final(self).boundary_built(ctx, rdd),
            final(self).built_for(old(self), ctx, rdd, None, None),
            forall|x: usize|
                ctx.reaches(Set::empty(), rdd, x) ==> has_entry(
                    final(self).cache_tracker.table(),
                    x,
                ),
            final(self).counted(old(self), 0),
        decreases rdd, 2nat,
    {
        let mut parents = IdSet::new();
        let mut visited = IdSet::new();
        self.visit_for_parent_stages(ctx, &mut parents, &mut visited, rdd);
        proof {
            self.lemma_walk_collects(ctx, visited@, parents@, rdd);
            assert forall|x: usize| ctx.reaches(Set::empty(), rdd, x) implies has_entry(
                self.cache_tracker.table(),
                x,
            ) by {
                self.lemma_walk_complete(ctx, visited@, parents@, rdd, x);
            }
            assert forall|id: usize| parents@.contains(id) implies self.parent_stages(
                ctx,
                rdd,
            ).contains(id) by {
                assert(!Set::<usize>::empty().contains(id));
            }
            assert(parents@ =~= self.parent_stages(ctx, rdd));
        }
        parents.to_vec()
    }

    /// One step of the walk that collects parent stages: visits `rdd` unless it
    /// has been visited, takes the stage of each of its shuffle dependencies, and
    /// walks on through its narrow dependencies.
    fn visit_for_parent_stages(
        &mut self,
        ctx: &Context,
        parents: &mut IdSet,
        visited: &mut IdSet,
        rdd: usize,
    )
        requires
            ctx.wf(),
            rdd < ctx.rdds@.len(),
            old(self).consistent(ctx),
            old(self).pending_above(ctx, rdd as int),
            old(parents).wf(),
            old(visited).wf(),
            old(self).walk_inv(ctx, old(visited)@, old(parents)@, rdd + 1),
        ensures
            final(self).consistent(ctx),
            final(self).extends(old(self)),
            final(parents).wf(),
            final(visited).wf(),
            old(visited)@.subset_of(final(visited)@),
            old(parents)@.subset_of(final(parents)@),
            final(visited)@.contains(rdd),
            final(self).walk_inv(ctx, final(visited)@, final(parents)@, rdd + 1),
            forall|x: usize| final(visited)@.contains(x) && !old(visited)@.contains(x) ==> x <= rdd,
            forall|id: usize|
                final(parents)@.contains(id) && !old(parents)@.contains(id) ==> final(self).is_parent_of(ctx, rdd, id),
            final(self).built_for(old(self), ctx, rdd, None, None),
            final(self).counted(old(self), 0),
            old(visited)@.contains(rdd) ==> final(visited)@ == old(visited)@ && final(parents)@
                == old(parents)@ && *final(self) == *old(self),
            forall|x: usize|
                final(visited)@.contains(x) && !old(visited)@.contains(x) ==> ctx.reaches(
                    Set::empty(),
                    rdd,
                    x,
                ),
            final(visited)@ == old(visited)@ + Set::new(
                |x: usize| ctx.reaches(Set::empty(), rdd, x),
            ),
            final(parents)@ == old(parents)@ + final(self).parent_stages(ctx, rdd),
        decreases rdd, 1nat,
    {
        let ghost s0 = *self;
        let ghost visited_first = visited@;
        let ghost parents_first = parents@;
        if visited.contains(rdd) {
            proof {
                self.lemma_consistent_frame(&s0, ctx);
                self.lemma_walk_exact(ctx, visited@, parents@, visited@, parents@, rdd);
            }
            return ;
        }
        visited.insert(rdd);
        self.cache_tracker.register_rdd(rdd, ctx.number_of_splits(rdd));
        proof {
            self.lemma_consistent_frame(&s0, ctx);
            self.lemma_pending_kept(&s0, ctx, rdd as int);
            assert forall|x: usize| #[trigger] visited@.contains(x) && x < rdd implies self.node_done(
                ctx,
                x,
                visited@,
                parents@,
            ) by {
                assert(visited_first.contains(x));
                self.lemma_node_done_grows(&s0, ctx, x, visited_first, parents_first, visited@, parents@);
            }
        }
        let deps = ctx.get_dependencies(rdd);
        let mut k: usize = 0;
        while k < deps.len()
            invariant
                ctx.wf(),
                rdd < ctx.rdds@.len(),
                deps@ == ctx.deps(rdd),
                k <= deps@.len(),
                self.consistent(ctx),
                self.extends(&s0),
                self.pending_above(ctx, rdd as int),
                parents.wf(),
                visited.wf(),
                visited_first.subset_of(visited@),
                parents_first.subset_of(parents@),
                visited@.contains(rdd),
                self.walk_inv(ctx, visited@, parents@, rdd as int),
                forall|j: int| 0 <= j < k ==> self.dep_done(#[trigger] deps@[j], visited@, parents@),
                forall|x: usize| visited@.contains(x) && !visited_first.contains(x) ==> x <= rdd,
                forall|id: usize|
                    parents@.contains(id) && !parents_first.contains(id) ==> self.is_parent_of(ctx, rdd, id),
                self.built_for(&s0, ctx, rdd, None, None),
                self.counted(&s0, 0),
                forall|x: usize|
                    visited@.contains(x) && !visited_first.contains(x) ==> ctx.reaches(
                        Set::empty(),
                        rdd,
                        x,
                    ),
            decreases deps@.len() - k,
        {
            let ghost s1 = *self;
            let ghost visited_then = visited@;
            let ghost parents_then = parents@;
            proof {
                assert(ctx.rdd_ok(rdd as int));
                assert(ctx.dep_ok(
                    rdd as int,
                    ctx.rdds@[rdd as int].num_splits,
                    ctx.rdds@[rdd as int].dependencies@[k as int],
                ));
            }
            match deps[k] {
                Dependency::ShuffleDependency(shuf) => {
                    proof {
                        assert forall|s: usize|
                            #[trigger] self.shuffle_registered(s) && !self.has_stage(
                                self.stage_of(s),
                            ) implies ctx.shuffles@[s as int].rdd >= shuf.rdd + 1 by {}
                    }
                    let id = self.get_shuffle_map_stage(ctx, shuf);
                    parents.insert(id);
                    proof {
                        self.lemma_extends_trans(&s1, &s0);
                        self.lemma_pending_kept(&s1, ctx, rdd as int);
                        assert forall|x: usize| #[trigger]
                            visited@.contains(x) && x < rdd implies self.node_done(
                            ctx,
                            x,
                            visited@,
                            parents@,
                        ) by {
                            self.lemma_node_done_grows(&s1, ctx, x, visited_then, parents_then, visited@, parents@);
                        }
                        assert forall|j: int| 0 <= j < k + 1 implies self.dep_done(
                            #[trigger] deps@[j],
                            visited@,
                            parents@,
                        ) by {
                            if j < k {
                                self.lemma_dep_done_grows(
                                    &s1,
                                    deps@[j],
                                    visited_then,
                                    parents_then,
                                    visited@,
                                    parents@,
                                );
                            }
                        }
                        lemma_boundary_here(ctx, Set::empty(), rdd, k as int, shuf);
                        assert forall|x: usize|
                            parents@.contains(x) && !parents_first.contains(x) implies self.is_parent_of(
                            ctx,
                            rdd,
                            x,
                        ) by {
                            if x == id {
                                assert(ctx.at_boundary(Set::empty(), rdd, shuf)
                                    && self.shuffle_registered(shuf.shuffle_id) && self.stage_of(
                                    shuf.shuffle_id,
                                ) == x);
                            } else {
                                assert(parents_then.contains(x));
                                self.lemma_parent_grows(&s1, ctx, rdd, x);
                            }
                        }
                        assert forall|s: usize| #[trigger]
                            self.shuffle_registered(s) && !s0.shuffle_registered(
                                s,
                            ) implies ctx.feeds(rdd, ctx.shuffles@[s as int]) by {
                            if !s1.shuffle_registered(s) {
                                if Some(shuf) == Some(ctx.shuffles@[s as int]) {
                                } else {
                                    assert(ctx.feeds(shuf.rdd, ctx.shuffles@[s as int]));
                                    assert(ctx.at_boundary(Set::empty(), rdd, shuf) && shuf.rdd
                                        < rdd && ctx.feeds(shuf.rdd, ctx.shuffles@[s as int]));
                                }
                            }
                        }
                        self.lemma_new_stages_step(&s1, &s0);
                    }
                },
                Dependency::NarrowDependency(n) => {
                    proof {
                        assert forall|s: usize|
                            #[trigger] self.shuffle_registered(s) && !self.has_stage(
                                self.stage_of(s),
                            ) implies ctx.shuffles@[s as int].rdd >= n.rdd by {}
                        assert forall|x: usize| #[trigger]
                            visited@.contains(x) && x < n.rdd + 1 implies self.node_done(
                            ctx,
                            x,
                            visited@,
                            parents@,
                        ) by {}
                    }
                    self.visit_for_parent_stages(ctx, parents, visited, n.rdd);
                    proof {
                        assert forall|x: usize|
                            visited@.contains(x) && !visited_first.contains(x) implies ctx.reaches(
                            Set::empty(),
                            rdd,
                            x,
                        ) by {
                            if !visited_then.contains(x) {
                                lemma_reaches_step(ctx, Set::empty(), rdd, k as int, x);
                            }
                        }
                        self.lemma_extends_trans(&s1, &s0);
                        self.lemma_pending_kept(&s1, ctx, rdd as int);
                        self.lemma_walk_inv_grows(
                            &s1,
                            ctx,
                            visited_then,
                            parents_then,
                            visited@,
                            parents@,
                            n.rdd + 1,
                            rdd as int,
                        );
                        assert forall|j: int| 0 <= j < k + 1 implies self.dep_done(
                            #[trigger] deps@[j],
                            visited@,
                            parents@,
                        ) by {
                            if j < k {
                                self.lemma_dep_done_grows(
                                    &s1,
                                    deps@[j],
                                    visited_then,
                                    parents_then,
                                    visited@,
                                    parents@,
                                );
                            }
                        }
                        assert forall|x: usize|
                            parents@.contains(x) && !parents_first.contains(x) implies self.is_parent_of(
                            ctx,
                            rdd,
                            x,
                        ) by {
                            if parents_then.contains(x) {
                                self.lemma_parent_grows(&s1, ctx, rdd, x);
                            } else {
                                self.lemma_parent_step(ctx, rdd, k as int, x);
                            }
                        }
                        assert forall|s: usize| #[trigger]
                            self.shuffle_registered(s) && !s0.shuffle_registered(
                                s,
                            ) implies ctx.feeds(rdd, ctx.shuffles@[s as int]) by {
                            if !s1.shuffle_registered(s) {
                                lemma_feeds_step(ctx, rdd, k as int, ctx.shuffles@[s as int]);
                            }
                        }
                        self.lemma_new_stages_step(&s1, &s0);
                    }
                },
            }
            k = k + 1;
        }
        proof {
            assert(self.node_done(ctx, rdd, visited@, parents@));
            self.lemma_walk_exact(ctx, visited_first, parents_first, visited@, parents@, rdd);
        }
    }
}

} // verus!
