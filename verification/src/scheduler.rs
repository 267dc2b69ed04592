//! The DAG scheduler: builds stages from a lineage graph, submits runnable
//! stages as tasks, and advances stage state on completion and failure events.

use crate::cache_tracker::{entry, has_entry, CacheLocs, CacheTracker};
use crate::context::Context;
use crate::dependency::ShuffleDependency;
use crate::error::SchedulerError;
use crate::ids::strictly_increasing;
use crate::map_output_tracker::MapOutputTracker;
use crate::stage::Stage;
use crate::task::TaskContext;
use std::collections::HashMap;
use vstd::prelude::*;

verus! {

/// A finite set of ids that are all below `n` has at most `n` elements.
pub proof fn lemma_bounded_set_len(s: Set<usize>, n: usize)
    requires
        s.finite(),
        forall|x: usize| s.contains(x) ==> x < n,
    ensures
        s.len() <= n,
    decreases n,
{
    if n == 0 {
        assert(s =~= Set::<usize>::empty());
    } else {
        let last = (n - 1) as usize;
        let rest = s.remove(last);
        lemma_bounded_set_len(rest, last);
        if s.contains(last) {
            assert(s =~= rest.insert(last));
        } else {
            assert(s =~= rest);
        }
    }
}

/// The values `v` are the results of a job that computes the partitions
/// `partitions` in stage `stage_id`: one for each partition, in their order,
/// each what `func` makes of the first attempt at its partition.
pub open spec fn job_results<U, F: Fn(TaskContext) -> U>(
    func: F,
    stage_id: usize,
    partitions: Seq<usize>,
    v: Seq<U>,
) -> bool {
    &&& v.len() == partitions.len()
    &&& forall|i: int|
        0 <= i < v.len() ==> func.ensures(
            (TaskContext { stage_id, split_id: partitions[i], attempt_id: 0 },),
            #[trigger] v[i],
        )
}

/// What a scheduler offers to the code that runs jobs on it.
pub trait Scheduler {
    /// The scheduler is in order and fits the lineage graph `ctx`.
    spec fn wf(&self, ctx: &Context) -> bool;

    /// The id that the final stage of the next job will get.
    spec fn next_final_stage(&self) -> usize;

    /// Starts the scheduler.
    fn start(&self);

    /// Waits until the executors have registered.
    fn wait_for_register(&self);

    /// Runs a job: computes the partitions `partitions` of dataset `rdd` of the
    /// lineage graph `ctx`, applies `func` to each, and returns the results in
    /// the order of `partitions`.  With `allow_local`, a job of one partition
    /// without parent stages may be computed in the caller's own process.
    fn run_job<U, F>(
        &mut self,
        ctx: &Context,
        rdd: usize,
        func: F,
        partitions: Vec<usize>,
        allow_local: bool,
    ) -> (r: Result<Vec<U>, SchedulerError>) where Self: Sized, F: Fn(TaskContext) -> U
        requires
            old(self).wf(ctx),
            forall|c: TaskContext| func.requires((c,)),
        ensures
            final(self).wf(ctx),
            r matches Ok(v) ==> job_results(func, old(self).next_final_stage(), partitions@, v@),
    ;

    /// Stops the scheduler.
    fn stop(&self);

    /// The number of partitions to use where none is asked for.
    fn default_parallelism(&self) -> i64;
}

/// Calls `num_cpus::get`, which counts the processors available to this
/// process.  The count depends on the machine; all that is claimed of it is
/// what the crate's documentation promises, that it is at least one.
#[verifier::external_body]
fn available_cpus() -> (n: usize)
    ensures
        n >= 1,
{
    num_cpus::get()
}

/// The scheduler's own state: the stage cache, the cache from shuffle ids to the
/// stages that produce them, the trackers, and the id counters.
#[derive(Debug)]
pub struct DagScheduler {
    pub next_job_id: usize,
    pub next_stage_id: usize,
    pub next_task_id: usize,
    /// Every stage built so far, by id.
    pub stage_cache: HashMap<usize, Stage>,
    /// For each shuffle that has a stage, the id of that stage.
    pub shuffle_to_map_stage: HashMap<usize, usize>,
    /// The last snapshot taken of the cache-location table.
    pub cache_locs: CacheLocs,
    pub cache_tracker: CacheTracker,
    pub map_output_tracker: MapOutputTracker,
}

impl DagScheduler {
    /// Whether a stage with this id has been built.
    pub open spec fn has_stage(&self, id: usize) -> bool {
        self.stage_cache@.contains_key(id)
    }

    /// The stage with this id.
    pub open spec fn stage(&self, id: usize) -> Stage {
        self.stage_cache@[id]
    }

    /// Whether shuffle `shuffle_id` has been given a stage.
    pub open spec fn shuffle_registered(&self, shuffle_id: usize) -> bool {
        self.shuffle_to_map_stage@.contains_key(shuffle_id)
    }

    /// The id of the stage that produces shuffle `shuffle_id`.
    pub open spec fn stage_of(&self, shuffle_id: usize) -> usize {
        self.shuffle_to_map_stage@[shuffle_id]
    }

    /// Stage `id` produces a shuffle that bounds the narrow region of `rdd`.
    pub open spec fn is_parent_of(&self, ctx: &Context, rdd: usize, id: usize) -> bool {
        exists|s: ShuffleDependency|
            #[trigger] ctx.at_boundary(Set::empty(), rdd, s) && self.shuffle_registered(
                s.shuffle_id,
            ) && self.stage_of(s.shuffle_id) == id
    }

    /// The stages at the nearest shuffle boundaries of `rdd`.
    pub open spec fn parent_stages(&self, ctx: &Context, rdd: usize) -> Set<usize> {
        Set::new(|id: usize| self.is_parent_of(ctx, rdd, id))
    }

    /// Every shuffle that bounds the narrow region of `rdd` has a stage, and that
    /// stage is built.
    pub open spec fn boundary_built(&self, ctx: &Context, rdd: usize) -> bool {
        forall|s: ShuffleDependency| #[trigger]
            ctx.at_boundary(Set::empty(), rdd, s) ==> self.shuffle_registered(s.shuffle_id)
                && self.has_stage(self.stage_of(s.shuffle_id))
    }

    /// Stage `id` is consistent with the lineage graph and with the caches.
    pub open spec fn stage_ok(&self, ctx: &Context, id: usize) -> bool {
        let st = self.stage(id);
        &&& id < self.next_stage_id
        &&& st.id == id
        &&& st.wf()
        &&& st.rdd < ctx.rdds@.len()
        &&& st.num_partitions == ctx.rdds@[st.rdd as int].num_splits
        &&& st.shuffle_dependency matches Some(d) ==> {
            &&& d.rdd == st.rdd
            &&& d.shuffle_id < ctx.shuffles@.len()
            &&& ctx.shuffles@[d.shuffle_id as int] == d
            &&& self.shuffle_registered(d.shuffle_id)
            &&& self.stage_of(d.shuffle_id) == id
        }
        &&& strictly_increasing(st.parents@)
        &&& st.parents@.to_set() == self.parent_stages(ctx, st.rdd)
        &&& self.boundary_built(ctx, st.rdd)
    }

    /// The entry of shuffle `s` in the shuffle cache is consistent.
    pub open spec fn shuffle_ok(&self, ctx: &Context, s: usize) -> bool {
        let id = self.stage_of(s);
        &&& s < ctx.shuffles@.len()
        &&& id < self.next_stage_id
        &&& self.has_stage(id) ==> self.stage(id).shuffle_dependency == Some(
            ctx.shuffles@[s as int],
        ) && self.map_output_tracker.registered(s)
    }

    /// Every slot list of the map-output tracker belongs to a shuffle of the graph
    /// and has one slot per map partition.
    pub open spec fn tracker_ok(&self, ctx: &Context) -> bool {
        forall|s: usize| #[trigger]
            self.map_output_tracker.registered(s) ==> s < ctx.shuffles@.len()
                && self.map_output_tracker.slots(s).len() == ctx.rdds@[ctx.shuffles@[s as int].rdd as int].num_splits
    }

    /// The invariant that holds also while stages are being built.
    pub open spec fn consistent(&self, ctx: &Context) -> bool {
        &&& forall|id: usize| #[trigger] self.has_stage(id) ==> self.stage_ok(ctx, id)
        &&& forall|s: usize| #[trigger] self.shuffle_registered(s) ==> self.shuffle_ok(ctx, s)
        &&& self.tracker_ok(ctx)
        &&& self.next_stage_id + ctx.shuffles@.len() - self.shuffle_to_map_stage@.len()
            <= usize::MAX
    }

    /// A shuffle whose stage is still being built has its map side at node
    /// `bound` or above.
    pub open spec fn pending_above(&self, ctx: &Context, bound: int) -> bool {
        forall|s: usize|
            #[trigger] self.shuffle_registered(s) && !self.has_stage(self.stage_of(s))
                ==> ctx.shuffles@[s as int].rdd >= bound
    }

    /// The map-output tracker is still in order when every shuffle that it
    /// holds was held before, with as many slots.
    pub proof fn lemma_tracker_kept(&self, before: &Self, ctx: &Context)
        requires
            before.tracker_ok(ctx),
            forall|s: usize| #[trigger]
                self.map_output_tracker.registered(s) ==> before.map_output_tracker.registered(s)
                    && self.map_output_tracker.slots(s).len() == before.map_output_tracker.slots(
                    s,
                ).len(),
        ensures
            self.tracker_ok(ctx),
    {
    }

    /// The scheduler is consistent with the lineage graph `ctx`, and no stage is
    /// half built.
    pub open spec fn wf(&self, ctx: &Context) -> bool {
        &&& ctx.wf()
        &&& self.consistent(ctx)
        &&& forall|s: usize| #[trigger]
            self.shuffle_registered(s) ==> self.has_stage(self.stage_of(s))
    }

    /// The stages and the shuffle entries of `before` are still there, unchanged.
    pub open spec fn keeps(&self, before: &Self) -> bool {
        &&& before.next_stage_id <= self.next_stage_id
        &&& forall|id: usize| #[trigger]
            before.has_stage(id) ==> self.has_stage(id) && self.stage(id) == before.stage(id)
        &&& forall|s: usize| #[trigger]
            before.shuffle_registered(s) ==> self.shuffle_registered(s) && self.stage_of(s)
                == before.stage_of(s)
    }

    /// The scheduler has only grown since `before`: the stages and shuffle
    /// entries of `before` are there unchanged, new stages have new ids, and the
    /// trackers have kept what they held.
    pub open spec fn grows(&self, before: &Self) -> bool {
        &&& self.keeps(before)
        &&& self.next_job_id == before.next_job_id
        &&& self.next_task_id == before.next_task_id
        &&& self.cache_locs == before.cache_locs
        &&& forall|id: usize| #[trigger]
            self.has_stage(id) && !before.has_stage(id) ==> id >= before.next_stage_id
        &&& forall|s: usize| #[trigger]
            before.map_output_tracker.registered(s) ==> self.map_output_tracker.registered(s)
                && self.map_output_tracker.server_uris@[s]
                == before.map_output_tracker.server_uris@[s]
        &&& forall|k: usize| #[trigger]
            has_entry(before.cache_tracker.table(), k) ==> has_entry(self.cache_tracker.table(), k)
                && entry(self.cache_tracker.table(), k) == entry(before.cache_tracker.table(), k)
    }

    /// The scheduler has grown since `before`, and every shuffle that was given a
    /// stage since then has that stage built, under a new id.
    pub open spec fn extends(&self, before: &Self) -> bool {
        &&& self.grows(before)
        &&& forall|s: usize| #[trigger]
            self.shuffle_registered(s) && !before.shuffle_registered(s) ==> self.has_stage(
                self.stage_of(s),
            ) && self.stage_of(s) >= before.next_stage_id
    }

    /// The stage ids handed out since `before` are accounted for: one for each
    /// stage newly in the stage cache, which is one for each shuffle that has
    /// newly got a stage and `result_stages` more.
    pub open spec fn counted(&self, before: &Self, result_stages: int) -> bool {
        &&& self.next_stage_id == before.next_stage_id + self.stage_cache@.len()
            - before.stage_cache@.len()
        &&& self.next_stage_id == before.next_stage_id + self.shuffle_to_map_stage@.len()
            - before.shuffle_to_map_stage@.len() + result_stages
    }

    /// Whatever was added since `before` serves the stage of dataset `rdd`: every
    /// shuffle that has got a stage is `own` or lies upstream of `rdd`, and
    /// every new stage is `result_stage` or produces a shuffle that had no stage
    /// before, and has no output location yet.  The map-output tracker has
    /// gained the shuffles that have got a stage, each with empty slots, and the
    /// cache tracker has gained datasets of the graph, each without cached
    /// partitions.
    pub open spec fn built_for(
        &self,
        before: &Self,
        ctx: &Context,
        rdd: usize,
        own: Option<ShuffleDependency>,
        result_stage: Option<usize>,
    ) -> bool {
        &&& forall|s: usize| #[trigger]
            self.shuffle_registered(s) && !before.shuffle_registered(s) ==> own == Some(
                ctx.shuffles@[s as int],
            ) || ctx.feeds(rdd, ctx.shuffles@[s as int])
        &&& forall|x: usize| #[trigger]
            self.has_stage(x) && !before.has_stage(x) ==> result_stage == Some(x) || (self.stage(
                x,
            ).shuffle_dependency matches Some(d) && !before.shuffle_registered(d.shuffle_id))
        &&& forall|x: usize| #[trigger] self.has_stage(x) && !before.has_stage(x) ==> self.stage(
            x,
        ).no_output()
        &&& forall|s: usize| #[trigger]
            self.map_output_tracker.registered(s) && !before.map_output_tracker.registered(s) ==> {
                &&& self.shuffle_registered(s)
                &&& !before.shuffle_registered(s)
                &&& forall|i: int|
                    0 <= i < self.map_output_tracker.slots(s).len()
                        ==> (#[trigger] self.map_output_tracker.slots(s)[i]) is None
            }
        &&& forall|k: usize| #[trigger]
            has_entry(self.cache_tracker.table(), k) && !has_entry(before.cache_tracker.table(), k)
                ==> self.fresh_entry(ctx, k)
    }

    /// The cache tracker holds dataset `k` of the graph, with one list per
    /// partition and no cached location.
    pub open spec fn fresh_entry(&self, ctx: &Context, k: usize) -> bool {
        let e = entry(self.cache_tracker.table(), k);
        &&& k < ctx.rdds@.len()
        &&& e.len() == ctx.rdds@[k as int].num_splits
        &&& forall|p: int| 0 <= p < e.len() ==> (#[trigger] e[p]).len() == 0
    }

    /// A scheduler without stages.
    pub fn new() -> (s: Self)
        ensures
            s.next_job_id == 0,
            s.next_stage_id == 0,
            s.next_task_id == 0,
            s.stage_cache@ == Map::<usize, Stage>::empty(),
            s.shuffle_to_map_stage@ == Map::<usize, usize>::empty(),
            forall|k: usize| !s.map_output_tracker.registered(k),
            s.cache_locs@.len() == 0,
            s.cache_tracker.table().len() == 0,
            forall|ctx: &Context| ctx.wf() ==> #[trigger] s.wf(ctx),
    {
        let s = DagScheduler {
            next_job_id: 0,
            next_stage_id: 0,
            next_task_id: 0,
            stage_cache: HashMap::new(),
            shuffle_to_map_stage: HashMap::new(),
            cache_locs: Vec::new(),
            cache_tracker: CacheTracker::new(),
            map_output_tracker: MapOutputTracker::new(),
        };
        proof {
            assert forall|ctx: &Context| ctx.wf() implies #[trigger] s.wf(ctx) by {
                assert(ctx.shuffles.len() == ctx.shuffles@.len());
                assert(s.shuffle_to_map_stage@.len() == 0);
            }
        }
        s
    }

    /// Hands out the next job id.  The counter wraps around at the largest `usize`.
    pub fn get_next_job_id(&mut self) -> (id: usize)
        ensures
            id == old(self).next_job_id,
            *final(self) == (DagScheduler {
                next_job_id: if id == usize::MAX { 0 } else { (id + 1) as usize },
                ..*old(self)
            }),
    {
        let id = self.next_job_id;
        self.next_job_id = if id == usize::MAX { 0 } else { id + 1 };
        id
    }

    /// Hands out the next task id.  The counter wraps around at the largest `usize`.
    pub fn get_next_task_id(&mut self) -> (id: usize)
        ensures
            id == old(self).next_task_id,
            *final(self) == (DagScheduler {
                next_task_id: if id == usize::MAX { 0 } else { (id + 1) as usize },
                ..*old(self)
            }),
    {
        let id = self.next_task_id;
        self.next_task_id = if id == usize::MAX { 0 } else { id + 1 };
        id
    }

    /// The stage with id `id`.
    pub fn fetch_from_stage_cache(&self, id: usize) -> (stage: &Stage)
        requires
            self.has_stage(id),
        ensures
            *stage == self.stage(id),
    {
        match self.stage_cache.get(&id) {
            Some(stage) => stage,
            None => vstd::pervasive::unreached(),
        }
    }

    /// The id of the stage that produces shuffle `shuffle_id`.
    pub fn fetch_from_shuffle_to_cache(&self, shuffle_id: usize) -> (id: usize)
        requires
            self.shuffle_registered(shuffle_id),
        ensures
            id == self.stage_of(shuffle_id),
    {
        match self.shuffle_to_map_stage.get(&shuffle_id) {
            Some(id) => *id,
            None => vstd::pervasive::unreached(),
        }
    }

    /// The snapshot's entry for dataset `rdd`, if it has one.
    pub fn get_cache_locs(&self, rdd: usize) -> (locs: Option<&Vec<Vec<u32>>>)
        ensures
            locs is Some <==> has_entry(self.cache_locs.deep_view(), rdd),
            locs matches Some(v) ==> v.deep_view() == entry(self.cache_locs.deep_view(), rdd),
    {
        if rdd < self.cache_locs.len() {
            assert(self.cache_locs.deep_view()[rdd as int] == self.cache_locs@[rdd as int].deep_view());
            match &self.cache_locs[rdd] {
                Some(v) => Some(v),
                None => None,
            }
        } else {
            None
        }
    }

    /// The number of worker threads to use: the number of processors that the
    /// machine offers, which is at least one.
    pub fn num_threads() -> (n: usize)
        ensures
            n >= 1,
    {
        available_cpus()
    }

    /// There is a stage id left for the final stage of one more job, besides
    /// those for the shuffles that have no stage yet.
    pub open spec fn room_for_job(&self, ctx: &Context) -> bool {
        self.next_stage_id + ctx.shuffles@.len() - self.shuffle_to_map_stage@.len() < usize::MAX
    }

    /// The job that asks for the partitions `partitions` of dataset `rdd` can
    /// be run: the dataset and the partitions exist, every pinned dataset names
    /// one location for each partition, and there are stage ids left for the
    /// stages that the job needs.
    pub open spec fn admits_job(&self, ctx: &Context, rdd: usize, partitions: Seq<usize>) -> bool {
        &&& rdd < ctx.rdds@.len()
        &&& ctx.has_partitions(rdd, partitions)
        &&& ctx.pins_valid()
        &&& self.room_for_job(ctx)
    }

    /// Whether there is a stage id left for the final stage of one more job.
    pub fn has_room_for_job(&self, ctx: &Context) -> (b: bool)
        ensures
            b == self.room_for_job(ctx),
    {
        broadcast use vstd::std_specs::hash::group_hash_axioms;

        let used = self.shuffle_to_map_stage.len();
        let total = ctx.shuffles.len();
        if used >= total {
            self.next_stage_id < usize::MAX || used > total
        } else {
            total - used < usize::MAX - self.next_stage_id
        }
    }

    /// Replaces the snapshot of cache locations by the tracker's current table.
    pub fn update_cache_locs(&mut self)
        ensures
            final(self).cache_locs.deep_view() == old(self).cache_tracker.table(),
            *final(self) == (DagScheduler { cache_locs: final(self).cache_locs, ..*old(self) }),
    {
        self.cache_locs = self.cache_tracker.get_location_snapshot();
    }
}

} // verus!
