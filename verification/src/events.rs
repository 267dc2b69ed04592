//! Completion and failure events: how one event changes the state of the
//! scheduler and of a job, and which tasks it sets free.

use crate::cache_tracker::has_entry;
use crate::context::Context;
use crate::dependency::ShuffleDependency;
use crate::ids::{ascending, lemma_ascending_of, strictly_increasing};
use crate::job::{JobTracker, JobView};
use crate::scheduler::DagScheduler;
use crate::stage::{without_host, Stage};
use crate::submit::{task_views, SubmitEffect};
use crate::task::{CompletionEvent, FetchFailedVals, TaskError, TaskEvent, TaskOption, TaskView};
use vstd::prelude::*;

verus! {

/// The first output location of each partition, if it has one.
pub open spec fn first_locs(locs: Seq<Seq<Seq<char>>>) -> Seq<Option<Seq<char>>> {
    Seq::new(
        locs.len(),
        |p: int|
            if locs[p].len() > 0 {
                Some(locs[p][0])
            } else {
                None
            },
    )
}

/// Stage `after` is stage `before` with other output locations.
pub open spec fn same_shape(before: Stage, after: Stage) -> bool {
    &&& after.id == before.id
    &&& after.num_partitions == before.num_partitions
    &&& after.shuffle_dependency == before.shuffle_dependency
    &&& after.rdd == before.rdd
    &&& after.parents == before.parents
    &&& after.locs().len() == before.locs().len()
}

impl DagScheduler {
    /// The scheduler `self` is `before` with other output locations in stage
    /// `stage_id`, and maybe with another snapshot of cache locations and other
    /// map outputs; the stages, their ids and the shuffle cache are the same.
    pub open spec fn reshaped(&self, before: &Self, stage_id: usize) -> bool {
        &&& self.next_job_id == before.next_job_id
        &&& self.next_stage_id == before.next_stage_id
        &&& self.shuffle_to_map_stage@ == before.shuffle_to_map_stage@
        &&& self.cache_tracker == before.cache_tracker
        &&& self.stage_cache@.dom() == before.stage_cache@.dom()
        &&& forall|id: usize| #[trigger]
            self.has_stage(id) && id != stage_id ==> self.stage(id) == before.stage(id)
        &&& before.has_stage(stage_id) ==> same_shape(before.stage(stage_id), self.stage(stage_id))
    }

    /// Consistency survives a change of output locations.
    pub proof fn lemma_reshaped_consistent(&self, before: &Self, ctx: &Context, stage_id: usize)
        requires
            before.wf(ctx),
            self.reshaped(before, stage_id),
            self.tracker_ok(ctx),
            forall|s: usize| #[trigger]
                before.map_output_tracker.registered(s) ==> self.map_output_tracker.registered(s),
        ensures
            self.wf(ctx),
    {
        assert forall|id: usize| #[trigger] self.has_stage(id) implies self.stage_ok(ctx, id) by {
            assert(self.stage_cache@.dom().contains(id));
            assert(before.stage_cache@.dom().contains(id));
            assert(before.has_stage(id));
            assert(before.stage_ok(ctx, id));
            let st = self.stage(id);
            let rdd = st.rdd;
            assert(rdd == before.stage(id).rdd);
            assert forall|x: usize| self.parent_stages(ctx, rdd).contains(x)
                <==> before.parent_stages(ctx, rdd).contains(x) by {
                if before.is_parent_of(ctx, rdd, x) {
                    let s = choose|s: ShuffleDependency|
                        #[trigger] ctx.at_boundary(Set::empty(), rdd, s)
                            && before.shuffle_registered(s.shuffle_id) && before.stage_of(
                            s.shuffle_id,
                        ) == x;
                    assert(ctx.at_boundary(Set::empty(), rdd, s) && self.shuffle_registered(
                        s.shuffle_id,
                    ) && self.stage_of(s.shuffle_id) == x);
                }
                if self.is_parent_of(ctx, rdd, x) {
                    let s = choose|s: ShuffleDependency|
                        #[trigger] ctx.at_boundary(Set::empty(), rdd, s) && self.shuffle_registered(
                            s.shuffle_id,
                        ) && self.stage_of(s.shuffle_id) == x;
                    assert(ctx.at_boundary(Set::empty(), rdd, s) && before.shuffle_registered(
                        s.shuffle_id,
                    ) && before.stage_of(s.shuffle_id) == x);
                }
            }
            assert(self.parent_stages(ctx, rdd) =~= before.parent_stages(ctx, rdd));
            assert forall|s: ShuffleDependency| #[trigger]
                ctx.at_boundary(Set::empty(), rdd, s) implies self.shuffle_registered(s.shuffle_id)
                && self.has_stage(self.stage_of(s.shuffle_id)) by {
                assert(before.shuffle_registered(s.shuffle_id));
                assert(before.has_stage(before.stage_of(s.shuffle_id)));
            }
            if st.shuffle_dependency is Some {
                let d = st.shuffle_dependency->0;
                assert(before.shuffle_registered(d.shuffle_id));
            }
        }
        assert forall|s: usize| #[trigger] self.shuffle_registered(s) implies self.shuffle_ok(
            ctx,
            s,
        ) && self.has_stage(self.stage_of(s)) by {
            assert(before.shuffle_registered(s));
            assert(before.shuffle_ok(ctx, s));
            assert(before.has_stage(before.stage_of(s)));
        }
    }

    /// A job that fits the scheduler still fits after a change of output
    /// locations.
    pub proof fn lemma_reshaped_job_ok(&self, before: &Self, ctx: &Context, stage_id: usize, jt: JobView)
        requires
            self.reshaped(before, stage_id),
            before.job_ok(ctx, jt),
        ensures
            self.job_ok(ctx, jt),
    {
        assert(before.has_stage(jt.final_stage));
        assert(before.stage_cache@.dom().contains(jt.final_stage));
        assert(self.stage_cache@.dom().contains(jt.final_stage));
        assert(self.has_stage(jt.final_stage));
        assert(self.stage(jt.final_stage).rdd == before.stage(jt.final_stage).rdd);
        assert forall|s: usize| #[trigger] jt.waiting.contains(s) implies self.submittable(jt, s) by {
            assert(before.submittable(jt, s));
            assert(before.stage_cache@.dom().contains(s));
            assert(self.stage_cache@.dom().contains(s));
            assert(self.has_stage(s));
        }
        assert forall|s: usize| #[trigger] jt.failed.contains(s) implies self.submittable(jt, s) by {
            assert(before.submittable(jt, s));
            assert(before.stage_cache@.dom().contains(s));
            assert(self.stage_cache@.dom().contains(s));
            assert(self.has_stage(s));
        }
    }

    /// Records `host` as a location of the output of partition `partition` of
    /// stage `stage_id`.
    pub fn add_output_loc_to_stage(&mut self, stage_id: usize, partition: usize, host: String)
        requires
            old(self).has_stage(stage_id),
            partition < old(self).stage(stage_id).locs().len(),
        ensures
            final(self).reshaped(old(self), stage_id),
            final(self).next_task_id == old(self).next_task_id,
            final(self).cache_locs == old(self).cache_locs,
            final(self).map_output_tracker == old(self).map_output_tracker,
            final(self).stage(stage_id).locs() == old(self).stage(stage_id).locs().update(
                partition as int,
                old(self).stage(stage_id).locs()[partition as int].push(host@),
            ),
    {
        broadcast use vstd::std_specs::hash::group_hash_axioms;

        match self.stage_cache.remove(&stage_id) {
            Some(mut stage) => {
                stage.add_output_loc(partition, host);
                self.stage_cache.insert(stage_id, stage);
                assert(self.stage_cache@.dom() =~= old(self).stage_cache@.dom());
            },
            None => {},
        }
    }

    /// Forgets `server_uri` as a location of the output of partition `map_id` of
    /// the stage that produces shuffle `shuffle_id`.
    pub fn remove_output_loc_from_stage(&mut self, shuffle_id: usize, map_id: usize, server_uri: &String)
        requires
            old(self).shuffle_registered(shuffle_id),
            old(self).has_stage(old(self).stage_of(shuffle_id)),
            map_id < old(self).stage(old(self).stage_of(shuffle_id)).locs().len(),
        ensures
            final(self).reshaped(old(self), old(self).stage_of(shuffle_id)),
            final(self).next_task_id == old(self).next_task_id,
            final(self).cache_locs == old(self).cache_locs,
            final(self).map_output_tracker == old(self).map_output_tracker,
            final(self).stage(old(self).stage_of(shuffle_id)).locs() == old(self).stage(
                old(self).stage_of(shuffle_id),
            ).locs().update(
                map_id as int,
                without_host(
                    old(self).stage(old(self).stage_of(shuffle_id)).locs()[map_id as int],
                    server_uri@,
                ),
            ),
    {
        broadcast use vstd::std_specs::hash::group_hash_axioms;

        let stage_id = self.fetch_from_shuffle_to_cache(shuffle_id);
        match self.stage_cache.remove(&stage_id) {
            Some(mut stage) => {
                stage.remove_output_loc(map_id, server_uri);
                self.stage_cache.insert(stage_id, stage);
                assert(self.stage_cache@.dom() =~= old(self).stage_cache@.dom());
            },
            None => {},
        }
    }

    /// No stage must be computed before stage `stage_id`.
    pub open spec fn ready(&self, ctx: &Context, stage_id: usize) -> bool {
        forall|id: usize| !self.is_missing_parent_of(ctx, self.stage(stage_id).rdd, id)
    }

    /// The test for [`DagScheduler::ready`].
    pub open spec fn ready_test(&self, ctx: &Context) -> spec_fn(usize) -> bool {
        |w: usize| self.ready(ctx, w)
    }

    /// What handing out the tasks of the stages `stages`, from the `i`-th on and
    /// in their order, does to the job and to the counter of task ids.
    pub open spec fn launch_all_effect(
        &self,
        ctx: &Context,
        jt: JobView,
        next_task_id: usize,
        stages: Seq<usize>,
        i: int,
    ) -> SubmitEffect
        decreases stages.len() - i,
    {
        if i < 0 || i >= stages.len() {
            SubmitEffect { jt, next_task_id, tasks: Seq::empty() }
        } else {
            let e1 = self.launch_effect(ctx, jt, next_task_id, stages[i]);
            let e2 = self.launch_all_effect(ctx, e1.jt, e1.next_task_id, stages, i + 1);
            SubmitEffect { jt: e2.jt, next_task_id: e2.next_task_id, tasks: e1.tasks + e2.tasks }
        }
    }

    /// The job after task `task_id` of stage `stage_id` has completed.
    pub open spec fn task_done(jt: JobView, stage_id: usize, task_id: usize) -> JobView {
        JobView {
            pending_tasks: if jt.pending_tasks.contains_key(stage_id) {
                jt.pending_tasks.insert(stage_id, jt.pending_tasks[stage_id].remove(task_id))
            } else {
                jt.pending_tasks
            },
            ..jt
        }
    }

    /// The completion of task `task_id` closes stage `stage_id`: the stage is
    /// running and no other task of it is outstanding.
    pub open spec fn closes(jt: JobView, stage_id: usize, task_id: usize) -> bool {
        jt.running.contains(stage_id) && Self::task_done(jt, stage_id, task_id).pending(stage_id)
            == Set::<usize>::empty()
    }

    /// The waiting stages of `jt` that have become ready, in ascending order.
    pub open spec fn newly_runnable(&self, ctx: &Context, jt: JobView) -> Seq<usize> {
        ascending(jt.waiting).filter(self.ready_test(ctx))
    }

    /// How the success of a shuffle-map task changes scheduler and job.
    ///
    /// `self` is the scheduler afterwards, but for the counter of task ids,
    /// which is still that of `before`.  The task's output location `uri` has
    /// been added to partition `partition` of stage `stage_id`, and the task is
    /// no longer outstanding.  If that closes the stage, the stage has stopped
    /// running, its first output locations have been published under its
    /// shuffle id, the snapshot of cache locations has been renewed, and every
    /// waiting stage that has become ready is running, with its tasks handed
    /// out in `tasks`.
    pub open spec fn map_output_outcome(
        &self,
        before: &Self,
        ctx: &Context,
        old_jt: JobView,
        new_jt: JobView,
        stage_id: usize,
        partition: usize,
        task_id: usize,
        uri: Seq<char>,
        tasks: Seq<TaskView>,
        next_task_id: usize,
    ) -> bool {
        let j1 = Self::task_done(old_jt, stage_id, task_id);
        &&& self.reshaped(before, stage_id)
        &&& self.stage(stage_id).locs() == before.stage(stage_id).locs().update(
            partition as int,
            before.stage(stage_id).locs()[partition as int].push(uri),
        )
        &&& if Self::closes(old_jt, stage_id, task_id) {
            let newly = self.newly_runnable(ctx, j1);
            let j2 = JobView {
                waiting: j1.waiting.difference(newly.to_set()),
                running: j1.running.remove(stage_id) + newly.to_set(),
                ..j1
            };
            let e = self.launch_all_effect(ctx, j2, before.next_task_id, newly, 0);
            &&& self.cache_locs.deep_view() == before.cache_tracker.table()
            &&& match before.stage(stage_id).shuffle_dependency {
                Some(d) => {
                    &&& self.map_output_tracker.same_but(&before.map_output_tracker, d.shuffle_id)
                    &&& self.map_output_tracker.registered(d.shuffle_id)
                    &&& self.map_output_tracker.slots(d.shuffle_id) == first_locs(
                        self.stage(stage_id).locs(),
                    )
                },
                None => self.map_output_tracker == before.map_output_tracker,
            }
            &&& new_jt == e.jt
            &&& tasks == e.tasks
            &&& next_task_id == e.next_task_id
        } else {
            &&& self.cache_locs == before.cache_locs
            &&& self.map_output_tracker == before.map_output_tracker
            &&& new_jt == j1
            &&& tasks == Seq::<TaskView>::empty()
            &&& next_task_id == before.next_task_id
        }
    }

    /// The first output location of each partition of stage `stage_id`.
    pub fn first_output_locs(&self, stage_id: usize) -> (v: Vec<Option<String>>)
        requires
            self.has_stage(stage_id),
        ensures
            v.deep_view() == first_locs(self.stage(stage_id).locs()),
    {
        let stage = self.fetch_from_stage_cache(stage_id);
        let mut v: Vec<Option<String>> = Vec::new();
        let mut p: usize = 0;
        while p < stage.output_locs.len()
            invariant
                p <= stage.output_locs@.len(),
                v@.len() == p,
                forall|q: int|
                    0 <= q < p ==> (#[trigger] v@[q]).deep_view() == first_locs(stage.locs())[q],
            decreases stage.output_locs@.len() - p,
        {
            assert(stage.locs()[p as int] == stage.output_locs@[p as int].deep_view());
            if stage.output_locs[p].len() > 0 {
                assert(stage.locs()[p as int][0] == stage.output_locs@[p as int]@[0]@);
                v.push(Some(stage.output_locs[p][0].clone()));
            } else {
                v.push(None);
            }
            p = p + 1;
        }
        proof {
            let a = v.deep_view();
            let b = first_locs(stage.locs());
            assert(a.len() == b.len());
            assert forall|q: int| 0 <= q < a.len() implies a[q] == b[q] by {
                assert(a[q] == v@[q].deep_view());
            }
            assert(a =~= b);
        }
        v
    }

    /// The waiting stages of `jt` that have no missing parent, in ascending
    /// order.
    pub fn find_newly_runnable(&self, ctx: &Context, jt: &JobTracker) -> (newly: Vec<usize>)
        requires
            self.wf(ctx),
            jt.wf(),
            self.job_ok(ctx, jt@),
        ensures
            newly@ == self.newly_runnable(ctx, jt@),
            forall|k: int| 0 <= k < newly@.len() ==> jt@.waiting.contains(#[trigger] newly@[k]),
    {
        let waiting = jt.waiting.to_vec();
        let mut newly: Vec<usize> = Vec::new();
        let mut i: usize = 0;
        let ghost test = self.ready_test(ctx);
        proof {
            reveal(Seq::filter);
            assert(waiting@.subrange(0, 0) =~= Seq::<usize>::empty());
        }
        while i < waiting.len()
            invariant
                self.wf(ctx),
                self.job_ok(ctx, jt@),
                waiting@ == ascending(jt@.waiting),
                waiting@ == jt.waiting.ids@,
                test == self.ready_test(ctx),
                i <= waiting@.len(),
                newly@ == waiting@.subrange(0, i as int).filter(test),
                forall|k: int| 0 <= k < newly@.len() ==> jt@.waiting.contains(#[trigger] newly@[k]),
            decreases waiting@.len() - i,
        {
            let w = waiting[i];
            proof {
                assert(jt.waiting.ids@[i as int] == w);
                assert(jt@.waiting.contains(w));
                assert(self.submittable(jt@, w));
                assert(waiting@.subrange(0, i + 1) =~= waiting@.subrange(0, i as int).push(w));
                waiting@.subrange(0, i as int).lemma_filter_push(w, test);
            }
            let missing = self.get_missing_parent_stages(ctx, w);
            proof {
                let rdd = self.stage(w).rdd;
                if missing@.len() == 0 {
                    assert forall|id: usize| !self.is_missing_parent_of(ctx, rdd, id) by {
                        if self.is_missing_parent_of(ctx, rdd, id) {
                            assert(self.missing_parent_stages(ctx, rdd).contains(id));
                            assert(missing@.to_set().contains(id));
                        }
                    }
                } else {
                    assert(missing@.to_set().contains(missing@[0]));
                    assert(self.missing_parent_stages(ctx, rdd).contains(missing@[0]));
                    assert(self.is_missing_parent_of(ctx, rdd, missing@[0]));
                }
                assert(test(w) == self.ready(ctx, w));
            }
            if missing.len() == 0 {
                newly.push(w);
            }
            i = i + 1;
        }
        proof {
            assert(waiting@.subrange(0, i as int) =~= waiting@);
        }
        newly
    }

    /// Hands out the tasks of each of the stages `stages`, in their order.
    fn launch_all(
        &self,
        ctx: &Context,
        stages: &Vec<usize>,
        jt: &mut JobTracker,
        next_task_id: &mut usize,
    ) -> (tasks: Vec<TaskOption>)
        requires
            self.wf(ctx),
            ctx.pins_valid(),
            old(jt).wf(),
            self.job_ok(ctx, old(jt)@),
            forall|k: int| 0 <= k < stages@.len() ==> self.submittable(old(jt)@, #[trigger] stages@[k]),
        ensures
            task_views(tasks@) == self.launch_all_effect(
                ctx,
                old(jt)@,
                *old(next_task_id),
                stages@,
                0,
            ).tasks,
            final(jt)@ == self.launch_all_effect(ctx, old(jt)@, *old(next_task_id), stages@, 0).jt,
            *final(next_task_id) == self.launch_all_effect(
                ctx,
                old(jt)@,
                *old(next_task_id),
                stages@,
                0,
            ).next_task_id,
            final(jt).wf(),
            self.job_ok(ctx, final(jt)@),
            final(jt)@.waiting == old(jt)@.waiting,
            final(jt)@.running == old(jt)@.running,
            final(jt)@.failed == old(jt)@.failed,
            final(jt)@.finished == old(jt)@.finished,
            final(jt)@.output_parts == old(jt)@.output_parts,
            final(jt)@.final_stage == old(jt)@.final_stage,
            self.tasks_ok(old(jt)@, task_views(tasks@)),
    {
        let ghost j0 = jt@;
        let ghost first = *next_task_id;
        let mut tasks: Vec<TaskOption> = Vec::new();
        let mut i: usize = 0;
        proof {
            assert(task_views(tasks@) =~= Seq::<TaskView>::empty());
            let all = self.launch_all_effect(ctx, j0, first, stages@, 0);
            assert(Seq::<TaskView>::empty() + all.tasks =~= all.tasks);
        }
        while i < stages.len()
            invariant
                self.wf(ctx),
                ctx.pins_valid(),
                jt.wf(),
                self.job_ok(ctx, jt@),
                i <= stages@.len(),
                forall|k: int| 0 <= k < stages@.len() ==> self.submittable(j0, #[trigger] stages@[k]),
                jt@.final_stage == j0.final_stage,
                jt@.waiting == j0.waiting,
                jt@.running == j0.running,
                jt@.failed == j0.failed,
                jt@.finished == j0.finished,
                jt@.output_parts == j0.output_parts,
                self.tasks_ok(j0, task_views(tasks@)),
                ({
                    let rest = self.launch_all_effect(ctx, jt@, *next_task_id, stages@, i as int);
                    let all = self.launch_all_effect(ctx, j0, first, stages@, 0);
                    &&& all.jt == rest.jt
                    &&& all.next_task_id == rest.next_task_id
                    &&& all.tasks == task_views(tasks@) + rest.tasks
                }),
            decreases stages@.len() - i,
        {
            let ghost j1 = jt@;
            let ghost n1 = *next_task_id;
            let ghost t1 = task_views(tasks@);
            proof {
                assert(self.submittable(j0, stages@[i as int]));
            }
            let mut more = self.launch_tasks(ctx, stages[i], jt, next_task_id);
            let ghost t2 = task_views(more@);
            tasks.append(&mut more);
            proof {
                assert(task_views(tasks@) =~= t1 + t2);
                assert forall|k: int| 0 <= k < (t1 + t2).len() implies self.task_ok(
                    j0,
                    #[trigger] (t1 + t2)[k],
                ) by {
                    if k < t1.len() {
                        assert(self.task_ok(j0, t1[k]));
                    } else {
                        assert(self.task_ok(j1, t2[k - t1.len()]));
                    }
                }
                let e1 = self.launch_effect(ctx, j1, n1, stages@[i as int]);
                let e2 = self.launch_all_effect(ctx, e1.jt, e1.next_task_id, stages@, i + 1);
                assert((t1 + t2) + e2.tasks =~= t1 + (t2 + e2.tasks));
                assert forall|s: usize| #[trigger] jt@.waiting.contains(s) implies self.submittable(
                    jt@,
                    s,
                ) by {
                    assert(self.submittable(j1, s));
                }
                assert forall|s: usize| #[trigger] jt@.failed.contains(s) implies self.submittable(
                    jt@,
                    s,
                ) by {
                    assert(self.submittable(j1, s));
                }
            }
            i = i + 1;
        }
        proof {
            assert(task_views(tasks@) + Seq::<TaskView>::empty() =~= task_views(tasks@));
        }
        tasks
    }

    /// The success `event` can be taken in: a result task names a slot of the
    /// job, and there is room to count it; a shuffle-map task names a partition
    /// of a stage that is built.
    pub open spec fn accepts_success<U>(
        &self,
        jt: JobView,
        event: CompletionEvent<U>,
        results: Seq<Option<U>>,
        num_finished: usize,
    ) -> bool {
        match event {
            CompletionEvent::ResultTask { task, result } => {
                &&& task.output_id < results.len()
                &&& task.output_id < jt.finished.len()
                &&& num_finished < usize::MAX
            },
            CompletionEvent::ShuffleMapTask { task, result } => {
                &&& self.has_stage(task.stage_id)
                &&& task.partition < self.stage(task.stage_id).num_partitions
            },
        }
    }

    /// How the success `event` changes scheduler, job and results; `self` is
    /// the scheduler afterwards.
    ///
    /// The result of a result task fills its slot, marks the slot finished and
    /// counts as one more finished result; nothing else changes, and no task is
    /// set free.  The success of a shuffle-map task leaves the results as they
    /// are and changes scheduler and job as
    /// [`DagScheduler::map_output_outcome`] says.
    pub open spec fn success_outcome<U>(
        &self,
        before: &Self,
        ctx: &Context,
        old_jt: JobView,
        new_jt: JobView,
        event: CompletionEvent<U>,
        old_results: Seq<Option<U>>,
        new_results: Seq<Option<U>>,
        old_finished: usize,
        new_finished: usize,
        tasks: Seq<TaskView>,
    ) -> bool {
        match event {
            CompletionEvent::ResultTask { task, result } => {
                &&& new_results == old_results.update(task.output_id as int, Some(result))
                &&& new_finished == old_finished + 1
                &&& new_jt == (JobView {
                    finished: old_jt.finished.update(task.output_id as int, true),
                    ..old_jt
                })
                &&& *self == *before
                &&& tasks.len() == 0
            },
            CompletionEvent::ShuffleMapTask { task, result } => {
                &&& new_results == old_results
                &&& new_finished == old_finished
                &&& (DagScheduler { next_task_id: before.next_task_id, ..*self }).map_output_outcome(
                    before,
                    ctx,
                    old_jt,
                    new_jt,
                    task.stage_id,
                    task.partition,
                    task.task_id,
                    result@,
                    tasks,
                    self.next_task_id,
                )
            },
        }
    }

    /// Takes in the success of a task, as [`DagScheduler::success_outcome`] says,
    /// and returns the tasks that it sets free, for dispatch.  The job is
    /// complete when the count of finished results reaches the number of
    /// requested partitions.
    pub fn on_event_success<U>(
        &mut self,
        ctx: &Context,
        completed_event: CompletionEvent<U>,
        results: &mut Vec<Option<U>>,
        num_finished: &mut usize,
        jt: &mut JobTracker,
    ) -> (tasks: Vec<TaskOption>)
        requires
            old(self).wf(ctx),
            ctx.pins_valid(),
            old(jt).wf(),
            old(self).job_ok(ctx, old(jt)@),
            old(self).accepts_success(old(jt)@, completed_event, old(results)@, *old(num_finished)),
        ensures
            final(self).wf(ctx),
            final(jt).wf(),
            final(self).job_ok(ctx, final(jt)@),
            final(self).tasks_ok(final(jt)@, task_views(tasks@)),
            final(jt)@.output_parts == old(jt)@.output_parts,
            final(jt)@.num_output_parts == old(jt)@.num_output_parts,
            final(jt)@.final_stage == old(jt)@.final_stage,
            final(jt)@.final_rdd == old(jt)@.final_rdd,
            final(self).stage_cache@.dom() == old(self).stage_cache@.dom(),
            forall|id: usize| #[trigger]
                final(self).has_stage(id) ==> final(self).stage(id).num_partitions == old(
                    self,
                ).stage(id).num_partitions,
            final(self).success_outcome(
                old(self),
                ctx,
                old(jt)@,
                final(jt)@,
                completed_event,
                old(results)@,
                final(results)@,
                *old(num_finished),
                *final(num_finished),
                task_views(tasks@),
            ),
    {
        match completed_event {
            CompletionEvent::ResultTask { task, result } => {
                let ghost j0 = jt@;
                results[task.output_id] = Some(result);
                jt.finished[task.output_id] = true;
                *num_finished = *num_finished + 1;
                proof {
                    assert(jt@.pending_tasks =~= j0.pending_tasks);
                    assert(old(self).job_ok(ctx, j0));
                    assert forall|s: usize| #[trigger] jt@.waiting.contains(s) implies self.submittable(
                        jt@,
                        s,
                    ) by {
                        assert(j0.waiting.contains(s));
                        assert(self.submittable(j0, s));
                    }
                    assert forall|s: usize| #[trigger] jt@.failed.contains(s) implies self.submittable(
                        jt@,
                        s,
                    ) by {
                        assert(j0.failed.contains(s));
                        assert(self.submittable(j0, s));
                    }
                }
                Vec::new()
            },
            CompletionEvent::ShuffleMapTask { task, result } => {
                let ghost s0 = *self;
                let ghost j0 = jt@;
                let ghost uri = result@;
                let stage_id = task.stage_id;
                proof {
                    assert(s0.stage_ok(ctx, stage_id));
                }
                self.add_output_loc_to_stage(stage_id, task.partition, result);
                let ghost s1 = *self;
                proof {
                    s1.lemma_tracker_kept(&s0, ctx);
                    s1.lemma_reshaped_consistent(&s0, ctx, stage_id);
                    s1.lemma_reshaped_job_ok(&s0, ctx, stage_id, j0);
                }
                jt.remove_pending(stage_id, task.task_id);
                let ghost j1 = jt@;
                proof {
                    assert(j1 == Self::task_done(j0, stage_id, task.task_id));
                    assert forall|s: usize| #[trigger] j1.waiting.contains(s) implies self.submittable(
                        j1,
                        s,
                    ) by {
                        assert(self.submittable(j0, s));
                    }
                    assert forall|s: usize| #[trigger] j1.failed.contains(s) implies self.submittable(
                        j1,
                        s,
                    ) by {
                        assert(self.submittable(j0, s));
                    }
                }
                if jt.running.contains(stage_id) && jt.no_pending_tasks(stage_id) {
                    jt.running.remove(stage_id);
                    let dep = self.fetch_from_stage_cache(stage_id).shuffle_dependency;
                    match dep {
                        Some(d) => {
                            let locs = self.first_output_locs(stage_id);
                            self.map_output_tracker.register_map_outputs(d.shuffle_id, locs);
                        },
                        None => {},
                    }
                    self.update_cache_locs();
                    let ghost s2 = *self;
                    proof {
                        assert(s2.stage_cache@ == s1.stage_cache@);
                        assert(s1.stage_cache@.dom().contains(stage_id));
                        assert(s1.has_stage(stage_id));
                        assert(s2.reshaped(&s0, stage_id)) by {
                            assert forall|id: usize| #[trigger]
                                s2.has_stage(id) && id != stage_id implies s2.stage(id) == s0.stage(
                                id,
                            ) by {
                                assert(s1.has_stage(id));
                            }
                        }
                        assert(s2.tracker_ok(ctx)) by {
                            assert(s1.stage_ok(ctx, stage_id));
                            assert forall|s: usize| #[trigger]
                                s2.map_output_tracker.registered(s) implies s < ctx.shuffles@.len()
                                && s2.map_output_tracker.slots(s).len()
                                == ctx.rdds@[ctx.shuffles@[s as int].rdd as int].num_splits by {
                                if dep is Some && s == dep->0.shuffle_id {
                                } else {
                                    assert(s1.map_output_tracker.registered(s));
                                }
                            }
                        }
                        s2.lemma_reshaped_consistent(&s0, ctx, stage_id);
                        s2.lemma_reshaped_job_ok(&s0, ctx, stage_id, j0);
                        assert forall|s: usize| #[trigger] jt@.waiting.contains(s) implies s2.submittable(
                            jt@,
                            s,
                        ) by {
                            assert(s2.submittable(j0, s));
                        }
                        assert forall|s: usize| #[trigger] jt@.failed.contains(s) implies s2.submittable(
                            jt@,
                            s,
                        ) by {
                            assert(s2.submittable(j0, s));
                        }
                    }
                    let newly = self.find_newly_runnable(ctx, jt);
                    let ghost j1b = jt@;
                    jt.waiting.remove_all(&newly);
                    jt.running.insert_all(&newly);
                    let ghost j2 = jt@;
                    proof {
                        assert(j2.pending_tasks =~= j1.pending_tasks);
                        assert(j2.waiting.disjoint(j2.running)) by {
                            assert forall|x: usize| !(j2.waiting.contains(x) && j2.running.contains(
                                x,
                            )) by {
                                if j2.waiting.contains(x) && j2.running.contains(x) {
                                    assert(j0.waiting.contains(x));
                                    assert(!newly@.to_set().contains(x));
                                    assert(j0.running.contains(x));
                                }
                            }
                        }
                        assert forall|s: usize| #[trigger] j2.waiting.contains(s) implies s2.submittable(
                            j2,
                            s,
                        ) by {
                            assert(s2.submittable(j0, s));
                        }
                        assert forall|s: usize| #[trigger] j2.failed.contains(s) implies s2.submittable(
                            j2,
                            s,
                        ) by {
                            assert(s2.submittable(j0, s));
                        }
                        assert forall|k: int| 0 <= k < newly@.len() implies s2.submittable(
                            j2,
                            #[trigger] newly@[k],
                        ) by {
                            assert(j1b.waiting.contains(newly@[k]));
                            assert(s2.submittable(j0, newly@[k]));
                        }
                        assert(j2 == (JobView {
                            waiting: j1.waiting.difference(newly@.to_set()),
                            running: j1.running.remove(stage_id) + newly@.to_set(),
                            ..j1
                        }));
                    }
                    let mut next_task_id = self.next_task_id;
                    let tasks = self.launch_all(ctx, &newly, jt, &mut next_task_id);
                    self.next_task_id = next_task_id;
                    proof {
                        let s3 = *self;
                        assert(s3.stage_cache@ == s2.stage_cache@);
                        assert(s3.reshaped(&s0, stage_id)) by {
                            assert forall|id: usize| #[trigger]
                                s3.has_stage(id) && id != stage_id implies s3.stage(id) == s0.stage(
                                id,
                            ) by {
                                assert(s2.has_stage(id));
                            }
                        }
                        assert(s3.reshaped(&s2, stage_id));
                        s3.lemma_tracker_kept(&s2, ctx);
                        s3.lemma_reshaped_consistent(&s0, ctx, stage_id);
                        s3.lemma_reshaped_job_ok(&s2, ctx, stage_id, jt@);
                        let mid = DagScheduler { next_task_id: s0.next_task_id, ..s3 };
                        assert(mid == s2);
                        assert forall|k: int| 0 <= k < task_views(tasks@).len() implies s3.task_ok(
                            jt@,
                            #[trigger] task_views(tasks@)[k],
                        ) by {
                            assert(s2.task_ok(j2, task_views(tasks@)[k]));
                        }
                        assert forall|id: usize| #[trigger] s3.has_stage(id) implies s3.stage(
                            id,
                        ).num_partitions == s0.stage(id).num_partitions by {
                            assert(s0.stage_cache@.dom().contains(id));
                        }
                    }
                    tasks
                } else {
                    proof {
                        let mid = DagScheduler { next_task_id: s0.next_task_id, ..*self };
                        assert(mid == s1);
                        assert forall|id: usize| #[trigger] s1.has_stage(id) implies s1.stage(
                            id,
                        ).num_partitions == s0.stage(id).num_partitions by {
                            assert(s0.stage_cache@.dom().contains(id));
                        }
                    }
                    let tasks: Vec<TaskOption> = Vec::new();
                    assert(task_views(tasks@) =~= Seq::<TaskView>::empty());
                    tasks
                }
            },
        }
    }

    /// The report of a failed fetch can be taken in: the stage that reports it
    /// is one that the job can submit, the shuffle that it names has a stage,
    /// and the map output that it names is a partition of that stage.
    pub open spec fn accepts_failure(&self, jt: JobView, failed_vals: FetchFailedVals, stage_id: usize) -> bool {
        &&& self.submittable(jt, stage_id)
        &&& self.shuffle_registered(failed_vals.shuffle_id)
        &&& failed_vals.map_id < self.stage(self.stage_of(failed_vals.shuffle_id)).num_partitions
    }

    /// How a failed fetch, reported by a task of stage `stage_id`, changes
    /// scheduler and job; `self` is the scheduler afterwards.
    ///
    /// The stage that produces the shuffle has stopped running and counts as
    /// failed; it has lost the one output location that the report names, in
    /// its own list and in the map-output tracker, and all its other locations
    /// have stayed.  The reporting stage has stopped running and counts as
    /// failed too.  A report that names a location which is not recorded has
    /// taken no location away.
    pub open spec fn failure_outcome(
        &self,
        before: &Self,
        old_jt: JobView,
        new_jt: JobView,
        failed_vals: FetchFailedVals,
        stage_id: usize,
    ) -> bool {
        let producer = before.stage_of(failed_vals.shuffle_id);
        let shuffle_id = failed_vals.shuffle_id;
        let map_id = failed_vals.map_id;
        let server = failed_vals.server_uri@;
        &&& self.reshaped(before, producer)
        &&& self.next_task_id == before.next_task_id
        &&& self.cache_locs == before.cache_locs
        &&& self.stage(producer).locs() == before.stage(producer).locs().update(
            map_id as int,
            without_host(before.stage(producer).locs()[map_id as int], server),
        )
        &&& self.map_output_tracker.same_but(&before.map_output_tracker, shuffle_id)
        &&& self.map_output_tracker.registered(shuffle_id) == before.map_output_tracker.registered(
            shuffle_id,
        )
        &&& if before.map_output_tracker.holds(shuffle_id, map_id, server) {
            self.map_output_tracker.slots(shuffle_id) == before.map_output_tracker.slots(
                shuffle_id,
            ).update(map_id as int, None)
        } else {
            self.map_output_tracker.server_uris@ == before.map_output_tracker.server_uris@
        }
        &&& new_jt == (JobView {
            running: old_jt.running.remove(stage_id).remove(producer),
            failed: old_jt.failed.insert(stage_id).insert(producer),
            ..old_jt
        })
    }

    /// Takes in a failed shuffle fetch, reported by a task of stage `stage_id`;
    /// see [`DagScheduler::failure_outcome`].
    pub fn on_event_failure(
        &mut self,
        ctx: &Context,
        jt: &mut JobTracker,
        failed_vals: FetchFailedVals,
        stage_id: usize,
    )
        requires
            old(self).wf(ctx),
            old(jt).wf(),
            old(self).job_ok(ctx, old(jt)@),
            old(self).accepts_failure(old(jt)@, failed_vals, stage_id),
        ensures
            final(self).wf(ctx),
            final(jt).wf(),
            final(self).job_ok(ctx, final(jt)@),
            final(self).failure_outcome(old(self), old(jt)@, final(jt)@, failed_vals, stage_id),
    {
        let ghost s0 = *self;
        let ghost j0 = jt@;
        let FetchFailedVals { server_uri, shuffle_id, map_id, reduce_id } = failed_vals;
        let producer = self.fetch_from_shuffle_to_cache(shuffle_id);
        proof {
            assert(s0.has_stage(producer));
            assert(s0.stage_ok(ctx, producer));
            assert(s0.shuffle_ok(ctx, shuffle_id));
        }
        jt.running.remove(stage_id);
        jt.failed.insert(stage_id);
        self.remove_output_loc_from_stage(shuffle_id, map_id, &server_uri);
        let ghost sa = *self;
        self.map_output_tracker.unregister_map_output(shuffle_id, map_id, &server_uri);
        jt.running.remove(producer);
        jt.failed.insert(producer);
        proof {
            assert(self.stage_cache@ == sa.stage_cache@);
            assert(self.reshaped(&s0, producer)) by {
                assert forall|id: usize| #[trigger]
                    self.has_stage(id) && id != producer implies self.stage(id) == s0.stage(id) by {
                    assert(sa.has_stage(id));
                }
            }
            assert forall|s: usize| #[trigger]
                self.map_output_tracker.registered(s) implies s0.map_output_tracker.registered(s)
                && self.map_output_tracker.slots(s).len() == s0.map_output_tracker.slots(s).len() by {
                if s != shuffle_id {
                    assert(self.map_output_tracker.server_uris@[s]
                        == s0.map_output_tracker.server_uris@[s]);
                }
            }
            self.lemma_tracker_kept(&s0, ctx);
            self.lemma_reshaped_consistent(&s0, ctx, producer);
            self.lemma_reshaped_job_ok(&s0, ctx, producer, j0);
            assert(jt@.pending_tasks =~= j0.pending_tasks);
            assert(self.stage_cache@.dom().contains(stage_id));
            assert(self.has_stage(stage_id));
            assert(self.has_stage(producer));
            assert(self.submittable(j0, stage_id));
            assert(self.job_ok(ctx, j0));
            assert forall|s: usize| #[trigger] jt@.waiting.contains(s) implies self.submittable(
                jt@,
                s,
            ) by {
                assert(j0.waiting.contains(s));
                assert(self.submittable(j0, s));
            }
            assert forall|s: usize| #[trigger] jt@.failed.contains(s) implies self.submittable(
                jt@,
                s,
            ) by {
                if s != stage_id && s != producer {
                    assert(j0.failed.contains(s));
                    assert(self.submittable(j0, s));
                }
            }
        }
    }

    /// Starts the bookkeeping of a job that computes the partitions
    /// `output_parts` of dataset `final_rdd`: takes the next job id and builds
    /// the job's final stage, with all the stages it depends on.
    pub fn new_job(&mut self, ctx: &Context, final_rdd: usize, output_parts: Vec<usize>) -> (jt:
        JobTracker)
        requires
            old(self).wf(ctx),
            final_rdd < ctx.rdds@.len(),
            forall|i: int|
                0 <= i < output_parts@.len() ==> (#[trigger] output_parts@[i])
                    < ctx.rdds@[final_rdd as int].num_splits,
            old(self).room_for_job(ctx),
        ensures
            final(self).wf(ctx),
            jt.wf(),
            final(self).job_ok(ctx, jt@),
            final(self).extends(
                &(DagScheduler { next_job_id: final(self).next_job_id, ..*old(self) }),
            ),
            final(self).built_for(
                &(DagScheduler { next_job_id: final(self).next_job_id, ..*old(self) }),
                ctx,
                final_rdd,
                None,
                Some(jt.final_stage),
            ),
            final(self).next_job_id == crate::submit::next_id(old(self).next_job_id),
            final(self).counted(old(self), 1),
            final(self).stage(jt.final_stage).shuffle_dependency is None,
            forall|p: int|
                0 <= p < final(self).stage(jt.final_stage).locs().len() ==> (#[trigger] final(self).stage(jt.final_stage).locs()[p]).len() == 0,
            forall|x: usize|
                ctx.reaches(Set::empty(), final_rdd, x) ==> has_entry(
                    final(self).cache_tracker.table(),
                    x,
                ),
            jt@ == (JobView {
                output_parts: output_parts@,
                num_output_parts: output_parts@.len() as usize,
                final_stage: old(self).next_stage_id,
                final_rdd,
                run_id: old(self).next_job_id,
                waiting: Set::empty(),
                running: Set::empty(),
                failed: Set::empty(),
                finished: Seq::new(output_parts@.len(), |i: int| false),
                pending_tasks: Map::empty(),
            }),
    {
        let ghost s0 = *self;
        let run_id = self.get_next_job_id();
        let ghost s1 = *self;
        proof {
            assert(s1.keeps(&s0));
            assert forall|id: usize| #[trigger] s1.has_stage(id) implies s1.stage_ok(ctx, id) by {
                assert(s0.has_stage(id));
                s1.lemma_stage_ok_grows(&s0, ctx, id);
            }
            assert forall|s: usize| #[trigger] s1.shuffle_registered(s) implies s1.shuffle_ok(
                ctx,
                s,
            ) by {
                assert(s0.shuffle_registered(s));
                assert(s0.shuffle_ok(ctx, s));
            }
            s1.lemma_tracker_kept(&s0, ctx);
            assert forall|s: usize|
                #[trigger] s1.shuffle_registered(s) && !s1.has_stage(
                    s1.stage_of(s),
                ) implies ctx.shuffles@[s as int].rdd >= final_rdd + 1 by {
                assert(s0.shuffle_registered(s));
            }
        }
        let final_stage = self.new_stage(ctx, final_rdd, None);
        proof {
            assert forall|s: usize| #[trigger] self.shuffle_registered(s) implies self.has_stage(
                self.stage_of(s),
            ) by {
                if s1.shuffle_registered(s) {
                    assert(s0.shuffle_registered(s));
                    assert(s1.has_stage(s1.stage_of(s)));
                }
            }
        }
        let jt = JobTracker::new(run_id, final_rdd, final_stage, output_parts);
        jt
    }

    /// Whether the job can be computed in the caller's own process: its final
    /// stage has no parent stage, and it asks for one partition.
    pub open spec fn runs_locally(&self, jt: JobView) -> bool {
        self.stage(jt.final_stage).parents@.len() == 0 && jt.num_output_parts == 1
    }

    /// The fast path for a job without parent stages that asks for one
    /// partition: the partition is computed by `func` at once, as attempt 0 of
    /// the job's final stage, and its result is the job's only result.  For any
    /// other job nothing is computed, and the answer is `None`.
    pub fn local_execution<U, F: Fn(crate::task::TaskContext) -> U>(
        &self,
        jt: &JobTracker,
        func: &F,
    ) -> (r: Option<Vec<U>>)
        requires
            self.has_stage(jt.final_stage),
            jt.output_parts@.len() == jt.num_output_parts,
            self.runs_locally(jt@) ==> func.requires(
                (
                    crate::task::TaskContext {
                        stage_id: jt.final_stage,
                        split_id: jt.output_parts@[0],
                        attempt_id: 0,
                    },
                ),
            ),
        ensures
            r is Some <==> self.runs_locally(jt@),
            r matches Some(v) ==> v@.len() == 1 && func.ensures(
                (
                    crate::task::TaskContext {
                        stage_id: jt.final_stage,
                        split_id: jt.output_parts@[0],
                        attempt_id: 0,
                    },
                ),
                v@[0],
            ),
    {
        let stage = self.fetch_from_stage_cache(jt.final_stage);
        if stage.parents.len() == 0 && jt.num_output_parts == 1 {
            let task_context = crate::task::TaskContext::new(jt.final_stage, jt.output_parts[0], 0);
            let mut v: Vec<U> = Vec::new();
            v.push(func(task_context));
            Some(v)
        } else {
            None
        }
    }

    /// Takes in one event: the success of a task, a failed shuffle fetch, or the
    /// failure of a task's own computation.
    ///
    /// A success and a failed fetch change scheduler and job as
    /// [`DagScheduler::success_outcome`] and [`DagScheduler::failure_outcome`]
    /// say; the failure of a computation changes nothing and is handed back to
    /// the caller as an error, for the scheduler does not try such a task
    /// again.
    pub fn on_event<U>(
        &mut self,
        ctx: &Context,
        event: TaskEvent<U>,
        results: &mut Vec<Option<U>>,
        num_finished: &mut usize,
        jt: &mut JobTracker,
    ) -> (r: Result<Vec<TaskOption>, TaskError>)
        requires
            old(self).wf(ctx),
            ctx.pins_valid(),
            old(jt).wf(),
            old(self).job_ok(ctx, old(jt)@),
            match event {
                TaskEvent::Success(e) => old(self).accepts_success(
                    old(jt)@,
                    e,
                    old(results)@,
                    *old(num_finished),
                ),
                TaskEvent::FetchFailed { stage_id, failed_vals } => old(self).accepts_failure(
                    old(jt)@,
                    failed_vals,
                    stage_id,
                ),
                TaskEvent::Error { stage_id, task_id, message } => true,
            },
        ensures
            final(self).wf(ctx),
            final(jt).wf(),
            final(self).job_ok(ctx, final(jt)@),
            match event {
                TaskEvent::Success(e) => {
                    &&& r matches Ok(tasks)
                    &&& final(self).tasks_ok(final(jt)@, task_views(tasks@))
                    &&& final(self).success_outcome(
                        old(self),
                        ctx,
                        old(jt)@,
                        final(jt)@,
                        e,
                        old(results)@,
                        final(results)@,
                        *old(num_finished),
                        *final(num_finished),
                        task_views(tasks@),
                    )
                },
                TaskEvent::FetchFailed { stage_id, failed_vals } => {
                    &&& r matches Ok(tasks)
                    &&& tasks@.len() == 0
                    &&& final(results)@ == old(results)@
                    &&& *final(num_finished) == *old(num_finished)
                    &&& final(self).failure_outcome(
                        old(self),
                        old(jt)@,
                        final(jt)@,
                        failed_vals,
                        stage_id,
                    )
                },
                TaskEvent::Error { stage_id, task_id, message } => {
                    &&& r matches Err(e)
                    &&& e.stage_id == stage_id
                    &&& e.task_id == task_id
                    &&& e.message@ == message@
                    &&& *final(self) == *old(self)
                    &&& *final(jt) == *old(jt)
                    &&& final(results)@ == old(results)@
                    &&& *final(num_finished) == *old(num_finished)
                },
            },
    {
        match event {
            TaskEvent::Success(e) => Ok(self.on_event_success(ctx, e, results, num_finished, jt)),
            TaskEvent::FetchFailed { stage_id, failed_vals } => {
                self.on_event_failure(ctx, jt, failed_vals, stage_id);
                Ok(Vec::new())
            },
            TaskEvent::Error { stage_id, task_id, message } => Err(
                TaskError { stage_id, task_id, message },
            ),
        }
    }

    /// Whether the success `event` can be taken in; see
    /// [`DagScheduler::accepts_success`].
    pub fn can_take_success<U>(
        &self,
        jt: &JobTracker,
        event: &CompletionEvent<U>,
        results: &Vec<Option<U>>,
        num_finished: usize,
    ) -> (b: bool)
        ensures
            b == self.accepts_success(jt@, *event, results@, num_finished),
    {
        broadcast use vstd::std_specs::hash::group_hash_axioms;

        match event {
            CompletionEvent::ResultTask { task, result: _ } => {
                task.output_id < results.len() && task.output_id < jt.finished.len() && num_finished
                    < usize::MAX
            },
            CompletionEvent::ShuffleMapTask { task, result: _ } => {
                match self.stage_cache.get(&task.stage_id) {
                    Some(stage) => task.partition < stage.num_partitions,
                    None => false,
                }
            },
        }
    }

    /// Whether the report of a failed fetch by a task of stage `stage_id` can
    /// be taken in; see [`DagScheduler::accepts_failure`].
    pub fn can_take_failure(
        &self,
        ctx: &Context,
        jt: &JobTracker,
        failed_vals: &FetchFailedVals,
        stage_id: usize,
    ) -> (b: bool)
        requires
            self.wf(ctx),
        ensures
            b == self.accepts_failure(jt@, *failed_vals, stage_id),
    {
        broadcast use vstd::std_specs::hash::group_hash_axioms;

        let reporter = match self.stage_cache.get(&stage_id) {
            Some(stage) => stage_id == jt.final_stage || stage.shuffle_dependency.is_some(),
            None => false,
        };
        if !reporter {
            return false;
        }
        match self.shuffle_to_map_stage.get(&failed_vals.shuffle_id) {
            Some(producer) => {
                assert(self.shuffle_registered(failed_vals.shuffle_id));
                failed_vals.map_id < self.fetch_from_stage_cache(*producer).num_partitions
            },
            None => false,
        }
    }

    /// Stage `stage_id` is available to the job `jt`: each of its partitions has
    /// an output location, or it is the job's final stage and every result of
    /// the job has arrived.
    pub open spec fn stage_available(&self, jt: JobView, stage_id: usize) -> bool {
        self.stage(stage_id).available() || (stage_id == jt.final_stage && jt.all_finished())
    }

    /// Whether stage `stage_id` is available to the job `jt`.
    pub fn is_stage_available(&self, jt: &JobTracker, stage_id: usize) -> (b: bool)
        requires
            self.has_stage(stage_id),
        ensures
            b == self.stage_available(jt@, stage_id),
    {
        if self.fetch_from_stage_cache(stage_id).is_available() {
            true
        } else {
            stage_id == jt.final_stage && jt.is_complete()
        }
    }
}

} // verus!
