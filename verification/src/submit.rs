//! Submitting stages: which tasks a stage needs, and in what order stages and
//! their missing parents are handed out.

use crate::context::Context;
use crate::ids::{ascending, lemma_ascending_of, strictly_increasing};
use crate::job::{JobTracker, JobView};
use crate::scheduler::DagScheduler;
use crate::task::{ResultTask, ShuffleMapTask, TaskOption, TaskView};
use vstd::prelude::*;

verus! {

/// The task id that follows `x`; the largest `usize` is followed by 0.
pub open spec fn next_id(x: usize) -> usize {
    if x == usize::MAX {
        0
    } else {
        (x + 1) as usize
    }
}

/// The `k`-th task id handed out from `first` on.
pub open spec fn nth_id(first: usize, k: nat) -> usize
    decreases k,
{
    if k == 0 {
        first
    } else {
        next_id(nth_id(first, (k - 1) as nat))
    }
}

/// The first `n` task ids handed out from `first` on.
pub open spec fn id_run(first: usize, n: nat) -> Set<usize> {
    Set::new(|x: usize| exists|k: nat| k < n && x == #[trigger] nth_id(first, k))
}


/// The slots of a job whose result has not arrived.
pub open spec fn unfinished_outputs(jt: JobView) -> Set<usize> {
    Set::new(|i: usize| i < jt.finished.len() && !jt.finished[i as int])
}

/// The tasks of `tasks` as plain values.
pub open spec fn task_views(tasks: Seq<TaskOption>) -> Seq<TaskView> {
    Seq::new(tasks.len(), |k: int| tasks[k]@)
}

/// What a submission does: the job's new state, the next task id, and the
/// tasks to dispatch.
pub struct SubmitEffect {
    pub jt: JobView,
    pub next_task_id: usize,
    pub tasks: Seq<TaskView>,
}

impl DagScheduler {
    /// Stage `stage_id` can be submitted for the job `jt`: it is built, and it is
    /// the job's final stage or produces a shuffle.
    pub open spec fn submittable(&self, jt: JobView, stage_id: usize) -> bool {
        &&& self.has_stage(stage_id)
        &&& stage_id != jt.final_stage ==> self.stage(stage_id).shuffle_dependency is Some
    }

    /// The job `jt` fits the scheduler and the lineage graph: its final stage is
    /// built and computes its final dataset, the partitions it asks for exist,
    /// and the stages it holds as waiting or failed can be submitted.
    pub open spec fn job_ok(&self, ctx: &Context, jt: JobView) -> bool {
        &&& self.has_stage(jt.final_stage)
        &&& self.stage(jt.final_stage).rdd == jt.final_rdd
        &&& jt.output_parts.len() == jt.num_output_parts
        &&& jt.finished.len() == jt.num_output_parts
        &&& forall|i: int|
            0 <= i < jt.output_parts.len() ==> (#[trigger] jt.output_parts[i])
                < ctx.rdds@[jt.final_rdd as int].num_splits
        &&& forall|s: usize| #[trigger] jt.waiting.contains(s) ==> self.submittable(jt, s)
        &&& forall|s: usize| #[trigger] jt.failed.contains(s) ==> self.submittable(jt, s)
    }

    /// The partitions of stage `stage_id` that have no output location.
    pub open spec fn missing_partitions(&self, stage_id: usize) -> Set<usize> {
        Set::new(
            |p: usize|
                p < self.stage(stage_id).locs().len() && self.stage(stage_id).locs()[p as int].len()
                    == 0,
        )
    }

    /// The preferred locations of a partition, where the lookup succeeds.
    pub open spec fn locs_of(&self, ctx: &Context, rdd: usize, partition: usize) -> Seq<u32> {
        match self.preferred_locs(ctx, rdd, partition) {
            Ok(locs) => locs,
            Err(_) => Seq::empty(),
        }
    }

    /// The tasks that submitting stage `stage_id` for job `jt` hands out, in
    /// order, when `first_id` is the next task id.
    ///
    /// For the job's final stage: one result task for each requested partition
    /// whose result has not arrived, in the order of the request.  For any other
    /// stage: one shuffle-map task for each partition without output location,
    /// in ascending order.  The tasks get consecutive ids, and each carries the
    /// preferred locations of its partition.
    pub open spec fn stage_tasks(
        &self,
        ctx: &Context,
        jt: JobView,
        stage_id: usize,
        first_id: usize,
    ) -> Seq<crate::task::TaskView> {
        if stage_id == jt.final_stage {
            let outs = crate::ids::ascending(unfinished_outputs(jt));
            Seq::new(
                outs.len(),
                |k: int|
                    crate::task::TaskView {
                        task_id: nth_id(first_id, k as nat),
                        run_id: jt.run_id,
                        stage_id,
                        rdd: jt.final_rdd,
                        partition: jt.output_parts[outs[k] as int],
                        locs: self.locs_of(ctx, jt.final_rdd, jt.output_parts[outs[k] as int]),
                        output_id: Some(outs[k]),
                        dep: None,
                    },
            )
        } else {
            let parts = crate::ids::ascending(self.missing_partitions(stage_id));
            let st = self.stage(stage_id);
            Seq::new(
                parts.len(),
                |k: int|
                    crate::task::TaskView {
                        task_id: nth_id(first_id, k as nat),
                        run_id: jt.run_id,
                        stage_id,
                        rdd: st.rdd,
                        partition: parts[k],
                        locs: self.locs_of(ctx, st.rdd, parts[k]),
                        output_id: None,
                        dep: st.shuffle_dependency,
                    },
            )
        }
    }

    /// Task `t` fits the job `jt`: a result task computes the partition that its
    /// slot asks for, in the job's final stage; a shuffle-map task computes a
    /// partition of a stage that is built.
    pub open spec fn task_ok(&self, jt: JobView, t: TaskView) -> bool {
        match t.output_id {
            Some(o) => o < jt.output_parts.len() && t.partition == jt.output_parts[o as int]
                && t.stage_id == jt.final_stage,
            None => self.has_stage(t.stage_id) && t.partition < self.stage(
                t.stage_id,
            ).num_partitions,
        }
    }

    /// Every task of `tasks` fits the job `jt`.
    pub open spec fn tasks_ok(&self, jt: JobView, tasks: Seq<TaskView>) -> bool {
        forall|k: int| 0 <= k < tasks.len() ==> self.task_ok(jt, #[trigger] tasks[k])
    }

    /// Hands out the tasks that stage `stage_id` still needs for job `jt`, and
    /// records them as outstanding before they are returned for dispatch.
    ///
    /// The tasks are those of [`DagScheduler::stage_tasks`]: for the final stage
    /// one result task per requested partition without result, for another
    /// stage one shuffle-map task per partition without output location.
    pub fn submit_missing_tasks(&mut self, ctx: &Context, stage_id: usize, jt: &mut JobTracker) -> (tasks:
        Vec<TaskOption>)
        requires
            old(self).wf(ctx),
            ctx.pins_valid(),
            old(jt).wf(),
            old(self).job_ok(ctx, old(jt)@),
            old(self).submittable(old(jt)@, stage_id),
        ensures
            task_views(tasks@) == old(self).stage_tasks(
                ctx,
                old(jt)@,
                stage_id,
                old(self).next_task_id,
            ),
            *final(self) == (DagScheduler {
                next_task_id: nth_id(old(self).next_task_id, tasks@.len()),
                ..*old(self)
            }),
            final(jt).wf(),
            final(jt)@ == old(jt)@.with_pending(stage_id, id_run(old(self).next_task_id, tasks@.len())),
            final(self).tasks_ok(final(jt)@, task_views(tasks@)),
            final(self).wf(ctx),
            final(self).job_ok(ctx, final(jt)@),
    {
        let mut next_task_id = self.next_task_id;
        let tasks = self.launch_tasks(ctx, stage_id, jt, &mut next_task_id);
        self.next_task_id = next_task_id;
        proof {
            assert forall|s: usize| #[trigger] jt@.waiting.contains(s) implies old(self).submittable(
                jt@,
                s,
            ) by {
                assert(old(self).submittable(old(jt)@, s));
            }
            assert forall|s: usize| #[trigger] jt@.failed.contains(s) implies old(self).submittable(
                jt@,
                s,
            ) by {
                assert(old(self).submittable(old(jt)@, s));
            }
            self.lemma_task_counter_irrelevant(old(self), ctx, old(jt)@, jt@, task_views(tasks@));
        }
        tasks
    }

    /// Does the work of [`DagScheduler::submit_missing_tasks`] with the counter of
    /// task ids held by the caller.
    pub(crate) fn launch_tasks(
        &self,
        ctx: &Context,
        stage_id: usize,
        jt: &mut JobTracker,
        next_task_id: &mut usize,
    ) -> (tasks: Vec<TaskOption>)
        requires
            self.wf(ctx),
            ctx.pins_valid(),
            old(jt).wf(),
            self.job_ok(ctx, old(jt)@),
            self.submittable(old(jt)@, stage_id),
        ensures
            task_views(tasks@) == self.stage_tasks(ctx, old(jt)@, stage_id, *old(next_task_id)),
            *final(next_task_id) == nth_id(*old(next_task_id), tasks@.len()),
            final(jt).wf(),
            final(jt)@ == old(jt)@.with_pending(stage_id, id_run(*old(next_task_id), tasks@.len())),
            self.tasks_ok(old(jt)@, task_views(tasks@)),
    {
        let ghost first = *next_task_id;
        let ghost s0 = *self;
        let ghost j0 = jt@;
        let mut tasks: Vec<TaskOption> = Vec::new();
        let mut ids: Vec<usize> = Vec::new();
        proof {
            assert(s0.stage_ok(ctx, stage_id));
            assert(s0.stage_ok(ctx, jt.final_stage));
        }
        if stage_id == jt.final_stage {
            let ghost mut outs: Seq<usize> = Seq::empty();
            let mut i: usize = 0;
            while i < jt.num_output_parts
                invariant
                    ctx.wf(),
                    ctx.pins_valid(),
                    *jt == *old(jt),
                    jt.wf(),
                    s0.job_ok(ctx, jt@),
                    stage_id == jt.final_stage,
                    jt.final_rdd < ctx.rdds@.len(),
                    s0 == *self,
                    *next_task_id == nth_id(first, tasks@.len()),
                    i <= jt.num_output_parts,
                    tasks@.len() == outs.len(),
                    ids@.len() == outs.len(),
                    strictly_increasing(outs),
                    forall|k: int| 0 <= k < outs.len() ==> outs[k] < i,
                    forall|x: usize|
                        outs.to_set().contains(x) <==> x < i && unfinished_outputs(jt@).contains(x),
                    forall|k: int| 0 <= k < ids@.len() ==> ids@[k] == nth_id(first, k as nat),
                    forall|k: int|
                        0 <= k < tasks@.len() ==> (#[trigger] tasks@[k])@ == (TaskView {
                            task_id: nth_id(first, k as nat),
                            run_id: jt.run_id,
                            stage_id,
                            rdd: jt.final_rdd,
                            partition: jt.output_parts@[outs[k] as int],
                            locs: s0.locs_of(ctx, jt.final_rdd, jt.output_parts@[outs[k] as int]),
                            output_id: Some(outs[k]),
                            dep: None,
                        }),
                decreases jt.num_output_parts - i,
            {
                if !jt.finished[i] {
                    let part = jt.output_parts[i];
                    proof {
                        self.lemma_locs_ok(ctx, jt.final_rdd, part);
                    }
                    let locs = match self.get_preferred_locs(ctx, jt.final_rdd, part) {
                        Ok(locs) => locs,
                        Err(_) => vstd::pervasive::unreached(),
                    };
                    let task_id = *next_task_id;
                    *next_task_id = if task_id == usize::MAX { 0 } else { task_id + 1 };
                    let task = ResultTask::new(
                        task_id,
                        jt.run_id,
                        jt.final_stage,
                        jt.final_rdd,
                        part,
                        locs,
                        i,
                    );
                    tasks.push(TaskOption::ResultTask(task));
                    ids.push(task_id);
                    proof {
                        let grown = outs.push(i);
                        assert forall|x: usize| grown.to_set().contains(x) <==> x < i + 1
                            && unfinished_outputs(jt@).contains(x) by {
                            if grown.to_set().contains(x) {
                                let k = choose|k: int| 0 <= k < grown.len() && grown[k] == x;
                                if k < outs.len() {
                                    assert(outs.to_set().contains(x));
                                }
                            }
                            if x < i && unfinished_outputs(jt@).contains(x) {
                                assert(outs.to_set().contains(x));
                                let k = choose|k: int| 0 <= k < outs.len() && outs[k] == x;
                                assert(grown[k] == x);
                            }
                            if x == i {
                                assert(grown[outs.len() as int] == x);
                            }
                        }
                        outs = grown;
                    }
                }
                i = i + 1;
            }
            proof {
                assert(outs.to_set() =~= unfinished_outputs(j0));
                lemma_ascending_of(outs);
                assert(task_views(tasks@) =~= s0.stage_tasks(ctx, j0, stage_id, first));
                assert forall|k: int| 0 <= k < task_views(tasks@).len() implies self.task_ok(
                    j0,
                    #[trigger] task_views(tasks@)[k],
                ) by {
                    assert(task_views(tasks@)[k] == tasks@[k]@);
                    assert(outs[k] < i);
                }
            }
        } else {
            let ghost mut parts: Seq<usize> = Seq::empty();
            let n = self.fetch_from_stage_cache(stage_id).num_partitions;
            let rdd = self.fetch_from_stage_cache(stage_id).rdd;
            let dep = match self.fetch_from_stage_cache(stage_id).shuffle_dependency {
                Some(dep) => dep,
                None => vstd::pervasive::unreached(),
            };
            let mut p: usize = 0;
            while p < n
                invariant
                    ctx.wf(),
                    ctx.pins_valid(),
                    *jt == *old(jt),
                    s0.has_stage(stage_id),
                    s0.stage(stage_id).wf(),
                    n == s0.stage(stage_id).num_partitions,
                    n == ctx.rdds@[rdd as int].num_splits,
                    rdd == s0.stage(stage_id).rdd,
                    rdd < ctx.rdds@.len(),
                    Some(dep) == s0.stage(stage_id).shuffle_dependency,
                    s0 == *self,
                    *next_task_id == nth_id(first, tasks@.len()),
                    p <= n,
                    tasks@.len() == parts.len(),
                    ids@.len() == parts.len(),
                    strictly_increasing(parts),
                    forall|k: int| 0 <= k < parts.len() ==> parts[k] < p,
                    forall|x: usize|
                        parts.to_set().contains(x) <==> x < p && s0.missing_partitions(
                            stage_id,
                        ).contains(x),
                    forall|k: int| 0 <= k < ids@.len() ==> ids@[k] == nth_id(first, k as nat),
                    forall|k: int|
                        0 <= k < tasks@.len() ==> (#[trigger] tasks@[k])@ == (TaskView {
                            task_id: nth_id(first, k as nat),
                            run_id: jt.run_id,
                            stage_id,
                            rdd,
                            partition: parts[k],
                            locs: s0.locs_of(ctx, rdd, parts[k]),
                            output_id: None,
                            dep: Some(dep),
                        }),
                decreases n - p,
            {
                assert(s0.stage(stage_id).locs().len() == n);
                if self.fetch_from_stage_cache(stage_id).is_missing(p) {
                    proof {
                        self.lemma_locs_ok(ctx, rdd, p);
                    }
                    let locs = match self.get_preferred_locs(ctx, rdd, p) {
                        Ok(locs) => locs,
                        Err(_) => vstd::pervasive::unreached(),
                    };
                    let task_id = *next_task_id;
                    *next_task_id = if task_id == usize::MAX { 0 } else { task_id + 1 };
                    let task = ShuffleMapTask::new(task_id, jt.run_id, stage_id, rdd, dep, p, locs);
                    tasks.push(TaskOption::ShuffleMapTask(task));
                    ids.push(task_id);
                    proof {
                        let grown = parts.push(p);
                        assert forall|x: usize| grown.to_set().contains(x) <==> x < p + 1
                            && s0.missing_partitions(stage_id).contains(x) by {
                            if grown.to_set().contains(x) {
                                let k = choose|k: int| 0 <= k < grown.len() && grown[k] == x;
                                if k < parts.len() {
                                    assert(parts.to_set().contains(x));
                                }
                            }
                            if x < p && s0.missing_partitions(stage_id).contains(x) {
                                assert(parts.to_set().contains(x));
                                let k = choose|k: int| 0 <= k < parts.len() && parts[k] == x;
                                assert(grown[k] == x);
                            }
                            if x == p {
                                assert(grown[parts.len() as int] == x);
                            }
                        }
                        parts = grown;
                    }
                }
                p = p + 1;
            }
            proof {
                assert(parts.to_set() =~= s0.missing_partitions(stage_id));
                lemma_ascending_of(parts);
                assert(task_views(tasks@) =~= s0.stage_tasks(ctx, j0, stage_id, first));
                assert forall|k: int| 0 <= k < task_views(tasks@).len() implies self.task_ok(
                    j0,
                    #[trigger] task_views(tasks@)[k],
                ) by {
                    assert(task_views(tasks@)[k] == tasks@[k]@);
                    assert(parts[k] < p);
                }
            }
        }
        proof {
            assert(ids@.to_set() =~= id_run(first, tasks@.len() as nat)) by {
                assert forall|x: usize| ids@.to_set().contains(x) <==> id_run(
                    first,
                    tasks@.len() as nat,
                ).contains(x) by {
                    if ids@.to_set().contains(x) {
                        let k = choose|k: int| 0 <= k < ids@.len() && ids@[k] == x;
                        assert(x == nth_id(first, k as nat));
                    }
                    if id_run(first, tasks@.len() as nat).contains(x) {
                        let k = choose|k: nat| k < tasks@.len() && x == #[trigger] nth_id(first, k);
                        assert(ids@[k as int] == x);
                    }
                }
            }
        }
        jt.add_pending(stage_id, &ids);
        tasks
    }

    /// The stages that must be computed before stage `stage_id`, in ascending
    /// order of id.
    pub open spec fn missing_parents_seq(&self, ctx: &Context, stage_id: usize) -> Seq<usize> {
        ascending(self.missing_parent_stages(ctx, self.stage(stage_id).rdd))
    }

    /// What handing out the tasks of stage `stage_id` does to the job `jt` and to
    /// the counter of task ids.
    pub open spec fn launch_effect(
        &self,
        ctx: &Context,
        jt: JobView,
        next_task_id: usize,
        stage_id: usize,
    ) -> SubmitEffect {
        let tasks = self.stage_tasks(ctx, jt, stage_id, next_task_id);
        SubmitEffect {
            jt: jt.with_pending(stage_id, id_run(next_task_id, tasks.len())),
            next_task_id: nth_id(next_task_id, tasks.len()),
            tasks,
        }
    }

    /// What submitting stage `stage_id` does.
    ///
    /// A stage that is waiting or running is left alone.  A stage without
    /// missing parents has its tasks handed out and becomes running.  Otherwise
    /// its missing parents are submitted first, in ascending order of id, and
    /// the stage becomes waiting.
    pub open spec fn submit_effect(
        &self,
        ctx: &Context,
        jt: JobView,
        next_task_id: usize,
        stage_id: usize,
    ) -> SubmitEffect
        decreases self.stage(stage_id).rdd, 1nat, 0nat,
    {
        if jt.waiting.contains(stage_id) || jt.running.contains(stage_id) {
            SubmitEffect { jt, next_task_id, tasks: Seq::empty() }
        } else {
            let missing = self.missing_parents_seq(ctx, stage_id);
            if missing.len() == 0 {
                let e = self.launch_effect(ctx, jt, next_task_id, stage_id);
                SubmitEffect { jt: e.jt.with_running(stage_id), ..e }
            } else {
                let e = self.submit_all_effect(ctx, jt, next_task_id, stage_id, missing, 0);
                SubmitEffect { jt: e.jt.with_waiting(stage_id), ..e }
            }
        }
    }

    /// What submitting the stages `stages`, from the `i`-th on, does; they are
    /// parents of stage `child`.
    pub open spec fn submit_all_effect(
        &self,
        ctx: &Context,
        jt: JobView,
        next_task_id: usize,
        child: usize,
        stages: Seq<usize>,
        i: int,
    ) -> SubmitEffect
        decreases self.stage(child).rdd, 0nat, stages.len() - i,
    {
        if i < 0 || i >= stages.len() {
            SubmitEffect { jt, next_task_id, tasks: Seq::empty() }
        } else if self.stage(stages[i]).rdd < self.stage(child).rdd {
            let e1 = self.submit_effect(ctx, jt, next_task_id, stages[i]);
            let e2 = self.submit_all_effect(ctx, e1.jt, e1.next_task_id, child, stages, i + 1);
            SubmitEffect { jt: e2.jt, next_task_id: e2.next_task_id, tasks: e1.tasks + e2.tasks }
        } else {
            self.submit_all_effect(ctx, jt, next_task_id, child, stages, i + 1)
        }
    }

    /// Stage `s` has become waiting or running between `before` and `after`.
    pub open spec fn newly_active(before: JobView, after: JobView, s: usize) -> bool {
        (after.waiting.contains(s) && !before.waiting.contains(s)) || (after.running.contains(s)
            && !before.running.contains(s))
    }

    /// The job has only gained waiting and running stages since `before`, all of
    /// them submittable and computing a dataset below `bound`; its results and
    /// its failed stages are as they were.
    pub open spec fn job_advanced(&self, before: JobView, after: JobView, bound: int) -> bool {
        &&& before.waiting.subset_of(after.waiting)
        &&& before.running.subset_of(after.running)
        &&& after.failed == before.failed
        &&& after.finished == before.finished
        &&& after.output_parts == before.output_parts
        &&& after.num_output_parts == before.num_output_parts
        &&& after.final_stage == before.final_stage
        &&& after.final_rdd == before.final_rdd
        &&& after.run_id == before.run_id
        &&& forall|s: usize|
            #![trigger after.waiting.contains(s)]
            #![trigger after.running.contains(s)]
            Self::newly_active(before, after, s) ==> self.submittable(after, s) && self.stage(
                s,
            ).rdd < bound
    }

    /// Submits stage `stage_id` for job `jt` and returns the tasks to dispatch;
    /// see [`DagScheduler::submit_effect`].
    pub fn submit_stage(&mut self, ctx: &Context, stage_id: usize, jt: &mut JobTracker) -> (tasks:
        Vec<TaskOption>)
        requires
            old(self).wf(ctx),
            ctx.pins_valid(),
            old(jt).wf(),
            old(self).job_ok(ctx, old(jt)@),
            old(self).submittable(old(jt)@, stage_id),
        ensures
            task_views(tasks@) == old(self).submit_effect(
                ctx,
                old(jt)@,
                old(self).next_task_id,
                stage_id,
            ).tasks,
            final(jt)@ == old(self).submit_effect(
                ctx,
                old(jt)@,
                old(self).next_task_id,
                stage_id,
            ).jt,
            *final(self) == (DagScheduler {
                next_task_id: old(self).submit_effect(
                    ctx,
                    old(jt)@,
                    old(self).next_task_id,
                    stage_id,
                ).next_task_id,
                ..*old(self)
            }),
            final(jt).wf(),
            final(self).job_ok(ctx, final(jt)@),
            final(jt)@.waiting.contains(stage_id) || final(jt)@.running.contains(stage_id),
            final(self).tasks_ok(final(jt)@, task_views(tasks@)),
            final(self).wf(ctx),
            final(self).job_advanced(old(jt)@, final(jt)@, old(self).stage(stage_id).rdd + 1),
    {
        let mut next_task_id = self.next_task_id;
        let tasks = self.submit_stage_with(ctx, stage_id, jt, &mut next_task_id);
        self.next_task_id = next_task_id;
        proof {
            self.lemma_task_counter_irrelevant(old(self), ctx, old(jt)@, jt@, task_views(tasks@));
            assert forall|s: usize|
                #![trigger jt@.waiting.contains(s)]
                #![trigger jt@.running.contains(s)]
                Self::newly_active(old(jt)@, jt@, s) implies self.submittable(jt@, s) && self.stage(
                s,
            ).rdd < old(self).stage(stage_id).rdd + 1 by {
                assert(old(self).submittable(jt@, s));
            }
        }
        tasks
    }

    /// Nothing but the numbering of tasks depends on the counter of task ids.
    pub proof fn lemma_task_counter_irrelevant(
        &self,
        before: &Self,
        ctx: &Context,
        old_jt: JobView,
        jt: JobView,
        tasks: Seq<TaskView>,
    )
        requires
            before.wf(ctx),
            before.job_ok(ctx, jt),
            before.tasks_ok(old_jt, tasks),
            old_jt.output_parts == jt.output_parts,
            old_jt.final_stage == jt.final_stage,
            *self == (DagScheduler { next_task_id: self.next_task_id, ..*before }),
        ensures
            self.wf(ctx),
            self.job_ok(ctx, jt),
            self.tasks_ok(jt, tasks),
    {
        assert(self.reshaped(before, 0)) by {
            if before.has_stage(0) {
                assert(crate::events::same_shape(before.stage(0), self.stage(0)));
            }
        }
        self.lemma_tracker_kept(before, ctx);
        self.lemma_reshaped_consistent(before, ctx, 0);
        self.lemma_reshaped_job_ok(before, ctx, 0, jt);
        assert forall|k: int| 0 <= k < tasks.len() implies self.task_ok(jt, #[trigger] tasks[k]) by {
            assert(before.task_ok(old_jt, tasks[k]));
        }
    }

    /// Does the work of [`DagScheduler::submit_stage`] with the counter of task
    /// ids held by the caller.
    fn submit_stage_with(
        &self,
        ctx: &Context,
        stage_id: usize,
        jt: &mut JobTracker,
        next_task_id: &mut usize,
    ) -> (tasks: Vec<TaskOption>)
        requires
            self.wf(ctx),
            ctx.pins_valid(),
            old(jt).wf(),
            self.job_ok(ctx, old(jt)@),
            self.submittable(old(jt)@, stage_id),
        ensures
            task_views(tasks@) == self.submit_effect(
                ctx,
                old(jt)@,
                *old(next_task_id),
                stage_id,
            ).tasks,
            final(jt)@ == self.submit_effect(ctx, old(jt)@, *old(next_task_id), stage_id).jt,
            *final(next_task_id) == self.submit_effect(
                ctx,
                old(jt)@,
                *old(next_task_id),
                stage_id,
            ).next_task_id,
            final(jt).wf(),
            self.job_ok(ctx, final(jt)@),
            self.job_advanced(old(jt)@, final(jt)@, self.stage(stage_id).rdd + 1),
            final(jt)@.waiting.contains(stage_id) || final(jt)@.running.contains(stage_id),
            self.tasks_ok(old(jt)@, task_views(tasks@)),
        decreases self.stage(stage_id).rdd,
    {
        let ghost j0 = jt@;
        let ghost first = *next_task_id;
        if jt.waiting.contains(stage_id) || jt.running.contains(stage_id) {
            let tasks: Vec<TaskOption> = Vec::new();
            assert(task_views(tasks@) =~= Seq::<TaskView>::empty());
            return tasks;
        }
        let missing = self.get_missing_parent_stages(ctx, stage_id);
        proof {
            lemma_ascending_of(missing@);
            assert(missing@ == self.missing_parents_seq(ctx, stage_id));
        }
        if missing.len() == 0 {
            let tasks = self.launch_tasks(ctx, stage_id, jt, next_task_id);
            jt.running.insert(stage_id);
            proof {
                let e = self.launch_effect(ctx, j0, first, stage_id);
                assert(jt@.pending_tasks =~= e.jt.with_running(stage_id).pending_tasks);
                assert(jt@ == e.jt.with_running(stage_id));
                assert forall|k: usize| #[trigger]
                    jt.pending_tasks@.contains_key(k) implies jt.pending_tasks@[k].wf() by {}
                let j1 = e.jt;
                assert forall|s: usize| #[trigger] jt@.waiting.contains(s) implies self.submittable(
                    jt@,
                    s,
                ) by {
                    assert(j0.waiting.contains(s));
                    assert(self.submittable(j0, s));
                }
                assert forall|s: usize|
                    #![trigger jt@.waiting.contains(s)]
                    #![trigger jt@.running.contains(s)]
                    Self::newly_active(j0, jt@, s) implies self.submittable(jt@, s) && self.stage(
                    s,
                ).rdd < self.stage(stage_id).rdd + 1 by {
                    assert(s == stage_id);
                }
            }
            tasks
        } else {
            let mut tasks: Vec<TaskOption> = Vec::new();
            let mut i: usize = 0;
            let ghost rdd = self.stage(stage_id).rdd;
            proof {
                assert(task_views(tasks@) =~= Seq::<TaskView>::empty());
                let e = self.submit_all_effect(ctx, j0, first, stage_id, missing@, missing@.len() as int);
                assert(Seq::<TaskView>::empty() + e.tasks =~= e.tasks);
            }
            while i < missing.len()
                invariant
                    self.wf(ctx),
                    ctx.pins_valid(),
                    jt.wf(),
                    self.job_ok(ctx, jt@),
                    self.has_stage(stage_id),
                    rdd == self.stage(stage_id).rdd,
                    i <= missing@.len(),
                    forall|k: int|
                        0 <= k < missing@.len() ==> self.has_stage(#[trigger] missing@[k])
                            && self.stage(missing@[k]).rdd < rdd && self.stage(
                            missing@[k],
                        ).shuffle_dependency is Some,
                    self.job_advanced(j0, jt@, rdd as int),
                    self.tasks_ok(j0, task_views(tasks@)),
                    ({
                        let rest = self.submit_all_effect(
                            ctx,
                            jt@,
                            *next_task_id,
                            stage_id,
                            missing@,
                            i as int,
                        );
                        let all = self.submit_all_effect(ctx, j0, first, stage_id, missing@, 0);
                        &&& all.jt == rest.jt
                        &&& all.next_task_id == rest.next_task_id
                        &&& all.tasks == task_views(tasks@) + rest.tasks
                    }),
                decreases missing@.len() - i,
            {
                let ghost j1 = jt@;
                let ghost n1 = *next_task_id;
                let ghost t1 = task_views(tasks@);
                let mut more = self.submit_stage_with(ctx, missing[i], jt, next_task_id);
                let ghost t2 = task_views(more@);
                tasks.append(&mut more);
                proof {
                    assert(task_views(tasks@) =~= t1 + t2);
                    assert forall|k: int| 0 <= k < (t1 + t2).len() implies self.task_ok(
                        j0,
                        #[trigger] (t1 + t2)[k],
                    ) by {
                        if k < t1.len() {
                            assert(self.task_ok(j0, t1[k]));
                        } else {
                            assert(self.task_ok(j1, t2[k - t1.len()]));
                        }
                    }
                    let e1 = self.submit_effect(ctx, j1, n1, missing@[i as int]);
                    let e2 = self.submit_all_effect(
                        ctx,
                        e1.jt,
                        e1.next_task_id,
                        stage_id,
                        missing@,
                        i + 1,
                    );
                    assert((t1 + t2) + e2.tasks =~= t1 + (t2 + e2.tasks));
                    assert forall|s: usize|
                        #![trigger jt@.waiting.contains(s)]
                        #![trigger jt@.running.contains(s)]
                        Self::newly_active(j0, jt@, s) implies self.submittable(jt@, s)
                        && self.stage(s).rdd < rdd by {
                        if Self::newly_active(j0, j1, s) {
                            assert(self.submittable(j1, s));
                        } else {
                            assert(Self::newly_active(j1, jt@, s));
                        }
                    }
                }
                i = i + 1;
            }
            let ghost j2 = jt@;
            proof {
                if jt@.waiting.contains(stage_id) {
                    assert(Self::newly_active(j0, jt@, stage_id));
                }
                if jt@.running.contains(stage_id) {
                    assert(Self::newly_active(j0, jt@, stage_id));
                }
            }
            jt.waiting.insert(stage_id);
            proof {
                let e = self.submit_all_effect(ctx, j0, first, stage_id, missing@, 0);
                let rest = self.submit_all_effect(
                    ctx,
                    e.jt,
                    e.next_task_id,
                    stage_id,
                    missing@,
                    missing@.len() as int,
                );
                assert(task_views(tasks@) + Seq::<TaskView>::empty() =~= task_views(tasks@));
                assert(jt@.pending_tasks =~= e.jt.with_waiting(stage_id).pending_tasks);
                assert(jt@ == e.jt.with_waiting(stage_id));
                assert forall|s: usize| #[trigger] jt@.waiting.contains(s) implies self.submittable(
                    jt@,
                    s,
                ) by {
                    if s != stage_id {
                        assert(j2.waiting.contains(s));
                        assert(self.submittable(j2, s));
                    }
                }
                assert forall|s: usize|
                    #![trigger jt@.waiting.contains(s)]
                    #![trigger jt@.running.contains(s)]
                    Self::newly_active(j0, jt@, s) implies self.submittable(jt@, s) && self.stage(
                    s,
                ).rdd < rdd + 1 by {
                    if s != stage_id {
                        assert(Self::newly_active(j0, j2, s));
                        assert(self.submittable(j2, s));
                    }
                }
            }
            tasks
        }
    }

    /// What submitting the stages `stages`, from the `i`-th on and in their
    /// order, does.
    pub open spec fn resubmit_effect(
        &self,
        ctx: &Context,
        jt: JobView,
        next_task_id: usize,
        stages: Seq<usize>,
        i: int,
    ) -> SubmitEffect
        decreases stages.len() - i,
    {
        if i < 0 || i >= stages.len() {
            SubmitEffect { jt, next_task_id, tasks: Seq::empty() }
        } else {
            let e1 = self.submit_effect(ctx, jt, next_task_id, stages[i]);
            let e2 = self.resubmit_effect(ctx, e1.jt, e1.next_task_id, stages, i + 1);
            SubmitEffect { jt: e2.jt, next_task_id: e2.next_task_id, tasks: e1.tasks + e2.tasks }
        }
    }

    /// Submits the failed stages of job `jt` again, in ascending order of id,
    /// and returns the tasks to dispatch.  No stage counts as failed
    /// afterwards.  A stage that lost output gets tasks for the partitions that
    /// are without output, and for no others.
    pub fn resubmit_failed_stages(&mut self, ctx: &Context, jt: &mut JobTracker) -> (tasks: Vec<
        TaskOption,
    >)
        requires
            old(self).wf(ctx),
            ctx.pins_valid(),
            old(jt).wf(),
            old(self).job_ok(ctx, old(jt)@),
        ensures
            ({
                let e = old(self).resubmit_effect(
                    ctx,
                    JobView { failed: Set::empty(), ..old(jt)@ },
                    old(self).next_task_id,
                    ascending(old(jt)@.failed),
                    0,
                );
                &&& task_views(tasks@) == e.tasks
                &&& final(jt)@ == e.jt
                &&& *final(self) == (DagScheduler { next_task_id: e.next_task_id, ..*old(self) })
            }),
            final(self).wf(ctx),
            final(jt).wf(),
            final(self).job_ok(ctx, final(jt)@),
            final(self).tasks_ok(final(jt)@, task_views(tasks@)),
            final(jt)@.failed == Set::<usize>::empty(),
    {
        let ghost s0 = *self;
        let ghost j_old = jt@;
        let failed = jt.failed.to_vec();
        jt.failed = crate::ids::IdSet::new();
        let ghost j0 = jt@;
        let ghost first = self.next_task_id;
        let mut next_task_id = self.next_task_id;
        let mut tasks: Vec<TaskOption> = Vec::new();
        let mut i: usize = 0;
        proof {
            assert(j0.pending_tasks =~= j_old.pending_tasks);
            assert(j0 == (JobView { failed: Set::empty(), ..j_old }));
            assert(task_views(tasks@) =~= Seq::<TaskView>::empty());
            let all = self.resubmit_effect(ctx, j0, first, failed@, 0);
            assert(Seq::<TaskView>::empty() + all.tasks =~= all.tasks);
            assert forall|s: usize| #[trigger] j0.waiting.contains(s) implies self.submittable(
                j0,
                s,
            ) by {
                assert(self.submittable(j_old, s));
            }
            assert forall|k: int| 0 <= k < failed@.len() implies self.submittable(
                j0,
                #[trigger] failed@[k],
            ) by {
                assert(jt.failed.ids@.len() == 0);
                assert(failed@.to_set().contains(failed@[k]));
                assert(self.submittable(j_old, failed@[k]));
            }
        }
        while i < failed.len()
            invariant
                *self == s0,
                self.wf(ctx),
                ctx.pins_valid(),
                jt.wf(),
                self.job_ok(ctx, jt@),
                i <= failed@.len(),
                forall|k: int| 0 <= k < failed@.len() ==> self.submittable(j0, #[trigger] failed@[k]),
                jt@.final_stage == j0.final_stage,
                jt@.output_parts == j0.output_parts,
                jt@.failed == Set::<usize>::empty(),
                self.tasks_ok(j0, task_views(tasks@)),
                ({
                    let rest = self.resubmit_effect(ctx, jt@, next_task_id, failed@, i as int);
                    let all = self.resubmit_effect(ctx, j0, first, failed@, 0);
                    &&& all.jt == rest.jt
                    &&& all.next_task_id == rest.next_task_id
                    &&& all.tasks == task_views(tasks@) + rest.tasks
                }),
            decreases failed@.len() - i,
        {
            let ghost j1 = jt@;
            let ghost n1 = next_task_id;
            let ghost t1 = task_views(tasks@);
            proof {
                assert(self.submittable(j0, failed@[i as int]));
            }
            let mut more = self.submit_stage_with(ctx, failed[i], jt, &mut next_task_id);
            let ghost t2 = task_views(more@);
            tasks.append(&mut more);
            proof {
                assert(task_views(tasks@) =~= t1 + t2);
                assert forall|k: int| 0 <= k < (t1 + t2).len() implies self.task_ok(
                    j0,
                    #[trigger] (t1 + t2)[k],
                ) by {
                    if k < t1.len() {
                        assert(self.task_ok(j0, t1[k]));
                    } else {
                        assert(self.task_ok(j1, t2[k - t1.len()]));
                    }
                }
                let e1 = self.submit_effect(ctx, j1, n1, failed@[i as int]);
                let e2 = self.resubmit_effect(ctx, e1.jt, e1.next_task_id, failed@, i + 1);
                assert((t1 + t2) + e2.tasks =~= t1 + (t2 + e2.tasks));
            }
            i = i + 1;
        }
        proof {
            assert(task_views(tasks@) + Seq::<TaskView>::empty() =~= task_views(tasks@));
        }
        self.next_task_id = next_task_id;
        proof {
            self.lemma_task_counter_irrelevant(&s0, ctx, j0, jt@, task_views(tasks@));
        }
        tasks
    }
}

} // verus!
