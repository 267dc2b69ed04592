//! A scheduler that runs every task in the caller's own process, one after the
//! other, and feeds each completion back at once.

use crate::context::Context;
use crate::error::SchedulerError;
use crate::job::JobView;
use crate::progress::{
    count_false, lemma_count_false_all, lemma_count_false_set, lemma_count_false_zero, numbered,
};
use crate::scheduler::{job_results, DagScheduler, Scheduler};
use crate::submit::{next_id, task_views};
use crate::task::{CompletionEvent, ShuffleMapTask, TaskContext, TaskOption, TaskView};
use vstd::pervasive::unreached;
use vstd::prelude::*;

verus! {

/// A scheduler without executors.  Result tasks are run by the job's own
/// closure; shuffle-map tasks are run by `run_map_task`, which computes the map
/// side of the task and answers where its output can be fetched.
pub struct LocalScheduler<M> {
    pub dag: DagScheduler,
    pub run_map_task: M,
}

/// The slots `results` that are filled hold what `func` makes of the
/// partitions `parts`, computed in stage `stage_id`.
pub open spec fn filled_by<U, F: Fn(TaskContext) -> U>(
    func: F,
    stage_id: usize,
    parts: Seq<usize>,
    results: Seq<Option<U>>,
) -> bool {
    &&& results.len() == parts.len()
    &&& forall|i: int|
        0 <= i < results.len() ==> ((#[trigger] results[i]) matches Some(v) ==> func.ensures(
            (TaskContext { stage_id, split_id: parts[i], attempt_id: 0 },),
            v,
        ))
}

/// Takes the results out of their slots, if every slot is filled.
pub fn collect_results<U>(results: Vec<Option<U>>) -> (r: Option<Vec<U>>)
    ensures
        r is Some <==> forall|i: int| 0 <= i < results@.len() ==> (#[trigger] results@[i]) is Some,
        r matches Some(v) ==> v@.len() == results@.len() && forall|i: int|
            0 <= i < v@.len() ==> results@[i] == Some(#[trigger] v@[i]),
{
    let ghost all = results@;
    let mut slots = results;
    let mut reversed: Vec<U> = Vec::new();
    while slots.len() > 0
        invariant
            all == results@,
            slots@.len() <= all.len(),
            slots@ == all.subrange(0, slots@.len() as int),
            reversed@.len() == all.len() - slots@.len(),
            forall|j: int|
                0 <= j < reversed@.len() ==> all[all.len() - 1 - j] == Some(#[trigger] reversed@[j]),
        decreases slots@.len(),
    {
        let ghost n = slots@.len();
        match slots.pop() {
            Some(Some(v)) => {
                assert(all[n - 1] == Some(v));
                reversed.push(v);
            },
            Some(None) => {
                assert(results@[n - 1] is None);
                return None;
            },
            None => {},
        }
    }
    let mut out: Vec<U> = Vec::new();
    while reversed.len() > 0
        invariant
            all == results@,
            reversed@.len() <= all.len(),
            out@.len() == all.len() - reversed@.len(),
            forall|j: int|
                0 <= j < reversed@.len() ==> all[all.len() - 1 - j] == Some(#[trigger] reversed@[j]),
            forall|i: int| 0 <= i < out@.len() ==> all[i] == Some(#[trigger] out@[i]),
        decreases reversed@.len(),
    {
        match reversed.pop() {
            Some(v) => {
                out.push(v);
            },
            None => {},
        }
    }
    proof {
        assert forall|i: int| 0 <= i < all.len() implies (#[trigger] all[i]) is Some by {
            assert(all[i] == Some(out@[i]));
        }
    }
    Some(out)
}

/// The parallelism to use with `threads` worker threads: their number, as far
/// as an `i32` can count them.
pub open spec fn parallelism_of(threads: usize) -> int {
    if threads > 0x7fff_ffff {
        0x7fff_ffff
    } else {
        threads as int
    }
}

/// The parallelism to use with `threads` worker threads.
pub fn parallelism_for(threads: usize) -> (n: i64)
    ensures
        n == parallelism_of(threads),
{
    if threads > 0x7fff_ffff {
        0x7fff_ffff
    } else {
        threads as i64
    }
}

impl<M: Fn(&ShuffleMapTask) -> String> LocalScheduler<M> {
    /// The scheduler is ready for the lineage graph `ctx` when its stages fit
    /// the graph and its shuffle-map tasks can be run.
    pub proof fn lemma_ready(&self, ctx: &Context)
        ensures
            self.wf(ctx) <==> self.dag.wf(ctx) && forall|t: &ShuffleMapTask|
                self.run_map_task.requires((t,)),
    {
    }

    /// A scheduler without stages.
    pub fn new(run_map_task: M) -> (s: Self)
        ensures
            s.dag.next_job_id == 0,
            s.dag.next_stage_id == 0,
            s.dag.next_task_id == 0,
            s.dag.stage_cache@ == Map::<usize, crate::stage::Stage>::empty(),
            s.dag.shuffle_to_map_stage@ == Map::<usize, usize>::empty(),
            s.run_map_task == run_map_task,
            forall|ctx: &Context| ctx.wf() ==> #[trigger] s.dag.wf(ctx),
            forall|ctx: &Context|
                ctx.wf() && (forall|t: &ShuffleMapTask| run_map_task.requires((t,))) ==> #[trigger] s.wf(
                    ctx,
                ),
    {
        LocalScheduler { dag: DagScheduler::new(), run_map_task }
    }
}

impl<M: Fn(&ShuffleMapTask) -> String> Scheduler for LocalScheduler<M> {
    open spec fn wf(&self, ctx: &Context) -> bool {
        &&& self.dag.wf(ctx)
        &&& forall|t: &ShuffleMapTask| self.run_map_task.requires((t,))
    }

    open spec fn next_final_stage(&self) -> usize {
        self.dag.next_stage_id
    }

    /// There is nothing to start.
    fn start(&self) {
    }

    /// There are no executors to wait for.
    fn wait_for_register(&self) {
    }

    /// Runs a job in the caller's process.
    ///
    /// The job is refused, and the scheduler left as it was, if the dataset or
    /// one of the partitions does not exist, if a pinned dataset does not name
    /// exactly one location for each partition, or if no stage id is left.
    /// Every other job succeeds: the stages are built and the tasks are run in
    /// the order in which they were handed out, each completion being taken in
    /// before the next task runs.  As long as a result is missing a task waits
    /// to be run, and each task that is run leaves less to do, so the results
    /// are returned after as many tasks as there were partitions without
    /// output and partitions asked for.  A job that asks for a partition leaves
    /// every stage that its dataset reads with all its output.
    fn run_job<U, F>(
        &mut self,
        ctx: &Context,
        rdd: usize,
        func: F,
        partitions: Vec<usize>,
        allow_local: bool,
    ) -> (r: Result<Vec<U>, SchedulerError>) where F: Fn(TaskContext) -> U
        ensures
            r is Ok <==> old(self).dag.admits_job(ctx, rdd, partitions@),
            r is Ok && partitions@.len() > 0 ==> final(self).dag.inputs_available(ctx, rdd),
            r is Err ==> *final(self) == *old(self),
            rdd >= ctx.rdds@.len() ==> r == Err::<Vec<U>, SchedulerError>(
                SchedulerError::UnknownDataset { rdd },
            ),
            rdd < ctx.rdds@.len() && !ctx.has_partitions(rdd, partitions@) ==> (r matches Err(
                SchedulerError::InvalidPartition { rdd: d, partition },
            ) && d == rdd && ctx.first_bad_partition(rdd, partitions@, partition)),
            rdd < ctx.rdds@.len() && ctx.has_partitions(rdd, partitions@) && !ctx.pins_valid() ==> (
            r matches Err(SchedulerError::PinnedLocations { rdd: d, partition, found })
                && ctx.first_bad_pin(d, partition, found)),
            rdd < ctx.rdds@.len() && ctx.has_partitions(rdd, partitions@) && ctx.pins_valid() && !old(
                self,
            ).dag.room_for_job(ctx) ==> r == Err::<Vec<U>, SchedulerError>(
                SchedulerError::OutOfStageIds,
            ),
    {
        if rdd >= ctx.num_rdds() {
            return Err(SchedulerError::UnknownDataset { rdd });
        }
        match ctx.find_bad_partition(rdd, &partitions) {
            Some(partition) => {
                return Err(SchedulerError::InvalidPartition { rdd, partition });
            },
            None => {},
        }
        match ctx.find_bad_pin() {
            Some((bad, partition, found)) => {
                return Err(SchedulerError::PinnedLocations { rdd: bad, partition, found });
            },
            None => {},
        }
        if !self.dag.has_room_for_job(ctx) {
            return Err(SchedulerError::OutOfStageIds);
        }
        let ghost parts = partitions@;
        let ghost stage_id = self.dag.next_stage_id;
        let mut jt = self.dag.new_job(ctx, rdd, partitions);
        assert(jt@.output_parts == parts);
        if allow_local {
            match self.dag.local_execution(&jt, &func) {
                Some(v) => {
                    proof {
                        assert(v@.len() == 1);
                        assert(parts.len() == 1);
                        assert(func.ensures(
                            (TaskContext { stage_id, split_id: parts[0], attempt_id: 0 },),
                            v@[0],
                        ));
                        assert(job_results(func, stage_id, partitions@, v@));
                        assert(self.dag.stage_ok(ctx, jt@.final_stage));
                        self.dag.lemma_no_parents_no_inputs(ctx, jt@.final_stage);
                    }
                    return Ok(v);
                },
                None => {},
            }
        }
        let n = jt.num_output_parts;
        let mut results: Vec<Option<U>> = Vec::new();
        let mut i: usize = 0;
        while i < n
            invariant
                i <= n,
                results@.len() == i,
                forall|j: int| 0 <= j < i ==> (#[trigger] results@[j]) is None,
            decreases n - i,
        {
            results.push(None);
            i = i + 1;
        }
        let mut num_finished: usize = 0;
        let final_stage = jt.final_stage;
        let ghost built = self.dag;
        self.dag.update_cache_locs();
        proof {
            self.dag.lemma_reshaped_consistent(&built, ctx, final_stage);
            self.dag.lemma_reshaped_job_ok(&built, ctx, final_stage, jt@);
            self.dag.lemma_fresh_job(ctx, jt@);
            lemma_count_false_all(jt@.finished, n as nat);
        }
        let ghost base = self.dag.next_task_id;
        let ghost fresh = self.dag;
        let ghost j0 = jt@;
        let mut queue = self.dag.submit_stage(ctx, final_stage, &mut jt);
        proof {
            assert(numbered(Seq::<TaskView>::empty(), base, base));
            fresh.lemma_submit(ctx, j0, Seq::empty(), base, base, final_stage);
            assert(Seq::<TaskView>::empty() + task_views(queue@) =~= task_views(queue@));
            self.dag.lemma_live_ignores_counter(&fresh, ctx, jt@, task_views(queue@));
        }
        while num_finished != n
            invariant
                forall|t: &ShuffleMapTask| self.run_map_task.requires((t,)),
                forall|c: TaskContext| func.requires((c,)),
                ctx.pins_valid(),
                jt.wf(),
                self.dag.wf(ctx),
                self.dag.job_ok(ctx, jt@),
                self.dag.live(ctx, jt@, task_views(queue@), Set::empty()),
                numbered(task_views(queue@), base, self.dag.next_task_id),
                self.dag.tasks_ok(jt@, task_views(queue@)),
                jt@.waiting.contains(stage_id) || jt@.running.contains(stage_id),
                jt@.output_parts == parts,
                jt@.final_stage == stage_id,
                jt@.finished.len() == n,
                n == parts.len(),
                parts == partitions@,
                results@.len() == n,
                filled_by(func, stage_id, parts, results@),
                forall|i: int| 0 <= i < n ==> ((#[trigger] results@[i]) is Some <==> jt@.finished[i]),
                num_finished + count_false(jt@.finished, n as nat) == n,
                num_finished > 0 ==> jt@.running.contains(stage_id),
                jt@.final_rdd == rdd,
                rdd < ctx.rdds@.len(),
                forall|i: int|
                    0 <= i < parts.len() ==> (#[trigger] parts[i]) < ctx.rdds@[rdd as int].num_splits,
                old(self).dag.room_for_job(ctx),
            decreases self.dag.work_left(jt@),
        {
            let ghost q0 = task_views(queue@);
            let ghost j0 = jt@;
            let ghost d0 = self.dag;
            let ghost queue0 = queue@;
            let ghost base0 = base;
            let waiting_tasks = queue.len();
            proof {
                d0.lemma_progress(ctx, j0, q0);
                assert(q0.len() == waiting_tasks);
            }
            let task = queue.remove(0);
            proof {
                assert(d0.task_ok(j0, q0[0]));
                assert(q0[0] == task@);
                assert(task_views(queue@) =~= q0.drop_first());
                base = next_id(base0);
            }
            let ghost q1 = task_views(queue@);
            let mut more = match task {
                TaskOption::ResultTask(t) => {
                    proof {
                        d0.lemma_result_done(
                            ctx,
                            j0,
                            JobView { finished: j0.finished.update(t.output_id as int, true), ..j0 },
                            q0,
                            base0,
                            d0.next_task_id,
                        );
                        lemma_count_false_set(j0.finished, t.output_id as int, n as nat);
                    }
                    let value = func(TaskContext::new(t.stage_id, t.partition, 0));
                    let event = CompletionEvent::ResultTask { task: t, result: value };
                    self.dag.on_event_success(ctx, event, &mut results, &mut num_finished, &mut jt)
                },
                TaskOption::ShuffleMapTask(t) => {
                    proof {
                        d0.lemma_queued_map_task(ctx, j0, q0, 0);
                    }
                    let uri = (self.run_map_task)(&t);
                    let event = CompletionEvent::ShuffleMapTask { task: t, result: uri };
                    let more = self.dag.on_event_success(
                        ctx,
                        event,
                        &mut results,
                        &mut num_finished,
                        &mut jt,
                    );
                    proof {
                        let mid = DagScheduler { next_task_id: d0.next_task_id, ..self.dag };
                        mid.lemma_task_counter_irrelevant(&self.dag, ctx, jt@, jt@, Seq::empty());
                        mid.lemma_map_done(
                            &d0,
                            ctx,
                            j0,
                            jt@,
                            q0,
                            base0,
                            uri@,
                            task_views(more@),
                            self.dag.next_task_id,
                        );
                        self.dag.lemma_live_ignores_counter(
                            &mid,
                            ctx,
                            jt@,
                            q0.drop_first() + task_views(more@),
                        );
                    }
                    more
                },
            };
            let ghost m = task_views(more@);
            queue.append(&mut more);
            proof {
                assert(task_views(queue@) =~= q1 + m);
                assert forall|k: int| 0 <= k < (q1 + m).len() implies self.dag.task_ok(
                    jt@,
                    #[trigger] (q1 + m)[k],
                ) by {
                    if k < q1.len() {
                        let t = q1[k];
                        assert(t == q0[k + 1]);
                        assert(d0.task_ok(j0, t));
                        if t.output_id is None {
                            assert(d0.stage_cache@.dom().contains(t.stage_id));
                            assert(self.dag.stage_cache@.dom().contains(t.stage_id));
                            assert(self.dag.has_stage(t.stage_id));
                        }
                    } else {
                        assert(self.dag.task_ok(jt@, m[k - q1.len()]));
                    }
                }
            }
        }
        proof {
            lemma_count_false_zero(jt@.finished, n as nat);
            if n > 0 {
                self.dag.lemma_running_final_has_inputs(ctx, jt@, task_views(queue@));
            }
        }
        match collect_results(results) {
            Some(v) => {
                proof {
                    assert forall|i: int| 0 <= i < v@.len() implies func.ensures(
                        (TaskContext { stage_id, split_id: parts[i], attempt_id: 0 },),
                        #[trigger] v@[i],
                    ) by {
                        assert(results@[i] == Some(v@[i]));
                    }
                    assert(job_results(func, stage_id, partitions@, v@));
                }
                Ok(v)
            },
            None => unreached(),
        }
    }

    /// There is nothing to stop.
    fn stop(&self) {
    }

    /// The number of worker threads that the machine suggests: the number of
    /// its processors, as far as an `i32` can count them.
    fn default_parallelism(&self) -> (n: i64)
        ensures
            1 <= n <= 0x7fff_ffff,
    {
        parallelism_for(DagScheduler::num_threads())
    }
}

} // verus!
