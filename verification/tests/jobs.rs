use dag_scheduler::context::Context;
use dag_scheduler::job::JobTracker;
use dag_scheduler::partitioner::Partitioner;
use dag_scheduler::rdd::pair_rdd::MappedValuesRdd;
use dag_scheduler::rdd::shuffled_rdd::{Aggregator, ShuffledRdd};
use dag_scheduler::scheduler::DagScheduler;
use dag_scheduler::task::{
    CompletionEvent, FetchFailedVals, ResultTask, ShuffleMapTask, TaskContext, TaskEvent,
    TaskOption,
};

fn reduce(ctx: &mut Context, parent: usize, partitions: usize) -> usize {
    let agg = Aggregator::new(|v: u32| v, |c: u32, v: u32| c + v, |x: u32, y: u32| x + y);
    ShuffledRdd::new(ctx, parent, agg, Partitioner::new(partitions)).get_rdd_id()
}

/// source (2 partitions) -> shuffle 0 -> (2 partitions) -> shuffle 1 -> (2 partitions)
fn chain() -> (Context, usize) {
    let mut ctx = Context::new();
    let a = ctx.parallelize(2);
    let b = reduce(&mut ctx, a, 2);
    let c = reduce(&mut ctx, b, 2);
    (ctx, c)
}

fn map_task(t: &TaskOption) -> ShuffleMapTask {
    match t {
        TaskOption::ShuffleMapTask(t) => ShuffleMapTask::new(
            t.task_id,
            t.run_id,
            t.stage_id,
            t.rdd,
            t.dep,
            t.partition,
            t.locs.clone(),
        ),
        TaskOption::ResultTask(_) => panic!("a result task where a map task was expected"),
    }
}

fn result_task(t: &TaskOption) -> ResultTask {
    match t {
        TaskOption::ResultTask(t) => ResultTask::new(
            t.task_id,
            t.run_id,
            t.stage_id,
            t.rdd,
            t.partition,
            t.locs.clone(),
            t.output_id,
        ),
        TaskOption::ShuffleMapTask(_) => panic!("a map task where a result task was expected"),
    }
}

fn describe(tasks: &[TaskOption]) -> Vec<(usize, usize, usize, Option<usize>)> {
    tasks
        .iter()
        .map(|t| match t {
            TaskOption::ResultTask(t) => (t.task_id, t.stage_id, t.partition, Some(t.output_id)),
            TaskOption::ShuffleMapTask(t) => (t.task_id, t.stage_id, t.partition, None),
        })
        .collect()
}

struct Run {
    ctx: Context,
    sched: DagScheduler,
    jt: JobTracker,
    results: Vec<Option<String>>,
    num_finished: usize,
}

impl Run {
    fn start(ctx: Context, rdd: usize, parts: Vec<usize>) -> (Run, Vec<TaskOption>) {
        let mut sched = DagScheduler::new();
        let n = parts.len();
        let mut jt = sched.new_job(&ctx, rdd, parts);
        let final_stage = jt.final_stage;
        let tasks = sched.submit_stage(&ctx, final_stage, &mut jt);
        (Run { ctx, sched, jt, results: (0..n).map(|_| None).collect(), num_finished: 0 }, tasks)
    }

    fn map_done(&mut self, t: &TaskOption, uri: &str) -> Vec<TaskOption> {
        let event: CompletionEvent<String> =
            CompletionEvent::ShuffleMapTask { task: map_task(t), result: uri.to_string() };
        self.sched.on_event_success(
            &self.ctx,
            event,
            &mut self.results,
            &mut self.num_finished,
            &mut self.jt,
        )
    }

    fn result_done(&mut self, t: &TaskOption, value: &str) -> Vec<TaskOption> {
        let event =
            CompletionEvent::ResultTask { task: result_task(t), result: value.to_string() };
        self.sched.on_event_success(
            &self.ctx,
            event,
            &mut self.results,
            &mut self.num_finished,
            &mut self.jt,
        )
    }
}

#[test]
fn a_new_job_has_a_final_stage_and_nothing_else() {
    let (ctx, c) = chain();
    let mut sched = DagScheduler::new();
    sched.next_job_id = 7;
    let jt = sched.new_job(&ctx, c, vec![1, 0]);
    assert_eq!(jt.run_id, 7);
    assert_eq!(sched.next_job_id, 8);
    assert_eq!(jt.final_stage, 0);
    assert_eq!(jt.final_rdd, c);
    assert_eq!(jt.output_parts, vec![1, 0]);
    assert_eq!(jt.num_output_parts, 2);
    assert_eq!(jt.finished, vec![false, false]);
    assert!(jt.waiting.is_empty() && jt.running.is_empty() && jt.failed.is_empty());
    assert!(jt.pending_tasks.is_empty());
    assert_eq!(sched.stage_cache.len(), 3);
}

#[test]
fn job_ids_wrap_around() {
    let mut sched = DagScheduler::new();
    sched.next_job_id = usize::MAX;
    assert_eq!(sched.get_next_job_id(), usize::MAX);
    assert_eq!(sched.get_next_job_id(), 0);
    sched.next_task_id = usize::MAX;
    assert_eq!(sched.get_next_task_id(), usize::MAX);
    assert_eq!(sched.get_next_task_id(), 0);
}

#[test]
fn submitting_the_final_stage_starts_with_the_farthest_ancestor() {
    let (ctx, c) = chain();
    let (run, tasks) = Run::start(ctx, c, vec![0, 1]);
    // stage 2 computes the source, stage 1 the middle dataset, stage 0 the result
    assert_eq!(describe(&tasks), vec![(0, 2, 0, None), (1, 2, 1, None)]);
    assert_eq!(run.jt.running.to_vec(), vec![2]);
    assert_eq!(run.jt.waiting.to_vec(), vec![0, 1]);
    assert_eq!(run.jt.pending_tasks[&2].to_vec(), vec![0, 1]);
    assert_eq!(run.sched.next_task_id, 2);
    match &tasks[0] {
        TaskOption::ShuffleMapTask(t) => {
            assert_eq!(t.dep.shuffle_id, 0);
            assert_eq!(t.rdd, 0);
            assert_eq!(t.run_id, 0);
            assert!(t.locs.is_empty());
        },
        TaskOption::ResultTask(_) => panic!("expected a map task"),
    }
}

#[test]
fn submitting_a_stage_twice_hands_out_nothing_new() {
    let (ctx, c) = chain();
    let (mut run, _tasks) = Run::start(ctx, c, vec![0, 1]);
    for stage in [0, 1, 2] {
        let again = run.sched.submit_stage(&run.ctx, stage, &mut run.jt);
        assert!(again.is_empty());
    }
    assert_eq!(run.jt.running.to_vec(), vec![2]);
    assert_eq!(run.jt.waiting.to_vec(), vec![0, 1]);
    assert_eq!(run.sched.next_task_id, 2);
}

#[test]
fn stages_complete_from_the_source_to_the_result() {
    let (ctx, c) = chain();
    let (mut run, a_tasks) = Run::start(ctx, c, vec![0, 1]);

    assert!(run.map_done(&a_tasks[0], "a0").is_empty());
    assert_eq!(run.jt.pending_tasks[&2].to_vec(), vec![1]);
    assert_eq!(run.jt.running.to_vec(), vec![2]);
    let b_tasks = run.map_done(&a_tasks[1], "a1");
    assert_eq!(describe(&b_tasks), vec![(2, 1, 0, None), (3, 1, 1, None)]);
    assert_eq!(run.jt.running.to_vec(), vec![1]);
    assert_eq!(run.jt.waiting.to_vec(), vec![0]);
    assert!(run.sched.fetch_from_stage_cache(2).is_available());
    assert_eq!(
        run.sched.map_output_tracker.server_uris[&0],
        vec![Some("a0".to_string()), Some("a1".to_string())]
    );

    assert!(run.map_done(&b_tasks[1], "b1").is_empty());
    let c_tasks = run.map_done(&b_tasks[0], "b0");
    assert_eq!(describe(&c_tasks), vec![(4, 0, 0, Some(0)), (5, 0, 1, Some(1))]);
    assert_eq!(run.jt.running.to_vec(), vec![0]);
    assert!(run.jt.waiting.is_empty());
    assert_eq!(
        run.sched.fetch_from_stage_cache(1).output_locs,
        vec![vec!["b0".to_string()], vec!["b1".to_string()]]
    );

    assert!(run.result_done(&c_tasks[0], "r0").is_empty());
    assert_eq!(run.num_finished, 1);
    assert_eq!(run.jt.finished, vec![true, false]);
    assert!(run.result_done(&c_tasks[1], "r1").is_empty());
    assert_eq!(run.num_finished, 2);
    assert_eq!(run.num_finished, run.jt.num_output_parts);
    assert_eq!(run.jt.finished, vec![true, true]);
    assert_eq!(run.results, vec![Some("r0".to_string()), Some("r1".to_string())]);
}

#[test]
fn the_order_of_completions_within_a_stage_does_not_change_the_result() {
    let orders: [[usize; 2]; 2] = [[0, 1], [1, 0]];
    let mut outcomes = Vec::new();
    for oa in orders {
        for ob in orders {
            for oc in orders {
                let (ctx, c) = chain();
                let (mut run, a_tasks) = Run::start(ctx, c, vec![0, 1]);
                let mut b_tasks = Vec::new();
                for i in oa {
                    b_tasks.extend(run.map_done(&a_tasks[i], &format!("a{}", i)));
                }
                let mut c_tasks = Vec::new();
                for i in ob {
                    c_tasks.extend(run.map_done(&b_tasks[i], &format!("b{}", i)));
                }
                let mut completions = 0;
                for i in oc {
                    assert!(run.result_done(&c_tasks[i], &format!("r{}", i)).is_empty());
                    if run.num_finished == run.jt.num_output_parts {
                        completions += 1;
                    }
                }
                assert_eq!(completions, 1);
                outcomes.push((
                    run.results,
                    run.jt.finished,
                    run.sched.fetch_from_stage_cache(1).output_locs.clone(),
                    run.sched.fetch_from_stage_cache(2).output_locs.clone(),
                    describe(&c_tasks),
                ));
            }
        }
    }
    assert_eq!(outcomes.len(), 8);
    for o in &outcomes {
        assert_eq!(o, &outcomes[0]);
    }
    assert_eq!(outcomes[0].0, vec![Some("r0".to_string()), Some("r1".to_string())]);
}

#[test]
fn independent_branches_may_complete_in_any_order() {
    // two sources behind two shuffles feed one result dataset
    let build = || {
        let mut ctx = Context::new();
        let a = ctx.parallelize(1);
        let b = ctx.parallelize(1);
        let da = ctx.new_shuffle_dependency(a, true, Partitioner::new(1)).unwrap();
        let db = ctx.new_shuffle_dependency(b, true, Partitioner::new(1)).unwrap();
        let joined = ctx
            .add_rdd(
                vec![
                    dag_scheduler::dependency::Dependency::ShuffleDependency(da),
                    dag_scheduler::dependency::Dependency::ShuffleDependency(db),
                ],
                1,
                vec![vec![]],
                false,
            )
            .unwrap();
        (ctx, joined)
    };
    let mut outcomes = Vec::new();
    for order in [[0, 1], [1, 0]] {
        let (ctx, joined) = build();
        let (mut run, tasks) = Run::start(ctx, joined, vec![0]);
        assert_eq!(describe(&tasks), vec![(0, 1, 0, None), (1, 2, 0, None)]);
        assert_eq!(run.jt.running.to_vec(), vec![1, 2]);
        assert_eq!(run.jt.waiting.to_vec(), vec![0]);
        let first = run.map_done(&tasks[order[0]], "m");
        assert!(first.is_empty());
        assert_eq!(run.jt.waiting.to_vec(), vec![0]);
        let second = run.map_done(&tasks[order[1]], "m");
        assert_eq!(describe(&second), vec![(2, 0, 0, Some(0))]);
        assert!(run.result_done(&second[0], "done").is_empty());
        assert_eq!(run.num_finished, 1);
        outcomes.push((run.results, run.jt.finished, run.jt.running.to_vec()));
    }
    assert_eq!(outcomes[0], outcomes[1]);
    assert_eq!(outcomes[0].0, vec![Some("done".to_string())]);
}

#[test]
fn only_unfinished_partitions_get_a_result_task() {
    let mut ctx = Context::new();
    let a = ctx.parallelize(4);
    let mut sched = DagScheduler::new();
    let mut jt = sched.new_job(&ctx, a, vec![3, 1, 2]);
    jt.finished[1] = true;
    let tasks = sched.submit_missing_tasks(&ctx, 0, &mut jt);
    assert_eq!(describe(&tasks), vec![(0, 0, 3, Some(0)), (1, 0, 2, Some(2))]);
    assert_eq!(jt.pending_tasks[&0].to_vec(), vec![0, 1]);
    assert_eq!(sched.next_task_id, 2);
}

#[test]
fn task_ids_wrap_around_while_tasks_are_handed_out() {
    let mut ctx = Context::new();
    let a = ctx.parallelize(3);
    let mut sched = DagScheduler::new();
    let mut jt = sched.new_job(&ctx, a, vec![0, 1, 2]);
    sched.next_task_id = usize::MAX - 1;
    let tasks = sched.submit_missing_tasks(&ctx, 0, &mut jt);
    assert_eq!(
        describe(&tasks),
        vec![(usize::MAX - 1, 0, 0, Some(0)), (usize::MAX, 0, 1, Some(1)), (0, 0, 2, Some(2))]
    );
    assert_eq!(sched.next_task_id, 1);
    assert_eq!(jt.pending_tasks[&0].to_vec(), vec![0, usize::MAX - 1, usize::MAX]);
}

#[test]
fn a_job_without_partitions_hands_out_no_task() {
    let mut ctx = Context::new();
    let a = ctx.parallelize(2);
    let (run, tasks) = Run::start(ctx, a, vec![]);
    assert!(tasks.is_empty());
    assert_eq!(run.jt.running.to_vec(), vec![0]);
    assert_eq!(run.num_finished, run.jt.num_output_parts);
}

#[test]
fn a_fetch_failure_has_one_partition_computed_again() {
    let (ctx, c) = chain();
    let (mut run, a_tasks) = Run::start(ctx, c, vec![0, 1]);
    run.map_done(&a_tasks[0], "a0");
    let b_tasks = run.map_done(&a_tasks[1], "a1");
    run.map_done(&b_tasks[0], "b0");
    let c_tasks = run.map_done(&b_tasks[1], "b1");
    assert_eq!(c_tasks.len(), 2);
    assert!(run.sched.fetch_from_stage_cache(1).is_available());

    // a task of the final stage cannot fetch map output 0 of shuffle 1 from b0
    let failure = FetchFailedVals {
        server_uri: "b0".to_string(),
        shuffle_id: 1,
        map_id: 0,
        reduce_id: 1,
    };
    run.sched.on_event_failure(&run.ctx, &mut run.jt, failure, 0);
    assert!(run.jt.running.is_empty());
    assert_eq!(run.jt.failed.to_vec(), vec![0, 1]);
    assert_eq!(
        run.sched.fetch_from_stage_cache(1).output_locs,
        vec![vec![], vec!["b1".to_string()]]
    );
    assert!(!run.sched.fetch_from_stage_cache(1).is_available());
    assert_eq!(
        run.sched.map_output_tracker.server_uris[&1],
        vec![None, Some("b1".to_string())]
    );
    assert_eq!(run.sched.get_missing_parent_stages(&run.ctx, 0), vec![1]);

    // submitting the failed stages again computes that one partition only
    let again = run.sched.submit_stage(&run.ctx, 0, &mut run.jt);
    assert_eq!(describe(&again), vec![(6, 1, 0, None)]);
    assert_eq!(run.jt.running.to_vec(), vec![1]);
    assert_eq!(run.jt.waiting.to_vec(), vec![0]);
    assert!(run.sched.submit_stage(&run.ctx, 1, &mut run.jt).is_empty());

    // the final stage goes on when the partition is there again
    let resumed = run.map_done(&again[0], "b2");
    assert_eq!(describe(&resumed), vec![(7, 0, 0, Some(0)), (8, 0, 1, Some(1))]);
    assert_eq!(
        run.sched.fetch_from_stage_cache(1).output_locs,
        vec![vec!["b2".to_string()], vec!["b1".to_string()]]
    );
    run.result_done(&resumed[0], "r0");
    run.result_done(&resumed[1], "r1");
    assert_eq!(run.num_finished, 2);
    assert_eq!(run.results, vec![Some("r0".to_string()), Some("r1".to_string())]);
}

#[test]
fn a_fetch_failure_that_names_an_unknown_server_clears_nothing() {
    let (ctx, c) = chain();
    let (mut run, a_tasks) = Run::start(ctx, c, vec![0, 1]);
    run.map_done(&a_tasks[0], "a0");
    let b_tasks = run.map_done(&a_tasks[1], "a1");
    run.map_done(&b_tasks[0], "b0");
    run.map_done(&b_tasks[1], "b1");
    let failure = FetchFailedVals {
        server_uri: "elsewhere".to_string(),
        shuffle_id: 1,
        map_id: 0,
        reduce_id: 0,
    };
    run.sched.on_event_failure(&run.ctx, &mut run.jt, failure, 0);
    assert_eq!(
        run.sched.fetch_from_stage_cache(1).output_locs,
        vec![vec!["b0".to_string()], vec!["b1".to_string()]]
    );
    assert_eq!(
        run.sched.map_output_tracker.server_uris[&1],
        vec![Some("b0".to_string()), Some("b1".to_string())]
    );
    assert!(run.sched.fetch_from_stage_cache(1).is_available());
    // the stages count as failed all the same
    assert_eq!(run.jt.failed.to_vec(), vec![0, 1]);
    assert!(run.jt.running.is_empty());
}

#[test]
fn a_second_location_keeps_a_partition_available_after_a_failure() {
    let (ctx, c) = chain();
    let (mut run, a_tasks) = Run::start(ctx, c, vec![0, 1]);
    run.map_done(&a_tasks[0], "a0");
    let b_tasks = run.map_done(&a_tasks[1], "a1");
    run.map_done(&b_tasks[0], "b0");
    run.map_done(&b_tasks[1], "b1");
    run.sched.add_output_loc_to_stage(1, 0, "b0-copy".to_string());
    let failure = FetchFailedVals {
        server_uri: "b0".to_string(),
        shuffle_id: 1,
        map_id: 0,
        reduce_id: 0,
    };
    run.sched.on_event_failure(&run.ctx, &mut run.jt, failure, 0);
    assert_eq!(
        run.sched.fetch_from_stage_cache(1).output_locs,
        vec![vec!["b0-copy".to_string()], vec!["b1".to_string()]]
    );
    assert!(run.sched.fetch_from_stage_cache(1).is_available());
    // the tracker held b0 for the partition, and has lost it
    assert_eq!(
        run.sched.map_output_tracker.server_uris[&1],
        vec![None, Some("b1".to_string())]
    );
    // nothing is missing: the final stage runs again at once
    let again = run.sched.submit_stage(&run.ctx, 0, &mut run.jt);
    assert_eq!(describe(&again), vec![(6, 0, 0, Some(0)), (7, 0, 1, Some(1))]);
}

#[test]
fn the_fast_path_computes_what_the_full_path_computes() {
    let mut ctx = Context::new();
    let a = ctx.parallelize(3);
    let m = MappedValuesRdd::<u32, u32, u32, _>::new(&mut ctx, a, |v: u32| v + 1).get_rdd_id();
    let closure = |c: TaskContext| format!("stage {} split {} attempt {}", c.stage_id, c.split_id, c.attempt_id);

    let mut sched = DagScheduler::new();
    let jt = sched.new_job(&ctx, m, vec![2]);
    let local = sched.local_execution(&jt, &closure);
    assert_eq!(local, Some(vec!["stage 0 split 2 attempt 0".to_string()]));

    let (mut run, tasks) = Run::start(ctx, m, vec![2]);
    assert_eq!(describe(&tasks), vec![(0, 0, 2, Some(0))]);
    let t = result_task(&tasks[0]);
    let value = closure(TaskContext::new(t.stage_id, t.partition, 0));
    run.result_done(&tasks[0], &value);
    assert_eq!(run.num_finished, 1);
    let full: Vec<String> = run.results.into_iter().map(|r| r.unwrap()).collect();
    assert_eq!(Some(full), local);
}

#[test]
fn the_fast_path_is_not_taken_with_parent_stages_or_several_partitions() {
    let (ctx, c) = chain();
    let mut sched = DagScheduler::new();
    let jt = sched.new_job(&ctx, c, vec![0]);
    assert_eq!(sched.local_execution(&jt, &|c: TaskContext| c.split_id), None);

    let mut ctx = Context::new();
    let a = ctx.parallelize(2);
    let mut sched = DagScheduler::new();
    let two = sched.new_job(&ctx, a, vec![0, 1]);
    assert_eq!(sched.local_execution(&two, &|c: TaskContext| c.split_id), None);
    let none = sched.new_job(&ctx, a, vec![]);
    assert_eq!(sched.local_execution(&none, &|c: TaskContext| c.split_id), None);
    let one = sched.new_job(&ctx, a, vec![1]);
    assert_eq!(sched.local_execution(&one, &|c: TaskContext| c.split_id), Some(vec![1]));
    assert_eq!(one.final_stage, 2);
}

#[test]
fn failed_stages_are_submitted_again_in_order_of_id() {
    let (ctx, c) = chain();
    let (mut run, a_tasks) = Run::start(ctx, c, vec![0, 1]);
    run.map_done(&a_tasks[0], "a0");
    let b_tasks = run.map_done(&a_tasks[1], "a1");
    run.map_done(&b_tasks[0], "b0");
    let c_tasks = run.map_done(&b_tasks[1], "b1");
    run.result_done(&c_tasks[0], "r0");
    let failure = FetchFailedVals {
        server_uri: "b1".to_string(),
        shuffle_id: 1,
        map_id: 1,
        reduce_id: 1,
    };
    run.sched.on_event_failure(&run.ctx, &mut run.jt, failure, 0);
    assert_eq!(run.jt.failed.to_vec(), vec![0, 1]);
    let again = run.sched.resubmit_failed_stages(&run.ctx, &mut run.jt);
    // stage 0 is submitted first and has its missing parent, stage 1, run
    assert_eq!(describe(&again), vec![(6, 1, 1, None)]);
    assert!(run.jt.failed.is_empty());
    assert_eq!(run.jt.running.to_vec(), vec![1]);
    assert_eq!(run.jt.waiting.to_vec(), vec![0]);
    // nothing has failed: nothing is submitted
    assert!(run.sched.resubmit_failed_stages(&run.ctx, &mut run.jt).is_empty());
    // only the result that is still missing is computed again
    let resumed = run.map_done(&again[0], "b1-again");
    assert_eq!(describe(&resumed), vec![(7, 0, 1, Some(1))]);
    run.result_done(&resumed[0], "r1");
    assert_eq!(run.num_finished, 2);
    assert_eq!(run.results, vec![Some("r0".to_string()), Some("r1".to_string())]);
}

#[test]
fn one_handler_takes_in_every_kind_of_event() {
    let (ctx, c) = chain();
    let (mut run, a_tasks) = Run::start(ctx, c, vec![0, 1]);
    let first = TaskEvent::Success(CompletionEvent::ShuffleMapTask {
        task: map_task(&a_tasks[0]),
        result: "a0".to_string(),
    });
    let r = run.sched.on_event(&run.ctx, first, &mut run.results, &mut run.num_finished, &mut run.jt);
    assert!(r.unwrap().is_empty());
    let second = TaskEvent::Success(CompletionEvent::ShuffleMapTask {
        task: map_task(&a_tasks[1]),
        result: "a1".to_string(),
    });
    let r = run.sched.on_event(&run.ctx, second, &mut run.results, &mut run.num_finished, &mut run.jt);
    let b_tasks = r.unwrap();
    assert_eq!(describe(&b_tasks), vec![(2, 1, 0, None), (3, 1, 1, None)]);

    // a task of stage 1 fails in its own computation: nothing changes
    let broken: TaskEvent<String> =
        TaskEvent::Error { stage_id: 1, task_id: 2, message: "division by zero".to_string() };
    let before = (run.jt.running.to_vec(), run.jt.waiting.to_vec(), run.sched.next_task_id);
    let r = run.sched.on_event(&run.ctx, broken, &mut run.results, &mut run.num_finished, &mut run.jt);
    let e = r.err().unwrap();
    assert_eq!((e.stage_id, e.task_id, e.message.as_str()), (1, 2, "division by zero"));
    assert_eq!(before, (run.jt.running.to_vec(), run.jt.waiting.to_vec(), run.sched.next_task_id));
    assert!(run.jt.failed.is_empty());

    // a task of stage 1 cannot fetch map output 1 of shuffle 0
    let lost: TaskEvent<String> = TaskEvent::FetchFailed {
        stage_id: 1,
        failed_vals: FetchFailedVals {
            server_uri: "a1".to_string(),
            shuffle_id: 0,
            map_id: 1,
            reduce_id: 0,
        },
    };
    let r = run.sched.on_event(&run.ctx, lost, &mut run.results, &mut run.num_finished, &mut run.jt);
    assert!(r.unwrap().is_empty());
    assert_eq!(run.jt.failed.to_vec(), vec![1, 2]);
    assert!(run.jt.running.is_empty());
    assert_eq!(
        run.sched.fetch_from_stage_cache(2).output_locs,
        vec![vec!["a0".to_string()], vec![]]
    );
    assert_eq!(run.num_finished, 0);
}

#[test]
fn the_final_stage_is_available_once_the_job_is_complete() {
    let mut ctx = Context::new();
    let a = ctx.parallelize(2);
    let (mut run, tasks) = Run::start(ctx, a, vec![0, 1]);
    assert!(!run.jt.is_complete());
    assert!(!run.sched.is_stage_available(&run.jt, 0));
    run.result_done(&tasks[0], "r0");
    assert!(!run.sched.is_stage_available(&run.jt, 0));
    run.result_done(&tasks[1], "r1");
    assert!(run.jt.is_complete());
    assert!(run.sched.is_stage_available(&run.jt, 0));
    // its partitions have no output location all the same
    assert!(!run.sched.fetch_from_stage_cache(0).is_available());
}

#[test]
fn an_event_is_taken_in_only_if_it_names_what_exists() {
    let (ctx, c) = chain();
    let (run, tasks) = Run::start(ctx, c, vec![0, 1]);
    // the first tasks are the map tasks of the stage at the source, stage 2
    let good = CompletionEvent::ShuffleMapTask { task: map_task(&tasks[0]), result: "h".to_string() };
    assert!(run.sched.can_take_success(&run.jt, &good, &run.results, 0));
    let mut stray = map_task(&tasks[0]);
    stray.partition = 2;
    let event = CompletionEvent::ShuffleMapTask { task: stray, result: "h".to_string() };
    assert!(!run.sched.can_take_success(&run.jt, &event, &run.results, 0));
    let mut stray = map_task(&tasks[0]);
    stray.stage_id = 3;
    let event = CompletionEvent::ShuffleMapTask { task: stray, result: "h".to_string() };
    assert!(!run.sched.can_take_success(&run.jt, &event, &run.results, 0));

    let result = ResultTask::new(9, 0, 0, c, 1, vec![], 1);
    let event = CompletionEvent::ResultTask { task: result, result: "r".to_string() };
    assert!(run.sched.can_take_success(&run.jt, &event, &run.results, 1));
    assert!(!run.sched.can_take_success(&run.jt, &event, &run.results, usize::MAX));
    let result = ResultTask::new(9, 0, 0, c, 1, vec![], 2);
    let event = CompletionEvent::ResultTask { task: result, result: "r".to_string() };
    assert!(!run.sched.can_take_success(&run.jt, &event, &run.results, 0));
}

#[test]
fn a_failed_fetch_is_taken_in_only_if_it_names_what_exists() {
    let (ctx, c) = chain();
    let (run, _) = Run::start(ctx, c, vec![0]);
    let failed = |shuffle_id: usize, map_id: usize| FetchFailedVals {
        server_uri: "h".to_string(),
        shuffle_id,
        map_id,
        reduce_id: 0,
    };
    // stage 1 reads shuffle 0, which stage 2 produces with two partitions
    assert!(run.sched.can_take_failure(&run.ctx, &run.jt, &failed(0, 1), 1));
    assert!(run.sched.can_take_failure(&run.ctx, &run.jt, &failed(1, 0), 0));
    assert!(!run.sched.can_take_failure(&run.ctx, &run.jt, &failed(0, 2), 1));
    assert!(!run.sched.can_take_failure(&run.ctx, &run.jt, &failed(2, 0), 1));
    assert!(!run.sched.can_take_failure(&run.ctx, &run.jt, &failed(0, 1), 3));
}

#[test]
fn a_fetch_failure_takes_a_running_producer_off_the_running_stages() {
    let (ctx, c) = chain();
    let (mut run, a_tasks) = Run::start(ctx, c, vec![0, 1]);
    run.map_done(&a_tasks[0], "a0");
    let b_tasks = run.map_done(&a_tasks[1], "a1");
    assert!(run.map_done(&b_tasks[0], "b0").is_empty());
    // stage 1 produces shuffle 1 and is still running, the final stage waits
    assert_eq!(run.jt.running.to_vec(), vec![1]);
    assert_eq!(run.jt.waiting.to_vec(), vec![0]);
    let pending: Vec<usize> = run.jt.pending_tasks[&1].to_vec();

    let failure = FetchFailedVals {
        server_uri: "b0".to_string(),
        shuffle_id: 1,
        map_id: 0,
        reduce_id: 0,
    };
    assert!(run.sched.can_take_failure(&run.ctx, &run.jt, &failure, 0));
    run.sched.on_event_failure(&run.ctx, &mut run.jt, failure, 0);
    assert!(run.jt.running.is_empty());
    assert_eq!(run.jt.failed.to_vec(), vec![0, 1]);
    assert_eq!(run.jt.waiting.to_vec(), vec![0]);
    assert_eq!(run.jt.pending_tasks[&1].to_vec(), pending);
    assert_eq!(run.jt.finished, vec![false, false]);
    assert_eq!(run.results, vec![None, None]);
    assert_eq!(
        run.sched.fetch_from_stage_cache(1).output_locs,
        vec![Vec::<String>::new(), Vec::<String>::new()]
    );
}
