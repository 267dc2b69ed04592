use dag_scheduler::context::Context;
use dag_scheduler::dependency::Dependency;
use dag_scheduler::error::SchedulerError;
use dag_scheduler::local_scheduler::{collect_results, parallelism_for, LocalScheduler};
use dag_scheduler::partitioner::Partitioner;
use dag_scheduler::rdd::pair_rdd::add_one_to_one_child;
use dag_scheduler::rdd::shuffled_rdd::{Aggregator, ShuffledRdd};
use dag_scheduler::scheduler::Scheduler;
use dag_scheduler::task::{ShuffleMapTask, TaskContext};

fn shuffled(ctx: &mut Context, parent: usize, partitions: usize) -> usize {
    let agg = Aggregator::new(|v: u32| v, |c: u32, v: u32| c + v, |x: u32, y: u32| x + y);
    ShuffledRdd::new(ctx, parent, agg, Partitioner::new(partitions)).get_rdd_id()
}

fn serve(t: &ShuffleMapTask) -> String {
    format!("server-{}-{}", t.stage_id, t.partition)
}

fn label(c: TaskContext) -> (usize, usize, usize) {
    (c.stage_id, c.split_id, c.attempt_id)
}

#[test]
fn a_job_over_two_shuffles_runs_to_its_results() {
    let mut ctx = Context::new();
    let a = ctx.parallelize(3);
    let b = shuffled(&mut ctx, a, 2);
    let c = shuffled(&mut ctx, b, 4);
    let mut s = LocalScheduler::new(serve);
    let r = s.run_job(&ctx, c, label, vec![3, 0, 2], false);
    assert_eq!(r, Ok(vec![(0, 3, 0), (0, 0, 0), (0, 2, 0)]));
    // all map outputs are where the map tasks said
    assert_eq!(
        s.dag.fetch_from_stage_cache(2).output_locs,
        vec![vec!["server-2-0".to_string()], vec!["server-2-1".to_string()], vec!["server-2-2".to_string()]]
    );
    assert_eq!(
        s.dag.map_output_tracker.server_uris[&1],
        vec![Some("server-1-0".to_string()), Some("server-1-1".to_string())]
    );
    // 3 + 2 map tasks and 3 result tasks were handed out
    assert_eq!(s.dag.next_task_id, 8);
    assert_eq!(s.dag.next_job_id, 1);
}

#[test]
fn a_second_job_uses_the_outputs_of_the_first() {
    let mut ctx = Context::new();
    let a = ctx.parallelize(2);
    let b = shuffled(&mut ctx, a, 2);
    let mut s = LocalScheduler::new(serve);
    assert_eq!(s.run_job(&ctx, b, label, vec![0, 1], false), Ok(vec![(0, 0, 0), (0, 1, 0)]));
    assert_eq!(s.dag.next_task_id, 4);
    // the stage of the shuffle is available: only the result tasks run
    assert_eq!(s.run_job(&ctx, b, label, vec![1], false), Ok(vec![(2, 1, 0)]));
    assert_eq!(s.dag.next_task_id, 5);
    assert_eq!(s.dag.stage_cache.len(), 3);
}

#[test]
fn a_local_job_runs_no_task() {
    let mut ctx = Context::new();
    let a = ctx.parallelize(2);
    let mut s = LocalScheduler::new(serve);
    assert_eq!(s.run_job(&ctx, a, label, vec![1], true), Ok(vec![(0, 1, 0)]));
    assert_eq!(s.dag.next_task_id, 0);
    // without leave to run locally the same job runs one task
    assert_eq!(s.run_job(&ctx, a, label, vec![1], false), Ok(vec![(1, 1, 0)]));
    assert_eq!(s.dag.next_task_id, 1);
}

#[test]
fn the_fast_path_and_the_full_path_agree() {
    let mut ctx = Context::new();
    let a = ctx.parallelize(5);
    let value = |c: TaskContext| c.split_id * 10 + c.attempt_id;
    let mut fast = LocalScheduler::new(serve);
    let mut full = LocalScheduler::new(serve);
    for p in 0..5 {
        assert_eq!(
            fast.run_job(&ctx, a, value, vec![p], true),
            full.run_job(&ctx, a, value, vec![p], false)
        );
    }
    assert_eq!(fast.run_job(&ctx, a, value, vec![4], true), Ok(vec![40]));
}

#[test]
fn a_job_is_refused_for_what_does_not_exist() {
    let mut ctx = Context::new();
    let a = ctx.parallelize(2);
    let mut s = LocalScheduler::new(serve);
    assert_eq!(
        s.run_job(&ctx, 5, label, vec![0], true),
        Err(SchedulerError::UnknownDataset { rdd: 5 })
    );
    assert_eq!(
        s.run_job(&ctx, a, label, vec![0, 2, 7], true),
        Err(SchedulerError::InvalidPartition { rdd: a, partition: 2 })
    );
    assert!(s.dag.stage_cache.is_empty());
    assert_eq!(s.dag.next_job_id, 0);
}

#[test]
fn a_job_is_refused_when_a_pinned_dataset_names_two_locations() {
    let mut ctx = Context::new();
    let a = ctx.parallelize(1);
    let bad = ctx.add_rdd(vec![], 2, vec![vec![1], vec![2, 3]], true).unwrap();
    assert!(!ctx.check_pins());
    assert_eq!(ctx.find_bad_pin(), Some((bad, 1, 2)));
    let mut s = LocalScheduler::new(serve);
    assert_eq!(
        s.run_job(&ctx, a, label, vec![0], true),
        Err(SchedulerError::PinnedLocations { rdd: bad, partition: 1, found: 2 })
    );
}

#[test]
fn a_job_is_refused_when_stage_ids_run_out() {
    let mut ctx = Context::new();
    let a = ctx.parallelize(1);
    let mut s = LocalScheduler::new(serve);
    s.dag.next_stage_id = usize::MAX;
    assert!(!s.dag.has_room_for_job(&ctx));
    assert_eq!(s.run_job(&ctx, a, label, vec![0], true), Err(SchedulerError::OutOfStageIds));
    s.dag.next_stage_id = usize::MAX - 1;
    assert!(s.dag.has_room_for_job(&ctx));
    assert_eq!(s.run_job(&ctx, a, label, vec![0], true), Ok(vec![(usize::MAX - 1, 0, 0)]));
}

#[test]
fn a_job_runs_one_task_for_each_missing_output_and_each_result() {
    let mut ctx = Context::new();
    let a = ctx.parallelize(2);
    let b = shuffled(&mut ctx, a, 1);
    let mut s = LocalScheduler::new(serve);
    assert_eq!(s.run_job(&ctx, b, label, vec![0], false), Ok(vec![(0, 0, 0)]));
    assert_eq!(s.dag.next_task_id, 3);
    assert!(s.dag.fetch_from_stage_cache(1).is_available());
    // a job over the same shuffle finds the map outputs and runs its results only
    assert_eq!(s.run_job(&ctx, b, label, vec![0, 0], false), Ok(vec![(2, 0, 0), (2, 0, 0)]));
    assert_eq!(s.dag.next_task_id, 5);
}

#[test]
fn a_job_without_partitions_has_no_results() {
    let mut ctx = Context::new();
    let a = ctx.parallelize(2);
    let b = shuffled(&mut ctx, a, 1);
    let mut s = LocalScheduler::new(serve);
    assert_eq!(s.run_job(&ctx, b, label, vec![], false), Ok(vec![]));
}

#[test]
fn a_job_with_two_branches_runs_both() {
    let mut ctx = Context::new();
    let a = ctx.parallelize(1);
    let b = ctx.parallelize(2);
    let da = ctx.new_shuffle_dependency(a, true, Partitioner::new(1)).unwrap();
    let db = ctx.new_shuffle_dependency(b, true, Partitioner::new(1)).unwrap();
    let joined = ctx
        .add_rdd(
            vec![Dependency::ShuffleDependency(da), Dependency::ShuffleDependency(db)],
            1,
            vec![vec![]],
            false,
        )
        .unwrap();
    let mut s = LocalScheduler::new(serve);
    assert_eq!(s.run_job(&ctx, joined, label, vec![0], true), Ok(vec![(0, 0, 0)]));
    assert_eq!(s.dag.next_task_id, 4);
}

#[test]
fn the_local_scheduler_has_nothing_to_start_or_stop() {
    let s = LocalScheduler::new(serve);
    s.start();
    s.wait_for_register();
    s.stop();
    assert!(s.default_parallelism() >= 1);
}

#[test]
fn results_are_collected_only_when_all_are_there() {
    assert_eq!(collect_results(vec![Some(1), Some(2), Some(3)]), Some(vec![1, 2, 3]));
    assert_eq!(collect_results(vec![Some(1), None, Some(3)]), None);
    assert_eq!(collect_results(Vec::<Option<u8>>::new()), Some(vec![]));
}

#[test]
fn a_job_does_not_recompute_what_is_cached() {
    let mut ctx = Context::new();
    let a = ctx.parallelize(3);
    let b = shuffled(&mut ctx, a, 2);
    let c = add_one_to_one_child(&mut ctx, b);
    let d = shuffled(&mut ctx, c, 1);
    let mut s = LocalScheduler::new(serve);
    s.dag.cache_tracker.register_rdd(c, 2);
    assert!(s.dag.cache_tracker.add_host(c, 0, 7));
    assert!(s.dag.cache_tracker.add_host(c, 1, 7));
    assert_eq!(s.run_job(&ctx, d, label, vec![0], false), Ok(vec![(0, 0, 0)]));
    // the two map tasks over the cached dataset and the result task ran
    assert_eq!(s.dag.next_task_id, 3);
    assert!(s.dag.fetch_from_stage_cache(1).is_available());
    // the stage behind the cached dataset was built and never run
    assert_eq!(s.dag.fetch_from_stage_cache(2).get_rdd(), a);
    assert!(!s.dag.fetch_from_stage_cache(2).is_available());
}

#[test]
fn a_job_with_a_shared_shuffle_runs_its_stage_once() {
    let mut ctx = Context::new();
    let a = ctx.parallelize(2);
    let shared = ctx.new_shuffle_dependency(a, false, Partitioner::new(2)).unwrap();
    let left = ctx
        .add_rdd(vec![Dependency::ShuffleDependency(shared)], 2, vec![vec![], vec![]], false)
        .unwrap();
    let right = ctx
        .add_rdd(vec![Dependency::ShuffleDependency(shared)], 2, vec![vec![], vec![]], false)
        .unwrap();
    let dl = ctx.new_shuffle_dependency(left, false, Partitioner::new(1)).unwrap();
    let dr = ctx.new_shuffle_dependency(right, false, Partitioner::new(1)).unwrap();
    let top = ctx
        .add_rdd(
            vec![Dependency::ShuffleDependency(dl), Dependency::ShuffleDependency(dr)],
            1,
            vec![vec![]],
            false,
        )
        .unwrap();
    let mut s = LocalScheduler::new(serve);
    assert_eq!(s.run_job(&ctx, top, label, vec![0], false), Ok(vec![(0, 0, 0)]));
    // four stages, and 2 + 2 + 2 map tasks and one result task
    assert_eq!(s.dag.stage_cache.len(), 4);
    assert_eq!(s.dag.next_task_id, 7);
}

#[test]
fn the_parallelism_is_the_number_of_threads_up_to_a_limit() {
    assert_eq!(parallelism_for(0), 0);
    assert_eq!(parallelism_for(1), 1);
    assert_eq!(parallelism_for(8), 8);
    assert_eq!(parallelism_for(0x7fff_ffff), 0x7fff_ffff);
    assert_eq!(parallelism_for(0x8000_0000), 0x7fff_ffff);
    assert_eq!(parallelism_for(usize::MAX), 0x7fff_ffff);
}

#[test]
fn a_finished_job_leaves_the_stages_it_reads_with_their_output() {
    let mut ctx = Context::new();
    let a = ctx.parallelize(3);
    let b = shuffled(&mut ctx, a, 2);
    let c = shuffled(&mut ctx, b, 4);
    let mut s = LocalScheduler::new(serve);
    assert!(s.run_job(&ctx, c, label, vec![1], false).is_ok());
    assert!(s.dag.get_missing_parent_stages(&ctx, 0).is_empty());
    assert!(s.dag.fetch_from_stage_cache(1).is_available());
    assert!(s.dag.fetch_from_stage_cache(2).is_available());
}
