use dag_scheduler::context::Context;
use dag_scheduler::dependency::{Dependency, NarrowDependency};
use dag_scheduler::partitioner::Partitioner;
use dag_scheduler::rdd::pair_rdd::MappedValuesRdd;
use dag_scheduler::rdd::shuffled_rdd::{Aggregator, ShuffledRdd};
use dag_scheduler::scheduler::DagScheduler;

fn sum_by_key(ctx: &mut Context, parent: usize, partitions: usize) -> usize {
    let agg = Aggregator::new(|v: u32| v, |c: u32, v: u32| c + v, |x: u32, y: u32| x + y);
    ShuffledRdd::new(ctx, parent, agg, Partitioner::new(partitions)).get_rdd_id()
}

fn map_values(ctx: &mut Context, parent: usize) -> usize {
    MappedValuesRdd::<u32, u32, u32, _>::new(ctx, parent, |v: u32| v + 1).get_rdd_id()
}

fn empty_locations(n: usize) -> Vec<Vec<u32>> {
    vec![Vec::new(); n]
}

#[test]
fn a_new_scheduler_has_no_stage() {
    let s = DagScheduler::new();
    assert_eq!((s.next_job_id, s.next_stage_id, s.next_task_id), (0, 0, 0));
    assert!(s.stage_cache.is_empty());
    assert!(s.shuffle_to_map_stage.is_empty());
}

#[test]
fn a_narrow_chain_is_one_stage() {
    let mut ctx = Context::new();
    let a = ctx.parallelize(3);
    let b = map_values(&mut ctx, a);
    let c = map_values(&mut ctx, b);
    let mut s = DagScheduler::new();
    assert_eq!(s.get_parent_stages(&ctx, c), Vec::<usize>::new());
    assert!(s.stage_cache.is_empty());
    let id = s.new_stage(&ctx, c, None);
    assert_eq!(id, 0);
    assert_eq!(s.stage_cache.len(), 1);
    assert!(s.shuffle_to_map_stage.is_empty());
    let stage = s.fetch_from_stage_cache(0);
    assert_eq!(stage.id, 0);
    assert_eq!(stage.get_rdd(), c);
    assert_eq!(stage.num_partitions, 3);
    assert_eq!(stage.shuffle_dependency, None);
    assert!(stage.parents.is_empty());
    assert_eq!(stage.output_locs, vec![Vec::<String>::new(); 3]);
    assert_eq!(s.next_stage_id, 1);
}

#[test]
fn parent_stages_are_at_the_nearest_shuffle_boundaries() {
    // a -> shuffle 0 -> b -> map -> c -> shuffle 1 -> d -> map -> e
    let mut ctx = Context::new();
    let a = ctx.parallelize(2);
    let b = sum_by_key(&mut ctx, a, 3);
    let c = map_values(&mut ctx, b);
    let d = sum_by_key(&mut ctx, c, 4);
    let e = map_values(&mut ctx, d);
    let mut s = DagScheduler::new();
    let parents = s.get_parent_stages(&ctx, e);
    // the stage of shuffle 1 is built first and gets id 0, that of shuffle 0 id 1
    assert_eq!(parents, vec![0]);
    assert_eq!(s.stage_cache.len(), 2);
    assert_eq!(s.fetch_from_shuffle_to_cache(1), 0);
    assert_eq!(s.fetch_from_shuffle_to_cache(0), 1);
    let near = s.fetch_from_stage_cache(0);
    assert_eq!(near.rdd, c);
    assert_eq!(near.num_partitions, 3);
    assert_eq!(near.shuffle_dependency.map(|d| d.shuffle_id), Some(1));
    assert_eq!(near.parents, vec![1]);
    let far = s.fetch_from_stage_cache(1);
    assert_eq!(far.rdd, a);
    assert_eq!(far.num_partitions, 2);
    assert_eq!(far.shuffle_dependency.map(|d| d.shuffle_id), Some(0));
    assert!(far.parents.is_empty());
    // the map-output tracker has one empty slot per map partition
    assert_eq!(s.map_output_tracker.server_uris[&0], vec![None, None]);
    assert_eq!(s.map_output_tracker.server_uris[&1], vec![None, None, None]);
    // asking again builds nothing
    assert_eq!(s.get_parent_stages(&ctx, e), vec![0]);
    assert_eq!(s.get_parent_stages(&ctx, c), vec![1]);
    assert_eq!(s.stage_cache.len(), 2);
    assert_eq!(s.next_stage_id, 2);
}

#[test]
fn a_stage_gets_its_id_before_its_parents() {
    let mut ctx = Context::new();
    let a = ctx.parallelize(2);
    let b = sum_by_key(&mut ctx, a, 2);
    let c = sum_by_key(&mut ctx, b, 2);
    let mut s = DagScheduler::new();
    let top = s.new_stage(&ctx, c, None);
    assert_eq!(top, 0);
    assert_eq!(s.fetch_from_stage_cache(0).parents, vec![1]);
    assert_eq!(s.fetch_from_stage_cache(1).parents, vec![2]);
    assert!(s.fetch_from_stage_cache(2).parents.is_empty());
    assert_eq!(s.fetch_from_stage_cache(1).rdd, b);
    assert_eq!(s.fetch_from_stage_cache(2).rdd, a);
}

#[test]
fn two_branches_share_the_stage_of_their_common_shuffle() {
    // a -> shuffle 0 -> x; x -> y1, x -> y2; two jobs, on y1 and on y2
    let mut ctx = Context::new();
    let a = ctx.parallelize(2);
    let x = sum_by_key(&mut ctx, a, 2);
    let y1 = map_values(&mut ctx, x);
    let y2 = map_values(&mut ctx, x);
    let mut s = DagScheduler::new();
    let first = s.new_stage(&ctx, y1, None);
    let second = s.new_stage(&ctx, y2, None);
    assert_eq!((first, second), (0, 2));
    assert_eq!(s.fetch_from_stage_cache(first).parents, vec![1]);
    assert_eq!(s.fetch_from_stage_cache(second).parents, vec![1]);
    assert_eq!(s.stage_cache.len(), 3);
    assert_eq!(s.shuffle_to_map_stage.len(), 1);
}

#[test]
fn a_diamond_reaches_its_shuffle_once() {
    // z reads y1 and y2, which both read x behind shuffle 0
    let mut ctx = Context::new();
    let a = ctx.parallelize(2);
    let x = sum_by_key(&mut ctx, a, 2);
    let y1 = map_values(&mut ctx, x);
    let y2 = map_values(&mut ctx, x);
    let z = ctx
        .add_rdd(
            vec![
                Dependency::NarrowDependency(NarrowDependency::one_to_one(y1)),
                Dependency::NarrowDependency(NarrowDependency::one_to_one(y2)),
            ],
            2,
            empty_locations(2),
            false,
        )
        .unwrap();
    let mut s = DagScheduler::new();
    assert_eq!(s.get_parent_stages(&ctx, z), vec![0]);
    assert_eq!(s.stage_cache.len(), 1);
    let shuffle = match ctx.get_dependencies(x)[0] {
        Dependency::ShuffleDependency(d) => d,
        Dependency::NarrowDependency(_) => unreachable!(),
    };
    assert_eq!(s.get_shuffle_map_stage(&ctx, shuffle), 0);
    assert_eq!(s.get_shuffle_map_stage(&ctx, shuffle), 0);
    assert_eq!(s.stage_cache.len(), 1);
}

#[test]
fn a_node_with_two_shuffles_has_two_parent_stages_in_order_of_id() {
    let mut ctx = Context::new();
    let a = ctx.parallelize(2);
    let b = ctx.parallelize(3);
    let da = ctx.new_shuffle_dependency(a, true, Partitioner::new(2)).unwrap();
    let db = ctx.new_shuffle_dependency(b, true, Partitioner::new(2)).unwrap();
    // the second shuffle comes first in the list of dependencies
    let joined = ctx
        .add_rdd(
            vec![Dependency::ShuffleDependency(db), Dependency::ShuffleDependency(da)],
            2,
            empty_locations(2),
            false,
        )
        .unwrap();
    let mut s = DagScheduler::new();
    assert_eq!(s.get_parent_stages(&ctx, joined), vec![0, 1]);
    assert_eq!(s.fetch_from_stage_cache(0).rdd, b);
    assert_eq!(s.fetch_from_stage_cache(1).rdd, a);
}

#[test]
fn building_a_stage_registers_the_datasets_with_the_cache_tracker() {
    let mut ctx = Context::new();
    let a = ctx.parallelize(2);
    let b = map_values(&mut ctx, a);
    let c = sum_by_key(&mut ctx, b, 1);
    let mut s = DagScheduler::new();
    s.new_stage(&ctx, c, None);
    assert_eq!(
        s.cache_tracker.locs,
        vec![
            Some(vec![vec![], vec![]]),
            Some(vec![vec![], vec![]]),
            Some(vec![vec![]]),
        ]
    );
}

#[test]
fn the_number_of_threads_is_at_least_one() {
    assert!(DagScheduler::num_threads() >= 1);
}

#[test]
fn looking_for_the_parents_of_a_narrow_chain_hands_out_no_stage_id() {
    let mut ctx = Context::new();
    let a = ctx.parallelize(3);
    let b = map_values(&mut ctx, a);
    let c = map_values(&mut ctx, b);
    let mut s = DagScheduler::new();
    s.next_stage_id = 5;
    assert_eq!(s.get_parent_stages(&ctx, c), Vec::<usize>::new());
    assert_eq!(s.next_stage_id, 5);
    assert!(s.stage_cache.is_empty());
    assert!(s.shuffle_to_map_stage.is_empty());
}

#[test]
fn one_stage_id_is_handed_out_for_each_stage_built() {
    let mut ctx = Context::new();
    let a = ctx.parallelize(2);
    let b = sum_by_key(&mut ctx, a, 2);
    let c = sum_by_key(&mut ctx, b, 2);
    let mut s = DagScheduler::new();
    // the two stages of the shuffles
    assert_eq!(s.get_parent_stages(&ctx, c), vec![0]);
    assert_eq!((s.next_stage_id, s.stage_cache.len(), s.shuffle_to_map_stage.len()), (2, 2, 2));
    // nothing more for what is built
    assert_eq!(s.get_parent_stages(&ctx, c), vec![0]);
    assert_eq!((s.next_stage_id, s.stage_cache.len(), s.shuffle_to_map_stage.len()), (2, 2, 2));
    // one more for the final stage of a job
    let jt = s.new_job(&ctx, c, vec![0]);
    assert_eq!(jt.final_stage, 2);
    assert_eq!((s.next_stage_id, s.stage_cache.len(), s.shuffle_to_map_stage.len()), (3, 3, 2));
}

#[test]
fn a_stage_that_is_built_has_no_output() {
    let mut ctx = Context::new();
    let a = ctx.parallelize(2);
    let b = sum_by_key(&mut ctx, a, 3);
    let c = sum_by_key(&mut ctx, b, 2);
    let mut s = DagScheduler::new();
    s.new_job(&ctx, c, vec![0, 1]);
    for id in 0..3 {
        let stage = s.fetch_from_stage_cache(id);
        assert!(stage.output_locs.iter().all(|locs| locs.is_empty()));
    }
    assert_eq!(s.fetch_from_stage_cache(1).output_locs.len(), 3);
    assert_eq!(s.fetch_from_stage_cache(2).output_locs.len(), 2);
}
