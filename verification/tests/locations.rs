use dag_scheduler::cache_tracker::CacheTracker;
use dag_scheduler::context::Context;
use dag_scheduler::dependency::{Dependency, NarrowDependency};
use dag_scheduler::error::SchedulerError;
use dag_scheduler::partitioner::Partitioner;
use dag_scheduler::scheduler::DagScheduler;

fn node(ctx: &mut Context, deps: Vec<Dependency>, locs: Vec<Vec<u32>>, pinned: bool) -> usize {
    let n = locs.len();
    ctx.add_rdd(deps, n, locs, pinned).unwrap()
}

fn one_to_one(parent: usize) -> Dependency {
    Dependency::NarrowDependency(NarrowDependency::one_to_one(parent))
}

#[test]
fn a_pinned_node_with_one_location_is_placed_there() {
    let mut ctx = Context::new();
    let a = node(&mut ctx, vec![], vec![vec![10], vec![11]], true);
    let s = DagScheduler::new();
    assert_eq!(s.get_preferred_locs(&ctx, a, 0), Ok(vec![10]));
    assert_eq!(s.get_preferred_locs(&ctx, a, 1), Ok(vec![11]));
}

#[test]
fn a_pinned_node_without_location_fails() {
    let mut ctx = Context::new();
    let a = node(&mut ctx, vec![], vec![vec![10], vec![]], true);
    let s = DagScheduler::new();
    assert_eq!(s.get_preferred_locs(&ctx, a, 0), Ok(vec![10]));
    assert_eq!(
        s.get_preferred_locs(&ctx, a, 1),
        Err(SchedulerError::PinnedLocations { rdd: a, partition: 1, found: 0 })
    );
}

#[test]
fn a_pinned_node_with_two_locations_fails() {
    let mut ctx = Context::new();
    let a = node(&mut ctx, vec![], vec![vec![10, 11]], true);
    let s = DagScheduler::new();
    assert_eq!(
        s.get_preferred_locs(&ctx, a, 0),
        Err(SchedulerError::PinnedLocations { rdd: a, partition: 0, found: 2 })
    );
}

#[test]
fn a_pinned_node_with_two_locations_fails_even_if_it_is_cached() {
    let mut ctx = Context::new();
    let a = node(&mut ctx, vec![], vec![vec![10, 11]], true);
    let mut s = DagScheduler::new();
    s.cache_tracker.register_rdd(a, 1);
    s.cache_tracker.add_host(a, 0, 99);
    s.update_cache_locs();
    assert_eq!(
        s.get_preferred_locs(&ctx, a, 0),
        Err(SchedulerError::PinnedLocations { rdd: a, partition: 0, found: 2 })
    );
}

#[test]
fn a_pinned_parent_without_location_fails_the_child() {
    let mut ctx = Context::new();
    let a = node(&mut ctx, vec![], vec![vec![]], true);
    let b = node(&mut ctx, vec![one_to_one(a)], vec![vec![]], false);
    let s = DagScheduler::new();
    assert_eq!(
        s.get_preferred_locs(&ctx, b, 0),
        Err(SchedulerError::PinnedLocations { rdd: a, partition: 0, found: 0 })
    );
}

#[test]
fn a_node_names_its_own_locations_before_those_of_its_parents() {
    let mut ctx = Context::new();
    let a = node(&mut ctx, vec![], vec![vec![1], vec![2]], false);
    let b = node(&mut ctx, vec![one_to_one(a)], vec![vec![7, 8], vec![]], false);
    let s = DagScheduler::new();
    assert_eq!(s.get_preferred_locs(&ctx, b, 0), Ok(vec![7, 8]));
    assert_eq!(s.get_preferred_locs(&ctx, b, 1), Ok(vec![2]));
}

#[test]
fn the_first_narrow_parent_with_a_location_is_taken() {
    let mut ctx = Context::new();
    let a = node(&mut ctx, vec![], vec![vec![], vec![]], false);
    let b = node(&mut ctx, vec![], vec![vec![5], vec![]], false);
    let c = node(&mut ctx, vec![], vec![vec![6], vec![9]], false);
    let d = node(&mut ctx, vec![one_to_one(a), one_to_one(b), one_to_one(c)], vec![vec![], vec![]], false);
    let s = DagScheduler::new();
    assert_eq!(s.get_preferred_locs(&ctx, d, 0), Ok(vec![5]));
    assert_eq!(s.get_preferred_locs(&ctx, d, 1), Ok(vec![9]));
    assert_eq!(s.get_preferred_locs(&ctx, a, 1), Ok(vec![]));
}

#[test]
fn a_range_dependency_leads_to_the_shifted_partition() {
    let mut ctx = Context::new();
    let a = node(&mut ctx, vec![], vec![vec![1], vec![2], vec![3]], false);
    // partitions 1 and 2 of the child read partitions 0 and 1 of the parent
    let dep = Dependency::NarrowDependency(NarrowDependency::range(a, 0, 1, 2));
    let b = node(&mut ctx, vec![dep], vec![vec![], vec![], vec![]], false);
    let s = DagScheduler::new();
    assert_eq!(s.get_preferred_locs(&ctx, b, 0), Ok(vec![]));
    assert_eq!(s.get_preferred_locs(&ctx, b, 1), Ok(vec![1]));
    assert_eq!(s.get_preferred_locs(&ctx, b, 2), Ok(vec![2]));
}

#[test]
fn locations_are_not_looked_for_behind_a_shuffle() {
    let mut ctx = Context::new();
    let a = node(&mut ctx, vec![], vec![vec![1]], false);
    let d = ctx.new_shuffle_dependency(a, false, Partitioner::new(1)).unwrap();
    let b = node(&mut ctx, vec![Dependency::ShuffleDependency(d)], vec![vec![]], false);
    let s = DagScheduler::new();
    assert_eq!(s.get_preferred_locs(&ctx, b, 0), Ok(vec![]));
}

#[test]
fn the_snapshot_of_cache_locations_comes_first() {
    let mut ctx = Context::new();
    let a = node(&mut ctx, vec![], vec![vec![1], vec![2]], false);
    let mut s = DagScheduler::new();
    s.cache_tracker.register_rdd(a, 2);
    assert!(s.cache_tracker.add_host(a, 1, 42));
    // the snapshot has not been taken yet
    assert_eq!(s.get_preferred_locs(&ctx, a, 1), Ok(vec![2]));
    assert!(s.get_cache_locs(a).is_none());
    s.update_cache_locs();
    assert_eq!(s.get_cache_locs(a), Some(&vec![vec![], vec![42]]));
    assert_eq!(s.get_preferred_locs(&ctx, a, 1), Ok(vec![42]));
    // the snapshot's entry is the answer even where it is empty
    assert_eq!(s.get_preferred_locs(&ctx, a, 0), Ok(vec![]));
}

#[test]
fn the_cache_tracker_keeps_the_entry_of_a_registered_dataset() {
    let mut t = CacheTracker::new();
    assert!(!t.add_host(0, 0, 1));
    t.register_rdd(2, 2);
    assert_eq!(t.locs, vec![None, None, Some(vec![vec![], vec![]])]);
    assert!(t.add_host(2, 1, 7));
    assert!(t.add_host(2, 1, 8));
    assert!(!t.add_host(2, 2, 9));
    assert!(!t.add_host(1, 0, 9));
    t.register_rdd(2, 5);
    t.register_rdd(0, 1);
    assert_eq!(t.locs, vec![Some(vec![vec![]]), None, Some(vec![vec![], vec![7, 8]])]);
    let snapshot = t.get_location_snapshot();
    t.add_host(0, 0, 3);
    assert_eq!(snapshot, vec![Some(vec![vec![]]), None, Some(vec![vec![], vec![7, 8]])]);
}

#[test]
fn a_fully_cached_dataset_hides_the_stages_behind_it() {
    let mut ctx = Context::new();
    let a = ctx.parallelize(1);
    let d = ctx.new_shuffle_dependency(a, false, Partitioner::new(2)).unwrap();
    let b = node(&mut ctx, vec![Dependency::ShuffleDependency(d)], vec![vec![], vec![]], false);
    let c = node(&mut ctx, vec![one_to_one(b)], vec![vec![], vec![]], false);
    let mut s = DagScheduler::new();
    let top = s.new_stage(&ctx, c, None);
    assert_eq!(s.get_missing_parent_stages(&ctx, top), vec![1]);
    assert!(!s.is_fully_cached(&ctx, b));
    // one partition of b is cached: the stage behind it is still missing
    s.cache_tracker.add_host(b, 0, 5);
    s.update_cache_locs();
    assert!(!s.is_fully_cached(&ctx, b));
    assert_eq!(s.get_missing_parent_stages(&ctx, top), vec![1]);
    // both are cached: nothing is missing
    s.cache_tracker.add_host(b, 1, 6);
    s.update_cache_locs();
    assert!(s.is_fully_cached(&ctx, b));
    assert_eq!(s.get_missing_parent_stages(&ctx, top), Vec::<usize>::new());
    // all parent stages are still the parent stages
    assert_eq!(s.fetch_from_stage_cache(top).parents, vec![1]);
}

#[test]
fn a_dataset_without_partitions_counts_as_fully_cached() {
    let mut ctx = Context::new();
    let a = ctx.parallelize(0);
    let s = DagScheduler::new();
    assert!(s.is_fully_cached(&ctx, a));
}

#[test]
fn an_available_parent_stage_is_not_missing() {
    let mut ctx = Context::new();
    let a = ctx.parallelize(2);
    let d = ctx.new_shuffle_dependency(a, false, Partitioner::new(1)).unwrap();
    let b = node(&mut ctx, vec![Dependency::ShuffleDependency(d)], vec![vec![]], false);
    let mut s = DagScheduler::new();
    let top = s.new_stage(&ctx, b, None);
    assert_eq!(s.get_missing_parent_stages(&ctx, top), vec![1]);
    s.add_output_loc_to_stage(1, 0, "m0".to_string());
    assert_eq!(s.get_missing_parent_stages(&ctx, top), vec![1]);
    s.add_output_loc_to_stage(1, 1, "m1".to_string());
    assert_eq!(s.get_missing_parent_stages(&ctx, top), Vec::<usize>::new());
    let server = "m1".to_string();
    s.remove_output_loc_from_stage(0, 1, &server);
    assert_eq!(s.get_missing_parent_stages(&ctx, top), vec![1]);
    assert_eq!(s.first_output_locs(1), vec![Some("m0".to_string()), None]);
}
