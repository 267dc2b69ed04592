use dag_scheduler::context::Context;
use dag_scheduler::dependency::{Dependency, NarrowDependency, NarrowKind, ShuffleDependency};
use dag_scheduler::partitioner::Partitioner;
use dag_scheduler::rdd::pair_rdd::{FlatMappedValuesRdd, MappedValuesRdd};
use dag_scheduler::rdd::shuffled_rdd::{Aggregator, ShuffledRdd, ShuffledRddSplit};

#[test]
fn partitioner_takes_the_hash_modulo_the_partitions() {
    let p = Partitioner::new(4);
    assert_eq!(p.get_num_of_partitions(), 4);
    assert_eq!(p.get_partition(0), 0);
    assert_eq!(p.get_partition(7), 3);
    assert_eq!(p.get_partition(4), 0);
    assert_eq!(p.get_partition(u64::MAX), 3);
}

#[test]
fn one_to_one_dependency_reads_the_same_partition() {
    let d = NarrowDependency::one_to_one(3);
    assert_eq!(d.get_rdd_base(), 3);
    assert_eq!(d.get_parents(0), vec![0]);
    assert_eq!(d.get_parents(5), vec![5]);
}

#[test]
fn range_dependency_shifts_partitions_inside_the_range() {
    let d = NarrowDependency::range(1, 10, 2, 3);
    assert_eq!(d.kind, NarrowKind::Range { in_start: 10, out_start: 2, length: 3 });
    assert_eq!(d.get_parents(1), Vec::<usize>::new());
    assert_eq!(d.get_parents(2), vec![10]);
    assert_eq!(d.get_parents(4), vec![12]);
    assert_eq!(d.get_parents(5), Vec::<usize>::new());
}

#[test]
fn range_dependency_of_length_zero_reads_nothing() {
    let d = NarrowDependency::range(0, 0, 0, 0);
    assert_eq!(d.get_parents(0), Vec::<usize>::new());
    assert!(d.is_within(0, 0));
}

#[test]
fn narrow_dependency_must_stay_within_the_parent() {
    assert!(NarrowDependency::one_to_one(0).is_within(3, 3));
    assert!(!NarrowDependency::one_to_one(0).is_within(4, 3));
    assert!(NarrowDependency::range(0, 1, 0, 2).is_within(2, 3));
    assert!(!NarrowDependency::range(0, 2, 0, 2).is_within(2, 3));
    assert!(!NarrowDependency::range(0, usize::MAX, 0, 2).is_within(2, 3));
}

#[test]
fn parallelize_adds_a_source_node() {
    let mut ctx = Context::new();
    assert_eq!(ctx.num_rdds(), 0);
    let a = ctx.parallelize(3);
    let b = ctx.parallelize(0);
    assert_eq!((a, b), (0, 1));
    assert_eq!(ctx.num_rdds(), 2);
    assert_eq!(ctx.number_of_splits(a), 3);
    assert_eq!(ctx.number_of_splits(b), 0);
    assert!(ctx.get_dependencies(a).is_empty());
    assert!(!ctx.is_pinned(a));
    assert!(ctx.preferred_locations(a, 2).is_empty());
}

#[test]
fn add_rdd_refuses_what_does_not_fit_the_graph() {
    let mut ctx = Context::new();
    let a = ctx.parallelize(2);
    // one list of locations too few
    assert_eq!(ctx.add_rdd(vec![], 2, vec![vec![]], false), None);
    // the parent does not exist
    let missing = Dependency::NarrowDependency(NarrowDependency::one_to_one(5));
    assert_eq!(ctx.add_rdd(vec![missing], 2, vec![vec![], vec![]], false), None);
    // more partitions than the parent has
    let wide = Dependency::NarrowDependency(NarrowDependency::one_to_one(a));
    assert_eq!(ctx.add_rdd(vec![wide], 3, vec![vec![], vec![], vec![]], false), None);
    // a shuffle that was never registered
    let unknown = Dependency::ShuffleDependency(ShuffleDependency {
        shuffle_id: 0,
        is_cogroup: false,
        rdd: a,
        partitioner: Partitioner::new(2),
    });
    assert_eq!(ctx.add_rdd(vec![unknown], 2, vec![vec![], vec![]], false), None);
    assert_eq!(ctx.num_rdds(), 1);
    // and what fits is added
    let ok = Dependency::NarrowDependency(NarrowDependency::one_to_one(a));
    assert_eq!(ctx.add_rdd(vec![ok], 2, vec![vec![1], vec![2]], true), Some(1));
    assert_eq!(ctx.num_rdds(), 2);
    assert!(ctx.is_pinned(1));
    assert_eq!(ctx.preferred_locations(1, 1), &vec![2]);
}

#[test]
fn a_registered_shuffle_can_be_depended_on() {
    let mut ctx = Context::new();
    let a = ctx.parallelize(2);
    assert_eq!(ctx.new_shuffle_dependency(7, false, Partitioner::new(3)), None);
    let d = ctx.new_shuffle_dependency(a, true, Partitioner::new(3)).unwrap();
    assert_eq!(d.get_shuffle_id(), 0);
    assert_eq!(d.get_rdd_base(), a);
    assert!(d.is_cogroup);
    let e = ctx.new_shuffle_dependency(a, false, Partitioner::new(1)).unwrap();
    assert_eq!(e.shuffle_id, 1);
    let id = ctx.add_rdd(
        vec![Dependency::ShuffleDependency(d), Dependency::ShuffleDependency(e)],
        3,
        vec![vec![], vec![], vec![]],
        false,
    );
    assert_eq!(id, Some(1));
    // a descriptor that differs from the registered one is refused
    let forged = ShuffleDependency { rdd: 1, ..d };
    assert_eq!(ctx.add_rdd(vec![Dependency::ShuffleDependency(forged)], 0, vec![], false), None);
}

#[test]
fn mapped_values_rdd_reads_its_parent_one_to_one() {
    let mut ctx = Context::new();
    let a = ctx.parallelize(4);
    let m = MappedValuesRdd::<u8, u32, u64, _>::new(&mut ctx, a, |v: u32| v as u64 * 2);
    assert_eq!(m.get_rdd_id(), 1);
    assert_eq!(m.prev, a);
    assert_eq!(m.number_of_splits(&ctx), 4);
    assert_eq!(ctx.number_of_splits(1), 4);
    assert_eq!(
        ctx.get_dependencies(1),
        &vec![Dependency::NarrowDependency(NarrowDependency::one_to_one(a))]
    );
    assert!(!ctx.is_pinned(1));
}

#[test]
fn mapped_values_rdd_maps_each_value_and_keeps_keys_and_order() {
    let mut ctx = Context::new();
    let a = ctx.parallelize(1);
    let m = MappedValuesRdd::<&str, u32, u64, _>::new(&mut ctx, a, |v: u32| v as u64 + 100);
    let out = m.compute(vec![("x", 1), ("y", 2), ("x", 3)]);
    assert_eq!(out, vec![("x", 101), ("y", 102), ("x", 103)]);
    assert_eq!(m.compute(vec![]), vec![]);
}

#[test]
fn flat_mapped_values_rdd_reads_its_parent_one_to_one() {
    let mut ctx = Context::new();
    let a = ctx.parallelize(2);
    let f = FlatMappedValuesRdd::<u8, u32, u32, _>::new(&mut ctx, a, |v: u32| vec![v, v]);
    assert_eq!(f.get_rdd_id(), 1);
    assert_eq!(f.number_of_splits(&ctx), 2);
    assert_eq!(
        ctx.get_dependencies(1),
        &vec![Dependency::NarrowDependency(NarrowDependency::one_to_one(a))]
    );
}

#[test]
fn shuffled_rdd_registers_a_new_shuffle() {
    let mut ctx = Context::new();
    let a = ctx.parallelize(4);
    let agg = Aggregator::new(|v: u32| v, |c: u32, v: u32| c + v, |x: u32, y: u32| x + y);
    let s = ShuffledRdd::new(&mut ctx, a, agg, Partitioner::new(3));
    assert_eq!(s.get_rdd_id(), 1);
    assert_eq!(s.shuffle_id, 0);
    assert_eq!(s.parent, a);
    assert_eq!(s.number_of_splits(), 3);
    assert_eq!(s.partitioner(), Some(Partitioner::new(3)));
    assert_eq!(ctx.number_of_splits(1), 3);
    let expected = ShuffleDependency {
        shuffle_id: 0,
        is_cogroup: false,
        rdd: a,
        partitioner: Partitioner::new(3),
    };
    assert_eq!(ctx.get_dependencies(1), &vec![Dependency::ShuffleDependency(expected)]);
    let agg2 = Aggregator::new(|v: u32| v, |c: u32, v: u32| c + v, |x: u32, y: u32| x + y);
    let t = ShuffledRdd::new(&mut ctx, 1, agg2, Partitioner::new(2));
    assert_eq!(t.shuffle_id, 1);
    assert_eq!(t.get_rdd_id(), 2);
}

#[test]
fn shuffled_rdd_splits_are_numbered_in_order() {
    let mut ctx = Context::new();
    let a = ctx.parallelize(1);
    let agg = Aggregator::new(|v: u32| v, |c: u32, v: u32| c + v, |x: u32, y: u32| x + y);
    let s = ShuffledRdd::new(&mut ctx, a, agg, Partitioner::new(3));
    let splits = s.splits();
    assert_eq!(
        splits,
        vec![ShuffledRddSplit::new(0), ShuffledRddSplit::new(1), ShuffledRddSplit::new(2)]
    );
    assert_eq!(splits[2].get_index(), 2);
}
