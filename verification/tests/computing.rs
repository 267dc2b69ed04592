use dag_scheduler::context::Context;
use dag_scheduler::dependency::Dependency;
use dag_scheduler::partitioner::Partitioner;
use dag_scheduler::rdd::pair_rdd::{
    pair_up, reversed, split_groups, CoGroupedValue, FlatMappedValuesRdd, PairRdd,
};
use dag_scheduler::rdd::shuffled_rdd::{Aggregator, ShuffledRdd};

#[test]
fn reversing_a_vector() {
    assert_eq!(reversed(vec![1, 2, 3]), vec![3, 2, 1]);
    assert_eq!(reversed(Vec::<u8>::new()), Vec::<u8>::new());
}

#[test]
fn flat_mapped_values_rdd_lays_the_groups_out_in_order() {
    let mut ctx = Context::new();
    let a = ctx.parallelize(1);
    let f = FlatMappedValuesRdd::<&str, u32, u32, _>::new(&mut ctx, a, |v: u32| {
        (0..v).map(|i| v * 10 + i).collect()
    });
    let out = f.compute(vec![("a", 2), ("b", 0), ("c", 3), ("a", 1)]);
    assert_eq!(
        out,
        vec![("a", 20), ("a", 21), ("c", 30), ("c", 31), ("c", 32), ("a", 10)]
    );
    assert_eq!(f.compute(vec![]), vec![]);
    assert_eq!(f.compute(vec![("z", 0)]), vec![]);
}

#[test]
fn shuffled_rdd_merges_the_combiners_of_equal_keys() {
    let mut ctx = Context::new();
    let a = ctx.parallelize(1);
    let agg = Aggregator::new(
        |v: u32| vec![v],
        |mut c: Vec<u32>, v: u32| {
            c.push(v);
            c
        },
        |mut x: Vec<u32>, mut y: Vec<u32>| {
            x.append(&mut y);
            x
        },
    );
    let s = ShuffledRdd::new(&mut ctx, a, agg, Partitioner::new(1));
    let out = s.compute(vec![
        ("b", vec![1]),
        ("a", vec![2, 3]),
        ("b", vec![4]),
        ("c", vec![]),
        ("a", vec![5]),
        ("b", vec![6, 7]),
    ]);
    assert_eq!(
        out,
        vec![("b", vec![1, 4, 6, 7]), ("a", vec![2, 3, 5]), ("c", vec![])]
    );
    assert_eq!(s.compute(Vec::<(u8, Vec<u32>)>::new()), vec![]);
}

#[test]
fn shuffled_rdd_merges_from_left_to_right() {
    let mut ctx = Context::new();
    let a = ctx.parallelize(1);
    let agg = Aggregator::new(|v: i64| v, |c: i64, v: i64| c - v, |x: i64, y: i64| x - y);
    let s = ShuffledRdd::new(&mut ctx, a, agg, Partitioner::new(1));
    let out = s.compute(vec![(7u32, 100), (7, 30), (8, 1), (7, 20)]);
    assert_eq!(out, vec![(7, 50), (8, 1)]);
}

#[test]
fn grouping_by_key_collects_the_values_in_lists() {
    let mut ctx = Context::new();
    let a = ctx.parallelize(3);
    let g = PairRdd::new(a).group_by_key::<u32>(&mut ctx, 2);
    assert_eq!(g.get_rdd_id(), 1);
    assert_eq!(g.number_of_splits(), 2);
    assert_eq!(g.shuffle_id, 0);
    assert_eq!((g.aggregator.create_combiner)(5), vec![5]);
    assert_eq!((g.aggregator.merge_value)(vec![1, 2], 3), vec![1, 2, 3]);
    assert_eq!((g.aggregator.merge_combiners)(vec![1], vec![2, 3]), vec![1, 2, 3]);
    let out = g.compute(vec![("x", vec![1]), ("y", vec![2]), ("x", vec![3, 4])]);
    assert_eq!(out, vec![("x", vec![1, 3, 4]), ("y", vec![2])]);
    let h = PairRdd::new(a).group_by_key_using_partitioner::<u32>(&mut ctx, Partitioner::new(5));
    assert_eq!((h.get_rdd_id(), h.shuffle_id, h.number_of_splits()), (2, 1, 5));
}

#[test]
fn reducing_by_key_uses_the_function_throughout() {
    let mut ctx = Context::new();
    let a = ctx.parallelize(3);
    let r = PairRdd::new(a).reduce_by_key(&mut ctx, |x: u32, y: u32| x * 10 + y, 4);
    assert_eq!((r.get_rdd_id(), r.shuffle_id, r.number_of_splits()), (1, 0, 4));
    assert_eq!((r.aggregator.create_combiner)(7), 7);
    assert_eq!((r.aggregator.merge_value)(1, 2), 12);
    assert_eq!((r.aggregator.merge_combiners)(3, 4), 34);
    assert_eq!(r.compute(vec![(1u8, 1), (2, 5), (1, 2), (1, 3)]), vec![(1, 123), (2, 5)]);
    let s = PairRdd::new(a).reduce_by_key_using_partitioner(
        &mut ctx,
        |x: u32, y: u32| x + y,
        Partitioner::new(1),
    );
    assert_eq!((s.get_rdd_id(), s.shuffle_id, s.number_of_splits()), (2, 1, 1));
}

#[test]
fn combining_by_key_makes_a_shuffled_dataset() {
    let mut ctx = Context::new();
    let a = ctx.parallelize(2);
    let c = PairRdd::new(a).combine_by_key(
        &mut ctx,
        |v: u8| v as u32,
        |c: u32, v: u8| c + v as u32,
        |x: u32, y: u32| x + y,
        Partitioner::new(3),
    );
    assert_eq!((c.get_rdd_id(), c.parent, c.shuffle_id), (1, a, 0));
    match ctx.get_dependencies(1)[0] {
        Dependency::ShuffleDependency(d) => {
            assert_eq!((d.shuffle_id, d.rdd, d.is_cogroup), (0, a, false));
            assert_eq!(d.partitioner, Partitioner::new(3));
        },
        Dependency::NarrowDependency(_) => panic!("expected a shuffle dependency"),
    }
}

#[test]
fn mapping_values_of_a_pair_dataset() {
    let mut ctx = Context::new();
    let a = ctx.parallelize(2);
    let m = PairRdd::new(a).map_values::<u8, u32, u32, _>(&mut ctx, |v: u32| v * 2);
    assert_eq!((m.get_rdd_id(), m.prev), (1, a));
    assert_eq!(m.compute(vec![(1, 2), (3, 4)]), vec![(1, 4), (3, 8)]);
    let f = PairRdd::new(m.get_rdd_id())
        .flat_map_values::<u8, u32, u32, _>(&mut ctx, |v: u32| vec![v, v + 1]);
    assert_eq!((f.get_rdd_id(), f.prev), (2, 1));
    assert_eq!(f.compute(vec![(1, 4)]), vec![(1, 4), (1, 5)]);
    assert_eq!(PairRdd::new(2).get_rdd_id(), 2);
}

#[test]
fn cogrouping_splits_the_groups_by_their_side() {
    let mut ctx = Context::new();
    let a = ctx.parallelize(2);
    let b = ctx.parallelize(3);
    let c = PairRdd::new(a).cogroup::<u8, u32, char>(&mut ctx, PairRdd::new(b), Partitioner::new(4));
    assert_eq!((c.prev, c.get_rdd_id()), (2, 3));
    assert_eq!(ctx.number_of_splits(2), 4);
    assert_eq!(ctx.number_of_splits(3), 4);
    let deps: Vec<(usize, usize, bool)> = ctx
        .get_dependencies(2)
        .iter()
        .map(|d| match d {
            Dependency::ShuffleDependency(s) => (s.shuffle_id, s.rdd, s.is_cogroup),
            Dependency::NarrowDependency(_) => panic!("expected a shuffle dependency"),
        })
        .collect();
    assert_eq!(deps, vec![(0, a, true), (1, b, true)]);
    let groups = vec![
        vec![CoGroupedValue::Left(1), CoGroupedValue::Left(2)],
        vec![CoGroupedValue::Right('x')],
        vec![CoGroupedValue::Left(9)],
    ];
    assert_eq!((c.f)(groups), (vec![1, 2], vec!['x']));
    assert_eq!(split_groups::<u32, char>(vec![]), (vec![], vec![]));
    assert_eq!(
        split_groups::<u32, char>(vec![vec![CoGroupedValue::Left(5)]]),
        (vec![5], vec![])
    );
}

#[test]
fn joining_pairs_every_value_with_every_value() {
    let mut ctx = Context::new();
    let a = ctx.parallelize(2);
    let b = ctx.parallelize(2);
    let j = PairRdd::new(a).join::<u8, u32, char>(&mut ctx, PairRdd::new(b), 2);
    assert_eq!((j.prev, j.get_rdd_id()), (3, 4));
    assert_eq!(ctx.num_rdds(), 5);
    assert_eq!(
        (j.f)((vec![1, 2], vec!['a', 'b', 'c'])),
        vec![(1, 'a'), (1, 'b'), (1, 'c'), (2, 'a'), (2, 'b'), (2, 'c')]
    );
    assert_eq!(pair_up(&vec![1, 2], &Vec::<u8>::new()), vec![]);
    assert_eq!(pair_up(&Vec::<u8>::new(), &vec![1, 2]), vec![]);
    let out = j.compute(vec![(7, (vec![1], vec!['x', 'y'])), (8, (vec![], vec!['z']))]);
    assert_eq!(out, vec![(7, (1, 'x')), (7, (1, 'y'))]);
}

#[test]
fn dataset_handles_can_be_copied() {
    let mut ctx = Context::new();
    let a = ctx.parallelize(2);
    let m = PairRdd::new(a).map_values::<u8, u32, u32, _>(&mut ctx, |v: u32| v + 1);
    let n = m.clone();
    assert_eq!((n.prev, n.get_rdd_id()), (m.prev, m.get_rdd_id()));
    assert_eq!(n.compute(vec![(1, 1)]), vec![(1, 2)]);
    let f = PairRdd::new(a).flat_map_values::<u8, u32, u32, _>(&mut ctx, |v: u32| vec![v]);
    let g = f.clone();
    assert_eq!((g.prev, g.get_rdd_id()), (f.prev, f.get_rdd_id()));
    let s = PairRdd::new(a).reduce_by_key(&mut ctx, |x: u32, y: u32| x + y, 2);
    let t = s.clone();
    assert_eq!((t.parent, t.get_rdd_id(), t.shuffle_id, t.part), (s.parent, s.id, s.shuffle_id, s.part));
    assert_eq!(t.compute(vec![(1u8, 1), (1, 2)]), vec![(1, 3)]);
    assert_eq!(ctx.num_rdds(), 4);
}
