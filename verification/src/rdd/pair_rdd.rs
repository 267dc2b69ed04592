//! Datasets of key-value pairs that transform the values of another dataset
//! and keep its partitioning.

use crate::context::Context;
use crate::dependency::{Dependency, NarrowDependency, NarrowKind, ShuffleDependency};
use crate::partitioner::Partitioner;
use crate::rdd::shuffled_rdd::{is_shuffled_child, Aggregator, ShuffledRdd};
use std::marker::PhantomData;
use vstd::prelude::*;

verus! {

/// The elements of `v` in reverse order.
pub fn reversed<T>(v: Vec<T>) -> (r: Vec<T>)
    ensures
        r@ == v@.reverse(),
{
    let ghost all = v@;
    let mut rest = v;
    let mut r: Vec<T> = Vec::new();
    while rest.len() > 0
        invariant
            rest@.len() <= all.len(),
            rest@ == all.subrange(0, rest@.len() as int),
            r@.len() == all.len() - rest@.len(),
            forall|j: int| 0 <= j < r@.len() ==> #[trigger] r@[j] == all[all.len() - 1 - j],
        decreases rest@.len(),
    {
        let ghost n = rest@.len();
        match rest.pop() {
            Some(x) => {
                assert(all[n - 1] == x);
                r.push(x);
            },
            None => {},
        }
    }
    assert(r@ =~= all.reverse());
    r
}

/// The pairs of `values`, in order, each under the key `key`.
pub open spec fn keyed<K, U>(key: K, values: Seq<U>) -> Seq<(K, U)> {
    Seq::new(values.len(), |i: int| (key, values[i]))
}

/// The values of the first `n` groups, in order, each under the key of the
/// pair of `input` that its group belongs to.
pub open spec fn flattened<K, V, U>(input: Seq<(K, V)>, groups: Seq<Seq<U>>, n: nat) -> Seq<(K, U)>
    decreases n,
{
    if n == 0 {
        Seq::empty()
    } else {
        flattened(input, groups, (n - 1) as nat) + keyed(input[n - 1].0, groups[n - 1])
    }
}

/// The values `group` are what `f` may make of `v`.
pub open spec fn made_of<V, U, F: Fn(V) -> Vec<U>>(f: F, v: V, group: Seq<U>) -> bool {
    exists|g: Vec<U>| #[trigger] f.ensures((v,), g) && g@ == group
}

/// The pairs `out` are those of `input` with each value replaced by the values
/// `groups` that `f` makes of it: one group for each pair of `input`, and the
/// groups laid out in order.
pub open spec fn flat_mapped<K, V, U, F: Fn(V) -> Vec<U>>(
    f: F,
    input: Seq<(K, V)>,
    groups: Seq<Seq<U>>,
    out: Seq<(K, U)>,
) -> bool {
    &&& groups.len() == input.len()
    &&& forall|i: int| 0 <= i < input.len() ==> #[trigger] made_of(f, input[i].1, groups[i])
    &&& out == flattened(input, groups, input.len())
}

/// One list without locations for each of `n` partitions.
pub fn no_locations(n: usize) -> (locs: Vec<Vec<u32>>)
    ensures
        locs@.len() == n,
        forall|p: int| 0 <= p < n ==> (#[trigger] locs@[p])@.len() == 0,
{
    let mut locs: Vec<Vec<u32>> = Vec::new();
    let mut p: usize = 0;
    while p < n
        invariant
            p <= n,
            locs@.len() == p,
            forall|q: int| 0 <= q < p ==> (#[trigger] locs@[q])@.len() == 0,
        decreases n - p,
    {
        locs.push(Vec::new());
        p = p + 1;
    }
    locs
}

/// Node `id` of `ctx` is a dataset that reads dataset `prev` partition by
/// partition: it has the partitions of `prev`, one one-to-one dependency on it,
/// no preferred locations of its own, and is not pinned.
pub open spec fn is_one_to_one_child(ctx: &Context, id: usize, prev: usize) -> bool {
    let node = ctx.rdds@[id as int];
    &&& id < ctx.rdds@.len()
    &&& prev < id
    &&& node.id == id
    &&& node.dependencies@ == seq![
        Dependency::NarrowDependency(NarrowDependency { rdd: prev, kind: NarrowKind::OneToOne }),
    ]
    &&& node.num_splits == ctx.rdds@[prev as int].num_splits
    &&& node.preferred_locs@.len() == node.num_splits
    &&& forall|p: int| 0 <= p < node.num_splits ==> (#[trigger] node.preferred_locs@[p])@.len() == 0
    &&& !node.pinned
}

/// `after` is `before` with one more dataset node, and the same shuffles.
pub open spec fn one_node_added(before: &Context, after: &Context) -> bool {
    &&& after.rdds@.len() == before.rdds@.len() + 1
    &&& forall|i: int| 0 <= i < before.rdds@.len() ==> after.rdds@[i] == before.rdds@[i]
    &&& after.shuffles@ == before.shuffles@
}

/// Adds to `ctx` a node that reads `prev` partition by partition.
pub fn add_one_to_one_child(ctx: &mut Context, prev: usize) -> (id: usize)
    requires
        old(ctx).wf(),
        prev < old(ctx).rdds@.len(),
    ensures
        final(ctx).wf(),
        one_node_added(old(ctx), final(ctx)),
        id == old(ctx).rdds@.len(),
        is_one_to_one_child(final(ctx), id, prev),
{
    let n = ctx.number_of_splits(prev);
    let locs = no_locations(n);
    let mut dependencies: Vec<Dependency> = Vec::new();
    dependencies.push(Dependency::NarrowDependency(NarrowDependency::one_to_one(prev)));
    proof {
        assert(old(ctx).admits(dependencies@, n, locs@)) by {
            assert forall|k: int| 0 <= k < dependencies@.len() implies old(ctx).dep_ok(
                old(ctx).rdds@.len() as int,
                n,
                #[trigger] dependencies@[k],
            ) by {}
        }
    }
    match ctx.add_rdd(dependencies, n, locs, false) {
        Some(id) => {
            proof {
                assert(ctx.rdds@[id as int].dependencies@ =~= seq![
                    Dependency::NarrowDependency(
                        NarrowDependency { rdd: prev, kind: NarrowKind::OneToOne },
                    ),
                ]);
            }
            id
        },
        None => vstd::pervasive::unreached(),
    }
}

/// A dataset of pairs whose values are those of the dataset `prev`, each
/// transformed by `f`; the keys and the partitioning are those of `prev`.
#[verifier::reject_recursive_types(K)]
#[verifier::reject_recursive_types(V)]
#[verifier::reject_recursive_types(U)]
#[verifier::reject_recursive_types(F)]
pub struct MappedValuesRdd<K, V, U, F> where F: Fn(V) -> U {
    pub prev: usize,
    pub id: usize,
    pub f: F,
    pub _marker_t: PhantomData<K>,
    pub _marker_v: PhantomData<V>,
    pub _marker_u: PhantomData<U>,
}

impl<K, V, U, F> Clone for MappedValuesRdd<K, V, U, F> where F: Fn(V) -> U + Clone {
    /// A copy that names the same nodes and holds a copy of the function.
    fn clone(&self) -> (r: Self)
        ensures
            r.prev == self.prev,
            r.id == self.id,
    {
        MappedValuesRdd {
            prev: self.prev,
            id: self.id,
            f: self.f.clone(),
            _marker_t: PhantomData,
            _marker_v: PhantomData,
            _marker_u: PhantomData,
        }
    }
}

impl<K, V, U, F> MappedValuesRdd<K, V, U, F> where F: Fn(V) -> U {
    /// Adds the dataset to the lineage graph `ctx`, as a node that reads `prev`
    /// partition by partition.
    pub fn new(ctx: &mut Context, prev: usize, f: F) -> (rdd: Self)
        requires
            old(ctx).wf(),
            prev < old(ctx).rdds@.len(),
        ensures
            final(ctx).wf(),
            one_node_added(old(ctx), final(ctx)),
            rdd.id == old(ctx).rdds@.len(),
            rdd.prev == prev,
            rdd.f == f,
            is_one_to_one_child(final(ctx), rdd.id, prev),
    {
        let id = add_one_to_one_child(ctx, prev);
        MappedValuesRdd {
            prev,
            id,
            f,
            _marker_t: PhantomData,
            _marker_v: PhantomData,
            _marker_u: PhantomData,
        }
    }

    /// The id of the dataset's node.
    pub fn get_rdd_id(&self) -> (id: usize)
        ensures
            id == self.id,
    {
        self.id
    }

    /// The number of partitions: that of the dataset it reads.
    pub fn number_of_splits(&self, ctx: &Context) -> (n: usize)
        requires
            self.prev < ctx.rdds@.len(),
        ensures
            n == ctx.rdds@[self.prev as int].num_splits,
    {
        ctx.number_of_splits(self.prev)
    }

    /// The pairs of one partition: `input` holds the pairs of that partition of
    /// the dataset it reads; each value is replaced by what `f` makes of it.
    pub fn compute(&self, input: Vec<(K, V)>) -> (out: Vec<(K, U)>)
        requires
            forall|i: int| 0 <= i < input@.len() ==> self.f.requires((input@[i].1,)),
        ensures
            out@.len() == input@.len(),
            forall|i: int|
                0 <= i < input@.len() ==> (#[trigger] out@[i]).0 == input@[i].0 && self.f.ensures(
                    (input@[i].1,),
                    out@[i].1,
                ),
    {
        let ghost all = input@;
        let mut rest = reversed(input);
        let mut out: Vec<(K, U)> = Vec::new();
        while rest.len() > 0
            invariant
                rest@.len() <= all.len(),
                rest@ == all.reverse().subrange(0, rest@.len() as int),
                out@.len() == all.len() - rest@.len(),
                forall|i: int| 0 <= i < all.len() ==> self.f.requires((all[i].1,)),
                forall|i: int|
                    0 <= i < out@.len() ==> (#[trigger] out@[i]).0 == all[i].0 && self.f.ensures(
                        (all[i].1,),
                        out@[i].1,
                    ),
            decreases rest@.len(),
        {
            let ghost n = rest@.len();
            match rest.pop() {
                Some((k, v)) => {
                    assert(all.reverse()[n - 1] == (k, v));
                    assert(all[all.len() - n] == (k, v));
                    let u = (self.f)(v);
                    out.push((k, u));
                },
                None => {},
            }
        }
        out
    }
}

/// A dataset of pairs in which each value of the dataset `prev` is replaced by
/// the values that `f` makes of it, each under the key of that value; the
/// partitioning is that of `prev`.
#[verifier::reject_recursive_types(K)]
#[verifier::reject_recursive_types(V)]
#[verifier::reject_recursive_types(U)]
#[verifier::reject_recursive_types(F)]
pub struct FlatMappedValuesRdd<K, V, U, F> where F: Fn(V) -> Vec<U> {
    pub prev: usize,
    pub id: usize,
    pub f: F,
    pub _marker_t: PhantomData<K>,
    pub _marker_v: PhantomData<V>,
    pub _marker_u: PhantomData<U>,
}

impl<K, V, U, F> Clone for FlatMappedValuesRdd<K, V, U, F> where F: Fn(V) -> Vec<U> + Clone {
    /// A copy that names the same nodes and holds a copy of the function.
    fn clone(&self) -> (r: Self)
        ensures
            r.prev == self.prev,
            r.id == self.id,
    {
        FlatMappedValuesRdd {
            prev: self.prev,
            id: self.id,
            f: self.f.clone(),
            _marker_t: PhantomData,
            _marker_v: PhantomData,
            _marker_u: PhantomData,
        }
    }
}

impl<K, V, U, F> FlatMappedValuesRdd<K, V, U, F> where F: Fn(V) -> Vec<U> {
    /// Adds the dataset to the lineage graph `ctx`, as a node that reads `prev`
    /// partition by partition.
    pub fn new(ctx: &mut Context, prev: usize, f: F) -> (rdd: Self)
        requires
            old(ctx).wf(),
            prev < old(ctx).rdds@.len(),
        ensures
            final(ctx).wf(),
            one_node_added(old(ctx), final(ctx)),
            rdd.id == old(ctx).rdds@.len(),
            rdd.prev == prev,
            rdd.f == f,
            is_one_to_one_child(final(ctx), rdd.id, prev),
    {
        let id = add_one_to_one_child(ctx, prev);
        FlatMappedValuesRdd {
            prev,
            id,
            f,
            _marker_t: PhantomData,
            _marker_v: PhantomData,
            _marker_u: PhantomData,
        }
    }

    /// The id of the dataset's node.
    pub fn get_rdd_id(&self) -> (id: usize)
        ensures
            id == self.id,
    {
        self.id
    }

    /// The number of partitions: that of the dataset it reads.
    pub fn number_of_splits(&self, ctx: &Context) -> (n: usize)
        requires
            self.prev < ctx.rdds@.len(),
        ensures
            n == ctx.rdds@[self.prev as int].num_splits,
    {
        ctx.number_of_splits(self.prev)
    }

    /// The pairs of one partition: `input` holds the pairs of that partition of
    /// the dataset it reads; each pair is replaced by one pair for each value
    /// that `f` makes of its value, in the order in which `f` gives them and
    /// under the same key.
    pub fn compute(&self, input: Vec<(K, V)>) -> (out: Vec<(K, U)>) where K: Copy
        requires
            forall|i: int| 0 <= i < input@.len() ==> self.f.requires((input@[i].1,)),
        ensures
            exists|groups: Seq<Seq<U>>| #[trigger] flat_mapped(self.f, input@, groups, out@),
    {
        let ghost all = input@;
        let mut rest = reversed(input);
        let mut out: Vec<(K, U)> = Vec::new();
        let ghost mut groups: Seq<Seq<U>> = Seq::empty();
        while rest.len() > 0
            invariant
                rest@.len() <= all.len(),
                rest@ == all.reverse().subrange(0, rest@.len() as int),
                groups.len() == all.len() - rest@.len(),
                forall|i: int| 0 <= i < all.len() ==> self.f.requires((all[i].1,)),
                forall|i: int|
                    0 <= i < groups.len() ==> #[trigger] made_of(self.f, all[i].1, groups[i]),
                out@ == flattened(all, groups, groups.len()),
            decreases rest@.len(),
        {
            let ghost n = rest@.len();
            let ghost done = groups.len();
            match rest.pop() {
                Some((k, v)) => {
                    assert(all.reverse()[n - 1] == (k, v));
                    assert(all[done as int] == (k, v));
                    let made = (self.f)(v);
                    let ghost group = made@;
                    let ghost before = out@;
                    let mut values = reversed(made);
                    while values.len() > 0
                        invariant
                            values@.len() <= group.len(),
                            values@ == group.reverse().subrange(0, values@.len() as int),
                            out@ == before + keyed(k, group.subrange(0, group.len() - values@.len())),
                        decreases values@.len(),
                    {
                        let ghost m = values@.len();
                        match values.pop() {
                            Some(u) => {
                                assert(group.reverse()[m - 1] == u);
                                assert(group[group.len() - m] == u);
                                out.push((k, u));
                                assert(out@ =~= before + keyed(
                                    k,
                                    group.subrange(0, group.len() - m + 1),
                                ));
                            },
                            None => {},
                        }
                    }
                    proof {
                        assert(group.subrange(0, group.len() as int) =~= group);
                        let grown = groups.push(group);
                        assert forall|i: int| 0 <= i < grown.len() implies #[trigger] made_of(
                            self.f,
                            all[i].1,
                            grown[i],
                        ) by {
                            if i < groups.len() {
                                assert(made_of(self.f, all[i].1, groups[i]));
                            } else {
                                assert(self.f.ensures((all[i].1,), made) && made@ == grown[i]);
                            }
                        }
                        lemma_flattened_prefix(all, groups, grown, done);
                        groups = grown;
                    }
                },
                None => {},
            }
        }
        proof {
            assert(flat_mapped(self.f, all, groups, out@));
        }
        out
    }
}

/// The flattening of the first `n` groups reads no group from the `n`-th on.
pub proof fn lemma_flattened_prefix<K, V, U>(
    input: Seq<(K, V)>,
    a: Seq<Seq<U>>,
    b: Seq<Seq<U>>,
    n: nat,
)
    requires
        n <= a.len(),
        n <= b.len(),
        forall|i: int| 0 <= i < n ==> a[i] == b[i],
    ensures
        flattened(input, a, n) == flattened(input, b, n),
    decreases n,
{
    if n > 0 {
        lemma_flattened_prefix(input, a, b, (n - 1) as nat);
    }
}

/// `after` is `before` with one more shuffle and one more dataset node, the
/// reduce side of that shuffle over dataset `parent`.
pub open spec fn shuffle_added(before: &Context, after: &Context, parent: usize, part: Partitioner) -> bool {
    &&& after.rdds@.len() == before.rdds@.len() + 1
    &&& forall|i: int| 0 <= i < before.rdds@.len() ==> after.rdds@[i] == before.rdds@[i]
    &&& after.shuffles@ == before.shuffles@.push(
        ShuffleDependency {
            shuffle_id: before.shuffles@.len() as usize,
            is_cogroup: false,
            rdd: parent,
            partitioner: part,
        },
    )
    &&& is_shuffled_child(
        after,
        before.rdds@.len() as usize,
        parent,
        before.shuffles@.len() as usize,
        part,
    )
}

/// A dataset of key-value pairs, named by the id of its node.  Its operations
/// add the datasets that derive from it to the lineage graph.
#[derive(Clone, Copy, Debug, PartialEq, Eq, Structural)]
pub struct PairRdd {
    pub id: usize,
}

impl PairRdd {
    /// The dataset of pairs whose node has id `id`.
    pub fn new(id: usize) -> (rdd: Self)
        ensures
            rdd.id == id,
    {
        PairRdd { id }
    }

    /// The id of the dataset's node.
    pub fn get_rdd_id(&self) -> (id: usize)
        ensures
            id == self.id,
    {
        self.id
    }

    /// The dataset in which the values of each key are combined: behind a new
    /// shuffle that `partitioner` partitions, with the three functions as its
    /// aggregator.
    pub fn combine_by_key<CC, MV, MC>(
        &self,
        ctx: &mut Context,
        create_combiner: CC,
        merge_value: MV,
        merge_combiners: MC,
        partitioner: Partitioner,
    ) -> (rdd: ShuffledRdd<CC, MV, MC>)
        requires
            old(ctx).wf(),
            self.id < old(ctx).rdds@.len(),
        ensures
            final(ctx).wf(),
            shuffle_added(old(ctx), final(ctx), self.id, partitioner),
            rdd.id == old(ctx).rdds@.len(),
            rdd.shuffle_id == old(ctx).shuffles@.len(),
            rdd.parent == self.id,
            rdd.part == partitioner,
            rdd.aggregator == (Aggregator { create_combiner, merge_value, merge_combiners }),
    {
        let aggregator = Aggregator::new(create_combiner, merge_value, merge_combiners);
        ShuffledRdd::new(ctx, self.id, aggregator, partitioner)
    }

    /// The dataset in which each key has the list of all its values, behind a
    /// new shuffle into `num_splits` partitions.
    pub fn group_by_key<V>(&self, ctx: &mut Context, num_splits: usize) -> (rdd: ShuffledRdd<
        impl Fn(V) -> Vec<V> + Clone,
        impl Fn(Vec<V>, V) -> Vec<V> + Clone,
        impl Fn(Vec<V>, Vec<V>) -> Vec<V> + Clone,
    >)
        requires
            old(ctx).wf(),
            self.id < old(ctx).rdds@.len(),
        ensures
            final(ctx).wf(),
            shuffle_added(old(ctx), final(ctx), self.id, Partitioner { partitions: num_splits }),
            rdd.id == old(ctx).rdds@.len(),
            rdd.shuffle_id == old(ctx).shuffles@.len(),
            rdd.parent == self.id,
            rdd.part == (Partitioner { partitions: num_splits }),
            collects_values(rdd.aggregator),
    {
        self.group_by_key_using_partitioner(ctx, Partitioner::new(num_splits))
    }

    /// The dataset in which each key has the list of all its values, behind a
    /// new shuffle that `partitioner` partitions.  A list starts with one
    /// value, takes further values at its end, and is merged with another by
    /// appending that one.
    pub fn group_by_key_using_partitioner<V>(&self, ctx: &mut Context, partitioner: Partitioner) -> (rdd:
        ShuffledRdd<
        impl Fn(V) -> Vec<V> + Clone,
        impl Fn(Vec<V>, V) -> Vec<V> + Clone,
        impl Fn(Vec<V>, Vec<V>) -> Vec<V> + Clone,
    >)
        requires
            old(ctx).wf(),
            self.id < old(ctx).rdds@.len(),
        ensures
            final(ctx).wf(),
            shuffle_added(old(ctx), final(ctx), self.id, partitioner),
            rdd.id == old(ctx).rdds@.len(),
            rdd.shuffle_id == old(ctx).shuffles@.len(),
            rdd.parent == self.id,
            rdd.part == partitioner,
            collects_values(rdd.aggregator),
    {
        let create_combiner = |v: V| -> (r: Vec<V>)
            ensures
                r@ == seq![v],
            {
                let mut r: Vec<V> = Vec::new();
                r.push(v);
                assert(r@ =~= seq![v]);
                r
            };
        let merge_value = |buf: Vec<V>, v: V| -> (r: Vec<V>)
            ensures
                r@ == buf@.push(v),
            {
                let mut buf = buf;
                buf.push(v);
                buf
            };
        let merge_combiners = |b1: Vec<V>, b2: Vec<V>| -> (r: Vec<V>)
            ensures
                r@ == b1@ + b2@,
            {
                let mut b1 = b1;
                let mut b2 = b2;
                b1.append(&mut b2);
                b1
            };
        self.combine_by_key(ctx, create_combiner, merge_value, merge_combiners, partitioner)
    }

    /// The dataset in which the values of each key are reduced to one by
    /// `func`, behind a new shuffle into `num_splits` partitions.
    pub fn reduce_by_key<V, F: Fn(V, V) -> V + Copy>(
        &self,
        ctx: &mut Context,
        func: F,
        num_splits: usize,
    ) -> (rdd: ShuffledRdd<
        impl Fn(V) -> V + Clone,
        impl Fn(V, V) -> V + Clone,
        impl Fn(V, V) -> V + Clone,
    >)
        requires
            old(ctx).wf(),
            self.id < old(ctx).rdds@.len(),
        ensures
            final(ctx).wf(),
            shuffle_added(old(ctx), final(ctx), self.id, Partitioner { partitions: num_splits }),
            rdd.id == old(ctx).rdds@.len(),
            rdd.shuffle_id == old(ctx).shuffles@.len(),
            rdd.parent == self.id,
            rdd.part == (Partitioner { partitions: num_splits }),
            reduces_with(rdd.aggregator, func),
    {
        self.reduce_by_key_using_partitioner(ctx, func, Partitioner::new(num_splits))
    }

    /// The dataset in which the values of each key are reduced to one by
    /// `func`, behind a new shuffle that `partitioner` partitions.  The first
    /// value of a key is taken as it is, and `func` both takes in a further
    /// value and merges two reduced values.
    pub fn reduce_by_key_using_partitioner<V, F: Fn(V, V) -> V + Copy>(
        &self,
        ctx: &mut Context,
        func: F,
        partitioner: Partitioner,
    ) -> (rdd: ShuffledRdd<
        impl Fn(V) -> V + Clone,
        impl Fn(V, V) -> V + Clone,
        impl Fn(V, V) -> V + Clone,
    >)
        requires
            old(ctx).wf(),
            self.id < old(ctx).rdds@.len(),
        ensures
            final(ctx).wf(),
            shuffle_added(old(ctx), final(ctx), self.id, partitioner),
            rdd.id == old(ctx).rdds@.len(),
            rdd.shuffle_id == old(ctx).shuffles@.len(),
            rdd.parent == self.id,
            rdd.part == partitioner,
            reduces_with(rdd.aggregator, func),
    {
        let create_combiner = |v: V| -> (r: V)
            ensures
                r == v,
            { v };
        let merge_value = move |buf: V, v: V| -> (r: V)
            requires
                func.requires((buf, v)),
            ensures
                func.ensures((buf, v), r),
            { func(buf, v) };
        let merge_combiners = move |b1: V, b2: V| -> (r: V)
            requires
                func.requires((b1, b2)),
            ensures
                func.ensures((b1, b2), r),
            { func(b1, b2) };
        self.combine_by_key(ctx, create_combiner, merge_value, merge_combiners, partitioner)
    }

    /// The dataset with the keys of this one and each value transformed by `f`.
    pub fn map_values<K, V, U, F: Fn(V) -> U>(&self, ctx: &mut Context, f: F) -> (rdd: MappedValuesRdd<
        K,
        V,
        U,
        F,
    >)
        requires
            old(ctx).wf(),
            self.id < old(ctx).rdds@.len(),
        ensures
            final(ctx).wf(),
            one_node_added(old(ctx), final(ctx)),
            rdd.id == old(ctx).rdds@.len(),
            rdd.prev == self.id,
            rdd.f == f,
            is_one_to_one_child(final(ctx), rdd.id, self.id),
    {
        MappedValuesRdd::new(ctx, self.id, f)
    }

    /// The dataset with the keys of this one, in which each value is replaced by
    /// the values that `f` makes of it.
    pub fn flat_map_values<K, V, U, F: Fn(V) -> Vec<U>>(&self, ctx: &mut Context, f: F) -> (rdd:
        FlatMappedValuesRdd<K, V, U, F>)
        requires
            old(ctx).wf(),
            self.id < old(ctx).rdds@.len(),
        ensures
            final(ctx).wf(),
            one_node_added(old(ctx), final(ctx)),
            rdd.id == old(ctx).rdds@.len(),
            rdd.prev == self.id,
            rdd.f == f,
            is_one_to_one_child(final(ctx), rdd.id, self.id),
    {
        FlatMappedValuesRdd::new(ctx, self.id, f)
    }

    /// The dataset that groups, key by key, the values of this dataset and
    /// those of `other`: behind two new shuffles that `partitioner` partitions,
    /// one over each of the two datasets, a dataset that holds for each key the
    /// groups of values that came from either side, and on top of it the
    /// dataset that is returned, which splits the groups into the values of
    /// this dataset and those of `other`.
    pub fn cogroup<K, V, W>(&self, ctx: &mut Context, other: PairRdd, partitioner: Partitioner) -> (rdd:
        MappedValuesRdd<
        K,
        Vec<Vec<CoGroupedValue<V, W>>>,
        (Vec<V>, Vec<W>),
        impl Fn(Vec<Vec<CoGroupedValue<V, W>>>) -> (Vec<V>, Vec<W>),
    >)
        requires
            old(ctx).wf(),
            self.id < old(ctx).rdds@.len(),
            other.id < old(ctx).rdds@.len(),
        ensures
            final(ctx).wf(),
            cogrouped(old(ctx), final(ctx), self.id, other.id, partitioner),
            rdd.prev == old(ctx).rdds@.len(),
            rdd.id == old(ctx).rdds@.len() + 1,
            is_one_to_one_child(final(ctx), rdd.id, rdd.prev),
            forall|groups: Vec<Vec<CoGroupedValue<V, W>>>|
                splittable(groups.deep_view()) ==> #[trigger] rdd.f.requires((groups,)),
            forall|groups: Vec<Vec<CoGroupedValue<V, W>>>, r: (Vec<V>, Vec<W>)| #[trigger]
                rdd.f.ensures((groups,), r) ==> split_of(groups.deep_view(), r.0@, r.1@),
    {
        let ghost c0 = *ctx;
        let n = partitioner.get_num_of_partitions();
        let left = match ctx.new_shuffle_dependency(self.id, true, partitioner) {
            Some(d) => d,
            None => vstd::pervasive::unreached(),
        };
        let right = match ctx.new_shuffle_dependency(other.id, true, partitioner) {
            Some(d) => d,
            None => vstd::pervasive::unreached(),
        };
        let ghost c1 = *ctx;
        let mut dependencies: Vec<Dependency> = Vec::new();
        dependencies.push(Dependency::ShuffleDependency(left));
        dependencies.push(Dependency::ShuffleDependency(right));
        let locs = no_locations(n);
        proof {
            assert(c1.admits(dependencies@, n, locs@)) by {
                assert forall|k: int| 0 <= k < dependencies@.len() implies c1.dep_ok(
                    c1.rdds@.len() as int,
                    n,
                    #[trigger] dependencies@[k],
                ) by {}
            }
        }
        let grouped = match ctx.add_rdd(dependencies, n, locs, false) {
            Some(id) => id,
            None => vstd::pervasive::unreached(),
        };
        proof {
            assert(ctx.rdds@[grouped as int].dependencies@ =~= seq![
                Dependency::ShuffleDependency(left),
                Dependency::ShuffleDependency(right),
            ]);
        }
        let ghost c2 = *ctx;
        let f = |groups: Vec<Vec<CoGroupedValue<V, W>>>| -> (r: (Vec<V>, Vec<W>))
            requires
                splittable(groups.deep_view()),
            ensures
                split_of(groups.deep_view(), r.0@, r.1@),
            { split_groups(groups) };
        let rdd = MappedValuesRdd::new(ctx, grouped, f);
        proof {
            assert(ctx.rdds@[grouped as int] == c2.rdds@[grouped as int]);
            assert forall|i: int| 0 <= i < c0.rdds@.len() implies ctx.rdds@[i] == c0.rdds@[i] by {
                assert(c2.rdds@[i] == c0.rdds@[i]);
            }
        }
        rdd
    }

    /// The dataset that pairs, key by key, each value of this dataset with each
    /// value of `other`: the co-grouped dataset of the two, behind two new
    /// shuffles into `num_splits` partitions, with each pair of groups replaced
    /// by the pairs of their values.
    pub fn join<K, V: Copy, W: Copy>(&self, ctx: &mut Context, other: PairRdd, num_splits: usize) -> (rdd:
        FlatMappedValuesRdd<
        K,
        (Vec<V>, Vec<W>),
        (V, W),
        impl Fn((Vec<V>, Vec<W>)) -> Vec<(V, W)>,
    >)
        requires
            old(ctx).wf(),
            self.id < old(ctx).rdds@.len(),
            other.id < old(ctx).rdds@.len(),
        ensures
            final(ctx).wf(),
            final(ctx).rdds@.len() == old(ctx).rdds@.len() + 3,
            final(ctx).shuffles@.len() == old(ctx).shuffles@.len() + 2,
            forall|i: int| 0 <= i < old(ctx).rdds@.len() ==> final(ctx).rdds@[i] == old(ctx).rdds@[i],
            is_cogrouped_node(
                final(ctx),
                old(ctx).rdds@.len() as usize,
                self.id,
                other.id,
                old(ctx).shuffles@.len() as usize,
                Partitioner { partitions: num_splits },
            ),
            is_one_to_one_child(
                final(ctx),
                (old(ctx).rdds@.len() + 1) as usize,
                old(ctx).rdds@.len() as usize,
            ),
            rdd.prev == old(ctx).rdds@.len() + 1,
            rdd.id == old(ctx).rdds@.len() + 2,
            is_one_to_one_child(final(ctx), rdd.id, rdd.prev),
            forall|groups: (Vec<V>, Vec<W>)| #[trigger] rdd.f.requires((groups,)),
            forall|groups: (Vec<V>, Vec<W>), r: Vec<(V, W)>| #[trigger]
                rdd.f.ensures((groups,), r) ==> r@ == all_pairs(groups.0@, groups.1@),
    {
        let ghost c0 = *ctx;
        let grouped = self.cogroup::<K, V, W>(ctx, other, Partitioner::new(num_splits));
        let ghost c1 = *ctx;
        let f = |groups: (Vec<V>, Vec<W>)| -> (r: Vec<(V, W)>)
            ensures
                r@ == all_pairs(groups.0@, groups.1@),
            { pair_up(&groups.0, &groups.1) };
        let rdd = FlatMappedValuesRdd::new(ctx, grouped.id, f);
        proof {
            let g = c0.rdds@.len() as usize;
            assert(ctx.rdds@[g as int] == c1.rdds@[g as int]);
            assert(ctx.rdds@[g + 1] == c1.rdds@[g + 1]);
            assert(ctx.rdds@[self.id as int] == c1.rdds@[self.id as int]);
            assert forall|i: int| 0 <= i < c0.rdds@.len() implies ctx.rdds@[i] == c0.rdds@[i] by {
                assert(c1.rdds@[i] == c0.rdds@[i]);
            }
        }
        rdd
    }
}

/// The aggregator collects the values of a key in a list: the list of one
/// value is that value alone, a further value goes to the end of the list, and
/// two lists are merged by putting the second behind the first.
pub open spec fn collects_values<V, CC: Fn(V) -> Vec<V>, MV: Fn(Vec<V>, V) -> Vec<V>, MC: Fn(
    Vec<V>,
    Vec<V>,
) -> Vec<V>>(a: Aggregator<CC, MV, MC>) -> bool {
    &&& forall|v: V| a.create_combiner.requires((v,))
    &&& forall|v: V, r: Vec<V>| #[trigger] a.create_combiner.ensures((v,), r) ==> r@ == seq![v]
    &&& forall|b: Vec<V>, v: V| a.merge_value.requires((b, v))
    &&& forall|b: Vec<V>, v: V, r: Vec<V>| #[trigger]
        a.merge_value.ensures((b, v), r) ==> r@ == b@.push(v)
    &&& forall|x: Vec<V>, y: Vec<V>| a.merge_combiners.requires((x, y))
    &&& forall|x: Vec<V>, y: Vec<V>, r: Vec<V>| #[trigger]
        a.merge_combiners.ensures((x, y), r) ==> r@ == x@ + y@
}

/// The aggregator reduces the values of a key with `func`: the first value is
/// taken as it is, and `func` takes in each further value and merges two
/// reduced values.
pub open spec fn reduces_with<V, F: Fn(V, V) -> V, CC: Fn(V) -> V, MV: Fn(V, V) -> V, MC: Fn(
    V,
    V,
) -> V>(a: Aggregator<CC, MV, MC>, func: F) -> bool {
    &&& forall|v: V| a.create_combiner.requires((v,))
    &&& forall|v: V, r: V| #[trigger] a.create_combiner.ensures((v,), r) ==> r == v
    &&& forall|x: V, y: V| func.requires((x, y)) ==> a.merge_value.requires((x, y))
    &&& forall|x: V, y: V, r: V| #[trigger]
        a.merge_value.ensures((x, y), r) ==> func.ensures((x, y), r)
    &&& forall|x: V, y: V| func.requires((x, y)) ==> a.merge_combiners.requires((x, y))
    &&& forall|x: V, y: V, r: V| #[trigger]
        a.merge_combiners.ensures((x, y), r) ==> func.ensures((x, y), r)
}

/// A value of a co-grouped dataset: one that came from the first of the two
/// datasets, or one that came from the second.
pub enum CoGroupedValue<V, W> {
    Left(V),
    Right(W),
}

impl<V, W> DeepView for CoGroupedValue<V, W> {
    type V = CoGroupedValue<V, W>;

    open spec fn deep_view(&self) -> CoGroupedValue<V, W> {
        *self
    }
}

/// The values of `group`, which all came from the first dataset.
pub open spec fn lefts<V, W>(group: Seq<CoGroupedValue<V, W>>) -> Seq<V> {
    Seq::new(group.len(), |i: int| group[i]->Left_0)
}

/// The values of `group`, which all came from the second dataset.
pub open spec fn rights<V, W>(group: Seq<CoGroupedValue<V, W>>) -> Seq<W> {
    Seq::new(group.len(), |i: int| group[i]->Right_0)
}

/// The first group holds values of the first dataset only, the second group
/// values of the second only.
pub open spec fn splittable<V, W>(groups: Seq<Seq<CoGroupedValue<V, W>>>) -> bool {
    &&& groups.len() >= 1 ==> forall|i: int| 0 <= i < groups[0].len() ==> (#[trigger] groups[0][i]) is Left
    &&& groups.len() >= 2 ==> forall|i: int|
        0 <= i < groups[1].len() ==> (#[trigger] groups[1][i]) is Right
}

/// `vs` are the values of the first group and `ws` those of the second; a
/// group that is not there has no values, and further groups are left out.
pub open spec fn split_of<V, W>(groups: Seq<Seq<CoGroupedValue<V, W>>>, vs: Seq<V>, ws: Seq<W>) -> bool {
    &&& vs == if groups.len() >= 1 {
        lefts(groups[0])
    } else {
        Seq::empty()
    }
    &&& ws == if groups.len() >= 2 {
        rights(groups[1])
    } else {
        Seq::empty()
    }
}

/// Splits the groups of one key into the values of the first dataset and the
/// values of the second.
pub fn split_groups<V, W>(groups: Vec<Vec<CoGroupedValue<V, W>>>) -> (r: (Vec<V>, Vec<W>))
    requires
        splittable(groups.deep_view()),
    ensures
        split_of(groups.deep_view(), r.0@, r.1@),
{
    let ghost all = groups.deep_view();
    proof {
        assert(all.len() == groups@.len());
        if groups@.len() >= 1 {
            assert(all[0] == groups@[0].deep_view());
            assert(all[0] =~= groups@[0]@) by {
                assert forall|i: int| 0 <= i < groups@[0]@.len() implies all[0][i] == groups@[0]@[i] by {
                    assert(all[0][i] == groups@[0]@[i].deep_view());
                }
            }
        }
        if groups@.len() >= 2 {
            assert(all[1] == groups@[1].deep_view());
            assert(all[1] =~= groups@[1]@) by {
                assert forall|i: int| 0 <= i < groups@[1]@.len() implies all[1][i] == groups@[1]@[i] by {
                    assert(all[1][i] == groups@[1]@[i].deep_view());
                }
            }
        }
    }
    let ghost given = groups@;
    let mut rest = reversed(groups);
    let mut vs: Vec<V> = Vec::new();
    let mut ws: Vec<W> = Vec::new();
    let ghost n = rest@.len();
    match rest.pop() {
        Some(first) => {
            assert(given.reverse()[n - 1] == first);
            assert(first == given[0]);
            let ghost g0 = first@;
            let mut items = reversed(first);
            while items.len() > 0
                invariant
                    items@.len() <= g0.len(),
                    items@ == g0.reverse().subrange(0, items@.len() as int),
                    forall|i: int| 0 <= i < g0.len() ==> (#[trigger] g0[i]) is Left,
                    vs@ == lefts(g0.subrange(0, g0.len() - items@.len())),
                decreases items@.len(),
            {
                let ghost m = items@.len();
                match items.pop() {
                    Some(CoGroupedValue::Left(v)) => {
                        assert(g0.reverse()[m - 1] == CoGroupedValue::<V, W>::Left(v));
                        vs.push(v);
                        assert(vs@ =~= lefts(g0.subrange(0, g0.len() - m + 1)));
                    },
                    Some(CoGroupedValue::Right(_)) => {
                        assert(g0.reverse()[m - 1] is Right);
                        assert(g0[g0.len() - m] is Right);
                        assert(false);
                    },
                    None => {},
                }
            }
            assert(g0.subrange(0, g0.len() as int) =~= g0);
        },
        None => {
            assert(vs@ =~= Seq::<V>::empty());
        },
    }
    let ghost n1 = rest@.len();
    match rest.pop() {
        Some(second) => {
            assert(given.reverse()[n1 - 1] == second);
            assert(second == given[1]);
            let ghost g1 = second@;
            let mut items = reversed(second);
            while items.len() > 0
                invariant
                    items@.len() <= g1.len(),
                    items@ == g1.reverse().subrange(0, items@.len() as int),
                    forall|i: int| 0 <= i < g1.len() ==> (#[trigger] g1[i]) is Right,
                    ws@ == rights(g1.subrange(0, g1.len() - items@.len())),
                decreases items@.len(),
            {
                let ghost m = items@.len();
                match items.pop() {
                    Some(CoGroupedValue::Right(w)) => {
                        assert(g1.reverse()[m - 1] == CoGroupedValue::<V, W>::Right(w));
                        ws.push(w);
                        assert(ws@ =~= rights(g1.subrange(0, g1.len() - m + 1)));
                    },
                    Some(CoGroupedValue::Left(_)) => {
                        assert(g1.reverse()[m - 1] is Left);
                        assert(g1[g1.len() - m] is Left);
                        assert(false);
                    },
                    None => {},
                }
            }
            assert(g1.subrange(0, g1.len() as int) =~= g1);
        },
        None => {
            assert(ws@ =~= Seq::<W>::empty());
        },
    }
    (vs, ws)
}

/// Every value of `vs` paired with every value of `ws`: the pairs of the first
/// value of `vs` first, in the order of `ws`, then those of the second, and so
/// on.
pub open spec fn all_pairs<V, W>(vs: Seq<V>, ws: Seq<W>) -> Seq<(V, W)>
    decreases vs.len(),
{
    if vs.len() == 0 {
        Seq::empty()
    } else {
        all_pairs(vs.drop_last(), ws) + keyed(vs.last(), ws)
    }
}

/// Pairs every value of `vs` with every value of `ws`.
pub fn pair_up<V: Copy, W: Copy>(vs: &Vec<V>, ws: &Vec<W>) -> (r: Vec<(V, W)>)
    ensures
        r@ == all_pairs(vs@, ws@),
{
    let mut r: Vec<(V, W)> = Vec::new();
    let mut i: usize = 0;
    proof {
        assert(vs@.subrange(0, 0) =~= Seq::<V>::empty());
    }
    while i < vs.len()
        invariant
            i <= vs@.len(),
            r@ == all_pairs(vs@.subrange(0, i as int), ws@),
        decreases vs@.len() - i,
    {
        let v = vs[i];
        let ghost before = r@;
        let mut j: usize = 0;
        while j < ws.len()
            invariant
                j <= ws@.len(),
                r@ == before + keyed(v, ws@.subrange(0, j as int)),
            decreases ws@.len() - j,
        {
            r.push((v, ws[j]));
            j = j + 1;
            assert(r@ =~= before + keyed(v, ws@.subrange(0, j as int)));
        }
        proof {
            assert(ws@.subrange(0, j as int) =~= ws@);
            let grown = vs@.subrange(0, i + 1);
            assert(grown.drop_last() =~= vs@.subrange(0, i as int));
            assert(grown.last() == v);
        }
        i = i + 1;
    }
    proof {
        assert(vs@.subrange(0, i as int) =~= vs@);
    }
    r
}

/// Node `id` of `ctx` holds, co-grouped, the datasets `a` and `b`: it depends
/// on each through a co-group shuffle of its own, numbered `first_shuffle` and
/// the next, has as many partitions as `part` makes, and no preferred
/// locations.
pub open spec fn is_cogrouped_node(
    ctx: &Context,
    id: usize,
    a: usize,
    b: usize,
    first_shuffle: usize,
    part: Partitioner,
) -> bool {
    let node = ctx.rdds@[id as int];
    let left = ShuffleDependency { shuffle_id: first_shuffle, is_cogroup: true, rdd: a, partitioner: part };
    let right = ShuffleDependency {
        shuffle_id: (first_shuffle + 1) as usize,
        is_cogroup: true,
        rdd: b,
        partitioner: part,
    };
    &&& id < ctx.rdds@.len()
    &&& first_shuffle + 1 < ctx.shuffles@.len()
    &&& ctx.shuffles@[first_shuffle as int] == left
    &&& ctx.shuffles@[first_shuffle + 1] == right
    &&& node.id == id
    &&& node.dependencies@ == seq![
        Dependency::ShuffleDependency(left),
        Dependency::ShuffleDependency(right),
    ]
    &&& node.num_splits == part.partitions
    &&& node.preferred_locs@.len() == node.num_splits
    &&& forall|p: int| 0 <= p < node.num_splits ==> (#[trigger] node.preferred_locs@[p])@.len() == 0
    &&& !node.pinned
}

/// `after` is `before` with two more shuffles, over the datasets `a` and `b`,
/// the dataset that co-groups them, and one dataset on top of that.
pub open spec fn cogrouped(before: &Context, after: &Context, a: usize, b: usize, part: Partitioner) -> bool {
    &&& after.rdds@.len() == before.rdds@.len() + 2
    &&& after.shuffles@.len() == before.shuffles@.len() + 2
    &&& forall|i: int| 0 <= i < before.rdds@.len() ==> after.rdds@[i] == before.rdds@[i]
    &&& forall|j: int|
        0 <= j < before.shuffles@.len() ==> after.shuffles@[j] == before.shuffles@[j]
    &&& is_cogrouped_node(
        after,
        before.rdds@.len() as usize,
        a,
        b,
        before.shuffles@.len() as usize,
        part,
    )
}

} // verus!
