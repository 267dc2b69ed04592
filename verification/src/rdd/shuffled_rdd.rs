//! The dataset on the reduce side of a shuffle.

use crate::context::Context;
use crate::dependency::{Dependency, ShuffleDependency};
use crate::partitioner::Partitioner;
use crate::rdd::pair_rdd::{no_locations, reversed};
use vstd::laws_eq::obeys_concrete_eq;
use vstd::prelude::*;

verus! {

/// One partition of a shuffled dataset.
#[derive(Clone, Copy, Debug, PartialEq, Eq, Structural)]
pub struct ShuffledRddSplit {
    pub index: usize,
}

impl ShuffledRddSplit {
    pub fn new(index: usize) -> (split: Self)
        ensures
            split.index == index,
    {
        ShuffledRddSplit { index }
    }

    /// The index of the partition.
    pub fn get_index(&self) -> (index: usize)
        ensures
            index == self.index,
    {
        self.index
    }
}

/// How the values of one key are combined: a combiner is made of the first
/// value, takes in further values, and is merged with other combiners.
pub struct Aggregator<CC, MV, MC> {
    pub create_combiner: CC,
    pub merge_value: MV,
    pub merge_combiners: MC,
}

impl<CC, MV, MC> Aggregator<CC, MV, MC> {
    pub fn new(create_combiner: CC, merge_value: MV, merge_combiners: MC) -> (a: Self)
        ensures
            a.create_combiner == create_combiner,
            a.merge_value == merge_value,
            a.merge_combiners == merge_combiners,
    {
        Aggregator { create_combiner, merge_value, merge_combiners }
    }
}

/// The combiners that `pairs` holds for key `k`, in order.
pub open spec fn values_of<K, C>(pairs: Seq<(K, C)>, k: K) -> Seq<C>
    decreases pairs.len(),
{
    if pairs.len() == 0 {
        Seq::empty()
    } else if pairs.last().0 == k {
        values_of(pairs.drop_last(), k).push(pairs.last().1)
    } else {
        values_of(pairs.drop_last(), k)
    }
}

/// The keys of `pairs`, each once, in the order in which they first occur.
pub open spec fn first_keys<K, C>(pairs: Seq<(K, C)>) -> Seq<K>
    decreases pairs.len(),
{
    if pairs.len() == 0 {
        Seq::empty()
    } else if first_keys(pairs.drop_last()).contains(pairs.last().0) {
        first_keys(pairs.drop_last())
    } else {
        first_keys(pairs.drop_last()).push(pairs.last().0)
    }
}

/// `c` is what merging the combiners `vals` with `f`, from left to right, may
/// give.
pub open spec fn merged<C, MC: Fn(C, C) -> C>(f: MC, vals: Seq<C>, c: C) -> bool
    decreases vals.len(),
{
    if vals.len() == 0 {
        false
    } else if vals.len() == 1 {
        c == vals[0]
    } else {
        exists|mid: C| merged(f, vals.drop_last(), mid) && #[trigger] f.ensures((mid, vals.last()), c)
    }
}

/// The pairs `out` answer each key of `pairs` once, in the order in which the
/// keys first occur, with what merging the combiners of that key may give.
pub open spec fn merged_by_key<K, C, MC: Fn(C, C) -> C>(f: MC, pairs: Seq<(K, C)>, out: Seq<(K, C)>) -> bool {
    &&& out.len() == first_keys(pairs).len()
    &&& forall|i: int|
        0 <= i < out.len() ==> (#[trigger] out[i]).0 == first_keys(pairs)[i] && merged(
            f,
            values_of(pairs, out[i].0),
            out[i].1,
        )
}

/// What is merged is merged of at least one combiner.
pub proof fn lemma_merged_nonempty<C, MC: Fn(C, C) -> C>(f: MC, vals: Seq<C>, c: C)
    requires
        merged(f, vals, c),
    ensures
        vals.len() > 0,
{
}

/// A key that does not occur among the first keys has no combiner.
pub proof fn lemma_absent_key_has_no_value<K, C>(pairs: Seq<(K, C)>, k: K)
    requires
        !first_keys(pairs).contains(k),
    ensures
        values_of(pairs, k) == Seq::<C>::empty(),
    decreases pairs.len(),
{
    if pairs.len() > 0 {
        let rest = first_keys(pairs.drop_last());
        if rest.contains(pairs.last().0) {
        } else {
            assert(first_keys(pairs) == rest.push(pairs.last().0));
            assert(first_keys(pairs)[rest.len() as int] == pairs.last().0);
            if rest.contains(k) {
                let i = choose|i: int| 0 <= i < rest.len() && rest[i] == k;
                assert(first_keys(pairs)[i] == k);
            }
        }
        if pairs.last().0 == k {
            if rest.contains(k) {
            } else {
                assert(first_keys(pairs)[rest.len() as int] == k);
            }
            assert(false);
        }
        lemma_absent_key_has_no_value(pairs.drop_last(), k);
    }
}

/// No key occurs twice among the first keys.
pub proof fn lemma_first_keys_distinct<K, C>(pairs: Seq<(K, C)>, i: int, j: int)
    requires
        0 <= i < first_keys(pairs).len(),
        0 <= j < first_keys(pairs).len(),
        first_keys(pairs)[i] == first_keys(pairs)[j],
    ensures
        i == j,
    decreases pairs.len(),
{
    if pairs.len() > 0 {
        let rest = first_keys(pairs.drop_last());
        if rest.contains(pairs.last().0) {
            lemma_first_keys_distinct(pairs.drop_last(), i, j);
        } else {
            if i < rest.len() && j < rest.len() {
                lemma_first_keys_distinct(pairs.drop_last(), i, j);
            } else if i < rest.len() {
                assert(rest[i] == pairs.last().0);
            } else if j < rest.len() {
                assert(rest[j] == pairs.last().0);
            }
        }
    }
}

/// The dataset that holds, partitioned by `part`, the pairs of the dataset
/// `parent` combined by key.
pub struct ShuffledRdd<CC, MV, MC> {
    pub parent: usize,
    pub aggregator: Aggregator<CC, MV, MC>,
    pub id: usize,
    pub part: Partitioner,
    pub shuffle_id: usize,
}

/// Node `id` of `ctx` is the reduce side of shuffle `shuffle_id` over dataset
/// `parent`: it has as many partitions as `part` makes, one shuffle dependency
/// on `parent`, no preferred locations, and is not pinned.
pub open spec fn is_shuffled_child(
    ctx: &Context,
    id: usize,
    parent: usize,
    shuffle_id: usize,
    part: Partitioner,
) -> bool {
    let node = ctx.rdds@[id as int];
    let dep = ShuffleDependency { shuffle_id, is_cogroup: false, rdd: parent, partitioner: part };
    &&& id < ctx.rdds@.len()
    &&& parent < id
    &&& shuffle_id < ctx.shuffles@.len()
    &&& ctx.shuffles@[shuffle_id as int] == dep
    &&& node.id == id
    &&& node.dependencies@ == seq![Dependency::ShuffleDependency(dep)]
    &&& node.num_splits == part.partitions
    &&& node.preferred_locs@.len() == node.num_splits
    &&& forall|p: int| 0 <= p < node.num_splits ==> (#[trigger] node.preferred_locs@[p])@.len() == 0
    &&& !node.pinned
}

impl<CC: Clone, MV: Clone, MC: Clone> Clone for ShuffledRdd<CC, MV, MC> {
    /// A copy that names the same nodes and the same shuffle and holds copies of
    /// the aggregator's functions.
    fn clone(&self) -> (r: Self)
        ensures
            r.parent == self.parent,
            r.id == self.id,
            r.part == self.part,
            r.shuffle_id == self.shuffle_id,
    {
        ShuffledRdd {
            parent: self.parent,
            aggregator: Aggregator {
                create_combiner: self.aggregator.create_combiner.clone(),
                merge_value: self.aggregator.merge_value.clone(),
                merge_combiners: self.aggregator.merge_combiners.clone(),
            },
            id: self.id,
            part: self.part,
            shuffle_id: self.shuffle_id,
        }
    }
}

impl<CC, MV, MC> ShuffledRdd<CC, MV, MC> {
    /// Adds the dataset to the lineage graph `ctx`: registers a new shuffle over
    /// the partitions of `parent`, and adds a node that depends on `parent`
    /// through that shuffle.
    pub fn new(ctx: &mut Context, parent: usize, aggregator: Aggregator<CC, MV, MC>, part: Partitioner) -> (rdd:
        Self)
        requires
            old(ctx).wf(),
            parent < old(ctx).rdds@.len(),
        ensures
            final(ctx).wf(),
            final(ctx).rdds@.len() == old(ctx).rdds@.len() + 1,
            forall|i: int| 0 <= i < old(ctx).rdds@.len() ==> final(ctx).rdds@[i] == old(ctx).rdds@[i],
            final(ctx).shuffles@ == old(ctx).shuffles@.push(
                ShuffleDependency {
                    shuffle_id: rdd.shuffle_id,
                    is_cogroup: false,
                    rdd: parent,
                    partitioner: part,
                },
            ),
            rdd.id == old(ctx).rdds@.len(),
            rdd.shuffle_id == old(ctx).shuffles@.len(),
            rdd.parent == parent,
            rdd.part == part,
            rdd.aggregator == aggregator,
            is_shuffled_child(final(ctx), rdd.id, parent, rdd.shuffle_id, part),
    {
        let dep = match ctx.new_shuffle_dependency(parent, false, part) {
            Some(dep) => dep,
            None => vstd::pervasive::unreached(),
        };
        let ghost mid = *ctx;
        let n = part.get_num_of_partitions();
        let locs = no_locations(n);
        let mut dependencies: Vec<Dependency> = Vec::new();
        dependencies.push(Dependency::ShuffleDependency(dep));
        proof {
            assert(mid.admits(dependencies@, n, locs@)) by {
                assert forall|k: int| 0 <= k < dependencies@.len() implies mid.dep_ok(
                    mid.rdds@.len() as int,
                    n,
                    #[trigger] dependencies@[k],
                ) by {}
            }
        }
        let id = match ctx.add_rdd(dependencies, n, locs, false) {
            Some(id) => id,
            None => vstd::pervasive::unreached(),
        };
        proof {
            assert(ctx.rdds@[id as int].dependencies@ =~= seq![Dependency::ShuffleDependency(dep)]);
        }
        ShuffledRdd { parent, aggregator, id, part, shuffle_id: dep.shuffle_id }
    }

    /// The id of the dataset's node.
    pub fn get_rdd_id(&self) -> (id: usize)
        ensures
            id == self.id,
    {
        self.id
    }

    /// The number of partitions: as many as the partitioner makes.
    pub fn number_of_splits(&self) -> (n: usize)
        ensures
            n == self.part.partitions,
    {
        self.part.get_num_of_partitions()
    }

    /// The partitioner of the shuffle.
    pub fn partitioner(&self) -> (p: Option<Partitioner>)
        ensures
            p == Some(self.part),
    {
        Some(self.part)
    }

    /// The partitions, in order.
    pub fn splits(&self) -> (v: Vec<ShuffledRddSplit>)
        ensures
            v@.len() == self.part.partitions,
            forall|i: int| 0 <= i < v@.len() ==> (#[trigger] v@[i]).index == i,
    {
        let n = self.part.get_num_of_partitions();
        let mut v: Vec<ShuffledRddSplit> = Vec::new();
        let mut i: usize = 0;
        while i < n
            invariant
                i <= n,
                v@.len() == i,
                forall|j: int| 0 <= j < i ==> (#[trigger] v@[j]).index == j,
            decreases n - i,
        {
            v.push(ShuffledRddSplit::new(i));
            i = i + 1;
        }
        v
    }

    /// The pairs of one partition: `fetched` holds the pairs that the map side
    /// has sent for it; the combiners of equal keys are merged, from left to
    /// right, and each key is answered once, in the order in which the keys
    /// first occur.
    pub fn compute<K: Copy + PartialEq, C>(&self, fetched: Vec<(K, C)>) -> (out: Vec<(K, C)>) where
        MC: Fn(C, C) -> C,

        requires
            obeys_concrete_eq::<K>(),
            forall|a: C, b: C| self.aggregator.merge_combiners.requires((a, b)),
        ensures
            merged_by_key(self.aggregator.merge_combiners, fetched@, out@),
    {
        let ghost all = fetched@;
        let mut rest = reversed(fetched);
        let mut out: Vec<(K, C)> = Vec::new();
        let ghost mut done: Seq<(K, C)> = Seq::empty();
        proof {
            assert(all.subrange(0, 0) =~= done);
        }
        while rest.len() > 0
            invariant
                obeys_concrete_eq::<K>(),
                forall|a: C, b: C| self.aggregator.merge_combiners.requires((a, b)),
                rest@.len() <= all.len(),
                rest@ == all.reverse().subrange(0, rest@.len() as int),
                done == all.subrange(0, all.len() - rest@.len()),
                merged_by_key(self.aggregator.merge_combiners, done, out@),
            decreases rest@.len(),
        {
            let ghost n = rest@.len();
            let ghost keys = first_keys(done);
            match rest.pop() {
                Some((k, c)) => {
                    assert(all.reverse()[n - 1] == (k, c));
                    assert(all[all.len() - n] == (k, c));
                    let ghost grown = done.push((k, c));
                    proof {
                        assert(all.subrange(0, all.len() - n + 1) =~= grown);
                        assert(grown.drop_last() =~= done);
                        assert(grown.last() == (k, c));
                    }
                    let mut j: usize = 0;
                    let mut found = false;
                    while j < out.len() && !found
                        invariant
                            obeys_concrete_eq::<K>(),
                            j <= out@.len(),
                            out@.len() == keys.len(),
                            forall|i: int| 0 <= i < out@.len() ==> (#[trigger] out@[i]).0 == keys[i],
                            forall|i: int| 0 <= i < j - (if found { 1int } else { 0int }) ==> keys[i] != k,
                            found ==> j > 0 && keys[j - 1] == k,
                        decreases out@.len() - j + (if found { 0int } else { 1int }),
                    {
                        proof {
                            reveal(obeys_concrete_eq);
                        }
                        if out[j].0 == k {
                            found = true;
                        }
                        j = j + 1;
                    }
                    let ghost before = out@;
                    if found {
                        let at = j - 1;
                        let (_key, old) = out.remove(at);
                        let merged_value = (self.aggregator.merge_combiners)(old, c);
                        out.insert(at, (k, merged_value));
                        proof {
                            let f = self.aggregator.merge_combiners;
                            assert(out@ =~= before.update(at as int, (k, merged_value)));
                            assert(keys.contains(k)) by {
                                assert(keys[at as int] == k);
                            }
                            assert(first_keys(grown) == keys);
                            assert forall|i: int| 0 <= i < out@.len() implies (#[trigger] out@[i]).0
                                == first_keys(grown)[i] && merged(
                                f,
                                values_of(grown, out@[i].0),
                                out@[i].1,
                            ) by {
                                assert(merged(f, values_of(done, before[i].0), before[i].1));
                                if i == at {
                                    let vals = values_of(grown, k);
                                    assert(vals == values_of(done, k).push(c));
                                    assert(vals.drop_last() =~= values_of(done, k));
                                    assert(vals.last() == c);
                                    lemma_merged_nonempty(f, values_of(done, k), old);
                                    assert(merged(f, vals.drop_last(), old) && f.ensures(
                                        (old, vals.last()),
                                        merged_value,
                                    ));
                                } else {
                                    if before[i].0 == k {
                                        lemma_first_keys_distinct(done, i, at as int);
                                    }
                                    assert(values_of(grown, before[i].0) == values_of(
                                        done,
                                        before[i].0,
                                    ));
                                }
                            }
                        }
                    } else {
                        out.push((k, c));
                        proof {
                            let f = self.aggregator.merge_combiners;
                            assert(!keys.contains(k)) by {
                                if keys.contains(k) {
                                    let i = choose|i: int| 0 <= i < keys.len() && keys[i] == k;
                                }
                            }
                            assert(first_keys(grown) == keys.push(k));
                            lemma_absent_key_has_no_value(done, k);
                            assert forall|i: int| 0 <= i < out@.len() implies (#[trigger] out@[i]).0
                                == first_keys(grown)[i] && merged(
                                f,
                                values_of(grown, out@[i].0),
                                out@[i].1,
                            ) by {
                                if i < before.len() {
                                    assert(out@[i] == before[i]);
                                    assert(merged(f, values_of(done, before[i].0), before[i].1));
                                    assert(keys[i] != k);
                                    assert(values_of(grown, before[i].0) == values_of(
                                        done,
                                        before[i].0,
                                    ));
                                } else {
                                    let vals = values_of(grown, k);
                                    assert(vals =~= seq![c]);
                                }
                            }
                        }
                    }
                    proof {
                        done = grown;
                    }
                },
                None => {},
            }
        }
        proof {
            assert(all.subrange(0, all.len() as int) =~= all);
        }
        out
    }
}

} // verus!
