//! The lineage graph: an arena of dataset nodes addressed by numeric id.
//!
//! A dataset node names its parents by id, and a node is always added after its
//! parents, so the id of a parent is below the id of its child.

use crate::dependency::{Dependency, NarrowDependency, ShuffleDependency};
use crate::partitioner::Partitioner;
use vstd::prelude::*;

verus! {

/// What the scheduler reads of one dataset node.
#[derive(Debug)]
pub struct RddVals {
    /// The node's id: its position in the arena.
    pub id: usize,
    /// How the node's partitions derive from its parents.
    pub dependencies: Vec<Dependency>,
    /// The number of partitions.
    pub num_splits: usize,
    /// The preferred locations of each partition.
    pub preferred_locs: Vec<Vec<u32>>,
    /// Whether each partition is bound to one fixed location.
    pub pinned: bool,
}

/// The lineage graph together with the registry of shuffle exchanges.
#[derive(Debug)]
pub struct Context {
    pub rdds: Vec<RddVals>,
    pub shuffles: Vec<ShuffleDependency>,
}

impl Context {
    /// Dependency `d`, held by node `holder` with `splits` partitions, names an
    /// earlier node, and either stays within that node's partitions (narrow) or is
    /// the registered shuffle of its id.
    pub open spec fn dep_ok(&self, holder: int, splits: usize, d: Dependency) -> bool {
        match d {
            Dependency::NarrowDependency(n) => {
                &&& n.rdd < holder
                &&& n.rdd < self.rdds@.len()
                &&& n.within(splits, self.rdds@[n.rdd as int].num_splits)
            },
            Dependency::ShuffleDependency(s) => {
                &&& s.rdd < holder
                &&& s.shuffle_id < self.shuffles@.len()
                &&& self.shuffles@[s.shuffle_id as int] == s
            },
        }
    }

    /// Node `i` is stored under its id, lists preferred locations for each of its
    /// partitions, and all its dependencies are in order.
    pub open spec fn rdd_ok(&self, i: int) -> bool {
        let r = self.rdds@[i];
        &&& r.id == i
        &&& r.preferred_locs@.len() == r.num_splits
        &&& forall|k: int|
            0 <= k < r.dependencies@.len() ==> self.dep_ok(i, r.num_splits, #[trigger] r.dependencies@[k])
    }

    /// The graph is well formed.
    pub open spec fn wf(&self) -> bool {
        &&& forall|i: int| 0 <= i < self.rdds@.len() ==> #[trigger] self.rdd_ok(i)
        &&& forall|j: int|
            0 <= j < self.shuffles@.len() ==> (#[trigger] self.shuffles@[j]).shuffle_id == j
                && self.shuffles@[j].rdd < self.rdds@.len()
    }

    /// The dependencies of node `rdd`.
    pub open spec fn deps(&self, rdd: usize) -> Seq<Dependency> {
        self.rdds@[rdd as int].dependencies@
    }

    /// The parent that node `from` names in its `k`-th dependency, if that
    /// dependency is narrow.
    pub open spec fn narrow_parent(&self, from: usize, k: int) -> Option<usize> {
        if from < self.rdds@.len() && 0 <= k < self.deps(from).len() {
            match self.deps(from)[k] {
                Dependency::NarrowDependency(n) => Some(n.rdd),
                Dependency::ShuffleDependency(_) => None,
            }
        } else {
            None
        }
    }

    /// Node `to` is `from` itself or is reached from it through narrow dependencies
    /// alone, descending only from nodes outside `cut`.
    pub open spec fn reaches(&self, cut: Set<usize>, from: usize, to: usize) -> bool
        decreases from,
    {
        to == from || (!cut.contains(from) && exists|k: int|
            (#[trigger] self.narrow_parent(from, k)) is Some && self.narrow_parent(from, k)->0
                < from && self.reaches(cut, self.narrow_parent(from, k)->0, to))
    }

    /// Shuffle `s` bounds the narrow region of `rdd`: a node reached from `rdd` and
    /// outside `cut` holds it as a dependency.
    pub open spec fn at_boundary(&self, cut: Set<usize>, rdd: usize, s: ShuffleDependency) -> bool {
        exists|x: usize, k: int|
            self.reaches(cut, rdd, x) && x < self.rdds@.len() && !cut.contains(x) && 0 <= k
                < self.deps(x).len() && #[trigger] self.deps(x)[k] == Dependency::ShuffleDependency(s)
    }

    /// An empty graph.
    pub fn new() -> (ctx: Self)
        ensures
            ctx.wf(),
            ctx.rdds@.len() == 0,
            ctx.shuffles@.len() == 0,
    {
        Context { rdds: Vec::new(), shuffles: Vec::new() }
    }

    /// The number of dataset nodes; also the id that the next node will get.
    pub fn num_rdds(&self) -> (n: usize)
        ensures
            n == self.rdds@.len(),
    {
        self.rdds.len()
    }

    /// Whether dependency `d` may be held by the next node, if that node has
    /// `splits` partitions.
    pub fn check_dependency(&self, splits: usize, d: &Dependency) -> (b: bool)
        ensures
            b == self.dep_ok(self.rdds@.len() as int, splits, *d),
    {
        match d {
            Dependency::NarrowDependency(n) => {
                n.rdd < self.rdds.len() && n.is_within(splits, self.rdds[n.rdd].num_splits)
            },
            Dependency::ShuffleDependency(s) => {
                s.rdd < self.rdds.len() && s.shuffle_id < self.shuffles.len()
                    && self.shuffles[s.shuffle_id] == *s
            },
        }
    }

    /// Whether a node with these dependencies, partition count and preferred
    /// locations can be added.
    pub open spec fn admits(
        &self,
        dependencies: Seq<Dependency>,
        num_splits: usize,
        preferred_locs: Seq<Vec<u32>>,
    ) -> bool {
        &&& preferred_locs.len() == num_splits
        &&& forall|k: int|
            0 <= k < dependencies.len() ==> self.dep_ok(
                self.rdds@.len() as int,
                num_splits,
                #[trigger] dependencies[k],
            )
    }

    /// Adds a dataset node and returns its id, or returns `None` and leaves the
    /// graph as it is when the node is not admitted.
    pub fn add_rdd(
        &mut self,
        dependencies: Vec<Dependency>,
        num_splits: usize,
        preferred_locs: Vec<Vec<u32>>,
        pinned: bool,
    ) -> (r: Option<usize>)
        requires
            old(self).wf(),
        ensures
            final(self).wf(),
            final(self).shuffles@ == old(self).shuffles@,
            r is Some <==> old(self).admits(dependencies@, num_splits, preferred_locs@),
            r is None ==> final(self).rdds@ == old(self).rdds@,
            r matches Some(id) ==> {
                &&& id == old(self).rdds@.len()
                &&& final(self).rdds@ == old(self).rdds@.push(
                    RddVals { id, dependencies, num_splits, preferred_locs, pinned },
                )
            },
    {
        if preferred_locs.len() != num_splits {
            return None;
        }
        let mut k: usize = 0;
        while k < dependencies.len()
            invariant
                *self == *old(self),
                self.wf(),
                k <= dependencies@.len(),
                forall|j: int|
                    0 <= j < k ==> self.dep_ok(
                        self.rdds@.len() as int,
                        num_splits,
                        #[trigger] dependencies@[j],
                    ),
            decreases dependencies@.len() - k,
        {
            if !self.check_dependency(num_splits, &dependencies[k]) {
                return None;
            }
            k = k + 1;
        }
        let id = self.rdds.len();
        let vals = RddVals { id, dependencies, num_splits, preferred_locs, pinned };
        self.rdds.push(vals);
        proof {
            assert forall|i: int| 0 <= i < self.rdds@.len() implies #[trigger] self.rdd_ok(i) by {
                if i < id {
                    assert(old(self).rdd_ok(i));
                    assert(self.rdds@[i] == old(self).rdds@[i]);
                    let r = self.rdds@[i];
                    assert forall|j: int| 0 <= j < r.dependencies@.len() implies self.dep_ok(
                        i,
                        r.num_splits,
                        #[trigger] r.dependencies@[j],
                    ) by {
                        assert(old(self).dep_ok(i, r.num_splits, r.dependencies@[j]));
                    }
                } else {
                    let r = self.rdds@[i];
                    assert forall|j: int| 0 <= j < r.dependencies@.len() implies self.dep_ok(
                        i,
                        r.num_splits,
                        #[trigger] r.dependencies@[j],
                    ) by {
                        assert(old(self).dep_ok(i, r.num_splits, dependencies@[j]));
                    }
                }
            }
        }
        Some(id)
    }

    /// Adds a dataset node without parents, with `num_splits` partitions that
    /// prefer no location.
    pub fn parallelize(&mut self, num_splits: usize) -> (id: usize)
        requires
            old(self).wf(),
        ensures
            final(self).wf(),
            final(self).shuffles@ == old(self).shuffles@,
            id == old(self).rdds@.len(),
            final(self).rdds@.len() == id + 1,
            forall|i: int| 0 <= i < id ==> final(self).rdds@[i] == old(self).rdds@[i],
            final(self).rdds@[id as int].id == id,
            final(self).rdds@[id as int].num_splits == num_splits,
            final(self).rdds@[id as int].dependencies@.len() == 0,
            !final(self).rdds@[id as int].pinned,
            forall|p: int|
                0 <= p < num_splits ==> (#[trigger] final(self).rdds@[id as int].preferred_locs@[p])@.len()
                    == 0,
    {
        let mut locs: Vec<Vec<u32>> = Vec::new();
        let mut p: usize = 0;
        while p < num_splits
            invariant
                p <= num_splits,
                locs@.len() == p,
                forall|q: int| 0 <= q < p ==> (#[trigger] locs@[q])@.len() == 0,
            decreases num_splits - p,
        {
            locs.push(Vec::new());
            p = p + 1;
        }
        let r = self.add_rdd(Vec::new(), num_splits, locs, false);
        match r {
            Some(id) => id,
            None => {
                proof {
                    assert(old(self).admits(Seq::<Dependency>::empty(), num_splits, locs@));
                }
                vstd::pervasive::unreached()
            },
        }
    }

    /// Registers a new shuffle exchange over the partitions of `rdd` and returns
    /// its dependency descriptor, which carries a fresh shuffle id; `None` when
    /// `rdd` is not a node of the graph.
    pub fn new_shuffle_dependency(
        &mut self,
        rdd: usize,
        is_cogroup: bool,
        partitioner: Partitioner,
    ) -> (r: Option<ShuffleDependency>)
        requires
            old(self).wf(),
        ensures
            final(self).wf(),
            final(self).rdds@ == old(self).rdds@,
            r is Some <==> rdd < old(self).rdds@.len(),
            r is None ==> final(self).shuffles@ == old(self).shuffles@,
            r matches Some(d) ==> {
                &&& d.shuffle_id == old(self).shuffles@.len()
                &&& d.is_cogroup == is_cogroup
                &&& d.rdd == rdd
                &&& d.partitioner == partitioner
                &&& final(self).shuffles@ == old(self).shuffles@.push(d)
            },
    {
        if rdd >= self.rdds.len() {
            return None;
        }
        let d = ShuffleDependency { shuffle_id: self.shuffles.len(), is_cogroup, rdd, partitioner };
        self.shuffles.push(d);
        proof {
            assert forall|i: int| 0 <= i < self.rdds@.len() implies #[trigger] self.rdd_ok(i) by {
                assert(old(self).rdd_ok(i));
                let r = self.rdds@[i];
                assert forall|j: int| 0 <= j < r.dependencies@.len() implies self.dep_ok(
                    i,
                    r.num_splits,
                    #[trigger] r.dependencies@[j],
                ) by {
                    assert(old(self).dep_ok(i, r.num_splits, r.dependencies@[j]));
                }
            }
        }
        Some(d)
    }

    /// The number of partitions of node `rdd`.
    pub fn number_of_splits(&self, rdd: usize) -> (n: usize)
        requires
            rdd < self.rdds@.len(),
        ensures
            n == self.rdds@[rdd as int].num_splits,
    {
        self.rdds[rdd].num_splits
    }

    /// The dependencies of node `rdd`.
    pub fn get_dependencies(&self, rdd: usize) -> (d: &Vec<Dependency>)
        requires
            rdd < self.rdds@.len(),
        ensures
            d@ == self.deps(rdd),
    {
        &self.rdds[rdd].dependencies
    }

    /// The locations that node `rdd` itself prefers for partition `split`.
    pub fn preferred_locations(&self, rdd: usize, split: usize) -> (locs: &Vec<u32>)
        requires
            rdd < self.rdds@.len(),
            split < self.rdds@[rdd as int].preferred_locs@.len(),
        ensures
            *locs == self.rdds@[rdd as int].preferred_locs@[split as int],
    {
        &self.rdds[rdd].preferred_locs[split]
    }

    /// Whether the partitions of node `rdd` are bound to one fixed location each.
    pub fn is_pinned(&self, rdd: usize) -> (b: bool)
        requires
            rdd < self.rdds@.len(),
        ensures
            b == self.rdds@[rdd as int].pinned,
    {
        self.rdds[rdd].pinned
    }


    /// Shuffle `s` lies upstream of node `rdd`: it bounds the narrow region of
    /// `rdd`, or lies upstream of the map side of a shuffle that does.
    pub open spec fn feeds(&self, rdd: usize, s: ShuffleDependency) -> bool
        decreases rdd,
    {
        self.at_boundary(Set::empty(), rdd, s) || exists|t: ShuffleDependency|
            #[trigger] self.at_boundary(Set::empty(), rdd, t) && t.rdd < rdd && self.feeds(t.rdd, s)
    }

    /// Every pinned node names exactly one preferred location for each partition.
    pub open spec fn pins_valid(&self) -> bool {
        forall|i: int, p: int|
            0 <= i < self.rdds@.len() && self.rdds@[i].pinned && 0 <= p
                < self.rdds@[i].preferred_locs@.len() ==> (#[trigger] self.rdds@[i].preferred_locs@[p])@.len()
                == 1
    }

    /// Dataset `rdd` has all the partitions `partitions`.
    pub open spec fn has_partitions(&self, rdd: usize, partitions: Seq<usize>) -> bool {
        forall|i: int|
            0 <= i < partitions.len() ==> (#[trigger] partitions[i]) < self.rdds@[rdd as int].num_splits
    }

    /// Partition `p` is the first of `partitions` that dataset `rdd` does not
    /// have.
    pub open spec fn first_bad_partition(&self, rdd: usize, partitions: Seq<usize>, p: usize) -> bool {
        exists|i: int|
            0 <= i < partitions.len() && #[trigger] partitions[i] == p && p
                >= self.rdds@[rdd as int].num_splits && forall|j: int|
                0 <= j < i ==> partitions[j] < self.rdds@[rdd as int].num_splits
    }

    /// Node `rdd` is the first pinned node, and `partition` its first
    /// partition, for which it names `found` preferred locations and not one.
    pub open spec fn first_bad_pin(&self, rdd: usize, partition: usize, found: usize) -> bool {
        &&& rdd < self.rdds@.len()
        &&& self.rdds@[rdd as int].pinned
        &&& partition < self.rdds@[rdd as int].preferred_locs@.len()
        &&& found == self.rdds@[rdd as int].preferred_locs@[partition as int]@.len()
        &&& found != 1
        &&& forall|j: int, p: int|
            0 <= j < rdd && self.rdds@[j].pinned && 0 <= p < self.rdds@[j].preferred_locs@.len() ==> (
            #[trigger] self.rdds@[j].preferred_locs@[p])@.len() == 1
        &&& forall|q: int|
            0 <= q < partition ==> (#[trigger] self.rdds@[rdd as int].preferred_locs@[q])@.len() == 1
    }

    /// The first partition of `partitions` that dataset `rdd` does not have.
    pub fn find_bad_partition(&self, rdd: usize, partitions: &Vec<usize>) -> (r: Option<usize>)
        requires
            rdd < self.rdds@.len(),
        ensures
            r is None <==> self.has_partitions(rdd, partitions@),
            r matches Some(p) ==> self.first_bad_partition(rdd, partitions@, p),
    {
        let n = self.number_of_splits(rdd);
        let mut i: usize = 0;
        while i < partitions.len()
            invariant
                i <= partitions@.len(),
                n == self.rdds@[rdd as int].num_splits,
                forall|j: int| 0 <= j < i ==> (#[trigger] partitions@[j]) < n,
            decreases partitions@.len() - i,
        {
            if partitions[i] >= n {
                return Some(partitions[i]);
            }
            i = i + 1;
        }
        None
    }

    /// The first pinned node, and its first partition, for which it does not
    /// name exactly one preferred location, with the number of locations that
    /// it names; `None` if there is no such node.
    pub fn find_bad_pin(&self) -> (r: Option<(usize, usize, usize)>)
        ensures
            r is None <==> self.pins_valid(),
            r matches Some((rdd, partition, found)) ==> self.first_bad_pin(rdd, partition, found),
    {
        let mut i: usize = 0;
        while i < self.rdds.len()
            invariant
                i <= self.rdds@.len(),
                forall|j: int, p: int|
                    0 <= j < i && self.rdds@[j].pinned && 0 <= p < self.rdds@[j].preferred_locs@.len()
                        ==> (#[trigger] self.rdds@[j].preferred_locs@[p])@.len() == 1,
            decreases self.rdds@.len() - i,
        {
            if self.rdds[i].pinned {
                let mut p: usize = 0;
                while p < self.rdds[i].preferred_locs.len()
                    invariant
                        i < self.rdds@.len(),
                        self.rdds@[i as int].pinned,
                        forall|j: int, q: int|
                            0 <= j < i && self.rdds@[j].pinned && 0 <= q
                                < self.rdds@[j].preferred_locs@.len() ==> (
                            #[trigger] self.rdds@[j].preferred_locs@[q])@.len() == 1,
                        p <= self.rdds@[i as int].preferred_locs@.len(),
                        forall|q: int|
                            0 <= q < p ==> (#[trigger] self.rdds@[i as int].preferred_locs@[q])@.len()
                                == 1,
                    decreases self.rdds@[i as int].preferred_locs@.len() - p,
                {
                    let found = self.rdds[i].preferred_locs[p].len();
                    if found != 1 {
                        return Some((i, p, found));
                    }
                    p = p + 1;
                }
            }
            i = i + 1;
        }
        None
    }

    /// Whether every pinned node names exactly one preferred location for each
    /// of its partitions.
    pub fn check_pins(&self) -> (b: bool)
        ensures
            b == self.pins_valid(),
    {
        self.find_bad_pin().is_none()
    }
}

/// What a narrow parent of `x` reaches, `x` reaches too, unless `x` is cut off.
pub proof fn lemma_reaches_step(ctx: &Context, cut: Set<usize>, x: usize, k: int, to: usize)
    requires
        x < ctx.rdds@.len(),
        !cut.contains(x),
        0 <= k < ctx.deps(x).len(),
        ctx.deps(x)[k] matches Dependency::NarrowDependency(n) && n.rdd < x && ctx.reaches(
            cut,
            n.rdd,
            to,
        ),
    ensures
        ctx.reaches(cut, x, to),
{
    let n = ctx.deps(x)[k]->NarrowDependency_0;
    assert(ctx.narrow_parent(x, k) == Some(n.rdd));
}

/// A shuffle at the boundary of a narrow parent is at the boundary of the child.
pub proof fn lemma_boundary_step(ctx: &Context, cut: Set<usize>, x: usize, k: int, s: ShuffleDependency)
    requires
        x < ctx.rdds@.len(),
        !cut.contains(x),
        0 <= k < ctx.deps(x).len(),
        ctx.deps(x)[k] matches Dependency::NarrowDependency(n) && n.rdd < x && ctx.at_boundary(
            cut,
            n.rdd,
            s,
        ),
    ensures
        ctx.at_boundary(cut, x, s),
{
    let n = ctx.deps(x)[k]->NarrowDependency_0;
    let (y, j) = choose|y: usize, j: int|
        ctx.reaches(cut, n.rdd, y) && y < ctx.rdds@.len() && !cut.contains(y) && 0 <= j
            < ctx.deps(y).len() && #[trigger] ctx.deps(y)[j] == Dependency::ShuffleDependency(s);
    assert(ctx.narrow_parent(x, k) == Some(n.rdd));
    assert(ctx.reaches(cut, x, y));
}

/// A shuffle upstream of a narrow parent is upstream of the child.
pub proof fn lemma_feeds_step(ctx: &Context, x: usize, k: int, s: ShuffleDependency)
    requires
        x < ctx.rdds@.len(),
        0 <= k < ctx.deps(x).len(),
        ctx.deps(x)[k] matches Dependency::NarrowDependency(n) && n.rdd < x && ctx.feeds(n.rdd, s),
    ensures
        ctx.feeds(x, s),
{
    let n = ctx.deps(x)[k]->NarrowDependency_0;
    if ctx.at_boundary(Set::empty(), n.rdd, s) {
        lemma_boundary_step(ctx, Set::empty(), x, k, s);
    } else {
        let t = choose|t: ShuffleDependency|
            #[trigger] ctx.at_boundary(Set::empty(), n.rdd, t) && t.rdd < n.rdd && ctx.feeds(
                t.rdd,
                s,
            );
        lemma_boundary_step(ctx, Set::empty(), x, k, t);
        assert(ctx.at_boundary(Set::empty(), x, t) && t.rdd < x && ctx.feeds(t.rdd, s));
    }
}

/// A shuffle dependency held by a node is at the boundary of that node.
pub proof fn lemma_boundary_here(ctx: &Context, cut: Set<usize>, x: usize, k: int, s: ShuffleDependency)
    requires
        x < ctx.rdds@.len(),
        !cut.contains(x),
        0 <= k < ctx.deps(x).len(),
        ctx.deps(x)[k] == Dependency::ShuffleDependency(s),
    ensures
        ctx.at_boundary(cut, x, s),
{
    assert(ctx.reaches(cut, x, x));
}

/// In a well-formed graph, every node reached from `from` is a node of the graph
/// at or below `from`.
pub proof fn lemma_reaches_below(ctx: &Context, cut: Set<usize>, from: usize, to: usize)
    requires
        ctx.wf(),
        from < ctx.rdds@.len(),
        ctx.reaches(cut, from, to),
    ensures
        to <= from,
    decreases from,
{
    if to != from {
        let k = choose|k: int|
            (#[trigger] ctx.narrow_parent(from, k)) is Some && ctx.narrow_parent(from, k)->0 < from
                && ctx.reaches(cut, ctx.narrow_parent(from, k)->0, to);
        lemma_reaches_below(ctx, cut, ctx.narrow_parent(from, k)->0, to);
    }
}

/// A shuffle at the boundary of `rdd` is registered in the graph and has its map
/// side strictly below `rdd`.
pub proof fn lemma_boundary_below(ctx: &Context, cut: Set<usize>, rdd: usize, s: ShuffleDependency)
    requires
        ctx.wf(),
        rdd < ctx.rdds@.len(),
        ctx.at_boundary(cut, rdd, s),
    ensures
        s.rdd < rdd,
        s.shuffle_id < ctx.shuffles@.len(),
        ctx.shuffles@[s.shuffle_id as int] == s,
{
    let (y, j) = choose|y: usize, j: int|
        ctx.reaches(cut, rdd, y) && y < ctx.rdds@.len() && !cut.contains(y) && 0 <= j
            < ctx.deps(y).len() && #[trigger] ctx.deps(y)[j] == Dependency::ShuffleDependency(s);
    lemma_reaches_below(ctx, cut, rdd, y);
    assert(ctx.rdd_ok(y as int));
    assert(ctx.dep_ok(y as int, ctx.rdds@[y as int].num_splits, ctx.rdds@[y as int].dependencies@[j]));
}

/// Reaching a node while avoiding descent from some nodes is reaching it.
pub proof fn lemma_reaches_uncut(ctx: &Context, cut: Set<usize>, from: usize, to: usize)
    requires
        ctx.reaches(cut, from, to),
    ensures
        ctx.reaches(Set::empty(), from, to),
    decreases from,
{
    if to != from {
        let k = choose|k: int|
            (#[trigger] ctx.narrow_parent(from, k)) is Some && ctx.narrow_parent(from, k)->0 < from
                && ctx.reaches(cut, ctx.narrow_parent(from, k)->0, to);
        lemma_reaches_uncut(ctx, cut, ctx.narrow_parent(from, k)->0, to);
    }
}

/// A shuffle at the boundary of a walk that stops at some nodes is at the
/// boundary of the walk that stops nowhere.
pub proof fn lemma_boundary_uncut(ctx: &Context, cut: Set<usize>, rdd: usize, s: ShuffleDependency)
    requires
        ctx.at_boundary(cut, rdd, s),
    ensures
        ctx.at_boundary(Set::empty(), rdd, s),
{
    let (y, j) = choose|y: usize, j: int|
        ctx.reaches(cut, rdd, y) && y < ctx.rdds@.len() && !cut.contains(y) && 0 <= j
            < ctx.deps(y).len() && #[trigger] ctx.deps(y)[j] == Dependency::ShuffleDependency(s);
    lemma_reaches_uncut(ctx, cut, rdd, y);
    assert(ctx.reaches(Set::empty(), rdd, y) && y < ctx.rdds@.len() && !Set::<usize>::empty().contains(y)
        && 0 <= j < ctx.deps(y).len() && ctx.deps(y)[j] == Dependency::ShuffleDependency(s));
}

} // verus!
