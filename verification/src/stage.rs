//! Stages: maximal runs of narrow transformations, the unit of scheduling.

use crate::dependency::ShuffleDependency;
use vstd::prelude::*;

verus! {

/// The test that a location differs from `host`.
pub open spec fn differs_from(host: Seq<char>) -> spec_fn(Seq<char>) -> bool {
    |x: Seq<char>| x != host
}

/// The locations of `list` that differ from `host`, in their order.
pub open spec fn without_host(list: Seq<Seq<char>>, host: Seq<char>) -> Seq<Seq<char>> {
    list.filter(differs_from(host))
}

/// Filtering a list extended by one element.
pub proof fn lemma_without_host_push(list: Seq<Seq<char>>, x: Seq<char>, host: Seq<char>)
    ensures
        without_host(list.push(x), host) == if x != host {
            without_host(list, host).push(x)
        } else {
            without_host(list, host)
        },
{
    list.lemma_filter_push(x, differs_from(host));
}

/// A list in which `host` does not occur is left as it is.
pub proof fn lemma_without_host_absent(list: Seq<Seq<char>>, host: Seq<char>)
    requires
        !list.contains(host),
    ensures
        without_host(list, host) == list,
    decreases list.len(),
{
    if list.len() == 0 {
        reveal(Seq::filter);
        assert(without_host(list, host) =~= list);
    } else {
        let front = list.drop_last();
        let x = list.last();
        assert(list =~= front.push(x));
        assert(list[list.len() - 1] == x);
        assert(x != host);
        assert forall|i: int| 0 <= i < front.len() implies front[i] != host by {
            assert(list[i] == front[i]);
        }
        lemma_without_host_absent(front, host);
        lemma_without_host_push(front, x, host);
    }
}

/// The unit of scheduling: the partitions of dataset `rdd`, computed either for a
/// shuffle (then `shuffle_dependency` names it) or as a job's final result.
#[derive(Debug)]
pub struct Stage {
    pub id: usize,
    pub num_partitions: usize,
    pub shuffle_dependency: Option<ShuffleDependency>,
    pub rdd: usize,
    /// The ids of the stages at the nearest shuffle boundaries, ascending.
    pub parents: Vec<usize>,
    /// For each partition, the locations at which its map output can be fetched.
    pub output_locs: Vec<Vec<String>>,
}

impl Stage {
    /// There is one list of output locations per partition.
    pub open spec fn wf(&self) -> bool {
        self.output_locs@.len() == self.num_partitions
    }

    /// The output locations of each partition, as plain character sequences.
    pub open spec fn locs(&self) -> Seq<Seq<Seq<char>>> {
        self.output_locs.deep_view()
    }

    /// Every partition has at least one output location.
    pub open spec fn available(&self) -> bool {
        forall|p: int| 0 <= p < self.locs().len() ==> (#[trigger] self.locs()[p]).len() > 0
    }

    /// No partition of the stage has an output location.
    pub open spec fn no_output(&self) -> bool {
        forall|p: int| 0 <= p < self.locs().len() ==> (#[trigger] self.locs()[p]).len() == 0
    }

    /// A stage without any output location yet.
    pub fn new(
        id: usize,
        rdd: usize,
        num_partitions: usize,
        shuffle_dependency: Option<ShuffleDependency>,
        parents: Vec<usize>,
    ) -> (stage: Stage)
        ensures
            stage.wf(),
            stage.id == id,
            stage.rdd == rdd,
            stage.num_partitions == num_partitions,
            stage.shuffle_dependency == shuffle_dependency,
            stage.parents == parents,
            forall|p: int| 0 <= p < num_partitions ==> (#[trigger] stage.locs()[p]).len() == 0,
    {
        let mut output_locs: Vec<Vec<String>> = Vec::new();
        let mut p: usize = 0;
        while p < num_partitions
            invariant
                p <= num_partitions,
                output_locs@.len() == p,
                forall|q: int| 0 <= q < p ==> (#[trigger] output_locs@[q])@.len() == 0,
            decreases num_partitions - p,
        {
            output_locs.push(Vec::new());
            p = p + 1;
        }
        let stage = Stage { id, num_partitions, shuffle_dependency, rdd, parents, output_locs };
        proof {
            assert forall|q: int| 0 <= q < num_partitions implies (#[trigger] stage.locs()[q]).len()
                == 0 by {
                assert(stage.locs()[q] == stage.output_locs@[q].deep_view());
            }
        }
        stage
    }

    /// The dataset whose partitions the stage computes.
    pub fn get_rdd(&self) -> (rdd: usize)
        ensures
            rdd == self.rdd,
    {
        self.rdd
    }

    /// Whether every partition has an output location.
    pub fn is_available(&self) -> (b: bool)
        ensures
            b == self.available(),
    {
        let mut p: usize = 0;
        while p < self.output_locs.len()
            invariant
                p <= self.output_locs@.len(),
                forall|q: int| 0 <= q < p ==> (#[trigger] self.locs()[q]).len() > 0,
            decreases self.output_locs@.len() - p,
        {
            if self.output_locs[p].len() == 0 {
                assert(self.locs()[p as int] == self.output_locs@[p as int].deep_view());
                return false;
            }
            assert(self.locs()[p as int] == self.output_locs@[p as int].deep_view());
            p = p + 1;
        }
        true
    }

    /// Whether partition `partition` has no output location.
    pub fn is_missing(&self, partition: usize) -> (b: bool)
        requires
            partition < self.output_locs@.len(),
        ensures
            b == (self.locs()[partition as int].len() == 0),
    {
        assert(self.locs()[partition as int] == self.output_locs@[partition as int].deep_view());
        self.output_locs[partition].len() == 0
    }

    /// Records `host` as one more location of the output of `partition`.
    pub fn add_output_loc(&mut self, partition: usize, host: String)
        requires
            partition < old(self).output_locs@.len(),
        ensures
            final(self).id == old(self).id,
            final(self).num_partitions == old(self).num_partitions,
            final(self).shuffle_dependency == old(self).shuffle_dependency,
            final(self).rdd == old(self).rdd,
            final(self).parents == old(self).parents,
            final(self).locs() == old(self).locs().update(
                partition as int,
                old(self).locs()[partition as int].push(host@),
            ),
    {
        self.output_locs[partition].push(host);
        proof {
            let a = self.locs();
            let b = old(self).locs().update(
                partition as int,
                old(self).locs()[partition as int].push(host@),
            );
            assert(a.len() == b.len());
            assert forall|q: int| 0 <= q < a.len() implies a[q] == b[q] by {
                assert(a[q] == self.output_locs@[q].deep_view());
                assert(old(self).locs()[q] == old(self).output_locs@[q].deep_view());
                if q == partition {
                    assert(a[q] =~= b[q]);
                }
            }
            assert(a =~= b);
        }
    }

    /// Forgets `host` as a location of the output of `partition`.  Other
    /// locations of that partition, and all other partitions, stay as they are.
    pub fn remove_output_loc(&mut self, partition: usize, host: &String)
        requires
            partition < old(self).output_locs@.len(),
        ensures
            final(self).id == old(self).id,
            final(self).num_partitions == old(self).num_partitions,
            final(self).shuffle_dependency == old(self).shuffle_dependency,
            final(self).rdd == old(self).rdd,
            final(self).parents == old(self).parents,
            final(self).locs() == old(self).locs().update(
                partition as int,
                without_host(old(self).locs()[partition as int], host@),
            ),
    {
        let mut kept: Vec<String> = Vec::new();
        let mut i: usize = 0;
        let ghost list = self.output_locs@[partition as int].deep_view();
        proof {
            reveal(Seq::filter);
            assert(list.subrange(0, 0) =~= Seq::<Seq<char>>::empty());
        }
        while i < self.output_locs[partition].len()
            invariant
                *self == *old(self),
                partition < self.output_locs@.len(),
                list == self.output_locs@[partition as int].deep_view(),
                i <= list.len(),
                kept.deep_view() == without_host(list.subrange(0, i as int), host@),
            decreases list.len() - i,
        {
            let ghost prefix = list.subrange(0, i as int);
            let ghost x = list[i as int];
            proof {
                assert(list.subrange(0, i + 1) =~= prefix.push(x));
                lemma_without_host_push(prefix, x, host@);
                assert(x == self.output_locs@[partition as int]@[i as int]@);
            }
            if !(self.output_locs[partition][i] == *host) {
                let ghost before = kept.deep_view();
                kept.push(self.output_locs[partition][i].clone());
                assert(kept.deep_view() =~= before.push(x));
            }
            i = i + 1;
        }
        proof {
            assert(list.subrange(0, i as int) =~= list);
        }
        self.output_locs[partition] = kept;
        proof {
            let a = self.locs();
            let b = old(self).locs().update(
                partition as int,
                without_host(old(self).locs()[partition as int], host@),
            );
            assert(a.len() == b.len());
            assert forall|q: int| 0 <= q < a.len() implies a[q] == b[q] by {
                assert(a[q] == self.output_locs@[q].deep_view());
                assert(old(self).locs()[q] == old(self).output_locs@[q].deep_view());
            }
            assert(a =~= b);
        }
    }
}

} // verus!
