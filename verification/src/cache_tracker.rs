//! The cache-location table: for each registered dataset, the locations at
//! which each of its partitions is held in memory.

use vstd::prelude::*;

verus! {

/// Known in-memory locations: one entry per dataset id, `None` for a dataset that
/// is not registered, else one list of locations per partition.
pub type CacheLocs = Vec<Option<Vec<Vec<u32>>>>;

/// Whether the table `locs` has an entry for dataset `rdd`.
pub open spec fn has_entry(locs: Seq<Option<Seq<Seq<u32>>>>, rdd: usize) -> bool {
    rdd < locs.len() && locs[rdd as int] is Some
}

/// The partitions of dataset `rdd` in the table `locs`.
pub open spec fn entry(locs: Seq<Option<Seq<Seq<u32>>>>, rdd: usize) -> Seq<Seq<u32>> {
    locs[rdd as int]->0
}

/// Whether the table `locs` knows a location of partition `p` of dataset `rdd`.
pub open spec fn is_cached(locs: Seq<Option<Seq<Seq<u32>>>>, rdd: usize, p: int) -> bool {
    has_entry(locs, rdd) && 0 <= p < entry(locs, rdd).len() && entry(locs, rdd)[p].len() > 0
}

/// Copies a list of locations.
pub fn copy_hosts(hosts: &Vec<u32>) -> (r: Vec<u32>)
    ensures
        r@ == hosts@,
{
    let mut r: Vec<u32> = Vec::new();
    let mut i: usize = 0;
    while i < hosts.len()
        invariant
            i <= hosts@.len(),
            r@ == hosts@.subrange(0, i as int),
        decreases hosts@.len() - i,
    {
        r.push(hosts[i]);
        i = i + 1;
        assert(r@ =~= hosts@.subrange(0, i as int));
    }
    assert(hosts@.subrange(0, i as int) =~= hosts@);
    r
}

/// Copies the per-partition location lists of one dataset.
pub fn copy_partitions(parts: &Vec<Vec<u32>>) -> (r: Vec<Vec<u32>>)
    ensures
        r.deep_view() == parts.deep_view(),
{
    let mut r: Vec<Vec<u32>> = Vec::new();
    let mut i: usize = 0;
    while i < parts.len()
        invariant
            i <= parts@.len(),
            r@.len() == i,
            forall|j: int| 0 <= j < i ==> (#[trigger] r@[j])@ == parts@[j]@,
        decreases parts@.len() - i,
    {
        r.push(copy_hosts(&parts[i]));
        i = i + 1;
    }
    proof {
        let a = r.deep_view();
        let b = parts.deep_view();
        assert(a.len() == b.len());
        assert forall|j: int| 0 <= j < a.len() implies a[j] == b[j] by {
            assert(a[j] == r@[j].deep_view());
            assert(b[j] == parts@[j].deep_view());
            assert(r@[j].deep_view() =~= r@[j]@);
            assert(parts@[j].deep_view() =~= parts@[j]@);
        }
        assert(a =~= b);
    }
    r
}

/// Copies a whole table.
pub fn copy_cache_locs(locs: &CacheLocs) -> (r: CacheLocs)
    ensures
        r.deep_view() == locs.deep_view(),
{
    let mut r: CacheLocs = Vec::new();
    let mut i: usize = 0;
    while i < locs.len()
        invariant
            i <= locs@.len(),
            r@.len() == i,
            forall|j: int| 0 <= j < i ==> (#[trigger] r@[j]).deep_view() == locs@[j].deep_view(),
        decreases locs@.len() - i,
    {
        match &locs[i] {
            Some(parts) => {
                r.push(Some(copy_partitions(parts)));
            },
            None => {
                r.push(None);
            },
        }
        i = i + 1;
    }
    proof {
        let a = r.deep_view();
        let b = locs.deep_view();
        assert(a.len() == b.len());
        assert forall|j: int| 0 <= j < a.len() implies a[j] == b[j] by {
            assert(a[j] == r@[j].deep_view());
            assert(b[j] == locs@[j].deep_view());
        }
        assert(a =~= b);
    }
    r
}

/// Records which partitions of which datasets are held in memory, and where.
#[derive(Debug)]
pub struct CacheTracker {
    pub locs: CacheLocs,
}

impl CacheTracker {
    /// The table, as plain sequences.
    pub open spec fn table(&self) -> Seq<Option<Seq<Seq<u32>>>> {
        self.locs.deep_view()
    }

    /// A tracker that knows no dataset.
    pub fn new() -> (t: Self)
        ensures
            t.table().len() == 0,
    {
        CacheTracker { locs: Vec::new() }
    }

    /// Registers dataset `rdd_id` with `num_partitions` partitions, none of them
    /// cached.  A dataset that is registered already keeps its entry.
    pub fn register_rdd(&mut self, rdd_id: usize, num_partitions: usize)
        ensures
            has_entry(final(self).table(), rdd_id),
            forall|k: usize|
                k != rdd_id ==> has_entry(final(self).table(), k) == has_entry(old(self).table(), k),
            forall|k: usize|
                has_entry(old(self).table(), k) ==> #[trigger] entry(final(self).table(), k)
                    == entry(old(self).table(), k),
            !has_entry(old(self).table(), rdd_id) ==> {
                &&& entry(final(self).table(), rdd_id).len() == num_partitions
                &&& forall|p: int|
                    0 <= p < num_partitions ==> (#[trigger] entry(final(self).table(), rdd_id)[p]).len()
                        == 0
            },
    {
        let ghost before = self.table();
        while self.locs.len() <= rdd_id
            invariant
                old(self).locs@.len() <= self.locs@.len(),
                before == old(self).table(),
                forall|j: int| 0 <= j < old(self).locs@.len() ==> self.locs@[j] == old(self).locs@[j],
                forall|j: int| old(self).locs@.len() <= j < self.locs@.len() ==> self.locs@[j] is None,
            decreases rdd_id + 1 - self.locs@.len(),
        {
            self.locs.push(None);
        }
        let fresh = match &self.locs[rdd_id] {
            Some(_) => false,
            None => true,
        };
        let ghost mid = self.table();
        proof {
            assert forall|j: int| 0 <= j < mid.len() implies #[trigger] mid[j] == (if j
                < before.len() {
                before[j]
            } else {
                None
            }) by {
                assert(mid[j] == self.locs@[j].deep_view());
                if j < before.len() {
                    assert(before[j] == old(self).locs@[j].deep_view());
                }
            }
        }
        if fresh {
            let mut parts: Vec<Vec<u32>> = Vec::new();
            let mut p: usize = 0;
            while p < num_partitions
                invariant
                    p <= num_partitions,
                    parts@.len() == p,
                    forall|q: int| 0 <= q < p ==> (#[trigger] parts@[q])@.len() == 0,
                decreases num_partitions - p,
            {
                parts.push(Vec::new());
                p = p + 1;
            }
            let ghost pv = parts.deep_view();
            proof {
                assert(pv.len() == num_partitions);
                assert forall|q: int| 0 <= q < num_partitions implies (#[trigger] pv[q]).len()
                    == 0 by {
                    assert(pv[q] == parts@[q].deep_view());
                }
            }
            self.locs[rdd_id] = Some(parts);
            proof {
                let after = self.table();
                assert forall|j: int| 0 <= j < after.len() implies #[trigger] after[j] == (if j
                    == rdd_id {
                    Some(pv)
                } else {
                    mid[j]
                }) by {
                    assert(after[j] == self.locs@[j].deep_view());
                }
            }
        }
    }

    /// Records that partition `partition` of dataset `rdd_id` is held at `host`.
    /// Returns whether the dataset and the partition are known; nothing is
    /// recorded when they are not.
    pub fn add_host(&mut self, rdd_id: usize, partition: usize, host: u32) -> (known: bool)
        ensures
            known == (has_entry(old(self).table(), rdd_id) && partition < entry(
                old(self).table(),
                rdd_id,
            ).len()),
            !known ==> final(self).table() == old(self).table(),
            known ==> final(self).table() == old(self).table().update(
                rdd_id as int,
                Some(
                    entry(old(self).table(), rdd_id).update(
                        partition as int,
                        entry(old(self).table(), rdd_id)[partition as int].push(host),
                    ),
                ),
            ),
    {
        if rdd_id >= self.locs.len() {
            return false;
        }
        assert(self.table()[rdd_id as int] == self.locs@[rdd_id as int].deep_view());
        let known = match &self.locs[rdd_id] {
            Some(parts) => partition < parts.len(),
            None => false,
        };
        if known {
            let ghost before = self.table();
            let ghost parts_before = entry(before, rdd_id);
            match &mut self.locs[rdd_id] {
                Some(parts) => {
                    parts[partition].push(host);
                },
                None => {},
            }
            proof {
                let after = self.table();
                let want = before.update(
                    rdd_id as int,
                    Some(
                        parts_before.update(
                            partition as int,
                            parts_before[partition as int].push(host),
                        ),
                    ),
                );
                assert(after.len() == want.len());
                assert forall|j: int| 0 <= j < after.len() implies after[j] == want[j] by {
                    assert(after[j] == self.locs@[j].deep_view());
                    assert(before[j] == old(self).locs@[j].deep_view());
                    if j == rdd_id {
                        let a = self.locs@[j]->0.deep_view();
                        let o = old(self).locs@[j]->0.deep_view();
                        let w = parts_before.update(
                            partition as int,
                            parts_before[partition as int].push(host),
                        );
                        assert(o == parts_before);
                        assert(a.len() == w.len());
                        assert forall|q: int| 0 <= q < a.len() implies a[q] == w[q] by {
                            assert(a[q] == (self.locs@[j]->0)@[q].deep_view());
                            assert(o[q] == (old(self).locs@[j]->0)@[q].deep_view());
                            if q == partition {
                                assert(a[q] =~= w[q]);
                            }
                        }
                        assert(a =~= w);
                    }
                }
                assert(after =~= want);
            }
        }
        known
    }

    /// A copy of the table as it stands.
    pub fn get_location_snapshot(&self) -> (snapshot: CacheLocs)
        ensures
            snapshot.deep_view() == self.table(),
    {
        copy_cache_locs(&self.locs)
    }
}

} // verus!
