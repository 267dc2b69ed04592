//! An ordered set of numeric identifiers.
//!
//! Stages, tasks and dataset nodes are all referred to by their numeric id.  The
//! scheduler keeps several sets of such ids (waiting stages, running stages,
//! outstanding tasks, visited nodes) and walks some of them in ascending order,
//! so the set is stored as a strictly increasing vector.

use vstd::prelude::*;

verus! {

/// `s` lists its elements in strictly ascending order.
pub open spec fn strictly_increasing(s: Seq<usize>) -> bool {
    forall|i: int, j: int| 0 <= i < j < s.len() ==> s[i] < s[j]
}

/// The elements of a finite set of ids, listed in ascending order.
pub open spec fn ascending(s: Set<usize>) -> Seq<usize> {
    choose|q: Seq<usize>| strictly_increasing(q) && q.to_set() == s
}

/// Two ascending listings of the same set are the same sequence.
pub proof fn lemma_ascending_unique(a: Seq<usize>, b: Seq<usize>)
    requires
        strictly_increasing(a),
        strictly_increasing(b),
        a.to_set() == b.to_set(),
    ensures
        a == b,
    decreases a.len(),
{
    if a.len() == 0 {
        if b.len() > 0 {
            assert(b.to_set().contains(b[0]));
            assert(a.to_set().contains(b[0]));
        }
        assert(a =~= b);
    } else {
        let last_a = a.last();
        assert(a.to_set().contains(last_a));
        assert(b.to_set().contains(last_a));
        assert(b.len() > 0);
        let last_b = b.last();
        assert(b.to_set().contains(last_b));
        assert(a.to_set().contains(last_b));
        let ia = choose|i: int| 0 <= i < a.len() && a[i] == last_b;
        let ib = choose|i: int| 0 <= i < b.len() && b[i] == last_a;
        assert(last_b <= last_a);
        assert(last_a <= last_b);
        let a0 = a.drop_last();
        let b0 = b.drop_last();
        assert forall|x: usize| a0.to_set().contains(x) <==> b0.to_set().contains(x) by {
            if a0.to_set().contains(x) {
                let i = choose|i: int| 0 <= i < a0.len() && a0[i] == x;
                assert(a[i] == x);
                assert(x < last_a);
                assert(a.to_set().contains(x));
                assert(b.to_set().contains(x));
                let j = choose|j: int| 0 <= j < b.len() && b[j] == x;
                assert(j < b.len() - 1);
                assert(b0[j] == x);
            }
            if b0.to_set().contains(x) {
                let i = choose|i: int| 0 <= i < b0.len() && b0[i] == x;
                assert(b[i] == x);
                assert(x < last_b);
                assert(b.to_set().contains(x));
                assert(a.to_set().contains(x));
                let j = choose|j: int| 0 <= j < a.len() && a[j] == x;
                assert(j < a.len() - 1);
                assert(a0[j] == x);
            }
        }
        assert(a0.to_set() =~= b0.to_set());
        lemma_ascending_unique(a0, b0);
        assert(a =~= a0.push(last_a));
        assert(b =~= b0.push(last_b));
    }
}

/// A strictly increasing listing of a set is its ascending listing.
pub proof fn lemma_ascending_of(q: Seq<usize>)
    requires
        strictly_increasing(q),
    ensures
        ascending(q.to_set()) == q,
{
    let s = q.to_set();
    let c = ascending(s);
    assert(strictly_increasing(c) && c.to_set() == s);
    lemma_ascending_unique(c, q);
}

/// The elements of a prefix that is one longer are those of the prefix and the
/// element that was added.
pub proof fn lemma_prefix_set(s: Seq<usize>, i: int)
    requires
        0 <= i < s.len(),
    ensures
        s.subrange(0, i + 1).to_set() == s.subrange(0, i).to_set().insert(s[i]),
{
    let a = s.subrange(0, i);
    let b = s.subrange(0, i + 1);
    assert forall|x: usize| b.to_set().contains(x) <==> a.to_set().insert(s[i]).contains(x) by {
        if b.to_set().contains(x) {
            let j = choose|j: int| 0 <= j < b.len() && b[j] == x;
            if j < i {
                assert(a[j] == x);
            }
        }
        if a.to_set().contains(x) {
            let j = choose|j: int| 0 <= j < a.len() && a[j] == x;
            assert(b[j] == x);
        }
        if x == s[i] {
            assert(b[i] == x);
        }
    }
    assert(b.to_set() =~= a.to_set().insert(s[i]));
}

/// A finite set of ids, stored in ascending order without repetition.
#[derive(Debug)]
pub struct IdSet {
    pub ids: Vec<usize>,
}

impl View for IdSet {
    type V = Set<usize>;

    open spec fn view(&self) -> Set<usize> {
        self.ids@.to_set()
    }
}

impl IdSet {
    /// The stored ids are strictly ascending.
    pub open spec fn wf(&self) -> bool {
        strictly_increasing(self.ids@)
    }

    /// The empty set.
    pub fn new() -> (s: Self)
        ensures
            s.wf(),
            s@ == Set::<usize>::empty(),
            s.ids@ == Seq::<usize>::empty(),
    {
        let s = IdSet { ids: Vec::new() };
        assert(s@ =~= Set::<usize>::empty());
        s
    }

    /// The number of ids in the set.
    pub fn len(&self) -> (n: usize)
        requires
            self.wf(),
        ensures
            n == self.ids@.len(),
            n == self@.len(),
    {
        proof {
            self.ids@.unique_seq_to_set();
        }
        self.ids.len()
    }

    /// Whether the set holds no id.
    pub fn is_empty(&self) -> (b: bool)
        ensures
            b == (self.ids@.len() == 0),
            b == (self@ == Set::<usize>::empty()),
    {
        proof {
            if self.ids@.len() > 0 {
                assert(self@.contains(self.ids@[0]));
            } else {
                assert(self@ =~= Set::<usize>::empty());
            }
        }
        self.ids.len() == 0
    }

    /// The position of the first stored id that is not below `id`.
    fn lower_bound(&self, id: usize) -> (pos: usize)
        requires
            self.wf(),
        ensures
            pos <= self.ids@.len(),
            forall|i: int| 0 <= i < pos ==> self.ids@[i] < id,
            forall|i: int| pos <= i < self.ids@.len() ==> self.ids@[i] >= id,
    {
        let mut pos: usize = 0;
        while pos < self.ids.len() && self.ids[pos] < id
            invariant
                self.wf(),
                pos <= self.ids@.len(),
                forall|i: int| 0 <= i < pos ==> self.ids@[i] < id,
            decreases self.ids@.len() - pos,
        {
            pos = pos + 1;
        }
        pos
    }

    /// Whether `id` is in the set.
    pub fn contains(&self, id: usize) -> (b: bool)
        requires
            self.wf(),
        ensures
            b == self@.contains(id),
    {
        let pos = self.lower_bound(id);
        let b = pos < self.ids.len() && self.ids[pos] == id;
        proof {
            if b {
                assert(self.ids@[pos as int] == id);
            } else if self@.contains(id) {
                let i = choose|i: int| 0 <= i < self.ids@.len() && self.ids@[i] == id;
                assert(i >= pos);
            }
        }
        b
    }

    /// Adds `id`; returns whether it was absent before.
    pub fn insert(&mut self, id: usize) -> (fresh: bool)
        requires
            old(self).wf(),
        ensures
            final(self).wf(),
            final(self)@ == old(self)@.insert(id),
            fresh == !old(self)@.contains(id),
    {
        let pos = self.lower_bound(id);
        if pos < self.ids.len() && self.ids[pos] == id {
            proof {
                assert(self.ids@[pos as int] == id);
                assert(self@ =~= old(self)@.insert(id));
            }
            false
        } else {
            let ghost before = self.ids@;
            self.ids.insert(pos, id);
            proof {
                let after = self.ids@;
                assert(after == before.insert(pos as int, id));
                assert forall|i: int, j: int| 0 <= i < j < after.len() implies after[i] < after[j] by {
                    if i < pos && j > pos {
                        assert(after[i] == before[i]);
                        assert(after[j] == before[j - 1]);
                    }
                }
                if before.to_set().contains(id) {
                    let i = choose|i: int| 0 <= i < before.len() && before[i] == id;
                    assert(i >= pos);
                    assert(false);
                }
                assert forall|x: usize| after.to_set().contains(x) <==> before.to_set().insert(
                    id,
                ).contains(x) by {
                    if after.to_set().contains(x) {
                        let i = choose|i: int| 0 <= i < after.len() && after[i] == x;
                        if i < pos {
                            assert(before[i] == x);
                        } else if i > pos {
                            assert(before[i - 1] == x);
                        }
                    }
                    if before.to_set().contains(x) {
                        let i = choose|i: int| 0 <= i < before.len() && before[i] == x;
                        if i < pos {
                            assert(after[i] == x);
                        } else {
                            assert(after[i + 1] == x);
                        }
                    }
                    if x == id {
                        assert(after[pos as int] == x);
                    }
                }
                assert(after.to_set() =~= before.to_set().insert(id));
            }
            true
        }
    }

    /// Removes `id`; returns whether it was present before.
    pub fn remove(&mut self, id: usize) -> (present: bool)
        requires
            old(self).wf(),
        ensures
            final(self).wf(),
            final(self)@ == old(self)@.remove(id),
            present == old(self)@.contains(id),
    {
        let pos = self.lower_bound(id);
        if pos < self.ids.len() && self.ids[pos] == id {
            let ghost before = self.ids@;
            let _gone = self.ids.remove(pos);
            proof {
                let after = self.ids@;
                assert(after == before.remove(pos as int));
                assert(before[pos as int] == id);
                assert forall|i: int, j: int| 0 <= i < j < after.len() implies after[i] < after[j] by {
                    let bi = if i < pos { i } else { i + 1 };
                    let bj = if j < pos { j } else { j + 1 };
                    assert(after[i] == before[bi]);
                    assert(after[j] == before[bj]);
                }
                assert forall|x: usize| after.to_set().contains(x) <==> before.to_set().remove(
                    id,
                ).contains(x) by {
                    if after.to_set().contains(x) {
                        let i = choose|i: int| 0 <= i < after.len() && after[i] == x;
                        let bi = if i < pos { i } else { i + 1 };
                        assert(before[bi] == x);
                    }
                    if before.to_set().contains(x) && x != id {
                        let i = choose|i: int| 0 <= i < before.len() && before[i] == x;
                        if i < pos {
                            assert(after[i] == x);
                        } else {
                            assert(i > pos);
                            assert(after[i - 1] == x);
                        }
                    }
                }
                assert(after.to_set() =~= before.to_set().remove(id));
            }
            true
        } else {
            proof {
                if self@.contains(id) {
                    let i = choose|i: int| 0 <= i < self.ids@.len() && self.ids@[i] == id;
                    assert(i >= pos);
                }
                assert(self@ =~= old(self)@.remove(id));
            }
            false
        }
    }

    /// The ids of the set in ascending order.
    pub fn to_vec(&self) -> (v: Vec<usize>)
        requires
            self.wf(),
        ensures
            v@ == self.ids@,
            v@ == ascending(self@),
    {
        proof {
            lemma_ascending_of(self.ids@);
        }
        let mut v: Vec<usize> = Vec::new();
        let mut i: usize = 0;
        while i < self.ids.len()
            invariant
                i <= self.ids@.len(),
                v@ == self.ids@.subrange(0, i as int),
            decreases self.ids@.len() - i,
        {
            v.push(self.ids[i]);
            i = i + 1;
            assert(v@ =~= self.ids@.subrange(0, i as int));
        }
        assert(v@ =~= self.ids@);
        v
    }

    /// Adds every id of `ids`.
    pub fn insert_all(&mut self, ids: &Vec<usize>)
        requires
            old(self).wf(),
        ensures
            final(self).wf(),
            final(self)@ == old(self)@ + ids@.to_set(),
    {
        let mut i: usize = 0;
        proof {
            assert(self@ =~= old(self)@ + ids@.subrange(0, 0).to_set());
        }
        while i < ids.len()
            invariant
                i <= ids@.len(),
                self.wf(),
                self@ == old(self)@ + ids@.subrange(0, i as int).to_set(),
            decreases ids@.len() - i,
        {
            self.insert(ids[i]);
            proof {
                lemma_prefix_set(ids@, i as int);
                assert(self@ =~= old(self)@ + ids@.subrange(0, i + 1).to_set());
            }
            i = i + 1;
        }
        proof {
            assert(ids@.subrange(0, i as int) =~= ids@);
        }
    }

    /// Removes every id of `ids`.
    pub fn remove_all(&mut self, ids: &Vec<usize>)
        requires
            old(self).wf(),
        ensures
            final(self).wf(),
            final(self)@ == old(self)@.difference(ids@.to_set()),
    {
        let mut i: usize = 0;
        proof {
            assert(self@ =~= old(self)@.difference(ids@.subrange(0, 0).to_set()));
        }
        while i < ids.len()
            invariant
                i <= ids@.len(),
                self.wf(),
                self@ == old(self)@.difference(ids@.subrange(0, i as int).to_set()),
            decreases ids@.len() - i,
        {
            self.remove(ids[i]);
            proof {
                lemma_prefix_set(ids@, i as int);
                assert(self@ =~= old(self)@.difference(ids@.subrange(0, i + 1).to_set()));
            }
            i = i + 1;
        }
        proof {
            assert(ids@.subrange(0, i as int) =~= ids@);
        }
    }
}

} // verus!
