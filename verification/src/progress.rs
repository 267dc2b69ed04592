//! Why a job that is run task by task gets done: what holds of scheduler, job
//! and the tasks that wait to be run, after every event.

use crate::context::{lemma_boundary_below, lemma_boundary_uncut, Context};
use crate::dependency::ShuffleDependency;
use crate::ids::{ascending, lemma_ascending_of, strictly_increasing};
use crate::job::JobView;
use crate::scheduler::DagScheduler;
use crate::submit::{id_run, next_id, nth_id, unfinished_outputs, SubmitEffect};
use crate::task::TaskView;
use vstd::prelude::*;

verus! {

/// The ids of `s` that are below `n`, in ascending order.
pub open spec fn list_below(s: Set<usize>, n: nat) -> Seq<usize>
    decreases n,
{
    if n == 0 {
        Seq::empty()
    } else if s.contains((n - 1) as usize) {
        list_below(s, (n - 1) as nat).push((n - 1) as usize)
    } else {
        list_below(s, (n - 1) as nat)
    }
}

/// The listing of the ids below `n` is in ascending order and holds exactly the
/// ids of the set that are below `n`.
pub proof fn lemma_list_below(s: Set<usize>, n: nat)
    requires
        n <= usize::MAX + 1,
    ensures
        strictly_increasing(list_below(s, n)),
        forall|i: int| 0 <= i < list_below(s, n).len() ==> (#[trigger] list_below(s, n)[i]) < n,
        forall|x: usize| list_below(s, n).to_set().contains(x) <==> s.contains(x) && x < n,
        list_below(s, n).len() <= n,
    decreases n,
{
    if n > 0 {
        let rest = list_below(s, (n - 1) as nat);
        lemma_list_below(s, (n - 1) as nat);
        let last = (n - 1) as usize;
        let all = list_below(s, n);
        assert forall|x: usize| all.to_set().contains(x) <==> s.contains(x) && x < n by {
            if all.to_set().contains(x) {
                let i = choose|i: int| 0 <= i < all.len() && all[i] == x;
                if i < rest.len() {
                    assert(rest[i] == x);
                    assert(rest.to_set().contains(x));
                }
            }
            if s.contains(x) && x < n {
                if x == last {
                    assert(all[rest.len() as int] == x);
                } else {
                    assert(rest.to_set().contains(x));
                    let i = choose|i: int| 0 <= i < rest.len() && rest[i] == x;
                    assert(all[i] == x);
                }
            }
        }
    } else {
        assert forall|x: usize| !list_below(s, n).to_set().contains(x) by {
            if list_below(s, n).to_set().contains(x) {
                let i = choose|i: int| 0 <= i < list_below(s, n).len() && list_below(s, n)[i] == x;
            }
        }
    }
}

/// A set of ids that are all below `n` is listed, in ascending order and
/// without repetition, by its ascending listing.
pub proof fn lemma_ascending_lists(s: Set<usize>, n: nat)
    requires
        n <= usize::MAX + 1,
        forall|x: usize| s.contains(x) ==> x < n,
    ensures
        strictly_increasing(ascending(s)),
        ascending(s).to_set() == s,
        ascending(s) == list_below(s, n),
        forall|i: int| 0 <= i < ascending(s).len() ==> s.contains(#[trigger] ascending(s)[i]),
        forall|x: usize| s.contains(x) ==> exists|i: int| 0 <= i < ascending(s).len() && ascending(s)[i] == x,
{
    let l = list_below(s, n);
    lemma_list_below(s, n);
    assert(l.to_set() =~= s);
    lemma_ascending_of(l);
    assert forall|i: int| 0 <= i < l.len() implies s.contains(#[trigger] l[i]) by {
        assert(l.to_set().contains(l[i]));
    }
    assert forall|x: usize| s.contains(x) implies exists|i: int| 0 <= i < l.len() && l[i] == x by {
        assert(l.to_set().contains(x));
    }
}

/// The `k`-th id from `first` on, as long as the counter has not gone round.
pub proof fn lemma_nth_id_value(first: usize, k: nat)
    requires
        k <= usize::MAX + 1,
    ensures
        nth_id(first, k) == if first + k <= usize::MAX {
            first + k
        } else {
            first + k - usize::MAX - 1
        },
    decreases k,
{
    if k > 0 {
        lemma_nth_id_value(first, (k - 1) as nat);
    }
}

/// The ids handed out in one round of the counter are all different.
pub proof fn lemma_nth_id_distinct(first: usize, a: nat, b: nat)
    requires
        a < b,
        b <= usize::MAX,
    ensures
        nth_id(first, a) != nth_id(first, b),
{
    lemma_nth_id_value(first, a);
    lemma_nth_id_value(first, b);
}

/// Counting on from the `a`-th id is counting on from `first`.
pub proof fn lemma_nth_id_add(first: usize, a: nat, b: nat)
    ensures
        nth_id(nth_id(first, a), b) == nth_id(first, a + b),
    decreases b,
{
    if b > 0 {
        lemma_nth_id_add(first, a, (b - 1) as nat);
    }
}

/// Counting on from the id after `first` is counting one further from `first`.
pub proof fn lemma_nth_id_shift(first: usize, k: nat)
    ensures
        nth_id(next_id(first), k) == nth_id(first, k + 1),
{
    lemma_nth_id_add(first, 1, k);
    assert(nth_id(first, 1) == next_id(nth_id(first, 0)));
}

/// The number of `false` among the first `n` flags.
pub open spec fn count_false(flags: Seq<bool>, n: nat) -> nat
    decreases n,
{
    if n == 0 {
        0
    } else {
        count_false(flags, (n - 1) as nat) + if flags[n - 1] {
            0nat
        } else {
            1nat
        }
    }
}

/// Setting a flag that was `false` leaves one `false` less.
pub proof fn lemma_count_false_set(flags: Seq<bool>, i: int, n: nat)
    requires
        0 <= i < flags.len(),
        n <= flags.len(),
        !flags[i],
    ensures
        count_false(flags.update(i, true), n) == count_false(flags, n) - if i < n {
            1int
        } else {
            0int
        },
    decreases n,
{
    if n > 0 {
        lemma_count_false_set(flags, i, (n - 1) as nat);
    }
}

/// Where no flag is `false`, all are `true`; where one is `false`, the count
/// is not zero.
pub proof fn lemma_count_false_zero(flags: Seq<bool>, n: nat)
    requires
        n <= flags.len(),
    ensures
        count_false(flags, n) == 0 <==> forall|i: int| 0 <= i < n ==> #[trigger] flags[i],
    decreases n,
{
    if n > 0 {
        lemma_count_false_zero(flags, (n - 1) as nat);
        if count_false(flags, n) == 0 {
            assert forall|i: int| 0 <= i < n implies #[trigger] flags[i] by {
                if i < n - 1 {
                }
            }
        }
    }
}

/// Where every flag is `false`, the count is the number of flags.
pub proof fn lemma_count_false_all(flags: Seq<bool>, n: nat)
    requires
        n <= flags.len(),
        forall|i: int| 0 <= i < n ==> !#[trigger] flags[i],
    ensures
        count_false(flags, n) == n,
    decreases n,
{
    if n > 0 {
        lemma_count_false_all(flags, (n - 1) as nat);
    }
}

/// The number of partitions without output location among the first `n`.
pub open spec fn empties(locs: Seq<Seq<Seq<char>>>, n: nat) -> nat
    decreases n,
{
    if n == 0 {
        0
    } else {
        empties(locs, (n - 1) as nat) + if locs[n - 1].len() == 0 {
            1nat
        } else {
            0nat
        }
    }
}

/// Giving a location to a partition that had none leaves one partition less
/// without location.
pub proof fn lemma_empties_filled(locs: Seq<Seq<Seq<char>>>, p: int, uri: Seq<char>, n: nat)
    requires
        0 <= p < locs.len(),
        n <= locs.len(),
        locs[p].len() == 0,
    ensures
        empties(locs.update(p, locs[p].push(uri)), n) == empties(locs, n) - if p < n {
            1int
        } else {
            0int
        },
    decreases n,
{
    if n > 0 {
        lemma_empties_filled(locs, p, uri, (n - 1) as nat);
    }
}

/// The members of an ascending listing that pass a test are listed in
/// ascending order too, and are just the members that pass.
pub proof fn lemma_filter_listing(l: Seq<usize>, test: spec_fn(usize) -> bool)
    requires
        strictly_increasing(l),
    ensures
        strictly_increasing(l.filter(test)),
        forall|x: usize| l.filter(test).to_set().contains(x) <==> l.to_set().contains(x) && test(x),
        forall|i: int| 0 <= i < l.filter(test).len() ==> l.to_set().contains(#[trigger] l.filter(test)[i]),
    decreases l.len(),
{
    reveal(Seq::filter);
    let f = l.filter(test);
    if l.len() > 0 {
        let front = l.drop_last();
        let x = l.last();
        lemma_filter_listing(front, test);
        let ff = front.filter(test);
        assert forall|i: int| 0 <= i < ff.len() implies (#[trigger] ff[i]) < x by {
            assert(front.to_set().contains(ff[i]));
            let k = choose|k: int| 0 <= k < front.len() && front[k] == ff[i];
            assert(l[k] == front[k]);
        }
        assert forall|y: usize| f.to_set().contains(y) <==> l.to_set().contains(y) && test(y) by {
            if f.to_set().contains(y) {
                let i = choose|i: int| 0 <= i < f.len() && f[i] == y;
                if i < ff.len() {
                    assert(ff[i] == y);
                    assert(ff.to_set().contains(y));
                    let k = choose|k: int| 0 <= k < front.len() && front[k] == y;
                    assert(l[k] == y);
                } else {
                    assert(l[l.len() - 1] == y);
                }
            }
            if l.to_set().contains(y) && test(y) {
                let k = choose|k: int| 0 <= k < l.len() && l[k] == y;
                if k < front.len() {
                    assert(front[k] == y);
                    assert(front.to_set().contains(y));
                    assert(ff.to_set().contains(y));
                    let i = choose|i: int| 0 <= i < ff.len() && ff[i] == y;
                    assert(f[i] == y);
                } else {
                    assert(f[ff.len() as int] == y);
                }
            }
        }
        assert forall|i: int| 0 <= i < f.len() implies l.to_set().contains(#[trigger] f[i]) by {
            assert(f.to_set().contains(f[i]));
        }
    } else {
        assert forall|y: usize| !f.to_set().contains(y) by {
            if f.to_set().contains(y) {
                let i = choose|i: int| 0 <= i < f.len() && f[i] == y;
            }
        }
        assert forall|y: usize| !l.to_set().contains(y) by {
            if l.to_set().contains(y) {
                let i = choose|i: int| 0 <= i < l.len() && l[i] == y;
            }
        }
    }
}

/// The tasks behind the first keep their numbering, counted from the next id.
pub proof fn lemma_numbered_rest(q: Seq<TaskView>, base: usize, next: usize)
    requires
        numbered(q, base, next),
        q.len() > 0,
    ensures
        numbered(q.drop_first(), next_id(base), next),
        q[0].task_id == base,
{
    let r = q.drop_first();
    assert forall|k: int| 0 <= k < r.len() implies (#[trigger] r[k]).task_id == nth_id(
        next_id(base),
        k as nat,
    ) by {
        assert(r[k] == q[k + 1]);
        lemma_nth_id_shift(base, k as nat);
    }
    lemma_nth_id_shift(base, r.len());
}

/// Tasks that are numbered in one round of the counter have different ids.
pub proof fn lemma_numbered_distinct(q: Seq<TaskView>, base: usize, next: usize, k: int, l: int)
    requires
        numbered(q, base, next),
        q.len() <= usize::MAX,
        0 <= k < l < q.len(),
    ensures
        q[k].task_id != q[l].task_id,
{
    lemma_nth_id_distinct(base, k as nat, l as nat);
}

/// Task `t` is a shuffle-map task of stage `s`.
pub open spec fn is_map_task_of(t: TaskView, s: usize) -> bool {
    t.output_id is None && t.stage_id == s
}

/// The tasks `q` have the ids that were handed out from `base` on, in order,
/// and `next` is the id that follows.
pub open spec fn numbered(q: Seq<TaskView>, base: usize, next: usize) -> bool {
    &&& forall|k: int| 0 <= k < q.len() ==> (#[trigger] q[k]).task_id == nth_id(base, k as nat)
    &&& next == nth_id(base, q.len())
}

/// Among the tasks `q` there is one result task for each result of the job
/// that has not arrived, and no two for one result.
pub open spec fn results_served(jt: JobView, q: Seq<TaskView>) -> bool {
    &&& forall|o: usize|
        o < jt.finished.len() && !(#[trigger] jt.finished[o as int]) ==> exists|k: int|
            0 <= k < q.len() && (#[trigger] q[k]).output_id == Some(o)
    &&& forall|k: int, l: int|
        0 <= k < l < q.len() && (#[trigger] q[k]).output_id is Some && (
        #[trigger] q[l]).output_id is Some ==> q[k].output_id != q[l].output_id
}

impl DagScheduler {
    /// Among the tasks `q` there is one shuffle-map task of stage `s` for each
    /// of its partitions without output, and no other of that stage; these are
    /// the outstanding tasks of the stage.
    pub open spec fn stage_served(&self, jt: JobView, q: Seq<TaskView>, s: usize) -> bool {
        &&& forall|p: usize| #[trigger]
            self.missing_partitions(s).contains(p) ==> exists|k: int|
                0 <= k < q.len() && is_map_task_of(#[trigger] q[k], s) && q[k].partition == p
        &&& forall|k: int|
            0 <= k < q.len() && is_map_task_of(#[trigger] q[k], s) ==> self.missing_partitions(
                s,
            ).contains(q[k].partition) && jt.pending(s).contains(q[k].task_id)
        &&& forall|k: int, l: int|
            0 <= k < l < q.len() && is_map_task_of(#[trigger] q[k], s) && is_map_task_of(
                #[trigger] q[l],
                s,
            ) ==> q[k].partition != q[l].partition
        &&& forall|id: usize| #[trigger]
            jt.pending(s).contains(id) ==> exists|k: int|
                0 <= k < q.len() && is_map_task_of(#[trigger] q[k], s) && q[k].task_id == id
    }

    /// Task `t` belongs to a stage that is running and has been given its tasks;
    /// a result task is for a result that has not arrived.
    pub open spec fn queued_ok(&self, jt: JobView, unlaunched: Set<usize>, t: TaskView) -> bool {
        match t.output_id {
            Some(o) => {
                &&& jt.running.contains(jt.final_stage)
                &&& !unlaunched.contains(jt.final_stage)
                &&& t.stage_id == jt.final_stage
                &&& o < jt.finished.len()
                &&& !jt.finished[o as int]
            },
            None => {
                &&& jt.running.contains(t.stage_id)
                &&& !unlaunched.contains(t.stage_id)
                &&& t.stage_id != jt.final_stage
            },
        }
    }

    /// The waiting stage `w` waits for something: it has missing parents, all of
    /// them waiting or running, and lacks output itself unless it is the final
    /// stage.
    pub open spec fn waits_well(&self, ctx: &Context, jt: JobView, w: usize) -> bool {
        &&& !self.ready(ctx, w)
        &&& w != jt.final_stage ==> !self.stage(w).available()
        &&& forall|m: usize| #[trigger]
            self.is_missing_parent_of(ctx, self.stage(w).rdd, m) ==> jt.waiting.contains(m)
                || jt.running.contains(m)
    }

    /// The running stage `r` is on its way: it lacks output, and if it has been
    /// given its tasks, they are among the tasks `q`; the final stage has a
    /// result task in `q` for each result that has not arrived.
    pub open spec fn runs_well(
        &self,
        jt: JobView,
        q: Seq<TaskView>,
        unlaunched: Set<usize>,
        r: usize,
    ) -> bool {
        &&& self.has_stage(r)
        &&& if r == jt.final_stage {
            !unlaunched.contains(r) ==> results_served(jt, q)
        } else {
            &&& self.stage(r).shuffle_dependency is Some
            &&& !self.stage(r).available()
            &&& if unlaunched.contains(r) {
                jt.pending(r) == Set::<usize>::empty()
            } else {
                self.stage_served(jt, q, r)
            }
        }
    }

    /// What holds after every event while a job is run task by task: the tasks
    /// `q` that wait to be run are those of the running stages that have been
    /// given their tasks, one for each partition without output and one for each
    /// result that has not arrived; the running stages `unlaunched` have not
    /// been given their tasks yet; every running stage has the output of all
    /// the stages it reads; and every waiting stage waits for stages that are
    /// waiting or running.
    #[verifier::opaque]
    pub open spec fn live(&self, ctx: &Context, jt: JobView, q: Seq<TaskView>, unlaunched: Set<usize>) -> bool {
        &&& self.wf(ctx)
        &&& self.job_ok(ctx, jt)
        &&& self.cache_locs.deep_view() == self.cache_tracker.table()
        &&& jt.waiting.disjoint(jt.running)
        &&& self.stage(jt.final_stage).shuffle_dependency is None
        &&& forall|s: usize| #[trigger] unlaunched.contains(s) ==> jt.running.contains(s)
        &&& forall|k: int| 0 <= k < q.len() ==> self.queued_ok(jt, unlaunched, #[trigger] q[k])
        &&& forall|w: usize| #[trigger] jt.waiting.contains(w) ==> self.waits_well(ctx, jt, w)
        &&& forall|r: usize| #[trigger]
            jt.running.contains(r) ==> self.runs_well(jt, q, unlaunched, r)
        &&& forall|r: usize| #[trigger] jt.running.contains(r) ==> self.ready(ctx, r)
        &&& forall|s: usize|
            !jt.running.contains(s) ==> #[trigger] jt.pending(s) == Set::<usize>::empty()
    }

    /// A stage is available when none of its partitions is without output.
    pub proof fn lemma_available(&self, s: usize)
        ensures
            self.stage(s).available() <==> self.missing_partitions(s) == Set::<usize>::empty(),
    {
        let locs = self.stage(s).locs();
        if self.stage(s).available() {
            assert(self.missing_partitions(s) =~= Set::<usize>::empty());
        }
        if self.missing_partitions(s) == Set::<usize>::empty() {
            assert forall|p: int| 0 <= p < locs.len() implies (#[trigger] locs[p]).len() > 0 by {
                if locs[p].len() == 0 {
                    assert(self.stage(s).output_locs.len() == locs.len());
                    assert(self.missing_partitions(s).contains(p as usize));
                }
            }
        }
    }

    /// Handing out the tasks of a running stage that has not been given them
    /// keeps everything in order, with the tasks added to those that wait.
    pub proof fn lemma_launch(
        &self,
        ctx: &Context,
        jt: JobView,
        q: Seq<TaskView>,
        unlaunched: Set<usize>,
        w: usize,
        base: usize,
        next: usize,
    )
        requires
            self.live(ctx, jt, q, unlaunched),
            numbered(q, base, next),
            unlaunched.contains(w),
        ensures
            ({
                let e = self.launch_effect(ctx, jt, next, w);
                &&& self.live(ctx, e.jt, q + e.tasks, unlaunched.remove(w))
                &&& numbered(q + e.tasks, base, e.next_task_id)
                &&& e.jt.waiting == jt.waiting
                &&& e.jt.running == jt.running
                &&& e.jt.finished == jt.finished
                &&& e.jt.final_stage == jt.final_stage
                &&& e.jt.output_parts == jt.output_parts
            }),
    {
        reveal(DagScheduler::live);
        let e = self.launch_effect(ctx, jt, next, w);
        let t = e.tasks;
        let j2 = e.jt;
        let all = q + t;
        let left = unlaunched.remove(w);
        assert(jt.running.contains(w));
        assert(self.runs_well(jt, q, unlaunched, w));
        assert(self.stage_ok(ctx, w));
        // the ids
        assert forall|k: int| 0 <= k < all.len() implies (#[trigger] all[k]).task_id == nth_id(
            base,
            k as nat,
        ) by {
            if k >= q.len() {
                lemma_nth_id_add(base, q.len(), (k - q.len()) as nat);
            }
        }
        lemma_nth_id_add(base, q.len(), t.len());
        // no task of the stage waits yet
        assert forall|k: int| 0 <= k < q.len() implies (#[trigger] q[k]).stage_id != w || (w
            == jt.final_stage && q[k].output_id is None) by {
            assert(self.queued_ok(jt, unlaunched, q[k]));
        }
        if w == jt.final_stage {
            let outs = ascending(unfinished_outputs(jt));
            lemma_ascending_lists(unfinished_outputs(jt), jt.finished.len());
            assert forall|k: int| 0 <= k < all.len() implies self.queued_ok(
                j2,
                left,
                #[trigger] all[k],
            ) by {
                if k < q.len() {
                    assert(self.queued_ok(jt, unlaunched, q[k]));
                } else {
                    assert(unfinished_outputs(jt).contains(outs[k - q.len()]));
                }
            }
            assert(results_served(j2, all)) by {
                assert forall|o: usize|
                    o < j2.finished.len() && !(#[trigger] j2.finished[o as int]) implies exists|
                    k: int,
                |
                    0 <= k < all.len() && (#[trigger] all[k]).output_id == Some(o) by {
                    assert(unfinished_outputs(jt).contains(o));
                    let i = choose|i: int| 0 <= i < outs.len() && outs[i] == o;
                    assert(all[q.len() + i].output_id == Some(o));
                }
                assert forall|k: int, l: int|
                    0 <= k < l < all.len() && (#[trigger] all[k]).output_id is Some && (
                    #[trigger] all[l]).output_id is Some implies all[k].output_id
                    != all[l].output_id by {
                    if k < q.len() {
                        assert(self.queued_ok(jt, unlaunched, q[k]));
                    }
                }
            }
            assert forall|r: usize| #[trigger] j2.running.contains(r) implies self.runs_well(
                j2,
                all,
                left,
                r,
            ) by {
                assert(self.runs_well(jt, q, unlaunched, r));
                if r != jt.final_stage && !unlaunched.contains(r) {
                    self.lemma_served_more(jt, j2, q, t, r);
                }
            }
        } else {
            let parts = ascending(self.missing_partitions(w));
            assert(self.stage(w).locs().len() == self.stage(w).output_locs@.len());
            lemma_ascending_lists(self.missing_partitions(w), self.stage(w).locs().len());
            assert(jt.pending(w) == Set::<usize>::empty());
            assert(j2.pending(w) =~= id_run(next, t.len()));
            assert forall|k: int| 0 <= k < all.len() implies self.queued_ok(
                j2,
                left,
                #[trigger] all[k],
            ) by {
                if k < q.len() {
                    assert(self.queued_ok(jt, unlaunched, q[k]));
                }
            }
            assert(self.stage_served(j2, all, w)) by {
                assert forall|p: usize| #[trigger]
                    self.missing_partitions(w).contains(p) implies exists|k: int|
                    0 <= k < all.len() && is_map_task_of(#[trigger] all[k], w) && all[k].partition
                        == p by {
                    let i = choose|i: int| 0 <= i < parts.len() && parts[i] == p;
                    assert(is_map_task_of(all[q.len() + i], w) && all[q.len() + i].partition == p);
                }
                assert forall|k: int|
                    0 <= k < all.len() && is_map_task_of(
                        #[trigger] all[k],
                        w,
                    ) implies self.missing_partitions(w).contains(all[k].partition)
                    && j2.pending(w).contains(all[k].task_id) by {
                    if k < q.len() {
                        assert(self.queued_ok(jt, unlaunched, q[k]));
                    } else {
                        let i = k - q.len();
                        assert(self.missing_partitions(w).contains(parts[i]));
                        assert(t[i].task_id == nth_id(next, i as nat));
                    }
                }
                assert forall|k: int, l: int|
                    0 <= k < l < all.len() && is_map_task_of(#[trigger] all[k], w)
                        && is_map_task_of(#[trigger] all[l], w) implies all[k].partition
                    != all[l].partition by {
                    if k < q.len() {
                        assert(self.queued_ok(jt, unlaunched, q[k]));
                    }
                }
                assert forall|id: usize| #[trigger] j2.pending(w).contains(id) implies exists|
                    k: int,
                |
                    0 <= k < all.len() && is_map_task_of(#[trigger] all[k], w) && all[k].task_id
                        == id by {
                    let i = choose|i: nat| i < t.len() && id == #[trigger] nth_id(next, i);
                    let k = q.len() + i;
                    assert(is_map_task_of(all[k as int], w) && all[k as int].task_id == id);
                }
            }
            assert forall|r: usize| #[trigger] j2.running.contains(r) implies self.runs_well(
                j2,
                all,
                left,
                r,
            ) by {
                assert(self.runs_well(jt, q, unlaunched, r));
                if r == jt.final_stage {
                    if !unlaunched.contains(r) {
                        assert(results_served(j2, all)) by {
                            assert forall|o: usize|
                                o < j2.finished.len() && !(
                                #[trigger] j2.finished[o as int]) implies exists|k: int|
                                0 <= k < all.len() && (#[trigger] all[k]).output_id == Some(o) by {
                                let k = choose|k: int|
                                    0 <= k < q.len() && (#[trigger] q[k]).output_id == Some(o);
                                assert(all[k] == q[k]);
                            }
                        }
                    }
                } else if r != w && !unlaunched.contains(r) {
                    self.lemma_served_more(jt, j2, q, t, r);
                } else if r != w {
                    assert(j2.pending(r) == jt.pending(r));
                }
            }
        }
        assert forall|w2: usize| #[trigger] j2.waiting.contains(w2) implies self.waits_well(
            ctx,
            j2,
            w2,
        ) by {
            assert(self.waits_well(ctx, jt, w2));
        }
        assert forall|s: usize| !j2.running.contains(s) implies #[trigger] j2.pending(s)
            == Set::<usize>::empty() by {
            assert(jt.pending(s) == Set::<usize>::empty());
        }
        assert(self.job_ok(ctx, j2)) by {
            assert forall|s: usize| #[trigger] j2.waiting.contains(s) implies self.submittable(
                j2,
                s,
            ) by {
                assert(self.submittable(jt, s));
            }
            assert forall|s: usize| #[trigger] j2.failed.contains(s) implies self.submittable(
                j2,
                s,
            ) by {
                assert(self.submittable(jt, s));
            }
        }
    }

    /// A stage that is served by the tasks `q` is served by `q` and further
    /// tasks `t` that are none of its own, whatever becomes outstanding for
    /// other stages.
    pub proof fn lemma_served_more(
        &self,
        jt: JobView,
        j2: JobView,
        q: Seq<TaskView>,
        t: Seq<TaskView>,
        r: usize,
    )
        requires
            self.stage_served(jt, q, r),
            j2.pending(r) == jt.pending(r),
            forall|k: int| 0 <= k < t.len() ==> !is_map_task_of(#[trigger] t[k], r),
        ensures
            self.stage_served(j2, q + t, r),
    {
        let all = q + t;
        assert forall|p: usize| #[trigger] self.missing_partitions(r).contains(p) implies exists|
            k: int,
        |
            0 <= k < all.len() && is_map_task_of(#[trigger] all[k], r) && all[k].partition == p by {
            let k = choose|k: int|
                0 <= k < q.len() && is_map_task_of(#[trigger] q[k], r) && q[k].partition == p;
            assert(all[k] == q[k]);
        }
        assert forall|k: int|
            0 <= k < all.len() && is_map_task_of(
                #[trigger] all[k],
                r,
            ) implies self.missing_partitions(r).contains(all[k].partition) && j2.pending(
            r,
        ).contains(all[k].task_id) by {
            if k < q.len() {
                assert(all[k] == q[k]);
            } else {
                assert(all[k] == t[k - q.len()]);
            }
        }
        assert forall|k: int, l: int|
            0 <= k < l < all.len() && is_map_task_of(#[trigger] all[k], r) && is_map_task_of(
                #[trigger] all[l],
                r,
            ) implies all[k].partition != all[l].partition by {
            if l < q.len() {
                assert(all[k] == q[k] && all[l] == q[l]);
            } else {
                assert(all[l] == t[l - q.len()]);
            }
        }
        assert forall|id: usize| #[trigger] j2.pending(r).contains(id) implies exists|k: int|
            0 <= k < all.len() && is_map_task_of(#[trigger] all[k], r) && all[k].task_id == id by {
            let k = choose|k: int|
                0 <= k < q.len() && is_map_task_of(#[trigger] q[k], r) && q[k].task_id == id;
            assert(all[k] == q[k]);
        }
    }

    /// A stage that must be computed before another is built, produces a
    /// shuffle, lacks output, and computes a dataset that comes earlier in the
    /// graph.
    pub proof fn lemma_missing_parent(&self, ctx: &Context, rdd: usize, m: usize)
        requires
            self.wf(ctx),
            rdd < ctx.rdds@.len(),
            self.is_missing_parent_of(ctx, rdd, m),
        ensures
            self.has_stage(m),
            self.stage(m).shuffle_dependency is Some,
            !self.stage(m).available(),
            self.stage(m).rdd < rdd,
            m < self.next_stage_id,
    {
        let s = choose|s: ShuffleDependency|
            #[trigger] ctx.at_boundary(self.cached_nodes(ctx), rdd, s) && self.shuffle_registered(
                s.shuffle_id,
            ) && self.stage_of(s.shuffle_id) == m && !self.stage(m).available();
        lemma_boundary_uncut(ctx, self.cached_nodes(ctx), rdd, s);
        lemma_boundary_below(ctx, Set::empty(), rdd, s);
        assert(self.shuffle_ok(ctx, s.shuffle_id));
        assert(self.has_stage(m));
        assert(self.stage_ok(ctx, m));
    }

    /// The stages to compute before stage `stage_id` are listed by their
    /// ascending listing.
    pub proof fn lemma_missing_listed(&self, ctx: &Context, stage_id: usize)
        requires
            self.wf(ctx),
            self.has_stage(stage_id),
        ensures
            strictly_increasing(self.missing_parents_seq(ctx, stage_id)),
            self.missing_parents_seq(ctx, stage_id).to_set() == self.missing_parent_stages(
                ctx,
                self.stage(stage_id).rdd,
            ),
            forall|i: int|
                0 <= i < self.missing_parents_seq(ctx, stage_id).len()
                    ==> self.is_missing_parent_of(
                    ctx,
                    self.stage(stage_id).rdd,
                    #[trigger] self.missing_parents_seq(ctx, stage_id)[i],
                ),
            self.missing_parents_seq(ctx, stage_id).len() == 0 <==> self.ready(ctx, stage_id),
    {
        let rdd = self.stage(stage_id).rdd;
        let set = self.missing_parent_stages(ctx, rdd);
        assert(self.stage_ok(ctx, stage_id));
        assert forall|m: usize| set.contains(m) implies m < self.next_stage_id by {
            self.lemma_missing_parent(ctx, rdd, m);
        }
        lemma_ascending_lists(set, self.next_stage_id as nat);
        let l = self.missing_parents_seq(ctx, stage_id);
        if l.len() == 0 {
            assert forall|id: usize| !self.is_missing_parent_of(ctx, rdd, id) by {
                if self.is_missing_parent_of(ctx, rdd, id) {
                    assert(set.contains(id));
                }
            }
        } else {
            assert(set.contains(l[0]));
        }
    }

    /// Handing out the tasks of the stages `stages`, from the `i`-th on, keeps
    /// everything in order, if these are the running stages that have not been
    /// given their tasks.
    pub proof fn lemma_launch_all(
        &self,
        ctx: &Context,
        jt: JobView,
        q: Seq<TaskView>,
        stages: Seq<usize>,
        i: int,
        base: usize,
        next: usize,
    )
        requires
            0 <= i <= stages.len(),
            strictly_increasing(stages),
            self.live(ctx, jt, q, stages.subrange(i, stages.len() as int).to_set()),
            numbered(q, base, next),
        ensures
            ({
                let e = self.launch_all_effect(ctx, jt, next, stages, i);
                &&& self.live(ctx, e.jt, q + e.tasks, Set::empty())
                &&& numbered(q + e.tasks, base, e.next_task_id)
                &&& e.jt.waiting == jt.waiting
                &&& e.jt.running == jt.running
                &&& e.jt.finished == jt.finished
                &&& e.jt.final_stage == jt.final_stage
                &&& e.jt.output_parts == jt.output_parts
            }),
        decreases stages.len() - i,
    {
        reveal(DagScheduler::live);
        let rest = stages.subrange(i, stages.len() as int);
        if i >= stages.len() {
            assert(rest.to_set() =~= Set::<usize>::empty());
            assert(q + Seq::<TaskView>::empty() =~= q);
        } else {
            let w = stages[i];
            assert(rest[0] == w);
            assert(rest.to_set().contains(w));
            self.lemma_launch(ctx, jt, q, rest.to_set(), w, base, next);
            let e1 = self.launch_effect(ctx, jt, next, w);
            let later = stages.subrange(i + 1, stages.len() as int);
            assert(rest.to_set().remove(w) =~= later.to_set()) by {
                assert forall|x: usize| rest.to_set().remove(w).contains(x) <==> later.to_set().contains(
                    x,
                ) by {
                    if rest.to_set().remove(w).contains(x) {
                        let k = choose|k: int| 0 <= k < rest.len() && rest[k] == x;
                        assert(k > 0);
                        assert(later[k - 1] == x);
                    }
                    if later.to_set().contains(x) {
                        let k = choose|k: int| 0 <= k < later.len() && later[k] == x;
                        assert(rest[k + 1] == x);
                        assert(stages[i + 1 + k] == x);
                    }
                }
            }
            self.lemma_launch_all(ctx, e1.jt, q + e1.tasks, stages, i + 1, base, e1.next_task_id);
            let e2 = self.launch_all_effect(ctx, e1.jt, e1.next_task_id, stages, i + 1);
            assert((q + e1.tasks) + e2.tasks =~= q + (e1.tasks + e2.tasks));
        }
    }

    /// Submitting a stage that lacks output, or the final stage, keeps
    /// everything in order, with the tasks that are handed out added to those
    /// that wait; afterwards the stage is waiting or running.
    pub proof fn lemma_submit(
        &self,
        ctx: &Context,
        jt: JobView,
        q: Seq<TaskView>,
        base: usize,
        next: usize,
        stage: usize,
    )
        requires
            self.live(ctx, jt, q, Set::empty()),
            numbered(q, base, next),
            self.submittable(jt, stage),
            stage != jt.final_stage ==> !self.stage(stage).available(),
        ensures
            ({
                let e = self.submit_effect(ctx, jt, next, stage);
                &&& self.live(ctx, e.jt, q + e.tasks, Set::empty())
                &&& numbered(q + e.tasks, base, e.next_task_id)
                &&& e.jt.waiting.contains(stage) || e.jt.running.contains(stage)
                &&& self.job_advanced(jt, e.jt, self.stage(stage).rdd + 1)
            }),
        decreases self.stage(stage).rdd, 1nat, 0nat,
    {
        reveal(DagScheduler::live);
        let none = Set::<usize>::empty();
        let rdd = self.stage(stage).rdd;
        assert(self.stage_ok(ctx, stage));
        if jt.waiting.contains(stage) || jt.running.contains(stage) {
            assert(q + Seq::<TaskView>::empty() =~= q);
        } else {
            self.lemma_missing_listed(ctx, stage);
            let missing = self.missing_parents_seq(ctx, stage);
            if missing.len() == 0 {
                let j1 = jt.with_running(stage);
                let only = set![stage];
                assert(jt.pending(stage) == Set::<usize>::empty());
                assert(self.live(ctx, j1, q, only)) by {
                    assert forall|k: int| 0 <= k < q.len() implies self.queued_ok(
                        j1,
                        only,
                        #[trigger] q[k],
                    ) by {
                        assert(self.queued_ok(jt, none, q[k]));
                    }
                    assert forall|w: usize| #[trigger] j1.waiting.contains(w) implies self.waits_well(
                        ctx,
                        j1,
                        w,
                    ) by {
                        assert(self.waits_well(ctx, jt, w));
                    }
                    assert forall|r: usize| #[trigger] j1.running.contains(r) implies self.runs_well(
                        j1,
                        q,
                        only,
                        r,
                    ) by {
                        if r != stage {
                            assert(self.runs_well(jt, q, none, r));
                            if r != jt.final_stage {
                                assert(self.stage_served(jt, q, r));
                                self.lemma_served_more(jt, j1, q, Seq::empty(), r);
                                assert(q + Seq::<TaskView>::empty() =~= q);
                            }
                        }
                    }
                    assert forall|s: usize| !j1.running.contains(s) implies #[trigger] j1.pending(s)
                        == Set::<usize>::empty() by {
                        assert(jt.pending(s) == Set::<usize>::empty());
                    }
                    assert(self.job_ok(ctx, j1)) by {
                        assert forall|s: usize| #[trigger] j1.waiting.contains(s) implies self.submittable(
                            j1,
                            s,
                        ) by {
                            assert(self.submittable(jt, s));
                        }
                        assert forall|s: usize| #[trigger] j1.failed.contains(s) implies self.submittable(
                            j1,
                            s,
                        ) by {
                            assert(self.submittable(jt, s));
                        }
                    }
                    assert(j1.waiting.disjoint(j1.running));
                }
                self.lemma_launch(ctx, j1, q, only, stage, base, next);
                let e1 = self.launch_effect(ctx, j1, next, stage);
                let e0 = self.launch_effect(ctx, jt, next, stage);
                assert(e1.tasks == e0.tasks);
                assert(e1.jt == e0.jt.with_running(stage));
                assert(only.remove(stage) =~= none);
                let e = self.submit_effect(ctx, jt, next, stage);
                assert(e.jt == e1.jt);
                assert forall|s: usize|
                    #![trigger e.jt.waiting.contains(s)]
                    #![trigger e.jt.running.contains(s)]
                    Self::newly_active(jt, e.jt, s) implies self.submittable(e.jt, s) && self.stage(
                    s,
                ).rdd < rdd + 1 by {
                    assert(s == stage);
                }
            } else {
                assert forall|k: int| 0 <= k < missing.len() implies self.has_stage(
                    #[trigger] missing[k],
                ) && self.stage(missing[k]).shuffle_dependency is Some && !self.stage(
                    missing[k],
                ).available() && self.stage(missing[k]).rdd < rdd by {
                    self.lemma_missing_parent(ctx, rdd, missing[k]);
                }
                self.lemma_submit_all(ctx, jt, q, base, next, stage, missing, 0);
                let e1 = self.submit_all_effect(ctx, jt, next, stage, missing, 0);
                let e = self.submit_effect(ctx, jt, next, stage);
                let j2 = e.jt;
                assert(j2 == e1.jt.with_waiting(stage));
                if e1.jt.waiting.contains(stage) {
                    assert(Self::newly_active(jt, e1.jt, stage));
                }
                if e1.jt.running.contains(stage) {
                    assert(Self::newly_active(jt, e1.jt, stage));
                }
                assert(self.live(ctx, j2, q + e.tasks, none)) by {
                    let all = q + e.tasks;
                    assert forall|k: int| 0 <= k < all.len() implies self.queued_ok(
                        j2,
                        none,
                        #[trigger] all[k],
                    ) by {
                        assert(self.queued_ok(e1.jt, none, all[k]));
                    }
                    assert forall|w: usize| #[trigger] j2.waiting.contains(w) implies self.waits_well(
                        ctx,
                        j2,
                        w,
                    ) by {
                        if w == stage {
                            assert(self.is_missing_parent_of(ctx, rdd, missing[0]));
                            assert forall|m: usize| #[trigger]
                                self.is_missing_parent_of(ctx, rdd, m) implies j2.waiting.contains(m)
                                || j2.running.contains(m) by {
                                assert(self.missing_parent_stages(ctx, rdd).contains(m));
                                assert(missing.to_set().contains(m));
                                let k = choose|k: int| 0 <= k < missing.len() && missing[k] == m;
                                assert(e1.jt.waiting.contains(missing[k]) || e1.jt.running.contains(
                                    missing[k],
                                ));
                            }
                        } else {
                            assert(self.waits_well(ctx, e1.jt, w));
                        }
                    }
                    assert forall|r: usize| #[trigger] j2.running.contains(r) implies self.runs_well(
                        j2,
                        all,
                        none,
                        r,
                    ) by {
                        assert(self.runs_well(e1.jt, all, none, r));
                        if r != j2.final_stage {
                            assert(self.stage_served(e1.jt, all, r));
                            self.lemma_served_more(e1.jt, j2, all, Seq::empty(), r);
                            assert(all + Seq::<TaskView>::empty() =~= all);
                        }
                    }
                    assert forall|s: usize| !j2.running.contains(s) implies #[trigger] j2.pending(s)
                        == Set::<usize>::empty() by {
                        assert(e1.jt.pending(s) == Set::<usize>::empty());
                    }
                    assert(self.job_ok(ctx, j2)) by {
                        assert forall|s: usize| #[trigger] j2.waiting.contains(s) implies self.submittable(
                            j2,
                            s,
                        ) by {
                            if s != stage {
                                assert(self.submittable(e1.jt, s));
                            }
                        }
                        assert forall|s: usize| #[trigger] j2.failed.contains(s) implies self.submittable(
                            j2,
                            s,
                        ) by {
                            assert(self.submittable(e1.jt, s));
                        }
                    }
                    assert(j2.waiting.disjoint(j2.running));
                }
                assert forall|s: usize|
                    #![trigger j2.waiting.contains(s)]
                    #![trigger j2.running.contains(s)]
                    Self::newly_active(jt, j2, s) implies self.submittable(j2, s) && self.stage(
                    s,
                ).rdd < rdd + 1 by {
                    if s != stage {
                        assert(Self::newly_active(jt, e1.jt, s));
                        assert(self.submittable(e1.jt, s));
                    }
                }
            }
        }
    }

    /// Submitting the stages `stages`, from the `i`-th on, keeps everything in
    /// order, if they lack output and come before stage `child` in the graph;
    /// afterwards each of them is waiting or running.
    pub proof fn lemma_submit_all(
        &self,
        ctx: &Context,
        jt: JobView,
        q: Seq<TaskView>,
        base: usize,
        next: usize,
        child: usize,
        stages: Seq<usize>,
        i: int,
    )
        requires
            0 <= i <= stages.len(),
            self.live(ctx, jt, q, Set::empty()),
            numbered(q, base, next),
            forall|k: int|
                0 <= k < stages.len() ==> self.has_stage(#[trigger] stages[k]) && self.stage(
                    stages[k],
                ).shuffle_dependency is Some && !self.stage(stages[k]).available() && self.stage(
                    stages[k],
                ).rdd < self.stage(child).rdd,
        ensures
            ({
                let e = self.submit_all_effect(ctx, jt, next, child, stages, i);
                &&& self.live(ctx, e.jt, q + e.tasks, Set::empty())
                &&& numbered(q + e.tasks, base, e.next_task_id)
                &&& self.job_advanced(jt, e.jt, self.stage(child).rdd as int)
                &&& forall|k: int|
                    i <= k < stages.len() ==> e.jt.waiting.contains(#[trigger] stages[k])
                        || e.jt.running.contains(stages[k])
            }),
        decreases self.stage(child).rdd, 0nat, stages.len() - i,
    {
        reveal(DagScheduler::live);
        if i >= stages.len() {
            assert(q + Seq::<TaskView>::empty() =~= q);
        } else {
            let m = stages[i];
            assert(self.has_stage(m));
            assert(m != jt.final_stage);
            assert(self.submittable(jt, m));
            self.lemma_submit(ctx, jt, q, base, next, m);
            let e1 = self.submit_effect(ctx, jt, next, m);
            self.lemma_submit_all(
                ctx,
                e1.jt,
                q + e1.tasks,
                base,
                e1.next_task_id,
                child,
                stages,
                i + 1,
            );
            let e2 = self.submit_all_effect(ctx, e1.jt, e1.next_task_id, child, stages, i + 1);
            assert((q + e1.tasks) + e2.tasks =~= q + (e1.tasks + e2.tasks));
            let e = self.submit_all_effect(ctx, jt, next, child, stages, i);
            assert forall|s: usize|
                #![trigger e.jt.waiting.contains(s)]
                #![trigger e.jt.running.contains(s)]
                Self::newly_active(jt, e.jt, s) implies self.submittable(e.jt, s) && self.stage(
                s,
            ).rdd < self.stage(child).rdd by {
                if Self::newly_active(jt, e1.jt, s) {
                    assert(self.submittable(e1.jt, s));
                } else {
                    assert(Self::newly_active(e1.jt, e2.jt, s));
                }
            }
        }
    }

    /// The partitions without output among the stages with ids below `k`.
    pub open spec fn missing_upto(&self, k: nat) -> nat
        decreases k,
    {
        if k == 0 {
            0
        } else {
            self.missing_upto((k - 1) as nat) + if self.has_stage((k - 1) as usize) {
                empties(
                    self.stage((k - 1) as usize).locs(),
                    self.stage((k - 1) as usize).locs().len(),
                )
            } else {
                0nat
            }
        }
    }

    /// What is left to do for the job: the partitions without output of all
    /// stages, and the results that have not arrived.
    pub open spec fn work_left(&self, jt: JobView) -> nat {
        self.missing_upto(self.next_stage_id as nat) + count_false(jt.finished, jt.finished.len())
    }

    /// An output location for a partition that had none leaves one partition
    /// less without output.
    pub proof fn lemma_missing_upto_filled(
        &self,
        before: &Self,
        s: usize,
        p: usize,
        uri: Seq<char>,
        k: nat,
    )
        requires
            self.reshaped(before, s),
            before.has_stage(s),
            p < before.stage(s).locs().len(),
            before.stage(s).locs()[p as int].len() == 0,
            self.stage(s).locs() == before.stage(s).locs().update(
                p as int,
                before.stage(s).locs()[p as int].push(uri),
            ),
            k <= usize::MAX + 1,
        ensures
            self.missing_upto(k) == before.missing_upto(k) - if s < k {
                1int
            } else {
                0int
            },
        decreases k,
    {
        if k > 0 {
            self.lemma_missing_upto_filled(before, s, p, uri, (k - 1) as nat);
            let id = (k - 1) as usize;
            assert(self.has_stage(id) == before.has_stage(id)) by {
                assert(self.stage_cache@.dom().contains(id) == before.stage_cache@.dom().contains(id));
            }
            if id == s {
                lemma_empties_filled(
                    before.stage(s).locs(),
                    p as int,
                    uri,
                    before.stage(s).locs().len(),
                );
            } else if self.has_stage(id) {
                assert(self.stage(id) == before.stage(id));
            }
        }
    }

    /// A stage that is served by the tasks `q`, none of which is the first,
    /// is served by the tasks behind the first.
    pub proof fn lemma_served_rest(&self, jt: JobView, j2: JobView, q: Seq<TaskView>, r: usize)
        requires
            self.stage_served(jt, q, r),
            q.len() > 0,
            !is_map_task_of(q[0], r),
            j2.pending(r) == jt.pending(r),
        ensures
            self.stage_served(j2, q.drop_first(), r),
    {
        let rest = q.drop_first();
        assert forall|p: usize| #[trigger] self.missing_partitions(r).contains(p) implies exists|
            k: int,
        |
            0 <= k < rest.len() && is_map_task_of(#[trigger] rest[k], r) && rest[k].partition
                == p by {
            let k = choose|k: int|
                0 <= k < q.len() && is_map_task_of(#[trigger] q[k], r) && q[k].partition == p;
            assert(rest[k - 1] == q[k]);
        }
        assert forall|k: int|
            0 <= k < rest.len() && is_map_task_of(
                #[trigger] rest[k],
                r,
            ) implies self.missing_partitions(r).contains(rest[k].partition) && j2.pending(
            r,
        ).contains(rest[k].task_id) by {
            assert(rest[k] == q[k + 1]);
        }
        assert forall|k: int, l: int|
            0 <= k < l < rest.len() && is_map_task_of(#[trigger] rest[k], r) && is_map_task_of(
                #[trigger] rest[l],
                r,
            ) implies rest[k].partition != rest[l].partition by {
            assert(rest[k] == q[k + 1] && rest[l] == q[l + 1]);
        }
        assert forall|id: usize| #[trigger] j2.pending(r).contains(id) implies exists|k: int|
            0 <= k < rest.len() && is_map_task_of(#[trigger] rest[k], r) && rest[k].task_id
                == id by {
            let k = choose|k: int|
                0 <= k < q.len() && is_map_task_of(#[trigger] q[k], r) && q[k].task_id == id;
            assert(rest[k - 1] == q[k]);
        }
    }

    /// The results that have not arrived are served by the tasks behind the
    /// first, if the first is no result task.
    pub proof fn lemma_results_rest(jt: JobView, j2: JobView, q: Seq<TaskView>)
        requires
            results_served(jt, q),
            q.len() > 0,
            q[0].output_id is None,
            j2.finished == jt.finished,
        ensures
            results_served(j2, q.drop_first()),
    {
        let rest = q.drop_first();
        assert forall|o: usize|
            o < j2.finished.len() && !(#[trigger] j2.finished[o as int]) implies exists|k: int|
            0 <= k < rest.len() && (#[trigger] rest[k]).output_id == Some(o) by {
            let k = choose|k: int| 0 <= k < q.len() && (#[trigger] q[k]).output_id == Some(o);
            assert(rest[k - 1] == q[k]);
        }
        assert forall|k: int, l: int|
            0 <= k < l < rest.len() && (#[trigger] rest[k]).output_id is Some && (
            #[trigger] rest[l]).output_id is Some implies rest[k].output_id
            != rest[l].output_id by {
            assert(rest[k] == q[k + 1] && rest[l] == q[l + 1]);
        }
    }

    /// After the success of the shuffle-map task that stood first among the
    /// tasks `q`, everything is in order again, with the tasks behind the first
    /// and those that the event has set free; and one partition less is without
    /// output.
    pub proof fn lemma_map_done(
        &self,
        before: &Self,
        ctx: &Context,
        jt0: JobView,
        jt1: JobView,
        q: Seq<TaskView>,
        base: usize,
        uri: Seq<char>,
        tasks: Seq<TaskView>,
        next_final: usize,
    )
        requires
            before.live(ctx, jt0, q, Set::empty()),
            numbered(q, base, before.next_task_id),
            0 < q.len() <= usize::MAX,
            q[0].output_id is None,
            self.wf(ctx),
            self.next_task_id == before.next_task_id,
            self.map_output_outcome(
                before,
                ctx,
                jt0,
                jt1,
                q[0].stage_id,
                q[0].partition,
                q[0].task_id,
                uri,
                tasks,
                next_final,
            ),
        ensures
            self.live(ctx, jt1, q.drop_first() + tasks, Set::empty()),
            numbered(q.drop_first() + tasks, next_id(base), next_final),
            self.next_stage_id == before.next_stage_id,
            self.missing_upto(self.next_stage_id as nat) + 1 == before.missing_upto(
                before.next_stage_id as nat,
            ),
            jt1.finished == jt0.finished,
            jt1.final_stage == jt0.final_stage,
            jt1.output_parts == jt0.output_parts,
            jt0.waiting.contains(jt0.final_stage) || jt0.running.contains(jt0.final_stage)
                ==> jt1.waiting.contains(jt0.final_stage) || jt1.running.contains(jt0.final_stage),
            jt0.running.contains(jt0.final_stage) ==> jt1.running.contains(jt0.final_stage),
    {
        reveal(DagScheduler::live);
        let none = Set::<usize>::empty();
        let s = q[0].stage_id;
        let p = q[0].partition;
        let task_id = q[0].task_id;
        let rest = q.drop_first();
        let fin = jt0.final_stage;
        let j1 = Self::task_done(jt0, s, task_id);
        // what is known of the first task
        assert(before.queued_ok(jt0, none, q[0]));
        assert(jt0.running.contains(s) && s != fin);
        assert(before.runs_well(jt0, q, none, s));
        assert(before.stage_served(jt0, q, s));
        assert(is_map_task_of(q[0], s));
        assert(before.missing_partitions(s).contains(p));
        assert(jt0.pending(s).contains(task_id));
        assert(before.stage_ok(ctx, s));
        // the stages, as they are now
        assert(self.stage_cache@.dom() == before.stage_cache@.dom());
        assert forall|r: usize| self.has_stage(r) == before.has_stage(r) by {
            assert(self.stage_cache@.dom().contains(r) == before.stage_cache@.dom().contains(r));
        }
        assert forall|r: usize| before.has_stage(r) && r != s implies #[trigger] self.stage(r)
            == before.stage(r) by {
            assert(self.has_stage(r));
        }
        assert(self.missing_partitions(s) =~= before.missing_partitions(s).remove(p));
        self.lemma_missing_upto_filled(before, s, p, uri, before.next_stage_id as nat);
        // the cache is as it was
        assert(self.cache_locs.deep_view() == before.cache_locs.deep_view());
        assert(self.cached_nodes(ctx) =~= before.cached_nodes(ctx));
        // no other task of the stage has the id or the partition of the first
        assert forall|k: int| 0 < k < q.len() implies (#[trigger] q[k]).task_id != task_id by {
            lemma_numbered_distinct(q, base, before.next_task_id, 0, k);
        }
        lemma_numbered_rest(q, base, before.next_task_id);
        // what was missing before is what is missing now, but for the stage
        assert forall|rdd: usize, m: usize| #[trigger]
            self.is_missing_parent_of(ctx, rdd, m) implies before.is_missing_parent_of(
            ctx,
            rdd,
            m,
        ) by {
            let d = choose|d: ShuffleDependency|
                #[trigger] ctx.at_boundary(self.cached_nodes(ctx), rdd, d)
                    && self.shuffle_registered(d.shuffle_id) && self.stage_of(d.shuffle_id) == m
                    && !self.stage(m).available();
            assert(before.shuffle_registered(d.shuffle_id));
            assert(before.has_stage(before.stage_of(d.shuffle_id)));
            if m == s {
                before.lemma_available(s);
            }
            assert(ctx.at_boundary(before.cached_nodes(ctx), rdd, d) && before.shuffle_registered(
                d.shuffle_id,
            ) && before.stage_of(d.shuffle_id) == m && !before.stage(m).available());
        }
        assert forall|rdd: usize, m: usize| #[trigger]
            before.is_missing_parent_of(ctx, rdd, m) && !self.stage(
                m,
            ).available() implies self.is_missing_parent_of(ctx, rdd, m) by {
            let d = choose|d: ShuffleDependency|
                #[trigger] ctx.at_boundary(before.cached_nodes(ctx), rdd, d)
                    && before.shuffle_registered(d.shuffle_id) && before.stage_of(d.shuffle_id)
                    == m && !before.stage(m).available();
            assert(ctx.at_boundary(self.cached_nodes(ctx), rdd, d) && self.shuffle_registered(
                d.shuffle_id,
            ) && self.stage_of(d.shuffle_id) == m && !self.stage(m).available());
        }
        // the stages that were being served are served by the rest
        assert forall|r: usize|
            jt0.running.contains(r) && r != fin && r != s implies #[trigger] self.stage_served(
            j1,
            rest,
            r,
        ) && !self.stage(r).available() && self.stage(r).shuffle_dependency is Some by {
            assert(before.runs_well(jt0, q, none, r));
            assert(before.has_stage(r));
            assert(self.stage(r) == before.stage(r));
            assert(self.missing_partitions(r) =~= before.missing_partitions(r));
            before.lemma_served_rest(jt0, j1, q, r);
            self.lemma_served_same_missing(before, j1, rest, r);
        }
        if jt0.running.contains(fin) {
            assert(before.runs_well(jt0, q, none, fin));
            Self::lemma_results_rest(jt0, j1, q);
        }
        assert forall|k: int| 0 <= k < rest.len() implies before.queued_ok(
            jt0,
            none,
            #[trigger] rest[k],
        ) by {
            assert(rest[k] == q[k + 1]);
        }
        // the stage itself, as the rest serves it
        assert(self.stage_served(j1, rest, s)) by {
            assert forall|x: usize| #[trigger] self.missing_partitions(s).contains(x) implies exists|
                k: int,
            |
                0 <= k < rest.len() && is_map_task_of(#[trigger] rest[k], s) && rest[k].partition
                    == x by {
                assert(before.missing_partitions(s).contains(x));
                let k = choose|k: int|
                    0 <= k < q.len() && is_map_task_of(#[trigger] q[k], s) && q[k].partition == x;
                assert(rest[k - 1] == q[k]);
            }
            assert forall|k: int|
                0 <= k < rest.len() && is_map_task_of(
                    #[trigger] rest[k],
                    s,
                ) implies self.missing_partitions(s).contains(rest[k].partition) && j1.pending(
                s,
            ).contains(rest[k].task_id) by {
                assert(rest[k] == q[k + 1]);
                assert(is_map_task_of(q[k + 1], s));
                assert(q[0].partition != q[k + 1].partition);
            }
            assert forall|k: int, l: int|
                0 <= k < l < rest.len() && is_map_task_of(#[trigger] rest[k], s)
                    && is_map_task_of(#[trigger] rest[l], s) implies rest[k].partition
                != rest[l].partition by {
                assert(rest[k] == q[k + 1] && rest[l] == q[l + 1]);
            }
            assert forall|id: usize| #[trigger] j1.pending(s).contains(id) implies exists|k: int|
                0 <= k < rest.len() && is_map_task_of(#[trigger] rest[k], s) && rest[k].task_id
                    == id by {
                assert(jt0.pending(s).contains(id));
                let k = choose|k: int|
                    0 <= k < q.len() && is_map_task_of(#[trigger] q[k], s) && q[k].task_id == id;
                assert(rest[k - 1] == q[k]);
            }
        }
        self.lemma_available(s);
        assert(self.job_ok(ctx, j1)) by {
            self.lemma_reshaped_job_ok(before, ctx, s, jt0);
            assert forall|x: usize| #[trigger] j1.waiting.contains(x) implies self.submittable(
                j1,
                x,
            ) by {
                assert(self.submittable(jt0, x));
            }
            assert forall|x: usize| #[trigger] j1.failed.contains(x) implies self.submittable(
                j1,
                x,
            ) by {
                assert(self.submittable(jt0, x));
            }
        }
        assert forall|x: usize| x != s implies #[trigger] j1.pending(x) == jt0.pending(x) by {}
        if Self::closes(jt0, s, task_id) {
            // no task of the stage is left, so no partition is without output
            assert(j1.pending(s) == Set::<usize>::empty());
            assert forall|k: int| 0 <= k < rest.len() implies !is_map_task_of(#[trigger] rest[k], s) by {
                if is_map_task_of(rest[k], s) {
                    assert(j1.pending(s).contains(rest[k].task_id));
                }
            }
            assert(self.missing_partitions(s) =~= Set::<usize>::empty()) by {
                assert forall|x: usize| !self.missing_partitions(s).contains(x) by {
                    if self.missing_partitions(s).contains(x) {
                        let k = choose|k: int|
                            0 <= k < rest.len() && is_map_task_of(#[trigger] rest[k], s)
                                && rest[k].partition == x;
                    }
                }
            }
            assert(self.stage(s).available());
            // the waiting stages, listed
            assert forall|w: usize| j1.waiting.contains(w) implies w < self.next_stage_id by {
                assert(before.submittable(jt0, w));
                assert(before.stage_ok(ctx, w));
            }
            lemma_ascending_lists(j1.waiting, self.next_stage_id as nat);
            let listing = ascending(j1.waiting);
            let newly = self.newly_runnable(ctx, j1);
            lemma_filter_listing(listing, self.ready_test(ctx));
            let started = newly.to_set();
            assert forall|x: usize| started.contains(x) <==> j1.waiting.contains(x) && self.ready(
                ctx,
                x,
            ) by {}
            let j2 = JobView {
                waiting: j1.waiting.difference(started),
                running: j1.running.remove(s) + started,
                ..j1
            };
            assert(newly.subrange(0, newly.len() as int) =~= newly);
            assert(self.live(ctx, j2, rest, started)) by {
                assert(self.job_ok(ctx, j2)) by {
                    assert forall|x: usize| #[trigger] j2.waiting.contains(x) implies self.submittable(
                        j2,
                        x,
                    ) by {
                        assert(self.submittable(j1, x));
                    }
                    assert forall|x: usize| #[trigger] j2.failed.contains(x) implies self.submittable(
                        j2,
                        x,
                    ) by {
                        assert(self.submittable(j1, x));
                    }
                }
                assert(j2.waiting.disjoint(j2.running));
                assert forall|k: int| 0 <= k < rest.len() implies self.queued_ok(
                    j2,
                    started,
                    #[trigger] rest[k],
                ) by {
                    assert(before.queued_ok(jt0, none, rest[k]));
                }
                assert forall|w: usize| #[trigger] j2.waiting.contains(w) implies self.waits_well(
                    ctx,
                    j2,
                    w,
                ) by {
                    assert(before.waits_well(ctx, jt0, w));
                    assert(before.submittable(jt0, w));
                    assert(self.stage(w) == before.stage(w));
                    assert forall|m: usize| #[trigger]
                        self.is_missing_parent_of(
                            ctx,
                            self.stage(w).rdd,
                            m,
                        ) implies j2.waiting.contains(m) || j2.running.contains(m) by {
                        assert(before.is_missing_parent_of(ctx, before.stage(w).rdd, m));
                    }
                }
                assert forall|r: usize| #[trigger] j2.running.contains(r) implies self.runs_well(
                    j2,
                    rest,
                    started,
                    r,
                ) by {
                    if started.contains(r) {
                        assert(jt0.waiting.contains(r));
                        assert(before.waits_well(ctx, jt0, r));
                        assert(before.submittable(jt0, r));
                        assert(self.stage(r) == before.stage(r));
                        assert(jt0.pending(r) == Set::<usize>::empty());
                    } else {
                        assert(jt0.running.contains(r));
                        assert(before.runs_well(jt0, q, none, r));
                        if r != fin {
                            assert(self.stage_served(j1, rest, r));
                            self.lemma_served_more(j1, j2, rest, Seq::empty(), r);
                            assert(rest + Seq::<TaskView>::empty() =~= rest);
                        } else {
                            Self::lemma_results_rest(j1, j2, q);
                        }
                    }
                }
                assert forall|x: usize| !j2.running.contains(x) implies #[trigger] j2.pending(x)
                    == Set::<usize>::empty() by {
                    if x != s {
                        assert(jt0.pending(x) == Set::<usize>::empty());
                    }
                }
                assert(self.stage(fin).shuffle_dependency is None) by {
                    assert(before.has_stage(fin));
                }
            }
            self.lemma_launch_all(ctx, j2, rest, newly, 0, next_id(base), before.next_task_id);
        } else {
            assert(rest + Seq::<TaskView>::empty() =~= rest);
            assert(tasks =~= Seq::<TaskView>::empty());
            // a task of the stage is left, so the stage still lacks output
            assert(!self.stage(s).available()) by {
                assert(j1.pending(s) != Set::<usize>::empty());
                if j1.pending(s) =~= Set::<usize>::empty() {
                }
                let id = choose|id: usize| j1.pending(s).contains(id);
                if !j1.pending(s).contains(id) {
                    assert(j1.pending(s) =~= Set::<usize>::empty());
                }
                let k = choose|k: int|
                    0 <= k < rest.len() && is_map_task_of(#[trigger] rest[k], s) && rest[k].task_id
                        == id;
                assert(self.missing_partitions(s).contains(rest[k].partition));
            }
            assert(self.live(ctx, j1, rest, none)) by {
                assert(j1.waiting.disjoint(j1.running));
                assert forall|k: int| 0 <= k < rest.len() implies self.queued_ok(
                    j1,
                    none,
                    #[trigger] rest[k],
                ) by {
                    assert(before.queued_ok(jt0, none, rest[k]));
                }
                assert forall|w: usize| #[trigger] j1.waiting.contains(w) implies self.waits_well(
                    ctx,
                    j1,
                    w,
                ) by {
                    assert(before.waits_well(ctx, jt0, w));
                    assert(before.submittable(jt0, w));
                    assert(self.stage(w) == before.stage(w));
                    assert forall|m: usize| #[trigger]
                        self.is_missing_parent_of(
                            ctx,
                            self.stage(w).rdd,
                            m,
                        ) implies j1.waiting.contains(m) || j1.running.contains(m) by {
                        assert(before.is_missing_parent_of(ctx, before.stage(w).rdd, m));
                    }
                    if self.ready(ctx, w) {
                        let m = choose|m: usize|
                            before.is_missing_parent_of(ctx, before.stage(w).rdd, m);
                        before.lemma_missing_parent(ctx, before.stage(w).rdd, m);
                        if m != s {
                            assert(self.stage(m) == before.stage(m));
                        }
                        assert(self.is_missing_parent_of(ctx, self.stage(w).rdd, m));
                    }
                }
                assert forall|r: usize| #[trigger] j1.running.contains(r) implies self.runs_well(
                    j1,
                    rest,
                    none,
                    r,
                ) by {
                    assert(before.runs_well(jt0, q, none, r));
                    if r == fin {
                    } else if r == s {
                    } else {
                        assert(self.stage_served(j1, rest, r));
                    }
                }
                assert forall|x: usize| !j1.running.contains(x) implies #[trigger] j1.pending(x)
                    == Set::<usize>::empty() by {
                    assert(jt0.pending(x) == Set::<usize>::empty());
                }
                assert(self.stage(fin).shuffle_dependency is None) by {
                    assert(before.has_stage(fin));
                }
            }
        }
    }

    /// A stage that has the partitions without output that it had in `before`
    /// is served as it was.
    pub proof fn lemma_served_same_missing(&self, before: &Self, jt: JobView, q: Seq<TaskView>, r: usize)
        requires
            before.stage_served(jt, q, r),
            self.missing_partitions(r) == before.missing_partitions(r),
        ensures
            self.stage_served(jt, q, r),
    {
        assert forall|p: usize| #[trigger] self.missing_partitions(r).contains(p) implies exists|
            k: int,
        |
            0 <= k < q.len() && is_map_task_of(#[trigger] q[k], r) && q[k].partition == p by {
            assert(before.missing_partitions(r).contains(p));
        }
    }

    /// After the result task that stood first among the tasks `q` has delivered
    /// its result, everything is in order again with the tasks behind it, and
    /// one result less is missing.
    pub proof fn lemma_result_done(
        &self,
        ctx: &Context,
        jt0: JobView,
        jt1: JobView,
        q: Seq<TaskView>,
        base: usize,
        next: usize,
    )
        requires
            self.live(ctx, jt0, q, Set::empty()),
            numbered(q, base, next),
            q.len() > 0,
            q[0].output_id is Some,
            jt1 == (JobView {
                finished: jt0.finished.update(q[0].output_id->0 as int, true),
                ..jt0
            }),
        ensures
            self.live(ctx, jt1, q.drop_first(), Set::empty()),
            numbered(q.drop_first(), next_id(base), next),
            q[0].output_id->0 < jt0.finished.len(),
            !jt0.finished[q[0].output_id->0 as int],
            jt0.running.contains(jt0.final_stage),
            count_false(jt1.finished, jt1.finished.len()) + 1 == count_false(
                jt0.finished,
                jt0.finished.len(),
            ),
    {
        reveal(DagScheduler::live);
        let none = Set::<usize>::empty();
        let o = q[0].output_id->0;
        let rest = q.drop_first();
        let fin = jt0.final_stage;
        assert(self.queued_ok(jt0, none, q[0]));
        assert(self.runs_well(jt0, q, none, fin));
        assert(results_served(jt0, q));
        lemma_numbered_rest(q, base, next);
        lemma_count_false_set(jt0.finished, o as int, jt0.finished.len());
        assert(results_served(jt1, rest)) by {
            assert forall|x: usize|
                x < jt1.finished.len() && !(#[trigger] jt1.finished[x as int]) implies exists|
                k: int,
            |
                0 <= k < rest.len() && (#[trigger] rest[k]).output_id == Some(x) by {
                assert(!jt0.finished[x as int]);
                let k = choose|k: int| 0 <= k < q.len() && (#[trigger] q[k]).output_id == Some(x);
                assert(rest[k - 1] == q[k]);
            }
            assert forall|k: int, l: int|
                0 <= k < l < rest.len() && (#[trigger] rest[k]).output_id is Some && (
                #[trigger] rest[l]).output_id is Some implies rest[k].output_id
                != rest[l].output_id by {
                assert(rest[k] == q[k + 1] && rest[l] == q[l + 1]);
            }
        }
        assert forall|k: int| 0 <= k < rest.len() implies self.queued_ok(
            jt1,
            none,
            #[trigger] rest[k],
        ) by {
            assert(rest[k] == q[k + 1]);
            assert(self.queued_ok(jt0, none, q[k + 1]));
            if q[k + 1].output_id is Some {
                assert(q[0].output_id != q[k + 1].output_id);
            }
        }
        assert forall|w: usize| #[trigger] jt1.waiting.contains(w) implies self.waits_well(
            ctx,
            jt1,
            w,
        ) by {
            assert(self.waits_well(ctx, jt0, w));
        }
        assert forall|r: usize| #[trigger] jt1.running.contains(r) implies self.runs_well(
            jt1,
            rest,
            none,
            r,
        ) by {
            assert(self.runs_well(jt0, q, none, r));
            if r != fin {
                self.lemma_served_rest(jt0, jt1, q, r);
            }
        }
        assert forall|x: usize| !jt1.running.contains(x) implies #[trigger] jt1.pending(x)
            == Set::<usize>::empty() by {
            assert(jt0.pending(x) == Set::<usize>::empty());
        }
        assert(self.job_ok(ctx, jt1)) by {
            assert forall|x: usize| #[trigger] jt1.waiting.contains(x) implies self.submittable(
                jt1,
                x,
            ) by {
                assert(self.submittable(jt0, x));
            }
            assert forall|x: usize| #[trigger] jt1.failed.contains(x) implies self.submittable(
                jt1,
                x,
            ) by {
                assert(self.submittable(jt0, x));
            }
        }
    }

    /// While a stage waits, a task waits to be run.
    pub proof fn lemma_waiting_has_work(&self, ctx: &Context, jt: JobView, q: Seq<TaskView>, w: usize)
        requires
            self.live(ctx, jt, q, Set::empty()),
            jt.waiting.contains(w),
        ensures
            q.len() > 0,
        decreases self.stage(w).rdd,
    {
        reveal(DagScheduler::live);
        let none = Set::<usize>::empty();
        assert(self.waits_well(ctx, jt, w));
        assert(self.submittable(jt, w));
        assert(self.stage_ok(ctx, w));
        let rdd = self.stage(w).rdd;
        let m = choose|m: usize| self.is_missing_parent_of(ctx, rdd, m);
        self.lemma_missing_parent(ctx, rdd, m);
        if jt.waiting.contains(m) {
            self.lemma_waiting_has_work(ctx, jt, q, m);
        } else {
            assert(jt.running.contains(m));
            assert(self.runs_well(jt, q, none, m));
            assert(m != jt.final_stage);
            assert(self.stage_served(jt, q, m));
            self.lemma_available(m);
            if self.missing_partitions(m) =~= Set::<usize>::empty() {
            }
            let p = choose|p: usize| self.missing_partitions(m).contains(p);
            if !self.missing_partitions(m).contains(p) {
                assert(self.missing_partitions(m) =~= Set::<usize>::empty());
            }
        }
    }

    /// As long as a result of the job is missing, a task waits to be run.
    pub proof fn lemma_progress(&self, ctx: &Context, jt: JobView, q: Seq<TaskView>)
        requires
            self.live(ctx, jt, q, Set::empty()),
            jt.waiting.contains(jt.final_stage) || jt.running.contains(jt.final_stage),
            count_false(jt.finished, jt.finished.len()) > 0,
        ensures
            q.len() > 0,
    {
        reveal(DagScheduler::live);
        let none = Set::<usize>::empty();
        let fin = jt.final_stage;
        if jt.waiting.contains(fin) {
            self.lemma_waiting_has_work(ctx, jt, q, fin);
        } else {
            assert(self.runs_well(jt, q, none, fin));
            lemma_count_false_zero(jt.finished, jt.finished.len());
            let i = choose|i: int| 0 <= i < jt.finished.len() && !jt.finished[i];
            assert(self.job_ok(ctx, jt));
            assert(jt.finished.len() <= usize::MAX);
            let o = i as usize;
            assert(!jt.finished[o as int]);
        }
    }

    /// What holds while a job is run does not depend on the counter of task
    /// ids.
    pub proof fn lemma_live_ignores_counter(
        &self,
        before: &Self,
        ctx: &Context,
        jt: JobView,
        q: Seq<TaskView>,
    )
        requires
            before.live(ctx, jt, q, Set::empty()),
            *self == (DagScheduler { next_task_id: self.next_task_id, ..*before }),
        ensures
            self.live(ctx, jt, q, Set::empty()),
            self.missing_upto(self.next_stage_id as nat) == before.missing_upto(
                before.next_stage_id as nat,
            ),
    {
        reveal(DagScheduler::live);
        let none = Set::<usize>::empty();
        self.lemma_task_counter_irrelevant(before, ctx, jt, jt, Seq::empty());
        self.lemma_same_missing_upto(before, self.next_stage_id as nat);
        assert(self.cache_locs == before.cache_locs);
        assert forall|x: usize| self.fully_cached(ctx, x) == before.fully_cached(ctx, x) by {}
        assert(self.cached_nodes(ctx) =~= before.cached_nodes(ctx));
        assert forall|rdd: usize, m: usize|
            self.is_missing_parent_of(ctx, rdd, m) == before.is_missing_parent_of(ctx, rdd, m) by {
            if self.is_missing_parent_of(ctx, rdd, m) {
                let d = choose|d: ShuffleDependency|
                    #[trigger] ctx.at_boundary(self.cached_nodes(ctx), rdd, d)
                        && self.shuffle_registered(d.shuffle_id) && self.stage_of(d.shuffle_id)
                        == m && !self.stage(m).available();
                assert(ctx.at_boundary(before.cached_nodes(ctx), rdd, d)
                    && before.shuffle_registered(d.shuffle_id) && before.stage_of(d.shuffle_id)
                    == m && !before.stage(m).available());
            }
            if before.is_missing_parent_of(ctx, rdd, m) {
                let d = choose|d: ShuffleDependency|
                    #[trigger] ctx.at_boundary(before.cached_nodes(ctx), rdd, d)
                        && before.shuffle_registered(d.shuffle_id) && before.stage_of(d.shuffle_id)
                        == m && !before.stage(m).available();
                assert(ctx.at_boundary(self.cached_nodes(ctx), rdd, d) && self.shuffle_registered(
                    d.shuffle_id,
                ) && self.stage_of(d.shuffle_id) == m && !self.stage(m).available());
            }
        }
        assert forall|k: int| 0 <= k < q.len() implies self.queued_ok(jt, none, #[trigger] q[k]) by {
            assert(before.queued_ok(jt, none, q[k]));
        }
        assert forall|w: usize| #[trigger] jt.waiting.contains(w) implies self.waits_well(
            ctx,
            jt,
            w,
        ) by {
            assert(before.waits_well(ctx, jt, w));
            if self.ready(ctx, w) {
                let m = choose|m: usize| before.is_missing_parent_of(ctx, before.stage(w).rdd, m);
                assert(self.is_missing_parent_of(ctx, self.stage(w).rdd, m));
            }
        }
        assert forall|r: usize| #[trigger] jt.running.contains(r) implies self.runs_well(
            jt,
            q,
            none,
            r,
        ) by {
            assert(before.runs_well(jt, q, none, r));
            if r != jt.final_stage {
                assert(self.missing_partitions(r) =~= before.missing_partitions(r));
                self.lemma_served_same_missing(before, jt, q, r);
            }
        }
    }

    /// A job none of whose stages has been submitted is in order, with no task
    /// waiting to be run.
    pub proof fn lemma_fresh_job(&self, ctx: &Context, jt: JobView)
        requires
            self.wf(ctx),
            self.job_ok(ctx, jt),
            self.cache_locs.deep_view() == self.cache_tracker.table(),
            self.stage(jt.final_stage).shuffle_dependency is None,
            jt.waiting == Set::<usize>::empty(),
            jt.running == Set::<usize>::empty(),
            jt.pending_tasks == Map::<usize, Set<usize>>::empty(),
        ensures
            self.live(ctx, jt, Seq::empty(), Set::empty()),
    {
        reveal(DagScheduler::live);
    }

    /// A shuffle-map task that waits to be run names a partition of a stage
    /// that is built.
    pub proof fn lemma_queued_map_task(&self, ctx: &Context, jt: JobView, q: Seq<TaskView>, k: int)
        requires
            self.live(ctx, jt, q, Set::empty()),
            0 <= k < q.len(),
            q[k].output_id is None,
        ensures
            self.has_stage(q[k].stage_id),
            q[k].partition < self.stage(q[k].stage_id).num_partitions,
    {
        reveal(DagScheduler::live);
        let none = Set::<usize>::empty();
        let s = q[k].stage_id;
        assert(self.queued_ok(jt, none, q[k]));
        assert(self.runs_well(jt, q, none, s));
        assert(self.stage_served(jt, q, s));
        assert(is_map_task_of(q[k], s));
        assert(self.missing_partitions(s).contains(q[k].partition));
        assert(self.stage_ok(ctx, s));
    }

    /// While the final stage of a job runs, every shuffle that the job's
    /// dataset is computed from has a stage with all its output.
    pub proof fn lemma_running_final_has_inputs(&self, ctx: &Context, jt: JobView, q: Seq<TaskView>)
        requires
            self.live(ctx, jt, q, Set::empty()),
            jt.running.contains(jt.final_stage),
        ensures
            self.inputs_available(ctx, jt.final_rdd),
    {
        reveal(DagScheduler::live);
        let fin = jt.final_stage;
        let rdd = jt.final_rdd;
        assert(self.stage_ok(ctx, fin));
        assert(self.ready(ctx, fin));
        assert forall|s: ShuffleDependency| #[trigger]
            ctx.at_boundary(self.cached_nodes(ctx), rdd, s) implies self.shuffle_registered(
            s.shuffle_id,
        ) && self.stage(self.stage_of(s.shuffle_id)).available() by {
            lemma_boundary_uncut(ctx, self.cached_nodes(ctx), rdd, s);
            if !self.stage(self.stage_of(s.shuffle_id)).available() {
                assert(self.is_missing_parent_of(ctx, rdd, self.stage_of(s.shuffle_id)));
            }
        }
    }

    /// A stage without parent stages is computed from no shuffle: all the
    /// shuffles that its dataset is computed from have their output.
    pub proof fn lemma_no_parents_no_inputs(&self, ctx: &Context, id: usize)
        requires
            self.has_stage(id),
            self.stage_ok(ctx, id),
            self.stage(id).parents@.len() == 0,
        ensures
            self.inputs_available(ctx, self.stage(id).rdd),
    {
        let rdd = self.stage(id).rdd;
        assert(self.stage(id).parents@.to_set() =~= Set::<usize>::empty());
        assert forall|s: ShuffleDependency| #[trigger]
            ctx.at_boundary(self.cached_nodes(ctx), rdd, s) implies false by {
            lemma_boundary_uncut(ctx, self.cached_nodes(ctx), rdd, s);
            assert(self.is_parent_of(ctx, rdd, self.stage_of(s.shuffle_id)));
            assert(self.parent_stages(ctx, rdd).contains(self.stage_of(s.shuffle_id)));
        }
    }

    /// Schedulers with the same stages have the same partitions without output.
    pub proof fn lemma_same_missing_upto(&self, before: &Self, k: nat)
        requires
            self.stage_cache@ == before.stage_cache@,
        ensures
            self.missing_upto(k) == before.missing_upto(k),
        decreases k,
    {
        if k > 0 {
            self.lemma_same_missing_upto(before, (k - 1) as nat);
        }
    }
}

} // verus!
