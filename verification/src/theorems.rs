//! What holds of the scheduler as a whole: facts that relate several of its
//! operations, proved from their contracts.

use crate::context::Context;
use crate::dependency::{Dependency, ShuffleDependency};
use crate::ids::{ascending, lemma_ascending_of, strictly_increasing};
use crate::job::JobView;
use crate::context::{
    lemma_boundary_below, lemma_boundary_step, lemma_boundary_uncut, lemma_reaches_below,
};
use crate::progress::lemma_ascending_lists;
use crate::scheduler::DagScheduler;
use crate::submit::unfinished_outputs;
use crate::stage::{differs_from, lemma_without_host_absent, without_host};
use crate::task::{CompletionEvent, FetchFailedVals, ResultTask, TaskView};
use vstd::prelude::*;

verus! {

/// Every dependency of every node that `rdd` reaches through narrow
/// dependencies is narrow.
pub open spec fn narrow_only(ctx: &Context, rdd: usize) -> bool {
    forall|x: usize, k: int|
        ctx.reaches(Set::empty(), rdd, x) && x < ctx.rdds@.len() && 0 <= k < ctx.deps(x).len()
            ==> (#[trigger] ctx.deps(x)[k]) is NarrowDependency
}

/// A shuffle has one stage: two stages that produce the same shuffle are the
/// same stage.
pub proof fn theorem_one_stage_per_shuffle(sched: &DagScheduler, ctx: &Context, a: usize, b: usize)
    requires
        sched.wf(ctx),
        sched.has_stage(a),
        sched.has_stage(b),
        sched.stage(a).shuffle_dependency is Some,
        sched.stage(b).shuffle_dependency is Some,
        sched.stage(a).shuffle_dependency->0.shuffle_id == sched.stage(
            b,
        ).shuffle_dependency->0.shuffle_id,
    ensures
        a == b,
{
    assert(sched.stage_ok(ctx, a));
    assert(sched.stage_ok(ctx, b));
}

/// Two stages whose datasets are bounded by the same shuffle have the same
/// parent stage for it: the one stage that produces the shuffle.
pub proof fn theorem_shared_shuffle_one_parent(
    sched: &DagScheduler,
    ctx: &Context,
    a: usize,
    b: usize,
    s: ShuffleDependency,
)
    requires
        sched.wf(ctx),
        sched.has_stage(a),
        sched.has_stage(b),
        ctx.at_boundary(Set::empty(), sched.stage(a).rdd, s),
        ctx.at_boundary(Set::empty(), sched.stage(b).rdd, s),
    ensures
        sched.shuffle_registered(s.shuffle_id),
        sched.stage(a).parents@.contains(sched.stage_of(s.shuffle_id)),
        sched.stage(b).parents@.contains(sched.stage_of(s.shuffle_id)),
        sched.has_stage(sched.stage_of(s.shuffle_id)),
        sched.stage(sched.stage_of(s.shuffle_id)).shuffle_dependency == Some(s),
{
    let id = sched.stage_of(s.shuffle_id);
    assert(sched.stage_ok(ctx, a));
    assert(sched.stage_ok(ctx, b));
    assert(sched.is_parent_of(ctx, sched.stage(a).rdd, id));
    assert(sched.is_parent_of(ctx, sched.stage(b).rdd, id));
    assert(sched.parent_stages(ctx, sched.stage(a).rdd).contains(id));
    assert(sched.parent_stages(ctx, sched.stage(b).rdd).contains(id));
    assert(sched.stage(a).parents@.to_set().contains(id));
    assert(sched.stage(b).parents@.to_set().contains(id));
    lemma_boundary_below(ctx, Set::empty(), sched.stage(a).rdd, s);
    assert(sched.shuffle_ok(ctx, s.shuffle_id));
}

/// A dataset that reaches shuffle dependencies nowhere has no parent stage.
pub proof fn theorem_narrow_only_no_parents(sched: &DagScheduler, ctx: &Context, rdd: usize)
    requires
        narrow_only(ctx, rdd),
    ensures
        sched.parent_stages(ctx, rdd) == Set::<usize>::empty(),
        forall|s: ShuffleDependency| !ctx.feeds(rdd, s),
{
    assert forall|s: ShuffleDependency| !ctx.at_boundary(Set::empty(), rdd, s) by {
        if ctx.at_boundary(Set::empty(), rdd, s) {
            let (y, j) = choose|y: usize, j: int|
                ctx.reaches(Set::empty(), rdd, y) && y < ctx.rdds@.len() && !Set::<usize>::empty().contains(y)
                    && 0 <= j < ctx.deps(y).len() && #[trigger] ctx.deps(y)[j]
                    == Dependency::ShuffleDependency(s);
            assert(ctx.deps(y)[j] is NarrowDependency);
        }
    }
    assert forall|id: usize| !sched.parent_stages(ctx, rdd).contains(id) by {
        if sched.is_parent_of(ctx, rdd, id) {
            let s = choose|s: ShuffleDependency|
                #[trigger] ctx.at_boundary(Set::empty(), rdd, s) && sched.shuffle_registered(
                    s.shuffle_id,
                ) && sched.stage_of(s.shuffle_id) == id;
        }
    }
    assert(sched.parent_stages(ctx, rdd) =~= Set::<usize>::empty());
    assert forall|s: ShuffleDependency| !ctx.feeds(rdd, s) by {
        if ctx.feeds(rdd, s) {
            if !ctx.at_boundary(Set::empty(), rdd, s) {
                let t = choose|t: ShuffleDependency|
                    #[trigger] ctx.at_boundary(Set::empty(), rdd, t) && t.rdd < rdd && ctx.feeds(
                        t.rdd,
                        s,
                    );
            }
        }
    }
}

/// A narrow dependency makes no stage boundary: a dataset whose only
/// dependency is narrow has the parent stages of the dataset it reads.
pub proof fn theorem_narrow_dependency_fuses(sched: &DagScheduler, ctx: &Context, x: usize, y: usize)
    requires
        ctx.wf(),
        x < ctx.rdds@.len(),
        ctx.deps(x).len() == 1,
        ctx.deps(x)[0] matches Dependency::NarrowDependency(n) && n.rdd == y,
    ensures
        sched.parent_stages(ctx, x) == sched.parent_stages(ctx, y),
{
    assert(ctx.rdd_ok(x as int));
    assert(ctx.dep_ok(x as int, ctx.rdds@[x as int].num_splits, ctx.rdds@[x as int].dependencies@[0]));
    assert forall|s: ShuffleDependency|
        ctx.at_boundary(Set::empty(), x, s) <==> ctx.at_boundary(Set::empty(), y, s) by {
        if ctx.at_boundary(Set::empty(), y, s) {
            lemma_boundary_step(ctx, Set::empty(), x, 0, s);
        }
        if ctx.at_boundary(Set::empty(), x, s) {
            let (z, j) = choose|z: usize, j: int|
                ctx.reaches(Set::empty(), x, z) && z < ctx.rdds@.len() && !Set::<usize>::empty().contains(z)
                    && 0 <= j < ctx.deps(z).len() && #[trigger] ctx.deps(z)[j]
                    == Dependency::ShuffleDependency(s);
            if z == x {
                assert(j == 0);
                assert(false);
            } else {
                let k = choose|k: int|
                    (#[trigger] ctx.narrow_parent(x, k)) is Some && ctx.narrow_parent(x, k)->0 < x
                        && ctx.reaches(Set::empty(), ctx.narrow_parent(x, k)->0, z);
                assert(k == 0);
                assert(ctx.narrow_parent(x, k)->0 == y);
                assert(ctx.reaches(Set::empty(), y, z) && z < ctx.rdds@.len() && !Set::<usize>::empty().contains(z)
                    && 0 <= j < ctx.deps(z).len() && ctx.deps(z)[j]
                    == Dependency::ShuffleDependency(s));
            }
        }
    }
    assert forall|id: usize|
        sched.parent_stages(ctx, x).contains(id) <==> sched.parent_stages(ctx, y).contains(id) by {
        if sched.is_parent_of(ctx, x, id) {
            let s = choose|s: ShuffleDependency|
                #[trigger] ctx.at_boundary(Set::empty(), x, s) && sched.shuffle_registered(
                    s.shuffle_id,
                ) && sched.stage_of(s.shuffle_id) == id;
            assert(ctx.at_boundary(Set::empty(), y, s) && sched.shuffle_registered(s.shuffle_id)
                && sched.stage_of(s.shuffle_id) == id);
        }
        if sched.is_parent_of(ctx, y, id) {
            let s = choose|s: ShuffleDependency|
                #[trigger] ctx.at_boundary(Set::empty(), y, s) && sched.shuffle_registered(
                    s.shuffle_id,
                ) && sched.stage_of(s.shuffle_id) == id;
            assert(ctx.at_boundary(Set::empty(), x, s) && sched.shuffle_registered(s.shuffle_id)
                && sched.stage_of(s.shuffle_id) == id);
        }
    }
    assert(sched.parent_stages(ctx, x) =~= sched.parent_stages(ctx, y));
}

/// Building the final stage of a job over a dataset that reaches no shuffle
/// dependency adds that one stage and no other.
pub proof fn theorem_narrow_only_one_stage(
    after: &DagScheduler,
    before: &DagScheduler,
    ctx: &Context,
    rdd: usize,
    id: usize,
)
    requires
        after.consistent(ctx),
        after.extends(before),
        after.built_for(before, ctx, rdd, None, Some(id)),
        after.has_stage(id),
        narrow_only(ctx, rdd),
    ensures
        forall|x: usize| after.has_stage(x) <==> before.has_stage(x) || x == id,
        forall|s: usize| after.shuffle_registered(s) <==> before.shuffle_registered(s),
{
    theorem_narrow_only_no_parents(after, ctx, rdd);
    assert forall|s: usize| after.shuffle_registered(s) implies before.shuffle_registered(s) by {
        if !before.shuffle_registered(s) {
            assert(ctx.feeds(rdd, ctx.shuffles@[s as int]));
        }
    }
    assert forall|x: usize| after.has_stage(x) implies before.has_stage(x) || x == id by {
        if !before.has_stage(x) && x != id {
            let d = after.stage(x).shuffle_dependency->0;
            assert(after.stage_ok(ctx, x));
            assert(after.shuffle_registered(d.shuffle_id));
        }
    }
}

/// Looking for the parent stages of a dataset that reaches no shuffle
/// dependency builds nothing: no stage id is handed out, and the stage cache
/// and the cache of shuffles are as they were.
pub proof fn theorem_narrow_only_builds_nothing(
    after: &DagScheduler,
    before: &DagScheduler,
    ctx: &Context,
    rdd: usize,
)
    requires
        after.consistent(ctx),
        after.extends(before),
        after.built_for(before, ctx, rdd, None, None),
        after.counted(before, 0),
        narrow_only(ctx, rdd),
    ensures
        after.next_stage_id == before.next_stage_id,
        after.stage_cache@ == before.stage_cache@,
        after.shuffle_to_map_stage@ == before.shuffle_to_map_stage@,
{
    theorem_narrow_only_no_parents(after, ctx, rdd);
    assert forall|s: usize| after.shuffle_registered(s) implies before.shuffle_registered(s) by {
        if !before.shuffle_registered(s) {
            assert(ctx.feeds(rdd, ctx.shuffles@[s as int]));
        }
    }
    assert forall|s: usize|
        after.shuffle_to_map_stage@.dom().contains(s) == before.shuffle_to_map_stage@.dom().contains(
            s,
        ) by {
        if before.shuffle_registered(s) {
            assert(after.shuffle_registered(s));
        }
        if after.shuffle_registered(s) {
            assert(before.shuffle_registered(s));
        }
    }
    assert(after.shuffle_to_map_stage@.dom() =~= before.shuffle_to_map_stage@.dom());
    assert forall|s: usize| #[trigger]
        after.shuffle_to_map_stage@.dom().contains(s) implies after.shuffle_to_map_stage@[s]
        == before.shuffle_to_map_stage@[s] by {
        assert(before.shuffle_registered(s));
        assert(after.stage_of(s) == before.stage_of(s));
    }
    assert(after.shuffle_to_map_stage@ =~= before.shuffle_to_map_stage@);
    assert forall|x: usize| after.has_stage(x) implies before.has_stage(x) by {
        if !before.has_stage(x) {
            let d = after.stage(x).shuffle_dependency->0;
            assert(after.stage_ok(ctx, x));
            assert(after.shuffle_registered(d.shuffle_id));
        }
    }
    assert forall|x: usize|
        after.stage_cache@.dom().contains(x) == before.stage_cache@.dom().contains(x) by {
        if before.has_stage(x) {
            assert(after.has_stage(x));
        }
        if after.has_stage(x) {
            assert(before.has_stage(x));
        }
    }
    assert(after.stage_cache@.dom() =~= before.stage_cache@.dom());
    assert forall|x: usize| #[trigger]
        after.stage_cache@.dom().contains(x) implies after.stage_cache@[x]
        == before.stage_cache@[x] by {
        assert(before.has_stage(x));
        assert(after.stage(x) == before.stage(x));
    }
    assert(after.stage_cache@ =~= before.stage_cache@);
}

/// The success of a map task takes no output location away: every location
/// that was recorded is still recorded, for every partition.
pub proof fn theorem_success_keeps_locations(
    before: Seq<Seq<Seq<char>>>,
    partition: int,
    uri: Seq<char>,
    q: int,
    host: Seq<char>,
)
    requires
        0 <= partition < before.len(),
        0 <= q < before.len(),
        before[q].contains(host),
    ensures
        before.update(partition, before[partition].push(uri))[q].contains(host),
        before.update(partition, before[partition].push(uri))[q].len() >= before[q].len(),
{
    let after = before.update(partition, before[partition].push(uri));
    if q == partition {
        let i = choose|i: int| 0 <= i < before[q].len() && before[q][i] == host;
        assert(after[q][i] == host);
    }
}

/// A failed fetch takes away the one location that it names and nothing else:
/// other partitions keep all their locations, and the partition that it names
/// keeps every location but the named one.  If the named location was not
/// recorded, nothing changes.
pub proof fn theorem_failure_clears_only_named(
    before: Seq<Seq<Seq<char>>>,
    map_id: int,
    server: Seq<char>,
)
    requires
        0 <= map_id < before.len(),
    ensures
        ({
            let after = before.update(map_id, without_host(before[map_id], server));
            &&& after.len() == before.len()
            &&& forall|q: int| 0 <= q < before.len() && q != map_id ==> after[q] == before[q]
            &&& forall|h: Seq<char>|
                h != server ==> (after[map_id].contains(h) <==> before[map_id].contains(h))
            &&& !after[map_id].contains(server)
            &&& !before[map_id].contains(server) ==> after == before
        }),
{
    let list = before[map_id];
    let kept = without_host(list, server);
    let after = before.update(map_id, kept);
    let test = differs_from(server);
    assert forall|h: Seq<char>| h != server implies (kept.contains(h) <==> list.contains(h)) by {
        if list.contains(h) {
            let i = choose|i: int| 0 <= i < list.len() && list[i] == h;
            assert(test(list[i]));
            list.lemma_filter_contains(test, i);
        }
        if kept.contains(h) {
            list.lemma_filter_contains_rev(test, h);
        }
    }
    if kept.contains(server) {
        let i = choose|i: int| 0 <= i < kept.len() && kept[i] == server;
        list.lemma_filter_pred(test, i);
        assert(test(kept[i]));
    }
    if !list.contains(server) {
        lemma_without_host_absent(list, server);
        assert(after =~= before);
    }
}

/// The order in which the results of two different partitions arrive does not
/// matter.
pub proof fn theorem_results_commute<U>(
    results: Seq<Option<U>>,
    finished: Seq<bool>,
    i: int,
    a: U,
    j: int,
    b: U,
)
    requires
        0 <= i < results.len(),
        0 <= j < results.len(),
        results.len() == finished.len(),
        i != j,
    ensures
        results.update(i, Some(a)).update(j, Some(b)) == results.update(j, Some(b)).update(
            i,
            Some(a),
        ),
        finished.update(i, true).update(j, true) == finished.update(j, true).update(i, true),
{
    assert(results.update(i, Some(a)).update(j, Some(b)) =~= results.update(j, Some(b)).update(
        i,
        Some(a),
    ));
    assert(finished.update(i, true).update(j, true) =~= finished.update(j, true).update(i, true));
}

/// The order in which the outputs of two different partitions of a stage
/// arrive does not matter for the output locations of the stage.
pub proof fn theorem_map_outputs_commute(
    locs: Seq<Seq<Seq<char>>>,
    p: int,
    u: Seq<char>,
    q: int,
    v: Seq<char>,
)
    requires
        0 <= p < locs.len(),
        0 <= q < locs.len(),
        p != q,
    ensures
        ({
            let first = locs.update(p, locs[p].push(u));
            let second = locs.update(q, locs[q].push(v));
            first.update(q, first[q].push(v)) == second.update(p, second[p].push(u))
        }),
{
    let first = locs.update(p, locs[p].push(u));
    let second = locs.update(q, locs[q].push(v));
    assert(first.update(q, first[q].push(v)) =~= second.update(p, second[p].push(u)));
}

/// The result that was the last to be missing completes the job: every slot
/// is filled and every partition finished, the count of finished results is
/// the number of partitions asked for, and scheduler and stage sets are as
/// they were.
pub proof fn theorem_last_result_completes_job<U>(
    after: &DagScheduler,
    before: &DagScheduler,
    ctx: &Context,
    jt0: JobView,
    jt1: JobView,
    task: ResultTask,
    result: U,
    results0: Seq<Option<U>>,
    results1: Seq<Option<U>>,
    finished0: usize,
    finished1: usize,
    tasks: Seq<TaskView>,
)
    requires
        results0.len() == jt0.finished.len(),
        task.output_id < jt0.finished.len(),
        forall|i: int| 0 <= i < jt0.finished.len() ==> (results0[i] is Some <==> jt0.finished[i]),
        forall|i: int| 0 <= i < jt0.finished.len() && i != task.output_id ==> jt0.finished[i],
        !jt0.finished[task.output_id as int],
        finished0 + 1 == jt0.finished.len(),
        after.success_outcome(
            before,
            ctx,
            jt0,
            jt1,
            CompletionEvent::ResultTask { task, result },
            results0,
            results1,
            finished0,
            finished1,
            tasks,
        ),
    ensures
        finished1 == jt1.finished.len(),
        jt1.all_finished(),
        forall|i: int| 0 <= i < results1.len() ==> (#[trigger] results1[i]) is Some,
        results1[task.output_id as int] == Some(result),
        jt1.waiting == jt0.waiting,
        jt1.running == jt0.running,
        jt1.failed == jt0.failed,
        *after == *before,
        tasks.len() == 0,
{
    assert forall|i: int| 0 <= i < jt1.finished.len() implies #[trigger] jt1.finished[i] by {
        if i != task.output_id {
            assert(jt0.finished[i]);
        }
    }
    assert forall|i: int| 0 <= i < results1.len() implies (#[trigger] results1[i]) is Some by {
        if i != task.output_id {
            assert(jt0.finished[i]);
            assert(results0[i] is Some);
        }
    }
}

/// The slots `s` after the deliveries `events`, taken in order: each names a
/// slot and what is delivered, and `f` makes the slot's new value of its old
/// one and of what is delivered.
pub open spec fn applied<A, B>(s: Seq<A>, events: Seq<(int, B)>, f: spec_fn(A, B) -> A) -> Seq<A>
    decreases events.len(),
{
    if events.len() == 0 {
        s
    } else {
        let before = applied(s, events.drop_last(), f);
        let e = events.last();
        before.update(e.0, f(before[e.0], e.1))
    }
}

/// Each of the deliveries `events` names one of `n` slots, and no two name the
/// same.
pub open spec fn one_per_slot<B>(events: Seq<(int, B)>, n: int) -> bool {
    &&& forall|k: int| 0 <= k < events.len() ==> 0 <= (#[trigger] events[k]).0 < n
    &&& forall|k: int, l: int|
        0 <= k < l < events.len() ==> (#[trigger] events[k]).0 != (#[trigger] events[l]).0
}

/// After deliveries to different slots, each slot that was named holds what
/// `f` makes of its old value and of what was delivered to it, and every
/// other slot is as it was.
pub proof fn lemma_applied<A, B>(s: Seq<A>, events: Seq<(int, B)>, f: spec_fn(A, B) -> A)
    requires
        one_per_slot(events, s.len() as int),
    ensures
        applied(s, events, f).len() == s.len(),
        forall|k: int|
            0 <= k < events.len() ==> applied(s, events, f)[(#[trigger] events[k]).0] == f(
                s[events[k].0],
                events[k].1,
            ),
        forall|i: int|
            0 <= i < s.len() && (forall|k: int| 0 <= k < events.len() ==> (#[trigger] events[k]).0
                != i) ==> #[trigger] applied(s, events, f)[i] == s[i],
    decreases events.len(),
{
    if events.len() > 0 {
        let front = events.drop_last();
        let e = events.last();
        assert forall|k: int| 0 <= k < front.len() implies 0 <= (#[trigger] front[k]).0
            < s.len() by {
            assert(front[k] == events[k]);
        }
        assert forall|k: int, l: int| 0 <= k < l < front.len() implies (#[trigger] front[k]).0 != (
        #[trigger] front[l]).0 by {
            assert(front[k] == events[k] && front[l] == events[l]);
        }
        lemma_applied(s, front, f);
        let before = applied(s, front, f);
        assert(before[e.0] == s[e.0]) by {
            assert forall|k: int| 0 <= k < front.len() implies (#[trigger] front[k]).0 != e.0 by {
                assert(front[k] == events[k]);
                assert(events[events.len() - 1] == e);
            }
        }
        assert forall|k: int| 0 <= k < events.len() implies applied(s, events, f)[(
        #[trigger] events[k]).0] == f(s[events[k].0], events[k].1) by {
            if k < front.len() {
                assert(front[k] == events[k]);
                assert(events[events.len() - 1] == e);
            }
        }
        assert forall|i: int|
            0 <= i < s.len() && (forall|k: int| 0 <= k < events.len() ==> (#[trigger] events[k]).0
                != i) implies #[trigger] applied(s, events, f)[i] == s[i] by {
            assert(events[events.len() - 1].0 != i);
            assert forall|k: int| 0 <= k < front.len() implies (#[trigger] front[k]).0 != i by {
                assert(front[k] == events[k]);
            }
        }
    }
}

/// The order of deliveries to different slots does not matter: two orders of
/// the same deliveries leave the same slots.  This holds of the results of a
/// job and of its finished flags, where a delivery fills a slot, and of the
/// output locations of a stage, where a delivery adds a location to a
/// partition; in a run without failures no slot gets two deliveries.
pub proof fn theorem_order_of_deliveries_irrelevant<A, B>(
    s: Seq<A>,
    first: Seq<(int, B)>,
    second: Seq<(int, B)>,
    f: spec_fn(A, B) -> A,
)
    requires
        one_per_slot(first, s.len() as int),
        one_per_slot(second, s.len() as int),
        forall|k: int| 0 <= k < first.len() ==> second.contains(#[trigger] first[k]),
        forall|l: int| 0 <= l < second.len() ==> first.contains(#[trigger] second[l]),
    ensures
        applied(s, first, f) == applied(s, second, f),
{
    lemma_applied(s, first, f);
    lemma_applied(s, second, f);
    assert forall|i: int| 0 <= i < s.len() implies applied(s, first, f)[i] == applied(
        s,
        second,
        f,
    )[i] by {
        if exists|k: int| 0 <= k < first.len() && (#[trigger] first[k]).0 == i {
            let k = choose|k: int| 0 <= k < first.len() && (#[trigger] first[k]).0 == i;
            assert(second.contains(first[k]));
            let l = choose|l: int| 0 <= l < second.len() && second[l] == first[k];
            assert(applied(s, second, f)[second[l].0] == f(s[second[l].0], second[l].1));
            assert(applied(s, first, f)[first[k].0] == f(s[first[k].0], first[k].1));
        } else {
            assert forall|l: int| 0 <= l < second.len() implies (#[trigger] second[l]).0 != i by {
                if second[l].0 == i {
                    assert(first.contains(second[l]));
                    let k = choose|k: int| 0 <= k < first.len() && first[k] == second[l];
                    assert(first[k].0 == i);
                }
            }
        }
    }
    assert(applied(s, first, f) =~= applied(s, second, f));
}

/// The results of a job after the deliveries `events`, each an output slot
/// and its value.
pub open spec fn results_after<U>(results: Seq<Option<U>>, events: Seq<(int, U)>) -> Seq<Option<U>> {
    applied(results, events, |old_value: Option<U>, v: U| Some(v))
}

/// The output locations of a stage after the deliveries `events`, each a
/// partition and the location of its output.
pub open spec fn locations_after(locs: Seq<Seq<Seq<char>>>, events: Seq<(int, Seq<char>)>) -> Seq<
    Seq<Seq<char>>,
> {
    applied(locs, events, |list: Seq<Seq<char>>, uri: Seq<char>| list.push(uri))
}

/// One more result is delivered as the success of a result task says it is,
/// and one more map output as the success of a shuffle-map task says.
pub proof fn lemma_delivery_is_the_event<U>(
    results: Seq<Option<U>>,
    events: Seq<(int, U)>,
    output_id: int,
    result: U,
    locs: Seq<Seq<Seq<char>>>,
    outputs: Seq<(int, Seq<char>)>,
    partition: int,
    uri: Seq<char>,
)
    ensures
        results_after(results, events.push((output_id, result))) == results_after(
            results,
            events,
        ).update(output_id, Some(result)),
        locations_after(locs, outputs.push((partition, uri))) == locations_after(
            locs,
            outputs,
        ).update(partition, locations_after(locs, outputs)[partition].push(uri)),
{
    assert(events.push((output_id, result)).drop_last() =~= events);
    assert(outputs.push((partition, uri)).drop_last() =~= outputs);
}

/// When the only output location of one partition of an available stage is
/// lost, that partition and no other is without output: the stage is no
/// longer available, and submitting it again hands out one task, for that
/// partition.
pub proof fn theorem_one_partition_recomputed(
    after: &DagScheduler,
    before: &DagScheduler,
    ctx: &Context,
    jt: JobView,
    stage_id: usize,
    map_id: usize,
    server: Seq<char>,
    first_id: usize,
)
    requires
        before.stage(stage_id).available(),
        map_id < before.stage(stage_id).locs().len(),
        before.stage(stage_id).locs()[map_id as int] == seq![server],
        after.stage(stage_id).locs() == before.stage(stage_id).locs().update(
            map_id as int,
            without_host(before.stage(stage_id).locs()[map_id as int], server),
        ),
        stage_id != jt.final_stage,
    ensures
        !after.stage(stage_id).available(),
        after.missing_partitions(stage_id) == set![map_id],
        forall|q: int|
            0 <= q < after.stage(stage_id).locs().len() && q != map_id ==> after.stage(
                stage_id,
            ).locs()[q] == before.stage(stage_id).locs()[q] && after.stage(stage_id).locs()[q].len()
                > 0,
        after.stage_tasks(ctx, jt, stage_id, first_id).len() == 1,
        after.stage_tasks(ctx, jt, stage_id, first_id)[0].partition == map_id,
        after.stage_tasks(ctx, jt, stage_id, first_id)[0].task_id == first_id,
{
    let old_locs = before.stage(stage_id).locs();
    let new_locs = after.stage(stage_id).locs();
    let test = differs_from(server);
    assert(without_host(seq![server], server) =~= Seq::<Seq<char>>::empty()) by {
        let kept = seq![server].filter(test);
        if kept.len() > 0 {
            seq![server].lemma_filter_pred(test, 0);
            assert(test(kept[0]));
            assert(kept.contains(kept[0]));
            seq![server].lemma_filter_contains_rev(test, kept[0]);
            let i = choose|i: int| 0 <= i < seq![server].len() && seq![server][i] == kept[0];
            assert(seq![server][i] == server);
        }
    }
    assert(new_locs[map_id as int].len() == 0);
    assert forall|p: usize| after.missing_partitions(stage_id).contains(p) <==> set![map_id].contains(
        p,
    ) by {
        if p < new_locs.len() && p != map_id {
            assert(old_locs[p as int].len() > 0);
        }
    }
    assert(after.missing_partitions(stage_id) =~= set![map_id]);
    let one = seq![map_id];
    assert(one.to_set() =~= set![map_id]) by {
        assert(one[0] == map_id);
        assert forall|x: usize| one.to_set().contains(x) <==> set![map_id].contains(x) by {
            if one.to_set().contains(x) {
                let i = choose|i: int| 0 <= i < one.len() && one[i] == x;
            }
            if x == map_id {
                assert(one[0] == x);
            }
        }
    }
    lemma_ascending_of(one);
}

/// A stage that lacks output is among the stages to compute first for every
/// stage that reads its shuffle through datasets that are not fully cached.
pub proof fn theorem_unavailable_parent_is_missing(
    sched: &DagScheduler,
    ctx: &Context,
    rdd: usize,
    s: ShuffleDependency,
)
    requires
        sched.shuffle_registered(s.shuffle_id),
        ctx.at_boundary(sched.cached_nodes(ctx), rdd, s),
        !sched.stage(sched.stage_of(s.shuffle_id)).available(),
    ensures
        sched.missing_parent_stages(ctx, rdd).contains(sched.stage_of(s.shuffle_id)),
{
    assert(sched.is_missing_parent_of(ctx, rdd, sched.stage_of(s.shuffle_id)));
}

/// For a job that asks for one partition and whose final stage has no parent
/// stage, the fast path and the full path do the same work: submitting the
/// final stage hands out one result task, and that task computes the
/// partition that the fast path computes, for the same stage, and fills the
/// job's only slot.
pub proof fn theorem_fast_path_same_task(
    sched: &DagScheduler,
    ctx: &Context,
    jt: JobView,
    next_task_id: usize,
)
    requires
        sched.wf(ctx),
        sched.job_ok(ctx, jt),
        sched.runs_locally(jt),
        jt.finished == seq![false],
        jt.waiting == Set::<usize>::empty(),
        jt.running == Set::<usize>::empty(),
    ensures
        ({
            let e = sched.submit_effect(ctx, jt, next_task_id, jt.final_stage);
            &&& e.tasks.len() == 1
            &&& e.tasks[0].task_id == next_task_id
            &&& e.tasks[0].stage_id == jt.final_stage
            &&& e.tasks[0].rdd == jt.final_rdd
            &&& e.tasks[0].partition == jt.output_parts[0]
            &&& e.tasks[0].output_id == Some(0usize)
            &&& e.jt.running == set![jt.final_stage]
            &&& e.jt.waiting == Set::<usize>::empty()
        }),
{
    let stage_id = jt.final_stage;
    let rdd = sched.stage(stage_id).rdd;
    assert(sched.stage_ok(ctx, stage_id));
    assert(sched.stage(stage_id).parents@ =~= Seq::<usize>::empty());
    assert(sched.parent_stages(ctx, rdd) =~= Set::<usize>::empty()) by {
        assert(sched.stage(stage_id).parents@.to_set() =~= Set::<usize>::empty());
    }
    assert forall|id: usize| !sched.missing_parent_stages(ctx, rdd).contains(id) by {
        if sched.is_missing_parent_of(ctx, rdd, id) {
            let s = choose|s: ShuffleDependency|
                #[trigger] ctx.at_boundary(sched.cached_nodes(ctx), rdd, s)
                    && sched.shuffle_registered(s.shuffle_id) && sched.stage_of(s.shuffle_id) == id
                    && !sched.stage(id).available();
            lemma_boundary_uncut(ctx, sched.cached_nodes(ctx), rdd, s);
            assert(sched.is_parent_of(ctx, rdd, id));
            assert(sched.parent_stages(ctx, rdd).contains(id));
        }
    }
    assert(sched.missing_parent_stages(ctx, rdd) =~= Set::<usize>::empty());
    let none = Seq::<usize>::empty();
    assert(none.to_set() =~= Set::<usize>::empty());
    lemma_ascending_of(none);
    assert(sched.missing_parents_seq(ctx, stage_id) == none);
    let one = seq![0usize];
    assert(unfinished_outputs(jt) =~= set![0usize]);
    assert(one.to_set() =~= set![0usize]) by {
        assert(one[0] == 0usize);
        assert forall|x: usize| one.to_set().contains(x) <==> set![0usize].contains(x) by {
            if one.to_set().contains(x) {
                let i = choose|i: int| 0 <= i < one.len() && one[i] == x;
            }
            if x == 0usize {
                assert(one[0] == x);
            }
        }
    }
    lemma_ascending_of(one);
    let e = sched.submit_effect(ctx, jt, next_task_id, stage_id);
    assert(e.jt.running =~= set![stage_id]);
}

/// Handing out the tasks of stages changes which tasks are outstanding and
/// nothing else of the job.
pub proof fn lemma_launch_all_keeps_stage_sets(
    sched: &DagScheduler,
    ctx: &Context,
    jt: JobView,
    next_task_id: usize,
    stages: Seq<usize>,
    i: int,
)
    ensures
        ({
            let e = sched.launch_all_effect(ctx, jt, next_task_id, stages, i);
            &&& e.jt.waiting == jt.waiting
            &&& e.jt.running == jt.running
            &&& e.jt.failed == jt.failed
            &&& e.jt.finished == jt.finished
        }),
    decreases stages.len() - i,
{
    if 0 <= i < stages.len() {
        let e1 = sched.launch_effect(ctx, jt, next_task_id, stages[i]);
        lemma_launch_all_keeps_stage_sets(sched, ctx, e1.jt, e1.next_task_id, stages, i + 1);
    }
}

/// When the last outstanding task of a running stage delivers the one
/// partition that the stage lacked, the stage is available and has stopped
/// running, its other output locations are as they were, and a stage that
/// waited for it alone is running: the recomputed partition lets the consumer
/// go on.  The snapshot of cache locations is taken to have been up to date.
pub proof fn theorem_recomputed_partition_resumes(
    after: &DagScheduler,
    before: &DagScheduler,
    ctx: &Context,
    jt0: JobView,
    jt1: JobView,
    producer: usize,
    partition: usize,
    task_id: usize,
    uri: Seq<char>,
    tasks: Seq<TaskView>,
    next_task_id: usize,
    consumer: usize,
)
    requires
        before.wf(ctx),
        before.job_ok(ctx, jt0),
        before.cache_locs.deep_view() == before.cache_tracker.table(),
        after.map_output_outcome(
            before,
            ctx,
            jt0,
            jt1,
            producer,
            partition,
            task_id,
            uri,
            tasks,
            next_task_id,
        ),
        DagScheduler::closes(jt0, producer, task_id),
        before.has_stage(producer),
        partition < before.stage(producer).locs().len(),
        forall|q: int|
            0 <= q < before.stage(producer).locs().len() && q != partition ==> (
            #[trigger] before.stage(producer).locs()[q]).len() > 0,
        jt0.waiting.disjoint(jt0.running),
        jt0.waiting.contains(consumer),
        forall|m: usize| #[trigger]
            before.is_missing_parent_of(ctx, before.stage(consumer).rdd, m) ==> m == producer,
    ensures
        after.stage(producer).available(),
        after.stage(producer).locs()[partition as int] == before.stage(
            producer,
        ).locs()[partition as int].push(uri),
        forall|q: int|
            0 <= q < before.stage(producer).locs().len() && q != partition ==> after.stage(
                producer,
            ).locs()[q] == before.stage(producer).locs()[q],
        !jt1.running.contains(producer),
        jt1.running.contains(consumer),
        !jt1.waiting.contains(consumer),
{
    let j1 = DagScheduler::task_done(jt0, producer, task_id);
    let newly = after.newly_runnable(ctx, j1);
    let j2 = JobView {
        waiting: j1.waiting.difference(newly.to_set()),
        running: j1.running.remove(producer) + newly.to_set(),
        ..j1
    };
    lemma_launch_all_keeps_stage_sets(after, ctx, j2, before.next_task_id, newly, 0);
    // the producer has all its output
    assert(after.stage(producer).available()) by {
        assert forall|p: int| 0 <= p < after.stage(producer).locs().len() implies (
        #[trigger] after.stage(producer).locs()[p]).len() > 0 by {
            if p != partition {
                assert(before.stage(producer).locs()[p].len() > 0);
            }
        }
    }
    // the consumer waits for nothing any more
    assert(before.submittable(jt0, consumer));
    assert(after.has_stage(consumer));
    assert(after.stage(consumer) == before.stage(consumer));
    assert(after.cache_locs.deep_view() == before.cache_locs.deep_view());
    assert forall|x: usize| after.fully_cached(ctx, x) == before.fully_cached(ctx, x) by {}
    assert(after.cached_nodes(ctx) =~= before.cached_nodes(ctx));
    assert(after.ready(ctx, consumer)) by {
        assert forall|m: usize| !after.is_missing_parent_of(
            ctx,
            after.stage(consumer).rdd,
            m,
        ) by {
            if after.is_missing_parent_of(ctx, after.stage(consumer).rdd, m) {
                let d = choose|d: ShuffleDependency|
                    #[trigger] ctx.at_boundary(
                        after.cached_nodes(ctx),
                        after.stage(consumer).rdd,
                        d,
                    ) && after.shuffle_registered(d.shuffle_id) && after.stage_of(d.shuffle_id)
                        == m && !after.stage(m).available();
                if m != producer {
                    assert(before.shuffle_registered(d.shuffle_id));
                    assert(before.has_stage(before.stage_of(d.shuffle_id)));
                    assert(after.has_stage(m));
                    assert(after.stage(m) == before.stage(m));
                    assert(ctx.at_boundary(
                        before.cached_nodes(ctx),
                        before.stage(consumer).rdd,
                        d,
                    ) && before.shuffle_registered(d.shuffle_id) && before.stage_of(d.shuffle_id)
                        == m && !before.stage(m).available());
                    assert(before.is_missing_parent_of(ctx, before.stage(consumer).rdd, m));
                }
            }
        }
    }
    // so it is among the stages that run now
    assert forall|x: usize| j1.waiting.contains(x) implies x < before.next_stage_id by {
        assert(before.submittable(jt0, x));
        assert(before.stage_ok(ctx, x));
    }
    lemma_ascending_lists(j1.waiting, before.next_stage_id as nat);
    let listed = ascending(j1.waiting);
    let i = choose|i: int| 0 <= i < listed.len() && listed[i] == consumer;
    assert(after.ready_test(ctx)(listed[i]));
    listed.lemma_filter_contains(after.ready_test(ctx), i);
    assert(newly.contains(consumer));
    assert(newly.to_set().contains(consumer));
    if newly.contains(producer) {
        listed.lemma_filter_contains_rev(after.ready_test(ctx), producer);
        let k = choose|k: int| 0 <= k < listed.len() && listed[k] == producer;
        assert(j1.waiting.contains(listed[k]));
        assert(jt0.running.contains(producer));
    }
    assert(!newly.to_set().contains(producer));
}

/// Every map output that the tracker holds is recorded with its stage: a
/// filled slot belongs to a shuffle that has a stage, and holds one of the
/// output locations of that partition of the stage.
pub open spec fn outputs_backed(sched: &DagScheduler) -> bool {
    forall|s: usize, i: int|
        sched.map_output_tracker.registered(s) && 0 <= i < sched.map_output_tracker.slots(s).len()
            && (#[trigger] sched.map_output_tracker.slots(s)[i]) is Some ==> {
            &&& sched.shuffle_registered(s)
            &&& i < sched.stage(sched.stage_of(s)).locs().len()
            &&& sched.stage(sched.stage_of(s)).locs()[i].contains(
                sched.map_output_tracker.slots(s)[i]->0,
            )
        }
}

/// The success of a shuffle-map task takes no map output away from the
/// tracker: every slot that was filled is still filled, and what the tracker
/// holds is still recorded with the stages.
pub proof fn theorem_success_keeps_map_outputs(
    after: &DagScheduler,
    before: &DagScheduler,
    ctx: &Context,
    jt0: JobView,
    jt1: JobView,
    stage_id: usize,
    partition: usize,
    task_id: usize,
    uri: Seq<char>,
    tasks: Seq<TaskView>,
    next_task_id: usize,
)
    requires
        before.wf(ctx),
        outputs_backed(before),
        before.has_stage(stage_id),
        partition < before.stage(stage_id).locs().len(),
        after.map_output_outcome(
            before,
            ctx,
            jt0,
            jt1,
            stage_id,
            partition,
            task_id,
            uri,
            tasks,
            next_task_id,
        ),
    ensures
        outputs_backed(after),
        forall|s: usize, i: int|
            before.map_output_tracker.registered(s) && 0 <= i < before.map_output_tracker.slots(
                s,
            ).len() && (#[trigger] before.map_output_tracker.slots(s)[i]) is Some
                ==> after.map_output_tracker.registered(s) && i < after.map_output_tracker.slots(
                s,
            ).len() && after.map_output_tracker.slots(s)[i] is Some,
{
    let own = before.stage(stage_id).shuffle_dependency;
    let closing = DagScheduler::closes(jt0, stage_id, task_id);
    assert(before.stage_ok(ctx, stage_id));
    // every location that a stage had, it has
    assert forall|x: usize, i: int, u: Seq<char>|
        before.has_stage(x) && 0 <= i < before.stage(x).locs().len() && #[trigger] before.stage(
            x,
        ).locs()[i].contains(u) implies i < after.stage(x).locs().len() && after.stage(
        x,
    ).locs()[i].contains(u) by {
        assert(after.has_stage(x));
        if x == stage_id {
            if i == partition {
                let list = before.stage(x).locs()[i];
                let k = choose|k: int| 0 <= k < list.len() && list[k] == u;
                assert(list.push(uri)[k] == u);
            }
        } else {
            assert(after.stage(x) == before.stage(x));
        }
    }
    assert forall|s: usize, i: int|
        before.map_output_tracker.registered(s) && 0 <= i < before.map_output_tracker.slots(
            s,
        ).len() && (#[trigger] before.map_output_tracker.slots(s)[i]) is Some implies after.map_output_tracker.registered(
        s,
    ) && i < after.map_output_tracker.slots(s).len() && after.map_output_tracker.slots(s)[i] is Some by {
        let u = before.map_output_tracker.slots(s)[i]->0;
        assert(before.shuffle_registered(s));
        assert(before.stage(before.stage_of(s)).locs()[i].contains(u));
        if closing && own is Some && s == own->0.shuffle_id {
            assert(before.stage_of(s) == stage_id);
            assert(after.stage(stage_id).locs()[i].contains(u));
        } else if closing && own is Some {
            assert(after.map_output_tracker.registered(s));
            assert(after.map_output_tracker.server_uris@[s]
                == before.map_output_tracker.server_uris@[s]);
        }
    }
    assert forall|s: usize, i: int|
        after.map_output_tracker.registered(s) && 0 <= i < after.map_output_tracker.slots(s).len()
            && (#[trigger] after.map_output_tracker.slots(s)[i]) is Some implies after.shuffle_registered(
        s,
    ) && i < after.stage(after.stage_of(s)).locs().len() && after.stage(
        after.stage_of(s),
    ).locs()[i].contains(after.map_output_tracker.slots(s)[i]->0) by {
        if closing && own is Some && s == own->0.shuffle_id {
            assert(before.shuffle_registered(s));
            assert(before.stage_of(s) == stage_id);
            let list = after.stage(stage_id).locs()[i];
            assert(list[0] == after.map_output_tracker.slots(s)[i]->0);
        } else {
            if closing && own is Some {
                assert(before.map_output_tracker.registered(s));
                assert(after.map_output_tracker.server_uris@[s]
                    == before.map_output_tracker.server_uris@[s]);
            }
            assert(before.map_output_tracker.registered(s));
            assert(before.map_output_tracker.slots(s)[i] is Some);
            let u = before.map_output_tracker.slots(s)[i]->0;
            assert(before.shuffle_registered(s));
            assert(before.has_stage(before.stage_of(s)));
            assert(before.stage(before.stage_of(s)).locs()[i].contains(u));
        }
    }
}

/// A failed fetch leaves what the tracker holds recorded with the stages: the
/// location that the report names leaves the stage and the tracker together.
pub proof fn theorem_failure_keeps_outputs_backed(
    after: &DagScheduler,
    before: &DagScheduler,
    ctx: &Context,
    jt0: JobView,
    jt1: JobView,
    failed_vals: FetchFailedVals,
    stage_id: usize,
)
    requires
        before.wf(ctx),
        outputs_backed(before),
        before.accepts_failure(jt0, failed_vals, stage_id),
        after.failure_outcome(before, jt0, jt1, failed_vals, stage_id),
    ensures
        outputs_backed(after),
{
    let shuffle_id = failed_vals.shuffle_id;
    let map_id = failed_vals.map_id;
    let server = failed_vals.server_uri@;
    let producer = before.stage_of(shuffle_id);
    assert(before.has_stage(producer));
    assert(before.stage_ok(ctx, producer));
    assert(before.shuffle_ok(ctx, shuffle_id));
    assert forall|s: usize, i: int|
        after.map_output_tracker.registered(s) && 0 <= i < after.map_output_tracker.slots(s).len()
            && (#[trigger] after.map_output_tracker.slots(s)[i]) is Some implies after.shuffle_registered(
        s,
    ) && i < after.stage(after.stage_of(s)).locs().len() && after.stage(
        after.stage_of(s),
    ).locs()[i].contains(after.map_output_tracker.slots(s)[i]->0) by {
        let u = after.map_output_tracker.slots(s)[i]->0;
        if s != shuffle_id {
            assert(before.map_output_tracker.registered(s));
            assert(after.map_output_tracker.server_uris@[s]
                == before.map_output_tracker.server_uris@[s]);
        }
        assert(before.map_output_tracker.registered(s));
        assert(before.map_output_tracker.slots(s)[i] == Some(u));
        assert(before.shuffle_registered(s));
        assert(before.has_stage(before.stage_of(s)));
        let x = before.stage_of(s);
        assert(after.has_stage(x));
        if x == producer {
            assert(before.shuffle_ok(ctx, s));
            assert(s == shuffle_id);
            if i == map_id {
                assert(u != server);
                let list = before.stage(x).locs()[i];
                let k = choose|k: int| 0 <= k < list.len() && list[k] == u;
                assert(differs_from(server)(list[k]));
                list.lemma_filter_contains(differs_from(server), k);
            }
        } else {
            assert(after.stage(x) == before.stage(x));
        }
    }
}

/// Building stages leaves what the tracker holds recorded with the stages:
/// the stages that were there keep their output, and the shuffles that the
/// tracker has gained have empty slots.
pub proof fn theorem_building_keeps_outputs_backed(
    after: &DagScheduler,
    before: &DagScheduler,
    ctx: &Context,
    rdd: usize,
    own: Option<ShuffleDependency>,
    result_stage: Option<usize>,
)
    requires
        before.wf(ctx),
        outputs_backed(before),
        after.keeps(before),
        forall|s: usize| #[trigger]
            before.map_output_tracker.registered(s) ==> after.map_output_tracker.registered(s)
                && after.map_output_tracker.server_uris@[s]
                == before.map_output_tracker.server_uris@[s],
        after.built_for(before, ctx, rdd, own, result_stage),
    ensures
        outputs_backed(after),
{
    assert forall|s: usize, i: int|
        after.map_output_tracker.registered(s) && 0 <= i < after.map_output_tracker.slots(s).len()
            && (#[trigger] after.map_output_tracker.slots(s)[i]) is Some implies after.shuffle_registered(
        s,
    ) && i < after.stage(after.stage_of(s)).locs().len() && after.stage(
        after.stage_of(s),
    ).locs()[i].contains(after.map_output_tracker.slots(s)[i]->0) by {
        if before.map_output_tracker.registered(s) {
            assert(before.map_output_tracker.slots(s)[i] is Some);
            assert(before.shuffle_registered(s));
            assert(before.has_stage(before.stage_of(s)));
        }
    }
}

/// The lineage graph `after` is `before` with more nodes and more shuffles.
pub open spec fn graph_grown(before: &Context, after: &Context) -> bool {
    &&& before.rdds@.len() <= after.rdds@.len()
    &&& forall|i: int| 0 <= i < before.rdds@.len() ==> #[trigger] after.rdds@[i] == before.rdds@[i]
    &&& before.shuffles@.len() <= after.shuffles@.len()
    &&& forall|j: int|
        0 <= j < before.shuffles@.len() ==> #[trigger] after.shuffles@[j] == before.shuffles@[j]
}

/// What a node reaches does not change when the graph grows.
pub proof fn lemma_reaches_in_grown_graph(
    before: &Context,
    after: &Context,
    cut: Set<usize>,
    from: usize,
    to: usize,
)
    requires
        before.wf(),
        graph_grown(before, after),
        from < before.rdds@.len(),
    ensures
        after.reaches(cut, from, to) == before.reaches(cut, from, to),
    decreases from,
{
    assert(after.rdds@[from as int] == before.rdds@[from as int]);
    assert(before.rdd_ok(from as int));
    if to != from && !cut.contains(from) {
        assert forall|k: int| after.narrow_parent(from, k) == before.narrow_parent(from, k) by {}
        if after.reaches(cut, from, to) {
            let k = choose|k: int|
                (#[trigger] after.narrow_parent(from, k)) is Some && after.narrow_parent(from, k)->0
                    < from && after.reaches(cut, after.narrow_parent(from, k)->0, to);
            lemma_reaches_in_grown_graph(before, after, cut, after.narrow_parent(from, k)->0, to);
            assert(before.narrow_parent(from, k) is Some);
        }
        if before.reaches(cut, from, to) {
            let k = choose|k: int|
                (#[trigger] before.narrow_parent(from, k)) is Some && before.narrow_parent(
                    from,
                    k,
                )->0 < from && before.reaches(cut, before.narrow_parent(from, k)->0, to);
            lemma_reaches_in_grown_graph(before, after, cut, before.narrow_parent(from, k)->0, to);
            assert(after.narrow_parent(from, k) is Some);
        }
    }
}

/// The shuffles that bound the narrow region of a node do not change when the
/// graph grows.
pub proof fn lemma_boundary_in_grown_graph(
    before: &Context,
    after: &Context,
    rdd: usize,
    s: ShuffleDependency,
)
    requires
        before.wf(),
        after.wf(),
        graph_grown(before, after),
        rdd < before.rdds@.len(),
    ensures
        after.at_boundary(Set::empty(), rdd, s) == before.at_boundary(Set::empty(), rdd, s),
{
    let cut = Set::<usize>::empty();
    if after.at_boundary(cut, rdd, s) {
        let (y, j) = choose|y: usize, j: int|
            after.reaches(cut, rdd, y) && y < after.rdds@.len() && !cut.contains(y) && 0 <= j
                < after.deps(y).len() && #[trigger] after.deps(y)[j]
                == Dependency::ShuffleDependency(s);
        lemma_reaches_in_grown_graph(before, after, cut, rdd, y);
        lemma_reaches_below(before, cut, rdd, y);
        assert(after.rdds@[y as int] == before.rdds@[y as int]);
        assert(before.reaches(cut, rdd, y) && y < before.rdds@.len() && !cut.contains(y) && 0 <= j
            < before.deps(y).len() && before.deps(y)[j] == Dependency::ShuffleDependency(s));
    }
    if before.at_boundary(cut, rdd, s) {
        let (y, j) = choose|y: usize, j: int|
            before.reaches(cut, rdd, y) && y < before.rdds@.len() && !cut.contains(y) && 0 <= j
                < before.deps(y).len() && #[trigger] before.deps(y)[j]
                == Dependency::ShuffleDependency(s);
        lemma_reaches_in_grown_graph(before, after, cut, rdd, y);
        assert(after.rdds@[y as int] == before.rdds@[y as int]);
        assert(after.reaches(cut, rdd, y) && y < after.rdds@.len() && !cut.contains(y) && 0 <= j
            < after.deps(y).len() && after.deps(y)[j] == Dependency::ShuffleDependency(s));
    }
}

/// A scheduler that fits a lineage graph still fits it after datasets and
/// shuffles have been added to the graph, as long as stage ids are left for
/// the new shuffles.
pub proof fn theorem_scheduler_fits_grown_graph(
    sched: &DagScheduler,
    before: &Context,
    after: &Context,
)
    requires
        sched.wf(before),
        after.wf(),
        graph_grown(before, after),
        sched.next_stage_id + after.shuffles@.len() - sched.shuffle_to_map_stage@.len()
            <= usize::MAX,
    ensures
        sched.wf(after),
{
    assert forall|id: usize| #[trigger] sched.has_stage(id) implies sched.stage_ok(after, id) by {
        assert(sched.stage_ok(before, id));
        let st = sched.stage(id);
        let rdd = st.rdd;
        assert(after.rdds@[rdd as int] == before.rdds@[rdd as int]);
        assert forall|s: ShuffleDependency|
            after.at_boundary(Set::empty(), rdd, s) == before.at_boundary(Set::empty(), rdd, s) by {
            lemma_boundary_in_grown_graph(before, after, rdd, s);
        }
        assert forall|x: usize|
            sched.parent_stages(after, rdd).contains(x) <==> sched.parent_stages(
                before,
                rdd,
            ).contains(x) by {
            if sched.is_parent_of(after, rdd, x) {
                let s = choose|s: ShuffleDependency|
                    #[trigger] after.at_boundary(Set::empty(), rdd, s) && sched.shuffle_registered(
                        s.shuffle_id,
                    ) && sched.stage_of(s.shuffle_id) == x;
                assert(before.at_boundary(Set::empty(), rdd, s) && sched.shuffle_registered(
                    s.shuffle_id,
                ) && sched.stage_of(s.shuffle_id) == x);
            }
            if sched.is_parent_of(before, rdd, x) {
                let s = choose|s: ShuffleDependency|
                    #[trigger] before.at_boundary(Set::empty(), rdd, s)
                        && sched.shuffle_registered(s.shuffle_id) && sched.stage_of(s.shuffle_id)
                        == x;
                assert(after.at_boundary(Set::empty(), rdd, s) && sched.shuffle_registered(
                    s.shuffle_id,
                ) && sched.stage_of(s.shuffle_id) == x);
            }
        }
        assert(sched.parent_stages(after, rdd) =~= sched.parent_stages(before, rdd));
        assert forall|s: ShuffleDependency| #[trigger]
            after.at_boundary(Set::empty(), rdd, s) implies sched.shuffle_registered(s.shuffle_id)
            && sched.has_stage(sched.stage_of(s.shuffle_id)) by {
            assert(before.at_boundary(Set::empty(), rdd, s));
        }
        if st.shuffle_dependency is Some {
            let d = st.shuffle_dependency->0;
            assert(after.shuffles@[d.shuffle_id as int] == before.shuffles@[d.shuffle_id as int]);
        }
    }
    assert forall|s: usize| #[trigger] sched.shuffle_registered(s) implies sched.shuffle_ok(
        after,
        s,
    ) by {
        assert(sched.shuffle_ok(before, s));
        assert(after.shuffles@[s as int] == before.shuffles@[s as int]);
    }
    assert forall|s: usize| #[trigger] sched.map_output_tracker.registered(s) implies s
        < after.shuffles@.len() && sched.map_output_tracker.slots(s).len()
        == after.rdds@[after.shuffles@[s as int].rdd as int].num_splits by {
        assert(after.shuffles@[s as int] == before.shuffles@[s as int]);
        let r = before.shuffles@[s as int].rdd;
        assert(after.rdds@[r as int] == before.rdds@[r as int]);
    }
}

/// The numbers below `n`, in order.
pub open spec fn count_up(n: nat) -> Seq<usize> {
    Seq::new(n, |i: int| i as usize)
}

/// Submitting the final stage of a fresh job whose inputs are all available
/// hands out one result task for each requested partition, in the order of
/// the request, and makes the stage run.
pub proof fn theorem_single_stage_job(
    sched: &DagScheduler,
    ctx: &Context,
    jt: JobView,
    next_task_id: usize,
)
    requires
        sched.wf(ctx),
        sched.job_ok(ctx, jt),
        sched.inputs_available(ctx, jt.final_rdd),
        forall|i: int| 0 <= i < jt.finished.len() ==> !(#[trigger] jt.finished[i]),
        jt.finished.len() <= usize::MAX,
        jt.waiting == Set::<usize>::empty(),
        jt.running == Set::<usize>::empty(),
    ensures
        ({
            let e = sched.submit_effect(ctx, jt, next_task_id, jt.final_stage);
            &&& e.tasks.len() == jt.finished.len()
            &&& forall|k: int|
                0 <= k < e.tasks.len() ==> (#[trigger] e.tasks[k]).output_id == Some(k as usize)
                    && e.tasks[k].partition == jt.output_parts[k] && e.tasks[k].stage_id
                    == jt.final_stage
            &&& e.jt.running == set![jt.final_stage]
        }),
{
    let stage_id = jt.final_stage;
    let rdd = sched.stage(stage_id).rdd;
    let n = jt.finished.len();
    assert(sched.stage_ok(ctx, stage_id));
    assert forall|id: usize| !sched.missing_parent_stages(ctx, rdd).contains(id) by {
        if sched.is_missing_parent_of(ctx, rdd, id) {
            let s = choose|s: ShuffleDependency|
                #[trigger] ctx.at_boundary(sched.cached_nodes(ctx), rdd, s)
                    && sched.shuffle_registered(s.shuffle_id) && sched.stage_of(s.shuffle_id) == id
                    && !sched.stage(id).available();
        }
    }
    assert(sched.missing_parent_stages(ctx, rdd) =~= Set::<usize>::empty());
    let none = Seq::<usize>::empty();
    assert(none.to_set() =~= Set::<usize>::empty());
    lemma_ascending_of(none);
    let all = count_up(n);
    assert(all.to_set() =~= unfinished_outputs(jt)) by {
        assert forall|x: usize| all.to_set().contains(x) <==> unfinished_outputs(jt).contains(x) by {
            if all.to_set().contains(x) {
                let i = choose|i: int| 0 <= i < all.len() && all[i] == x;
            }
            if unfinished_outputs(jt).contains(x) {
                assert(all[x as int] == x);
            }
        }
    }
    lemma_ascending_of(all);
    let e = sched.submit_effect(ctx, jt, next_task_id, stage_id);
    assert(e.jt.running =~= set![stage_id]);
}

/// A dataset that reads through no shuffle has all its inputs available.
pub proof fn theorem_no_shuffle_no_input(sched: &DagScheduler, ctx: &Context, rdd: usize)
    requires
        forall|s: ShuffleDependency| !ctx.at_boundary(Set::empty(), rdd, s),
    ensures
        sched.inputs_available(ctx, rdd),
{
    assert forall|s: ShuffleDependency| #[trigger]
        ctx.at_boundary(sched.cached_nodes(ctx), rdd, s) implies false by {
        lemma_boundary_uncut(ctx, sched.cached_nodes(ctx), rdd, s);
    }
}

} // verus!
