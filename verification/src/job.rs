//! The bookkeeping of one job.

use crate::ids::IdSet;
use std::collections::BTreeMap;
use vstd::prelude::*;

verus! {

/// The state of one job: what was asked for, which of the requested partitions
/// have produced their result, and where each stage stands.
#[derive(Debug)]
pub struct JobTracker {
    /// The partitions of the final dataset that the job computes.
    pub output_parts: Vec<usize>,
    pub num_output_parts: usize,
    /// The id of the stage that produces the job's results.
    pub final_stage: usize,
    pub final_rdd: usize,
    pub run_id: usize,
    /// Stages that wait for a parent stage.
    pub waiting: IdSet,
    /// Stages whose tasks have been handed out.
    pub running: IdSet,
    /// Stages that lost output and are to be submitted again.
    pub failed: IdSet,
    /// For each requested partition, whether its result has arrived.
    pub finished: Vec<bool>,
    /// For each stage, the ids of its tasks that have not completed.
    pub pending_tasks: BTreeMap<usize, IdSet>,
}

/// A job's state as plain values.
pub struct JobView {
    pub output_parts: Seq<usize>,
    pub num_output_parts: usize,
    pub final_stage: usize,
    pub final_rdd: usize,
    pub run_id: usize,
    pub waiting: Set<usize>,
    pub running: Set<usize>,
    pub failed: Set<usize>,
    pub finished: Seq<bool>,
    pub pending_tasks: Map<usize, Set<usize>>,
}

impl JobView {
    /// The outstanding tasks of stage `stage`; none if it has no entry.
    pub open spec fn pending(&self, stage: usize) -> Set<usize> {
        if self.pending_tasks.contains_key(stage) {
            self.pending_tasks[stage]
        } else {
            Set::empty()
        }
    }

    /// The state in which the tasks `ids` of stage `stage` are outstanding too.
    pub open spec fn with_pending(self, stage: usize, ids: Set<usize>) -> JobView {
        JobView { pending_tasks: self.pending_tasks.insert(stage, self.pending(stage) + ids), ..self }
    }

    /// The state in which stage `stage` is running.
    pub open spec fn with_running(self, stage: usize) -> JobView {
        JobView { running: self.running.insert(stage), ..self }
    }

    /// The state in which stage `stage` is waiting.
    pub open spec fn with_waiting(self, stage: usize) -> JobView {
        JobView { waiting: self.waiting.insert(stage), ..self }
    }

    /// Every requested partition has produced its result.
    pub open spec fn all_finished(&self) -> bool {
        forall|i: int| 0 <= i < self.finished.len() ==> #[trigger] self.finished[i]
    }
}

impl View for JobTracker {
    type V = JobView;

    open spec fn view(&self) -> JobView {
        JobView {
            output_parts: self.output_parts@,
            num_output_parts: self.num_output_parts,
            final_stage: self.final_stage,
            final_rdd: self.final_rdd,
            run_id: self.run_id,
            waiting: self.waiting@,
            running: self.running@,
            failed: self.failed@,
            finished: self.finished@,
            pending_tasks: Map::new(
                |k: usize| self.pending_tasks@.contains_key(k),
                |k: usize| self.pending_tasks@[k]@,
            ),
        }
    }
}

impl JobTracker {
    /// The sets are in order, there is one flag per requested partition, and no
    /// stage is both waiting and running.
    pub open spec fn wf(&self) -> bool {
        &&& self.waiting.wf()
        &&& self.running.wf()
        &&& self.failed.wf()
        &&& forall|k: usize| #[trigger]
            self.pending_tasks@.contains_key(k) ==> self.pending_tasks@[k].wf()
        &&& self.output_parts@.len() == self.num_output_parts
        &&& self.finished@.len() == self.num_output_parts
        &&& self.waiting@.disjoint(self.running@)
    }

    /// The state of a job that has not started: no stage waits or runs, no task
    /// is outstanding, no result has arrived.
    pub fn new(run_id: usize, final_rdd: usize, final_stage: usize, output_parts: Vec<usize>) -> (jt:
        Self)
        ensures
            jt.wf(),
            jt@ == (JobView {
                output_parts: output_parts@,
                num_output_parts: output_parts@.len() as usize,
                final_stage,
                final_rdd,
                run_id,
                waiting: Set::empty(),
                running: Set::empty(),
                failed: Set::empty(),
                finished: Seq::new(output_parts@.len(), |i: int| false),
                pending_tasks: Map::empty(),
            }),
    {
        let num_output_parts = output_parts.len();
        let mut finished: Vec<bool> = Vec::new();
        let mut i: usize = 0;
        while i < num_output_parts
            invariant
                i <= num_output_parts,
                finished@.len() == i,
                forall|j: int| 0 <= j < i ==> !(#[trigger] finished@[j]),
            decreases num_output_parts - i,
        {
            finished.push(false);
            i = i + 1;
        }
        let jt = JobTracker {
            output_parts,
            num_output_parts,
            final_stage,
            final_rdd,
            run_id,
            waiting: IdSet::new(),
            running: IdSet::new(),
            failed: IdSet::new(),
            finished,
            pending_tasks: BTreeMap::new(),
        };
        proof {
            assert(jt@.finished =~= Seq::new(output_parts@.len(), |i: int| false));
            assert(jt@.pending_tasks =~= Map::<usize, Set<usize>>::empty());
        }
        jt
    }

    /// Whether every requested partition has produced its result.
    pub fn is_complete(&self) -> (b: bool)
        ensures
            b == self@.all_finished(),
    {
        let mut i: usize = 0;
        while i < self.finished.len()
            invariant
                i <= self.finished@.len(),
                forall|j: int| 0 <= j < i ==> #[trigger] self.finished@[j],
            decreases self.finished@.len() - i,
        {
            if !self.finished[i] {
                assert(!self@.finished[i as int]);
                return false;
            }
            i = i + 1;
        }
        true
    }

    /// Whether stage `stage` has no outstanding task.  A stage without an entry
    /// has none.
    pub fn no_pending_tasks(&self, stage: usize) -> (b: bool)
        requires
            self.wf(),
        ensures
            b == (self@.pending(stage) == Set::<usize>::empty()),
    {
        match self.pending_tasks.get(&stage) {
            Some(set) => set.is_empty(),
            None => true,
        }
    }

    /// Records the tasks `ids` as outstanding tasks of stage `stage`.
    pub fn add_pending(&mut self, stage: usize, ids: &Vec<usize>)
        requires
            old(self).wf(),
        ensures
            final(self).wf(),
            final(self)@ == old(self)@.with_pending(stage, ids@.to_set()),
    {
        let mut set = match self.pending_tasks.remove(&stage) {
            Some(set) => set,
            None => IdSet::new(),
        };
        assert(set@ == old(self)@.pending(stage));
        set.insert_all(ids);
        self.pending_tasks.insert(stage, set);
        proof {
            assert(self@.pending_tasks =~= old(self)@.with_pending(stage, ids@.to_set()).pending_tasks);
        }
    }

    /// Takes task `task_id` off the outstanding tasks of stage `stage`.
    pub fn remove_pending(&mut self, stage: usize, task_id: usize)
        requires
            old(self).wf(),
        ensures
            final(self).wf(),
            final(self)@ == (JobView {
                pending_tasks: if old(self)@.pending_tasks.contains_key(stage) {
                    old(self)@.pending_tasks.insert(
                        stage,
                        old(self)@.pending_tasks[stage].remove(task_id),
                    )
                } else {
                    old(self)@.pending_tasks
                },
                ..old(self)@
            }),
    {
        match self.pending_tasks.remove(&stage) {
            Some(mut set) => {
                set.remove(task_id);
                self.pending_tasks.insert(stage, set);
                proof {
                    assert(self@.pending_tasks =~= old(self)@.pending_tasks.insert(
                        stage,
                        old(self)@.pending_tasks[stage].remove(task_id),
                    ));
                }
            },
            None => {
                proof {
                    assert(self@.pending_tasks =~= old(self)@.pending_tasks);
                }
            },
        }
    }
}

} // verus!
