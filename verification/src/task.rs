//! Tasks and the events that report how they ended.

use crate::dependency::ShuffleDependency;
use vstd::prelude::*;

verus! {

/// What a worker is told about the task it runs.
#[derive(Clone, Copy, Debug, PartialEq, Eq, Structural)]
pub struct TaskContext {
    pub stage_id: usize,
    pub split_id: usize,
    pub attempt_id: usize,
}

impl TaskContext {
    pub fn new(stage_id: usize, split_id: usize, attempt_id: usize) -> (c: Self)
        ensures
            c == (TaskContext { stage_id, split_id, attempt_id }),
    {
        TaskContext { stage_id, split_id, attempt_id }
    }
}

/// A terminal task: computes partition `partition` of dataset `rdd` and applies
/// the job's closure; its result fills slot `output_id` of the job.
#[derive(Debug, PartialEq, Eq)]
pub struct ResultTask {
    pub task_id: usize,
    pub run_id: usize,
    pub stage_id: usize,
    pub rdd: usize,
    pub partition: usize,
    pub locs: Vec<u32>,
    pub output_id: usize,
}

/// A map-side task: computes partition `partition` of dataset `rdd` and
/// repartitions it for shuffle `dep`.
#[derive(Debug, PartialEq, Eq)]
pub struct ShuffleMapTask {
    pub task_id: usize,
    pub run_id: usize,
    pub stage_id: usize,
    pub rdd: usize,
    pub dep: ShuffleDependency,
    pub partition: usize,
    pub locs: Vec<u32>,
}

/// A task of either kind.
#[derive(Debug, PartialEq, Eq)]
pub enum TaskOption {
    ResultTask(ResultTask),
    ShuffleMapTask(ShuffleMapTask),
}

/// A task as plain values.
pub struct TaskView {
    pub task_id: usize,
    pub run_id: usize,
    pub stage_id: usize,
    pub rdd: usize,
    pub partition: usize,
    pub locs: Seq<u32>,
    /// The output slot, for a result task.
    pub output_id: Option<usize>,
    /// The shuffle, for a shuffle-map task.
    pub dep: Option<ShuffleDependency>,
}

impl View for ResultTask {
    type V = TaskView;

    open spec fn view(&self) -> TaskView {
        TaskView {
            task_id: self.task_id,
            run_id: self.run_id,
            stage_id: self.stage_id,
            rdd: self.rdd,
            partition: self.partition,
            locs: self.locs@,
            output_id: Some(self.output_id),
            dep: None,
        }
    }
}

impl View for ShuffleMapTask {
    type V = TaskView;

    open spec fn view(&self) -> TaskView {
        TaskView {
            task_id: self.task_id,
            run_id: self.run_id,
            stage_id: self.stage_id,
            rdd: self.rdd,
            partition: self.partition,
            locs: self.locs@,
            output_id: None,
            dep: Some(self.dep),
        }
    }
}

impl View for TaskOption {
    type V = TaskView;

    open spec fn view(&self) -> TaskView {
        match self {
            TaskOption::ResultTask(t) => t@,
            TaskOption::ShuffleMapTask(t) => t@,
        }
    }
}

impl ResultTask {
    pub fn new(
        task_id: usize,
        run_id: usize,
        stage_id: usize,
        rdd: usize,
        partition: usize,
        locs: Vec<u32>,
        output_id: usize,
    ) -> (t: Self)
        ensures
            t == (ResultTask { task_id, run_id, stage_id, rdd, partition, locs, output_id }),
    {
        ResultTask { task_id, run_id, stage_id, rdd, partition, locs, output_id }
    }
}

impl ShuffleMapTask {
    pub fn new(
        task_id: usize,
        run_id: usize,
        stage_id: usize,
        rdd: usize,
        dep: ShuffleDependency,
        partition: usize,
        locs: Vec<u32>,
    ) -> (t: Self)
        ensures
            t == (ShuffleMapTask { task_id, run_id, stage_id, rdd, dep, partition, locs }),
    {
        ShuffleMapTask { task_id, run_id, stage_id, rdd, dep, partition, locs }
    }
}

impl TaskOption {
    pub fn get_task_id(&self) -> (id: usize)
        ensures
            id == self@.task_id,
    {
        match self {
            TaskOption::ResultTask(t) => t.task_id,
            TaskOption::ShuffleMapTask(t) => t.task_id,
        }
    }

    pub fn get_run_id(&self) -> (id: usize)
        ensures
            id == self@.run_id,
    {
        match self {
            TaskOption::ResultTask(t) => t.run_id,
            TaskOption::ShuffleMapTask(t) => t.run_id,
        }
    }

    pub fn get_stage_id(&self) -> (id: usize)
        ensures
            id == self@.stage_id,
    {
        match self {
            TaskOption::ResultTask(t) => t.stage_id,
            TaskOption::ShuffleMapTask(t) => t.stage_id,
        }
    }

    /// The locations at which the task would best run.
    pub fn preferred_locations(&self) -> (locs: &Vec<u32>)
        ensures
            locs@ == self@.locs,
    {
        match self {
            TaskOption::ResultTask(t) => &t.locs,
            TaskOption::ShuffleMapTask(t) => &t.locs,
        }
    }
}

/// What a failed shuffle fetch reports: map output `map_id` of shuffle
/// `shuffle_id` could not be had from `server_uri` for reduce partition
/// `reduce_id`.
#[derive(Debug, PartialEq, Eq)]
pub struct FetchFailedVals {
    pub server_uri: String,
    pub shuffle_id: usize,
    pub map_id: usize,
    pub reduce_id: usize,
}

/// The report of a task that succeeded, with what it produced.
#[derive(Debug)]
#[allow(inconsistent_fields)]
pub enum CompletionEvent<U> {
    /// A result task and the value of the job's closure on its partition.
    ResultTask { task: ResultTask, result: U },
    /// A shuffle-map task and the location that now serves its output.
    ShuffleMapTask { task: ShuffleMapTask, result: String },
}

/// What a task reports when it ends.
#[derive(Debug)]
pub enum TaskEvent<U> {
    /// The task succeeded.
    Success(CompletionEvent<U>),
    /// A task of stage `stage_id` could not fetch the input of a shuffle.
    FetchFailed { stage_id: usize, failed_vals: FetchFailedVals },
    /// The computation of task `task_id` of stage `stage_id` failed.
    Error { stage_id: usize, task_id: usize, message: String },
}

/// The failure of a task's own computation.
#[derive(Debug, PartialEq, Eq)]
pub struct TaskError {
    pub stage_id: usize,
    pub task_id: usize,
    pub message: String,
}

} // verus!
