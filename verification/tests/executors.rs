use dag_scheduler::executors::{Executor, ExecutorDirectory};
use dag_scheduler::task::{ResultTask, TaskOption};

fn task_preferring(locs: Vec<u32>) -> TaskOption {
    TaskOption::ResultTask(ResultTask::new(0, 0, 0, 0, 0, locs, 0))
}

fn three() -> ExecutorDirectory {
    ExecutorDirectory::new(vec![
        Executor { ip: 10, port: 1 },
        Executor { ip: 20, port: 2 },
        Executor { ip: 20, port: 3 },
    ])
}

#[test]
fn tasks_without_preference_take_the_executors_in_turn() {
    let mut d = three();
    let t = task_preferring(vec![]);
    assert_eq!(d.next_executor_server(&t), Some(Executor { ip: 20, port: 3 }));
    assert_eq!(d.next_executor_server(&t), Some(Executor { ip: 20, port: 2 }));
    assert_eq!(d.next_executor_server(&t), Some(Executor { ip: 10, port: 1 }));
    assert_eq!(d.next_executor_server(&t), Some(Executor { ip: 20, port: 3 }));
    assert_eq!(
        d.servers,
        vec![
            Executor { ip: 20, port: 3 },
            Executor { ip: 10, port: 1 },
            Executor { ip: 20, port: 2 },
        ]
    );
}

#[test]
fn a_task_goes_to_the_first_executor_at_its_first_served_preference() {
    let mut d = three();
    let t = task_preferring(vec![99, 20, 10]);
    assert_eq!(d.next_executor_server(&t), Some(Executor { ip: 20, port: 2 }));
    assert_eq!(
        d.servers,
        vec![
            Executor { ip: 20, port: 2 },
            Executor { ip: 10, port: 1 },
            Executor { ip: 20, port: 3 },
        ]
    );
    assert_eq!(d.next_executor_server(&t), Some(Executor { ip: 20, port: 2 }));
    let u = task_preferring(vec![10]);
    assert_eq!(d.next_executor_server(&u), Some(Executor { ip: 10, port: 1 }));
}

#[test]
fn a_task_whose_preferences_are_not_served_takes_its_turn() {
    let mut d = three();
    let t = task_preferring(vec![1, 2, 3]);
    assert_eq!(d.next_executor_server(&t), Some(Executor { ip: 20, port: 3 }));
}

#[test]
fn without_executors_there_is_no_choice() {
    let mut d = ExecutorDirectory::new(vec![]);
    assert_eq!(d.next_executor_server(&task_preferring(vec![10])), None);
    assert_eq!(d.find(10), 0);
}

#[test]
fn finding_an_executor_by_its_address() {
    let d = three();
    assert_eq!(d.find(10), 0);
    assert_eq!(d.find(20), 1);
    assert_eq!(d.find(30), 3);
}
