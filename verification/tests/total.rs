use fast_steal::{Task, TaskGroup, Tasks, Total};

#[test]
fn task_total() {
    let task = Task { start: 3, end: 5 };
    assert_eq!(task.total(), 2);

    let single_day_task = Task { start: 4, end: 5 };
    assert_eq!(single_day_task.total(), 1);

    let single_day_task = Task { start: 4, end: 4 };
    assert_eq!(single_day_task.total(), 0);
}

#[test]
fn tasks_total() {
    let tasks = vec![Task { start: 3, end: 5 }, Task { start: 2, end: 6 }];
    assert_eq!(tasks.total(), 2 + 4);

    let empty_tasks: Tasks = vec![];
    assert_eq!(empty_tasks.total(), 0);
}

#[test]
fn task_group_total() {
    let task_group = vec![
        vec![Task { start: 3, end: 5 }, Task { start: 2, end: 6 }],
        vec![Task { start: 1, end: 4 }],
    ];
    assert_eq!(task_group.total(), 2 + 4 + 3);

    let empty_task_group: TaskGroup = vec![];
    assert_eq!(empty_task_group.total(), 0);
}
