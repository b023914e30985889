use fast_steal::{StealTask, Task};

#[test]
fn test_steal_no_tasks() {
    let mut thief = Task::new(0, 0);
    let mut tasks: Vec<Task> = vec![];
    assert!(!thief.steal(&mut tasks, 10));
}

#[test]
fn test_steal_all_too_small() {
    let mut thief = Task::new(0, 0);
    let mut tasks = vec![
        Task::new(0, 5),  // remain = 5
        Task::new(8, 10), // remain = 2
    ];
    assert!(!thief.steal(&mut tasks, 10));
}

#[test]
fn test_steal_successful() {
    let mut thief = Task::new(0, 0);
    let mut tasks = vec![
        Task::new(0, 5),   // remain = 5
        Task::new(10, 25), // remain = 15 (will be stolen from)
        Task::new(30, 40), // remain = 10
    ];

    assert!(thief.steal(&mut tasks, 10));

    assert_eq!(thief.start(), 17);
    assert_eq!(thief.end(), 25);

    assert_eq!(tasks[1].start(), 10);
    assert_eq!(tasks[1].end(), 17);
}

#[test]
fn test_steal_exact_min_size() {
    let mut thief = Task::new(0, 0);
    let mut tasks = vec![
        Task::new(0, 10), // remain = 10
    ];

    assert!(thief.steal(&mut tasks, 10));

    assert_eq!(thief.start(), 5);
    assert_eq!(thief.end(), 10);

    assert_eq!(tasks[0].start(), 0);
    assert_eq!(tasks[0].end(), 5);
}

#[test]
fn test_steal_first_maximum_wins_ties() {
    let mut thief = Task::new(0, 0);
    let mut tasks = vec![Task::new(0, 10), Task::new(20, 30)];

    assert!(thief.steal(&mut tasks, 2));

    // both donors hold 10 units; the first one is bisected
    assert_eq!(tasks[0], Task::new(0, 5));
    assert_eq!(tasks[1], Task::new(20, 30));
    assert_eq!(thief, Task::new(5, 10));
}

#[test]
fn test_steal_starvation_floor() {
    // the best donor holds a single unit: no steal may run
    let mut thief = Task::new(0, 0);
    let mut tasks = vec![Task::new(0, 1), Task::new(5, 6), Task::new(9, 9)];
    assert!(!thief.steal(&mut tasks, 2));
    assert_eq!(tasks, vec![Task::new(0, 1), Task::new(5, 6), Task::new(9, 9)]);
    assert_eq!(thief, Task::new(0, 0));
}

#[test]
fn test_steal_conserves_work() {
    let mut thief = Task::new(4, 4);
    let mut tasks = vec![Task::new(0, 5), Task::new(10, 25), Task::new(30, 40)];
    let before: u64 = tasks.iter().map(|t| t.remain()).sum::<u64>() + thief.remain();
    assert!(thief.steal(&mut tasks, 2));
    let after: u64 = tasks.iter().map(|t| t.remain()).sum::<u64>() + thief.remain();
    assert_eq!(before, after);
}
