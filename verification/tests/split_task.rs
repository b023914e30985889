use fast_steal::{SplitTask, Task};

#[test]
fn test_split_task() {
    let task = Task::new(1, 6); // 1, 2, 3, 4, 5
    let groups: Vec<_> = task.split_task(3); // 5 / 3 = 1 remainder 2

    assert_eq!(
        groups,
        vec![Task::new(1, 3), Task::new(3, 5), Task::new(5, 6)]
    );
}

#[test]
fn test_split_two() {
    let mut task = Task::new(1, 6); // 1, 2, 3, 4, 5
    let (mid, end) = task.split_two();

    assert_eq!(task.start(), 1);
    assert_eq!(task.end(), 3);
    assert_eq!(mid, 3);
    assert_eq!(end, 6);
}

#[test]
fn test_split_task_even() {
    let task = Task::new(0, 48);
    let groups = task.split_task(8);
    assert_eq!(groups.len(), 8);
    for (i, g) in groups.iter().enumerate() {
        assert_eq!(g.start, 6 * i as u64);
        assert_eq!(g.end, 6 * (i + 1) as u64);
        assert_eq!(g.remain(), 6);
    }
}

#[test]
fn test_split_task_covers_exactly() {
    // sizes differ by at most one, groups are contiguous, the whole
    // input is covered with no gap or overlap
    let task = Task::new(7, 7 + 23);
    let groups = task.split_task(5);
    assert_eq!(groups.len(), 5);
    let mut expect = task.start();
    let mut sizes = Vec::new();
    for g in &groups {
        assert_eq!(g.start, expect);
        assert!(g.end >= g.start);
        sizes.push(g.end - g.start);
        expect = g.end;
    }
    assert_eq!(expect, task.end());
    let min = sizes.iter().min().unwrap();
    let max = sizes.iter().max().unwrap();
    assert!(max - min <= 1);
}

#[test]
fn test_split_task_more_groups_than_units() {
    let task = Task::new(3, 5);
    let groups = task.split_task(4);
    assert_eq!(
        groups,
        vec![
            Task::new(3, 4),
            Task::new(4, 5),
            Task::new(5, 5),
            Task::new(5, 5),
        ]
    );
}
