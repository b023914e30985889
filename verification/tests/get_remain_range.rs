use fast_steal::{GetRemain, GetRemainRange, Task, Tasks};

#[test]
fn get_remain_range_test_get_remain_empty() {
    let tasks: Tasks = vec![];
    assert_eq!(tasks.get_remain_range(8, 1), vec![]);
    assert_eq!(tasks.get_remain_range(8, 0), vec![]);
}

#[test]
fn test_get_remain() {
    let tasks = vec![
        Task { start: 0, end: 2 },
        Task { start: 2, end: 4 },
        Task { start: 4, end: 6 },
        Task { start: 6, end: 8 },
    ];
    assert_eq!(
        tasks.get_remain_range(5, 1),
        vec![
            Task { start: 3, end: 4 }, // 1
            Task { start: 4, end: 6 }, // 2
            Task { start: 6, end: 7 }, // 1
        ]
    );
    assert_eq!(
        tasks.get_remain_range(5, 0),
        vec![
            Task { start: 3, end: 4 }, // 1
            Task { start: 4, end: 6 }, // 2
            Task { start: 6, end: 8 }, // 2
        ]
    );
    assert_eq!(
        tasks.get_remain_range(5, 2),
        vec![
            Task { start: 3, end: 4 }, // 1
            Task { start: 4, end: 6 }, // 2
        ]
    );
    assert_eq!(
        tasks.get_remain_range(5, 3),
        vec![
            Task { start: 3, end: 4 }, // 1
            Task { start: 4, end: 5 }, // 1
        ]
    );
    assert_eq!(
        tasks.get_remain_range(5, 4),
        vec![
            Task { start: 3, end: 4 }, // 1
        ]
    );
    assert_eq!(tasks.get_remain_range(5, 5), vec![]);
    assert_eq!(tasks.get_remain_range(5, 6), vec![]);
    assert_eq!(
        tasks.get_remain_range(4, 2),
        vec![Task { start: 4, end: 6 }] // 2
    );
    assert_eq!(
        tasks.get_remain_range(4, 3),
        vec![Task { start: 4, end: 5 }] // 1
    );
}

#[test]
fn test_zero_skip_matches_get_remain() {
    let tasks = vec![
        Task { start: 0, end: 3 },
        Task { start: 7, end: 9 },
        Task { start: 12, end: 20 },
    ];
    for remain in 0..=14u64 {
        assert_eq!(tasks.get_remain_range(remain, 0), tasks.get_remain(remain));
    }
}

#[test]
fn test_skip_at_least_remain_is_empty() {
    let tasks = vec![Task { start: 0, end: 4 }, Task { start: 4, end: 8 }];
    for remain in 0..=8u64 {
        for skip in remain..=9u64 {
            assert_eq!(tasks.get_remain_range(remain, skip), vec![]);
        }
    }
}

#[test]
fn test_get_remain_range_exact_total() {
    // the window always carries exactly remain - skip units while the
    // list holds that much
    let tasks = vec![
        Task { start: 0, end: 2 },
        Task { start: 2, end: 4 },
        Task { start: 4, end: 6 },
        Task { start: 6, end: 8 },
    ];
    for skip in 0..8u64 {
        for remain in (skip + 1)..=8u64 {
            let window = tasks.get_remain_range(remain, skip);
            let total: u64 = window.iter().map(|t| t.end - t.start).sum();
            assert_eq!(total, remain - skip);
        }
    }
}
