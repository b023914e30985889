use fast_steal::TaskList;

#[test]
fn test_empty_list() {
    let tasks = TaskList::from(vec![]);
    assert_eq!(tasks.len, 0);
}

#[test]
fn test_single_range() {
    let tasks = TaskList::from(vec![10..15]);
    assert_eq!(tasks.len, 5);

    assert_eq!(tasks.get(0), 10);
    assert_eq!(tasks.get(1), 11);
    assert_eq!(tasks.get(4), 14);
}

#[test]
fn test_multiple_ranges() {
    let tasks = TaskList::from(vec![10..12, 20..25, 30..35]);
    assert_eq!(tasks.len, (12 - 10) + (25 - 20) + (35 - 30));

    // First range
    assert_eq!(tasks.get(0), 10);
    assert_eq!(tasks.get(1), 11);

    // Second range
    assert_eq!(tasks.get(2), 20);
    assert_eq!(tasks.get(3), 21);
    assert_eq!(tasks.get(6), 24);

    // Third range
    assert_eq!(tasks.get(7), 30);
    assert_eq!(tasks.get(11), 34);
}

#[test]
fn test_consecutive_ranges() {
    let tasks = TaskList::from(vec![10..15, 15..20]);
    assert_eq!(tasks.len, 10);

    assert_eq!(tasks.get(0), 10);
    assert_eq!(tasks.get(4), 14);
    assert_eq!(tasks.get(5), 15);
    assert_eq!(tasks.get(9), 19);
}

#[test]
fn test_non_contiguous_ranges() {
    let tasks = TaskList::from(vec![100..101, 200..203, 300..305]);
    assert_eq!(tasks.len, 1 + 3 + 5);

    assert_eq!(tasks.get(0), 100);
    assert_eq!(tasks.get(1), 200);
    assert_eq!(tasks.get(2), 201);
    assert_eq!(tasks.get(4), 300);
    assert_eq!(tasks.get(8), 304);
}

#[test]
fn test_zero_length_ranges() {
    let tasks = TaskList::from(vec![10..10, 20..20, 30..35]);
    assert_eq!(tasks.len, 5);

    assert_eq!(tasks.get(0), 30);
    assert_eq!(tasks.get(4), 34);
}

#[test]
fn test_get_range() {
    let tasks = TaskList::from(vec![10..15, 20..25]);

    // window inside one segment
    assert_eq!(tasks.get_range(0..5), vec![10..15]);
    // window across a segment boundary
    assert_eq!(tasks.get_range(3..7), vec![13..15, 20..22]);
    // empty window
    assert_eq!(tasks.get_range(5..5), vec![]);
    // boundary windows
    assert_eq!(tasks.get_range(4..5), vec![14..15]);
    assert_eq!(tasks.get_range(4..6), vec![14..15, 20..21]);
    assert_eq!(tasks.get_range(5..7), vec![20..22]);
    // the whole domain
    assert_eq!(tasks.get_range(0..10), vec![10..15, 20..25]);
}

#[test]
fn test_get_range2() {
    let tasks = TaskList::from(vec![20..25, 10..15]);

    // window inside one segment
    assert_eq!(tasks.get_range(0..5), vec![20..25]);
    // window across a segment boundary
    assert_eq!(tasks.get_range(3..7), vec![23..25, 10..12]);
    // empty window
    assert_eq!(tasks.get_range(5..5), vec![]);
    // boundary windows
    assert_eq!(tasks.get_range(4..5), vec![24..25]);
    assert_eq!(tasks.get_range(4..6), vec![24..25, 10..11]);
    assert_eq!(tasks.get_range(5..7), vec![10..12]);
    // the whole domain
    assert_eq!(tasks.get_range(0..10), vec![20..25, 10..15]);
}

#[test]
fn test_position_non_decreasing() {
    let tasks = TaskList::from(vec![10..12, 20..25, 30..35]);
    let mut prev = tasks.position(0);
    for i in 1..tasks.len {
        let p = tasks.position(i);
        assert!(p >= prev);
        prev = p;
    }
}

#[test]
fn test_get_range_length_matches_window() {
    let tasks = TaskList::from(vec![100..101, 200..203, 300..305]);
    for a in 0..tasks.len {
        for b in a..=tasks.len {
            let parts = tasks.get_range(a..b);
            let total: u64 = parts.iter().map(|r| r.end - r.start).sum();
            assert_eq!(total, b - a);
            if a < b {
                assert_eq!(parts[0].start, tasks.get(a));
            }
        }
    }
}
