use fast_steal::{SplitTask, StealTask, Task, TaskList};

fn consume(cursor: &mut Task, list: &TaskList, seen: &mut Vec<bool>) {
    while cursor.start() < cursor.end() {
        let flat = cursor.fetch_add_start(1);
        let index = list.get(flat) as usize;
        assert!(!seen[index], "index assigned twice");
        seen[index] = true;
    }
}

#[test]
fn test_pool_assigns_each_index_once() {
    // a dense domain split eight ways: even groups of six; seven
    // workers finish early and steal the rest, and the union of what
    // was consumed is the whole domain with no duplicates
    let list = TaskList::from(vec![0u64..48]);
    let whole: Task = (&list).into();
    let mut cursors = whole.split_task(8);
    assert_eq!(cursors.len(), 8);
    for c in &cursors {
        assert_eq!(c.remain(), 6);
    }

    let mut seen = vec![false; 48];

    // workers 1..8 drain their own shares and go idle
    for w in 1..8 {
        let mut own = cursors[w];
        consume(&mut own, &list, &mut seen);
        cursors[w] = own;
    }

    // the idle workers now steal from what is left, one piece at a time
    loop {
        let mut thief = Task::new(0, 0);
        if !thief.steal(&mut cursors, 2) {
            break;
        }
        consume(&mut thief, &list, &mut seen);
    }

    // whoever still holds a sliver finishes it
    for w in 0..8 {
        let mut own = cursors[w];
        consume(&mut own, &list, &mut seen);
        cursors[w] = own;
    }

    assert!(seen.iter().all(|&b| b), "an index was never assigned");
}

#[test]
fn test_pool_on_segmented_domain() {
    // the same protocol over a discontiguous domain
    let list = TaskList::from(vec![100..120, 300..301, 500..527]);
    assert_eq!(list.len, 48);
    let whole: Task = (&list).into();
    let mut cursors = whole.split_task(5);

    let mut seen = std::collections::HashSet::new();
    loop {
        let mut thief = Task::new(0, 0);
        if !thief.steal(&mut cursors, 2) {
            break;
        }
        while thief.start() < thief.end() {
            let flat = thief.fetch_add_start(1);
            assert!(seen.insert(list.get(flat)), "value computed twice");
        }
    }
    for w in 0..cursors.len() {
        let mut own = cursors[w];
        while own.start() < own.end() {
            let flat = own.fetch_add_start(1);
            assert!(seen.insert(list.get(flat)), "value computed twice");
        }
        cursors[w] = own;
    }

    for v in 100..120u64 {
        assert!(seen.contains(&v));
    }
    assert!(seen.contains(&300));
    for v in 500..527u64 {
        assert!(seen.contains(&v));
    }
    assert_eq!(seen.len(), 48);
}

#[test]
fn test_split_list_of_ranges_via_flat_view() {
    // balanced splitting of an ordered list of ranges: split the flat
    // domain, then map each group back through the segmented view; a
    // group spanning a boundary is truncated there and empty fragments
    // are omitted
    let list = TaskList::from(vec![0..5, 10..17]); // 5 + 7 = 12 units
    let whole: Task = (&list).into();
    let groups = whole.split_task(5); // sizes 3, 3, 2, 2, 2

    let parts: Vec<Vec<std::ops::Range<u64>>> = groups
        .iter()
        .map(|g| list.get_range(g.start..g.end))
        .collect();

    assert_eq!(parts[0], vec![0..3]);
    assert_eq!(parts[1], vec![3..5, 10..11]); // spans the boundary
    assert_eq!(parts[2], vec![11..13]);
    assert_eq!(parts[3], vec![13..15]);
    assert_eq!(parts[4], vec![15..17]);

    // sizes balanced: they differ by at most one
    let sizes: Vec<u64> = parts
        .iter()
        .map(|p| p.iter().map(|r| r.end - r.start).sum())
        .collect();
    assert_eq!(sizes, vec![3, 3, 2, 2, 2]);
}

#[test]
fn test_empty_domain_terminates_immediately() {
    let list = TaskList::from(vec![]);
    let whole: Task = (&list).into();
    let mut cursors = whole.split_task(4);
    for c in &cursors {
        assert_eq!(c.remain(), 0);
    }
    let mut thief = Task::new(0, 0);
    assert!(!thief.steal(&mut cursors, 2));
}
