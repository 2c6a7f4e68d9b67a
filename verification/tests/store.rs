//! The interval placement store, exercised directly.
use eva::ScheduleTree;

#[test]
fn close_before_packs_late() {
    let mut tree = ScheduleTree::new();
    assert!(tree.is_empty());
    // First task ends exactly at its deadline.
    assert!(tree.schedule_close_before(100, 10, Some(0), 0));
    assert_eq!(tree.when_scheduled(0), Some(90));
    // The next one is capped by the entry already there.
    assert!(tree.schedule_close_before(100, 20, Some(0), 1));
    assert_eq!(tree.when_scheduled(1), Some(70));
    // A lower bound can make placement impossible.
    assert!(!tree.schedule_close_before(100, 50, Some(30), 2));
    assert_eq!(tree.when_scheduled(2), None);
    // Without the lower bound it fits right before the others.
    assert!(tree.schedule_close_before(100, 50, None, 2));
    assert_eq!(tree.when_scheduled(2), Some(20));
}

#[test]
fn close_after_packs_early() {
    let mut tree = ScheduleTree::new();
    assert!(tree.schedule_close_after(10, 10, None, 0));
    assert_eq!(tree.when_scheduled(0), Some(10));
    // The next one lands right behind it.
    assert!(tree.schedule_close_after(10, 5, None, 1));
    assert_eq!(tree.when_scheduled(1), Some(20));
    // An upper bound can make placement impossible.
    assert!(!tree.schedule_close_after(10, 5, Some(29), 2));
    // A gap in the middle is preferred over the open end.
    let removed = tree.unschedule(0).unwrap();
    assert_eq!(removed.start, 10);
    assert_eq!(removed.end, 20);
    assert!(tree.schedule_close_after(10, 5, Some(29), 2));
    assert_eq!(tree.when_scheduled(2), Some(10));
}

#[test]
fn unschedule_returns_the_entry() {
    let mut tree = ScheduleTree::new();
    assert!(tree.schedule_close_before(50, 10, Some(0), 4));
    let entry = tree.unschedule(4).unwrap();
    assert_eq!(entry.start, 40);
    assert_eq!(entry.end, 50);
    assert_eq!(entry.idx, 4);
    assert!(tree.is_empty());
    assert!(tree.unschedule(4).is_none());
}

#[test]
fn entries_come_back_in_start_order() {
    let mut tree = ScheduleTree::new();
    assert!(tree.schedule_close_before(100, 10, Some(0), 0));
    assert!(tree.schedule_close_before(60, 10, Some(0), 1));
    assert!(tree.schedule_close_before(200, 10, Some(0), 2));
    let entries = tree.entries_vec();
    assert_eq!(entries.len(), 3);
    assert_eq!(tree.len(), 3);
    assert!(entries[0].start < entries[1].start);
    assert!(entries[1].start < entries[2].start);
    assert_eq!(entries[0].idx, 1);
    assert_eq!(entries[1].idx, 0);
    assert_eq!(entries[2].idx, 2);
}
