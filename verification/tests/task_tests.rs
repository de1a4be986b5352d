use task_tracker::{Status, TaskError, TaskVec};

#[test]
fn scenario_basic_flow() {
    let mut c = TaskVec::new();
    let t0 = c.add("Buy milk", "2%").unwrap();
    assert_eq!(t0.id(), 0);
    assert_eq!(*t0.status(), Status::Todo);
    let t1 = c.add("Pay rent", "").unwrap();
    assert_eq!(t1.id(), 1);
    assert_eq!(*t1.status(), Status::Todo);

    let before = t0.updated();
    let marked = c.mark(0, &Status::Done).unwrap();
    assert_eq!(*marked.status(), Status::Done);
    assert!(marked.updated() >= before);

    let done = c.list_by_status(Some(&Status::Done));
    assert_eq!(done.len(), 1);
    assert_eq!(done[0].id(), 0);

    let removed = c.del(1).unwrap();
    assert_eq!(removed.id(), 1);
    assert_eq!(c.len(), 1);

    assert!(matches!(c.update(1, Some("late"), None), Err(TaskError::NotFound)));
}

#[test]
fn add_assigns_increasing_unique_ids() {
    let mut c = TaskVec::new();
    let a = c.add("a", "").unwrap();
    let b = c.add("b", "").unwrap();
    c.del(1).unwrap();
    let d = c.add("d", "").unwrap();
    assert_eq!(a.id(), 0);
    assert_eq!(b.id(), 1);
    // an id is never reused, even after a delete
    assert_eq!(d.id(), 2);
    assert_eq!(c.next_id(), 3);
}

#[test]
fn add_sets_fields_and_timestamps() {
    let mut c = TaskVec::new();
    let t = c.add("name here", "description here").unwrap();
    assert_eq!(t.name(), "name here");
    assert_eq!(t.description(), "description here");
    assert_eq!(*t.status(), Status::Todo);
    assert_eq!(t.created(), t.updated());
}

#[test]
fn del_removes_exactly_one() {
    let mut c = TaskVec::new();
    c.add("a", "").unwrap();
    c.add("b", "").unwrap();
    c.add("c", "").unwrap();
    let removed = c.del(1).unwrap();
    assert_eq!(removed.id(), 1);
    assert_eq!(removed.name(), "b");
    assert_eq!(c.len(), 2);
    let all = c.list_by_status(None);
    assert_eq!(all[0].id(), 0);
    assert_eq!(all[1].id(), 2);
}

#[test]
fn del_missing_id_is_not_found_and_harmless() {
    let mut c = TaskVec::new();
    c.add("a", "").unwrap();
    assert!(matches!(c.del(9), Err(TaskError::NotFound)));
    assert_eq!(c.len(), 1);
    assert_eq!(c.get(0).name(), "a");
}

#[test]
fn update_replaces_supplied_fields_only() {
    let mut c = TaskVec::new();
    c.add("old name", "old desc").unwrap();
    let before = c.get(0).updated();

    let t = c.update(0, Some("new name"), None).unwrap();
    assert_eq!(t.name(), "new name");
    assert_eq!(t.description(), "old desc");
    assert!(t.updated() >= before);
    assert!(t.updated() >= t.created());

    let t = c.update(0, None, Some("new desc")).unwrap();
    assert_eq!(t.name(), "new name");
    assert_eq!(t.description(), "new desc");

    let t = c.update(0, Some("both"), Some("fields")).unwrap();
    assert_eq!(t.name(), "both");
    assert_eq!(t.description(), "fields");
    assert_eq!(*t.status(), Status::Todo);
}

#[test]
fn update_with_nothing_supplied_changes_nothing() {
    let mut c = TaskVec::new();
    c.add("a", "b").unwrap();
    let before = c.get(0).updated();
    let t = c.update(0, None, None).unwrap();
    assert_eq!(t.name(), "a");
    assert_eq!(t.description(), "b");
    assert_eq!(t.updated(), before);
}

#[test]
fn update_missing_id_is_not_found() {
    let mut c = TaskVec::new();
    c.add("a", "").unwrap();
    assert!(matches!(c.update(3, Some("x"), None), Err(TaskError::NotFound)));
    assert_eq!(c.get(0).name(), "a");
}

#[test]
fn mark_moves_between_all_states() {
    let mut c = TaskVec::new();
    c.add("a", "").unwrap();
    for s in [Status::Skip, Status::InProgress, Status::Done, Status::Todo] {
        let t = c.mark(0, &s).unwrap();
        assert_eq!(*t.status(), s);
        assert!(t.updated() >= t.created());
    }
}

#[test]
fn mark_missing_id_is_not_found() {
    let mut c = TaskVec::new();
    assert!(matches!(c.mark(0, &Status::Done), Err(TaskError::NotFound)));
    assert_eq!(c.len(), 0);
}

#[test]
fn list_without_filter_keeps_insertion_order() {
    let mut c = TaskVec::new();
    c.add("a", "").unwrap();
    c.add("b", "").unwrap();
    c.add("c", "").unwrap();
    let all = c.list_by_status(None);
    assert_eq!(all.len(), 3);
    assert_eq!(all[0].name(), "a");
    assert_eq!(all[1].name(), "b");
    assert_eq!(all[2].name(), "c");
}

#[test]
fn list_with_filter_keeps_relative_order() {
    let mut c = TaskVec::new();
    c.add("a", "").unwrap();
    c.add("b", "").unwrap();
    c.add("c", "").unwrap();
    c.add("d", "").unwrap();
    c.mark(0, &Status::Done).unwrap();
    c.mark(2, &Status::Done).unwrap();
    let done = c.list_by_status(Some(&Status::Done));
    assert_eq!(done.len(), 2);
    assert_eq!(done[0].id(), 0);
    assert_eq!(done[1].id(), 2);
    let skipped = c.list_by_status(Some(&Status::Skip));
    assert_eq!(skipped.len(), 0);
}

#[test]
fn round_trip_preserves_every_field() {
    let mut c = TaskVec::new();
    c.add("héllo wörld", "notes: 你好 ✓").unwrap();
    c.add("plain ascii", "").unwrap();
    c.mark(1, &Status::InProgress).unwrap();
    c.update(0, None, Some("rewritten")).unwrap();

    let bytes = c.to_bytes();
    let d = TaskVec::from_bytes(&bytes).expect("decoding what to_bytes wrote must succeed");

    assert_eq!(d.len(), c.len());
    assert_eq!(d.next_id(), c.next_id());
    for i in 0..c.len() {
        let x = c.get(i);
        let y = d.get(i);
        assert_eq!(x.id(), y.id());
        assert_eq!(x.name(), y.name());
        assert_eq!(x.description(), y.description());
        assert_eq!(*x.status(), *y.status());
        assert_eq!(x.created(), y.created());
        assert_eq!(x.updated(), y.updated());
    }
}

#[test]
fn round_trip_of_empty_collection() {
    let mut c = TaskVec::new();
    c.add("gone", "").unwrap();
    c.del(0).unwrap();
    let bytes = c.to_bytes();
    let d = TaskVec::from_bytes(&bytes).unwrap();
    assert_eq!(d.len(), 0);
    assert_eq!(d.next_id(), 1);
}
