use task_tracker::{Status, TaskVec};

fn header(next_id: u64, count: u64) -> Vec<u8> {
    let mut v = Vec::new();
    v.extend_from_slice(&next_id.to_le_bytes());
    v.extend_from_slice(&count.to_le_bytes());
    v
}

fn record(id: u64, created: u64, updated: u64, status: u8, name: &[u8], desc: &[u8]) -> Vec<u8> {
    let mut v = Vec::new();
    v.extend_from_slice(&id.to_le_bytes());
    v.extend_from_slice(&created.to_le_bytes());
    v.extend_from_slice(&updated.to_le_bytes());
    v.push(status);
    v.extend_from_slice(&(name.len() as u64).to_le_bytes());
    v.extend_from_slice(name);
    v.extend_from_slice(&(desc.len() as u64).to_le_bytes());
    v.extend_from_slice(desc);
    v
}

#[test]
fn decodes_handwritten_empty_collection() {
    let bytes = header(7, 0);
    let c = TaskVec::from_bytes(&bytes).unwrap();
    assert_eq!(c.len(), 0);
    assert_eq!(c.next_id(), 7);
}

#[test]
fn decodes_handwritten_single_task() {
    let mut bytes = header(4, 1);
    bytes.extend_from_slice(&record(3, 100, 250, 2, b"walk", b"the dog"));
    let c = TaskVec::from_bytes(&bytes).unwrap();
    assert_eq!(c.len(), 1);
    assert_eq!(c.next_id(), 4);
    let t = c.get(0);
    assert_eq!(t.id(), 3);
    assert_eq!(t.created(), 100);
    assert_eq!(t.updated(), 250);
    assert_eq!(*t.status(), Status::InProgress);
    assert_eq!(t.name(), "walk");
    assert_eq!(t.description(), "the dog");
}

#[test]
fn rejects_truncated_input() {
    assert!(TaskVec::from_bytes(&[]).is_none());
    assert!(TaskVec::from_bytes(&header(0, 0)[..15]).is_none());
    let mut bytes = header(1, 1);
    let rec = record(0, 1, 1, 0, b"a", b"");
    bytes.extend_from_slice(&rec[..rec.len() - 1]);
    assert!(TaskVec::from_bytes(&bytes).is_none());
}

#[test]
fn rejects_trailing_bytes() {
    let mut bytes = header(1, 0);
    bytes.push(0);
    assert!(TaskVec::from_bytes(&bytes).is_none());
}

#[test]
fn rejects_unknown_status_tag() {
    let mut bytes = header(1, 1);
    bytes.extend_from_slice(&record(0, 1, 1, 9, b"a", b""));
    assert!(TaskVec::from_bytes(&bytes).is_none());
}

#[test]
fn rejects_updated_before_created() {
    let mut bytes = header(1, 1);
    bytes.extend_from_slice(&record(0, 10, 5, 0, b"a", b""));
    assert!(TaskVec::from_bytes(&bytes).is_none());
}

#[test]
fn rejects_duplicate_ids() {
    let mut bytes = header(1, 2);
    bytes.extend_from_slice(&record(0, 1, 1, 0, b"a", b""));
    bytes.extend_from_slice(&record(0, 1, 1, 0, b"b", b""));
    assert!(TaskVec::from_bytes(&bytes).is_none());
}

#[test]
fn rejects_id_at_or_above_next_id() {
    let mut bytes = header(1, 1);
    bytes.extend_from_slice(&record(1, 1, 1, 0, b"a", b""));
    assert!(TaskVec::from_bytes(&bytes).is_none());
}

#[test]
fn rejects_text_that_is_not_utf8() {
    let mut bytes = header(1, 1);
    bytes.extend_from_slice(&record(0, 1, 1, 0, &[0xff, 0xfe], b""));
    assert!(TaskVec::from_bytes(&bytes).is_none());
}

#[test]
fn rejects_absurd_count() {
    let bytes = header(0, u64::MAX);
    assert!(TaskVec::from_bytes(&bytes).is_none());
}

#[test]
fn add_fails_only_when_id_space_is_exhausted() {
    let bytes = header(u64::MAX, 0);
    let mut c = TaskVec::from_bytes(&bytes).unwrap();
    assert!(c.add("too late", "").is_none());
    assert_eq!(c.len(), 0);
    assert_eq!(c.next_id(), u64::MAX);
}
