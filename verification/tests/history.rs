use y4_clipboard::constants::MAX_HISTORY;
use y4_clipboard::digest::content_hash;
use y4_clipboard::history::{ClipboardHistory, ContentLocation, Entry, InsertOutcome};

fn entry(id: i64, ts: i64, hash: &str) -> Entry {
    Entry {
        id,
        timestamp: ts,
        mime: "text/plain".to_string(),
        size: 3,
        preview: Some("abc".to_string()),
        inline: true,
        hash: hash.to_string(),
    }
}

fn ids(h: &ClipboardHistory) -> Vec<i64> {
    h.fetch_metadata(usize::MAX).iter().map(|e| e.id).collect()
}

#[test]
fn new_history_is_empty() {
    let h = ClipboardHistory::new();
    assert_eq!(h.get_total_count(), 0);
    assert!(h.latest().is_none());
    assert_eq!(h.last_id(), 0);
}

#[test]
fn insert_adds_record_with_next_id_and_preview() {
    let mut h = ClipboardHistory::new();
    let rep = h.insert_with_hash("text/plain", b"hello\nworld", "h1", 1000).ok().unwrap();
    assert!(matches!(rep.outcome, InsertOutcome::Added { id: 1 }));
    assert!(!rep.cache_content);
    assert!(rep.evicted.is_empty());
    let e = h.latest().unwrap();
    assert_eq!(e.id, 1);
    assert_eq!(e.timestamp, 1000);
    assert_eq!(e.size, 11);
    assert_eq!(e.preview.as_deref(), Some("hello world"));
    assert!(e.inline);
    assert_eq!(e.hash, "h1");
}

#[test]
fn image_is_cached_without_preview() {
    let mut h = ClipboardHistory::new();
    let rep = h.insert_with_hash("image/png", &[0x89, 0x50, 0x4e, 0x47], "img", 5).ok().unwrap();
    assert!(rep.cache_content);
    let e = h.latest().unwrap();
    assert!(!e.inline);
    assert!(e.preview.is_none());
    match h.locate_content(e.id).unwrap() {
        ContentLocation::CacheFile { name } => assert_eq!(name, "img.cache"),
        ContentLocation::Inline => panic!("image content must be cached"),
    }
}

#[test]
fn gif_anywhere_in_type_is_cached() {
    let mut h = ClipboardHistory::new();
    let rep = h.insert_with_hash("application/x-gif", b"GIF89a", "g", 5).ok().unwrap();
    assert!(rep.cache_content);
}

#[test]
fn empty_content_is_ignored() {
    let mut h = ClipboardHistory::new();
    let rep = h.insert_with_hash("text/plain", b"", "h", 1).ok().unwrap();
    assert!(matches!(rep.outcome, InsertOutcome::Ignored));
    assert_eq!(h.get_total_count(), 0);
    assert_eq!(h.last_id(), 0);
}

#[test]
fn sensitive_types_are_ignored() {
    let mut h = ClipboardHistory::new();
    for mime in ["x-kde-passwordManagerHint", "application/password", "text/secret", "x-gnome-cliptrace"] {
        let rep = h.insert_with_hash(mime, b"data", "h", 1).ok().unwrap();
        assert!(matches!(rep.outcome, InsertOutcome::Ignored));
    }
    assert_eq!(h.get_total_count(), 0);
}

#[test]
fn same_hash_refreshes_record() {
    let mut h = ClipboardHistory::new();
    h.insert_with_hash("text/plain", b"a", "ha", 10).ok().unwrap();
    h.insert_with_hash("text/plain", b"b", "hb", 20).ok().unwrap();
    let rep = h.insert_with_hash("text/plain", b"a", "ha", 30).ok().unwrap();
    assert!(matches!(rep.outcome, InsertOutcome::Refreshed { id: 1 }));
    assert_eq!(h.get_total_count(), 2);
    assert_eq!(ids(&h), vec![1, 2]);
    assert_eq!(h.latest().unwrap().timestamp, 30);
    assert_eq!(h.last_id(), 2);
}

#[test]
fn insert_twice_is_insert_once() {
    let mut once = ClipboardHistory::new();
    once.insert_with_hash("text/plain", b"x", "hx", 10).ok().unwrap();
    once.insert_with_hash("text/plain", b"y", "hy", 20).ok().unwrap();
    let mut twice = ClipboardHistory::new();
    twice.insert_with_hash("text/plain", b"x", "hx", 10).ok().unwrap();
    twice.insert_with_hash("text/plain", b"y", "hy", 20).ok().unwrap();
    twice.insert_with_hash("text/plain", b"y", "hy", 20).ok().unwrap();
    assert_eq!(ids(&once), ids(&twice));
    assert_eq!(once.last_id(), twice.last_id());
}

#[test]
fn history_keeps_the_newest_records() {
    let mut h = ClipboardHistory::new();
    let mut evicted = Vec::new();
    for i in 0..(MAX_HISTORY as i64 + 3) {
        let data = format!("item {}", i);
        let rep = h.insert_raw("text/plain", data.as_bytes(), 100 + i).ok().unwrap();
        for e in rep.evicted {
            evicted.push(e.id);
        }
    }
    assert_eq!(h.get_total_count(), MAX_HISTORY);
    assert_eq!(evicted, vec![1, 2, 3]);
    let all = ids(&h);
    assert_eq!(all[0], MAX_HISTORY as i64 + 3);
    assert_eq!(*all.last().unwrap(), 4);
}

#[test]
fn record_older_than_the_history_is_evicted_at_once() {
    let mut h = ClipboardHistory::new();
    for i in 0..(MAX_HISTORY as i64) {
        h.insert_with_hash("text/plain", b"z", &format!("h{}", i), 1000 + i).ok().unwrap();
    }
    let rep = h.insert_with_hash("text/plain", b"old", "old", 1).ok().unwrap();
    assert!(matches!(rep.outcome, InsertOutcome::Added { .. }));
    assert_eq!(rep.evicted.len(), 1);
    assert_eq!(rep.evicted[0].hash, "old");
    assert_eq!(h.get_total_count(), MAX_HISTORY);
}

#[test]
fn insert_raw_uses_md5_hex() {
    let mut h = ClipboardHistory::new();
    h.insert_raw("text/plain", b"hello", 1).ok().unwrap();
    assert_eq!(h.latest().unwrap().hash, "5d41402abc4b2a76b9719d911017c592");
    assert_eq!(content_hash(b"hello"), "5d41402abc4b2a76b9719d911017c592");
}

#[test]
fn fetch_metadata_is_newest_first_and_limited() {
    let mut h = ClipboardHistory::new();
    h.insert_with_hash("text/plain", b"1", "a", 30).ok().unwrap();
    h.insert_with_hash("text/plain", b"2", "b", 10).ok().unwrap();
    h.insert_with_hash("text/plain", b"3", "c", 20).ok().unwrap();
    let top = h.fetch_metadata(2);
    assert_eq!(top.len(), 2);
    assert_eq!(top[0].id, 1);
    assert_eq!(top[1].id, 3);
    assert_eq!(h.fetch_metadata(10).len(), 3);
}

#[test]
fn equal_timestamps_order_by_id() {
    let mut h = ClipboardHistory::new();
    h.insert_with_hash("text/plain", b"1", "a", 5).ok().unwrap();
    h.insert_with_hash("text/plain", b"2", "b", 5).ok().unwrap();
    assert_eq!(ids(&h), vec![2, 1]);
}

#[test]
fn update_timestamp_moves_record() {
    let mut h = ClipboardHistory::new();
    h.insert_with_hash("text/plain", b"1", "a", 10).ok().unwrap();
    h.insert_with_hash("text/plain", b"2", "b", 20).ok().unwrap();
    assert!(h.update_timestamp(1, 30));
    assert_eq!(ids(&h), vec![1, 2]);
    assert!(!h.update_timestamp(99, 40));
    assert_eq!(h.get_total_count(), 2);
}

#[test]
fn delete_by_id_removes_only_that_record() {
    let mut h = ClipboardHistory::new();
    h.insert_with_hash("text/plain", b"1", "a", 10).ok().unwrap();
    h.insert_with_hash("text/plain", b"2", "b", 20).ok().unwrap();
    let gone = h.delete_by_id(1).unwrap();
    assert_eq!(gone.hash, "a");
    assert_eq!(ids(&h), vec![2]);
    assert!(h.delete_by_id(1).is_none());
    assert!(h.find_by_id(1).is_none());
}

#[test]
fn wipe_empties_and_ids_are_not_reused() {
    let mut h = ClipboardHistory::new();
    h.insert_with_hash("text/plain", b"1", "a", 10).ok().unwrap();
    h.wipe();
    assert_eq!(h.get_total_count(), 0);
    let rep = h.insert_with_hash("text/plain", b"1", "a", 11).ok().unwrap();
    assert!(matches!(rep.outcome, InsertOutcome::Added { id: 2 }));
}

#[test]
fn from_rows_sorts_and_checks() {
    let rows = vec![entry(3, 5, "c"), entry(1, 9, "a"), entry(2, 7, "b")];
    let h = ClipboardHistory::from_rows(rows, 10).unwrap();
    assert_eq!(ids(&h), vec![1, 2, 3]);
    assert_eq!(h.last_id(), 10);
    let h = ClipboardHistory::from_rows(vec![entry(12, 1, "x")], 10).unwrap();
    assert_eq!(h.last_id(), 12);
    assert!(ClipboardHistory::from_rows(vec![entry(1, 1, "x"), entry(1, 2, "y")], 5).is_none());
    assert!(ClipboardHistory::from_rows(vec![entry(1, 1, "x"), entry(2, 2, "x")], 5).is_none());
}

#[test]
fn ids_exhausted_is_an_error() {
    let mut h = ClipboardHistory::from_rows(vec![entry(i64::MAX, 1, "x")], 0).unwrap();
    assert!(h.insert_with_hash("text/plain", b"new", "y", 2).is_err());
    assert_eq!(h.get_total_count(), 1);
    assert!(h.insert_with_hash("text/plain", b"old", "x", 3).is_ok());
}

#[test]
fn inline_content_location() {
    let mut h = ClipboardHistory::new();
    h.insert_with_hash("text/plain", b"1", "a", 10).ok().unwrap();
    assert!(matches!(h.locate_content(1), Some(ContentLocation::Inline)));
    assert!(h.locate_content(2).is_none());
}
