use item_write_lambda::correlate::{resolve_chunk_error, resolve_unprocessed, CorrelationMap};
use item_write_lambda::message::{DomainRecord, UnprocessedEntry};

fn record(item: &str) -> DomainRecord {
    DomainRecord { item_id: item.to_string(), payload: format!("{{\"item_id\":\"{item}\"}}") }
}

#[test]
fn resolve_returns_and_consumes_the_entry() {
    let mut map = CorrelationMap::new();
    map.register("item-1".to_string(), "msg-1".to_string());
    assert!(map.contains("item-1"));
    assert_eq!(map.resolve("item-1"), Some("msg-1".to_string()));
    assert!(!map.contains("item-1"));
    assert_eq!(map.resolve("item-1"), None);
}

#[test]
fn resolve_of_unknown_item_is_none() {
    let mut map = CorrelationMap::new();
    map.register("item-1".to_string(), "msg-1".to_string());
    assert_eq!(map.resolve("item-2"), None);
    assert!(map.contains("item-1"));
}

#[test]
fn later_registration_replaces_earlier_one() {
    let mut map = CorrelationMap::new();
    map.register("item-1".to_string(), "msg-1".to_string());
    map.register("item-1".to_string(), "msg-2".to_string());
    assert_eq!(map.resolve("item-1"), Some("msg-2".to_string()));
    assert_eq!(map.resolve("item-1"), None);
}

#[test]
fn unprocessed_entries_resolve_to_message_ids() {
    let mut map = CorrelationMap::new();
    map.register("item-1".to_string(), "msg-1".to_string());
    map.register("item-2".to_string(), "msg-2".to_string());
    let entries = vec![UnprocessedEntry::Decoded(record("item-2"))];
    let mut failures = Vec::new();
    resolve_unprocessed(&entries, &mut map, &mut failures);
    assert_eq!(failures, vec!["msg-2".to_string()]);
    assert!(map.contains("item-1"));
    assert!(!map.contains("item-2"));
}

#[test]
fn undecodable_entry_is_dropped() {
    let mut map = CorrelationMap::new();
    map.register("item-1".to_string(), "msg-1".to_string());
    let entries = vec![UnprocessedEntry::Undecodable];
    let mut failures = Vec::new();
    resolve_unprocessed(&entries, &mut map, &mut failures);
    assert!(failures.is_empty());
    assert!(map.contains("item-1"));
}

#[test]
fn unknown_unprocessed_entry_is_dropped() {
    let mut map = CorrelationMap::new();
    map.register("item-1".to_string(), "msg-1".to_string());
    let entries = vec![UnprocessedEntry::Decoded(record("item-9"))];
    let mut failures = Vec::new();
    resolve_unprocessed(&entries, &mut map, &mut failures);
    assert!(failures.is_empty());
}

#[test]
fn repeated_entry_resolves_only_once() {
    let mut map = CorrelationMap::new();
    map.register("item-1".to_string(), "msg-1".to_string());
    let entries = vec![
        UnprocessedEntry::Decoded(record("item-1")),
        UnprocessedEntry::Decoded(record("item-1")),
    ];
    let mut failures = Vec::new();
    resolve_unprocessed(&entries, &mut map, &mut failures);
    assert_eq!(failures, vec!["msg-1".to_string()]);
}

#[test]
fn chunk_error_resolves_every_record_of_the_chunk() {
    let mut map = CorrelationMap::new();
    map.register("item-1".to_string(), "msg-1".to_string());
    map.register("item-2".to_string(), "msg-2".to_string());
    map.register("item-3".to_string(), "msg-3".to_string());
    let chunk = vec![record("item-1"), record("item-3")];
    let mut failures = Vec::new();
    resolve_chunk_error(&chunk, &mut map, &mut failures);
    assert_eq!(failures, vec!["msg-1".to_string(), "msg-3".to_string()]);
    assert!(map.contains("item-2"));
}
