use item_write_lambda::message::{ChunkOutcome, DomainRecord, InboundMessage, UnprocessedEntry};
use item_write_lambda::pipeline::{run_checked, Pipeline};

fn valid_body(item: &str) -> String {
    format!("{{\"item_id\":\"{item}\"}}")
}

fn valid_message(id: &str, item: &str) -> InboundMessage {
    InboundMessage { message_id: id.to_string(), body: Some(valid_body(item)) }
}

fn unprocessed(item: &str) -> UnprocessedEntry {
    UnprocessedEntry::Decoded(DomainRecord {
        item_id: item.to_string(),
        payload: valid_body(item),
    })
}

#[test]
fn mixed_batch_reports_exactly_the_decode_failures() {
    let messages = vec![
        valid_message("msg-a", "item-a"),
        InboundMessage { message_id: "msg-b".to_string(), body: None },
        InboundMessage { message_id: "msg-c".to_string(), body: Some("{oops".to_string()) },
    ];
    let outcomes = vec![ChunkOutcome::Completed(Vec::new())];
    let report = run_checked(&messages, 25, &outcomes).expect("one chunk, one outcome");
    assert_eq!(report, vec!["msg-b".to_string(), "msg-c".to_string()]);
}

#[test]
fn unprocessed_entries_report_exactly_their_messages() {
    let messages: Vec<InboundMessage> =
        (0..30).map(|i| valid_message(&format!("msg-{i}"), &format!("item-{i}"))).collect();
    let outcomes = vec![
        ChunkOutcome::Completed(vec![unprocessed("item-3"), unprocessed("item-17")]),
        ChunkOutcome::Completed(Vec::new()),
    ];
    let report = run_checked(&messages, 25, &outcomes).expect("two chunks, two outcomes");
    assert_eq!(report, vec!["msg-3".to_string(), "msg-17".to_string()]);
}

#[test]
fn hard_failed_chunk_reports_every_message_of_the_chunk() {
    let messages: Vec<InboundMessage> =
        (0..5).map(|i| valid_message(&format!("msg-{i}"), &format!("item-{i}"))).collect();
    let outcomes = vec![ChunkOutcome::Failed];
    let report = run_checked(&messages, 25, &outcomes).expect("one chunk, one outcome");
    let expected: Vec<String> = (0..5).map(|i| format!("msg-{i}")).collect();
    assert_eq!(report, expected);
}

#[test]
fn fully_committed_batch_reports_nothing() {
    let messages: Vec<InboundMessage> =
        (0..4).map(|i| valid_message(&format!("msg-{i}"), &format!("item-{i}"))).collect();
    let outcomes = vec![ChunkOutcome::Completed(Vec::new())];
    let report = run_checked(&messages, 25, &outcomes).expect("one chunk, one outcome");
    assert!(report.is_empty());
}

#[test]
fn empty_batch_needs_no_outcomes_and_reports_nothing() {
    let messages = Vec::new();
    let outcomes = Vec::new();
    let report = run_checked(&messages, 25, &outcomes).expect("no chunks, no outcomes");
    assert!(report.is_empty());
}

#[test]
fn store_entry_never_sent_is_dropped_not_retried() {
    let messages = vec![valid_message("msg-0", "item-0")];
    let outcomes = vec![ChunkOutcome::Completed(vec![unprocessed("item-unknown")])];
    let report = run_checked(&messages, 25, &outcomes).expect("one chunk, one outcome");
    assert!(report.is_empty());
}

#[test]
fn undecodable_store_entry_is_dropped_not_retried() {
    let messages = vec![valid_message("msg-0", "item-0")];
    let outcomes = vec![ChunkOutcome::Completed(vec![UnprocessedEntry::Undecodable])];
    let report = run_checked(&messages, 25, &outcomes).expect("one chunk, one outcome");
    assert!(report.is_empty());
}

#[test]
fn duplicate_item_ids_retry_only_the_last_message() {
    let messages = vec![valid_message("msg-0", "item-dup"), valid_message("msg-1", "item-dup")];
    let outcomes = vec![ChunkOutcome::Completed(vec![unprocessed("item-dup")])];
    let report = run_checked(&messages, 25, &outcomes).expect("one chunk, one outcome");
    assert_eq!(report, vec!["msg-1".to_string()]);
}

#[test]
fn outcome_count_mismatch_yields_no_report() {
    let messages = vec![valid_message("msg-0", "item-0")];
    let outcomes = Vec::new();
    assert_eq!(run_checked(&messages, 25, &outcomes), None);
}

#[test]
fn decode_failures_and_write_failures_combine() {
    let messages = vec![
        valid_message("msg-0", "item-0"),
        InboundMessage { message_id: "msg-1".to_string(), body: None },
        valid_message("msg-2", "item-2"),
    ];
    let outcomes = vec![ChunkOutcome::Failed];
    let report = run_checked(&messages, 25, &outcomes).expect("one chunk, one outcome");
    assert_eq!(report, vec!["msg-1".to_string(), "msg-0".to_string(), "msg-2".to_string()]);
}

#[test]
fn pipeline_can_be_driven_chunk_by_chunk() {
    let messages: Vec<InboundMessage> =
        (0..5).map(|i| valid_message(&format!("msg-{i}"), &format!("item-{i}"))).collect();
    let mut pipeline = Pipeline::prepare(&messages, 2);
    assert_eq!(pipeline.chunk_count(), 3);
    let mut seen = Vec::new();
    while pipeline.applied_count() < pipeline.chunk_count() {
        let chunk = pipeline.next_chunk();
        assert!(chunk.len() <= 2);
        for rec in chunk {
            seen.push(rec.item_id.clone());
        }
        let outcome = if pipeline.applied_count() == 1 {
            ChunkOutcome::Failed
        } else {
            ChunkOutcome::Completed(Vec::new())
        };
        pipeline.apply_outcome(&outcome);
    }
    let expected_order: Vec<String> = (0..5).map(|i| format!("item-{i}")).collect();
    assert_eq!(seen, expected_order);
    let report = pipeline.into_report();
    assert_eq!(report, vec!["msg-2".to_string(), "msg-3".to_string()]);
}
