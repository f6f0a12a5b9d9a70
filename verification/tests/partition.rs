use item_write_lambda::message::DomainRecord;
use item_write_lambda::partition::{partition, MAX_BATCH_SIZE};

fn records(n: usize) -> Vec<DomainRecord> {
    (0..n)
        .map(|i| DomainRecord { item_id: format!("item-{i}"), payload: format!("payload-{i}") })
        .collect()
}

#[test]
fn store_batch_limit_is_twenty_five() {
    assert_eq!(MAX_BATCH_SIZE, 25);
}

#[test]
fn empty_input_has_no_chunks() {
    let chunks = partition(records(0), 3);
    assert!(chunks.is_empty());
}

#[test]
fn input_shorter_than_limit_is_one_chunk() {
    let chunks = partition(records(3), 5);
    assert_eq!(chunks.len(), 1);
    assert_eq!(chunks[0].len(), 3);
}

#[test]
fn input_equal_to_limit_is_one_full_chunk() {
    let chunks = partition(records(5), 5);
    assert_eq!(chunks.len(), 1);
    assert_eq!(chunks[0].len(), 5);
}

#[test]
fn chunks_keep_order_and_lose_nothing() {
    let chunks = partition(records(7), 3);
    assert_eq!(chunks.len(), 3);
    assert_eq!(chunks[0].len(), 3);
    assert_eq!(chunks[1].len(), 3);
    assert_eq!(chunks[2].len(), 1);
    let mut seen = Vec::new();
    for chunk in &chunks {
        for rec in chunk {
            seen.push(rec.item_id.clone());
        }
    }
    let expected: Vec<String> = (0..7).map(|i| format!("item-{i}")).collect();
    assert_eq!(seen, expected);
}

#[test]
fn chunk_count_is_ceiling_of_len_over_limit() {
    assert_eq!(partition(records(30), 25).len(), 2);
    assert_eq!(partition(records(25), 25).len(), 1);
    assert_eq!(partition(records(26), 25).len(), 2);
    assert_eq!(partition(records(50), 25).len(), 2);
    assert_eq!(partition(records(51), 25).len(), 3);
}
