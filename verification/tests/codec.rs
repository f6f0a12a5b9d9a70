use item_write_lambda::codec::{decode, DecodeError};

#[test]
fn absent_body_is_empty_body_error() {
    let r = decode(&None);
    assert_eq!(r, Err(DecodeError::EmptyBody));
}

#[test]
fn malformed_text_is_malformed_error() {
    let r = decode(&Some("not a record".to_string()));
    assert_eq!(r, Err(DecodeError::Malformed));
}

#[test]
fn json_without_item_id_is_malformed_error() {
    let r = decode(&Some("{\"name\":\"lamp\"}".to_string()));
    assert_eq!(r, Err(DecodeError::Malformed));
}

#[test]
fn json_with_non_string_item_id_is_malformed_error() {
    let r = decode(&Some("{\"item_id\":7}".to_string()));
    assert_eq!(r, Err(DecodeError::Malformed));
}

#[test]
fn valid_body_yields_record_with_its_item_id() {
    let body = "{\"item_id\":\"item-7\",\"name\":\"lamp\"}".to_string();
    let r = decode(&Some(body.clone()));
    let rec = r.expect("a well-formed body must decode");
    assert_eq!(rec.item_id, "item-7");
    assert_eq!(rec.payload, body);
}

#[test]
fn empty_string_body_is_malformed_error() {
    let r = decode(&Some(String::new()));
    assert_eq!(r, Err(DecodeError::Malformed));
}
