use zenkat::protocol::{ZkRequest, ZkRequestType, ZkResponse};

#[test]
fn new_requests_carry_their_kind_and_no_data() {
    let r = ZkRequest::new(ZkRequestType::Query);
    assert_eq!(r.request_type, ZkRequestType::Query);
    assert!(r.data.is_empty());
}

#[test]
fn request_parameters_are_plain_key_value_pairs() {
    let mut r = ZkRequest::new(ZkRequestType::ZkLoad);
    r.data.insert("tree".to_string(), "notes".to_string());
    assert_eq!(r.data.get("tree"), Some(&"notes".to_string()));
    assert_eq!(r.data.len(), 1);
}

#[test]
fn new_responses_are_empty() {
    let r = ZkResponse::new();
    assert!(r.data.is_empty());
}
