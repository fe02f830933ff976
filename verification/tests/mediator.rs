use rust_kad::frame::encode_frame;
use rust_kad::frame::FrameReader;
use rust_kad::frame::DEFAULT_MAX_FRAME_LEN;
use rust_kad::mediator::Mediator;
use rust_kad::mediator::Progress;
use rust_kad::mediator::ProgressAction;
use rust_kad::mediator::RequestAction;
use rust_kad::message::Message;
use rust_kad::message::Request;
use rust_kad::model::QuorumPolicy;
use rust_kad::message::Response;

fn get(key: &[u8]) -> Request {
    Request { key: key.to_vec(), put_value: None }
}

fn put(key: &[u8], value: &[u8]) -> Request {
    Request { key: key.to_vec(), put_value: Some(value.to_vec()) }
}

fn found(id: u64, value: &[u8], count: usize, last: bool) -> Progress {
    Progress { id, found: Some(value.to_vec()), count, last }
}

fn nothing(id: u64, count: usize, last: bool) -> Progress {
    Progress { id, found: None, count, last }
}

fn quiet() -> ProgressAction {
    ProgressAction { finish: false, response: None }
}

#[test]
fn new_mediator_has_nothing_outstanding() {
    let mediator = Mediator::new(3);
    assert_eq!(mediator.quorum(), 3);
    assert!(!mediator.is_active(b"k"));
    assert_eq!(mediator.query_of(b"k"), None);
    assert!(!mediator.has_aggregator(0));
}

#[test]
fn first_get_starts_a_lookup() {
    let mut mediator = Mediator::new(2);
    assert_eq!(mediator.on_request(get(b"k")), RequestAction::Lookup { key: b"k".to_vec() });
    assert!(!mediator.is_active(b"k"));
    assert!(mediator.on_lookup_started(b"k".to_vec(), 7));
    assert!(mediator.is_active(b"k"));
    assert_eq!(mediator.query_of(b"k"), Some(7));
    assert!(mediator.has_aggregator(7));
}

#[test]
fn second_get_for_a_key_in_flight_starts_nothing() {
    let mut mediator = Mediator::new(2);
    assert_eq!(mediator.on_request(get(b"k")), RequestAction::Lookup { key: b"k".to_vec() });
    assert!(mediator.on_lookup_started(b"k".to_vec(), 1));
    assert_eq!(mediator.on_request(get(b"k")), RequestAction::Nothing);
    assert_eq!(mediator.on_request(get(b"k")), RequestAction::Nothing);
    assert_eq!(mediator.on_request(get(b"other")), RequestAction::Lookup { key: b"other".to_vec() });
    let action = mediator.on_progress(nothing(1, 1, true));
    assert_eq!(action.response, Some(Response { key: b"k".to_vec(), values: vec![] }));
    assert_eq!(mediator.on_progress(nothing(1, 2, true)), quiet());
    assert_eq!(mediator.on_request(get(b"k")), RequestAction::Lookup { key: b"k".to_vec() });
}

#[test]
fn recording_a_lookup_for_an_active_key_changes_nothing() {
    let mut mediator = Mediator::new(2);
    assert!(mediator.on_lookup_started(b"k".to_vec(), 1));
    assert!(!mediator.on_lookup_started(b"k".to_vec(), 2));
    assert_eq!(mediator.query_of(b"k"), Some(1));
    assert!(!mediator.has_aggregator(2));
}

#[test]
fn put_is_a_store_and_is_silent() {
    let mut mediator = Mediator::new(2);
    assert_eq!(
        mediator.on_request(put(b"k", b"v")),
        RequestAction::Store {
            key: b"k".to_vec(),
            value: b"v".to_vec(),
            quorum: QuorumPolicy::All,
        }
    );
    assert!(!mediator.is_active(b"k"));
    assert!(mediator.on_lookup_started(b"k".to_vec(), 1));
    assert_eq!(
        mediator.on_request(put(b"k", b"w")),
        RequestAction::Store {
            key: b"k".to_vec(),
            value: b"w".to_vec(),
            quorum: QuorumPolicy::All,
        }
    );
    assert_eq!(mediator.query_of(b"k"), Some(1));
    let action = mediator.on_progress(nothing(1, 1, true));
    assert_eq!(action.response, Some(Response { key: b"k".to_vec(), values: vec![] }));
}

#[test]
fn repeated_value_is_kept_once() {
    let mut mediator = Mediator::new(2);
    assert!(mediator.on_lookup_started(b"k".to_vec(), 5));
    assert_eq!(mediator.on_progress(found(5, b"v1", 1, false)), quiet());
    assert_eq!(
        mediator.on_progress(found(5, b"v1", 2, false)),
        ProgressAction { finish: true, response: None }
    );
    assert_eq!(
        mediator.on_progress(nothing(5, 3, true)),
        ProgressAction {
            finish: false,
            response: Some(Response { key: b"k".to_vec(), values: vec![b"v1".to_vec()] }),
        }
    );
    assert!(!mediator.is_active(b"k"));
    assert!(!mediator.has_aggregator(5));
}

#[test]
fn values_keep_the_order_in_which_they_were_first_found() {
    let mut mediator = Mediator::new(10);
    assert!(mediator.on_lookup_started(b"k".to_vec(), 1));
    for (count, value) in [b"b", b"a", b"b", b"c", b"a"].iter().enumerate() {
        assert_eq!(mediator.on_progress(found(1, &value[..], count + 1, false)), quiet());
    }
    let action = mediator.on_progress(found(1, b"", 6, true));
    assert_eq!(
        action.response,
        Some(Response {
            key: b"k".to_vec(),
            values: vec![b"b".to_vec(), b"a".to_vec(), b"c".to_vec(), vec![]],
        })
    );
}

#[test]
fn lookup_that_finds_nothing_is_answered_with_no_values() {
    let mut mediator = Mediator::new(2);
    assert!(mediator.on_lookup_started(b"missing".to_vec(), 9));
    assert_eq!(mediator.on_progress(nothing(9, 1, false)), quiet());
    assert_eq!(
        mediator.on_progress(nothing(9, 2, true)),
        ProgressAction {
            finish: false,
            response: Some(Response { key: b"missing".to_vec(), values: vec![] }),
        }
    );
}

#[test]
fn finish_is_requested_from_the_quorum_on() {
    let mut mediator = Mediator::new(3);
    assert!(mediator.on_lookup_started(b"k".to_vec(), 1));
    assert!(!mediator.on_progress(found(1, b"a", 1, false)).finish);
    assert!(!mediator.on_progress(found(1, b"b", 2, false)).finish);
    assert!(mediator.on_progress(found(1, b"c", 3, false)).finish);
    assert!(mediator.on_progress(found(1, b"d", 4, false)).finish);
    assert!(!mediator.on_progress(nothing(1, 5, false)).finish);
    let action = mediator.on_progress(found(1, b"e", 6, true));
    assert!(action.finish);
    assert_eq!(
        action.response,
        Some(Response {
            key: b"k".to_vec(),
            values: vec![b"a".to_vec(), b"b".to_vec(), b"c".to_vec(), b"d".to_vec(), b"e".to_vec()],
        })
    );
}

#[test]
fn quorum_of_zero_finishes_on_the_first_value() {
    let mut mediator = Mediator::new(0);
    assert!(mediator.on_lookup_started(b"k".to_vec(), 1));
    assert!(!mediator.on_progress(nothing(1, 1, false)).finish);
    assert!(mediator.on_progress(found(1, b"a", 1, false)).finish);
}

#[test]
fn value_for_an_unknown_query_asks_to_finish_and_sends_nothing() {
    let mut mediator = Mediator::new(100);
    assert_eq!(
        mediator.on_progress(found(42, b"v", 1, false)),
        ProgressAction { finish: true, response: None }
    );
    assert_eq!(
        mediator.on_progress(found(42, b"v", 2, true)),
        ProgressAction { finish: true, response: None }
    );
    assert_eq!(mediator.on_progress(nothing(42, 3, true)), quiet());
    assert!(!mediator.has_aggregator(42));
}

#[test]
fn reports_after_the_last_one_are_tolerated() {
    let mut mediator = Mediator::new(1);
    assert!(mediator.on_lookup_started(b"k".to_vec(), 1));
    let action = mediator.on_progress(found(1, b"v", 1, true));
    assert!(action.finish);
    assert_eq!(action.response, Some(Response { key: b"k".to_vec(), values: vec![b"v".to_vec()] }));
    assert_eq!(
        mediator.on_progress(found(1, b"w", 2, false)),
        ProgressAction { finish: true, response: None }
    );
    assert_eq!(mediator.on_progress(nothing(1, 3, true)), quiet());
    assert!(!mediator.is_active(b"k"));
}

#[test]
fn responses_come_in_the_order_in_which_lookups_end() {
    let mut mediator = Mediator::new(5);
    assert!(mediator.on_lookup_started(b"first".to_vec(), 1));
    assert!(mediator.on_lookup_started(b"second".to_vec(), 2));
    assert_eq!(mediator.on_progress(found(1, b"a", 1, false)), quiet());
    assert_eq!(mediator.on_progress(found(2, b"b", 1, false)), quiet());
    let second = mediator.on_progress(nothing(2, 2, true));
    assert_eq!(
        second.response,
        Some(Response { key: b"second".to_vec(), values: vec![b"b".to_vec()] })
    );
    assert!(mediator.is_active(b"first"));
    assert!(!mediator.is_active(b"second"));
    let first = mediator.on_progress(nothing(1, 2, true));
    assert_eq!(first.response, Some(Response { key: b"first".to_vec(), values: vec![b"a".to_vec()] }));
    assert!(!mediator.is_active(b"first"));
}

#[test]
fn key_can_be_looked_up_again_after_its_response() {
    let mut mediator = Mediator::new(2);
    assert!(mediator.on_lookup_started(b"k".to_vec(), 1));
    assert_eq!(mediator.on_progress(found(1, b"old", 1, false)), quiet());
    assert!(mediator.on_progress(nothing(1, 2, true)).response.is_some());
    assert_eq!(mediator.on_request(get(b"k")), RequestAction::Lookup { key: b"k".to_vec() });
    assert!(mediator.on_lookup_started(b"k".to_vec(), 2));
    let action = mediator.on_progress(nothing(2, 1, true));
    assert_eq!(action.response, Some(Response { key: b"k".to_vec(), values: vec![] }));
}

#[test]
fn keys_are_compared_byte_by_byte() {
    let mut mediator = Mediator::new(2);
    assert!(mediator.on_lookup_started(vec![], 1));
    assert!(mediator.on_lookup_started(vec![0], 2));
    assert!(mediator.on_lookup_started(vec![0, 0], 3));
    assert_eq!(mediator.query_of(&[]), Some(1));
    assert_eq!(mediator.query_of(&[0]), Some(2));
    assert_eq!(mediator.query_of(&[0, 0]), Some(3));
    assert_eq!(mediator.query_of(&[1]), None);
    assert_eq!(mediator.on_progress(found(2, &[0], 1, false)), quiet());
    assert_eq!(mediator.on_progress(found(2, &[0, 0], 2, false)).finish, true);
    let action = mediator.on_progress(found(2, &[], 3, true));
    assert_eq!(action.response, Some(Response { key: vec![0], values: vec![vec![0], vec![0, 0], vec![]] }));
    assert_eq!(mediator.query_of(&[]), Some(1));
    assert_eq!(mediator.query_of(&[0]), None);
    assert_eq!(mediator.query_of(&[0, 0]), Some(3));
}

#[test]
fn conversation_over_frames() {
    let mut reader = FrameReader::new(DEFAULT_MAX_FRAME_LEN);
    let mut stream = Vec::new();
    for request in [get(b"k"), put(b"k", b"v1"), get(b"k")] {
        stream.extend(encode_frame(&request.encode(), DEFAULT_MAX_FRAME_LEN).unwrap());
    }
    reader.push(&stream);
    let mut mediator = Mediator::new(2);
    let mut actions = Vec::new();
    while let Some(payload) = reader.next_frame().unwrap() {
        let action = mediator.on_request(Request::decode(&payload).unwrap());
        if let RequestAction::Lookup { key } = &action {
            assert!(mediator.on_lookup_started(key.clone(), 11));
        }
        actions.push(action);
    }
    assert_eq!(
        actions,
        vec![
            RequestAction::Lookup { key: b"k".to_vec() },
            RequestAction::Store {
                key: b"k".to_vec(),
                value: b"v1".to_vec(),
                quorum: QuorumPolicy::All,
            },
            RequestAction::Nothing,
        ]
    );
    assert_eq!(mediator.on_progress(found(11, b"v1", 1, false)), quiet());
    assert!(mediator.on_progress(found(11, b"v1", 2, false)).finish);
    let response = mediator.on_progress(nothing(11, 3, true)).response.unwrap();
    let frame = encode_frame(&response.encode(), DEFAULT_MAX_FRAME_LEN).unwrap();
    assert_eq!(frame, vec![6, 0, 0, 0, 4, b'k', 4, 8, b'v', b'1']);
}
