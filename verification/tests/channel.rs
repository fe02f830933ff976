use rust_kad::channel::receive;
use rust_kad::channel::send;
use rust_kad::channel::ReceiveError;
use rust_kad::frame::encode_frame;
use rust_kad::frame::FrameError;
use rust_kad::frame::FrameReader;
use rust_kad::frame::DEFAULT_MAX_FRAME_LEN;
use rust_kad::message::Config;
use rust_kad::message::DecodeError;
use rust_kad::message::Message;
use rust_kad::message::Request;
use rust_kad::message::Response;

fn framed<T: Message>(message: &T) -> Vec<u8> {
    send(message, DEFAULT_MAX_FRAME_LEN).unwrap()
}

#[test]
fn configuration_comes_first_and_requests_follow() {
    let config = Config {
        protocol_ids: vec!["/kad".to_string()],
        bootstrap_addresses: vec![],
        quorum: 2,
        idle_timeout_seconds: 30,
    };
    let get = Request { key: b"k".to_vec(), put_value: None };
    let put = Request { key: b"k".to_vec(), put_value: Some(b"v".to_vec()) };
    let mut reader = FrameReader::new(DEFAULT_MAX_FRAME_LEN);
    reader.push(&framed(&config));
    reader.push(&framed(&get));
    reader.push(&framed(&put));
    assert_eq!(receive::<Config>(&mut reader, false), Ok(Some(config)));
    assert_eq!(receive::<Request>(&mut reader, false), Ok(Some(get)));
    assert_eq!(receive::<Request>(&mut reader, false), Ok(Some(put)));
    assert_eq!(receive::<Request>(&mut reader, false), Ok(None));
}

#[test]
fn receive_waits_for_the_whole_frame() {
    let request = Request { key: vec![1, 2, 3], put_value: None };
    let frame = framed(&request);
    let mut reader = FrameReader::new(DEFAULT_MAX_FRAME_LEN);
    reader.push(&frame[..frame.len() - 1]);
    assert_eq!(receive::<Request>(&mut reader, false), Ok(None));
    assert_eq!(reader.pending_len(), frame.len() - 1);
    reader.push(&frame[frame.len() - 1..]);
    assert_eq!(receive::<Request>(&mut reader, false), Ok(Some(request)));
    assert_eq!(reader.pending_len(), 0);
}

#[test]
fn frame_that_holds_no_message_is_a_decode_error() {
    let mut reader = FrameReader::new(DEFAULT_MAX_FRAME_LEN);
    reader.push(&encode_frame(&[4, b'k', 7], DEFAULT_MAX_FRAME_LEN).unwrap());
    reader.push(&framed(&Request { key: vec![], put_value: None }));
    assert_eq!(
        receive::<Request>(&mut reader, false),
        Err(ReceiveError::Decode(DecodeError::Malformed))
    );
    assert_eq!(receive::<Request>(&mut reader, false), Ok(Some(Request { key: vec![], put_value: None })));
}

#[test]
fn empty_frame_is_no_request() {
    let mut reader = FrameReader::new(DEFAULT_MAX_FRAME_LEN);
    reader.push(&[0, 0, 0, 0]);
    assert_eq!(
        receive::<Request>(&mut reader, false),
        Err(ReceiveError::Decode(DecodeError::Malformed))
    );
}

#[test]
fn oversized_frame_is_a_frame_error() {
    let mut reader = FrameReader::new(16);
    reader.push(&[17, 0, 0, 0]);
    assert_eq!(receive::<Request>(&mut reader, false), Err(ReceiveError::Frame(FrameError::TooLong)));
    assert_eq!(reader.pending_len(), 4);
}

#[test]
fn kind_of_message_follows_from_what_is_asked_for() {
    let response = Response { key: b"k".to_vec(), values: vec![] };
    let mut reader = FrameReader::new(DEFAULT_MAX_FRAME_LEN);
    reader.push(&framed(&response));
    reader.push(&framed(&response));
    assert_eq!(receive::<Response>(&mut reader, false), Ok(Some(response)));
    assert_eq!(
        receive::<Request>(&mut reader, false),
        Ok(Some(Request { key: b"k".to_vec(), put_value: None }))
    );
}

#[test]
fn end_of_stream_between_frames_is_an_error() {
    let request = Request { key: vec![1], put_value: None };
    let mut reader = FrameReader::new(DEFAULT_MAX_FRAME_LEN);
    assert_eq!(receive::<Request>(&mut reader, true), Err(ReceiveError::EndOfStream));
    reader.push(&framed(&request));
    assert_eq!(receive::<Request>(&mut reader, true), Ok(Some(request)));
    assert_eq!(receive::<Request>(&mut reader, true), Err(ReceiveError::EndOfStream));
}

#[test]
fn end_of_stream_inside_a_frame_is_an_error() {
    let frame = framed(&Request { key: vec![1, 2, 3], put_value: None });
    for cut in 0..frame.len() {
        let mut reader = FrameReader::new(DEFAULT_MAX_FRAME_LEN);
        reader.push(&frame[..cut]);
        assert_eq!(receive::<Request>(&mut reader, false), Ok(None));
        assert_eq!(receive::<Request>(&mut reader, true), Err(ReceiveError::EndOfStream));
        assert_eq!(reader.pending_len(), cut);
    }
}

#[test]
fn sent_frame_is_length_then_encoding() {
    let response = Response { key: b"k".to_vec(), values: vec![b"v1".to_vec()] };
    assert_eq!(
        send(&response, DEFAULT_MAX_FRAME_LEN),
        Ok(vec![6, 0, 0, 0, 4, b'k', 4, 8, b'v', b'1'])
    );
    assert_eq!(
        send(&response, DEFAULT_MAX_FRAME_LEN),
        encode_frame(&response.encode(), DEFAULT_MAX_FRAME_LEN)
    );
}

#[test]
fn message_longer_than_the_limit_is_not_sent() {
    let response = Response { key: vec![0; 10], values: vec![] };
    assert_eq!(response.encode().len(), 12);
    assert_eq!(send(&response, 11), Err(FrameError::TooLong));
    assert!(send(&response, 12).is_ok());
}

#[test]
fn what_is_sent_is_received() {
    let responses = vec![
        Response { key: vec![], values: vec![] },
        Response { key: vec![1; 300], values: vec![vec![2; 70000], vec![], vec![3]] },
    ];
    let mut reader = FrameReader::new(DEFAULT_MAX_FRAME_LEN);
    for response in &responses {
        reader.push(&send(response, DEFAULT_MAX_FRAME_LEN).unwrap());
    }
    for response in responses {
        assert_eq!(receive::<Response>(&mut reader, false), Ok(Some(response)));
    }
    assert_eq!(receive::<Response>(&mut reader, false), Ok(None));
}

#[test]
fn frame_with_a_stray_byte_after_the_message_is_a_decode_error() {
    let mut reader = FrameReader::new(DEFAULT_MAX_FRAME_LEN);
    reader.push(&[0x04, 0, 0, 0, 0x04, 0x6b, 0x00, 0xff]);
    assert_eq!(
        receive::<Request>(&mut reader, false),
        Err(ReceiveError::Decode(DecodeError::Malformed))
    );
    assert_eq!(reader.pending_len(), 0);
    reader.push(&[0x03, 0, 0, 0, 0x04, 0x6b, 0x00]);
    assert_eq!(
        receive::<Request>(&mut reader, true),
        Ok(Some(Request { key: vec![0x6b], put_value: None }))
    );
}

#[test]
fn frame_that_goes_on_after_any_message_is_a_decode_error() {
    let config = Config {
        protocol_ids: vec!["/kad".to_string()],
        bootstrap_addresses: vec![],
        quorum: 2,
        idle_timeout_seconds: 30,
    };
    let response = Response { key: b"k".to_vec(), values: vec![b"v".to_vec()] };
    let put = Request { key: b"k".to_vec(), put_value: Some(b"v".to_vec()) };
    let mut payloads = vec![config.encode(), response.encode(), put.encode()];
    for payload in payloads.iter_mut() {
        payload.push(0);
    }
    let mut reader = FrameReader::new(DEFAULT_MAX_FRAME_LEN);
    for payload in &payloads {
        reader.push(&encode_frame(payload, DEFAULT_MAX_FRAME_LEN).unwrap());
    }
    let malformed = ReceiveError::Decode(DecodeError::Malformed);
    assert_eq!(receive::<Config>(&mut reader, false), Err(malformed));
    assert_eq!(receive::<Response>(&mut reader, false), Err(malformed));
    assert_eq!(receive::<Request>(&mut reader, false), Err(malformed));
    assert_eq!(receive::<Request>(&mut reader, true), Err(ReceiveError::EndOfStream));
}

#[test]
fn ended_stream_gives_a_message_exactly_for_a_whole_frame_that_holds_one() {
    let request = Request { key: vec![9, 9], put_value: Some(vec![]) };
    let payload = request.encode();
    let frame = encode_frame(&payload, DEFAULT_MAX_FRAME_LEN).unwrap();
    for cut in 0..frame.len() {
        let mut reader = FrameReader::new(DEFAULT_MAX_FRAME_LEN);
        reader.push(&frame[..cut]);
        assert_eq!(receive::<Request>(&mut reader, true), Err(ReceiveError::EndOfStream));
    }
    for cut in 0..payload.len() {
        let mut reader = FrameReader::new(DEFAULT_MAX_FRAME_LEN);
        reader.push(&encode_frame(&payload[..cut], DEFAULT_MAX_FRAME_LEN).unwrap());
        assert_eq!(
            receive::<Request>(&mut reader, true),
            Err(ReceiveError::Decode(DecodeError::Malformed))
        );
    }
    let mut reader = FrameReader::new(DEFAULT_MAX_FRAME_LEN);
    reader.push(&frame);
    assert_eq!(receive::<Request>(&mut reader, true), Ok(Some(request)));
    assert_eq!(receive::<Request>(&mut reader, true), Err(ReceiveError::EndOfStream));
}
