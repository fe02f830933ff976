use parity_scale_codec::Decode;
use parity_scale_codec::Encode;
use rust_kad::message::decode_all;
use rust_kad::message::Config;
use rust_kad::message::DecodeError;
use rust_kad::message::Message;
use rust_kad::message::Request;
use rust_kad::message::Response;

fn sample_config() -> Config {
    Config {
        protocol_ids: vec!["/ipfs/kad/1.0.0".to_string(), "/dot/kad".to_string()],
        bootstrap_addresses: vec!["/ip4/127.0.0.1/tcp/4001".to_string()],
        quorum: 2,
        idle_timeout_seconds: 300,
    }
}

#[test]
fn get_request_is_key_then_absent_flag() {
    let request = Request { key: b"k".to_vec(), put_value: None };
    assert!(request.is_encodable());
    assert_eq!(request.encode(), vec![4, b'k', 0]);
}

#[test]
fn put_request_is_key_then_present_flag_then_value() {
    let request = Request { key: b"k".to_vec(), put_value: Some(b"v1".to_vec()) };
    assert_eq!(request.encode(), vec![4, b'k', 1, 8, b'v', b'1']);
}

#[test]
fn request_round_trips() {
    for request in [
        Request { key: vec![], put_value: None },
        Request { key: vec![], put_value: Some(vec![]) },
        Request { key: vec![1; 70], put_value: Some(vec![2; 20000]) },
        Request { key: vec![3; 16384], put_value: None },
    ] {
        assert_eq!(Request::decode(&request.encode()), Ok(request));
    }
}

#[test]
fn request_decoder_ignores_what_follows_the_request() {
    let request = Request { key: b"k".to_vec(), put_value: None };
    let mut bytes = request.encode();
    bytes.extend([1, 2, 3]);
    assert_eq!(Request::decode(&bytes), Ok(request));
}

#[test]
fn request_decoder_refuses_malformed_input() {
    assert_eq!(Request::decode(&[]), Err(DecodeError::Malformed));
    assert_eq!(Request::decode(&[4]), Err(DecodeError::Malformed));
    assert_eq!(Request::decode(&[4, b'k']), Err(DecodeError::Malformed));
    assert_eq!(Request::decode(&[4, b'k', 2]), Err(DecodeError::Malformed));
    assert_eq!(Request::decode(&[4, b'k', 1]), Err(DecodeError::Malformed));
    assert_eq!(Request::decode(&[4, b'k', 1, 8, b'v']), Err(DecodeError::Malformed));
    assert_eq!(Request::decode(&[1, 0, 0]), Err(DecodeError::Malformed));
}

#[test]
fn every_cut_of_a_request_is_refused() {
    let request = Request { key: vec![7; 80], put_value: Some(vec![8; 90]) };
    let bytes = request.encode();
    for cut in 0..bytes.len() {
        assert_eq!(Request::decode(&bytes[..cut]), Err(DecodeError::Malformed));
    }
    assert_eq!(Request::decode(&bytes), Ok(request));
}

#[test]
fn response_is_key_then_values() {
    let response = Response { key: b"k".to_vec(), values: vec![b"v1".to_vec()] };
    assert!(response.is_encodable());
    assert_eq!(response.encode(), vec![4, b'k', 4, 8, b'v', b'1']);
}

#[test]
fn empty_response_is_key_then_zero() {
    let response = Response { key: b"k".to_vec(), values: vec![] };
    assert_eq!(response.encode(), vec![4, b'k', 0]);
}

#[test]
fn response_round_trips() {
    for response in [
        Response { key: vec![], values: vec![] },
        Response { key: vec![1, 2], values: vec![vec![], vec![3], vec![4; 100]] },
        Response { key: vec![5; 64], values: vec![vec![6]; 70] },
    ] {
        assert_eq!(Response::decode(&response.encode()), Ok(response));
    }
}

#[test]
fn response_decoder_refuses_malformed_input() {
    assert_eq!(Response::decode(&[]), Err(DecodeError::Malformed));
    assert_eq!(Response::decode(&[4, b'k']), Err(DecodeError::Malformed));
    assert_eq!(Response::decode(&[4, b'k', 4]), Err(DecodeError::Malformed));
    assert_eq!(Response::decode(&[4, b'k', 8, 0]), Err(DecodeError::Malformed));
    assert_eq!(Response::decode(&[4, b'k', 4, 8, b'v']), Err(DecodeError::Malformed));
}

#[test]
fn config_is_two_text_sequences_then_two_numbers() {
    let config = Config {
        protocol_ids: vec!["/a".to_string()],
        bootstrap_addresses: vec![],
        quorum: 2,
        idle_timeout_seconds: 0x0102,
    };
    assert!(config.is_encodable());
    assert_eq!(config.encode(), vec![4, 8, b'/', b'a', 0, 2, 0, 0, 0, 2, 1, 0, 0]);
}

#[test]
fn config_round_trips() {
    let config = sample_config();
    assert_eq!(Config::decode(&config.encode()), Ok(config));
    let empty = Config {
        protocol_ids: vec![],
        bootstrap_addresses: vec![],
        quorum: 0,
        idle_timeout_seconds: u32::MAX,
    };
    assert_eq!(empty.encode(), vec![0, 0, 0, 0, 0, 0, 255, 255, 255, 255]);
    assert_eq!(Config::decode(&empty.encode()), Ok(empty));
}

#[test]
fn every_cut_of_a_config_is_refused() {
    let config = sample_config();
    let bytes = config.encode();
    for cut in 0..bytes.len() {
        assert_eq!(Config::decode(&bytes[..cut]), Err(DecodeError::Malformed));
    }
}

#[test]
fn config_decoder_refuses_text_that_is_not_utf8() {
    let mut bytes = vec![4, 8, 0xff, 0xfe, 0];
    bytes.extend([1, 0, 0, 0, 1, 0, 0, 0]);
    assert_eq!(Config::decode(&bytes), Err(DecodeError::Malformed));
    bytes[2] = b'o';
    bytes[3] = b'k';
    assert_eq!(
        Config::decode(&bytes),
        Ok(Config {
            protocol_ids: vec!["ok".to_string()],
            bootstrap_addresses: vec![],
            quorum: 1,
            idle_timeout_seconds: 1,
        })
    );
}

#[test]
fn messages_agree_with_the_codec_crate_on_fields_in_order() {
    let request = Request { key: vec![1; 70], put_value: Some(vec![2; 3]) };
    assert_eq!(request.encode(), (request.key.clone(), request.put_value.clone()).encode());
    let get = Request { key: vec![1; 70], put_value: None };
    assert_eq!(get.encode(), (get.key.clone(), get.put_value.clone()).encode());
    let response = Response { key: vec![3; 5], values: vec![vec![4; 64], vec![]] };
    assert_eq!(response.encode(), (response.key.clone(), response.values.clone()).encode());
    let config = sample_config();
    assert_eq!(
        config.encode(),
        (
            config.protocol_ids.clone(),
            config.bootstrap_addresses.clone(),
            config.quorum,
            config.idle_timeout_seconds
        )
            .encode()
    );
}

#[test]
fn message_decoders_agree_with_the_codec_crate() {
    let config = sample_config().encode();
    let request = Request { key: vec![9; 3], put_value: Some(vec![8; 4]) }.encode();
    let mut inputs: Vec<Vec<u8>> = vec![vec![], vec![0], vec![0, 0], vec![4, 1, 0], vec![4, 1, 1, 0]];
    for cut in 0..=config.len() {
        inputs.push(config[..cut].to_vec());
    }
    for cut in 0..=request.len() {
        inputs.push(request[..cut].to_vec());
    }
    for input in &inputs {
        let expected = <(Vec<u8>, Option<Vec<u8>>)>::decode(&mut &input[..])
            .ok()
            .map(|(key, put_value)| Request { key, put_value });
        assert_eq!(Request::decode(input).ok(), expected);
        let expected = <(Vec<u8>, Vec<Vec<u8>>)>::decode(&mut &input[..])
            .ok()
            .map(|(key, values)| Response { key, values });
        assert_eq!(Response::decode(input).ok(), expected);
        let expected = <(Vec<String>, Vec<String>, u32, u32)>::decode(&mut &input[..]).ok().map(
            |(protocol_ids, bootstrap_addresses, quorum, idle_timeout_seconds)| Config {
                protocol_ids,
                bootstrap_addresses,
                quorum,
                idle_timeout_seconds,
            },
        );
        assert_eq!(Config::decode(input).ok(), expected);
    }
}

#[test]
fn is_encodable_accepts_ordinary_messages() {
    assert!(sample_config().is_encodable());
    assert!(Request { key: vec![0; 100000], put_value: Some(vec![]) }.is_encodable());
    assert!(Response { key: vec![], values: vec![vec![1]; 1000] }.is_encodable());
}

#[test]
fn decode_front_hands_back_what_follows_the_message() {
    let request = Request { key: b"k".to_vec(), put_value: None };
    let mut bytes = request.encode();
    bytes.extend([1, 2, 3]);
    assert_eq!(Request::decode_front(&bytes), Ok((request.clone(), &[1u8, 2, 3][..])));
    assert_eq!(Request::decode_front(&request.encode()), Ok((request, &[][..])));
    assert_eq!(Request::decode_front(&[4]), Err(DecodeError::Malformed));
    let response = Response { key: vec![], values: vec![vec![5]] };
    let mut bytes = response.encode();
    bytes.push(9);
    assert_eq!(Response::decode_front(&bytes), Ok((response, &[9u8][..])));
    let config = sample_config();
    let mut bytes = config.encode();
    bytes.extend([7, 7]);
    assert_eq!(Config::decode_front(&bytes), Ok((config, &[7u8, 7][..])));
}

#[test]
fn decode_all_accepts_an_encoding_and_nothing_more() {
    let request = Request { key: b"k".to_vec(), put_value: Some(vec![1]) };
    let bytes = request.encode();
    assert_eq!(decode_all::<Request>(&bytes), Ok(request));
    let mut longer = bytes.clone();
    longer.push(0);
    assert_eq!(decode_all::<Request>(&longer), Err(DecodeError::Malformed));
    assert_eq!(decode_all::<Request>(&bytes[..bytes.len() - 1]), Err(DecodeError::Malformed));
    assert_eq!(decode_all::<Request>(&[4, 0x6b, 0, 0xff]), Err(DecodeError::Malformed));
    assert_eq!(
        decode_all::<Request>(&[4, 0x6b, 0]),
        Ok(Request { key: vec![0x6b], put_value: None })
    );
    let config = sample_config();
    assert_eq!(decode_all::<Config>(&config.encode()), Ok(config.clone()));
    let mut longer = config.encode();
    longer.push(0);
    assert_eq!(decode_all::<Config>(&longer), Err(DecodeError::Malformed));
    let response = Response { key: vec![1], values: vec![] };
    assert_eq!(decode_all::<Response>(&response.encode()), Ok(response));
    assert_eq!(decode_all::<Response>(&[4, 1, 0, 0]), Err(DecodeError::Malformed));
}

#[test]
fn decode_all_agrees_with_the_codec_crate_reading_to_the_end() {
    let request = Request { key: vec![9; 3], put_value: Some(vec![8; 4]) }.encode();
    let mut inputs: Vec<Vec<u8>> = vec![vec![], vec![0], vec![0, 0], vec![4, 1, 0], vec![4, 1, 0, 0]];
    for cut in 0..=request.len() {
        inputs.push(request[..cut].to_vec());
    }
    let mut longer = request.clone();
    longer.push(1);
    inputs.push(longer);
    for input in &inputs {
        let mut rest = &input[..];
        let expected = <(Vec<u8>, Option<Vec<u8>>)>::decode(&mut rest)
            .ok()
            .filter(|_| rest.is_empty())
            .map(|(key, put_value)| Request { key, put_value });
        assert_eq!(decode_all::<Request>(input).ok(), expected);
    }
}
