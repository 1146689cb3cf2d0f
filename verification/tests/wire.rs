use actix_remote::protocol::{
    decode_request_payload, decode_response_payload, encode_request_payload,
    encode_response_payload, wire_prefix_vec, NetworkClientCodec, NetworkServerCodec,
    ProtocolError, Request, Response,
};

fn s(x: &str) -> String {
    x.to_string()
}

#[test]
fn message_payload_exact_bytes() {
    let req = Request::Message(1, s("echo"), s("1.0"), s("\"hello\""));
    let out = encode_request_payload(&req);
    assert_eq!(out, br#"{"cmd":"Message","data":[1,"echo","1.0","\"hello\""]}"#.to_vec());
}

#[test]
fn result_payload_exact_bytes() {
    let resp = Response::Result(1, s("\"hello\""));
    let out = encode_response_payload(&resp);
    assert_eq!(out, br#"{"cmd":"Result","data":[1,"\"hello\""]}"#.to_vec());
}

#[test]
fn handshake_payload_exact_bytes() {
    let req = Request::Handshake(s("127.0.0.1:7001"));
    let out = encode_request_payload(&req);
    assert_eq!(out, br#"{"cmd":"Handshake","data":"127.0.0.1:7001"}"#.to_vec());
}

#[test]
fn ping_pong_payload_exact_bytes() {
    assert_eq!(encode_request_payload(&Request::Ping), br#"{"cmd":"Ping"}"#.to_vec());
    assert_eq!(encode_request_payload(&Request::Pong), br#"{"cmd":"Pong"}"#.to_vec());
    assert_eq!(encode_response_payload(&Response::Ping), br#"{"cmd":"Ping"}"#.to_vec());
}

#[test]
fn supported_payload_exact_bytes() {
    let resp = Response::Supported(vec![s("echo"), s("sum")]);
    let out = encode_response_payload(&resp);
    assert_eq!(out, br#"{"cmd":"Supported","data":["echo","sum"]}"#.to_vec());
    let empty = Response::Supported(Vec::new());
    assert_eq!(encode_response_payload(&empty), br#"{"cmd":"Supported","data":[]}"#.to_vec());
}

#[test]
fn request_payload_round_trip() {
    let cases = vec![
        Request::Handshake(s("10.0.0.2:9000")),
        Request::Ping,
        Request::Pong,
        Request::Message(42, s("math.sum"), s("1.0"), s("[1,2,3]")),
        Request::Message(u64::MAX, s("t"), s("1.0"), s("x")),
        Request::Message(7, s("quotes\"and\\slashes"), s("1.0"), s("line\nbreak\ttab")),
    ];
    for req in cases {
        let bytes = encode_request_payload(&req);
        let back = decode_request_payload(&bytes);
        assert_eq!(back, Some(req));
    }
}

#[test]
fn response_payload_round_trip() {
    let cases = vec![
        Response::Handshake,
        Response::Ping,
        Response::Pong,
        Response::Supported(vec![]),
        Response::Supported(vec![s("a")]),
        Response::Supported(vec![s("alpha"), s("beta"), s("ga\"mma")]),
        Response::Result(0, s("")),
        Response::Result(u64::MAX, s("\"ok\"")),
    ];
    for resp in cases {
        let bytes = encode_response_payload(&resp);
        let back = decode_response_payload(&bytes);
        assert_eq!(back, Some(resp));
    }
}

#[test]
fn multi_byte_text_round_trip() {
    let req = Request::Handshake(s("héllo-wörld:7001"));
    let bytes = encode_request_payload(&req);
    assert_eq!(decode_request_payload(&bytes), Some(req));
    let resp = Response::Result(9, s("päyload €"));
    let bytes = encode_response_payload(&resp);
    assert_eq!(decode_response_payload(&bytes), Some(resp));
}

#[test]
fn invalid_utf8_in_string_field_rejected() {
    let mut bytes = br#"{"cmd":"Handshake","data":""#.to_vec();
    bytes.push(0xff);
    bytes.extend_from_slice(br#""}"#);
    assert_eq!(decode_request_payload(&bytes), None);
}

#[test]
fn malformed_payloads_rejected() {
    assert_eq!(decode_request_payload(&b"".to_vec()), None);
    assert_eq!(decode_request_payload(&b"garbage".to_vec()), None);
    assert_eq!(decode_request_payload(&br#"{"cmd":"Nope"}"#.to_vec()), None);
    // truncated
    assert_eq!(decode_request_payload(&br#"{"cmd":"Message","data":[1,"t"#.to_vec()), None);
    // trailing bytes
    assert_eq!(decode_request_payload(&br#"{"cmd":"Ping"}x"#.to_vec()), None);
    // a message id beyond the 64-bit counter
    assert_eq!(
        decode_request_payload(
            &br#"{"cmd":"Message","data":[18446744073709551616,"t","1.0","x"]}"#.to_vec()
        ),
        None
    );
    // a response is not a request
    assert_eq!(decode_request_payload(&br#"{"cmd":"Result","data":[1,"x"]}"#.to_vec()), None);
}

#[test]
fn client_encode_handshake_emits_prefix_first() {
    let mut codec = NetworkClientCodec::default();
    let mut wire: Vec<u8> = Vec::new();
    codec.encode(&Request::Handshake(s("a:1")), &mut wire).unwrap();
    assert_eq!(&wire[..11], b"ACTIX/1.0\r\n");
    // length field of the frame that follows
    let payload = br#"{"cmd":"Handshake","data":"a:1"}"#;
    assert_eq!(wire[11] as usize * 256 + wire[12] as usize, payload.len());
    assert_eq!(&wire[13..], &payload[..]);
}

#[test]
fn server_encode_handshake_is_bare_prefix() {
    let mut codec = NetworkServerCodec::default();
    let mut wire: Vec<u8> = Vec::new();
    codec.encode(&Response::Handshake, &mut wire).unwrap();
    assert_eq!(wire, b"ACTIX/1.0\r\n".to_vec());
}

#[test]
fn server_decode_consumes_prefix_then_frames() {
    let mut codec = NetworkServerCodec::default();
    let mut client = NetworkClientCodec::default();
    let mut wire: Vec<u8> = Vec::new();
    client.encode(&Request::Handshake(s("127.0.0.1:7002")), &mut wire).unwrap();
    client.encode(&Request::Ping, &mut wire).unwrap();
    let first = codec.decode(&mut wire).unwrap();
    assert_eq!(first, Some(Request::Handshake(s("127.0.0.1:7002"))));
    let second = codec.decode(&mut wire).unwrap();
    assert_eq!(second, Some(Request::Ping));
    let third = codec.decode(&mut wire).unwrap();
    assert_eq!(third, None);
    assert!(wire.is_empty());
}

#[test]
fn server_decode_waits_for_whole_frame() {
    let mut codec = NetworkServerCodec::default();
    let mut wire = wire_prefix_vec();
    let payload = encode_request_payload(&Request::Pong);
    wire.push((payload.len() / 256) as u8);
    wire.push((payload.len() % 256) as u8);
    // only half of the payload has arrived
    wire.extend_from_slice(&payload[..payload.len() / 2]);
    assert_eq!(codec.decode(&mut wire).unwrap(), None);
    // the rest arrives
    wire.extend_from_slice(&payload[payload.len() / 2..]);
    assert_eq!(codec.decode(&mut wire).unwrap(), Some(Request::Pong));
}

#[test]
fn server_decode_rejects_bad_prefix() {
    let mut codec = NetworkServerCodec::default();
    let mut wire = b"NOTACTIX1.0".to_vec();
    assert_eq!(codec.decode(&mut wire), Err(ProtocolError::PrefixMismatch));
    // nothing was consumed, and the stream stays rejected
    assert_eq!(wire.len(), 11);
    assert_eq!(codec.decode(&mut wire), Err(ProtocolError::PrefixMismatch));
}

#[test]
fn server_decode_rejects_malformed_frame() {
    let mut codec = NetworkServerCodec::default();
    let mut wire = wire_prefix_vec();
    let junk = b"{\"cmd\":\"What\"}";
    wire.push(0);
    wire.push(junk.len() as u8);
    wire.extend_from_slice(junk);
    assert_eq!(codec.decode(&mut wire), Err(ProtocolError::Malformed));
}

#[test]
fn client_decode_round_trip() {
    let mut server = NetworkServerCodec::default();
    let mut client = NetworkClientCodec::default();
    let mut wire: Vec<u8> = Vec::new();
    server.encode(&Response::Handshake, &mut wire).unwrap();
    server.encode(&Response::Supported(vec![s("echo")]), &mut wire).unwrap();
    server.encode(&Response::Result(3, s("\"hi\"")), &mut wire).unwrap();
    assert_eq!(client.decode(&mut wire).unwrap(), Some(Response::Supported(vec![s("echo")])));
    assert_eq!(client.decode(&mut wire).unwrap(), Some(Response::Result(3, s("\"hi\""))));
    assert_eq!(client.decode(&mut wire).unwrap(), None);
}

#[test]
fn client_decode_prefix_alone_yields_nothing() {
    let mut client = NetworkClientCodec::default();
    let mut wire = wire_prefix_vec();
    assert_eq!(client.decode(&mut wire).unwrap(), None);
    assert!(wire.is_empty());
}

#[test]
fn oversize_payload_rejected_on_encode() {
    let mut client = NetworkClientCodec::default();
    let mut wire: Vec<u8> = Vec::new();
    let big = "x".repeat(70_000);
    let r = client.encode(&Request::Message(1, s("t"), s("1.0"), big), &mut wire);
    assert_eq!(r, Err(ProtocolError::Oversize));
    assert!(wire.is_empty());
}
