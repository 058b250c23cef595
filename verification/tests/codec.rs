//! Wire codec tests: value and message round trips, error classification,
//! non-canonical input, and agreement with an independent implementation
//! of the same format.

use nvim_rpc::rpc::{decode, encode, Message, Notification, Request, Response};
use nvim_rpc::value::Value;
use nvim_rpc::wire::{decode_value, encode_value, DecodeError};

fn enc(v: &Value) -> Vec<u8> {
    let mut out = Vec::new();
    encode_value(v, &mut out);
    out
}

fn round_trip(v: Value) -> Value {
    let bytes = enc(&v);
    let (back, used) = decode_value(&bytes, 0).expect("decode");
    assert_eq!(used, bytes.len());
    back
}

#[test]
fn nil_and_bool_round_trip() {
    assert!(matches!(round_trip(Value::Nil), Value::Nil));
    assert!(matches!(round_trip(Value::Bool(true)), Value::Bool(true)));
    assert!(matches!(round_trip(Value::Bool(false)), Value::Bool(false)));
}

#[test]
fn unsigned_round_trip_across_widths() {
    for n in [
        0u64,
        1,
        0x7F,
        0x80,
        0xFF,
        0x100,
        0xFFFF,
        0x1_0000,
        0xFFFF_FFFF,
        0x1_0000_0000,
        u64::MAX,
    ] {
        match round_trip(Value::UInt(n)) {
            Value::UInt(m) => assert_eq!(m, n),
            other => panic!("wrong variant: {other:?}"),
        }
    }
}

#[test]
fn signed_round_trip_across_widths() {
    for n in [
        -1i64,
        -32,
        -33,
        -0x80,
        -0x81,
        -0x8000,
        -0x8001,
        -0x8000_0000,
        -0x8000_0001,
        i64::MIN,
    ] {
        match round_trip(Value::NegInt(n)) {
            Value::NegInt(m) => assert_eq!(m, n),
            other => panic!("wrong variant: {other:?}"),
        }
    }
}

#[test]
fn known_encodings() {
    assert_eq!(enc(&Value::Nil), vec![0xc0]);
    assert_eq!(enc(&Value::UInt(5)), vec![0x05]);
    assert_eq!(enc(&Value::UInt(0x80)), vec![0xcc, 0x80]);
    assert_eq!(enc(&Value::NegInt(-1)), vec![0xff]);
    assert_eq!(enc(&Value::NegInt(-33)), vec![0xd0, 0xdf]);
    assert_eq!(enc(&Value::Str(String::from("abc"))), vec![0xa3, b'a', b'b', b'c']);
    assert_eq!(
        enc(&Value::Array(vec![Value::UInt(1), Value::Nil])),
        vec![0x92, 0x01, 0xc0]
    );
    assert_eq!(enc(&Value::Bin(vec![7, 8])), vec![0xc4, 0x02, 0x07, 0x08]);
}

#[test]
fn float_round_trip_preserves_bits() {
    let bits = 1.5f64.to_bits();
    match round_trip(Value::Float(bits)) {
        Value::Float(b) => {
            assert_eq!(b, bits);
            assert_eq!(f64::from_bits(b), 1.5);
        },
        other => panic!("wrong variant: {other:?}"),
    }
}

#[test]
fn string_and_binary_round_trip() {
    match round_trip(Value::Str(String::from("héllo, wörld"))) {
        Value::Str(s) => assert_eq!(s, "héllo, wörld"),
        other => panic!("wrong variant: {other:?}"),
    }
    let long = "x".repeat(300);
    match round_trip(Value::Str(long.clone())) {
        Value::Str(s) => assert_eq!(s, long),
        other => panic!("wrong variant: {other:?}"),
    }
    match round_trip(Value::Bin((0..=255u8).collect())) {
        Value::Bin(b) => assert_eq!(b, (0..=255u8).collect::<Vec<u8>>()),
        other => panic!("wrong variant: {other:?}"),
    }
}

#[test]
fn nested_containers_round_trip() {
    let v = Value::Array(vec![
        Value::Mapping(vec![
            (Value::Str(String::from("k")), Value::Array(vec![Value::UInt(1), Value::NegInt(-2)])),
            (Value::UInt(9), Value::Nil),
        ]),
        Value::Array(vec![]),
        Value::Str(String::from("tail")),
    ]);
    match round_trip(v) {
        Value::Array(items) => {
            assert_eq!(items.len(), 3);
            match &items[0] {
                Value::Mapping(pairs) => {
                    assert_eq!(pairs.len(), 2);
                    assert!(matches!(&pairs[0].0, Value::Str(s) if s == "k"));
                    assert!(matches!(&pairs[1].1, Value::Nil));
                },
                other => panic!("wrong variant: {other:?}"),
            }
            assert!(matches!(&items[1], Value::Array(xs) if xs.is_empty()));
            assert!(matches!(&items[2], Value::Str(s) if s == "tail"));
        },
        other => panic!("wrong variant: {other:?}"),
    }
}

#[test]
fn sixteen_element_array_uses_wide_header() {
    let items: Vec<Value> = (0..16).map(Value::UInt).collect();
    let bytes = enc(&Value::Array(items));
    assert_eq!(bytes[0], 0xdc);
    assert_eq!(&bytes[1..3], &[0x00, 0x10]);
    let (back, used) = decode_value(&bytes, 0).expect("decode");
    assert_eq!(used, bytes.len());
    match back {
        Value::Array(xs) => assert_eq!(xs.len(), 16),
        other => panic!("wrong variant: {other:?}"),
    }
}

#[test]
fn non_canonical_integers_decode() {
    // 5 spelled as uint16, and -1 spelled as int32.
    let (v, used) = decode_value(&vec![0xcd, 0x00, 0x05], 0).expect("decode");
    assert_eq!(used, 3);
    assert!(matches!(v, Value::UInt(5)));
    let (v, used) = decode_value(&vec![0xd2, 0xff, 0xff, 0xff, 0xff], 0).expect("decode");
    assert_eq!(used, 5);
    assert!(matches!(v, Value::NegInt(-1)));
    // A non-negative value under a signed marker decodes as the
    // non-negative integer.
    let (v, _) = decode_value(&vec![0xd0, 0x05], 0).expect("decode");
    assert!(matches!(v, Value::UInt(5)));
}

#[test]
fn truncated_input_is_reported() {
    assert!(matches!(decode_value(&vec![], 0), Err(DecodeError::Truncated)));
    assert!(matches!(decode_value(&vec![0xcd, 0x01], 0), Err(DecodeError::Truncated)));
    assert!(matches!(decode_value(&vec![0xa3, b'a'], 0), Err(DecodeError::Truncated)));
    assert!(matches!(decode_value(&vec![0x92, 0xc0], 0), Err(DecodeError::Truncated)));
}

#[test]
fn foreign_markers_are_malformed() {
    // 0xc1 is never used; extensions and 32-bit floats are not part of
    // this protocol's value set.
    assert!(matches!(decode_value(&vec![0xc1], 0), Err(DecodeError::Malformed)));
    assert!(matches!(decode_value(&vec![0xd4, 0x01, 0x00], 0), Err(DecodeError::Malformed)));
    assert!(matches!(decode_value(&vec![0xca, 0x00, 0x00, 0x00, 0x00], 0), Err(DecodeError::Malformed)));
}

#[test]
fn invalid_utf8_string_is_malformed() {
    assert!(matches!(decode_value(&vec![0xa1, 0xff], 0), Err(DecodeError::Malformed)));
}

fn request_msg() -> Message {
    Message::Request(Request {
        msgid: 7,
        method: String::from("nvim_input"),
        params: vec![Value::Str(String::from("ihello"))],
    })
}

#[test]
fn request_round_trip() {
    let bytes = encode(request_msg());
    let (msg, used) = decode(&bytes, 0).expect("decode");
    assert_eq!(used, bytes.len());
    match msg {
        Message::Request(req) => {
            assert_eq!(req.msgid, 7);
            assert_eq!(req.method, "nvim_input");
            assert_eq!(req.params.len(), 1);
            assert!(matches!(&req.params[0], Value::Str(s) if s == "ihello"));
        },
        other => panic!("wrong kind: {other:?}"),
    }
}

#[test]
fn response_round_trip() {
    let bytes = encode(Message::Response(Response {
        msgid: 3,
        result: Value::UInt(42),
        error: Value::Nil,
    }));
    let (msg, _) = decode(&bytes, 0).expect("decode");
    match msg {
        Message::Response(resp) => {
            assert_eq!(resp.msgid, 3);
            assert!(matches!(resp.result, Value::UInt(42)));
            assert!(matches!(resp.error, Value::Nil));
        },
        other => panic!("wrong kind: {other:?}"),
    }
}

#[test]
fn notification_round_trip() {
    let bytes = encode(Message::Notification(Notification {
        method: String::from("redraw"),
        params: vec![Value::Array(vec![Value::Str(String::from("set_icon"))])],
    }));
    let (msg, _) = decode(&bytes, 0).expect("decode");
    match msg {
        Message::Notification(note) => {
            assert_eq!(note.method, "redraw");
            assert_eq!(note.params.len(), 1);
        },
        other => panic!("wrong kind: {other:?}"),
    }
}

#[test]
fn reencoding_a_decoded_message_preserves_it() {
    // The wire shape of a request, spelled with non-canonical integers.
    let loose = vec![
        0x94, // [tag, msgid, method, params]
        0xcd, 0x00, 0x00, // tag 0 as uint16
        0xcc, 0x07, // msgid 7 as uint8
        0xa2, b'h', b'i', // "hi"
        0x90, // []
    ];
    let (msg, used) = decode(&loose, 0).expect("decode");
    assert_eq!(used, loose.len());
    let bytes = encode(msg);
    assert_ne!(bytes, loose);
    let (again, _) = decode(&bytes, 0).expect("decode");
    match again {
        Message::Request(req) => {
            assert_eq!(req.msgid, 7);
            assert_eq!(req.method, "hi");
            assert!(req.params.is_empty());
        },
        other => panic!("wrong kind: {other:?}"),
    }
}

#[test]
fn message_errors_are_classified() {
    assert!(matches!(decode(&vec![], 0), Err(DecodeError::UnexpectedEof)));
    assert!(matches!(decode(&vec![0x94, 0x00], 0), Err(DecodeError::Truncated)));
    // A value that is no message shape.
    assert!(matches!(decode(&vec![0xc0], 0), Err(DecodeError::Malformed)));
    // Arity 4 with an unknown tag.
    assert!(matches!(decode(&vec![0x94, 0x05, 0x00, 0xa0, 0x90], 0), Err(DecodeError::Malformed)));
}

#[test]
fn consecutive_messages_decode_from_one_buffer() {
    let mut buf = encode(request_msg());
    let second = encode(Message::Notification(Notification {
        method: String::from("ping"),
        params: vec![],
    }));
    buf.extend_from_slice(&second);
    let (first, pos) = decode(&buf, 0).expect("first");
    assert!(matches!(first, Message::Request(_)));
    let (next, end) = decode(&buf, pos).expect("second");
    assert!(matches!(next, Message::Notification(_)));
    assert_eq!(end, buf.len());
    assert!(matches!(decode(&buf, end), Err(DecodeError::UnexpectedEof)));
}

#[test]
fn independent_decoder_reads_our_encodings() {
    let bytes = enc(&Value::Array(vec![
        Value::UInt(300),
        Value::NegInt(-70000),
        Value::Str(String::from("abc")),
        Value::Bin(vec![1, 2, 3]),
        Value::Float(2.75f64.to_bits()),
        Value::Mapping(vec![(Value::Str(String::from("k")), Value::Bool(true))]),
    ]));
    let got = rmpv::decode::read_value(&mut &bytes[..]).expect("rmpv decode");
    let expected = rmpv::Value::Array(vec![
        rmpv::Value::from(300u64),
        rmpv::Value::from(-70000i64),
        rmpv::Value::from("abc"),
        rmpv::Value::Binary(vec![1, 2, 3]),
        rmpv::Value::F64(2.75),
        rmpv::Value::Map(vec![(rmpv::Value::from("k"), rmpv::Value::Boolean(true))]),
    ]);
    assert_eq!(got, expected);
}

#[test]
fn our_decoder_reads_independent_encodings() {
    let foreign = rmpv::Value::Array(vec![
        rmpv::Value::from(300u64),
        rmpv::Value::from(-70000i64),
        rmpv::Value::from("abc"),
        rmpv::Value::F64(2.75),
    ]);
    let mut bytes = Vec::new();
    rmpv::encode::write_value(&mut bytes, &foreign).expect("rmpv encode");
    let (v, used) = decode_value(&bytes, 0).expect("decode");
    assert_eq!(used, bytes.len());
    match v {
        Value::Array(items) => {
            assert!(matches!(items[0], Value::UInt(300)));
            assert!(matches!(items[1], Value::NegInt(-70000)));
            assert!(matches!(&items[2], Value::Str(s) if s == "abc"));
            assert!(matches!(items[3], Value::Float(b) if f64::from_bits(b) == 2.75));
        },
        other => panic!("wrong variant: {other:?}"),
    }
}
