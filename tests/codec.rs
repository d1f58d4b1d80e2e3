use nvim_rs::codec::{decode_at, encode_value, Decoded};
use nvim_rs::message::{decode_message, encode_message, Message};
use nvim_rs::value::{fits, Value};

fn s(t: &str) -> Value {
    Value::String(t.as_bytes().to_vec())
}

fn round_trip(v: Value) {
    let bytes = encode_value(&v);
    let n = bytes.len();
    assert_eq!(decode_at(&bytes, 0), Decoded::Done(v, n));
}

#[test]
fn encodes_small_values_exactly() {
    assert_eq!(encode_value(&Value::Nil), vec![0xc0]);
    assert_eq!(encode_value(&Value::Boolean(true)), vec![0xc3]);
    assert_eq!(encode_value(&Value::Boolean(false)), vec![0xc2]);
    assert_eq!(encode_value(&Value::Integer(1)), vec![0x01]);
    assert_eq!(encode_value(&Value::Integer(127)), vec![0x7f]);
    assert_eq!(encode_value(&Value::Integer(-1)), vec![0xff]);
    assert_eq!(encode_value(&Value::Integer(-32)), vec![0xe0]);
    assert_eq!(encode_value(&s("ab")), vec![0xa2, 0x61, 0x62]);
    assert_eq!(
        encode_value(&Value::Array(vec![Value::Integer(1), Value::Nil])),
        vec![0x92, 0x01, 0xc0]
    );
}

#[test]
fn encodes_wide_integers_exactly() {
    assert_eq!(
        encode_value(&Value::Integer(200)),
        vec![0xcf, 0, 0, 0, 0, 0, 0, 0, 200]
    );
    assert_eq!(
        encode_value(&Value::Integer(-33)),
        vec![0xd3, 0xff, 0xff, 0xff, 0xff, 0xff, 0xff, 0xff, 0xdf]
    );
    assert_eq!(
        encode_value(&Value::Binary(vec![7])),
        vec![0xc6, 0, 0, 0, 1, 7]
    );
}

#[test]
fn values_round_trip() {
    round_trip(Value::Nil);
    round_trip(Value::Boolean(true));
    for x in [0i128, 1, 127, 128, 255, 65536, -1, -32, -33, -129, i64::MIN as i128, u64::MAX as i128] {
        round_trip(Value::Integer(x));
    }
    round_trip(s(""));
    round_trip(s("hello"));
    round_trip(Value::String(vec![b'x'; 40]));
    round_trip(Value::Binary(vec![1, 2, 3]));
    round_trip(Value::Array(vec![]));
    let items: Vec<Value> = (0..20).map(|i| Value::Integer(i)).collect();
    round_trip(Value::Array(items));
    round_trip(Value::Array(vec![
        s("a"),
        Value::Array(vec![Value::Integer(-5), Value::Binary(vec![])]),
        Value::Nil,
    ]));
}

#[test]
fn decodes_other_integer_and_string_forms() {
    assert_eq!(decode_at(&vec![0xcc, 200], 0), Decoded::Done(Value::Integer(200), 2));
    assert_eq!(decode_at(&vec![0xcd, 1, 0], 0), Decoded::Done(Value::Integer(256), 3));
    assert_eq!(decode_at(&vec![0xd0, 0x80], 0), Decoded::Done(Value::Integer(-128), 2));
    assert_eq!(decode_at(&vec![0xd1, 0xff, 0xfe], 0), Decoded::Done(Value::Integer(-2), 3));
    assert_eq!(decode_at(&vec![0xd9, 2, b'o', b'k'], 0), Decoded::Done(s("ok"), 4));
    assert_eq!(decode_at(&vec![0xc4, 1, 9], 0), Decoded::Done(Value::Binary(vec![9]), 3));
    assert_eq!(
        decode_at(&vec![0xdc, 0, 1, 0xc0], 0),
        Decoded::Done(Value::Array(vec![Value::Nil]), 4)
    );
}

#[test]
fn decodes_at_a_position() {
    let buf = vec![0xc0, 0x05, 0xa1, b'z'];
    assert_eq!(decode_at(&buf, 1), Decoded::Done(Value::Integer(5), 2));
    assert_eq!(decode_at(&buf, 2), Decoded::Done(s("z"), 4));
}

#[test]
fn short_input_is_incomplete() {
    assert_eq!(decode_at(&vec![], 0), Decoded::Incomplete);
    assert_eq!(decode_at(&vec![0xa2, b'a'], 0), Decoded::Incomplete);
    assert_eq!(decode_at(&vec![0xcf, 0, 0], 0), Decoded::Incomplete);
    assert_eq!(decode_at(&vec![0x92, 0x01], 0), Decoded::Incomplete);
}

#[test]
fn unknown_prefix_is_malformed() {
    assert_eq!(decode_at(&vec![0xc1], 0), Decoded::Malformed);
    assert_eq!(decode_at(&vec![0x91, 0xc1], 0), Decoded::Malformed);
}

#[test]
fn fits_checks_ranges() {
    assert!(fits(&Value::Integer(u64::MAX as i128)));
    assert!(!fits(&Value::Integer(u64::MAX as i128 + 1)));
    assert!(fits(&Value::Integer(i64::MIN as i128)));
    assert!(!fits(&Value::Integer(i64::MIN as i128 - 1)));
    assert!(!fits(&Value::Array(vec![Value::Integer(1 << 70)])));
}

#[test]
fn messages_round_trip() {
    let msgs = || {
        vec![
            Message::Request { id: 3, method: b"nvim_eval".to_vec(), params: vec![s("1+1")] },
            Message::Response { id: u64::MAX, result: Ok(Value::Integer(2)) },
            Message::Response { id: 9, result: Err(s("boom")) },
            Message::Notification { method: b"redraw".to_vec(), params: vec![] },
        ]
    };
    for (m, expected) in msgs().into_iter().zip(msgs()) {
        let mut bytes = encode_message(m);
        let n = bytes.len();
        bytes.push(0xc0);
        assert_eq!(decode_message(&bytes, 0), Decoded::Done(expected, n));
    }
}

#[test]
fn request_has_wire_shape() {
    let m = Message::Request { id: 1, method: b"f".to_vec(), params: vec![Value::Nil] };
    assert_eq!(encode_message(m), vec![0x94, 0x00, 0x01, 0xa1, b'f', 0x91, 0xc0]);
    let n = Message::Notification { method: b"f".to_vec(), params: vec![] };
    assert_eq!(encode_message(n), vec![0x93, 0x02, 0xa1, b'f', 0x90]);
}

#[test]
fn nil_error_slot_reads_as_success() {
    let m = Message::Response { id: 1, result: Err(Value::Nil) };
    let bytes = encode_message(m);
    assert_eq!(
        decode_message(&bytes, 0),
        Decoded::Done(Message::Response { id: 1, result: Ok(Value::Nil) }, 5)
    );
}

#[test]
fn wrong_shapes_are_malformed() {
    // [3, 1, "f", []]: unknown type tag
    assert_eq!(decode_message(&vec![0x94, 0x03, 0x01, 0xa1, b'f', 0x90], 0), Decoded::Malformed);
    // [0, 1, "f"]: a request of three items
    assert_eq!(decode_message(&vec![0x93, 0x00, 0x01, 0xa1, b'f'], 0), Decoded::Malformed);
    // [0, -1, "f", []]: a negative id
    assert_eq!(decode_message(&vec![0x94, 0x00, 0xff, 0xa1, b'f', 0x90], 0), Decoded::Malformed);
    // a bare integer
    assert_eq!(decode_message(&vec![0x05], 0), Decoded::Malformed);
    // an unfinished frame
    assert_eq!(decode_message(&vec![0x94, 0x00], 0), Decoded::Incomplete);
}

#[test]
fn floats_travel_as_their_bits() {
    let half = 0.5f64.to_bits();
    assert_eq!(
        encode_value(&Value::Float64(half)),
        vec![0xcb, 0x3f, 0xe0, 0, 0, 0, 0, 0, 0]
    );
    assert_eq!(
        encode_value(&Value::Float32(1.0f32.to_bits())),
        vec![0xca, 0x3f, 0x80, 0, 0]
    );
    round_trip(Value::Float64(half));
    round_trip(Value::Float32(2.5f32.to_bits()));
    match decode_at(&vec![0xcb, 0x40, 0x09, 0x21, 0xfb, 0x54, 0x44, 0x2d, 0x18], 0) {
        Decoded::Done(Value::Float64(b), 9) => assert_eq!(f64::from_bits(b), std::f64::consts::PI),
        other => panic!("unexpected {:?}", other),
    }
}

#[test]
fn extensions_round_trip() {
    assert_eq!(
        encode_value(&Value::Ext(-1, vec![0xaa])),
        vec![0xc9, 0, 0, 0, 1, 0xff, 0xaa]
    );
    round_trip(Value::Ext(5, vec![1, 2, 3]));
    round_trip(Value::Ext(-128, vec![]));
    // fixext1 of type 2 holding one byte, as the peer sends buffer handles
    assert_eq!(decode_at(&vec![0xd4, 0x02, 0x07], 0), Decoded::Done(Value::Ext(2, vec![7]), 3));
    // ext8 of type -3 holding two bytes
    assert_eq!(
        decode_at(&vec![0xc7, 0x02, 0xfd, 0x01, 0x02], 0),
        Decoded::Done(Value::Ext(-3, vec![1, 2]), 5)
    );
    assert_eq!(decode_at(&vec![0xd5, 0x00, 0x01], 0), Decoded::Incomplete);
}

#[test]
fn maps_round_trip() {
    let m = Value::Dict(vec![(s("a"), Value::Integer(1)), (Value::Integer(2), Value::Nil)]);
    assert_eq!(
        encode_value(&m),
        vec![0x82, 0xa1, b'a', 0x01, 0x02, 0xc0]
    );
    round_trip(m);
    round_trip(Value::Dict(vec![]));
    let big: Vec<(Value, Value)> = (0..17).map(|i| (Value::Integer(i), s("v"))).collect();
    round_trip(Value::Dict(big));
    round_trip(Value::Array(vec![Value::Dict(vec![(s("k"), Value::Array(vec![]))])]));
    assert_eq!(
        decode_at(&vec![0xde, 0, 1, 0xc3, 0xc2], 0),
        Decoded::Done(Value::Dict(vec![(Value::Boolean(true), Value::Boolean(false))]), 5)
    );
    assert_eq!(decode_at(&vec![0x81, 0x01], 0), Decoded::Incomplete);
    assert_eq!(decode_at(&vec![0x81, 0xc1, 0x01], 0), Decoded::Malformed);
}
