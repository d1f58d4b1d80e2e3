use vstd::prelude::*;

use crate::codec::{
    Decoded, Parsed, decode_at, enc, encode_value, lemma_parse_enc, parse_at,
};
use crate::value::{Val, Value, lemma_view_array, view_all, wf_val};

verus! {

/// The model of a MessagePack-RPC message.
pub enum Msg {
    Request { id: u64, method: Seq<u8>, params: Seq<Val> },
    Response { id: u64, result: Result<Val, Val> },
    Notification { method: Seq<u8>, params: Seq<Val> },
}

/// A MessagePack-RPC message. Method names are kept as their UTF-8 bytes.
#[derive(Debug, PartialEq, Eq)]
pub enum Message {
    Request { id: u64, method: Vec<u8>, params: Vec<Value> },
    Response { id: u64, result: Result<Value, Value> },
    Notification { method: Vec<u8>, params: Vec<Value> },
}

impl View for Message {
    type V = Msg;

    open spec fn view(&self) -> Msg {
        match self {
            Message::Request { id, method, params } => Msg::Request {
                id: *id,
                method: method@,
                params: view_all(params@),
            },
            Message::Response { id, result } => Msg::Response {
                id: *id,
                result: match result {
                    Ok(v) => Ok(v@),
                    Err(e) => Err(e@),
                },
            },
            Message::Notification { method, params } => Msg::Notification {
                method: method@,
                params: view_all(params@),
            },
        }
    }
}

/// The wire shape of a message: `[0, id, method, params]`,
/// `[1, id, error or nil, result or nil]` or `[2, method, params]`.
pub open spec fn msg_val(m: Msg) -> Val {
    match m {
        Msg::Request { id, method, params } => Val::Arr(
            seq![Val::Int(0), Val::Int(id as int), Val::Str(method), Val::Arr(params)],
        ),
        Msg::Response { id, result } => match result {
            Ok(r) => Val::Arr(seq![Val::Int(1), Val::Int(id as int), Val::Nil, r]),
            Err(e) => Val::Arr(seq![Val::Int(1), Val::Int(id as int), e, Val::Nil]),
        },
        Msg::Notification { method, params } => Val::Arr(
            seq![Val::Int(2), Val::Str(method), Val::Arr(params)],
        ),
    }
}

/// The bytes that this library writes for a message.
pub open spec fn enc_msg(m: Msg) -> Seq<u8> {
    enc(msg_val(m))
}

/// A message that the wire format can hold.
pub open spec fn wf_msg(m: Msg) -> bool {
    wf_val(msg_val(m))
}

/// A message id on the wire: an integer of `u64`.
pub open spec fn is_id(v: Val) -> bool {
    v matches Val::Int(x) && 0 <= x < 0x1_0000_0000_0000_0000
}

/// The message that a decoded value stands for, if it has one of the three
/// shapes.
pub open spec fn val_msg(v: Val) -> Option<Msg> {
    match v {
        Val::Arr(xs) => if xs.len() == 4 && xs[0] == Val::Int(0) && is_id(xs[1])
            && xs[2] is Str && xs[3] is Arr {
            Some(
                Msg::Request {
                    id: xs[1]->Int_0 as u64,
                    method: xs[2]->Str_0,
                    params: xs[3]->Arr_0,
                },
            )
        } else if xs.len() == 4 && xs[0] == Val::Int(1) && is_id(xs[1]) {
            Some(
                Msg::Response {
                    id: xs[1]->Int_0 as u64,
                    result: if xs[2] == Val::Nil {
                        Ok(xs[3])
                    } else {
                        Err(xs[2])
                    },
                },
            )
        } else if xs.len() == 3 && xs[0] == Val::Int(2) && xs[1] is Str && xs[2] is Arr {
            Some(Msg::Notification { method: xs[1]->Str_0, params: xs[2]->Arr_0 })
        } else {
            None
        },
        _ => None,
    }
}

/// Reads one message from the bytes `s` at position `p`.
pub open spec fn parse_msg(s: Seq<u8>, p: nat) -> Parsed<Msg> {
    match parse_at(s, p) {
        Parsed::Done(v, e) => match val_msg(v) {
            Some(m) => Parsed::Done(m, e),
            None => Parsed::Bad,
        },
        Parsed::Short => Parsed::Short,
        Parsed::Bad => Parsed::Bad,
    }
}

/// `r` is the executable form of the modelled outcome `p`.
pub open spec fn decoded_msg_is(r: Decoded<Message>, p: Parsed<Msg>) -> bool {
    match r {
        Decoded::Done(m, e) => p == Parsed::Done(m@, e as nat),
        Decoded::Incomplete => p is Short,
        Decoded::Malformed => p is Bad,
    }
}

/// A message that reads back as itself: all but a response whose error
/// slot holds nil, which the wire cannot tell from a success.
pub open spec fn round_trips(m: Msg) -> bool {
    !(m matches Msg::Response { result: Err(Val::Nil), .. })
}

/// The wire shape of a message, as a value.
pub fn message_to_value(m: Message) -> (r: Value)
    ensures
        r@ == msg_val(m@),
{
    let ghost mm = m@;
    match m {
        Message::Request { id, method, params } => {
            proof {
                lemma_view_array(params);
            }
            let arr = Value::Array(params);
            let mut items: Vec<Value> = Vec::new();
            items.push(Value::Integer(0));
            items.push(Value::Integer(id as i128));
            items.push(Value::String(method));
            items.push(arr);
            proof {
                lemma_view_array(items);
                assert(view_all(items@) =~= msg_val(mm)->Arr_0);
            }
            let r = Value::Array(items);
            r
        },
        Message::Response { id, result } => {
            let (e, v) = match result {
                Ok(v) => (Value::Nil, v),
                Err(e) => (e, Value::Nil),
            };
            let mut items: Vec<Value> = Vec::new();
            items.push(Value::Integer(1));
            items.push(Value::Integer(id as i128));
            items.push(e);
            items.push(v);
            proof {
                lemma_view_array(items);
                assert(view_all(items@) =~= msg_val(mm)->Arr_0);
            }
            let r = Value::Array(items);
            r
        },
        Message::Notification { method, params } => {
            proof {
                lemma_view_array(params);
            }
            let arr = Value::Array(params);
            let mut items: Vec<Value> = Vec::new();
            items.push(Value::Integer(2));
            items.push(Value::String(method));
            items.push(arr);
            proof {
                lemma_view_array(items);
                assert(view_all(items@) =~= msg_val(mm)->Arr_0);
            }
            let r = Value::Array(items);
            r
        },
    }
}

/// The bytes of a message on the wire.
pub fn encode_message(m: Message) -> (r: Vec<u8>)
    requires
        wf_msg(m@),
    ensures
        r@ == enc_msg(m@),
{
    let v = message_to_value(m);
    encode_value(&v)
}

/// The message that a decoded value stands for, if it has one of the three
/// shapes.
pub fn value_to_message(v: Value) -> (r: Option<Message>)
    ensures
        match val_msg(v@) {
            Some(m) => r matches Some(x) && x@ == m,
            None => r is None,
        },
{
    let ghost vv = v@;
    let mut xs = match v {
        Value::Array(xs) => {
            proof {
                lemma_view_array(xs);
            }
            xs
        },
        _ => return None,
    };
    let ghost xv = vv->Arr_0;
    assert(xv =~= view_all(xs@));
    let n = xs.len();
    if n == 4 {
        let x3 = xs.pop().unwrap();
        let x2 = xs.pop().unwrap();
        let x1 = xs.pop().unwrap();
        let x0 = xs.pop().unwrap();
        assert(x0@ == xv[0] && x1@ == xv[1] && x2@ == xv[2] && x3@ == xv[3]);
        let id = match x1 {
            Value::Integer(i) => if 0 <= i && i < 0x1_0000_0000_0000_0000 {
                i as u64
            } else {
                return None;
            },
            _ => return None,
        };
        match x0 {
            Value::Integer(0) => match (x2, x3) {
                (Value::String(method), Value::Array(params)) => {
                    proof {
                        lemma_view_array(params);
                    }
                    let r = Message::Request { id, method, params };
                    assert(view_all(params@) =~= xv[3]->Arr_0);
                    Some(r)
                },
                _ => None,
            },
            Value::Integer(1) => {
                let result = match x2 {
                    Value::Nil => Ok(x3),
                    e => Err(e),
                };
                Some(Message::Response { id, result })
            },
            _ => None,
        }
    } else if n == 3 {
        let x2 = xs.pop().unwrap();
        let x1 = xs.pop().unwrap();
        let x0 = xs.pop().unwrap();
        assert(x0@ == xv[0] && x1@ == xv[1] && x2@ == xv[2]);
        match (x0, x1, x2) {
            (Value::Integer(2), Value::String(method), Value::Array(params)) => {
                proof {
                    lemma_view_array(params);
                }
                assert(view_all(params@) =~= xv[2]->Arr_0);
                Some(Message::Notification { method, params })
            },
            _ => None,
        }
    } else {
        None
    }
}

/// Decodes one message from `buf` at position `pos`. A value of another
/// shape is malformed.
pub fn decode_message(buf: &Vec<u8>, pos: usize) -> (r: Decoded<Message>)
    ensures
        decoded_msg_is(r, parse_msg(buf@, pos as nat)),
        r matches Decoded::Done(_, e) ==> pos < e <= buf@.len(),
{
    match decode_at(buf, pos) {
        Decoded::Done(v, e) => match value_to_message(v) {
            Some(m) => Decoded::Done(m, e),
            None => Decoded::Malformed,
        },
        Decoded::Incomplete => Decoded::Incomplete,
        Decoded::Malformed => Decoded::Malformed,
    }
}

/// Round trip: the bytes written for a message decode to that message,
/// wherever they stand in a stream and whatever follows them.
pub proof fn lemma_message_round_trip(m: Msg, s: Seq<u8>, p: nat)
    requires
        wf_msg(m),
        round_trips(m),
        p + enc_msg(m).len() <= s.len(),
        s.subrange(p as int, (p + enc_msg(m).len()) as int) == enc_msg(m),
    ensures
        parse_msg(s, p) == Parsed::Done(m, p + enc_msg(m).len()),
{
    lemma_parse_enc(msg_val(m), s, p);
    lemma_val_msg(m);
}

/// A message's wire shape reads back as that message.
proof fn lemma_val_msg(m: Msg)
    requires
        round_trips(m),
    ensures
        val_msg(msg_val(m)) == Some(m),
{
    let xs = msg_val(m)->Arr_0;
    match m {
        Msg::Request { id, method, params } => {
            assert(xs[3]->Arr_0 == params);
        },
        Msg::Response { id, result } => {},
        Msg::Notification { method, params } => {
            assert(xs[2]->Arr_0 == params);
        },
    }
}

} // verus!
