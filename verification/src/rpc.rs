//! Atomic messages of the RPC stream and their framing.
//!
//! A message is a fixed-arity tagged array: `[0, msgid, method, params]`
//! for a request, `[1, msgid, error, result]` for a response and
//! `[2, method, params]` for a notification.  The leading integer tag
//! decides arity and field order.

use vstd::prelude::*;

use crate::value::{seq_view, value_view, view_wf, views_wf_from, Value, ValueView};
use crate::wire::{
    dec_value, enc_value, DecStep, DecodeError,
};

verus! {

/// A call this side or the peer initiates; the msgid correlates it with
/// its eventual response.
#[derive(Debug)]
pub struct Request {
    pub msgid: u64,
    pub method: String,
    pub params: Vec<Value>,
}

/// The answer to a request with the same msgid.  `error` is nil on
/// success; `result` is nil on failure.
#[derive(Debug)]
pub struct Response {
    pub msgid: u64,
    pub result: Value,
    pub error: Value,
}

/// A one-way message carrying an event; no reply is expected.
#[derive(Debug)]
pub struct Notification {
    pub method: String,
    pub params: Vec<Value>,
}

/// An atomic message of the stream.
#[derive(Debug)]
pub enum Message {
    Request(Request),
    Response(Response),
    Notification(Notification),
}

/// The model of a message.
pub ghost enum MessageView {
    Request { msgid: u64, method: Seq<char>, params: Seq<ValueView> },
    Response { msgid: u64, result: ValueView, error: ValueView },
    Notification { method: Seq<char>, params: Seq<ValueView> },
}

impl View for Request {
    type V = MessageView;

    open spec fn view(&self) -> MessageView {
        MessageView::Request {
            msgid: self.msgid,
            method: self.method@,
            params: seq_view(self.params@),
        }
    }
}

impl View for Response {
    type V = MessageView;

    open spec fn view(&self) -> MessageView {
        MessageView::Response {
            msgid: self.msgid,
            result: value_view(self.result),
            error: value_view(self.error),
        }
    }
}

impl View for Notification {
    type V = MessageView;

    open spec fn view(&self) -> MessageView {
        MessageView::Notification { method: self.method@, params: seq_view(self.params@) }
    }
}

impl View for Message {
    type V = MessageView;

    open spec fn view(&self) -> MessageView {
        match self {
            Message::Request(r) => r@,
            Message::Response(r) => r@,
            Message::Notification(n) => n@,
        }
    }
}

/// Well-formedness of a message model: its strings and parameter values
/// fit the wire's length fields.
pub open spec fn msg_wf(m: MessageView) -> bool {
    match m {
        MessageView::Request { msgid, method, params } => {
            &&& vstd::utf8::encode_utf8(method).len() <= 0xFFFF_FFFF
            &&& params.len() <= 0xFFFF_FFFF
            &&& views_wf_from(params, 0)
        },
        MessageView::Response { msgid, result, error } => view_wf(result) && view_wf(error),
        MessageView::Notification { method, params } => {
            &&& vstd::utf8::encode_utf8(method).len() <= 0xFFFF_FFFF
            &&& params.len() <= 0xFFFF_FFFF
            &&& views_wf_from(params, 0)
        },
    }
}

/// The tagged-array shape of a message on the wire.
pub open spec fn msg_to_value(m: MessageView) -> ValueView {
    match m {
        MessageView::Request { msgid, method, params } => ValueView::Array(
            seq![
                ValueView::Int(0),
                ValueView::Int(msgid as int),
                ValueView::Str(method),
                ValueView::Array(params),
            ],
        ),
        MessageView::Response { msgid, result, error } => ValueView::Array(
            seq![ValueView::Int(1), ValueView::Int(msgid as int), error, result],
        ),
        MessageView::Notification { method, params } => ValueView::Array(
            seq![ValueView::Int(2), ValueView::Str(method), ValueView::Array(params)],
        ),
    }
}

/// The message a decoded value stands for, if its shape is a message.
pub open spec fn value_to_msg(v: ValueView) -> Option<MessageView> {
    match v {
        ValueView::Array(items) => {
            if items.len() == 4 && items[0] == ValueView::Int(0) && (items[1] matches
            ValueView::Int(id) && 0 <= id <= 0xFFFF_FFFF_FFFF_FFFF) && items[2] is Str
                && items[3] is Array {
                Some(
                    MessageView::Request {
                        msgid: items[1]->Int_0 as u64,
                        method: items[2]->Str_0,
                        params: items[3]->Array_0,
                    },
                )
            } else if items.len() == 4 && items[0] == ValueView::Int(1) && (items[1] matches
            ValueView::Int(id) && 0 <= id <= 0xFFFF_FFFF_FFFF_FFFF) {
                Some(
                    MessageView::Response {
                        msgid: items[1]->Int_0 as u64,
                        result: items[3],
                        error: items[2],
                    },
                )
            } else if items.len() == 3 && items[0] == ValueView::Int(2) && items[1] is Str
                && items[2] is Array {
                Some(
                    MessageView::Notification {
                        method: items[1]->Str_0,
                        params: items[2]->Array_0,
                    },
                )
            } else {
                None
            }
        },
        _ => None,
    }
}

/// The canonical encoding of a message.
pub open spec fn enc_message(m: MessageView) -> Seq<u8> {
    enc_value(msg_to_value(m))
}

/// Decoding one message from the front of a byte sequence.
pub open spec fn dec_message(b: Seq<u8>) -> DecStep<MessageView> {
    match dec_value(b) {
        DecStep::Found(v, c) => match value_to_msg(v) {
            Some(m) => DecStep::Found(m, c),
            None => DecStep::Bad,
        },
        DecStep::Short => DecStep::Short,
        DecStep::Bad => DecStep::Bad,
    }
}

/// A message's wire shape is well formed exactly when the message is.
pub proof fn lemma_msg_value_wf(m: MessageView)
    ensures
        view_wf(msg_to_value(m)) <==> msg_wf(m),
{
    let items = msg_to_value(m)->Array_0;
    crate::value::lemma_views_wf_from(items, 0);
    match m {
        MessageView::Request { msgid, method, params } => {
            assert(items[0] == ValueView::Int(0));
            assert(items[1] == ValueView::Int(msgid as int));
            assert(items[2] == ValueView::Str(method));
            assert(items[3] == ValueView::Array(params));
            assert(view_wf(items[0]) && view_wf(items[1]));
        },
        MessageView::Response { msgid, result, error } => {
            assert(items[0] == ValueView::Int(1));
            assert(items[1] == ValueView::Int(msgid as int));
            assert(items[2] == error);
            assert(items[3] == result);
            assert(view_wf(items[0]) && view_wf(items[1]));
        },
        MessageView::Notification { method, params } => {
            assert(items[0] == ValueView::Int(2));
            assert(items[1] == ValueView::Str(method));
            assert(items[2] == ValueView::Array(params));
            assert(view_wf(items[0]));
        },
    }
}

/// A message's wire shape reads back as that message.
pub proof fn lemma_msg_value_shape(m: MessageView)
    ensures
        value_to_msg(msg_to_value(m)) == Some(m),
{
}

impl From<Request> for Message {
    fn from(r: Request) -> (m: Message)
        ensures
            m == Message::Request(r),
    {
        Message::Request(r)
    }
}

impl vstd::std_specs::convert::FromSpecImpl<Request> for Message {
    open spec fn obeys_from_spec() -> bool {
        true
    }

    open spec fn from_spec(r: Request) -> Message {
        Message::Request(r)
    }
}

impl From<Response> for Message {
    fn from(r: Response) -> (m: Message)
        ensures
            m == Message::Response(r),
    {
        Message::Response(r)
    }
}

impl vstd::std_specs::convert::FromSpecImpl<Response> for Message {
    open spec fn obeys_from_spec() -> bool {
        true
    }

    open spec fn from_spec(r: Response) -> Message {
        Message::Response(r)
    }
}

impl From<Notification> for Message {
    fn from(n: Notification) -> (m: Message)
        ensures
            m == Message::Notification(n),
    {
        Message::Notification(n)
    }
}

impl vstd::std_specs::convert::FromSpecImpl<Notification> for Message {
    open spec fn obeys_from_spec() -> bool {
        true
    }

    open spec fn from_spec(n: Notification) -> Message {
        Message::Notification(n)
    }
}

} // verus!

verus! {

/// A decoded message shape made of well-formed values is well formed.
pub proof fn lemma_value_msg_wf(v: ValueView, m: MessageView)
    requires
        view_wf(v),
        value_to_msg(v) == Some(m),
    ensures
        msg_wf(m),
{
    let items = v->Array_0;
    crate::value::lemma_views_wf_from(items, 0);
    match m {
        MessageView::Request { msgid, method, params } => {
            assert(view_wf(items[2]) && view_wf(items[3]));
        },
        MessageView::Response { msgid, result, error } => {
            assert(view_wf(items[2]) && view_wf(items[3]));
        },
        MessageView::Notification { method, params } => {
            assert(view_wf(items[1]) && view_wf(items[2]));
        },
    }
}

/// Law: a canonically encoded message decodes to itself, consuming
/// exactly its encoding.
pub proof fn lemma_message_round_trip(m: MessageView)
    requires
        msg_wf(m),
    ensures
        dec_message(enc_message(m)) == DecStep::Found(m, enc_message(m).len() as int),
{
    lemma_msg_value_wf(m);
    crate::wire::lemma_round_trip_value(msg_to_value(m));
    lemma_msg_value_shape(m);
}

/// Law: any bytes that decode to a message re-encode to bytes that decode
/// to that same message — re-encoding loses nothing, for every message
/// kind.
pub proof fn lemma_encode_of_decoded(b: Seq<u8>, m: MessageView, c: int)
    requires
        dec_message(b) == DecStep::Found(m, c),
    ensures
        msg_wf(m),
        dec_message(enc_message(m)) == DecStep::Found(m, enc_message(m).len() as int),
{
    crate::wire::lemma_dec_value_wf(b);
    if let DecStep::Found(v, c0) = dec_value(b) {
        lemma_value_msg_wf(v, m);
    }
    lemma_message_round_trip(m);
}

/// Encodes one message atomically into a fresh buffer.
pub fn encode(msg: Message) -> (r: Vec<u8>)
    requires
        msg_wf(msg@),
    ensures
        r@ == enc_message(msg@),
{
    let ghost mv = msg@;
    let val = match msg {
        Message::Request(req) => {
            let Request { msgid, method, params } = req;
            let ghost gparams = params@;
            let mut items: Vec<Value> = Vec::new();
            items.push(Value::UInt(0));
            items.push(Value::UInt(msgid));
            items.push(Value::Str(method));
            items.push(Value::Array(params));
            let v = Value::Array(items);
            proof {
                crate::value::lemma_seq_view(v->Array_0@);
                crate::value::lemma_seq_view(gparams);
                assert(value_view(v)->Array_0 =~= msg_to_value(mv)->Array_0);
                assert(value_view(v) == msg_to_value(mv));
            }
            v
        },
        Message::Response(resp) => {
            let Response { msgid, result, error } = resp;
            let mut items: Vec<Value> = Vec::new();
            items.push(Value::UInt(1));
            items.push(Value::UInt(msgid));
            items.push(error);
            items.push(result);
            let v = Value::Array(items);
            proof {
                crate::value::lemma_seq_view(v->Array_0@);
                assert(value_view(v)->Array_0 =~= msg_to_value(mv)->Array_0);
                assert(value_view(v) == msg_to_value(mv));
            }
            v
        },
        Message::Notification(note) => {
            let Notification { method, params } = note;
            let ghost gparams = params@;
            let mut items: Vec<Value> = Vec::new();
            items.push(Value::UInt(2));
            items.push(Value::Str(method));
            items.push(Value::Array(params));
            let v = Value::Array(items);
            proof {
                crate::value::lemma_seq_view(v->Array_0@);
                crate::value::lemma_seq_view(gparams);
                assert(value_view(v)->Array_0 =~= msg_to_value(mv)->Array_0);
                assert(value_view(v) == msg_to_value(mv));
            }
            v
        },
    };
    proof {
        lemma_msg_value_wf(mv);
    }
    let mut out: Vec<u8> = Vec::new();
    crate::wire::encode_value(&val, &mut out);
    out
}

/// Decodes one message starting at `pos`.  An empty remainder is the
/// expected end of the stream (`UnexpectedEof`); a partial encoding is
/// `Truncated`; bytes that are no message are `Malformed`.
pub fn decode(buf: &Vec<u8>, pos: usize) -> (r: Result<(Message, usize), DecodeError>)
    requires
        pos <= buf.len(),
    ensures
        match dec_message(buf@.skip(pos as int)) {
            DecStep::Found(mv, c) => r matches Ok(p) && p.0@ == mv && p.1 == pos + c && pos
                < p.1 <= buf.len() && msg_wf(p.0@),
            DecStep::Short => if pos == buf.len() {
                r == Err::<(Message, usize), DecodeError>(DecodeError::UnexpectedEof)
            } else {
                r == Err::<(Message, usize), DecodeError>(DecodeError::Truncated)
            },
            DecStep::Bad => r == Err::<(Message, usize), DecodeError>(DecodeError::Malformed),
        },
{
    let ghost b = buf@.skip(pos as int);
    if pos == buf.len() {
        assert(b.len() == 0);
        return Err(DecodeError::UnexpectedEof);
    }
    let (v, end) = match crate::wire::decode_value(buf, pos) {
        Ok(p) => p,
        Err(e) => {
            return Err(e);
        },
    };
    let ghost vv = v@;
    proof {
        crate::wire::lemma_dec_value_wf(b);
    }
    let mut items = match v.into_array() {
        Some(items) => items,
        None => {
            return Err(DecodeError::Malformed);
        },
    };
    let ghost ivs = seq_view(items@);
    proof {
        crate::value::lemma_seq_view(items@);
    }
    let len = items.len();
    if len != 3 && len != 4 {
        return Err(DecodeError::Malformed);
    }
    let tag = match items[0].as_u64() {
        Some(t) => t,
        None => {
            return Err(DecodeError::Malformed);
        },
    };
    if tag == 0 && len == 4 {
        let params_v = items.pop().unwrap();
        let method_v = items.pop().unwrap();
        let msgid_v = items.pop().unwrap();
        proof {
            assert(params_v@ == ivs[3]);
            assert(method_v@ == ivs[2]);
            assert(msgid_v@ == ivs[1]);
        }
        let msgid = match msgid_v.as_u64() {
            Some(id) => id,
            None => {
                return Err(DecodeError::Malformed);
            },
        };
        let method = match method_v.into_string() {
            Some(s) => s,
            None => {
                return Err(DecodeError::Malformed);
            },
        };
        let params = match params_v.into_array() {
            Some(ps) => ps,
            None => {
                return Err(DecodeError::Malformed);
            },
        };
        let msg = Message::Request(Request { msgid, method, params });
        proof {
            lemma_value_msg_wf(vv, msg@);
        }
        Ok((msg, end))
    } else if tag == 1 && len == 4 {
        let result = items.pop().unwrap();
        let error = items.pop().unwrap();
        let msgid_v = items.pop().unwrap();
        proof {
            assert(result@ == ivs[3]);
            assert(error@ == ivs[2]);
            assert(msgid_v@ == ivs[1]);
        }
        let msgid = match msgid_v.as_u64() {
            Some(id) => id,
            None => {
                return Err(DecodeError::Malformed);
            },
        };
        let msg = Message::Response(Response { msgid, result, error });
        proof {
            lemma_value_msg_wf(vv, msg@);
        }
        Ok((msg, end))
    } else if tag == 2 && len == 3 {
        let params_v = items.pop().unwrap();
        let method_v = items.pop().unwrap();
        proof {
            assert(params_v@ == ivs[2]);
            assert(method_v@ == ivs[1]);
        }
        let method = match method_v.into_string() {
            Some(s) => s,
            None => {
                return Err(DecodeError::Malformed);
            },
        };
        let params = match params_v.into_array() {
            Some(ps) => ps,
            None => {
                return Err(DecodeError::Malformed);
            },
        };
        let msg = Message::Notification(Notification { method, params });
        proof {
            lemma_value_msg_wf(vv, msg@);
        }
        Ok((msg, end))
    } else {
        Err(DecodeError::Malformed)
    }
}

} // verus!
