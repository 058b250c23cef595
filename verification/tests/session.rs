//! Session tests: msgid assignment, the response-reordering invariant in
//! both directions, and protocol-violation reporting.

use nvim_rpc::neovim::{Action, Button, Modifiers, Neovim};
use nvim_rpc::rpc::{Message, Response};
use nvim_rpc::value::Value;

fn resp(msgid: u64, result: u64) -> Response {
    Response { msgid, result: Value::UInt(result), error: Value::Nil }
}

fn released_ids(out: &[Response]) -> Vec<u64> {
    out.iter().map(|r| r.msgid).collect()
}

#[test]
fn call_assigns_increasing_msgids() {
    let mut nv = Neovim::new();
    let a = nv.call(String::from("a"), vec![]);
    let b = nv.call(String::from("b"), vec![]);
    let c = nv.call(String::from("c"), vec![]);
    assert_eq!((a, b, c), (0, 1, 2));
    let queued = nv.take_outgoing();
    assert_eq!(queued.len(), 3);
    match &queued[0] {
        Message::Request(req) => {
            assert_eq!(req.msgid, 0);
            assert_eq!(req.method, "a");
        },
        other => panic!("wrong kind: {other:?}"),
    }
    assert!(nv.take_outgoing().is_empty());
}

#[test]
fn replies_in_reverse_order_release_immediately() {
    // Requests 0,1,2; replies arriving 2,1,0 each satisfy the stack top
    // on arrival.
    let mut nv = Neovim::new();
    nv.call(String::from("a"), vec![]);
    nv.call(String::from("b"), vec![]);
    nv.call(String::from("c"), vec![]);
    let out = nv.receive_response(resp(2, 20)).expect("reply 2");
    assert_eq!(released_ids(&out), vec![2]);
    let out = nv.receive_response(resp(1, 10)).expect("reply 1");
    assert_eq!(released_ids(&out), vec![1]);
    let out = nv.receive_response(resp(0, 0)).expect("reply 0");
    assert_eq!(released_ids(&out), vec![0]);
}

#[test]
fn replies_in_issue_order_cascade_at_the_end() {
    // Replies arriving 0,1,2 release nothing until 2 arrives, then all
    // three release together, newest first.
    let mut nv = Neovim::new();
    nv.call(String::from("a"), vec![]);
    nv.call(String::from("b"), vec![]);
    nv.call(String::from("c"), vec![]);
    let out = nv.receive_response(resp(0, 0)).expect("reply 0");
    assert!(out.is_empty());
    let out = nv.receive_response(resp(1, 10)).expect("reply 1");
    assert!(out.is_empty());
    let out = nv.receive_response(resp(2, 20)).expect("reply 2");
    assert_eq!(released_ids(&out), vec![2, 1, 0]);
    assert!(matches!(&out[2].result, Value::UInt(0)));
}

#[test]
fn mixed_arrival_order_still_releases_in_reverse() {
    let mut nv = Neovim::new();
    for name in ["a", "b", "c", "d", "e"] {
        nv.call(String::from(name), vec![]);
    }
    let mut released = Vec::new();
    for msgid in [1u64, 3, 4, 0, 2] {
        released.extend(released_ids(&nv.receive_response(resp(msgid, 0)).expect("ok")));
    }
    assert_eq!(released, vec![4, 3, 2, 1, 0]);
}

#[test]
fn unissued_msgid_is_a_violation_and_session_continues() {
    let mut nv = Neovim::new();
    nv.call(String::from("a"), vec![]);
    let violation = nv.receive_response(resp(99, 0)).expect_err("never issued");
    assert_eq!(violation.msgid, 99);
    // The session keeps working: the real reply still releases.
    let out = nv.receive_response(resp(0, 7)).expect("real reply");
    assert_eq!(released_ids(&out), vec![0]);
    // A second reply for an already-answered call is a violation too.
    let violation = nv.receive_response(resp(0, 7)).expect_err("answered twice");
    assert_eq!(violation.msgid, 0);
}

#[test]
fn duplicate_buffered_reply_is_a_violation() {
    let mut nv = Neovim::new();
    nv.call(String::from("a"), vec![]);
    nv.call(String::from("b"), vec![]);
    assert!(nv.receive_response(resp(0, 1)).expect("buffered").is_empty());
    let violation = nv.receive_response(resp(0, 2)).expect_err("duplicate");
    assert_eq!(violation.msgid, 0);
    let out = nv.receive_response(resp(1, 0)).expect("top");
    assert_eq!(released_ids(&out), vec![1, 0]);
}

#[test]
fn responses_to_peer_go_out_in_reverse_request_order() {
    // The peer asked 10 then 11; our answers must leave newest first,
    // whatever order we produce them in.
    let mut nv = Neovim::new();
    nv.receive_request(10);
    nv.receive_request(11);
    nv.send_response(resp(10, 1));
    assert!(nv.take_outgoing().is_empty());
    nv.send_response(resp(11, 2));
    let queued = nv.take_outgoing();
    let ids: Vec<u64> = queued
        .iter()
        .map(|m| match m {
            Message::Response(r) => r.msgid,
            other => panic!("wrong kind: {other:?}"),
        })
        .collect();
    assert_eq!(ids, vec![11, 10]);
}

#[test]
fn typed_calls_build_the_documented_requests() {
    let mut nv = Neovim::new();
    nv.input(String::from("ihello"));
    nv.input_mouse(Button::Left, Action::ButtonPress, Modifiers::new().with_ctrl(true), 1, 2, 3);
    nv.ui_try_resize_grid(1, 80, 24);
    nv.ui_attach();
    let queued = nv.take_outgoing();
    let methods: Vec<&str> = queued
        .iter()
        .map(|m| match m {
            Message::Request(r) => r.method.as_str(),
            other => panic!("wrong kind: {other:?}"),
        })
        .collect();
    assert_eq!(
        methods,
        vec!["nvim_input", "nvim_input_mouse", "nvim_ui_try_resize_grid", "nvim_ui_attach"]
    );
    match &queued[1] {
        Message::Request(r) => {
            assert!(matches!(&r.params[0], Value::Str(s) if s == "left"));
            assert!(matches!(&r.params[1], Value::Str(s) if s == "press"));
            assert!(matches!(&r.params[2], Value::Str(s) if s == "C"));
            assert!(matches!(r.params[3], Value::UInt(1)));
        },
        other => panic!("wrong kind: {other:?}"),
    }
    match &queued[3] {
        Message::Request(r) => {
            assert!(matches!(r.params[0], Value::UInt(80)));
            assert!(matches!(r.params[1], Value::UInt(10)));
            assert!(matches!(&r.params[2], Value::Mapping(pairs) if pairs.len() == 3));
        },
        other => panic!("wrong kind: {other:?}"),
    }
}
