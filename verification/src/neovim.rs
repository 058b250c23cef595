//! The client-facing session: msgid assignment, request/response
//! correlation under the peer's stack discipline, and the typed input
//! calls the client sends.
//!
//! The peer answers requests in strict reverse order of issuance — the
//! last request sent is the first answered.  A response is therefore
//! released only when its msgid equals the top of the pending stack;
//! releasing one response may unblock others already buffered.

use vstd::prelude::*;
use vstd::multiset::Multiset;
use vstd::seq_lib::*;

use crate::rpc::{Message, Request, Response};
use crate::value::{Value, ValueView};

verus! {

/// One side of the correlation state: a LIFO stack of msgids awaiting
/// answers, and the answers that arrived out of order, buffered until
/// their msgid reaches the top of the stack.
#[derive(Debug)]
pub struct Incoming {
    requests: Vec<u64>,
    responses: Vec<Response>,
}

/// The msgids of a buffered response sequence, in buffer order.
pub open spec fn resp_ids(responses: Seq<Response>) -> Seq<u64> {
    responses.map_values(|r: Response| r.msgid)
}

/// A buffer strictly sorted by msgid: unique ids, greatest last.
pub open spec fn resp_sorted(responses: Seq<Response>) -> bool {
    forall|i: int, j: int|
        0 <= i < j < responses.len() ==> responses[i].msgid < responses[j].msgid
}

/// What one cascade of releases does: while the top of the stack is the
/// msgid of the last (greatest) buffered response, pop both and emit the
/// response; the result is the remaining stack, the remaining buffer and
/// the emitted responses in emission order.
pub open spec fn spec_release(requests: Seq<u64>, responses: Seq<Response>) -> (
    Seq<u64>,
    Seq<Response>,
    Seq<Response>,
)
    decreases responses.len(),
{
    if requests.len() > 0 && responses.len() > 0 && requests.last() == responses.last().msgid {
        let stepped = spec_release(requests.drop_last(), responses.drop_last());
        (stepped.0, stepped.1, seq![responses.last()] + stepped.2)
    } else {
        (requests, responses, Seq::empty())
    }
}

/// The cascade pops the same count from the stack and the buffer, and
/// emits exactly the popped responses, top first.
pub proof fn lemma_spec_release(requests: Seq<u64>, responses: Seq<Response>)
    ensures
        ({
            let (rq, rs, out) = spec_release(requests, responses);
            &&& out.len() <= requests.len()
            &&& out.len() <= responses.len()
            &&& rq == requests.take(requests.len() - out.len())
            &&& rs == responses.take(responses.len() - out.len())
            &&& forall|j: int|
                0 <= j < out.len() ==> out[j] == responses[responses.len() - 1 - j]
            &&& forall|j: int|
                0 <= j < out.len() ==> out[j].msgid == requests[requests.len() - 1 - j]
            &&& resp_ids(out) == requests.skip(requests.len() - out.len()).reverse()
            &&& !(rq.len() > 0 && rs.len() > 0 && rq.last() == rs.last().msgid)
        }),
    decreases responses.len(),
{
    let (rq, rs, out) = spec_release(requests, responses);
    if requests.len() > 0 && responses.len() > 0 && requests.last() == responses.last().msgid {
        lemma_spec_release(requests.drop_last(), responses.drop_last());
        let stepped = spec_release(requests.drop_last(), responses.drop_last());
        assert(requests.drop_last() =~= requests.take(requests.len() - 1));
        assert(responses.drop_last() =~= responses.take(responses.len() - 1));
        assert(rq =~= requests.take(requests.len() - out.len()));
        assert(rs =~= responses.take(responses.len() - out.len()));
        assert(resp_ids(out) =~= requests.skip(requests.len() - out.len()).reverse());
    } else {
        assert(rq =~= requests.take(requests.len() - 0));
        assert(rs =~= responses.take(responses.len() - 0));
        assert(resp_ids(out) =~= requests.skip(requests.len() as int).reverse());
    }
}

/// Insertion into a msgid-sorted buffer, from the high end.
pub open spec fn insert_sorted(b: Seq<Response>, r: Response) -> Seq<Response>
    decreases b.len(),
{
    if b.len() == 0 {
        seq![r]
    } else if b.last().msgid <= r.msgid {
        b.push(r)
    } else {
        insert_sorted(b.drop_last(), r).push(b.last())
    }
}

/// Where the scan from the high end stops is where the sorted insert
/// puts the new response.
pub proof fn lemma_insert_sorted_is_insert(b: Seq<Response>, r: Response, pos: int)
    requires
        0 <= pos <= b.len(),
        forall|j: int| pos <= j < b.len() ==> b[j].msgid > r.msgid,
        pos > 0 ==> b[pos - 1].msgid < r.msgid,
    ensures
        insert_sorted(b, r) == b.insert(pos, r),
    decreases b.len(),
{
    b.insert_ensures(pos, r);
    if b.len() == 0 {
        assert(insert_sorted(b, r) =~= b.insert(0, r));
    } else if b.last().msgid <= r.msgid {
        assert(pos == b.len());
        assert(insert_sorted(b, r) =~= b.insert(pos, r));
    } else {
        assert(pos < b.len());
        lemma_insert_sorted_is_insert(b.drop_last(), r, pos);
        b.drop_last().insert_ensures(pos, r);
        assert(insert_sorted(b, r) =~= b.insert(pos, r));
    }
}

impl Incoming {
    /// The pending msgid stack; the last element is the top.
    pub closed spec fn pending(self) -> Seq<u64> {
        self.requests@
    }

    /// The buffered responses, ordered by msgid.
    pub closed spec fn buffered(self) -> Seq<Response> {
        self.responses@
    }

    /// The msgids of the buffered responses.
    pub closed spec fn buffered_ids(self) -> Seq<u64> {
        resp_ids(self.responses@)
    }

    /// The buffer is strictly sorted by msgid, so its msgids are unique
    /// and its last element is the greatest.
    pub closed spec fn wf(self) -> bool {
        resp_sorted(self.responses@)
    }

    pub fn new() -> (r: Incoming)
        ensures
            r.pending() == Seq::<u64>::empty(),
            r.buffered() == Seq::<Response>::empty(),
            r.wf(),
    {
        Incoming { requests: Vec::new(), responses: Vec::new() }
    }

    /// Tracks one more unanswered request, on top of the stack.
    pub fn push_request(&mut self, msgid: u64)
        ensures
            final(self).pending() == old(self).pending().push(msgid),
            final(self).buffered() == old(self).buffered(),
            final(self).wf() == old(self).wf(),
    {
        self.requests.push(msgid);
    }

    /// Whether a response with this msgid is already buffered.
    pub fn is_buffered(&self, msgid: u64) -> (r: bool)
        ensures
            r == self.buffered_ids().contains(msgid),
    {
        let mut i: usize = 0;
        while i < self.responses.len()
            invariant
                i <= self.responses@.len(),
                forall|j: int| 0 <= j < i ==> self.responses@[j].msgid != msgid,
            decreases self.responses@.len() - i,
        {
            if self.responses[i].msgid == msgid {
                assert(self.buffered_ids()[i as int] == msgid);
                return true;
            }
            i = i + 1;
        }
        proof {
            assert(forall|j: int|
                0 <= j < self.buffered_ids().len() ==> self.buffered_ids()[j] != msgid);
        }
        false
    }

    /// Whether a request with this msgid is pending.
    pub fn is_pending(&self, msgid: u64) -> (r: bool)
        ensures
            r == self.pending().contains(msgid),
    {
        let mut i: usize = 0;
        while i < self.requests.len()
            invariant
                i <= self.requests@.len(),
                forall|j: int| 0 <= j < i ==> self.requests@[j] != msgid,
            decreases self.requests@.len() - i,
        {
            if self.requests[i] == msgid {
                return true;
            }
            i = i + 1;
        }
        false
    }

    /// Buffers a response that arrived before its turn, keeping the
    /// buffer sorted by msgid.
    pub fn push_response(&mut self, response: Response)
        requires
            old(self).wf(),
            !old(self).buffered_ids().contains(response.msgid),
        ensures
            final(self).wf(),
            final(self).pending() == old(self).pending(),
            final(self).buffered() == insert_sorted(old(self).buffered(), response),
    {
        let ghost orig = self.responses@;
        let mut i: usize = self.responses.len();
        while i > 0
            invariant
                self.responses@ == orig,
                orig == old(self).responses@,
                !resp_ids(orig).contains(response.msgid),
                i <= orig.len(),
                forall|j: int| i <= j < orig.len() ==> orig[j].msgid > response.msgid,
            ensures
                self.responses@ == orig,
                i <= orig.len(),
                forall|j: int| i <= j < orig.len() ==> orig[j].msgid > response.msgid,
                i > 0 ==> orig[i - 1].msgid < response.msgid,
            decreases i,
        {
            if self.responses[i - 1].msgid < response.msgid {
                break;
            }
            proof {
                let ids = resp_ids(orig);
                assert(ids[i - 1] == orig[i - 1].msgid);
                if orig[i - 1].msgid == response.msgid {
                    assert(ids.contains(response.msgid)) by {
                        assert(ids[i - 1] == response.msgid);
                    }
                    assert(false);
                }
            }
            i = i - 1;
        }
        let ghost pos = i as int;
        self.responses.insert(i, response);
        proof {
            orig.insert_ensures(pos, response);
            let s = self.responses@;
            assert(s == orig.insert(pos, response));
            assert forall|a: int, b: int|
                0 <= a < b < s.len() implies s[a].msgid < s[b].msgid by {
                if b < pos {
                } else if a > pos {
                    assert(s[(a - 1) + 1] == orig[a - 1]);
                    assert(s[(b - 1) + 1] == orig[b - 1]);
                } else if a < pos && b == pos {
                    assert(s[a] == orig[a]);
                    assert(orig[a].msgid <= orig[pos - 1].msgid);
                } else if a == pos && b > pos {
                    assert(s[(b - 1) + 1] == orig[b - 1]);
                } else {
                    assert(s[a] == orig[a]);
                    assert(s[(b - 1) + 1] == orig[b - 1]);
                }
            }
            assert(final(self).buffered() == old(self).buffered().insert(pos, response));
            lemma_insert_sorted_is_insert(orig, response, pos);
        }
    }

    /// Releases the next response when the top of the stack has been
    /// answered: pops both and hands the response out.
    pub fn next_ready(&mut self) -> (r: Option<Response>)
        requires
            old(self).wf(),
        ensures
            final(self).wf(),
            if old(self).pending().len() > 0 && old(self).buffered().len() > 0 && old(
                self,
            ).pending().last() == old(self).buffered().last().msgid {
                r matches Some(resp) && resp == old(self).buffered().last() && final(self).pending()
                    == old(self).pending().drop_last() && final(self).buffered() == old(
                    self,
                ).buffered().drop_last()
            } else {
                r is None && *final(self) == *old(self)
            },
    {
        if self.requests.len() > 0 && self.responses.len() > 0 {
            let top = self.requests[self.requests.len() - 1];
            let high = self.responses[self.responses.len() - 1].msgid;
            if top == high {
                self.requests.pop();
                let resp = self.responses.pop().unwrap();
                proof {
                    assert(final(self).pending() =~= old(self).pending().drop_last());
                    assert(final(self).buffered() =~= old(self).buffered().drop_last());
                }
                return Some(resp);
            }
        }
        None
    }
}

} // verus!

verus! {

impl Incoming {
    /// Cascade: releases buffered responses for as long as the top of the
    /// stack has been answered.  A single arrival may unblock several.
    pub fn release_all(&mut self) -> (out: Vec<Response>)
        requires
            old(self).wf(),
        ensures
            final(self).wf(),
            final(self).pending() == spec_release(old(self).pending(), old(self).buffered()).0,
            final(self).buffered() == spec_release(old(self).pending(), old(self).buffered()).1,
            out@ == spec_release(old(self).pending(), old(self).buffered()).2,
    {
        let ghost p0 = self.pending();
        let ghost b0 = self.buffered();
        let mut out: Vec<Response> = Vec::new();
        loop
            invariant
                self.wf(),
                spec_release(p0, b0).0 == spec_release(self.pending(), self.buffered()).0,
                spec_release(p0, b0).1 == spec_release(self.pending(), self.buffered()).1,
                spec_release(p0, b0).2 == out@ + spec_release(self.pending(), self.buffered()).2,
            ensures
                self.wf(),
                spec_release(p0, b0).0 == self.pending(),
                spec_release(p0, b0).1 == self.buffered(),
                spec_release(p0, b0).2 == out@,
            decreases self.buffered().len(),
        {
            let ghost pp = self.pending();
            let ghost bb = self.buffered();
            match self.next_ready() {
                Some(resp) => {
                    proof {
                        assert(spec_release(pp, bb).2 == seq![resp] + spec_release(
                            self.pending(),
                            self.buffered(),
                        ).2);
                    }
                    out.push(resp);
                    proof {
                        assert(out@.drop_last() + (seq![resp] + spec_release(
                            self.pending(),
                            self.buffered(),
                        ).2) =~= out@ + spec_release(self.pending(), self.buffered()).2);
                    }
                },
                None => {
                    proof {
                        assert(spec_release(pp, bb).2 =~= Seq::<Response>::empty());
                        assert(out@ + spec_release(pp, bb).2 =~= out@);
                    }
                    break;
                },
            }
        }
        out
    }
}

/// A response whose msgid matches no request this session issued and
/// still awaits: reported, never fatal to the session.
#[derive(Debug, Clone, Copy, PartialEq, Eq, Structural)]
pub struct ProtocolViolation {
    pub msgid: u64,
}

impl ProtocolViolation {
    /// A description for logs.
    pub fn message(&self) -> String {
        String::from_str("response carries a msgid that no pending request of this session bears")
    }
}

/// What the reader's owner implements: the three things a decoded inbound
/// message can require of the application.
pub trait StdoutHandler {
    fn handle_notification(&mut self, notification: crate::rpc::Notification);

    fn handle_request(&mut self, request: Request);

    fn handle_shutdown(&mut self);
}

} // verus!

verus! {

/// Strictly ascending msgids: a fresh counter value tops every earlier
/// one, so the pending stack's top is also its maximum.
pub open spec fn strictly_increasing(s: Seq<u64>) -> bool {
    forall|i: int, j: int| 0 <= i < j < s.len() ==> s[i] < s[j]
}

/// The models of a message sequence.
pub open spec fn msg_views(ms: Seq<Message>) -> Seq<crate::rpc::MessageView> {
    ms.map_values(|m: Message| m@)
}

/// The models of a response sequence, as response messages.
pub open spec fn resp_views(rs: Seq<Response>) -> Seq<crate::rpc::MessageView> {
    rs.map_values(|r: Response| r@)
}

/// The session: assigns msgids, queues outbound messages for the writer,
/// and applies the response-reordering invariant in both directions —
/// to replies the peer owes this side, and to responses this side owes
/// the peer.
#[derive(Debug)]
pub struct Neovim {
    next_msgid: u64,
    pending: Incoming,
    incoming: Incoming,
    outgoing: Vec<Message>,
}

impl Neovim {
    /// The msgid the next call will draw.
    pub closed spec fn counter(self) -> u64 {
        self.next_msgid
    }

    /// Msgids of calls this side issued, not yet answered; the last is
    /// the newest.
    pub closed spec fn pending_ids(self) -> Seq<u64> {
        self.pending.pending()
    }

    /// Replies that arrived out of order, still held back.
    pub closed spec fn buffered_replies(self) -> Seq<Response> {
        self.pending.buffered()
    }

    /// Msgids of requests the peer issued, not yet answered by this side.
    pub closed spec fn peer_pending_ids(self) -> Seq<u64> {
        self.incoming.pending()
    }

    /// This side's responses held back until their turn.
    pub closed spec fn queued_responses(self) -> Seq<Response> {
        self.incoming.buffered()
    }

    /// The models of the queued outbound messages, writer order.
    pub closed spec fn outgoing_views(self) -> Seq<crate::rpc::MessageView> {
        msg_views(self.outgoing@)
    }

    /// Session well-formedness: both correlation buffers are sorted, and
    /// pending msgids ascend strictly below the counter.
    pub closed spec fn wf(self) -> bool {
        &&& self.pending.wf()
        &&& self.incoming.wf()
        &&& strictly_increasing(self.pending.pending())
        &&& forall|j: int|
            0 <= j < self.pending.pending().len() ==> self.pending.pending()[j]
                < self.next_msgid
    }

    /// A fresh session: counter at zero, nothing pending, nothing queued.
    pub fn new() -> (r: Neovim)
        ensures
            r.wf(),
            r.counter() == 0,
            r.pending_ids() == Seq::<u64>::empty(),
            r.buffered_replies() == Seq::<Response>::empty(),
            r.peer_pending_ids() == Seq::<u64>::empty(),
            r.queued_responses() == Seq::<Response>::empty(),
            r.outgoing_views() == Seq::<crate::rpc::MessageView>::empty(),
    {
        let r = Neovim {
            next_msgid: 0,
            pending: Incoming::new(),
            incoming: Incoming::new(),
            outgoing: Vec::new(),
        };
        proof {
            assert(r.outgoing_views() =~= Seq::<crate::rpc::MessageView>::empty());
        }
        r
    }

    /// Draws the next msgid, queues the request for the writer, tracks
    /// the msgid as pending, and returns it at once; the reply arrives
    /// asynchronously through `receive_response`.
    pub fn call(&mut self, method: String, params: Vec<Value>) -> (r: u64)
        requires
            old(self).wf(),
            old(self).counter() < 0xFFFF_FFFF_FFFF_FFFF,
        ensures
            final(self).wf(),
            r == old(self).counter(),
            final(self).counter() == old(self).counter() + 1,
            final(self).pending_ids() == old(self).pending_ids().push(r),
            final(self).buffered_replies() == old(self).buffered_replies(),
            final(self).peer_pending_ids() == old(self).peer_pending_ids(),
            final(self).queued_responses() == old(self).queued_responses(),
            final(self).outgoing_views() == old(self).outgoing_views().push(
                crate::rpc::MessageView::Request {
                    msgid: r,
                    method: method@,
                    params: crate::value::seq_view(params@),
                },
            ),
    {
        let msgid = self.next_msgid;
        self.next_msgid = self.next_msgid + 1;
        let req = Request { msgid, method, params };
        self.outgoing.push(Message::Request(req));
        self.pending.push_request(msgid);
        proof {
            assert(final(self).outgoing_views() =~= old(self).outgoing_views().push(
                final(self).outgoing@.last()@,
            ));
        }
        msgid
    }

    /// Hands the queued outbound messages to the writer, oldest first,
    /// leaving the queue empty.
    pub fn take_outgoing(&mut self) -> (r: Vec<Message>)
        ensures
            msg_views(r@) == old(self).outgoing_views(),
            final(self).outgoing_views() == Seq::<crate::rpc::MessageView>::empty(),
            final(self).wf() == old(self).wf(),
            final(self).counter() == old(self).counter(),
            final(self).pending_ids() == old(self).pending_ids(),
            final(self).buffered_replies() == old(self).buffered_replies(),
            final(self).peer_pending_ids() == old(self).peer_pending_ids(),
            final(self).queued_responses() == old(self).queued_responses(),
    {
        let mut out: Vec<Message> = Vec::new();
        core::mem::swap(&mut out, &mut self.outgoing);
        proof {
            assert(final(self).outgoing_views() =~= Seq::<crate::rpc::MessageView>::empty());
        }
        out
    }

    /// Tracks a request the peer issued; this side owes it a response,
    /// in reverse order of the peer's issuance.
    pub fn receive_request(&mut self, msgid: u64)
        requires
            old(self).wf(),
        ensures
            final(self).wf(),
            final(self).peer_pending_ids() == old(self).peer_pending_ids().push(msgid),
            final(self).counter() == old(self).counter(),
            final(self).pending_ids() == old(self).pending_ids(),
            final(self).buffered_replies() == old(self).buffered_replies(),
            final(self).queued_responses() == old(self).queued_responses(),
            final(self).outgoing_views() == old(self).outgoing_views(),
    {
        self.incoming.push_request(msgid);
    }

    /// Takes a reply the peer sent for one of this side's calls.  A
    /// msgid that no pending call bears — never issued, already
    /// answered, or answered twice — is a protocol violation: it is
    /// reported and the session state is left untouched.  Otherwise the
    /// reply is buffered and every response whose turn has come is
    /// released, in strict reverse issuance order.
    pub fn receive_response(&mut self, response: Response) -> (r: Result<
        Vec<Response>,
        ProtocolViolation,
    >)
        requires
            old(self).wf(),
        ensures
            final(self).wf(),
            final(self).counter() == old(self).counter(),
            final(self).peer_pending_ids() == old(self).peer_pending_ids(),
            final(self).queued_responses() == old(self).queued_responses(),
            final(self).outgoing_views() == old(self).outgoing_views(),
            if !old(self).pending_ids().contains(response.msgid) || resp_ids(
                old(self).buffered_replies(),
            ).contains(response.msgid) {
                r matches Err(v) && v.msgid == response.msgid && final(self).pending_ids() == old(
                    self,
                ).pending_ids() && final(self).buffered_replies() == old(self).buffered_replies()
            } else {
                ({
                    let stepped = spec_release(
                        old(self).pending_ids(),
                        insert_sorted(old(self).buffered_replies(), response),
                    );
                    r matches Ok(out) && out@ == stepped.2 && final(self).pending_ids()
                        == stepped.0 && final(self).buffered_replies() == stepped.1
                })
            },
    {
        if !self.pending.is_pending(response.msgid) || self.pending.is_buffered(response.msgid) {
            return Err(ProtocolViolation { msgid: response.msgid });
        }
        let ghost p0 = self.pending.pending();
        let ghost b1 = insert_sorted(self.pending.buffered(), response);
        self.pending.push_response(response);
        let out = self.pending.release_all();
        proof {
            lemma_spec_release(p0, b1);
            let stepped = spec_release(p0, b1);
            assert(stepped.0 =~= p0.take(p0.len() - stepped.2.len()));
            assert forall|a: int, b: int|
                0 <= a < b < final(self).pending_ids().len() implies final(self).pending_ids()[a]
                < final(self).pending_ids()[b] by {
                assert(final(self).pending_ids()[a] == p0[a]);
                assert(final(self).pending_ids()[b] == p0[b]);
            }
            let pf = final(self).pending_ids();
            assert forall|j: int| 0 <= j < pf.len() implies pf[j] < final(self).counter() by {
                assert(pf[j] == p0[j]);
            }
        }
        Ok(out)
    }

    /// Queues this side's response to a request the peer issued.  It is
    /// held back until its msgid tops the peer's request stack; then it
    /// and every other response whose turn has come move to the outgoing
    /// queue, newest request answered first.  A response whose msgid is
    /// already queued is dropped.
    pub fn send_response(&mut self, response: Response)
        requires
            old(self).wf(),
        ensures
            final(self).wf(),
            final(self).counter() == old(self).counter(),
            final(self).pending_ids() == old(self).pending_ids(),
            final(self).buffered_replies() == old(self).buffered_replies(),
            if resp_ids(old(self).queued_responses()).contains(response.msgid) {
                final(self).peer_pending_ids() == old(self).peer_pending_ids() && final(self).queued_responses() == old(self).queued_responses() && final(self).outgoing_views()
                    == old(self).outgoing_views()
            } else {
                ({
                    let stepped = spec_release(
                        old(self).peer_pending_ids(),
                        insert_sorted(old(self).queued_responses(), response),
                    );
                    final(self).peer_pending_ids() == stepped.0 && final(self).queued_responses()
                        == stepped.1 && final(self).outgoing_views() == old(self).outgoing_views()
                        + resp_views(stepped.2)
                })
            },
    {
        if self.incoming.is_buffered(response.msgid) {
            return ;
        }
        self.incoming.push_response(response);
        let mut released = self.incoming.release_all();
        let ghost rel = released@;
        let ghost out0 = self.outgoing@;
        let ghost inc1 = self.incoming;
        proof {
            assert(msg_views(out0) + resp_views(rel).take(0) =~= msg_views(out0));
            assert(rel.skip(0) =~= rel);
        }
        while released.len() > 0
            invariant
                released@ == rel.skip(rel.len() - released@.len()),
                released@.len() <= rel.len(),
                msg_views(self.outgoing@) == msg_views(out0) + resp_views(rel).take(
                    rel.len() - released@.len(),
                ),
                self.next_msgid == old(self).next_msgid,
                self.pending == old(self).pending,
                self.incoming == inc1,
            decreases released.len(),
        {
            let ghost lpre = released@;
            let ghost k = rel.len() - lpre.len();
            let resp = released.remove(0);
            proof {
                assert(resp == lpre[0]);
                assert(rel.skip(k)[0] == rel[k]);
                assert(resp == rel[k]);
                assert(released@ =~= rel.skip(k + 1));
            }
            let ghost pre_out = self.outgoing@;
            self.outgoing.push(Message::Response(resp));
            proof {
                let m = self.outgoing@.last();
                assert(self.outgoing@ == pre_out.push(m));
                assert(msg_views(self.outgoing@) =~= msg_views(pre_out).push(m@));
                assert(resp_views(rel).take(k + 1) =~= resp_views(rel).take(k).push(rel[k]@));
                assert(m@ == rel[k]@);
                assert(msg_views(self.outgoing@) =~= msg_views(out0) + resp_views(rel).take(k + 1));
            }
        }
        proof {
            assert(resp_views(rel).take(rel.len() as int) =~= resp_views(rel));
        }
    }
}

} // verus!

verus! {

/// A mouse button the peer understands.
#[derive(Debug, Clone, Copy, PartialEq, Eq, Structural)]
pub enum Button {
    Left,
    Right,
    Middle,
    Wheel,
    Move,
}

impl Button {
    /// The wire name of this button.
    pub open spec fn spec_str(self) -> Seq<char> {
        match self {
            Button::Left => "left"@,
            Button::Right => "right"@,
            Button::Middle => "middle"@,
            Button::Wheel => "wheel"@,
            Button::Move => "move"@,
        }
    }

    /// The wire name of this button.
    pub fn as_str(self) -> (r: &'static str)
        ensures
            r@ == self.spec_str(),
    {
        match self {
            Button::Left => "left",
            Button::Right => "right",
            Button::Middle => "middle",
            Button::Wheel => "wheel",
            Button::Move => "move",
        }
    }

    /// The wire value of this button.
    pub fn to_value(self) -> (r: Value)
        ensures
            crate::value::value_view(r) == ValueView::Str(self.spec_str()),
    {
        Value::Str(String::from_str(self.as_str()))
    }
}

/// A windowing-system button this client has no peer name for.
#[derive(Debug, Clone, Copy, PartialEq, Eq, Structural)]
pub struct ButtonFromWinitError;

impl ButtonFromWinitError {
    /// A description for logs.
    pub fn message(&self) -> String {
        String::from_str("no button name for the given mouse button")
    }
}

/// What happened to a mouse button or wheel.
#[derive(Debug, Clone, Copy, PartialEq, Eq, Structural)]
pub enum Action {
    ButtonPress,
    ButtonDrag,
    ButtonRelease,
    WheelUp,
    WheelDown,
    WheelLeft,
    WheelRight,
}

impl Action {
    /// The wire name of this action.
    pub open spec fn spec_str(self) -> Seq<char> {
        match self {
            Action::ButtonPress => "press"@,
            Action::ButtonDrag => "drag"@,
            Action::ButtonRelease => "release"@,
            Action::WheelUp => "up"@,
            Action::WheelDown => "down"@,
            Action::WheelLeft => "left"@,
            Action::WheelRight => "right"@,
        }
    }

    /// The wire name of this action.
    pub fn as_str(self) -> (r: &'static str)
        ensures
            r@ == self.spec_str(),
    {
        match self {
            Action::ButtonPress => "press",
            Action::ButtonDrag => "drag",
            Action::ButtonRelease => "release",
            Action::WheelUp => "up",
            Action::WheelDown => "down",
            Action::WheelLeft => "left",
            Action::WheelRight => "right",
        }
    }

    /// The wire value of this action.
    pub fn to_value(self) -> (r: Value)
        ensures
            crate::value::value_view(r) == ValueView::Str(self.spec_str()),
    {
        Value::Str(String::from_str(self.as_str()))
    }
}

/// The bit that records the control key.
pub const MOD_CTRL: u8 = 0x1;

/// The bit that records the shift key.
pub const MOD_SHIFT: u8 = 0x2;

/// The bit that records the alt key.
pub const MOD_ALT: u8 = 0x4;

/// The bit that records the super key.
pub const MOD_LOGO: u8 = 0x8;

/// The modifier keys held during an input, packed into one byte.
#[derive(Debug, Clone, Copy, PartialEq, Eq, PartialOrd, Ord, Structural)]
pub struct Modifiers(u8);

impl Modifiers {
    /// Whether the control bit is set.
    pub closed spec fn spec_ctrl(self) -> bool {
        self.0 & MOD_CTRL != 0
    }

    /// Whether the shift bit is set.
    pub closed spec fn spec_shift(self) -> bool {
        self.0 & MOD_SHIFT != 0
    }

    /// Whether the alt bit is set.
    pub closed spec fn spec_alt(self) -> bool {
        self.0 & MOD_ALT != 0
    }

    /// Whether the super bit is set.
    pub closed spec fn spec_logo(self) -> bool {
        self.0 & MOD_LOGO != 0
    }

    /// No modifiers held.
    pub fn new() -> (r: Self)
        ensures
            !r.spec_ctrl(),
            !r.spec_shift(),
            !r.spec_alt(),
            !r.spec_logo(),
    {
        proof {
            assert(0u8 & 0x1u8 == 0 && 0u8 & 0x2u8 == 0 && 0u8 & 0x4u8 == 0 && 0u8 & 0x8u8 == 0)
                by (bit_vector);
        }
        Modifiers(0)
    }

    /// The same modifiers, with the control bit also set when `value`.
    pub fn with_ctrl(self, value: bool) -> (r: Self)
        ensures
            r.spec_ctrl() == (self.spec_ctrl() || value),
            r.spec_shift() == self.spec_shift(),
            r.spec_alt() == self.spec_alt(),
            r.spec_logo() == self.spec_logo(),
    {
        let bits = if value {
            self.0 | MOD_CTRL
        } else {
            self.0
        };
        proof {
            let a = self.0;
            assert(((a | 0x1u8) & 0x1u8 != 0) && ((a | 0x1u8) & 0x2u8 == a & 0x2u8) && ((a
                | 0x1u8) & 0x4u8 == a & 0x4u8) && ((a | 0x1u8) & 0x8u8 == a & 0x8u8))
                by (bit_vector);
        }
        Modifiers(bits)
    }

    /// Whether the control key is held.
    pub fn ctrl(self) -> (r: bool)
        ensures
            r == self.spec_ctrl(),
    {
        self.0 & MOD_CTRL > 0
    }

    /// The same modifiers, with the shift bit also set when `value`.
    pub fn with_shift(self, value: bool) -> (r: Self)
        ensures
            r.spec_shift() == (self.spec_shift() || value),
            r.spec_ctrl() == self.spec_ctrl(),
            r.spec_alt() == self.spec_alt(),
            r.spec_logo() == self.spec_logo(),
    {
        let bits = if value {
            self.0 | MOD_SHIFT
        } else {
            self.0
        };
        proof {
            let a = self.0;
            assert(((a | 0x2u8) & 0x2u8 != 0) && ((a | 0x2u8) & 0x1u8 == a & 0x1u8) && ((a
                | 0x2u8) & 0x4u8 == a & 0x4u8) && ((a | 0x2u8) & 0x8u8 == a & 0x8u8))
                by (bit_vector);
        }
        Modifiers(bits)
    }

    /// Whether the shift key is held.
    pub fn shift(self) -> (r: bool)
        ensures
            r == self.spec_shift(),
    {
        self.0 & MOD_SHIFT > 0
    }

    /// The same modifiers, with the alt bit also set when `value`.
    pub fn with_alt(self, value: bool) -> (r: Self)
        ensures
            r.spec_alt() == (self.spec_alt() || value),
            r.spec_ctrl() == self.spec_ctrl(),
            r.spec_shift() == self.spec_shift(),
            r.spec_logo() == self.spec_logo(),
    {
        let bits = if value {
            self.0 | MOD_ALT
        } else {
            self.0
        };
        proof {
            let a = self.0;
            assert(((a | 0x4u8) & 0x4u8 != 0) && ((a | 0x4u8) & 0x1u8 == a & 0x1u8) && ((a
                | 0x4u8) & 0x2u8 == a & 0x2u8) && ((a | 0x4u8) & 0x8u8 == a & 0x8u8))
                by (bit_vector);
        }
        Modifiers(bits)
    }

    /// Whether the alt key is held.
    pub fn alt(self) -> (r: bool)
        ensures
            r == self.spec_alt(),
    {
        self.0 & MOD_ALT > 0
    }

    /// The same modifiers, with the super bit also set when `value`.
    pub fn with_logo(self, value: bool) -> (r: Self)
        ensures
            r.spec_logo() == (self.spec_logo() || value),
            r.spec_ctrl() == self.spec_ctrl(),
            r.spec_shift() == self.spec_shift(),
            r.spec_alt() == self.spec_alt(),
    {
        let bits = if value {
            self.0 | MOD_LOGO
        } else {
            self.0
        };
        proof {
            let a = self.0;
            assert(((a | 0x8u8) & 0x8u8 != 0) && ((a | 0x8u8) & 0x1u8 == a & 0x1u8) && ((a
                | 0x8u8) & 0x2u8 == a & 0x2u8) && ((a | 0x8u8) & 0x4u8 == a & 0x4u8))
                by (bit_vector);
        }
        Modifiers(bits)
    }

    /// Whether the super key is held.
    pub fn logo(self) -> (r: bool)
        ensures
            r == self.spec_logo(),
    {
        self.0 & MOD_LOGO > 0
    }

    /// The wire text of these modifiers: a letter each for control,
    /// shift and alt, in that order.  The super key has no wire letter.
    pub open spec fn spec_text(self) -> Seq<char> {
        (if self.spec_ctrl() {
            "C"@
        } else {
            Seq::empty()
        }) + (if self.spec_shift() {
            "S"@
        } else {
            Seq::empty()
        }) + (if self.spec_alt() {
            "A"@
        } else {
            Seq::empty()
        })
    }

    /// The wire text of these modifiers.
    pub fn text(self) -> (r: String)
        ensures
            r@ == self.spec_text(),
    {
        let mut s = String::new();
        if self.ctrl() {
            s.append("C");
        }
        if self.shift() {
            s.append("S");
        }
        if self.alt() {
            s.append("A");
        }
        proof {
            assert(s@ =~= self.spec_text());
        }
        s
    }

    /// The wire value of these modifiers.
    pub fn to_value(self) -> (r: Value)
        ensures
            crate::value::value_view(r) == ValueView::Str(self.spec_text()),
    {
        Value::Str(self.text())
    }
}

} // verus!

verus! {

impl Neovim {
    /// Sends raw key input.
    pub fn input(&mut self, input: String) -> (r: u64)
        requires
            old(self).wf(),
            old(self).counter() < 0xFFFF_FFFF_FFFF_FFFF,
        ensures
            final(self).wf(),
            r == old(self).counter(),
            final(self).counter() == old(self).counter() + 1,
            final(self).pending_ids() == old(self).pending_ids().push(r),
            final(self).buffered_replies() == old(self).buffered_replies(),
            final(self).peer_pending_ids() == old(self).peer_pending_ids(),
            final(self).queued_responses() == old(self).queued_responses(),
            final(self).outgoing_views() == old(self).outgoing_views().push(
                crate::rpc::MessageView::Request {
                    msgid: r,
                    method: "nvim_input"@,
                    params: seq![ValueView::Str(input@)],
                },
            ),
    {
        let ghost gin = input@;
        let mut params: Vec<Value> = Vec::new();
        params.push(Value::Str(input));
        proof {
            crate::value::lemma_seq_view(params@);
            assert(crate::value::seq_view(params@) =~= seq![ValueView::Str(gin)]);
        }
        self.call(String::from_str("nvim_input"), params)
    }

    /// Sends one mouse event.
    pub fn input_mouse(
        &mut self,
        button: Button,
        action: Action,
        modifiers: Modifiers,
        grid: u64,
        row: u64,
        col: u64,
    ) -> (r: u64)
        requires
            old(self).wf(),
            old(self).counter() < 0xFFFF_FFFF_FFFF_FFFF,
        ensures
            final(self).wf(),
            r == old(self).counter(),
            final(self).counter() == old(self).counter() + 1,
            final(self).pending_ids() == old(self).pending_ids().push(r),
            final(self).buffered_replies() == old(self).buffered_replies(),
            final(self).peer_pending_ids() == old(self).peer_pending_ids(),
            final(self).queued_responses() == old(self).queued_responses(),
            final(self).outgoing_views() == old(self).outgoing_views().push(
                crate::rpc::MessageView::Request {
                    msgid: r,
                    method: "nvim_input_mouse"@,
                    params: seq![
                        ValueView::Str(button.spec_str()),
                        ValueView::Str(action.spec_str()),
                        ValueView::Str(modifiers.spec_text()),
                        ValueView::Int(grid as int),
                        ValueView::Int(row as int),
                        ValueView::Int(col as int),
                    ],
                },
            ),
    {
        let mut params: Vec<Value> = Vec::new();
        params.push(button.to_value());
        params.push(action.to_value());
        params.push(modifiers.to_value());
        params.push(Value::UInt(grid));
        params.push(Value::UInt(row));
        params.push(Value::UInt(col));
        proof {
            crate::value::lemma_seq_view(params@);
            assert(crate::value::seq_view(params@) =~= seq![
                ValueView::Str(button.spec_str()),
                ValueView::Str(action.spec_str()),
                ValueView::Str(modifiers.spec_text()),
                ValueView::Int(grid as int),
                ValueView::Int(row as int),
                ValueView::Int(col as int),
            ]);
        }
        self.call(String::from_str("nvim_input_mouse"), params)
    }

    /// Asks the peer to resize one grid.
    pub fn ui_try_resize_grid(&mut self, grid: u64, width: u64, height: u64) -> (r: u64)
        requires
            old(self).wf(),
            old(self).counter() < 0xFFFF_FFFF_FFFF_FFFF,
        ensures
            final(self).wf(),
            r == old(self).counter(),
            final(self).counter() == old(self).counter() + 1,
            final(self).pending_ids() == old(self).pending_ids().push(r),
            final(self).buffered_replies() == old(self).buffered_replies(),
            final(self).peer_pending_ids() == old(self).peer_pending_ids(),
            final(self).queued_responses() == old(self).queued_responses(),
            final(self).outgoing_views() == old(self).outgoing_views().push(
                crate::rpc::MessageView::Request {
                    msgid: r,
                    method: "nvim_ui_try_resize_grid"@,
                    params: seq![
                        ValueView::Int(grid as int),
                        ValueView::Int(width as int),
                        ValueView::Int(height as int),
                    ],
                },
            ),
    {
        let mut params: Vec<Value> = Vec::new();
        params.push(Value::UInt(grid));
        params.push(Value::UInt(width));
        params.push(Value::UInt(height));
        proof {
            crate::value::lemma_seq_view(params@);
            assert(crate::value::seq_view(params@) =~= seq![
                ValueView::Int(grid as int),
                ValueView::Int(width as int),
                ValueView::Int(height as int),
            ]);
        }
        self.call(String::from_str("nvim_ui_try_resize_grid"), params)
    }

    /// The extension table the attach call announces.
    pub open spec fn spec_attach_extensions() -> Seq<(ValueView, ValueView)> {
        seq![
            (ValueView::Str("rgb"@), ValueView::Bool(true)),
            (ValueView::Str("ext_linegrid"@), ValueView::Bool(true)),
            (ValueView::Str("ext_multigrid"@), ValueView::Bool(true)),
        ]
    }

    /// Attaches this client as a UI: 80 by 10 cells, with the grid
    /// extensions this renderer understands.
    pub fn ui_attach(&mut self) -> (r: u64)
        requires
            old(self).wf(),
            old(self).counter() < 0xFFFF_FFFF_FFFF_FFFF,
        ensures
            final(self).wf(),
            r == old(self).counter(),
            final(self).counter() == old(self).counter() + 1,
            final(self).pending_ids() == old(self).pending_ids().push(r),
            final(self).buffered_replies() == old(self).buffered_replies(),
            final(self).peer_pending_ids() == old(self).peer_pending_ids(),
            final(self).queued_responses() == old(self).queued_responses(),
            final(self).outgoing_views() == old(self).outgoing_views().push(
                crate::rpc::MessageView::Request {
                    msgid: r,
                    method: "nvim_ui_attach"@,
                    params: seq![
                        ValueView::Int(80),
                        ValueView::Int(10),
                        ValueView::Mapping(Self::spec_attach_extensions()),
                    ],
                },
            ),
    {
        let mut extensions: Vec<(Value, Value)> = Vec::new();
        extensions.push((Value::Str(String::from_str("rgb")), Value::Bool(true)));
        extensions.push((Value::Str(String::from_str("ext_linegrid")), Value::Bool(true)));
        extensions.push((Value::Str(String::from_str("ext_multigrid")), Value::Bool(true)));
        proof {
            crate::value::lemma_pair_seq_view(extensions@);
            assert(crate::value::pair_seq_view(extensions@) =~= Self::spec_attach_extensions());
        }
        let mut params: Vec<Value> = Vec::new();
        params.push(Value::UInt(80));
        params.push(Value::UInt(10));
        params.push(Value::Mapping(extensions));
        proof {
            crate::value::lemma_seq_view(params@);
            crate::value::lemma_pair_views_from(params@[2]->Mapping_0@, 0);
            assert(crate::value::seq_view(params@) =~= seq![
                ValueView::Int(80),
                ValueView::Int(10),
                ValueView::Mapping(Self::spec_attach_extensions()),
            ]);
        }
        self.call(String::from_str("nvim_ui_attach"), params)
    }
}

} // verus!

verus! {

/// The session model run on a whole arrival sequence: buffer each
/// arrival in msgid order, release every response whose turn has come,
/// and collect the releases of all steps in order.  One exec
/// `receive_response` call is exactly one step of this run.
pub open spec fn session_run(p: Seq<u64>, b: Seq<Response>, arrivals: Seq<Response>) -> (
    Seq<u64>,
    Seq<Response>,
    Seq<Response>,
)
    decreases arrivals.len(),
{
    if arrivals.len() == 0 {
        (p, b, Seq::empty())
    } else {
        let b1 = insert_sorted(b, arrivals[0]);
        let step = spec_release(p, b1);
        let rest = session_run(step.0, step.1, arrivals.drop_first());
        (rest.0, rest.1, step.2 + rest.2)
    }
}

/// Sorted insertion keeps the buffer sorted, adds exactly the new
/// response, and invents nothing.
pub proof fn lemma_insert_sorted_props(b: Seq<Response>, r: Response)
    requires
        resp_sorted(b),
        !resp_ids(b).contains(r.msgid),
    ensures
        ({
            let b1 = insert_sorted(b, r);
            &&& resp_sorted(b1)
            &&& b1.len() == b.len() + 1
            &&& b1.to_multiset() == b.to_multiset().insert(r)
            &&& resp_ids(b1).to_multiset() == resp_ids(b).to_multiset().insert(r.msgid)
            &&& forall|j: int| 0 <= j < b1.len() ==> (b1[j] == r || b.contains(b1[j]))
        }),
    decreases b.len(),
{
    broadcast use vstd::seq_lib::group_to_multiset_ensures;

    let b1 = insert_sorted(b, r);
    if b.len() == 0 {
        assert(b1 =~= Seq::empty().push(r));
        assert(b.to_multiset() =~= Multiset::empty());
        assert(b1.to_multiset() =~= b.to_multiset().insert(r));
        assert(resp_ids(b1) =~= Seq::<u64>::empty().push(r.msgid));
        assert(resp_ids(b) =~= Seq::<u64>::empty());
        assert(resp_ids(b1).to_multiset() =~= resp_ids(b).to_multiset().insert(r.msgid));
    } else if b.last().msgid <= r.msgid {
        assert(resp_ids(b)[b.len() - 1] == b.last().msgid);
        assert(b.last().msgid != r.msgid);
        assert(b1 == b.push(r));
        assert(forall|i: int| 0 <= i < b.len() ==> b1[i] == b[i]);
        assert(resp_ids(b1) =~= resp_ids(b).push(r.msgid));
        assert(forall|j: int| 0 <= j < b1.len() ==> (b1[j] == r || b.contains(b1[j])));
    } else {
        let b0 = b.drop_last();
        assert(forall|j: int|
            0 <= j < b0.len() ==> resp_ids(b0)[j] == resp_ids(b)[j]);
        assert(!resp_ids(b0).contains(r.msgid));
        lemma_insert_sorted_props(b0, r);
        let c0 = insert_sorted(b0, r);
        assert(b1 == c0.push(b.last()));
        assert(resp_sorted(b1)) by {
            assert(forall|j: int| 0 <= j < c0.len() ==> (c0[j] == r || b0.contains(c0[j])));
            assert forall|j: int| 0 <= j < c0.len() implies c0[j].msgid < b.last().msgid by {
                if c0[j] == r {
                } else {
                    let witness = choose|w: int| 0 <= w < b0.len() && b0[w] == c0[j];
                    assert(b[witness] == c0[j]);
                }
            }
        }
        assert(b.to_multiset() =~= b0.to_multiset().insert(b.last())) by {
            assert(b =~= b0.push(b.last()));
        }
        assert(b1.to_multiset() =~= b.to_multiset().insert(r)) by {
            assert(b1.to_multiset() == c0.to_multiset().insert(b.last()));
        }
        assert(resp_ids(b1) =~= resp_ids(c0).push(b.last().msgid));
        assert(resp_ids(b) =~= resp_ids(b0).push(b.last().msgid));
        assert(resp_ids(b1).to_multiset() =~= resp_ids(b).to_multiset().insert(r.msgid));
        assert forall|j: int| 0 <= j < b1.len() implies (b1[j] == r || b.contains(b1[j])) by {
            if j < c0.len() {
                if c0[j] != r {
                    let witness = choose|w: int| 0 <= w < b0.len() && b0[w] == c0[j];
                    assert(b[witness] == b1[j]);
                }
            } else {
                assert(b1[j] == b.last());
                assert(b[b.len() - 1] == b.last());
            }
        }
    }
}

} // verus!

verus! {

/// The run of the session model releases every pending call's response
/// in strictly reverse issuance order — whatever order the replies
/// arrive in — with no duplicate and none missing.  `p` is the pending
/// stack in issuance order; `b` holds replies already buffered, none of
/// them releasable yet; `arrivals` are the remaining replies, exactly
/// one per pending call not yet buffered, in any order.
#[verifier::rlimit(100)]
#[verifier::spinoff_prover]
proof fn lemma_run(p: Seq<u64>, b: Seq<Response>, arrivals: Seq<Response>)
    requires
        strictly_increasing(p),
        resp_sorted(b),
        forall|j: int| 0 <= j < b.len() ==> p.contains(b[j].msgid),
        !(p.len() > 0 && b.len() > 0 && b.last().msgid == p.last()),
        resp_ids(arrivals).to_multiset().add(resp_ids(b).to_multiset()) == p.to_multiset(),
    ensures
        session_run(p, b, arrivals).0 == Seq::<u64>::empty(),
        session_run(p, b, arrivals).1 == Seq::<Response>::empty(),
        resp_ids(session_run(p, b, arrivals).2) == p.reverse(),
        session_run(p, b, arrivals).2.to_multiset() == arrivals.to_multiset().add(b.to_multiset()),
    decreases arrivals.len(),
{
    broadcast use vstd::seq_lib::group_to_multiset_ensures;
    broadcast use vstd::multiset::group_multiset_axioms;

    if arrivals.len() == 0 {
        assert(resp_ids(arrivals) =~= Seq::<u64>::empty());
        assert(resp_ids(arrivals).to_multiset().len() == 0);
        assert(resp_ids(b).to_multiset() =~= p.to_multiset());
        assert(resp_ids(b).len() == b.len());
        if p.len() > 0 {
            assert(b.len() == p.len()) by {
                assert(resp_ids(b).to_multiset().len() == p.to_multiset().len());
            }
            assert(p.contains(p.last())) by {
                assert(p[p.len() - 1] == p.last());
            }
            assert(p.to_multiset().count(p.last()) > 0);
            assert(resp_ids(b).contains(p.last()));
            let k = choose|k: int| 0 <= k < resp_ids(b).len() && resp_ids(b)[k] == p.last();
            assert(b[k].msgid == p.last());
            assert(b[k].msgid <= b.last().msgid) by {
                if k < b.len() - 1 {
                    assert(b[k].msgid < b[b.len() - 1].msgid);
                }
            }
            let w = choose|w: int| 0 <= w < p.len() && p[w] == b.last().msgid;
            assert(b.last().msgid <= p.last()) by {
                if w < p.len() - 1 {
                    assert(p[w] < p[p.len() - 1]);
                }
            }
            assert(b.last().msgid == p.last());
            assert(false);
        }
        assert(p =~= Seq::<u64>::empty());
        assert(b.len() == 0) by {
            assert(resp_ids(b).to_multiset().len() == p.to_multiset().len());
        }
        assert(b =~= Seq::<Response>::empty());
        assert(resp_ids(Seq::<Response>::empty()) =~= Seq::<u64>::empty());
        assert(p.reverse() =~= Seq::<u64>::empty());
        assert(session_run(p, b, arrivals).2.to_multiset() =~= arrivals.to_multiset().add(
            b.to_multiset(),
        ));
    } else {
        let a = arrivals[0];
        let arr2 = arrivals.drop_first();
        assert(arrivals =~= seq![a] + arr2);
        assert(resp_ids(arrivals) =~= seq![a.msgid] + resp_ids(arr2));
        lemma_multiset_commutative(seq![a.msgid], resp_ids(arr2));
        lemma_multiset_commutative(seq![a], arr2);
        assert(seq![a.msgid] =~= Seq::<u64>::empty().push(a.msgid));
        assert(seq![a.msgid].to_multiset() =~= Multiset::<u64>::empty().insert(a.msgid));
        assert(seq![a] =~= Seq::<Response>::empty().push(a));
        assert(seq![a].to_multiset() =~= Multiset::<Response>::empty().insert(a));
        assert(resp_ids(arrivals).to_multiset() =~= resp_ids(arr2).to_multiset().insert(a.msgid));
        assert(arrivals.to_multiset() =~= arr2.to_multiset().insert(a));

        // The arriving msgid belongs to a pending call and is not yet
        // buffered: the pending stack has unique ids, and the arrival
        // and buffer multisets sum to it.
        assert(resp_ids(arrivals).contains(a.msgid)) by {
            assert(resp_ids(arrivals)[0] == a.msgid);
        }
        assert(p.to_multiset().count(a.msgid) > 0) by {
            assert(resp_ids(arrivals).to_multiset().count(a.msgid) > 0);
        }
        assert(p.contains(a.msgid));
        assert(p.no_duplicates()) by {
            assert forall|i: int, j: int|
                0 <= i < p.len() && 0 <= j < p.len() && i != j implies p[i] != p[j] by {
                if i < j {
                    assert(p[i] < p[j]);
                } else {
                    assert(p[j] < p[i]);
                }
            }
        }
        p.lemma_multiset_has_no_duplicates();
        assert(!resp_ids(b).contains(a.msgid)) by {
            if resp_ids(b).contains(a.msgid) {
                assert(resp_ids(b).to_multiset().count(a.msgid) > 0);
                assert(p.to_multiset().count(a.msgid) >= 2);
                assert(p.to_multiset().contains(a.msgid));
                assert(false);
            }
        }

        lemma_insert_sorted_props(b, a);
        let b1 = insert_sorted(b, a);
        assert(forall|j: int| 0 <= j < b1.len() ==> p.contains(b1[j].msgid)) by {
            assert forall|j: int| 0 <= j < b1.len() implies p.contains(b1[j].msgid) by {
                if b1[j] == a {
                } else {
                    let w = choose|w: int| 0 <= w < b.len() && b[w] == b1[j];
                    assert(p.contains(b[w].msgid));
                }
            }
        }

        lemma_spec_release(p, b1);
        let step = spec_release(p, b1);
        let n = p.len() as int;
        let m = b1.len() as int;
        let k = step.2.len() as int;
        let p2 = step.0;
        let b2 = step.1;
        let out = step.2;
        let hi = b1.skip(m - k);
        let phi = p.skip(n - k);

        assert(strictly_increasing(p2)) by {
            assert forall|i: int, j: int|
                0 <= i < j < p2.len() implies p2[i] < p2[j] by {
                assert(p2[i] == p[i] && p2[j] == p[j]);
            }
        }
        assert(resp_sorted(b2)) by {
            assert forall|i: int, j: int|
                0 <= i < j < b2.len() implies b2[i].msgid < b2[j].msgid by {
                assert(b2[i] == b1[i] && b2[j] == b1[j]);
            }
        }
        // A buffered id below the released run still names a pending
        // call below the released run: released ids sit above every
        // remaining buffered id, and ids are unique.
        assert(forall|j: int| 0 <= j < b2.len() ==> p2.contains(b2[j].msgid)) by {
            assert forall|j: int| 0 <= j < b2.len() implies p2.contains(b2[j].msgid) by {
                assert(b2[j] == b1[j]);
                assert(p.contains(b1[j].msgid));
                let w = choose|w: int| 0 <= w < p.len() && p[w] == b1[j].msgid;
                if w < n - k {
                    assert(p2[w] == p[w]);
                    assert(p2.contains(b2[j].msgid)) by {
                        assert(p2[w] == b2[j].msgid);
                    }
                } else {
                    let j2 = n - 1 - w;
                    assert(out[j2].msgid == p[n - 1 - j2]);
                    assert(out[j2] == b1[m - 1 - j2]);
                    assert(m - 1 - j2 >= m - k);
                    assert(j < m - k);
                    assert(b1[j].msgid < b1[m - 1 - j2].msgid);
                    assert(b1[m - 1 - j2].msgid == p[w]);
                    assert(false);
                }
            }
        }

        // Multiset bookkeeping for the recursive call.
        assert(p =~= p.take(n - k) + phi);
        lemma_multiset_commutative(p.take(n - k), phi);
        assert(b1 =~= b1.take(m - k) + hi);
        lemma_multiset_commutative(b1.take(m - k), hi);
        assert(resp_ids(b1) =~= resp_ids(b2) + resp_ids(hi));
        lemma_multiset_commutative(resp_ids(b2), resp_ids(hi));
        assert(out.reverse() =~= hi);
        out.lemma_reverse_to_multiset();
        assert(hi.to_multiset() == out.to_multiset());
        assert(resp_ids(hi) =~= resp_ids(out).reverse());
        resp_ids(out).lemma_reverse_to_multiset();
        assert(resp_ids(hi).to_multiset() == resp_ids(out).to_multiset());
        assert(resp_ids(out) == phi.reverse());
        phi.lemma_reverse_to_multiset();
        assert(resp_ids(hi).to_multiset() == phi.to_multiset());

        assert(resp_ids(arr2).to_multiset().add(resp_ids(b2).to_multiset())
            =~= p2.to_multiset()) by {
            let lhs = resp_ids(arr2).to_multiset().add(resp_ids(b2).to_multiset());
            assert forall|x: u64| true implies lhs.count(x) == p2.to_multiset().count(x) by {
                assert(resp_ids(arrivals).to_multiset().count(x) + resp_ids(b).to_multiset().count(
                    x,
                ) == p.to_multiset().count(x));
                assert(resp_ids(b1).to_multiset().count(x) == resp_ids(b).to_multiset().count(x)
                    + (if x == a.msgid { 1int } else { 0int }));
                assert(resp_ids(arrivals).to_multiset().count(x) == resp_ids(
                    arr2,
                ).to_multiset().count(x) + (if x == a.msgid { 1int } else { 0int }));
                assert(p.to_multiset().count(x) == p2.to_multiset().count(x)
                    + phi.to_multiset().count(x));
                assert(resp_ids(b1).to_multiset().count(x) == resp_ids(b2).to_multiset().count(x)
                    + resp_ids(hi).to_multiset().count(x));
            }
        }

        lemma_run(p2, b2, arr2);
        let rest = session_run(p2, b2, arr2);

        // The released ids of the whole run are the reversed stack.
        assert(resp_ids(session_run(p, b, arrivals).2) =~= resp_ids(out) + resp_ids(rest.2));
        assert(resp_ids(rest.2) == p2.reverse());
        assert(resp_ids(out) + p2.reverse() =~= p.reverse()) by {
            assert(p2 == p.take(n - k));
            assert forall|j: int| 0 <= j < n implies (phi.reverse() + p.take(n - k).reverse())[j]
                == p.reverse()[j] by {
                if j < k {
                    assert(phi.reverse()[j] == phi[k - 1 - j]);
                    assert(phi[k - 1 - j] == p[n - 1 - j]);
                } else {
                    assert(p.take(n - k).reverse()[j - k] == p.take(n - k)[n - k - 1 - (j - k)]);
                }
            }
        }

        // The released responses are exactly the arrivals plus the
        // already-buffered: none lost, none duplicated, none invented.
        lemma_multiset_commutative(out, rest.2);
        assert(session_run(p, b, arrivals).2.to_multiset() =~= arrivals.to_multiset().add(
            b.to_multiset(),
        )) by {
            assert forall|x: Response| true implies session_run(
                p,
                b,
                arrivals,
            ).2.to_multiset().count(x) == arrivals.to_multiset().add(b.to_multiset()).count(
                x,
            ) by {
                assert(session_run(p, b, arrivals).2.to_multiset().count(x) == out.to_multiset()
                    .count(x) + rest.2.to_multiset().count(x));
                assert(rest.2.to_multiset().count(x) == arr2.to_multiset().count(x)
                    + b2.to_multiset().count(x));
                assert(b1.to_multiset().count(x) == b2.to_multiset().count(x) + hi.to_multiset()
                    .count(x));
                assert(b1.to_multiset().count(x) == b.to_multiset().count(x) + (if x == a {
                    1int
                } else {
                    0int
                }));
                assert(arrivals.to_multiset().count(x) == arr2.to_multiset().count(x) + (if x == a {
                    1int
                } else {
                    0int
                }));
                assert(hi.to_multiset().count(x) == out.to_multiset().count(x));
            }
        }
    }
}

/// Law: for any N calls issued before any reply arrives, the replies —
/// arriving in whatever order, one per call — are released in exactly
/// reverse issuance order, with no duplicate and no missing release.
pub proof fn lemma_reverse_release_order(p: Seq<u64>, arrivals: Seq<Response>)
    requires
        strictly_increasing(p),
        resp_ids(arrivals).to_multiset() == p.to_multiset(),
    ensures
        session_run(p, Seq::empty(), arrivals).0 == Seq::<u64>::empty(),
        session_run(p, Seq::empty(), arrivals).1 == Seq::<Response>::empty(),
        resp_ids(session_run(p, Seq::empty(), arrivals).2) == p.reverse(),
        session_run(p, Seq::empty(), arrivals).2.to_multiset() == arrivals.to_multiset(),
{
    broadcast use vstd::seq_lib::group_to_multiset_ensures;
    broadcast use vstd::multiset::group_multiset_axioms;

    assert(resp_ids(Seq::<Response>::empty()) =~= Seq::<u64>::empty());
    assert(resp_ids(arrivals).to_multiset().add(
        resp_ids(Seq::<Response>::empty()).to_multiset(),
    ) =~= p.to_multiset());
    lemma_run(p, Seq::empty(), arrivals);
    assert(session_run(p, Seq::empty(), arrivals).2.to_multiset() =~= arrivals.to_multiset());
}

} // verus!
