//! The outbound peer connector.
//!
//! One `NetworkNode` serves a single remote peer: it owns the
//! connection state, allocates correlation ids for outbound messages,
//! tracks the sink of every outstanding request, and decides how to
//! react to connection outcomes, inbound responses and send requests.
//! The runtime around it performs the actual connecting, writing and
//! timer waits, and feeds the outcomes back in.

use core::time::Duration;
use vstd::prelude::*;
use backoff::backoff::Backoff;

use crate::msgs::{NodeSupportedTypes, ReconnectNode, SendRemoteMessage};
use crate::protocol::{ReqView, Request, Response, RespView};

verus! {

// ---------------------------------------------------------------
// Reconnection backoff policy, from the `backoff` crate
// ---------------------------------------------------------------
#[verifier::external_type_specification]
#[verifier::external_body]
#[verifier::reject_recursive_types(C)]
pub struct ExExponentialBackoff<C>(backoff::exponential::ExponentialBackoff<C>);

#[verifier::external_type_specification]
#[verifier::external_body]
pub struct ExSystemClock(backoff::SystemClock);

/// Relies on `ExponentialBackoff::default`: a fresh exponential
/// policy (500 ms initial interval, multiplier 1.5, 60 s interval
/// cap, 15 min elapsed-time cap).
#[verifier::external_body]
fn backoff_default() -> backoff::ExponentialBackoff {
    backoff::ExponentialBackoff::default()
}

/// Relies on `Backoff::reset` for `ExponentialBackoff`: restores the
/// initial interval and restarts the elapsed-time window.
#[verifier::external_body]
fn backoff_reset(b: &mut backoff::ExponentialBackoff) {
    b.reset()
}

/// Relies on `Backoff::next_backoff` for `ExponentialBackoff`: the
/// next randomized delay, or `None` once the elapsed-time cap has
/// passed. The outcome depends on the clock and on randomness, so
/// nothing more is stated of it.
#[verifier::external_body]
fn backoff_next(b: &mut backoff::ExponentialBackoff) -> Option<Duration> {
    b.next_backoff()
}

// ---------------------------------------------------------------
// Peer state
// ---------------------------------------------------------------
/// Connection state of a known peer.
#[derive(Clone, Copy, PartialEq, Eq, Structural, Debug)]
pub enum NodeStatus {
    New,
    Up,
    Connecting,
    Failed,
}

/// Mutable record of a known peer: its address and current status.
pub struct NodeInformation {
    pub addr: String,
    pub status: NodeStatus,
}

impl NodeInformation {
    pub fn new(addr: String) -> (r: NodeInformation)
        ensures
            r.addr == addr,
            r.status == NodeStatus::New,
    {
        NodeInformation { addr, status: NodeStatus::New }
    }

    pub fn address(&self) -> (r: &str)
        ensures
            r@ == self.addr@,
    {
        self.addr.as_str()
    }

    pub fn status(&self) -> (r: NodeStatus)
        ensures
            r == self.status,
    {
        self.status
    }

    pub fn set_status(&mut self, status: NodeStatus)
        ensures
            final(self).addr == old(self).addr,
            final(self).status == status,
    {
        self.status = status;
    }
}

impl Clone for NodeInformation {
    fn clone(&self) -> (r: NodeInformation)
        ensures
            r.addr@ == self.addr@,
            r.status == self.status,
    {
        NodeInformation { addr: self.addr.clone(), status: self.status }
    }
}

// ---------------------------------------------------------------
// The connector
// ---------------------------------------------------------------
/// What a connector asks of its runtime after a failure: wait and
/// restart, or stop until an outside trigger.
pub enum RestartDecision {
    RetryAfter(Duration),
    StopNow,
}

/// Reaction to an inbound response frame.
pub enum NodeAction {
    /// Forward a peer's advertised types to the coordinator.
    NotifySupported(NodeSupportedTypes),
    /// Complete the sink of the pending request this result matched.
    CompleteRequest(u64, String),
    Ignore,
}

/// Outcome of a send request.
pub enum SendOutcome {
    /// The frame to put on the wire.
    Sent(Request),
    /// The link is not usable; fail this sink with a transport error.
    Rejected(u64),
}

/// First position holding `id` as a key, or -1.
pub open spec fn find_key(s: Seq<(u64, u64)>, id: u64) -> int
    decreases s.len(),
{
    if s.len() == 0 {
        -1
    } else if s[0].0 == id {
        0
    } else {
        let r = find_key(s.subrange(1, s.len() as int), id);
        if r == -1 {
            -1
        } else {
            r + 1
        }
    }
}

pub(crate) proof fn lemma_find_key_none(s: Seq<(u64, u64)>, id: u64)
    requires
        forall|k: int| 0 <= k < s.len() ==> (#[trigger] s[k]).0 != id,
    ensures
        find_key(s, id) == -1,
    decreases s.len(),
{
    if s.len() > 0 {
        lemma_find_key_none(s.subrange(1, s.len() as int), id);
    }
}

pub(crate) proof fn lemma_find_key_first(s: Seq<(u64, u64)>, id: u64, j: int)
    requires
        0 <= j < s.len(),
        s[j].0 == id,
        forall|k: int| 0 <= k < j ==> (#[trigger] s[k]).0 != id,
    ensures
        find_key(s, id) == j,
    decreases s.len(),
{
    if j > 0 {
        let tail = s.subrange(1, s.len() as int);
        lemma_find_key_first(tail, id, j - 1);
    }
}

/// The outbound connector for one remote peer.
pub struct NetworkNode {
    /// Correlation id of the most recently dispatched message.
    pub mid: u64,
    /// The local address advertised in outbound handshakes.
    pub addr: String,
    /// The peer this connector serves.
    pub info: NodeInformation,
    /// Token of the framed write half the runtime holds, while the
    /// link is usable.
    pub writer: Option<u64>,
    /// Outstanding requests: correlation id to sink token.
    pub requests: Vec<(u64, u64)>,
    pub backoff: backoff::ExponentialBackoff,
}

impl NetworkNode {
    /// The link holds a writer exactly while it is usable: in status
    /// `Up` there is one, in any other status there is none.
    pub open spec fn writer_matches_status(&self) -> bool {
        self.writer is Some <==> self.info.status == NodeStatus::Up
    }

    /// Each outstanding correlation id keys at most one pending
    /// entry, and no pending id is ahead of the counter — so the
    /// next allocated id is always fresh.
    pub open spec fn pending_ids_unique(&self) -> bool {
        &&& (forall|p: int, q: int|
            0 <= p < q < self.requests@.len() ==> (#[trigger] self.requests@[p]).0 != (
            #[trigger] self.requests@[q]).0)
        &&& (forall|p: int|
            0 <= p < self.requests@.len() ==> (#[trigger] self.requests@[p]).0 <= self.mid)
    }

    /// Well-formedness, preserved by every operation.
    pub open spec fn wf(&self) -> bool {
        &&& self.writer_matches_status()
        &&& self.pending_ids_unique()
    }

    pub fn new(addr: String, info: NodeInformation) -> (r: NetworkNode)
        requires
            info.status != NodeStatus::Up,
        ensures
            r.wf(),
            r.mid == 0,
            r.addr == addr,
            r.info == info,
            r.writer is None,
            r.requests@ =~= Seq::<(u64, u64)>::empty(),
    {
        NetworkNode {
            mid: 0,
            addr,
            info,
            writer: None,
            requests: Vec::new(),
            backoff: backoff_default(),
        }
    }

    /// Entering the connecting state; the runtime then attempts the
    /// TCP connect and reports back.
    pub fn started(&mut self)
        requires
            old(self).wf(),
            old(self).info.status != NodeStatus::Up,
        ensures
            final(self).wf(),
            final(self).info.status == NodeStatus::Connecting,
            final(self).info.addr == old(self).info.addr,
            final(self).mid == old(self).mid,
            final(self).addr == old(self).addr,
            final(self).writer is None,
            final(self).requests@ == old(self).requests@,
    {
        self.info.set_status(NodeStatus::Connecting);
    }

    /// The connect succeeded: adopt the writer, reset the backoff,
    /// and hand back the handshake to put on the wire.
    pub fn on_connected(&mut self, writer: u64) -> (hs: Request)
        requires
            old(self).wf(),
            old(self).info.status != NodeStatus::Up,
        ensures
            final(self).wf(),
            final(self).info.status == NodeStatus::Up,
            final(self).info.addr == old(self).info.addr,
            final(self).mid == old(self).mid,
            final(self).addr == old(self).addr,
            final(self).writer == Some(writer),
            final(self).requests@ == old(self).requests@,
            hs@ == ReqView::Handshake(old(self).addr@),
    {
        backoff_reset(&mut self.backoff);
        self.writer = Some(writer);
        self.info.set_status(NodeStatus::Up);
        Request::Handshake(self.addr.clone())
    }

    /// The connect failed, or the stream ended or erred: drop the
    /// writer, fail every pending request, and ask the runtime either
    /// to restart after the next backoff delay or, with the backoff
    /// exhausted, to stop until an outside trigger.
    pub fn restart(&mut self) -> (r: (RestartDecision, Vec<u64>))
        requires
            old(self).wf(),
        ensures
            final(self).wf(),
            final(self).info.status == NodeStatus::Failed,
            final(self).info.addr == old(self).info.addr,
            final(self).mid == old(self).mid,
            final(self).addr == old(self).addr,
            final(self).writer is None,
            final(self).requests@ =~= Seq::<(u64, u64)>::empty(),
            r.1@ == old(self).requests@.map_values(|e: (u64, u64)| e.1),
    {
        self.writer = None;
        self.info.set_status(NodeStatus::Failed);
        let mut sinks: Vec<u64> = Vec::new();
        let mut i: usize = 0;
        proof {
            assert(old(self).requests@.subrange(0, 0).map_values(|e: (u64, u64)| e.1)
                =~= Seq::<u64>::empty());
        }
        while i < self.requests.len()
            invariant
                i <= self.requests@.len(),
                self.requests@ == old(self).requests@,
                sinks@ == old(self).requests@.subrange(0, i as int).map_values(
                    |e: (u64, u64)| e.1,
                ),
            decreases self.requests@.len() - i,
        {
            sinks.push(self.requests[i].1);
            proof {
                let pre = old(self).requests@.subrange(0, i as int);
                assert(old(self).requests@.subrange(0, i + 1) =~= pre.push(
                    old(self).requests@[i as int],
                ));
                assert(pre.push(old(self).requests@[i as int]).map_values(|e: (u64, u64)| e.1)
                    =~= pre.map_values(|e: (u64, u64)| e.1).push(
                    old(self).requests@[i as int].1,
                ));
            }
            i = i + 1;
        }
        proof {
            assert(old(self).requests@.subrange(0, old(self).requests@.len() as int)
                =~= old(self).requests@);
        }
        self.requests = Vec::new();
        let decision = match backoff_next(&mut self.backoff) {
            Some(delay) => RestartDecision::RetryAfter(delay),
            None => RestartDecision::StopNow,
        };
        (decision, sinks)
    }

    /// Stop only a failed connector; a usable one stays.
    pub fn stop_actor(&self) -> (stop: bool)
        ensures
            stop == (self.info.status == NodeStatus::Failed),
    {
        match self.info.status {
            NodeStatus::Failed => true,
            _ => false,
        }
    }

    /// A `ReconnectNode` nudge from the coordinator: meaningful only
    /// for a failed connector, which stops so that its supervisor
    /// restarts it at once.
    pub fn handle_reconnect(&self, _msg: ReconnectNode) -> (stop: bool)
        ensures
            stop == (self.info.status == NodeStatus::Failed),
    {
        self.stop_actor()
    }

    /// Reaction to one inbound response frame: advertisements go to
    /// the coordinator; a result completes the pending request it
    /// correlates with, and is dropped when none matches.
    pub fn handle(&mut self, msg: Response) -> (a: NodeAction)
        requires
            old(self).wf(),
        ensures
            final(self).wf(),
            final(self).info == old(self).info,
            final(self).mid == old(self).mid,
            final(self).addr == old(self).addr,
            final(self).writer == old(self).writer,
            (match msg@ {
                RespView::Supported(ts) => {
                    &&& final(self).requests@ == old(self).requests@
                    &&& a matches NodeAction::NotifySupported(m) && m.node@ == old(
                        self,
                    ).info.addr@ && m.types.deep_view() == ts
                },
                RespView::Result(id, body) => {
                    let j = find_key(old(self).requests@, id);
                    if j == -1 {
                        &&& final(self).requests@ == old(self).requests@
                        &&& a is Ignore
                    } else {
                        &&& final(self).requests@ == old(self).requests@.remove(j)
                        &&& a matches NodeAction::CompleteRequest(tk, bd) && tk == old(
                            self,
                        ).requests@[j].1 && bd@ == body
                    }
                },
                _ => {
                    &&& final(self).requests@ == old(self).requests@
                    &&& a is Ignore
                },
            }),
    {
        let ghost gm = msg@;
        match msg {
            Response::Supported(types) => {
                proof {
                    assert(gm == RespView::Supported(types.deep_view()));
                }
                let node = self.info.addr.clone();
                NodeAction::NotifySupported(NodeSupportedTypes { node, types })
            },
            Response::Result(id, data) => {
                proof {
                    assert(gm == RespView::Result(id, data@));
                }
                let mut j: usize = 0;
                #[verifier::loop_isolation(false)]
                while j < self.requests.len()
                    invariant
                        j <= self.requests@.len(),
                        forall|t: int| 0 <= t < j ==> (#[trigger] self.requests@[t]).0 != id,
                        self == old(self),
                    decreases self.requests@.len() - j,
                {
                    if self.requests[j].0 == id {
                        let sink = self.requests[j].1;
                        proof {
                            lemma_find_key_first(self.requests@, id, j as int);
                        }
                        self.requests.remove(j);
                        proof {
                            let s0 = old(self).requests@;
                            s0.remove_ensures(j as int);
                            assert(self.requests@ == s0.remove(j as int));
                            assert forall|p: int| 0 <= p < self.requests@.len() implies (
                            #[trigger] self.requests@[p]) == (if p < j {
                                s0[p]
                            } else {
                                s0[p + 1]
                            }) by {
                                assert(s0.remove(j as int) == s0.subrange(0, j as int)
                                    + s0.subrange(j + 1, s0.len() as int));
                                if p < j {
                                    assert(s0.subrange(0, j as int)[p] == s0[p]);
                                } else {
                                    assert(s0.subrange(j + 1, s0.len() as int)[p - j] == s0[p
                                        + 1]);
                                }
                            }
                            assert forall|p: int, q: int|
                                0 <= p < q < self.requests@.len() implies (
                            #[trigger] self.requests@[p]).0 != (#[trigger] self.requests@[q]).0 by {
                                let p0 = if p < j { p } else { p + 1 };
                                let q0 = if q < j { q } else { q + 1 };
                                assert(self.requests@[p] == s0[p0]);
                                assert(self.requests@[q] == s0[q0]);
                                assert(s0[p0].0 != s0[q0].0);
                            }
                            assert forall|p: int| 0 <= p < self.requests@.len() implies (
                            #[trigger] self.requests@[p]).0 <= self.mid by {
                                let p0 = if p < j { p } else { p + 1 };
                                assert(self.requests@[p] == s0[p0]);
                                assert(s0[p0].0 <= old(self).mid);
                            }
                            assert(self.wf());
                            assert(find_key(s0, id) == j as int);
                            assert(sink == s0[j as int].1);
                        }
                        return NodeAction::CompleteRequest(sink, data);
                    }
                    j = j + 1;
                }
                proof {
                    lemma_find_key_none(self.requests@, id);
                }
                NodeAction::Ignore
            },
            _ => {
                proof {
                    assert(!(gm is Supported) && !(gm is Result));
                }
                NodeAction::Ignore
            },
        }
    }

    /// The outbound send path: on a usable link allocate the next
    /// correlation id, record the caller's sink, and hand back the
    /// frame to write; otherwise reject the sink at once.
    pub fn handle_send(&mut self, msg: SendRemoteMessage) -> (r: SendOutcome)
        requires
            old(self).wf(),
            old(self).mid < u64::MAX,
        ensures
            final(self).wf(),
            final(self).info == old(self).info,
            final(self).addr == old(self).addr,
            final(self).writer == old(self).writer,
            old(self).info.status == NodeStatus::Up ==> {
                &&& final(self).mid == old(self).mid + 1
                &&& final(self).requests@ == old(self).requests@.push(
                    (((old(self).mid + 1) as u64), msg.tx),
                )
                &&& r matches SendOutcome::Sent(f) && f@ == ReqView::Message(
                    ((old(self).mid + 1) as u64),
                    msg.type_id@,
                    "1.0"@,
                    msg.data@,
                )
            },
            old(self).info.status != NodeStatus::Up ==> {
                &&& final(self).mid == old(self).mid
                &&& final(self).requests@ == old(self).requests@
                &&& r matches SendOutcome::Rejected(tk) && tk == msg.tx
            },
    {
        if self.writer.is_some() {
            self.mid = self.mid + 1;
            self.requests.push((self.mid, msg.tx));
            let version = String::from_str("1.0");
            SendOutcome::Sent(Request::Message(self.mid, msg.type_id, version, msg.data))
        } else {
            SendOutcome::Rejected(msg.tx)
        }
    }
}

/// For a well-formed link there is at most one pending entry per
/// correlation id: two positions holding the same id coincide.
pub proof fn lemma_pending_unique(n: &NetworkNode, m: u64, p: int, q: int)
    requires
        n.wf(),
        0 <= p < n.requests@.len(),
        0 <= q < n.requests@.len(),
        n.requests@[p].0 == m,
        n.requests@[q].0 == m,
    ensures
        p == q,
{
    if p < q {
        assert(n.requests@[p].0 != n.requests@[q].0);
    }
    if q < p {
        assert(n.requests@[p].0 != n.requests@[q].0);
    }
}

} // verus!
