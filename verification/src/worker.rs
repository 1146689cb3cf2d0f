//! The inbound connection worker.
//!
//! One `NetworkWorker` serves a single accepted TCP stream: it greets
//! the peer with the handshake response and the snapshot of locally
//! registered types, then turns each inbound request into an action
//! for its runtime: notify the coordinator of the peer's handshake,
//! dispatch a message to the local handler of its type, or answer a
//! ping. The handler snapshot is fixed at construction; later
//! registrations do not alter a worker already in flight.

use vstd::prelude::*;

use crate::msgs::{NodeConnected, WorkerDisconnected};
use crate::protocol::{ReqView, Request, Response, RespView};

verus! {

/// Reaction to one inbound request frame.
pub enum WorkerAction {
    /// Tell the coordinator this peer introduced itself.
    NotifyConnected(NodeConnected),
    /// Invoke(msg_id, type_id, body): run the local handler for
    /// `type_id` on `body`; `complete` then builds the result frame.
    Invoke(u64, String, String),
    /// A frame to write back at once.
    Reply(Response),
    Ignore,
}

/// The worker for one accepted connection.
pub struct NetworkWorker {
    /// Identity of this worker in the coordinator's table.
    pub id: usize,
    /// The type-ids registered locally when this worker started.
    pub handlers: Vec<String>,
}

impl NetworkWorker {
    /// Greets a fresh connection: the new worker plus the frames to
    /// write first, the handshake response and the advertisement of
    /// the handler snapshot.
    pub fn start(id: usize, handlers: Vec<String>) -> (r: (NetworkWorker, Vec<Response>))
        ensures
            r.0.id == id,
            r.0.handlers@ == handlers@,
            r.1@.len() == 2,
            r.1@[0]@ == RespView::Handshake,
            r.1@[1]@ == RespView::Supported(handlers.deep_view()),
    {
        let advertised = clone_strings(&handlers);
        let mut greet: Vec<Response> = Vec::new();
        greet.push(Response::Handshake);
        greet.push(Response::Supported(advertised));
        (NetworkWorker { id, handlers }, greet)
    }

    /// Whether the snapshot holds a handler for this type-id.
    pub open spec fn knows_type(&self, t: Seq<char>) -> bool {
        self.handlers.deep_view().contains(t)
    }

    /// Reaction to one inbound request frame: a handshake is passed
    /// on to the coordinator; a message goes to the local handler of
    /// its type and is dropped when none is registered; a ping is
    /// answered with a pong.
    pub fn handle(&self, msg: Request) -> (a: WorkerAction)
        ensures
            (match msg@ {
                ReqView::Handshake(addr) => a matches WorkerAction::NotifyConnected(m) && m.0@
                    == addr,
                ReqView::Message(id, t, _v, body) => {
                    if self.knows_type(t) {
                        a matches WorkerAction::Invoke(i2, t2, b2) && i2 == id && t2@ == t && b2@
                            == body
                    } else {
                        a is Ignore
                    }
                },
                ReqView::Ping => a matches WorkerAction::Reply(p) && p@ == RespView::Pong,
                ReqView::Pong => a is Ignore,
            }),
    {
        let ghost gm = msg@;
        match msg {
            Request::Handshake(addr) => {
                proof {
                    assert(gm == ReqView::Handshake(addr@));
                }
                WorkerAction::NotifyConnected(NodeConnected(addr))
            },
            Request::Message(id, type_id, _version, body) => {
                proof {
                    assert(gm == ReqView::Message(id, type_id@, _version@, body@));
                }
                let mut k: usize = 0;
                #[verifier::loop_isolation(false)]
                while k < self.handlers.len()
                    invariant
                        k <= self.handlers@.len(),
                        forall|t: int|
                            0 <= t < k ==> self.handlers.deep_view()[t] != type_id@,
                    decreases self.handlers@.len() - k,
                {
                    if self.handlers[k] == type_id {
                        proof {
                            assert(self.handlers.deep_view()[k as int] == type_id@);
                        }
                        return WorkerAction::Invoke(id, type_id, body);
                    }
                    proof {
                        assert(self.handlers.deep_view()[k as int] == self.handlers@[k as int]@);
                    }
                    k = k + 1;
                }
                proof {
                    assert(!self.knows_type(type_id@)) by {
                        if self.handlers.deep_view().contains(type_id@) {
                            let w = choose|w: int|
                                0 <= w < self.handlers.deep_view().len()
                                    && self.handlers.deep_view()[w] == type_id@;
                            assert(self.handlers.deep_view()[w] != type_id@);
                        }
                    }
                }
                WorkerAction::Ignore
            },
            Request::Ping => {
                proof {
                    assert(gm == ReqView::Ping);
                }
                WorkerAction::Reply(Response::Pong)
            },
            Request::Pong => {
                proof {
                    assert(gm == ReqView::Pong);
                }
                WorkerAction::Ignore
            },
        }
    }

    /// Builds the result frame once the local handler produced its
    /// serialized reply for the message with this correlation id.
    pub fn complete(msg_id: u64, body: String) -> (r: Response)
        ensures
            r@ == RespView::Result(msg_id, body@),
    {
        Response::Result(msg_id, body)
    }

    /// The stream ended: tell the coordinator to drop this worker.
    pub fn finished(&self) -> (m: WorkerDisconnected)
        ensures
            m.0 == self.id,
    {
        WorkerDisconnected(self.id)
    }
}

/// A copy of a list of strings with the same content.
pub fn clone_strings(v: &Vec<String>) -> (r: Vec<String>)
    ensures
        r.deep_view() == v.deep_view(),
        r@.len() == v@.len(),
{
    let mut out: Vec<String> = Vec::new();
    let mut i: usize = 0;
    while i < v.len()
        invariant
            i <= v@.len(),
            out@.len() == i,
            forall|t: int| 0 <= t < i ==> out.deep_view()[t] == v.deep_view()[t],
        decreases v@.len() - i,
    {
        let s = v[i].clone();
        proof {
            assert(s@ == v@[i as int]@);
        }
        out.push(s);
        i = i + 1;
    }
    proof {
        assert(out.deep_view() =~= v.deep_view());
    }
    out
}

} // verus!
