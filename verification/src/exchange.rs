//! One full request/response exchange, end to end.
//!
//! `exchange_round_trip` drives a message from a sender's connector
//! across the framed wire into a remote worker, through the remote
//! handler, and the correlated result back across the wire into the
//! connector, which completes the original sink. Everything except
//! the handler itself — which the runtime runs, and whose serialized
//! output is a parameter here — is the library's own verified code,
//! so its contract is a theorem: for every type-id, body and handler
//! output, the sink that issued the request receives exactly the
//! handler's output.

use vstd::prelude::*;
use vstd::pervasive::unreached;

use crate::msgs::SendRemoteMessage;
use crate::node::{NetworkNode, NodeAction, NodeStatus, SendOutcome};
use crate::protocol::{
    frame_payload, frame_ready, frame_rest, framed, lemma_request_round_trip,
    lemma_response_round_trip, prefix_ok, spec_encode_request, spec_encode_response, stripped,
    wire_prefix, wire_prefix_vec, NetworkClientCodec, NetworkServerCodec, ReqView, RespView,
};
use crate::worker::{NetworkWorker, WorkerAction};

verus! {

/// Sends `msg` over `link`, delivers it to `worker` on the remote
/// side, answers with `handler_result` (what the remote handler
/// returned for the decoded body), and routes the result back.
/// The returned action completes the sink `msg.tx` with exactly
/// `handler_result`, and the link's pending table returns to its
/// starting state: the request was pending from dispatch until
/// completion and is gone afterwards.
#[verifier::rlimit(100)]
#[verifier::spinoff_prover]
pub fn exchange_round_trip(
    link: &mut NetworkNode,
    worker: &NetworkWorker,
    msg: SendRemoteMessage,
    handler_result: String,
) -> (r: NodeAction)
    requires
        old(link).wf(),
        old(link).info.status == NodeStatus::Up,
        old(link).mid < u64::MAX,
        worker.knows_type(msg.type_id@),
        spec_encode_request(
            ReqView::Message(((old(link).mid + 1) as u64), msg.type_id@, "1.0"@, msg.data@),
        ).len() <= 0xffff,
        spec_encode_response(
            RespView::Result(((old(link).mid + 1) as u64), handler_result@),
        ).len() <= 0xffff,
    ensures
        final(link).wf(),
        final(link).info == old(link).info,
        final(link).writer == old(link).writer,
        final(link).mid == old(link).mid + 1,
        final(link).requests@ == old(link).requests@,
        r matches NodeAction::CompleteRequest(tk, bd) && tk == msg.tx && bd@ == handler_result@,
{
    let ghost tx = msg.tx;
    let ghost new_mid = (old(link).mid + 1) as u64;
    // the sender's connector allocates the correlation id and frames
    // the message
    let out = link.handle_send(msg);
    let frame = match out {
        SendOutcome::Sent(f) => f,
        SendOutcome::Rejected(_) => unreached(),
    };
    let ghost req_view = frame@;
    proof {
        assert(req_view == ReqView::Message(new_mid, msg.type_id@, "1.0"@, msg.data@));
    }
    // the wire towards the remote peer: the prefix (exchanged when
    // the connection opened) followed by the one frame
    let mut ccodec = NetworkClientCodec::default();
    let mut wire_ab = wire_prefix_vec();
    let enc1 = ccodec.encode(&frame, &mut wire_ab);
    proof {
        assert(enc1 is Ok);
        assert(wire_ab@ == wire_prefix() + Seq::<u8>::empty() + framed(
            spec_encode_request(req_view),
        ));
        assert(wire_ab@ =~= wire_prefix() + framed(spec_encode_request(req_view)));
    }
    // the remote worker's codec consumes the prefix and decodes the
    // frame
    let mut scodec = NetworkServerCodec::default();
    proof {
        let p = spec_encode_request(req_view);
        let w = wire_ab@;
        assert(w.subrange(0, 11) =~= wire_prefix());
        assert(prefix_ok(false, w));
        assert(stripped(false, w) =~= framed(p));
        lemma_frame_facts(p);
        lemma_request_round_trip(req_view);
    }
    let got = scodec.decode(&mut wire_ab);
    let req = match got {
        Ok(Some(rq)) => rq,
        _ => unreached(),
    };
    proof {
        assert(req@ == req_view);
    }
    // the worker routes the message to its local handler
    let act = worker.handle(req);
    let (msg_id, _type_id, _body) = match act {
        WorkerAction::Invoke(i, t, b) => (i, t, b),
        _ => unreached(),
    };
    proof {
        assert(msg_id == new_mid);
    }
    // the handler's serialized output becomes the correlated result
    // frame and travels back
    let resp = NetworkWorker::complete(msg_id, handler_result);
    let ghost resp_view = resp@;
    let mut wire_ba = wire_prefix_vec();
    let enc2 = scodec.encode(&resp, &mut wire_ba);
    proof {
        assert(enc2 is Ok);
        assert(wire_ba@ =~= wire_prefix() + framed(spec_encode_response(resp_view)));
    }
    let mut lcodec = NetworkClientCodec::default();
    proof {
        let p = spec_encode_response(resp_view);
        let w = wire_ba@;
        assert(w.subrange(0, 11) =~= wire_prefix());
        assert(prefix_ok(false, w));
        assert(stripped(false, w) =~= framed(p));
        lemma_frame_facts(p);
        lemma_response_round_trip(resp_view);
    }
    let got2 = lcodec.decode(&mut wire_ba);
    let resp_back = match got2 {
        Ok(Some(rb)) => rb,
        _ => unreached(),
    };
    proof {
        assert(resp_back@ == RespView::Result(new_mid, handler_result@));
    }
    // the connector correlates the result with the pending request
    let ghost pending = link.requests@;
    proof {
        assert(pending == old(link).requests@.push((new_mid, tx)));
        assert forall|k: int| 0 <= k < pending.len() - 1 implies (#[trigger] pending[k]).0
            != new_mid by {
            assert(pending[k] == old(link).requests@[k]);
            assert(old(link).requests@[k].0 <= old(link).mid);
        }
        crate::node::lemma_find_key_first(pending, new_mid, pending.len() - 1);
    }
    let action = link.handle(resp_back);
    proof {
        assert(link.requests@ == pending.remove(pending.len() - 1));
        assert(pending.remove(pending.len() - 1) =~= old(link).requests@);
    }
    action
}

/// A failed connector recovers as soon as one connect attempt
/// succeeds: after a restart (which fails every pending sink — the
/// returned tokens) and a fresh start, a successful connect leaves
/// the link usable again, with the returned handshake on the wire
/// and an empty pending table.
pub fn reconnect_recovers(link: &mut NetworkNode, writer: u64) -> (r: (
    Vec<u64>,
    crate::node::RestartDecision,
    crate::protocol::Request,
))
    requires
        old(link).wf(),
    ensures
        final(link).wf(),
        final(link).info.status == NodeStatus::Up,
        final(link).info.addr == old(link).info.addr,
        final(link).writer == Some(writer),
        final(link).requests@.len() == 0,
        r.0@ == old(link).requests@.map_values(|e: (u64, u64)| e.1),
        r.2@ == ReqView::Handshake(old(link).addr@),
{
    let (decision, failed_sinks) = link.restart();
    link.started();
    let hs = link.on_connected(writer);
    (failed_sinks, decision, hs)
}

/// A framed payload at the head of a buffer is one complete frame
/// holding exactly that payload, with nothing after it.
proof fn lemma_frame_facts(p: Seq<u8>)
    requires
        p.len() <= 0xffff,
    ensures
        frame_ready(framed(p)),
        frame_payload(framed(p)) == p,
        frame_rest(framed(p)) == Seq::<u8>::empty(),
{
    let f = framed(p);
    assert(f[0] == (p.len() / 256) as u8);
    assert(f[1] == (p.len() % 256) as u8);
    assert(f[0] * 256 + f[1] == p.len());
    assert(frame_payload(f) =~= p);
    assert(frame_rest(f) =~= Seq::<u8>::empty());
}

} // verus!
