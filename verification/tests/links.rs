use actix_remote::exchange::{exchange_round_trip, reconnect_recovers};
use actix_remote::msgs::{
    NodeConnected, NodeGone, ReconnectNode, SendRemoteMessage, TypeSupported,
};
use actix_remote::node::{
    NetworkNode, NodeAction, NodeInformation, NodeStatus, SendOutcome,
};
use actix_remote::protocol::{Request, Response};
use actix_remote::recipient::{ProxySendOutcome, RecipientProxy};
use actix_remote::remote::{request_poll, ChannelPoll, RequestPoll};
use actix_remote::worker::{NetworkWorker, WorkerAction};

fn s(x: &str) -> String {
    x.to_string()
}

fn link_up(local: &str, peer: &str, writer: u64) -> NetworkNode {
    let info = NodeInformation::new(s(peer));
    let mut link = NetworkNode::new(s(local), info);
    link.started();
    let hs = link.on_connected(writer);
    assert_eq!(hs, Request::Handshake(s(local)));
    link
}

#[test]
fn node_information_tracks_status() {
    let mut info = NodeInformation::new(s("h:1"));
    assert_eq!(info.status(), NodeStatus::New);
    assert_eq!(info.address(), "h:1");
    info.set_status(NodeStatus::Connecting);
    assert_eq!(info.status(), NodeStatus::Connecting);
}

#[test]
fn send_on_usable_link_allocates_fresh_ids() {
    let mut link = link_up("a:1", "b:2", 7);
    let m1 = SendRemoteMessage { type_id: s("echo"), data: s("x"), tx: 100 };
    let m2 = SendRemoteMessage { type_id: s("echo"), data: s("y"), tx: 101 };
    match link.handle_send(m1) {
        SendOutcome::Sent(f) => {
            assert_eq!(f, Request::Message(1, s("echo"), s("1.0"), s("x")))
        },
        SendOutcome::Rejected(_) => panic!("link was usable"),
    }
    match link.handle_send(m2) {
        SendOutcome::Sent(f) => {
            assert_eq!(f, Request::Message(2, s("echo"), s("1.0"), s("y")))
        },
        SendOutcome::Rejected(_) => panic!("link was usable"),
    }
    assert_eq!(link.requests, vec![(1, 100), (2, 101)]);
}

#[test]
fn send_on_down_link_rejects_sink() {
    let info = NodeInformation::new(s("b:2"));
    let mut link = NetworkNode::new(s("a:1"), info);
    let m = SendRemoteMessage { type_id: s("echo"), data: s("x"), tx: 9 };
    match link.handle_send(m) {
        SendOutcome::Rejected(tx) => assert_eq!(tx, 9),
        SendOutcome::Sent(_) => panic!("link was not usable"),
    }
    assert!(link.requests.is_empty());
}

#[test]
fn result_completes_matching_request_once() {
    let mut link = link_up("a:1", "b:2", 1);
    let m = SendRemoteMessage { type_id: s("echo"), data: s("x"), tx: 55 };
    let _ = link.handle_send(m);
    match link.handle(Response::Result(1, s("out"))) {
        NodeAction::CompleteRequest(tx, body) => {
            assert_eq!(tx, 55);
            assert_eq!(body, s("out"));
        },
        _ => panic!("expected a completion"),
    }
    assert!(link.requests.is_empty());
    // a late duplicate is dropped
    assert!(matches!(link.handle(Response::Result(1, s("out"))), NodeAction::Ignore));
}

#[test]
fn unknown_result_id_is_dropped() {
    let mut link = link_up("a:1", "b:2", 1);
    assert!(matches!(link.handle(Response::Result(77, s("x"))), NodeAction::Ignore));
}

#[test]
fn supported_forwards_advertisement() {
    let mut link = link_up("a:1", "b:2", 1);
    match link.handle(Response::Supported(vec![s("echo"), s("sum")])) {
        NodeAction::NotifySupported(m) => {
            assert_eq!(m.node, s("b:2"));
            assert_eq!(m.types, vec![s("echo"), s("sum")]);
        },
        _ => panic!("expected an advertisement"),
    }
}

#[test]
fn restart_fails_all_pending_sinks() {
    let mut link = link_up("a:1", "b:2", 1);
    let _ = link.handle_send(SendRemoteMessage { type_id: s("t"), data: s("1"), tx: 10 });
    let _ = link.handle_send(SendRemoteMessage { type_id: s("t"), data: s("2"), tx: 11 });
    let (_decision, sinks) = link.restart();
    assert_eq!(sinks, vec![10, 11]);
    assert!(link.requests.is_empty());
    assert_eq!(link.info.status(), NodeStatus::Failed);
    assert!(link.writer.is_none());
    // a failed link stops on a reconnect nudge; a usable one stays
    assert!(link.handle_reconnect(ReconnectNode));
}

#[test]
fn reconnect_nudge_ignored_while_usable() {
    let link = link_up("a:1", "b:2", 1);
    assert!(!link.handle_reconnect(ReconnectNode));
    assert!(!link.stop_actor());
}

#[test]
fn failed_link_recovers_on_successful_connect() {
    let mut link = link_up("a:1", "b:2", 1);
    let _ = link.handle_send(SendRemoteMessage { type_id: s("t"), data: s("1"), tx: 10 });
    let (failed, _decision, hs) = reconnect_recovers(&mut link, 2);
    assert_eq!(failed, vec![10]);
    assert_eq!(hs, Request::Handshake(s("a:1")));
    assert_eq!(link.info.status(), NodeStatus::Up);
    assert_eq!(link.writer, Some(2));
    assert!(link.requests.is_empty());
}

#[test]
fn worker_greets_with_handshake_and_snapshot() {
    let (worker, greet) = NetworkWorker::start(3, vec![s("echo"), s("sum")]);
    assert_eq!(greet, vec![
        Response::Handshake,
        Response::Supported(vec![s("echo"), s("sum")]),
    ]);
    assert_eq!(worker.id, 3);
    assert_eq!(worker.finished().0, 3);
}

#[test]
fn worker_routes_requests() {
    let (worker, _) = NetworkWorker::start(1, vec![s("echo")]);
    match worker.handle(Request::Handshake(s("c:3"))) {
        WorkerAction::NotifyConnected(NodeConnected(a)) => assert_eq!(a, s("c:3")),
        _ => panic!("expected a connect notification"),
    }
    match worker.handle(Request::Message(5, s("echo"), s("1.0"), s("\"v\""))) {
        WorkerAction::Invoke(id, t, b) => {
            assert_eq!(id, 5);
            assert_eq!(t, s("echo"));
            assert_eq!(b, s("\"v\""));
        },
        _ => panic!("expected a dispatch"),
    }
    // no handler for this type: dropped
    assert!(matches!(
        worker.handle(Request::Message(6, s("other"), s("1.0"), s("x"))),
        WorkerAction::Ignore
    ));
    match worker.handle(Request::Ping) {
        WorkerAction::Reply(r) => assert_eq!(r, Response::Pong),
        _ => panic!("expected a pong"),
    }
    assert!(matches!(worker.handle(Request::Pong), WorkerAction::Ignore));
}

#[test]
fn worker_completion_builds_result_frame() {
    assert_eq!(NetworkWorker::complete(5, s("\"v\"")), Response::Result(5, s("\"v\"")));
}

#[test]
fn proxy_without_provider_fails_fast() {
    let proxy = RecipientProxy::new(s("echo"));
    match proxy.handle_send(s("\"m\""), 40) {
        ProxySendOutcome::NoProvider(tx) => assert_eq!(tx, 40),
        ProxySendOutcome::Forward(_, _) => panic!("no provider was known"),
    }
}

#[test]
fn proxy_routes_to_longest_known_provider() {
    let mut proxy = RecipientProxy::new(s("echo"));
    proxy.handle_type_supported(TypeSupported { type_id: s("echo"), node_id: s("b:2") });
    proxy.handle_type_supported(TypeSupported { type_id: s("echo"), node_id: s("c:3") });
    // a repeated advertisement changes nothing
    proxy.handle_type_supported(TypeSupported { type_id: s("echo"), node_id: s("b:2") });
    assert_eq!(proxy.nodes, vec![s("b:2"), s("c:3")]);
    match proxy.handle_send(s("\"m\""), 41) {
        ProxySendOutcome::Forward(node, m) => {
            assert_eq!(node, s("b:2"));
            assert_eq!(m.type_id, s("echo"));
            assert_eq!(m.data, s("\"m\""));
            assert_eq!(m.tx, 41);
        },
        ProxySendOutcome::NoProvider(_) => panic!("providers were known"),
    }
}

#[test]
fn provider_membership_follows_last_event() {
    let mut proxy = RecipientProxy::new(s("echo"));
    proxy.handle_type_supported(TypeSupported { type_id: s("echo"), node_id: s("b:2") });
    proxy.handle_node_gone(&NodeGone(s("b:2")));
    assert!(proxy.nodes.is_empty());
    proxy.handle_type_supported(TypeSupported { type_id: s("echo"), node_id: s("b:2") });
    assert_eq!(proxy.nodes, vec![s("b:2")]);
}

#[test]
fn request_poll_decisions() {
    assert!(matches!(
        request_poll(ChannelPoll::Ready(s("\"r\"")), true),
        RequestPoll::Delivered(b) if b == s("\"r\"")
    ));
    assert!(matches!(request_poll(ChannelPoll::Pending, false), RequestPoll::NotReady));
    assert!(matches!(request_poll(ChannelPoll::Pending, true), RequestPoll::TimedOut));
    assert!(matches!(request_poll(ChannelPoll::Closed, false), RequestPoll::MailboxClosed));
}

#[test]
fn typed_round_trip_returns_handler_output() {
    // an echo handler on the remote side: its serialized output is
    // its input
    let mut link = link_up("a:1", "b:2", 1);
    let (worker, _) = NetworkWorker::start(1, vec![s("echo")]);
    let msg = SendRemoteMessage { type_id: s("echo"), data: s("\"hello\""), tx: 77 };
    match exchange_round_trip(&mut link, &worker, msg, s("\"hello\"")) {
        NodeAction::CompleteRequest(tx, body) => {
            assert_eq!(tx, 77);
            assert_eq!(body, s("\"hello\""));
        },
        _ => panic!("expected the sink to be completed"),
    }
    assert!(link.requests.is_empty());
    assert_eq!(link.info.status(), NodeStatus::Up);
}
