use actix_remote::msgs::{
    NodeConnected, NodeGone, NodeSupportedTypes, ProvideRecipient, WorkerDisconnected,
};
use actix_remote::node::NodeStatus;
use actix_remote::world::{
    NodeConnectedOutcome, SignalKind, StopOutcome, World, WorldError,
};

fn s(x: &str) -> String {
    x.to_string()
}

#[test]
fn bind_fails_when_nothing_bound() {
    let mut w = World::new(s("a:1"));
    assert_eq!(w.bind(vec![None, None]), Err(WorldError::BindFailure));
    assert!(w.sockets.is_empty());
    assert_eq!(w.bind(vec![None, Some(s("a:1")), Some(s("a:2"))]), Ok(()));
    assert_eq!(w.sockets, vec![s("a:1"), s("a:2")]);
}

#[test]
fn add_node_keeps_one_entry_per_address() {
    let mut w = World::new(s("a:1"));
    w.add_node(Some(s("b:2")));
    w.add_node(Some(s("c:3")));
    w.add_node(Some(s("b:2")));
    w.add_node(None);
    assert_eq!(w.addrs.len(), 2);
    assert_eq!(w.addrs[0].address(), "b:2");
    assert_eq!(w.addrs[1].address(), "c:3");
    assert_eq!(w.addrs[0].status(), NodeStatus::New);
}

#[test]
fn start_dials_every_configured_peer() {
    let mut w = World::new(s("a:1"));
    w.bind(vec![Some(s("a:1"))]).unwrap();
    w.add_node(Some(s("b:2")));
    w.add_node(Some(s("c:3")));
    let dials = w.start();
    assert_eq!(dials, vec![s("b:2"), s("c:3")]);
    assert_eq!(w.nodes, vec![s("b:2"), s("c:3")]);
    assert!(w.sockets.is_empty());
}

#[test]
fn repeated_handshake_reconnects_instead_of_duplicating() {
    let mut w = World::new(s("a:1"));
    match w.handle_node_connected(NodeConnected(s("b:2"))) {
        NodeConnectedOutcome::CreateLink(a) => assert_eq!(a, s("b:2")),
        _ => panic!("first handshake should create the link"),
    }
    match w.handle_node_connected(NodeConnected(s("b:2"))) {
        NodeConnectedOutcome::Reconnect(a) => assert_eq!(a, s("b:2")),
        _ => panic!("second handshake should reuse the link"),
    }
    assert_eq!(w.nodes, vec![s("b:2")]);
}

#[test]
fn registration_is_monotonic_and_deduplicated() {
    let mut w = World::new(s("a:1"));
    w.register_recipient(ProvideRecipient { type_id: s("echo") });
    w.register_recipient(ProvideRecipient { type_id: s("sum") });
    w.register_recipient(ProvideRecipient { type_id: s("echo") });
    assert_eq!(w.handlers, vec![s("echo"), s("sum")]);
}

#[test]
fn get_recipient_is_idempotent() {
    let mut w = World::new(s("a:1"));
    let first = w.get_recipient("echo");
    let second = w.get_recipient("echo");
    assert_eq!(first, second);
    assert_eq!(w.recipients.len(), 1);
    assert_eq!(w.recipients[first].type_id, s("echo"));
    let other = w.get_recipient("sum");
    assert_ne!(first, other);
    assert_eq!(w.recipients.len(), 2);
}

#[test]
fn workers_get_fresh_ids_and_a_snapshot() {
    let mut w = World::new(s("a:1"));
    w.register_recipient(ProvideRecipient { type_id: s("echo") });
    let (id1, snap1) = w.handle_connection();
    w.register_recipient(ProvideRecipient { type_id: s("sum") });
    let (id2, snap2) = w.handle_connection();
    assert_eq!(id1, 1);
    assert_eq!(id2, 2);
    // the snapshot is fixed at worker start; later registrations do
    // not alter it
    assert_eq!(snap1, vec![s("echo")]);
    assert_eq!(snap2, vec![s("echo"), s("sum")]);
    assert_eq!(w.workers, vec![1, 2]);
    assert!(!w.handle_worker_disconnected(WorkerDisconnected(1)));
    assert_eq!(w.workers, vec![2]);
}

#[test]
fn advertisement_reaches_matching_proxies() {
    let mut w = World::new(s("a:1"));
    let echo = w.get_recipient("echo");
    let sum = w.get_recipient("sum");
    let _ = w.handle_node_connected(NodeConnected(s("b:2")));
    w.handle_node_supported_types(&NodeSupportedTypes {
        node: s("b:2"),
        types: vec![s("echo"), s("unknown")],
    });
    assert_eq!(w.recipients[echo].nodes, vec![s("b:2")]);
    assert!(w.recipients[sum].nodes.is_empty());
}

#[test]
fn advertisement_from_unknown_node_is_dropped() {
    let mut w = World::new(s("a:1"));
    let echo = w.get_recipient("echo");
    w.handle_node_supported_types(&NodeSupportedTypes {
        node: s("stranger:9"),
        types: vec![s("echo")],
    });
    assert!(w.recipients[echo].nodes.is_empty());
}

#[test]
fn node_gone_clears_directory_entries() {
    let mut w = World::new(s("a:1"));
    let echo = w.get_recipient("echo");
    let _ = w.handle_node_connected(NodeConnected(s("b:2")));
    let _ = w.handle_node_connected(NodeConnected(s("c:3")));
    w.handle_node_supported_types(&NodeSupportedTypes {
        node: s("b:2"),
        types: vec![s("echo")],
    });
    w.handle_node_supported_types(&NodeSupportedTypes {
        node: s("c:3"),
        types: vec![s("echo")],
    });
    assert_eq!(w.recipients[echo].nodes, vec![s("b:2"), s("c:3")]);
    w.handle_node_gone(&NodeGone(s("b:2")));
    assert_eq!(w.recipients[echo].nodes, vec![s("c:3")]);
    assert_eq!(w.nodes, vec![s("c:3")]);
}

#[test]
fn graceful_shutdown_waits_for_workers() {
    let mut w = World::new(s("a:1"));
    let (id, _) = w.handle_connection();
    match w.handle_signal(SignalKind::Term) {
        Some(StopOutcome::StopWorkers(ids)) => assert_eq!(ids, vec![id]),
        _ => panic!("expected the worker to be asked to stop"),
    }
    // a second signal changes nothing
    assert!(matches!(w.handle_signal(SignalKind::Int), Some(StopOutcome::AlreadyStopping)));
    // the worker leaves: shutdown completes
    assert!(w.handle_worker_disconnected(WorkerDisconnected(id)));
}

#[test]
fn shutdown_with_no_workers_finishes_at_once() {
    let mut w = World::new(s("a:1"));
    assert!(matches!(w.stop(), StopOutcome::Finished));
    assert!(w.exit);
}

#[test]
fn unhandled_signals_are_ignored() {
    let mut w = World::new(s("a:1"));
    assert!(w.handle_signal(SignalKind::Other).is_none());
    assert!(!w.exit);
}
