use p2p_overlay::commands::{ack_of_publish, is_refresh, refresh_node, send_message};
use p2p_overlay::events::{classify_gossip, render_event, GossipClass, NodeEvent};
use p2p_overlay::multiaddr::{relay_plan, split_trailing_peer};
use p2p_overlay::relay_role::relay_listen_addrs;
use p2p_overlay::text::{ends_with, starts_with, str_eq, u16_to_dec};
use p2p_overlay::tracker::LivenessTracker;
use p2p_overlay::config::identity_file_name;
use p2p_overlay::events::greeting_line;

#[test]
fn prefix_and_suffix_tests() {
    assert!(starts_with("ANNOUNCE:REFRESH", "ANNOUNCE:"));
    assert!(!starts_with("ANNOUNCE", "ANNOUNCE:"));
    assert!(starts_with("abc", ""));
    assert!(ends_with("/ip4/1.2.3.4/tcp/1/p2p-circuit", "/p2p-circuit"));
    assert!(!ends_with("/p2p-circui", "/p2p-circuit"));
    assert!(str_eq("REFRESH", "REFRESH"));
    assert!(!str_eq("REFRESH", "REFRESH "));
}

#[test]
fn decimal_rendering() {
    assert_eq!(u16_to_dec(0), "0");
    assert_eq!(u16_to_dec(7), "7");
    assert_eq!(u16_to_dec(4001), "4001");
    assert_eq!(u16_to_dec(65535), "65535");
    assert_eq!(u16_to_dec(100), "100");
}

#[test]
fn tracker_touch_is_idempotent_per_peer() {
    let mut t = LivenessTracker::new();
    let a = "QmA".to_string();
    assert!(t.touch(&a, 10));
    assert!(!t.touch(&a, 20));
    assert!(!t.touch(&a, 30));
    assert_eq!(t.len(), 1);
    assert!(t.contains(&a));
}

#[test]
fn tracker_forget_reports_presence() {
    let mut t = LivenessTracker::new();
    let a = "QmA".to_string();
    let b = "QmB".to_string();
    t.touch(&a, 1);
    assert!(t.forget(&a));
    assert!(!t.forget(&a));
    assert!(!t.forget(&b));
    assert_eq!(t.len(), 0);
}

#[test]
fn tracker_sweep_evicts_only_stale() {
    let mut t = LivenessTracker::new();
    let a = "QmA".to_string();
    let b = "QmB".to_string();
    t.touch(&a, 0);
    t.touch(&b, 30);
    // At 45 seconds nothing is older than the 45 s timeout yet.
    let evicted = t.sweep(45, 45);
    assert!(evicted.is_empty());
    // At 46 seconds the peer seen at 0 has timed out; the other has not.
    let evicted = t.sweep(46, 45);
    assert_eq!(evicted, vec!["QmA".to_string()]);
    assert!(!t.contains(&a));
    assert!(t.contains(&b));
}

#[test]
fn tracker_sweep_refreshed_peer_survives() {
    let mut t = LivenessTracker::new();
    let a = "QmA".to_string();
    t.touch(&a, 0);
    t.touch(&a, 40);
    let evicted = t.sweep(50, 45);
    assert!(evicted.is_empty());
    assert!(t.contains(&a));
}

#[test]
fn tracker_clear_empties() {
    let mut t = LivenessTracker::new();
    t.touch(&"QmA".to_string(), 1);
    t.touch(&"QmB".to_string(), 2);
    t.clear();
    assert_eq!(t.len(), 0);
}

#[test]
fn classify_recognises_control_prefixes() {
    assert_eq!(classify_gossip("ANNOUNCE:PRESENCE"), GossipClass::Presence);
    assert_eq!(classify_gossip("ANNOUNCE:PRESENCE extra"), GossipClass::Presence);
    assert_eq!(classify_gossip("ANNOUNCE:REFRESH"), GossipClass::Refresh);
    assert_eq!(classify_gossip("ANNOUNCE:WELCOME"), GossipClass::Welcome);
    assert_eq!(classify_gossip("hello"), GossipClass::Chat);
    assert_eq!(classify_gossip("ANNOUNCE:OTHER"), GossipClass::Chat);
    assert_eq!(classify_gossip(""), GossipClass::Chat);
}

#[test]
fn event_lines_render_exactly() {
    assert_eq!(render_event(&NodeEvent::Me { peer: "QmX".to_string() }), "ME:QmX");
    assert_eq!(render_event(&NodeEvent::PeerUp { peer: "QmX".to_string() }), "PEER+:QmX");
    assert_eq!(render_event(&NodeEvent::PeerDown { peer: "QmX".to_string() }), "PEER-:QmX");
    assert_eq!(
        render_event(&NodeEvent::Inbound { peer: "QmX".to_string(), text: "hi".to_string() }),
        "MSG:QmX:hi"
    );
    assert_eq!(
        render_event(&NodeEvent::Sent { recipient: "bob".to_string(), text: "hi".to_string() }),
        "MSG_SENT:bob:hi"
    );
}

#[test]
fn send_message_carries_values_through() {
    let c = send_message("bob".to_string(), "hi".to_string());
    assert_eq!(c.recipient, "bob");
    assert_eq!(c.body, "hi");
    assert!(!is_refresh(&c));
}

#[test]
fn refresh_node_builds_refresh_command() {
    let c = refresh_node();
    assert_eq!(c.recipient, "REFRESH");
    assert_eq!(c.body, "REFRESH");
    assert!(is_refresh(&c));
}

#[test]
fn publish_ack_rules() {
    let body = "hi".to_string();
    // Success with a named recipient: acknowledged.
    let ack = ack_of_publish(&Some("bob".to_string()), &body, true);
    assert_eq!(ack, Some(NodeEvent::Sent { recipient: "bob".to_string(), text: "hi".to_string() }));
    // Broadcast suppresses the acknowledgment even on success.
    assert_eq!(ack_of_publish(&Some("BROADCAST".to_string()), &body, true), None);
    // A failed publish is never acknowledged.
    assert_eq!(ack_of_publish(&Some("bob".to_string()), &body, false), None);
    // Control publishes request no acknowledgment.
    assert_eq!(ack_of_publish(&None, &body, true), None);
}

#[test]
fn split_trailing_peer_components() {
    let r = split_trailing_peer("/ip4/1.2.3.4/tcp/4001/p2p/QmRelay");
    assert_eq!(r, Some(("/ip4/1.2.3.4/tcp/4001".to_string(), "QmRelay".to_string())));
    assert_eq!(split_trailing_peer("/ip4/1.2.3.4/tcp/4001"), None);
    assert_eq!(split_trailing_peer("/p2p/"), None);
    assert_eq!(split_trailing_peer(""), None);
    assert_eq!(split_trailing_peer("QmNoSlash"), None);
}

#[test]
fn relay_plan_splits_circuit_and_peer() {
    let plan = relay_plan("/ip4/9.9.9.9/tcp/4001/p2p/QmRelay/p2p-circuit");
    assert_eq!(plan.relay_peer, Some("QmRelay".to_string()));
    assert_eq!(plan.dial_addr, "/ip4/9.9.9.9/tcp/4001/p2p/QmRelay");
    assert_eq!(plan.listen_addr, "/ip4/9.9.9.9/tcp/4001/p2p/QmRelay/p2p-circuit");
}

#[test]
fn relay_plan_without_circuit_marker() {
    let plan = relay_plan("/ip4/9.9.9.9/tcp/4001/p2p/QmRelay");
    assert_eq!(plan.relay_peer, Some("QmRelay".to_string()));
    assert_eq!(plan.dial_addr, "/ip4/9.9.9.9/tcp/4001/p2p/QmRelay");
}

#[test]
fn relay_plan_without_peer_component() {
    let plan = relay_plan("/ip4/9.9.9.9/tcp/4001");
    assert_eq!(plan.relay_peer, None);
    assert_eq!(plan.dial_addr, "/ip4/9.9.9.9/tcp/4001");
}

#[test]
fn relay_listener_addresses() {
    let (tcp, quic) = relay_listen_addrs(4001);
    assert_eq!(tcp, "/ip4/0.0.0.0/tcp/4001");
    assert_eq!(quic, "/ip4/0.0.0.0/udp/4001/quic-v1");
}

#[test]
fn identity_file_name_shape() {
    assert_eq!(identity_file_name("alice"), "identity_alice.bin");
    assert_eq!(identity_file_name(""), "identity_.bin");
}

#[test]
fn greeting_line_shape() {
    assert_eq!(greeting_line("QmX"), "Hi! My PeerID is: QmX");
}
