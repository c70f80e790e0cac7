use p2p_overlay::commands::{ack_of_publish, send_message};
use p2p_overlay::config::AppConfig;
use p2p_overlay::engine::{handle_command, handle_swarm_input, handle_tick, plan_startup, Action, SwarmInput};
use p2p_overlay::events::NodeEvent;
use p2p_overlay::relay_role::handle_relay_event;

fn emitted(actions: &[Action]) -> Vec<NodeEvent> {
    actions
        .iter()
        .filter_map(|a| match a {
            Action::Emit { event } => Some(event.clone()),
            _ => None,
        })
        .collect()
}

fn lan_config() -> AppConfig {
    AppConfig {
        is_bootstrap_node: false,
        relay_address: String::new(),
        bootstrap_nodes: Vec::new(),
        listen_port: 0,
    }
}

fn relay_config() -> AppConfig {
    AppConfig {
        is_bootstrap_node: false,
        relay_address: "/ip4/9.9.9.9/tcp/4001/p2p/QmRelay/p2p-circuit".to_string(),
        bootstrap_nodes: Vec::new(),
        listen_port: 0,
    }
}

#[test]
fn local_mesh_discovery_and_chat() {
    // Two nodes on one LAN, no relay, no bootstrap.
    let me2 = "Qm2".to_string();
    let (mut node2, startup) = plan_startup(&lan_config(), &me2);
    assert_eq!(emitted(&startup), vec![NodeEvent::Me { peer: "Qm2".to_string() }]);
    assert_eq!(node2.relay_peer, None);
    assert!(!startup.iter().any(|a| matches!(a, Action::Dial { .. })));

    // Node 2 discovers node 1 over the local link.
    let discovered = SwarmInput::MdnsDiscovered {
        found: vec![("Qm1".to_string(), "/ip4/192.168.0.7/tcp/41000".to_string())],
    };
    let actions = handle_swarm_input(&mut node2, &discovered, 1);
    assert_eq!(emitted(&actions), vec![NodeEvent::PeerUp { peer: "Qm1".to_string() }]);
    assert!(actions.iter().any(|a| matches!(a, Action::AddGossipPeer { peer } if peer == "Qm1")));
    assert!(actions.iter().any(
        |a| matches!(a, Action::AddRoutingAddress { peer, .. } if peer == "Qm1")
    ));

    // Node 1 broadcasts "hello"; node 2 surfaces it verbatim.
    let msg = SwarmInput::GossipMessage { source: "Qm1".to_string(), data: "hello".to_string() };
    let actions = handle_swarm_input(&mut node2, &msg, 2);
    assert_eq!(
        emitted(&actions),
        vec![NodeEvent::Inbound { peer: "Qm1".to_string(), text: "hello".to_string() }]
    );

    // On node 1 the broadcast command publishes and acknowledges nothing.
    let me1 = "Qm1".to_string();
    let (mut node1, _) = plan_startup(&lan_config(), &me1);
    let cmd = send_message("BROADCAST".to_string(), "hello".to_string());
    let actions = handle_command(&mut node1, &cmd, &Vec::new(), 2);
    assert_eq!(actions.len(), 1);
    match &actions[0] {
        Action::Publish { data, ack } => {
            assert_eq!(data, "hello");
            assert_eq!(ack.as_deref(), Some("BROADCAST"));
            assert_eq!(ack_of_publish(ack, data, true), None);
        }
        other => panic!("expected a publish, got {:?}", other),
    }
    assert!(emitted(&actions).is_empty());
}

#[test]
fn nat_relay_reservation_sequence() {
    let me = "Qm1".to_string();
    let (mut node, startup) = plan_startup(&relay_config(), &me);
    assert_eq!(node.relay_peer.as_deref(), Some("QmRelay"));

    // Startup announces the identity first and dials the relay's physical address.
    assert_eq!(emitted(&startup), vec![NodeEvent::Me { peer: "Qm1".to_string() }]);
    assert!(startup.iter().any(
        |a| matches!(a, Action::Dial { addr } if addr == "/ip4/9.9.9.9/tcp/4001/p2p/QmRelay")
    ));

    // The relay connection comes up: no PEER+ for the relay; the configured
    // relayed address (circuit marker included) is given to listen_on to
    // request a reservation.
    let up = SwarmInput::ConnectionEstablished { peer: "QmRelay".to_string() };
    let actions = handle_swarm_input(&mut node, &up, 3);
    assert!(emitted(&actions).is_empty());
    assert!(actions.iter().any(|a| matches!(
        a,
        Action::ListenOn { addr } if addr == "/ip4/9.9.9.9/tcp/4001/p2p/QmRelay/p2p-circuit"
    )));

    // The reservation is accepted: the presence announcement is scheduled,
    // to be re-entered through the command channel after the delay.
    let actions = handle_swarm_input(&mut node, &SwarmInput::ReservationAccepted, 4);
    assert_eq!(actions, vec![Action::ScheduleDelayedPresence]);

    // The delayed command publishes the presence announcement, unacknowledged.
    let cmd = send_message("BROADCAST".to_string(), "ANNOUNCE:PRESENCE".to_string());
    let actions = handle_command(&mut node, &cmd, &Vec::new(), 5);
    assert!(matches!(
        &actions[0],
        Action::Publish { data, .. } if data == "ANNOUNCE:PRESENCE"
    ));
    assert!(emitted(&actions).is_empty());

    // Node 2 welcomes us over the topic: PEER+ for node 2, nothing surfaced.
    let welcome = SwarmInput::GossipMessage {
        source: "Qm2".to_string(),
        data: "ANNOUNCE:WELCOME".to_string(),
    };
    let actions = handle_swarm_input(&mut node, &welcome, 6);
    assert_eq!(emitted(&actions), vec![NodeEvent::PeerUp { peer: "Qm2".to_string() }]);
    assert!(!actions.iter().any(|a| matches!(a, Action::Publish { .. })));

    // Throughout the sequence the relay's PeerID never reached a peer event.
    let touches_relay = |e: &NodeEvent| {
        matches!(e, NodeEvent::PeerUp { peer } | NodeEvent::PeerDown { peer } if peer == "QmRelay")
    };
    assert!(!emitted(&actions).iter().any(touches_relay));
    assert!(!node.tracker.contains(&"QmRelay".to_string()));
}

#[test]
fn refresh_reannounces_connected_peers() {
    let me = "Qm1".to_string();
    let (mut node, _) = plan_startup(&lan_config(), &me);

    // One live peer, known from gossip.
    let msg = SwarmInput::GossipMessage { source: "QmP".to_string(), data: "hi".to_string() };
    handle_swarm_input(&mut node, &msg, 1);

    // The refresh clears the tracker and re-announces the connected peer.
    let cmd = p2p_overlay::commands::refresh_node();
    let connected = vec!["QmP".to_string()];
    let actions = handle_command(&mut node, &cmd, &connected, 2);
    assert!(actions.iter().any(|a| matches!(a, Action::Bootstrap)));
    assert!(actions.iter().any(|a| matches!(a, Action::QueryClosestRandom)));
    assert!(actions.iter().any(
        |a| matches!(a, Action::Publish { data, .. } if data == "ANNOUNCE:REFRESH")
    ));
    assert_eq!(emitted(&actions), vec![NodeEvent::PeerUp { peer: "QmP".to_string() }]);

    // Ordinary traffic from that peer afterwards adds no duplicate PEER+.
    let msg = SwarmInput::GossipMessage { source: "QmP".to_string(), data: "again".to_string() };
    let actions = handle_swarm_input(&mut node, &msg, 3);
    assert_eq!(
        emitted(&actions),
        vec![NodeEvent::Inbound { peer: "QmP".to_string(), text: "again".to_string() }]
    );
}

#[test]
fn timeout_eviction_between_ticks() {
    let me = "Qm1".to_string();
    let (mut node, _) = plan_startup(&relay_config(), &me);

    // A peer appears through a gossip message, then goes silent.
    let msg = SwarmInput::GossipMessage { source: "QmB".to_string(), data: "hi".to_string() };
    handle_swarm_input(&mut node, &msg, 0);

    // Ticks at 15, 30 and 45 seconds: the 45 s timeout has not yet elapsed.
    for now in [15, 30, 45] {
        let actions = handle_tick(&mut node, now);
        assert!(emitted(&actions).is_empty(), "no eviction at {now}");
    }

    // The tick at 60 seconds finds the evidence 60 s old and evicts.
    let actions = handle_tick(&mut node, 60);
    assert_eq!(emitted(&actions), vec![NodeEvent::PeerDown { peer: "QmB".to_string() }]);
}

#[test]
fn tick_is_idle_without_relay() {
    let me = "Qm1".to_string();
    let (mut node, _) = plan_startup(&lan_config(), &me);
    let msg = SwarmInput::GossipMessage { source: "QmB".to_string(), data: "hi".to_string() };
    handle_swarm_input(&mut node, &msg, 0);
    // Without a known relay the periodic tick does nothing at all.
    let actions = handle_tick(&mut node, 100);
    assert!(actions.is_empty());
}

#[test]
fn control_traffic_is_answered_not_surfaced() {
    let me = "QmA".to_string();
    let (mut node, _) = plan_startup(&lan_config(), &me);

    // A refresh announcement from a new peer: at most a PEER+, then an
    // outbound welcome; no MSG line.
    let msg = SwarmInput::GossipMessage {
        source: "QmB".to_string(),
        data: "ANNOUNCE:REFRESH".to_string(),
    };
    let actions = handle_swarm_input(&mut node, &msg, 1);
    assert_eq!(emitted(&actions), vec![NodeEvent::PeerUp { peer: "QmB".to_string() }]);
    assert!(actions.iter().any(
        |a| matches!(a, Action::Publish { data, ack } if data == "ANNOUNCE:WELCOME" && ack.is_none())
    ));
    assert!(!emitted(&actions).iter().any(|e| matches!(e, NodeEvent::Inbound { .. })));

    // The same announcement again: the peer is known, only the welcome goes out.
    let msg = SwarmInput::GossipMessage {
        source: "QmB".to_string(),
        data: "ANNOUNCE:PRESENCE".to_string(),
    };
    let actions = handle_swarm_input(&mut node, &msg, 2);
    assert!(emitted(&actions).is_empty());
    assert!(actions.iter().any(
        |a| matches!(a, Action::Publish { data, .. } if data == "ANNOUNCE:WELCOME")
    ));
}

#[test]
fn disconnect_and_mdns_expiry_emit_peer_down() {
    let me = "QmA".to_string();
    let (mut node, _) = plan_startup(&lan_config(), &me);
    let addr = "/ip4/192.168.0.7/tcp/41000".to_string();
    let discovered = SwarmInput::MdnsDiscovered { found: vec![("QmB".to_string(), addr.clone())] };
    handle_swarm_input(&mut node, &discovered, 1);

    // A close with remaining connections changes nothing.
    let half_close = SwarmInput::ConnectionClosed { peer: "QmB".to_string(), remaining: 1 };
    let actions = handle_swarm_input(&mut node, &half_close, 2);
    assert!(actions.is_empty());

    // The last connection closing forgets the peer and leaves the mesh.
    let close = SwarmInput::ConnectionClosed { peer: "QmB".to_string(), remaining: 0 };
    let actions = handle_swarm_input(&mut node, &close, 3);
    assert_eq!(emitted(&actions), vec![NodeEvent::PeerDown { peer: "QmB".to_string() }]);
    assert!(actions.iter().any(|a| matches!(a, Action::RemoveGossipPeer { peer } if peer == "QmB")));

    // The same close again: the peer is gone, no second PEER-.
    let actions = handle_swarm_input(&mut node, &close, 4);
    assert!(emitted(&actions).is_empty());

    // Expiry of an mDNS record for an unknown peer removes only the address.
    let expired = SwarmInput::MdnsExpired { expired: vec![("QmB".to_string(), addr.clone())] };
    let actions = handle_swarm_input(&mut node, &expired, 5);
    assert!(emitted(&actions).is_empty());
    assert!(actions.iter().any(
        |a| matches!(a, Action::RemoveRoutingAddress { peer, .. } if peer == "QmB")
    ));
}

#[test]
fn routing_update_hides_relay() {
    let me = "Qm1".to_string();
    let (mut node, _) = plan_startup(&relay_config(), &me);

    // A DHT routing update for the relay feeds the mesh but stays hidden.
    let upd = SwarmInput::RoutingUpdated { peer: "QmRelay".to_string() };
    let actions = handle_swarm_input(&mut node, &upd, 1);
    assert!(emitted(&actions).is_empty());
    assert!(actions.iter().any(
        |a| matches!(a, Action::AddGossipPeer { peer } if peer == "QmRelay")
    ));

    // The same update for an ordinary peer is announced.
    let upd = SwarmInput::RoutingUpdated { peer: "Qm2".to_string() };
    let actions = handle_swarm_input(&mut node, &upd, 2);
    assert_eq!(emitted(&actions), vec![NodeEvent::PeerUp { peer: "Qm2".to_string() }]);
}

#[test]
fn bootstrap_seeding_skips_relay_dial() {
    let config = AppConfig {
        is_bootstrap_node: false,
        relay_address: "/ip4/9.9.9.9/tcp/4001/p2p/QmRelay/p2p-circuit".to_string(),
        bootstrap_nodes: vec![
            "/ip4/9.9.9.9/tcp/4001/p2p/QmRelay".to_string(),
            "/ip4/8.8.8.8/tcp/4001/p2p/QmSeed".to_string(),
            "/ip4/7.7.7.7/tcp/4001".to_string(),
        ],
        listen_port: 0,
    };
    let me = "Qm1".to_string();
    let (_, actions) = plan_startup(&config, &me);

    // Both well-formed entries seed the DHT.
    assert!(actions.iter().any(|a| matches!(
        a,
        Action::AddRoutingAddress { peer, addr }
            if peer == "QmRelay" && addr == "/ip4/9.9.9.9/tcp/4001"
    )));
    assert!(actions.iter().any(|a| matches!(
        a,
        Action::AddRoutingAddress { peer, addr }
            if peer == "QmSeed" && addr == "/ip4/8.8.8.8/tcp/4001"
    )));
    // The relay is dialled exactly once (at startup, for its physical
    // address); the seeding loop does not dial it again.
    let relay_dials = actions
        .iter()
        .filter(|a| matches!(a, Action::Dial { addr } if addr == "/ip4/9.9.9.9/tcp/4001/p2p/QmRelay"))
        .count();
    assert_eq!(relay_dials, 1);
    assert!(actions.iter().any(
        |a| matches!(a, Action::Dial { addr } if addr == "/ip4/8.8.8.8/tcp/4001/p2p/QmSeed")
    ));
    // The entry without a peer-id component is skipped entirely.
    assert!(!actions.iter().any(
        |a| matches!(a, Action::Dial { addr } if addr.starts_with("/ip4/7.7.7.7"))
    ));
}

#[test]
fn bootstrap_role_binds_configured_port() {
    let config = AppConfig {
        is_bootstrap_node: true,
        relay_address: String::new(),
        bootstrap_nodes: Vec::new(),
        listen_port: 4001,
    };
    let me = "Qm1".to_string();
    let (_, actions) = plan_startup(&config, &me);
    assert!(actions.iter().any(
        |a| matches!(a, Action::ListenOn { addr } if addr == "/ip4/0.0.0.0/tcp/4001")
    ));

    // A client binds an OS-assigned port instead.
    let (_, actions) = plan_startup(&lan_config(), &me);
    assert!(actions.iter().any(
        |a| matches!(a, Action::ListenOn { addr } if addr == "/ip4/0.0.0.0/tcp/0")
    ));
}

#[test]
fn relay_role_keeps_mesh_in_step() {
    let up = SwarmInput::ConnectionEstablished { peer: "QmC".to_string() };
    let actions = handle_relay_event(&up);
    assert_eq!(actions, vec![Action::AddGossipPeer { peer: "QmC".to_string() }]);

    let down = SwarmInput::ConnectionClosed { peer: "QmC".to_string(), remaining: 0 };
    let actions = handle_relay_event(&down);
    assert_eq!(actions, vec![Action::RemoveGossipPeer { peer: "QmC".to_string() }]);

    let ident = SwarmInput::IdentifyReceived {
        peer: "QmC".to_string(),
        listen_addrs: vec!["/ip4/5.5.5.5/tcp/4001".to_string()],
    };
    let actions = handle_relay_event(&ident);
    assert_eq!(
        actions,
        vec![Action::AddRoutingAddress {
            peer: "QmC".to_string(),
            addr: "/ip4/5.5.5.5/tcp/4001".to_string(),
        }]
    );

    // The relay never reacts to gossip with host events.
    let msg = SwarmInput::GossipMessage { source: "QmC".to_string(), data: "hi".to_string() };
    assert!(handle_relay_event(&msg).is_empty());
}

#[test]
fn ordinary_connection_announces_peer_once() {
    let me = "QmA".to_string();
    let (mut node, _) = plan_startup(&lan_config(), &me);
    let up = SwarmInput::ConnectionEstablished { peer: "QmB".to_string() };
    let actions = handle_swarm_input(&mut node, &up, 1);
    assert_eq!(emitted(&actions), vec![NodeEvent::PeerUp { peer: "QmB".to_string() }]);
    // A second connection to the same peer refreshes it silently.
    let actions = handle_swarm_input(&mut node, &up, 2);
    assert!(emitted(&actions).is_empty());
    // Inputs the loop ignores decide nothing.
    assert!(handle_swarm_input(&mut node, &SwarmInput::Other, 3).is_empty());
}

#[test]
fn gossip_source_is_tracked_even_when_it_is_the_relay() {
    // The gossip arm tracks whoever authored the message, with no relay
    // check: the relay stays out of the peer set only because it never
    // publishes on the topic.
    let me = "Qm1".to_string();
    let (mut node, _) = plan_startup(&relay_config(), &me);
    let msg = SwarmInput::GossipMessage {
        source: "QmRelay".to_string(),
        data: "hello".to_string(),
    };
    let actions = handle_swarm_input(&mut node, &msg, 1);
    assert_eq!(
        emitted(&actions),
        vec![
            NodeEvent::PeerUp { peer: "QmRelay".to_string() },
            NodeEvent::Inbound { peer: "QmRelay".to_string(), text: "hello".to_string() },
        ]
    );
}

#[test]
fn identify_seeds_every_reported_address() {
    let me = "QmA".to_string();
    let (mut node, _) = plan_startup(&lan_config(), &me);
    let ident = SwarmInput::IdentifyReceived {
        peer: "QmB".to_string(),
        listen_addrs: vec![
            "/ip4/1.1.1.1/tcp/1".to_string(),
            "/ip4/2.2.2.2/tcp/2".to_string(),
        ],
    };
    let actions = handle_swarm_input(&mut node, &ident, 1);
    assert_eq!(actions.len(), 2);
    assert!(actions.iter().all(
        |a| matches!(a, Action::AddRoutingAddress { peer, .. } if peer == "QmB")
    ));
    assert!(emitted(&actions).is_empty());
}
