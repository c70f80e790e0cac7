use vstd::prelude::*;
use vstd::string::StringExecFns;

use crate::commands::{spec_is_refresh, Command, is_refresh};
use crate::config::{AppConfig, ConfigModel, LIVENESS_TIMEOUT_SECS};
use crate::events::{spec_classify, classify_gossip, EventModel, GossipClass, NodeEvent};
use crate::multiaddr::{
    has_trailing_peer, peer_prefix_of, relay_plan, spec_physical, spec_relay_peer,
    split_trailing_peer, trailing_peer_of,
};
use crate::text::{dec_rep, str_eq, u16_to_dec};
use crate::tracker::{
    forget_model, has_key, keep_fresh, stale_keys, touch_model, Entry, LivenessTracker,
};

verus! {

/// One network-side occurrence that the event loop reacts to, already
/// stripped down to the values the decisions read.
#[derive(Debug, Clone, PartialEq, Eq)]
pub enum SwarmInput {
    /// A signed gossip message arrived on the topic.
    GossipMessage { source: String, data: String },
    /// Local-link discovery found peers, with one address each.
    MdnsDiscovered { found: Vec<(String, String)> },
    /// Local-link discovery records expired.
    MdnsExpired { expired: Vec<(String, String)> },
    /// The DHT updated its routing entry for a peer.
    RoutingUpdated { peer: String },
    /// A transport-level connection to a peer is up.
    ConnectionEstablished { peer: String },
    /// A connection closed; `remaining` counts the connections still open to
    /// the same peer.
    ConnectionClosed { peer: String, remaining: u32 },
    /// The identity exchange reported a peer's listen addresses.
    IdentifyReceived { peer: String, listen_addrs: Vec<String> },
    /// The relay accepted our circuit reservation.
    ReservationAccepted,
    /// Anything the loop ignores.
    Other,
}

/// The mathematical shape of a network-side occurrence.
#[verifier::ext_equal]
pub enum SwarmInputModel {
    GossipMessage { source: Seq<char>, data: Seq<char> },
    MdnsDiscovered { found: Seq<(Seq<char>, Seq<char>)> },
    MdnsExpired { expired: Seq<(Seq<char>, Seq<char>)> },
    RoutingUpdated { peer: Seq<char> },
    ConnectionEstablished { peer: Seq<char> },
    ConnectionClosed { peer: Seq<char>, remaining: u32 },
    IdentifyReceived { peer: Seq<char>, listen_addrs: Seq<Seq<char>> },
    ReservationAccepted,
    Other,
}

impl View for SwarmInput {
    type V = SwarmInputModel;

    open spec fn view(&self) -> SwarmInputModel {
        match self {
            SwarmInput::GossipMessage { source, data } => SwarmInputModel::GossipMessage {
                source: source@,
                data: data@,
            },
            SwarmInput::MdnsDiscovered { found } => SwarmInputModel::MdnsDiscovered {
                found: found.deep_view(),
            },
            SwarmInput::MdnsExpired { expired } => SwarmInputModel::MdnsExpired {
                expired: expired.deep_view(),
            },
            SwarmInput::RoutingUpdated { peer } => SwarmInputModel::RoutingUpdated { peer: peer@ },
            SwarmInput::ConnectionEstablished { peer } => SwarmInputModel::ConnectionEstablished {
                peer: peer@,
            },
            SwarmInput::ConnectionClosed { peer, remaining } => SwarmInputModel::ConnectionClosed {
                peer: peer@,
                remaining: *remaining,
            },
            SwarmInput::IdentifyReceived { peer, listen_addrs } => SwarmInputModel::IdentifyReceived {
                peer: peer@,
                listen_addrs: listen_addrs.deep_view(),
            },
            SwarmInput::ReservationAccepted => SwarmInputModel::ReservationAccepted,
            SwarmInput::Other => SwarmInputModel::Other,
        }
    }
}

/// One thing the event loop asks its surroundings to do, in the order the
/// actions are to be performed. `Emit` writes a line to the host; the others
/// drive the network stack.
#[derive(Debug, Clone, PartialEq, Eq)]
pub enum Action {
    /// Write an event line to the host-facing stream.
    Emit { event: NodeEvent },
    /// Publish `data` on the gossip topic; `ack` carries the recipient to
    /// acknowledge to when the command asked for an acknowledgment.
    Publish { data: String, ack: Option<String> },
    /// Start a DHT bootstrap.
    Bootstrap,
    /// Query the DHT for peers closest to a freshly random target.
    QueryClosestRandom,
    /// Add a peer to the gossip mesh explicitly.
    AddGossipPeer { peer: String },
    /// Drop a peer from the gossip mesh.
    RemoveGossipPeer { peer: String },
    /// Seed the DHT with an address for a peer.
    AddRoutingAddress { peer: String, addr: String },
    /// Remove a DHT address record.
    RemoveRoutingAddress { peer: String, addr: String },
    /// Bind a listener (for a relayed address this requests a reservation).
    ListenOn { addr: String },
    /// Dial an address.
    Dial { addr: String },
    /// After the presence delay, enqueue the relayed-presence announcement as
    /// an ordinary broadcast command.
    ScheduleDelayedPresence,
}

/// The mathematical shape of an action.
#[verifier::ext_equal]
pub enum ActionModel {
    Emit { event: EventModel },
    Publish { data: Seq<char>, ack: Option<Seq<char>> },
    Bootstrap,
    QueryClosestRandom,
    AddGossipPeer { peer: Seq<char> },
    RemoveGossipPeer { peer: Seq<char> },
    AddRoutingAddress { peer: Seq<char>, addr: Seq<char> },
    RemoveRoutingAddress { peer: Seq<char>, addr: Seq<char> },
    ListenOn { addr: Seq<char> },
    Dial { addr: Seq<char> },
    ScheduleDelayedPresence,
}

impl View for Action {
    type V = ActionModel;

    open spec fn view(&self) -> ActionModel {
        match self {
            Action::Emit { event } => ActionModel::Emit { event: event@ },
            Action::Publish { data, ack } => ActionModel::Publish {
                data: data@,
                ack: match ack {
                    Some(a) => Some(a@),
                    None => None,
                },
            },
            Action::Bootstrap => ActionModel::Bootstrap,
            Action::QueryClosestRandom => ActionModel::QueryClosestRandom,
            Action::AddGossipPeer { peer } => ActionModel::AddGossipPeer { peer: peer@ },
            Action::RemoveGossipPeer { peer } => ActionModel::RemoveGossipPeer { peer: peer@ },
            Action::AddRoutingAddress { peer, addr } => ActionModel::AddRoutingAddress {
                peer: peer@,
                addr: addr@,
            },
            Action::RemoveRoutingAddress { peer, addr } => ActionModel::RemoveRoutingAddress {
                peer: peer@,
                addr: addr@,
            },
            Action::ListenOn { addr } => ActionModel::ListenOn { addr: addr@ },
            Action::Dial { addr } => ActionModel::Dial { addr: addr@ },
            Action::ScheduleDelayedPresence => ActionModel::ScheduleDelayedPresence,
        }
    }
}

/// The views of a list of actions, in order.
pub open spec fn action_views(s: Seq<Action>) -> Seq<ActionModel> {
    Seq::new(s.len(), |i: int| s[i]@)
}

/// The node's own state between event-loop iterations: the peer-liveness
/// tracker and what the relay bootstrap decided at startup.
pub struct NodeState {
    /// The single point of truth for which peers the host currently sees.
    pub tracker: LivenessTracker,
    /// The relay's peer identifier, when the configured relay address carried
    /// one. Excluded from the host-visible peer set.
    pub relay_peer: Option<String>,
    /// The configured relay address, circuit marker included; passed to
    /// `listen_on` once the relay connection is established.
    pub relay_listen: Option<String>,
}

/// The mathematical shape of the node state.
#[verifier::ext_equal]
pub struct NodeModel {
    pub peers: Seq<Entry>,
    pub relay_peer: Option<Seq<char>>,
    pub relay_listen: Option<Seq<char>>,
}

impl View for NodeState {
    type V = NodeModel;

    open spec fn view(&self) -> NodeModel {
        NodeModel {
            peers: self.tracker@,
            relay_peer: match &self.relay_peer {
                Some(r) => Some(r@),
                None => None,
            },
            relay_listen: match &self.relay_listen {
                Some(a) => Some(a@),
                None => None,
            },
        }
    }
}

impl NodeState {
    /// The tracker never holds a key twice.
    pub open spec fn wf(&self) -> bool {
        self.tracker.wf()
    }
}

/// Records evidence for every listed peer in turn, skipping the relay;
/// emits `PEER+` for each peer that was not tracked before. Returns the
/// tracker contents and the emissions, in list order.
pub open spec fn touch_all(
    peers: Seq<Entry>,
    listed: Seq<Seq<char>>,
    relay: Option<Seq<char>>,
    now: u64,
) -> (Seq<Entry>, Seq<ActionModel>)
    decreases listed.len(),
{
    if listed.len() == 0 {
        (peers, Seq::empty())
    } else {
        let (p1, a1) = touch_all(peers, listed.drop_last(), relay, now);
        let q = listed.last();
        if relay == Some(q) {
            (p1, a1)
        } else if has_key(p1, q) {
            (touch_model(p1, q, now), a1)
        } else {
            (
                touch_model(p1, q, now),
                a1.push(ActionModel::Emit { event: EventModel::PeerUp { peer: q } }),
            )
        }
    }
}

/// Handles one local-discovery batch: every found peer is touched; a newly
/// present one is added to the gossip mesh, seeds the DHT with its address,
/// and is announced with `PEER+`.
pub open spec fn discover_all(
    peers: Seq<Entry>,
    found: Seq<(Seq<char>, Seq<char>)>,
    now: u64,
) -> (Seq<Entry>, Seq<ActionModel>)
    decreases found.len(),
{
    if found.len() == 0 {
        (peers, Seq::empty())
    } else {
        let (p1, a1) = discover_all(peers, found.drop_last(), now);
        let q = found.last().0;
        let addr = found.last().1;
        if has_key(p1, q) {
            (touch_model(p1, q, now), a1)
        } else {
            (
                touch_model(p1, q, now),
                a1 + seq![
                    ActionModel::AddGossipPeer { peer: q },
                    ActionModel::AddRoutingAddress { peer: q, addr: addr },
                    ActionModel::Emit { event: EventModel::PeerUp { peer: q } },
                ],
            )
        }
    }
}

/// Handles one local-discovery expiry batch: every expired address leaves the
/// DHT; a peer that was tracked is forgotten and announced with `PEER-`.
pub open spec fn expire_all(
    peers: Seq<Entry>,
    expired: Seq<(Seq<char>, Seq<char>)>,
) -> (Seq<Entry>, Seq<ActionModel>)
    decreases expired.len(),
{
    if expired.len() == 0 {
        (peers, Seq::empty())
    } else {
        let (p1, a1) = expire_all(peers, expired.drop_last());
        let q = expired.last().0;
        let addr = expired.last().1;
        let removal = seq![ActionModel::RemoveRoutingAddress { peer: q, addr: addr }];
        if has_key(p1, q) {
            (
                forget_model(p1, q),
                a1 + removal + seq![ActionModel::Emit { event: EventModel::PeerDown { peer: q } }],
            )
        } else {
            (p1, a1 + removal)
        }
    }
}

/// DHT address seeding for every reported listen address of a peer.
pub open spec fn routing_adds(peer: Seq<char>, addrs: Seq<Seq<char>>) -> Seq<ActionModel> {
    addrs.map_values(|a: Seq<char>| ActionModel::AddRoutingAddress { peer: peer, addr: a })
}

/// What one host command decides. A `REFRESH` clears the tracker, bootstraps
/// and perturbs the DHT, republishes the keep-alive, and re-announces every
/// currently connected peer other than the relay. Anything else is published
/// with an acknowledgment request.
pub open spec fn command_step(
    m: NodeModel,
    recipient: Seq<char>,
    body: Seq<char>,
    connected: Seq<Seq<char>>,
    now: u64,
) -> (NodeModel, Seq<ActionModel>) {
    if spec_is_refresh(recipient) {
        let (p, emits) = touch_all(Seq::empty(), connected, m.relay_peer, now);
        (
            NodeModel { peers: p, relay_peer: m.relay_peer, relay_listen: m.relay_listen },
            seq![
                ActionModel::Bootstrap,
                ActionModel::QueryClosestRandom,
                ActionModel::Publish { data: "ANNOUNCE:REFRESH"@, ack: None },
            ] + emits,
        )
    } else {
        (m, seq![ActionModel::Publish { data: body, ack: Some(recipient) }])
    }
}

/// What the periodic discovery tick decides: nothing until a relay peer is
/// known; otherwise a DHT perturbation, the keep-alive publish, and a sweep
/// that announces `PEER-` for every timed-out peer.
pub open spec fn tick_step(m: NodeModel, now: u64) -> (NodeModel, Seq<ActionModel>) {
    if m.relay_peer is Some {
        (
            NodeModel {
                peers: keep_fresh(m.peers, now, LIVENESS_TIMEOUT_SECS),
                relay_peer: m.relay_peer,
                relay_listen: m.relay_listen,
            },
            seq![
                ActionModel::QueryClosestRandom,
                ActionModel::Publish { data: "ANNOUNCE:REFRESH"@, ack: None },
            ] + stale_keys(m.peers, now, LIVENESS_TIMEOUT_SECS).map_values(
                |k: Seq<char>| ActionModel::Emit { event: EventModel::PeerDown { peer: k } },
            ),
        )
    } else {
        (m, Seq::empty())
    }
}

/// What one network-side occurrence decides.
pub open spec fn swarm_step(m: NodeModel, inp: SwarmInputModel, now: u64) -> (
    NodeModel,
    Seq<ActionModel>,
) {
    match inp {
        SwarmInputModel::GossipMessage { source, data } => {
            let newly = !has_key(m.peers, source);
            let peers2 = touch_model(m.peers, source, now);
            let up: Seq<ActionModel> = if newly {
                seq![ActionModel::Emit { event: EventModel::PeerUp { peer: source } }]
            } else {
                Seq::empty()
            };
            let rest: Seq<ActionModel> = match spec_classify(data) {
                GossipClass::Presence => seq![
                    ActionModel::Publish { data: "ANNOUNCE:WELCOME"@, ack: None },
                ],
                GossipClass::Refresh => seq![
                    ActionModel::Publish { data: "ANNOUNCE:WELCOME"@, ack: None },
                ],
                GossipClass::Welcome => Seq::empty(),
                GossipClass::Chat => seq![
                    ActionModel::Emit { event: EventModel::Inbound { peer: source, text: data } },
                ],
            };
            (
                NodeModel { peers: peers2, relay_peer: m.relay_peer, relay_listen: m.relay_listen },
                up + rest,
            )
        },
        SwarmInputModel::MdnsDiscovered { found } => {
            let (p, acts) = discover_all(m.peers, found, now);
            (NodeModel { peers: p, relay_peer: m.relay_peer, relay_listen: m.relay_listen }, acts)
        },
        SwarmInputModel::MdnsExpired { expired } => {
            let (p, acts) = expire_all(m.peers, expired);
            (NodeModel { peers: p, relay_peer: m.relay_peer, relay_listen: m.relay_listen }, acts)
        },
        SwarmInputModel::RoutingUpdated { peer } => {
            let mesh = seq![ActionModel::AddGossipPeer { peer: peer }];
            if m.relay_peer == Some(peer) {
                (m, mesh)
            } else {
                let newly = !has_key(m.peers, peer);
                (
                    NodeModel {
                        peers: touch_model(m.peers, peer, now),
                        relay_peer: m.relay_peer,
                        relay_listen: m.relay_listen,
                    },
                    if newly {
                        mesh + seq![
                            ActionModel::Emit { event: EventModel::PeerUp { peer: peer } },
                        ]
                    } else {
                        mesh
                    },
                )
            }
        },
        SwarmInputModel::ConnectionEstablished { peer } => {
            let mesh = seq![ActionModel::AddGossipPeer { peer: peer }];
            if m.relay_peer == Some(peer) {
                (
                    m,
                    mesh + match m.relay_listen {
                        Some(addr) => seq![ActionModel::ListenOn { addr: addr }],
                        None => Seq::empty(),
                    },
                )
            } else {
                let newly = !has_key(m.peers, peer);
                (
                    NodeModel {
                        peers: touch_model(m.peers, peer, now),
                        relay_peer: m.relay_peer,
                        relay_listen: m.relay_listen,
                    },
                    if newly {
                        mesh + seq![
                            ActionModel::Emit { event: EventModel::PeerUp { peer: peer } },
                        ]
                    } else {
                        mesh
                    },
                )
            }
        },
        SwarmInputModel::ConnectionClosed { peer, remaining } => {
            if remaining == 0 {
                let down: Seq<ActionModel> = if has_key(m.peers, peer) {
                    seq![ActionModel::Emit { event: EventModel::PeerDown { peer: peer } }]
                } else {
                    Seq::empty()
                };
                (
                    NodeModel {
                        peers: forget_model(m.peers, peer),
                        relay_peer: m.relay_peer,
                        relay_listen: m.relay_listen,
                    },
                    down + seq![ActionModel::RemoveGossipPeer { peer: peer }],
                )
            } else {
                (m, Seq::empty())
            }
        },
        SwarmInputModel::IdentifyReceived { peer, listen_addrs } => (
            m,
            routing_adds(peer, listen_addrs),
        ),
        SwarmInputModel::ReservationAccepted => (m, seq![ActionModel::ScheduleDelayedPresence]),
        SwarmInputModel::Other => (m, Seq::empty()),
    }
}

/// Carries out one host command on the node state. `connected` lists the
/// peers the swarm currently holds connections to; it is read only by the
/// refresh sweep.
pub fn handle_command(
    state: &mut NodeState,
    cmd: &Command,
    connected: &Vec<String>,
    now: u64,
) -> (actions: Vec<Action>)
    requires
        old(state).wf(),
    ensures
        final(state).wf(),
        final(state)@ == command_step(
            old(state)@,
            cmd.recipient@,
            cmd.body@,
            connected.deep_view(),
            now,
        ).0,
        action_views(actions@) == command_step(
            old(state)@,
            cmd.recipient@,
            cmd.body@,
            connected.deep_view(),
            now,
        ).1,
{
    let mut actions: Vec<Action> = Vec::new();
    if is_refresh(cmd) {
        state.tracker.clear();
        actions.push(Action::Bootstrap);
        actions.push(Action::QueryClosestRandom);
        actions.push(Action::Publish { data: String::from_str("ANNOUNCE:REFRESH"), ack: None });
        let ghost base = seq![
            ActionModel::Bootstrap,
            ActionModel::QueryClosestRandom,
            ActionModel::Publish { data: "ANNOUNCE:REFRESH"@, ack: None },
        ];
        proof {
            assert(action_views(actions@) =~= base);
        }
        let ghost rp = state@.relay_peer;
        let n = connected.len();
        let mut i: usize = 0;
        while i < n
            invariant
                i <= n,
                n == connected@.len(),
                state.wf(),
                state@.relay_peer == rp,
                state@.relay_listen == old(state)@.relay_listen,
                state.tracker@ == touch_all(
                    Seq::empty(),
                    connected.deep_view().subrange(0, i as int),
                    rp,
                    now,
                ).0,
                action_views(actions@) == base + touch_all(
                    Seq::empty(),
                    connected.deep_view().subrange(0, i as int),
                    rp,
                    now,
                ).1,
            decreases n - i,
        {
            let ghost pre = connected.deep_view().subrange(0, i as int);
            let ghost cur = connected.deep_view().subrange(0, i as int + 1);
            proof {
                assert(cur.drop_last() =~= pre);
                assert(cur.last() == connected@[i as int]@);
            }
            let q = &connected[i];
            let skip = match &state.relay_peer {
                Some(r) => str_eq(r.as_str(), q.as_str()),
                None => false,
            };
            if !skip {
                let newly = state.tracker.touch(q, now);
                if newly {
                    let ghost before = actions@;
                    let ghost a1 = touch_all(Seq::empty(), pre, rp, now).1;
                    actions.push(
                        Action::Emit { event: NodeEvent::PeerUp { peer: q.clone() } },
                    );
                    proof {
                        let e = ActionModel::Emit {
                            event: EventModel::PeerUp { peer: cur.last() },
                        };
                        assert(actions@.last()@ == e);
                        assert(touch_all(Seq::empty(), cur, rp, now).1 == a1.push(e));
                        assert(action_views(actions@) =~= action_views(before).push(e));
                        assert(action_views(before).push(e) =~= base + a1.push(e));
                    }
                }
            }
            i += 1;
        }
        proof {
            assert(connected.deep_view().subrange(0, n as int) =~= connected.deep_view());
        }
    } else {
        actions.push(
            Action::Publish { data: cmd.body.clone(), ack: Some(cmd.recipient.clone()) },
        );
        proof {
            assert(action_views(actions@) =~= command_step(
                old(state)@,
                cmd.recipient@,
                cmd.body@,
                connected.deep_view(),
                now,
            ).1);
        }
    }
    actions
}

/// Handles a local-discovery batch of found peers.
fn on_mdns_discovered(
    state: &mut NodeState,
    found: &Vec<(String, String)>,
    now: u64,
) -> (actions: Vec<Action>)
    requires
        old(state).wf(),
    ensures
        final(state).wf(),
        final(state)@.relay_peer == old(state)@.relay_peer,
        final(state)@.relay_listen == old(state)@.relay_listen,
        final(state)@.peers == discover_all(old(state)@.peers, found.deep_view(), now).0,
        action_views(actions@) == discover_all(old(state)@.peers, found.deep_view(), now).1,
{
    let ghost peers0 = state@.peers;
    let mut actions: Vec<Action> = Vec::new();
    let n = found.len();
    let mut i: usize = 0;
    while i < n
        invariant
            i <= n,
            n == found@.len(),
            state.wf(),
            state@.relay_peer == old(state)@.relay_peer,
            state@.relay_listen == old(state)@.relay_listen,
            state.tracker@ == discover_all(peers0, found.deep_view().subrange(0, i as int), now).0,
            action_views(actions@) == discover_all(
                peers0,
                found.deep_view().subrange(0, i as int),
                now,
            ).1,
        decreases n - i,
    {
        let ghost pre = found.deep_view().subrange(0, i as int);
        let ghost cur = found.deep_view().subrange(0, i as int + 1);
        proof {
            assert(cur.drop_last() =~= pre);
            assert(cur.last() == (found@[i as int].0@, found@[i as int].1@));
        }
        let q = &found[i].0;
        let addr = &found[i].1;
        let ghost a1 = discover_all(peers0, pre, now).1;
        let newly = state.tracker.touch(q, now);
        if newly {
            let ghost before = actions@;
            actions.push(Action::AddGossipPeer { peer: q.clone() });
            actions.push(Action::AddRoutingAddress { peer: q.clone(), addr: addr.clone() });
            actions.push(Action::Emit { event: NodeEvent::PeerUp { peer: q.clone() } });
            proof {
                let added = seq![
                    ActionModel::AddGossipPeer { peer: cur.last().0 },
                    ActionModel::AddRoutingAddress { peer: cur.last().0, addr: cur.last().1 },
                    ActionModel::Emit { event: EventModel::PeerUp { peer: cur.last().0 } },
                ];
                assert(discover_all(peers0, cur, now).1 == a1 + added);
                assert(action_views(actions@) =~= action_views(before) + added);
                assert(action_views(before) + added =~= a1 + added);
            }
        }
        i += 1;
    }
    proof {
        assert(found.deep_view().subrange(0, n as int) =~= found.deep_view());
    }
    actions
}

/// Handles a local-discovery batch of expired records.
fn on_mdns_expired(
    state: &mut NodeState,
    expired: &Vec<(String, String)>,
) -> (actions: Vec<Action>)
    requires
        old(state).wf(),
    ensures
        final(state).wf(),
        final(state)@.relay_peer == old(state)@.relay_peer,
        final(state)@.relay_listen == old(state)@.relay_listen,
        final(state)@.peers == expire_all(old(state)@.peers, expired.deep_view()).0,
        action_views(actions@) == expire_all(old(state)@.peers, expired.deep_view()).1,
{
    let ghost peers0 = state@.peers;
    let mut actions: Vec<Action> = Vec::new();
    let n = expired.len();
    let mut i: usize = 0;
    while i < n
        invariant
            i <= n,
            n == expired@.len(),
            state.wf(),
            state@.relay_peer == old(state)@.relay_peer,
            state@.relay_listen == old(state)@.relay_listen,
            state.tracker@ == expire_all(peers0, expired.deep_view().subrange(0, i as int)).0,
            action_views(actions@) == expire_all(
                peers0,
                expired.deep_view().subrange(0, i as int),
            ).1,
        decreases n - i,
    {
        let ghost pre = expired.deep_view().subrange(0, i as int);
        let ghost cur = expired.deep_view().subrange(0, i as int + 1);
        proof {
            assert(cur.drop_last() =~= pre);
            assert(cur.last() == (expired@[i as int].0@, expired@[i as int].1@));
        }
        let q = &expired[i].0;
        let addr = &expired[i].1;
        let ghost a1 = expire_all(peers0, pre).1;
        let ghost removal = seq![
            ActionModel::RemoveRoutingAddress { peer: cur.last().0, addr: cur.last().1 },
        ];
        let ghost before = actions@;
        actions.push(Action::RemoveRoutingAddress { peer: q.clone(), addr: addr.clone() });
        let was_present = state.tracker.forget(q);
        if was_present {
            actions.push(Action::Emit { event: NodeEvent::PeerDown { peer: q.clone() } });
            proof {
                let e = ActionModel::Emit { event: EventModel::PeerDown { peer: cur.last().0 } };
                assert(expire_all(peers0, cur).1 == a1 + removal + seq![e]);
                assert(action_views(actions@) =~= action_views(before) + removal + seq![e]);
                assert(action_views(before) + removal + seq![e] =~= a1 + removal + seq![e]);
            }
        } else {
            proof {
                assert(expire_all(peers0, cur).1 == a1 + removal);
                assert(action_views(actions@) =~= action_views(before) + removal);
                assert(action_views(before) + removal =~= a1 + removal);
            }
        }
        i += 1;
    }
    proof {
        assert(expired.deep_view().subrange(0, n as int) =~= expired.deep_view());
    }
    actions
}

/// Seeds the DHT with every listen address the identity exchange reported.
fn on_identify(peer: &String, listen_addrs: &Vec<String>) -> (actions: Vec<Action>)
    ensures
        action_views(actions@) == routing_adds(peer@, listen_addrs.deep_view()),
{
    let ghost addrs = listen_addrs.deep_view();
    let mut actions: Vec<Action> = Vec::new();
    let n = listen_addrs.len();
    let mut i: usize = 0;
    while i < n
        invariant
            i <= n,
            n == listen_addrs@.len(),
            addrs == listen_addrs.deep_view(),
            action_views(actions@) == routing_adds(peer@, addrs.subrange(0, i as int)),
        decreases n - i,
    {
        let ghost before = actions@;
        actions.push(
            Action::AddRoutingAddress { peer: peer.clone(), addr: listen_addrs[i].clone() },
        );
        proof {
            let e = ActionModel::AddRoutingAddress { peer: peer@, addr: addrs[i as int] };
            assert(actions@.last()@ == e);
            assert(action_views(actions@) =~= action_views(before).push(e));
            assert(action_views(before).push(e) =~= routing_adds(
                peer@,
                addrs.subrange(0, i as int + 1),
            ));
        }
        i += 1;
    }
    proof {
        assert(addrs.subrange(0, n as int) =~= addrs);
    }
    actions
}

/// Carries out one network-side occurrence on the node state, at clock
/// reading `now`.
pub fn handle_swarm_input(state: &mut NodeState, input: &SwarmInput, now: u64) -> (actions: Vec<
    Action,
>)
    requires
        old(state).wf(),
    ensures
        final(state).wf(),
        final(state)@ == swarm_step(old(state)@, input@, now).0,
        action_views(actions@) == swarm_step(old(state)@, input@, now).1,
{
    match input {
        SwarmInput::GossipMessage { source, data } => {
            let mut actions: Vec<Action> = Vec::new();
            let newly = state.tracker.touch(source, now);
            if newly {
                actions.push(Action::Emit { event: NodeEvent::PeerUp { peer: source.clone() } });
            }
            match classify_gossip(data.as_str()) {
                GossipClass::Presence | GossipClass::Refresh => {
                    actions.push(
                        Action::Publish { data: String::from_str("ANNOUNCE:WELCOME"), ack: None },
                    );
                },
                GossipClass::Welcome => {},
                GossipClass::Chat => {
                    actions.push(
                        Action::Emit {
                            event: NodeEvent::Inbound { peer: source.clone(), text: data.clone() },
                        },
                    );
                },
            }
            proof {
                assert(final(state)@ =~= swarm_step(old(state)@, input@, now).0);
                assert(action_views(actions@) =~= swarm_step(old(state)@, input@, now).1);
            }
            actions
        },
        SwarmInput::MdnsDiscovered { found } => {
            let actions = on_mdns_discovered(state, found, now);
            proof {
                assert(final(state)@ =~= swarm_step(old(state)@, input@, now).0);
            }
            actions
        },
        SwarmInput::MdnsExpired { expired } => {
            let actions = on_mdns_expired(state, expired);
            proof {
                assert(final(state)@ =~= swarm_step(old(state)@, input@, now).0);
            }
            actions
        },
        SwarmInput::RoutingUpdated { peer } => {
            let mut actions: Vec<Action> = Vec::new();
            actions.push(Action::AddGossipPeer { peer: peer.clone() });
            let is_relay = match &state.relay_peer {
                Some(r) => str_eq(r.as_str(), peer.as_str()),
                None => false,
            };
            if !is_relay {
                let newly = state.tracker.touch(peer, now);
                if newly {
                    actions.push(
                        Action::Emit { event: NodeEvent::PeerUp { peer: peer.clone() } },
                    );
                }
            }
            proof {
                assert(final(state)@ =~= swarm_step(old(state)@, input@, now).0);
                assert(action_views(actions@) =~= swarm_step(old(state)@, input@, now).1);
            }
            actions
        },
        SwarmInput::ConnectionEstablished { peer } => {
            let mut actions: Vec<Action> = Vec::new();
            actions.push(Action::AddGossipPeer { peer: peer.clone() });
            let is_relay = match &state.relay_peer {
                Some(r) => str_eq(r.as_str(), peer.as_str()),
                None => false,
            };
            if is_relay {
                match &state.relay_listen {
                    Some(addr) => {
                        actions.push(Action::ListenOn { addr: addr.clone() });
                    },
                    None => {},
                }
            } else {
                let newly = state.tracker.touch(peer, now);
                if newly {
                    actions.push(
                        Action::Emit { event: NodeEvent::PeerUp { peer: peer.clone() } },
                    );
                }
            }
            proof {
                assert(final(state)@ =~= swarm_step(old(state)@, input@, now).0);
                assert(action_views(actions@) =~= swarm_step(old(state)@, input@, now).1);
            }
            actions
        },
        SwarmInput::ConnectionClosed { peer, remaining } => {
            let mut actions: Vec<Action> = Vec::new();
            if *remaining == 0 {
                let was_present = state.tracker.forget(peer);
                if was_present {
                    actions.push(
                        Action::Emit { event: NodeEvent::PeerDown { peer: peer.clone() } },
                    );
                }
                actions.push(Action::RemoveGossipPeer { peer: peer.clone() });
            }
            proof {
                assert(final(state)@ =~= swarm_step(old(state)@, input@, now).0);
                assert(action_views(actions@) =~= swarm_step(old(state)@, input@, now).1);
            }
            actions
        },
        SwarmInput::IdentifyReceived { peer, listen_addrs } => {
            let actions = on_identify(peer, listen_addrs);
            proof {
                assert(final(state)@ =~= swarm_step(old(state)@, input@, now).0);
            }
            actions
        },
        SwarmInput::ReservationAccepted => {
            let mut actions: Vec<Action> = Vec::new();
            actions.push(Action::ScheduleDelayedPresence);
            proof {
                assert(final(state)@ =~= swarm_step(old(state)@, input@, now).0);
                assert(action_views(actions@) =~= swarm_step(old(state)@, input@, now).1);
            }
            actions
        },
        SwarmInput::Other => {
            let actions: Vec<Action> = Vec::new();
            proof {
                assert(final(state)@ =~= swarm_step(old(state)@, input@, now).0);
                assert(action_views(actions@) =~= swarm_step(old(state)@, input@, now).1);
            }
            actions
        },
    }
}

/// Carries out one periodic discovery tick at clock reading `now`.
pub fn handle_tick(state: &mut NodeState, now: u64) -> (actions: Vec<Action>)
    requires
        old(state).wf(),
    ensures
        final(state).wf(),
        final(state)@ == tick_step(old(state)@, now).0,
        action_views(actions@) == tick_step(old(state)@, now).1,
{
    let mut actions: Vec<Action> = Vec::new();
    if state.relay_peer.is_some() {
        actions.push(Action::QueryClosestRandom);
        actions.push(Action::Publish { data: String::from_str("ANNOUNCE:REFRESH"), ack: None });
        let ghost base = seq![
            ActionModel::QueryClosestRandom,
            ActionModel::Publish { data: "ANNOUNCE:REFRESH"@, ack: None },
        ];
        proof {
            assert(action_views(actions@) =~= base);
        }
        let ghost stale = stale_keys(state@.peers, now, LIVENESS_TIMEOUT_SECS);
        let evicted = state.tracker.sweep(now, LIVENESS_TIMEOUT_SECS);
        let n = evicted.len();
        let mut i: usize = 0;
        while i < n
            invariant
                i <= n,
                n == evicted@.len(),
                evicted.deep_view() == stale,
                action_views(actions@) == base + stale.subrange(0, i as int).map_values(
                    |k: Seq<char>| ActionModel::Emit { event: EventModel::PeerDown { peer: k } },
                ),
            decreases n - i,
        {
            let ghost before = actions@;
            actions.push(
                Action::Emit { event: NodeEvent::PeerDown { peer: evicted[i].clone() } },
            );
            proof {
                let e = ActionModel::Emit { event: EventModel::PeerDown { peer: stale[i as int] } };
                assert(evicted@[i as int]@ == stale[i as int]);
                assert(actions@.last()@ == e);
                assert(action_views(actions@) =~= action_views(before).push(e));
                assert(action_views(before).push(e) =~= base + stale.subrange(0, i as int + 1)
                    .map_values(
                    |k: Seq<char>| ActionModel::Emit { event: EventModel::PeerDown { peer: k } },
                ));
            }
            i += 1;
        }
        proof {
            assert(stale.subrange(0, n as int) =~= stale);
            assert(stale.subrange(0, n as int).map_values(
                |k: Seq<char>| ActionModel::Emit { event: EventModel::PeerDown { peer: k } },
            ) =~= stale.map_values(
                |k: Seq<char>| ActionModel::Emit { event: EventModel::PeerDown { peer: k } },
            ));
        }
    }
    actions
}

/// The listener the node binds at startup: the configured port for a
/// bootstrap-role node, an OS-assigned port otherwise.
pub open spec fn spec_listen_text(cfg: ConfigModel) -> Seq<char> {
    "/ip4/0.0.0.0/tcp/"@ + dec_rep(
        (if cfg.is_bootstrap_node {
            cfg.listen_port
        } else {
            0u16
        }) as nat,
    )
}

/// DHT seeding for the configured bootstrap entries: each entry that ends in
/// a peer-id component seeds the DHT with `(peer, address)` and is dialled,
/// unless the peer is the relay, which is already being dialled. Entries
/// without a trailing peer-id component are skipped.
pub open spec fn seed_all(entries: Seq<Seq<char>>, relay: Option<Seq<char>>) -> Seq<ActionModel>
    decreases entries.len(),
{
    if entries.len() == 0 {
        Seq::empty()
    } else {
        let rest = seed_all(entries.drop_last(), relay);
        let e = entries.last();
        if has_trailing_peer(e) {
            let id = trailing_peer_of(e);
            let seeded = rest + seq![
                ActionModel::AddRoutingAddress { peer: id, addr: peer_prefix_of(e) },
            ];
            if relay == Some(id) {
                seeded
            } else {
                seeded + seq![ActionModel::Dial { addr: e }]
            }
        } else {
            rest
        }
    }
}

/// The state a node starts from: an empty tracker, and the relay identity and
/// reservation address that the configured relay address carries.
pub open spec fn startup_model(cfg: ConfigModel) -> NodeModel {
    NodeModel {
        peers: Seq::empty(),
        relay_peer: if cfg.relay_address.len() > 0 {
            spec_relay_peer(cfg.relay_address)
        } else {
            None
        },
        relay_listen: if cfg.relay_address.len() > 0 {
            Some(cfg.relay_address)
        } else {
            None
        },
    }
}

/// The actions a node performs at startup, in order: announce its own
/// identity, bind the initial listener, dial the relay's physical address
/// when a relay is configured, and seed the DHT from the bootstrap entries.
pub open spec fn startup_actions(cfg: ConfigModel, self_peer: Seq<char>) -> Seq<ActionModel> {
    seq![
        ActionModel::Emit { event: EventModel::Me { peer: self_peer } },
        ActionModel::ListenOn { addr: spec_listen_text(cfg) },
    ] + (if cfg.relay_address.len() > 0 {
        seq![ActionModel::Dial { addr: spec_physical(cfg.relay_address) }]
    } else {
        Seq::empty()
    }) + seed_all(cfg.bootstrap_nodes, startup_model(cfg).relay_peer)
}

/// Decides everything a node does before its event loop starts, from the
/// configuration alone: the initial state and the startup actions.
/// `self_peer` is this node's own peer identifier; announcing it is the first
/// action.
pub fn plan_startup(config: &AppConfig, self_peer: &String) -> (r: (NodeState, Vec<Action>))
    ensures
        r.0.wf(),
        r.0@ == startup_model(config@),
        action_views(r.1@) == startup_actions(config@, self_peer@),
{
    let mut actions: Vec<Action> = Vec::new();
    actions.push(Action::Emit { event: NodeEvent::Me { peer: self_peer.clone() } });
    let port: u16 = if config.is_bootstrap_node {
        config.listen_port
    } else {
        0
    };
    let listen = String::from_str("/ip4/0.0.0.0/tcp/").concat(u16_to_dec(port).as_str());
    actions.push(Action::ListenOn { addr: listen });
    let has_relay = !config.relay_address.as_str().is_empty();
    let (relay_peer, relay_listen): (Option<String>, Option<String>) = if has_relay {
        let plan = relay_plan(config.relay_address.as_str());
        actions.push(Action::Dial { addr: plan.dial_addr });
        (plan.relay_peer, Some(plan.listen_addr))
    } else {
        (None, None)
    };
    let ghost rp = startup_model(config@).relay_peer;
    proof {
        assert(match relay_peer {
            Some(r) => rp == Some(r@),
            None => rp is None,
        });
    }
    let ghost base = seq![
        ActionModel::Emit { event: EventModel::Me { peer: self_peer@ } },
        ActionModel::ListenOn { addr: spec_listen_text(config@) },
    ] + (if config@.relay_address.len() > 0 {
        seq![ActionModel::Dial { addr: spec_physical(config@.relay_address) }]
    } else {
        Seq::empty()
    });
    proof {
        assert(action_views(actions@) =~= base);
    }
    let ghost entries = config.bootstrap_nodes.deep_view();
    let n = config.bootstrap_nodes.len();
    let mut i: usize = 0;
    while i < n
        invariant
            i <= n,
            n == config.bootstrap_nodes@.len(),
            entries == config.bootstrap_nodes.deep_view(),
            match relay_peer {
                Some(r) => rp == Some(r@),
                None => rp is None,
            },
            action_views(actions@) == base + seed_all(entries.subrange(0, i as int), rp),
        decreases n - i,
    {
        let ghost pre = entries.subrange(0, i as int);
        let ghost cur = entries.subrange(0, i as int + 1);
        proof {
            assert(cur.drop_last() =~= pre);
            assert(cur.last() == config.bootstrap_nodes@[i as int]@);
        }
        let entry = &config.bootstrap_nodes[i];
        let ghost rest = seed_all(pre, rp);
        match split_trailing_peer(entry.as_str()) {
            Some(parts) => {
                let ghost before = actions@;
                actions.push(
                    Action::AddRoutingAddress { peer: parts.1.clone(), addr: parts.0 },
                );
                let is_relay = match &relay_peer {
                    Some(r) => str_eq(r.as_str(), parts.1.as_str()),
                    None => false,
                };
                proof {
                    let seed = ActionModel::AddRoutingAddress {
                        peer: trailing_peer_of(cur.last()),
                        addr: peer_prefix_of(cur.last()),
                    };
                    assert(action_views(actions@) =~= action_views(before).push(seed));
                    assert(action_views(before).push(seed) =~= base + (rest + seq![seed]));
                }
                if !is_relay {
                    let ghost mid = actions@;
                    actions.push(Action::Dial { addr: entry.clone() });
                    proof {
                        let d = ActionModel::Dial { addr: cur.last() };
                        assert(action_views(actions@) =~= action_views(mid).push(d));
                        assert(seed_all(cur, rp) == rest + seq![
                            ActionModel::AddRoutingAddress {
                                peer: trailing_peer_of(cur.last()),
                                addr: peer_prefix_of(cur.last()),
                            },
                        ] + seq![d]);
                        assert(action_views(actions@) =~= base + seed_all(cur, rp));
                    }
                } else {
                    proof {
                        assert(action_views(actions@) =~= base + seed_all(cur, rp));
                    }
                }
            },
            None => {
                proof {
                    assert(seed_all(cur, rp) == rest);
                }
            },
        }
        i += 1;
    }
    proof {
        assert(entries.subrange(0, n as int) =~= entries);
    }
    let state = NodeState { tracker: LivenessTracker::new(), relay_peer, relay_listen };
    proof {
        assert(state@ =~= startup_model(config@));
    }
    (state, actions)
}

} // verus!
