use vstd::prelude::*;
use vstd::string::StringExecFns;

use crate::engine::{action_views, routing_adds, Action, ActionModel, SwarmInput};
use crate::text::{dec_rep, u16_to_dec};

verus! {

/// What the relay role decides on one network-side occurrence: it keeps the
/// gossip mesh in step with its connections and seeds its DHT from identity
/// exchanges, and otherwise only observes. It never tracks chat peers and
/// never emits host events.
pub open spec fn relay_step(inp: crate::engine::SwarmInputModel) -> Seq<ActionModel> {
    match inp {
        crate::engine::SwarmInputModel::ConnectionEstablished { peer } => seq![
            ActionModel::AddGossipPeer { peer: peer },
        ],
        crate::engine::SwarmInputModel::ConnectionClosed { peer, remaining } => seq![
            ActionModel::RemoveGossipPeer { peer: peer },
        ],
        crate::engine::SwarmInputModel::IdentifyReceived { peer, listen_addrs } => routing_adds(
            peer,
            listen_addrs,
        ),
        _ => Seq::empty(),
    }
}

/// Carries out one network-side occurrence for the relay role.
pub fn handle_relay_event(input: &SwarmInput) -> (actions: Vec<Action>)
    ensures
        action_views(actions@) == relay_step(input@),
{
    match input {
        SwarmInput::ConnectionEstablished { peer } => {
            let mut actions: Vec<Action> = Vec::new();
            actions.push(Action::AddGossipPeer { peer: peer.clone() });
            proof {
                assert(action_views(actions@) =~= relay_step(input@));
            }
            actions
        },
        SwarmInput::ConnectionClosed { peer, remaining } => {
            let mut actions: Vec<Action> = Vec::new();
            actions.push(Action::RemoveGossipPeer { peer: peer.clone() });
            proof {
                assert(action_views(actions@) =~= relay_step(input@));
            }
            actions
        },
        SwarmInput::IdentifyReceived { peer, listen_addrs } => {
            let ghost addrs = listen_addrs.deep_view();
            let mut actions: Vec<Action> = Vec::new();
            let n = listen_addrs.len();
            let mut i: usize = 0;
            while i < n
                invariant
                    i <= n,
                    n == listen_addrs@.len(),
                    addrs == listen_addrs.deep_view(),
                    action_views(actions@) == routing_adds(peer@, addrs.subrange(0, i as int)),
                decreases n - i,
            {
                let ghost before = actions@;
                actions.push(
                    Action::AddRoutingAddress {
                        peer: peer.clone(),
                        addr: listen_addrs[i].clone(),
                    },
                );
                proof {
                    let e = ActionModel::AddRoutingAddress { peer: peer@, addr: addrs[i as int] };
                    assert(actions@.last()@ == e);
                    assert(action_views(actions@) =~= action_views(before).push(e));
                    assert(action_views(before).push(e) =~= routing_adds(
                        peer@,
                        addrs.subrange(0, i as int + 1),
                    ));
                }
                i += 1;
            }
            proof {
                assert(addrs.subrange(0, n as int) =~= addrs);
            }
            actions
        },
        _ => {
            let actions: Vec<Action> = Vec::new();
            proof {
                assert(action_views(actions@) =~= relay_step(input@));
            }
            actions
        },
    }
}

/// The two listener addresses a relay binds: direct TCP and QUIC over UDP on
/// the same port.
pub fn relay_listen_addrs(port: u16) -> (r: (String, String))
    ensures
        r.0@ == "/ip4/0.0.0.0/tcp/"@ + dec_rep(port as nat),
        r.1@ == "/ip4/0.0.0.0/udp/"@ + dec_rep(port as nat) + "/quic-v1"@,
{
    let digits = u16_to_dec(port);
    let tcp = String::from_str("/ip4/0.0.0.0/tcp/").concat(digits.as_str());
    let quic = String::from_str("/ip4/0.0.0.0/udp/").concat(digits.as_str()).concat("/quic-v1");
    (tcp, quic)
}

} // verus!
