use vstd::prelude::*;
use vstd::string::StringExecFns;

use crate::text::{is_prefix_of, starts_with};

verus! {

/// The in-band control prefixes of the gossip topic. `ANNOUNCE:PRESENCE`
/// announces a node that just became reachable through a relay;
/// `ANNOUNCE:REFRESH` is the periodic keep-alive; `ANNOUNCE:WELCOME` answers
/// either. Everything else is chat payload, surfaced verbatim.
#[derive(PartialEq, Eq, Structural, Debug, Clone, Copy)]
pub enum GossipClass {
    Presence,
    Refresh,
    Welcome,
    Chat,
}

/// The classification of a gossip payload, by prefix, first match winning.
pub open spec fn spec_classify(d: Seq<char>) -> GossipClass {
    if is_prefix_of("ANNOUNCE:PRESENCE"@, d) {
        GossipClass::Presence
    } else if is_prefix_of("ANNOUNCE:REFRESH"@, d) {
        GossipClass::Refresh
    } else if is_prefix_of("ANNOUNCE:WELCOME"@, d) {
        GossipClass::Welcome
    } else {
        GossipClass::Chat
    }
}

/// Sorts an inbound gossip payload into control signalling or chat.
pub fn classify_gossip(data: &str) -> (c: GossipClass)
    ensures
        c == spec_classify(data@),
{
    if starts_with(data, "ANNOUNCE:PRESENCE") {
        GossipClass::Presence
    } else if starts_with(data, "ANNOUNCE:REFRESH") {
        GossipClass::Refresh
    } else if starts_with(data, "ANNOUNCE:WELCOME") {
        GossipClass::Welcome
    } else {
        GossipClass::Chat
    }
}

/// One line of the outbound event stream, in typed form.
#[derive(Debug, Clone, PartialEq, Eq)]
pub enum NodeEvent {
    /// `ME:<peer>` — this node's own identity, announced at startup.
    Me { peer: String },
    /// `PEER+:<peer>` — a peer joined the live set.
    PeerUp { peer: String },
    /// `PEER-:<peer>` — a peer left the live set.
    PeerDown { peer: String },
    /// `MSG:<peer>:<text>` — inbound chat.
    Inbound { peer: String, text: String },
    /// `MSG_SENT:<recipient>:<text>` — local publish acknowledgment.
    Sent { recipient: String, text: String },
}

/// The mathematical shape of an event-stream line.
#[verifier::ext_equal]
pub enum EventModel {
    Me { peer: Seq<char> },
    PeerUp { peer: Seq<char> },
    PeerDown { peer: Seq<char> },
    Inbound { peer: Seq<char>, text: Seq<char> },
    Sent { recipient: Seq<char>, text: Seq<char> },
}

impl View for NodeEvent {
    type V = EventModel;

    open spec fn view(&self) -> EventModel {
        match self {
            NodeEvent::Me { peer } => EventModel::Me { peer: peer@ },
            NodeEvent::PeerUp { peer } => EventModel::PeerUp { peer: peer@ },
            NodeEvent::PeerDown { peer } => EventModel::PeerDown { peer: peer@ },
            NodeEvent::Inbound { peer, text } => EventModel::Inbound {
                peer: peer@,
                text: text@,
            },
            NodeEvent::Sent { recipient, text } => EventModel::Sent {
                recipient: recipient@,
                text: text@,
            },
        }
    }
}

/// The line that an event writes on the host-facing stream.
pub open spec fn spec_render(e: EventModel) -> Seq<char> {
    match e {
        EventModel::Me { peer } => "ME:"@ + peer,
        EventModel::PeerUp { peer } => "PEER+:"@ + peer,
        EventModel::PeerDown { peer } => "PEER-:"@ + peer,
        EventModel::Inbound { peer, text } => "MSG:"@ + peer + ":"@ + text,
        EventModel::Sent { recipient, text } => "MSG_SENT:"@ + recipient + ":"@ + text,
    }
}

/// Writes an event as the single line the host receives.
pub fn render_event(e: &NodeEvent) -> (s: String)
    ensures
        s@ == spec_render(e@),
{
    match e {
        NodeEvent::Me { peer } => String::from_str("ME:").concat(peer.as_str()),
        NodeEvent::PeerUp { peer } => String::from_str("PEER+:").concat(peer.as_str()),
        NodeEvent::PeerDown { peer } => String::from_str("PEER-:").concat(peer.as_str()),
        NodeEvent::Inbound { peer, text } => String::from_str("MSG:").concat(peer.as_str()).concat(
            ":",
        ).concat(text.as_str()),
        NodeEvent::Sent { recipient, text } => String::from_str("MSG_SENT:").concat(
            recipient.as_str(),
        ).concat(":").concat(text.as_str()),
    }
}

/// The greeting a freshly generated identity is announced with.
pub fn greeting_line(peer: &str) -> (s: String)
    ensures
        s@ == "Hi! My PeerID is: "@ + peer@,
{
    String::from_str("Hi! My PeerID is: ").concat(peer)
}

} // verus!
