use vstd::prelude::*;
use vstd::string::StringExecFns;

use crate::events::{EventModel, NodeEvent};
use crate::text::str_eq;

verus! {

/// A host command: a recipient token and a message body. The recipient
/// `REFRESH` asks for a discovery sweep; `BROADCAST` publishes without a
/// send-acknowledgment; anything else is an opaque tag echoed back in the
/// acknowledgment.
#[derive(Debug, Clone, PartialEq, Eq)]
pub struct Command {
    pub recipient: String,
    pub body: String,
}

/// The recipient token that triggers a discovery sweep.
pub open spec fn refresh_token() -> Seq<char> {
    "REFRESH"@
}

/// The recipient token that suppresses the send-acknowledgment.
pub open spec fn broadcast_token() -> Seq<char> {
    "BROADCAST"@
}

/// Builds the command that the host-facing send entry point enqueues: the
/// recipient and body are carried through unchanged.
pub fn send_message(recipient: String, msg: String) -> (c: Command)
    ensures
        c.recipient == recipient,
        c.body == msg,
{
    Command { recipient, body: msg }
}

/// Builds the command that the host-facing refresh entry point enqueues: a
/// discovery sweep request.
pub fn refresh_node() -> (c: Command)
    ensures
        c.recipient@ == refresh_token(),
        c.body@ == refresh_token(),
{
    Command {
        recipient: String::from_str("REFRESH"),
        body: String::from_str("REFRESH"),
    }
}

/// True when the command asks for a discovery sweep.
pub open spec fn spec_is_refresh(recipient: Seq<char>) -> bool {
    recipient == refresh_token()
}

/// Decides whether a command is the discovery-sweep request.
pub fn is_refresh(c: &Command) -> (r: bool)
    ensures
        r == spec_is_refresh(c.recipient@),
{
    str_eq(c.recipient.as_str(), "REFRESH")
}

/// The acknowledgment owed for a publish attempt: one `MSG_SENT` line exactly
/// when the publish succeeded, an acknowledgment was requested, and the
/// recipient is not the broadcast token.
pub open spec fn spec_ack(ack: Option<Seq<char>>, body: Seq<char>, ok: bool) -> Option<
    EventModel,
> {
    match ack {
        Some(r) => if ok && r != broadcast_token() {
            Some(EventModel::Sent { recipient: r, text: body })
        } else {
            Option::None
        },
        None => Option::None,
    }
}

/// Turns the outcome of a publish attempt into the event owed to the host.
/// `ack` names the recipient to acknowledge to, if the command asked for one;
/// `ok` reports whether the gossip layer accepted the publish.
pub fn ack_of_publish(ack: &Option<String>, body: &String, ok: bool) -> (r: Option<NodeEvent>)
    ensures
        match r {
            Some(e) => spec_ack(
                match ack {
                    Some(a) => Some(a@),
                    None => Option::None,
                },
                body@,
                ok,
            ) == Some(e@),
            None => spec_ack(
                match ack {
                    Some(a) => Some(a@),
                    None => Option::None,
                },
                body@,
                ok,
            ) is None,
        },
{
    match ack {
        Some(recipient) => {
            if ok && !str_eq(recipient.as_str(), "BROADCAST") {
                Some(NodeEvent::Sent { recipient: recipient.clone(), text: body.clone() })
            } else {
                None
            }
        },
        None => None,
    }
}

} // verus!
