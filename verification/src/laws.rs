use vstd::prelude::*;

use crate::commands::{broadcast_token, spec_ack, spec_is_refresh};
use crate::config::{ConfigModel, LIVENESS_TIMEOUT_SECS};
use crate::engine::{
    command_step, discover_all, expire_all, routing_adds, seed_all, startup_actions,
    startup_model, swarm_step, tick_step, touch_all, ActionModel, NodeModel, SwarmInputModel,
};
use crate::events::{spec_classify, EventModel, GossipClass};
use crate::tracker::{
    distinct_keys, has_key, lemma_forget_model_keys, lemma_keep_fresh_keys,
    lemma_stale_keys_char, lemma_touch_model_keys, seen_at, stale_keys, Entry,
};
use crate::tracker::stale_at;

verus! {

/// One event-loop iteration's worth of input, seen from the loop: a host
/// command (with the peers connected at that moment and whether the publish
/// it caused was accepted), the periodic tick, or a network-side occurrence.
pub enum InputModel {
    HostCommand {
        recipient: Seq<char>,
        body: Seq<char>,
        connected: Seq<Seq<char>>,
        publish_ok: bool,
    },
    TimerTick,
    FromSwarm { input: SwarmInputModel },
}

/// The node state after one iteration.
pub open spec fn step_model(m: NodeModel, inp: InputModel, now: u64) -> NodeModel {
    match inp {
        InputModel::HostCommand { recipient, body, connected, publish_ok } => command_step(
            m,
            recipient,
            body,
            connected,
            now,
        ).0,
        InputModel::TimerTick => tick_step(m, now).0,
        InputModel::FromSwarm { input } => swarm_step(m, input, now).0,
    }
}

/// The lines an action list writes on the host-facing stream, in order.
pub open spec fn events_of(acts: Seq<ActionModel>) -> Seq<EventModel>
    decreases acts.len(),
{
    if acts.len() == 0 {
        Seq::empty()
    } else {
        let rest = events_of(acts.drop_last());
        match acts.last() {
            ActionModel::Emit { event } => rest.push(event),
            _ => rest,
        }
    }
}

/// The lines one iteration writes: what its actions emit, followed, for a
/// publishing command, by the acknowledgment its publish outcome owes.
pub open spec fn step_events(m: NodeModel, inp: InputModel, now: u64) -> Seq<EventModel> {
    match inp {
        InputModel::HostCommand { recipient, body, connected, publish_ok } => {
            let emitted = events_of(command_step(m, recipient, body, connected, now).1);
            if spec_is_refresh(recipient) {
                emitted
            } else {
                emitted + match spec_ack(Some(recipient), body, publish_ok) {
                    Some(e) => seq![e],
                    None => Seq::empty(),
                }
            }
        },
        InputModel::TimerTick => events_of(tick_step(m, now).1),
        InputModel::FromSwarm { input } => events_of(swarm_step(m, input, now).1),
    }
}

/// The node state after a whole run of iterations, each with its clock
/// reading.
pub open spec fn run_model(m0: NodeModel, inputs: Seq<(InputModel, u64)>) -> NodeModel
    decreases inputs.len(),
{
    if inputs.len() == 0 {
        m0
    } else {
        step_model(run_model(m0, inputs.drop_last()), inputs.last().0, inputs.last().1)
    }
}

/// The lines a whole run writes, in order.
pub open spec fn run_events(m0: NodeModel, inputs: Seq<(InputModel, u64)>) -> Seq<EventModel>
    decreases inputs.len(),
{
    if inputs.len() == 0 {
        Seq::empty()
    } else {
        run_events(m0, inputs.drop_last()) + step_events(
            run_model(m0, inputs.drop_last()),
            inputs.last().0,
            inputs.last().1,
        )
    }
}

// ------------------------------------------------------------------
// The PEER+ / PEER- alternation discipline.
// ------------------------------------------------------------------
/// Whether `e` may be written for `p` while `open` says a `PEER+` for `p` is
/// outstanding: a second `PEER+` is never written while one is outstanding,
/// and a `PEER-` only while one is.
pub open spec fn event_ok(open: bool, e: EventModel, p: Seq<char>) -> bool {
    match e {
        EventModel::PeerUp { peer } => peer != p || !open,
        EventModel::PeerDown { peer } => peer != p || open,
        _ => true,
    }
}

/// Whether a `PEER+` for `p` is outstanding after `e`.
pub open spec fn open_step(open: bool, e: EventModel, p: Seq<char>) -> bool {
    match e {
        EventModel::PeerUp { peer } => if peer == p {
            true
        } else {
            open
        },
        EventModel::PeerDown { peer } => if peer == p {
            false
        } else {
            open
        },
        _ => open,
    }
}

/// The `PEER+`/`PEER-` lines for `p` in `h` alternate correctly, starting
/// from outstanding-state `open`.
pub open spec fn alternates_from(h: Seq<EventModel>, p: Seq<char>, open: bool) -> bool
    decreases h.len(),
{
    h.len() == 0 || (event_ok(open, h.first(), p) && alternates_from(
        h.drop_first(),
        p,
        open_step(open, h.first(), p),
    ))
}

/// Whether a `PEER+` for `p` is outstanding after all of `h`.
pub open spec fn open_after(h: Seq<EventModel>, p: Seq<char>, open: bool) -> bool
    decreases h.len(),
{
    if h.len() == 0 {
        open
    } else {
        open_after(h.drop_first(), p, open_step(open, h.first(), p))
    }
}

/// Alternation splits over concatenation.
pub proof fn lemma_alternates_append(a: Seq<EventModel>, b: Seq<EventModel>, p: Seq<char>, open: bool)
    ensures
        alternates_from(a + b, p, open) == (alternates_from(a, p, open) && alternates_from(
            b,
            p,
            open_after(a, p, open),
        )),
        open_after(a + b, p, open) == open_after(b, p, open_after(a, p, open)),
    decreases a.len(),
{
    if a.len() == 0 {
        assert(a + b =~= b);
    } else {
        assert((a + b).first() == a.first());
        assert((a + b).drop_first() =~= a.drop_first() + b);
        lemma_alternates_append(a.drop_first(), b, p, open_step(open, a.first(), p));
    }
}

/// A run of lines that never names `p` in a peer event leaves the discipline
/// untouched.
pub proof fn lemma_alternates_no_peer_events(h: Seq<EventModel>, p: Seq<char>, open: bool)
    requires
        forall|i: int| 0 <= i < h.len() ==> !mentions_peer(#[trigger] h[i], p),
    ensures
        alternates_from(h, p, open),
        open_after(h, p, open) == open,
    decreases h.len(),
{
    if h.len() > 0 {
        assert(!mentions_peer(h[0], p));
        assert(forall|i: int|
            0 <= i < h.drop_first().len() ==> h.drop_first()[i] == h[i + 1]);
        lemma_alternates_no_peer_events(h.drop_first(), p, open_step(open, h.first(), p));
    }
}

/// True when `e` is a `PEER+` or `PEER-` line for `p`.
pub open spec fn mentions_peer(e: EventModel, p: Seq<char>) -> bool {
    match e {
        EventModel::PeerUp { peer } => peer == p,
        EventModel::PeerDown { peer } => peer == p,
        _ => false,
    }
}

// ------------------------------------------------------------------
// Basic facts about events_of.
// ------------------------------------------------------------------
/// Emission splits over concatenation.
pub proof fn lemma_events_of_append(a: Seq<ActionModel>, b: Seq<ActionModel>)
    ensures
        events_of(a + b) == events_of(a) + events_of(b),
    decreases b.len(),
{
    if b.len() == 0 {
        assert(a + b =~= a);
        assert(events_of(a) + Seq::<EventModel>::empty() =~= events_of(a));
    } else {
        assert((a + b).drop_last() =~= a + b.drop_last());
        assert((a + b).last() == b.last());
        lemma_events_of_append(a, b.drop_last());
        match b.last() {
            ActionModel::Emit { event } => {
                assert((events_of(a) + events_of(b.drop_last())).push(event) =~= events_of(a)
                    + events_of(b.drop_last()).push(event));
            },
            _ => {},
        }
    }
}

/// Actions that emit nothing write nothing.
pub proof fn lemma_events_of_no_emits(acts: Seq<ActionModel>)
    requires
        forall|i: int| 0 <= i < acts.len() ==> !(#[trigger] acts[i] is Emit),
    ensures
        events_of(acts) == Seq::<EventModel>::empty(),
    decreases acts.len(),
{
    if acts.len() > 0 {
        assert(forall|i: int|
            0 <= i < acts.drop_last().len() ==> acts.drop_last()[i] == acts[i]);
        lemma_events_of_no_emits(acts.drop_last());
        assert(!(acts.last() is Emit));
    }
}

/// One event's worth of the alternation discipline.
pub proof fn lemma_single_event(e: EventModel, p: Seq<char>, open: bool)
    ensures
        alternates_from(seq![e], p, open) == event_ok(open, e, p),
        open_after(seq![e], p, open) == open_step(open, e, p),
{
    assert(seq![e].first() == e);
    assert(seq![e].drop_first() =~= Seq::<EventModel>::empty());
    assert(alternates_from(Seq::<EventModel>::empty(), p, open_step(open, e, p)));
    assert(open_after(Seq::<EventModel>::empty(), p, open_step(open, e, p)) == open_step(
        open,
        e,
        p,
    ));
}

/// True when `e` is a line a peer may cause directly: a peer-set change or an
/// inbound chat line. `ME:` and `MSG_SENT:` lines are not of this kind.
pub open spec fn peer_or_chat(e: EventModel) -> bool {
    e is PeerUp || e is PeerDown || e is Inbound
}

/// `PEER-` lines for the listed keys, in order.
pub open spec fn downs(keys: Seq<Seq<char>>) -> Seq<EventModel> {
    keys.map_values(|k: Seq<char>| EventModel::PeerDown { peer: k })
}

/// Emitting a `PEER-` per key, for keys that never repeat and of which only
/// tracked ones may appear, respects the alternation discipline.
pub proof fn lemma_downs_alternate(keys: Seq<Seq<char>>, p: Seq<char>, open: bool)
    requires
        forall|i: int, j: int| 0 <= i < j < keys.len() ==> keys[i] != keys[j],
        keys.contains(p) ==> open,
    ensures
        alternates_from(downs(keys), p, open),
        open_after(downs(keys), p, open) == (open && !keys.contains(p)),
    decreases keys.len(),
{
    if keys.len() == 0 {
        assert(!keys.contains(p));
    } else {
        let rest = keys.drop_first();
        assert(downs(keys).first() == EventModel::PeerDown { peer: keys.first() });
        assert(downs(keys).drop_first() =~= downs(rest));
        assert(forall|i: int| 0 <= i < rest.len() ==> rest[i] == keys[i + 1]);
        assert(keys.contains(p) == (keys.first() == p || rest.contains(p))) by {
            if keys.contains(p) && keys.first() != p {
                let j = choose|j: int| 0 <= j < keys.len() && keys[j] == p;
                assert(rest[j - 1] == p);
            }
            if rest.contains(p) {
                let j = choose|j: int| 0 <= j < rest.len() && rest[j] == p;
                assert(keys[j + 1] == p);
            }
        }
        if keys.first() == p {
            assert(!rest.contains(p)) by {
                if rest.contains(p) {
                    let j = choose|j: int| 0 <= j < rest.len() && rest[j] == p;
                    assert(keys[j + 1] == keys[0]);
                }
            }
            lemma_downs_alternate(rest, p, false);
        } else {
            lemma_downs_alternate(rest, p, open);
        }
    }
}

/// The actions that emit one `PEER-` per key write exactly those lines.
pub proof fn lemma_events_of_downs(keys: Seq<Seq<char>>)
    ensures
        events_of(
            keys.map_values(
                |k: Seq<char>| ActionModel::Emit { event: EventModel::PeerDown { peer: k } },
            ),
        ) == downs(keys),
    decreases keys.len(),
{
    let acts = keys.map_values(
        |k: Seq<char>| ActionModel::Emit { event: EventModel::PeerDown { peer: k } },
    );
    if keys.len() == 0 {
        assert(events_of(acts) =~= downs(keys));
    } else {
        let head = keys.drop_last();
        assert(acts.drop_last() =~= head.map_values(
            |k: Seq<char>| ActionModel::Emit { event: EventModel::PeerDown { peer: k } },
        ));
        lemma_events_of_downs(head);
        assert(acts.last() == ActionModel::Emit {
            event: EventModel::PeerDown { peer: keys.last() },
        });
        assert(downs(head).push(EventModel::PeerDown { peer: keys.last() }) =~= downs(keys));
    }
}

/// What the refresh re-announcement does for any one key `p`: its events obey
/// the alternation discipline and its result tracks exactly the touched keys.
pub proof fn lemma_touch_all_alternation(
    peers: Seq<Entry>,
    listed: Seq<Seq<char>>,
    relay: Option<Seq<char>>,
    now: u64,
    p: Seq<char>,
)
    requires
        distinct_keys(peers),
    ensures
        distinct_keys(touch_all(peers, listed, relay, now).0),
        alternates_from(events_of(touch_all(peers, listed, relay, now).1), p, has_key(peers, p)),
        open_after(events_of(touch_all(peers, listed, relay, now).1), p, has_key(peers, p))
            == has_key(touch_all(peers, listed, relay, now).0, p),
        forall|i: int|
            0 <= i < events_of(touch_all(peers, listed, relay, now).1).len() ==> (#[trigger] events_of(
                touch_all(peers, listed, relay, now).1,
            )[i]) is PeerUp,
        (relay == Some(p) && !has_key(peers, p)) ==> (!has_key(
            touch_all(peers, listed, relay, now).0,
            p,
        ) && (forall|i: int|
            0 <= i < events_of(touch_all(peers, listed, relay, now).1).len()
                ==> !mentions_peer(
                #[trigger] events_of(touch_all(peers, listed, relay, now).1)[i],
                p,
            ))),
    decreases listed.len(),
{
    if listed.len() == 0 {
    } else {
        let head = listed.drop_last();
        let q = listed.last();
        let (p1, a1) = touch_all(peers, head, relay, now);
        lemma_touch_all_alternation(peers, head, relay, now, p);
        lemma_touch_all_alternation(peers, head, relay, now, q);
        let ev1 = events_of(a1);
        if relay == Some(q) {
        } else {
            lemma_touch_model_keys(p1, q, now, p);
            if has_key(p1, q) {
            } else {
                let e = EventModel::PeerUp { peer: q };
                let a2 = a1.push(ActionModel::Emit { event: e });
                assert(a2.drop_last() =~= a1);
                assert(events_of(a2) == ev1.push(e));
                assert(ev1.push(e) =~= ev1 + seq![e]);
                lemma_alternates_append(ev1, seq![e], p, has_key(peers, p));
                lemma_single_event(e, p, open_after(ev1, p, has_key(peers, p)));
            }
        }
    }
}

/// What one local-discovery batch does for any one key `p`.
pub proof fn lemma_discover_all_alternation(
    peers: Seq<Entry>,
    found: Seq<(Seq<char>, Seq<char>)>,
    now: u64,
    p: Seq<char>,
)
    requires
        distinct_keys(peers),
    ensures
        distinct_keys(discover_all(peers, found, now).0),
        alternates_from(events_of(discover_all(peers, found, now).1), p, has_key(peers, p)),
        open_after(events_of(discover_all(peers, found, now).1), p, has_key(peers, p))
            == has_key(discover_all(peers, found, now).0, p),
        forall|i: int|
            0 <= i < events_of(discover_all(peers, found, now).1).len() ==> (#[trigger] events_of(
                discover_all(peers, found, now).1,
            )[i]) is PeerUp,
        (!has_key(peers, p) && (forall|i: int|
            0 <= i < found.len() ==> (#[trigger] found[i]).0 != p)) ==> (!has_key(
            discover_all(peers, found, now).0,
            p,
        ) && (forall|i: int|
            0 <= i < events_of(discover_all(peers, found, now).1).len() ==> !mentions_peer(
                #[trigger] events_of(discover_all(peers, found, now).1)[i],
                p,
            ))),
    decreases found.len(),
{
    if found.len() == 0 {
    } else {
        let head = found.drop_last();
        let q = found.last().0;
        let addr = found.last().1;
        let (p1, a1) = discover_all(peers, head, now);
        assert(forall|i: int| 0 <= i < head.len() ==> #[trigger] head[i] == found[i]);
        lemma_discover_all_alternation(peers, head, now, p);
        lemma_discover_all_alternation(peers, head, now, q);
        let ev1 = events_of(a1);
        lemma_touch_model_keys(p1, q, now, p);
        if has_key(p1, q) {
        } else {
            let e = EventModel::PeerUp { peer: q };
            let added = seq![
                ActionModel::AddGossipPeer { peer: q },
                ActionModel::AddRoutingAddress { peer: q, addr: addr },
                ActionModel::Emit { event: e },
            ];
            lemma_events_of_append(a1, added);
            assert(events_of(added) =~= seq![e]) by {
                assert(added.drop_last() =~= seq![
                    ActionModel::AddGossipPeer { peer: q },
                    ActionModel::AddRoutingAddress { peer: q, addr: addr },
                ]);
                assert(added.drop_last().drop_last() =~= seq![
                    ActionModel::AddGossipPeer { peer: q },
                ]);
                assert(added.drop_last().drop_last().drop_last() =~= Seq::<ActionModel>::empty());
                lemma_events_of_no_emits(added.drop_last());
                assert(events_of(added) == events_of(added.drop_last()).push(e));
            }
            assert(events_of(discover_all(peers, found, now).1) == ev1 + seq![e]);
            lemma_alternates_append(ev1, seq![e], p, has_key(peers, p));
            lemma_single_event(e, p, open_after(ev1, p, has_key(peers, p)));
        }
    }
}

/// What one local-discovery expiry batch does for any one key `p`.
pub proof fn lemma_expire_all_alternation(
    peers: Seq<Entry>,
    expired: Seq<(Seq<char>, Seq<char>)>,
    p: Seq<char>,
)
    requires
        distinct_keys(peers),
    ensures
        distinct_keys(expire_all(peers, expired).0),
        alternates_from(events_of(expire_all(peers, expired).1), p, has_key(peers, p)),
        open_after(events_of(expire_all(peers, expired).1), p, has_key(peers, p)) == has_key(
            expire_all(peers, expired).0,
            p,
        ),
        forall|i: int|
            0 <= i < events_of(expire_all(peers, expired).1).len() ==> (#[trigger] events_of(
                expire_all(peers, expired).1,
            )[i]) is PeerDown,
        !has_key(peers, p) ==> (!has_key(expire_all(peers, expired).0, p) && (forall|i: int|
            0 <= i < events_of(expire_all(peers, expired).1).len() ==> !mentions_peer(
                #[trigger] events_of(expire_all(peers, expired).1)[i],
                p,
            ))),
    decreases expired.len(),
{
    if expired.len() == 0 {
    } else {
        let head = expired.drop_last();
        let q = expired.last().0;
        let addr = expired.last().1;
        let (p1, a1) = expire_all(peers, head);
        lemma_expire_all_alternation(peers, head, p);
        lemma_expire_all_alternation(peers, head, q);
        let ev1 = events_of(a1);
        let removal = seq![ActionModel::RemoveRoutingAddress { peer: q, addr: addr }];
        assert(events_of(removal) =~= Seq::<EventModel>::empty()) by {
            assert(removal.drop_last() =~= Seq::<ActionModel>::empty());
            assert(events_of(Seq::<ActionModel>::empty()) == Seq::<EventModel>::empty());
        }
        if has_key(p1, q) {
            lemma_forget_model_keys(p1, q, p);
            let e = EventModel::PeerDown { peer: q };
            lemma_events_of_append(a1 + removal, seq![ActionModel::Emit { event: e }]);
            lemma_events_of_append(a1, removal);
            assert(events_of(seq![ActionModel::Emit { event: e }]) =~= seq![e]) by {
                assert(seq![ActionModel::Emit { event: e }].drop_last() =~= Seq::<
                    ActionModel,
                >::empty());
                assert(events_of(Seq::<ActionModel>::empty()) == Seq::<EventModel>::empty());
            }
            assert(events_of(expire_all(peers, expired).1) == (ev1 + Seq::<EventModel>::empty())
                + seq![e]);
            assert((ev1 + Seq::<EventModel>::empty()) + seq![e] =~= ev1 + seq![e]);
            lemma_alternates_append(ev1, seq![e], p, has_key(peers, p));
            lemma_single_event(e, p, open_after(ev1, p, has_key(peers, p)));
        } else {
            lemma_events_of_append(a1, removal);
            assert(events_of(expire_all(peers, expired).1) =~= ev1);
        }
    }
}

/// One `Emit` action writes exactly its line.
pub proof fn lemma_events_of_single_emit(e: EventModel)
    ensures
        events_of(seq![ActionModel::Emit { event: e }]) == seq![e],
{
    assert(seq![ActionModel::Emit { event: e }].drop_last() =~= Seq::<ActionModel>::empty());
    assert(events_of(Seq::<ActionModel>::empty()) == Seq::<EventModel>::empty());
    assert(Seq::<EventModel>::empty().push(e) =~= seq![e]);
}

/// True when `e` is the one acknowledgment line the command `inp` may owe: a
/// `MSG_SENT` for a successful publish to a non-broadcast recipient.
pub open spec fn sent_of_command(e: EventModel, inp: InputModel) -> bool {
    match inp {
        InputModel::HostCommand { recipient, body, connected, publish_ok } => !spec_is_refresh(
            recipient,
        ) && publish_ok && recipient != broadcast_token() && e == (EventModel::Sent {
            recipient: recipient,
            text: body,
        }),
        _ => false,
    }
}

/// True when the input carries no liveness evidence attributed to `r`. A
/// relay never originates gossip traffic and is not discovered on the local
/// link, so its inputs satisfy this for the relay's own identifier.
pub open spec fn no_relay_evidence(inp: InputModel, r: Seq<char>) -> bool {
    match inp {
        InputModel::FromSwarm { input } => match input {
            SwarmInputModel::GossipMessage { source, data } => source != r,
            SwarmInputModel::MdnsDiscovered { found } => forall|i: int|
                0 <= i < found.len() ==> (#[trigger] found[i]).0 != r,
            _ => true,
        },
        _ => true,
    }
}

/// True when the input is the discovery-sweep command, the one step that may
/// re-announce peers without a preceding `PEER-`.
pub open spec fn is_refresh_input(inp: InputModel) -> bool {
    match inp {
        InputModel::HostCommand { recipient, body, connected, publish_ok } => spec_is_refresh(
            recipient,
        ),
        _ => false,
    }
}

/// What one loop iteration does to the `PEER+`/`PEER-` discipline for any one
/// key `p`, for every input but the refresh command: the emitted lines obey
/// the discipline, and afterwards a `PEER+` for `p` is outstanding exactly
/// when the tracker holds `p`. The relay identity never changes.
pub proof fn lemma_step_alternation(m: NodeModel, inp: InputModel, now: u64, p: Seq<char>)
    requires
        distinct_keys(m.peers),
        !is_refresh_input(inp),
    ensures
        distinct_keys(step_model(m, inp, now).peers),
        step_model(m, inp, now).relay_peer == m.relay_peer,
        step_model(m, inp, now).relay_listen == m.relay_listen,
        alternates_from(step_events(m, inp, now), p, has_key(m.peers, p)),
        open_after(step_events(m, inp, now), p, has_key(m.peers, p)) == has_key(
            step_model(m, inp, now).peers,
            p,
        ),
        forall|i: int|
            0 <= i < step_events(m, inp, now).len() ==> peer_or_chat(
                #[trigger] step_events(m, inp, now)[i],
            ) || sent_of_command(step_events(m, inp, now)[i], inp),
        (m.relay_peer == Some(p) && !has_key(m.peers, p) && no_relay_evidence(inp, p)) ==> (forall|
            i: int,
        |
            0 <= i < step_events(m, inp, now).len() ==> !mentions_peer(
                #[trigger] step_events(m, inp, now)[i],
                p,
            )),
{
    let h0 = has_key(m.peers, p);
    let ev = step_events(m, inp, now);
    match inp {
        InputModel::HostCommand { recipient, body, connected, publish_ok } => {
            let acts = command_step(m, recipient, body, connected, now).1;
            assert(acts == seq![ActionModel::Publish { data: body, ack: Some(recipient) }]);
            assert(events_of(acts) =~= Seq::<EventModel>::empty()) by {
                assert(acts.drop_last() =~= Seq::<ActionModel>::empty());
                assert(events_of(Seq::<ActionModel>::empty()) == Seq::<EventModel>::empty());
            }
            assert(forall|i: int| 0 <= i < ev.len() ==> !mentions_peer(#[trigger] ev[i], p));
            lemma_alternates_no_peer_events(ev, p, h0);
        },
        InputModel::TimerTick => {
            if m.relay_peer is Some {
                let stale = stale_keys(m.peers, now, LIVENESS_TIMEOUT_SECS);
                let base = seq![
                    ActionModel::QueryClosestRandom,
                    ActionModel::Publish { data: "ANNOUNCE:REFRESH"@, ack: None },
                ];
                let maps = stale.map_values(
                    |k: Seq<char>| ActionModel::Emit { event: EventModel::PeerDown { peer: k } },
                );
                lemma_events_of_append(base, maps);
                assert(events_of(base) =~= Seq::<EventModel>::empty()) by {
                    assert(base.drop_last() =~= seq![ActionModel::QueryClosestRandom]);
                    assert(seq![ActionModel::QueryClosestRandom].drop_last() =~= Seq::<
                        ActionModel,
                    >::empty());
                    assert(events_of(Seq::<ActionModel>::empty()) == Seq::<EventModel>::empty());
                    assert(events_of(seq![ActionModel::QueryClosestRandom]) == Seq::<
                        EventModel,
                    >::empty());
                }
                lemma_events_of_downs(stale);
                assert(ev =~= downs(stale));
                lemma_stale_keys_char(m.peers, now, LIVENESS_TIMEOUT_SECS, p);
                lemma_downs_alternate(stale, p, h0);
                lemma_keep_fresh_keys(m.peers, now, LIVENESS_TIMEOUT_SECS, p);
                crate::tracker::lemma_keep_fresh_is_subset(m.peers, now, LIVENESS_TIMEOUT_SECS);
            }
        },
        InputModel::FromSwarm { input } => {
            match input {
                SwarmInputModel::GossipMessage { source, data } => {
                    let newly = !has_key(m.peers, source);
                    let up: Seq<ActionModel> = if newly {
                        seq![ActionModel::Emit { event: EventModel::PeerUp { peer: source } }]
                    } else {
                        Seq::empty()
                    };
                    let rest = swarm_step(m, input, now).1.skip(up.len() as int);
                    assert(swarm_step(m, input, now).1 =~= up + swarm_step(m, input, now).1.skip(
                        up.len() as int,
                    ));
                    let acts = swarm_step(m, input, now).1;
                    lemma_touch_model_keys(m.peers, source, now, p);
                    let upev: Seq<EventModel> = if newly {
                        seq![EventModel::PeerUp { peer: source }]
                    } else {
                        Seq::empty()
                    };
                    if newly {
                        lemma_events_of_single_emit(EventModel::PeerUp { peer: source });
                    }
                    let restev: Seq<EventModel> = match spec_classify(data) {
                        GossipClass::Chat => seq![
                            EventModel::Inbound { peer: source, text: data },
                        ],
                        _ => Seq::empty(),
                    };
                    assert(events_of(acts) == upev + restev) by {
                        match spec_classify(data) {
                            GossipClass::Presence | GossipClass::Refresh => {
                                let pubact = seq![
                                    ActionModel::Publish { data: "ANNOUNCE:WELCOME"@, ack: None },
                                ];
                                assert(acts =~= up + pubact);
                                lemma_events_of_append(up, pubact);
                                assert(events_of(pubact) =~= Seq::<EventModel>::empty()) by {
                                    assert(pubact.drop_last() =~= Seq::<ActionModel>::empty());
                                    assert(events_of(Seq::<ActionModel>::empty()) == Seq::<
                                        EventModel,
                                    >::empty());
                                }
                                assert(events_of(acts) =~= upev + restev);
                            },
                            GossipClass::Welcome => {
                                assert(acts =~= up + Seq::<ActionModel>::empty());
                                assert(acts =~= up);
                                assert(events_of(acts) =~= upev + restev);
                            },
                            GossipClass::Chat => {
                                let inb = seq![
                                    ActionModel::Emit {
                                        event: EventModel::Inbound { peer: source, text: data },
                                    },
                                ];
                                assert(acts =~= up + inb);
                                lemma_events_of_append(up, inb);
                                lemma_events_of_single_emit(
                                    EventModel::Inbound { peer: source, text: data },
                                );
                                assert(events_of(acts) =~= upev + restev);
                            },
                        }
                    }
                    lemma_alternates_append(upev, restev, p, h0);
                    if newly {
                        lemma_single_event(EventModel::PeerUp { peer: source }, p, h0);
                    }
                    lemma_alternates_no_peer_events(restev, p, open_after(upev, p, h0));
                },
                SwarmInputModel::MdnsDiscovered { found } => {
                    lemma_discover_all_alternation(m.peers, found, now, p);
                },
                SwarmInputModel::MdnsExpired { expired } => {
                    lemma_expire_all_alternation(m.peers, expired, p);
                },
                SwarmInputModel::RoutingUpdated { peer } => {
                    let mesh = seq![ActionModel::AddGossipPeer { peer: peer }];
                    assert(events_of(mesh) =~= Seq::<EventModel>::empty()) by {
                        assert(mesh.drop_last() =~= Seq::<ActionModel>::empty());
                        assert(events_of(Seq::<ActionModel>::empty()) == Seq::<
                            EventModel,
                        >::empty());
                    }
                    if m.relay_peer == Some(peer) {
                        lemma_alternates_no_peer_events(ev, p, h0);
                    } else {
                        lemma_touch_model_keys(m.peers, peer, now, p);
                        if !has_key(m.peers, peer) {
                            let e = EventModel::PeerUp { peer: peer };
                            let acts = mesh + seq![ActionModel::Emit { event: e }];
                            lemma_events_of_append(mesh, seq![ActionModel::Emit { event: e }]);
                            lemma_events_of_single_emit(e);
                            assert(ev =~= seq![e]);
                            lemma_single_event(e, p, h0);
                        } else {
                            lemma_alternates_no_peer_events(ev, p, h0);
                        }
                    }
                },
                SwarmInputModel::ConnectionEstablished { peer } => {
                    let mesh = seq![ActionModel::AddGossipPeer { peer: peer }];
                    if m.relay_peer == Some(peer) {
                        assert(forall|i: int|
                            0 <= i < swarm_step(m, input, now).1.len() ==> !(
                            #[trigger] swarm_step(m, input, now).1[i] is Emit));
                        lemma_events_of_no_emits(swarm_step(m, input, now).1);
                        lemma_alternates_no_peer_events(ev, p, h0);
                    } else {
                        assert(events_of(mesh) =~= Seq::<EventModel>::empty()) by {
                            assert(mesh.drop_last() =~= Seq::<ActionModel>::empty());
                            assert(events_of(Seq::<ActionModel>::empty()) == Seq::<
                                EventModel,
                            >::empty());
                        }
                        lemma_touch_model_keys(m.peers, peer, now, p);
                        if !has_key(m.peers, peer) {
                            let e = EventModel::PeerUp { peer: peer };
                            lemma_events_of_append(mesh, seq![ActionModel::Emit { event: e }]);
                            lemma_events_of_single_emit(e);
                            assert(ev =~= seq![e]);
                            lemma_single_event(e, p, h0);
                        } else {
                            lemma_alternates_no_peer_events(ev, p, h0);
                        }
                    }
                },
                SwarmInputModel::ConnectionClosed { peer, remaining } => {
                    if remaining == 0 {
                        lemma_forget_model_keys(m.peers, peer, p);
                        let tail = seq![ActionModel::RemoveGossipPeer { peer: peer }];
                        assert(events_of(tail) =~= Seq::<EventModel>::empty()) by {
                            assert(tail.drop_last() =~= Seq::<ActionModel>::empty());
                            assert(events_of(Seq::<ActionModel>::empty()) == Seq::<
                                EventModel,
                            >::empty());
                        }
                        if has_key(m.peers, peer) {
                            let e = EventModel::PeerDown { peer: peer };
                            let down = seq![ActionModel::Emit { event: e }];
                            lemma_events_of_append(down, tail);
                            lemma_events_of_single_emit(e);
                            assert(ev =~= seq![e]);
                            lemma_single_event(e, p, h0);
                        } else {
                            lemma_events_of_append(Seq::empty(), tail);
                            assert(Seq::<ActionModel>::empty() + tail =~= tail);
                            assert(ev =~= Seq::<EventModel>::empty());
                            lemma_alternates_no_peer_events(ev, p, h0);
                        }
                    }
                },
                SwarmInputModel::IdentifyReceived { peer, listen_addrs } => {
                    assert(forall|i: int|
                        0 <= i < routing_adds(peer, listen_addrs).len() ==> !(
                        #[trigger] routing_adds(peer, listen_addrs)[i] is Emit));
                    lemma_events_of_no_emits(routing_adds(peer, listen_addrs));
                    lemma_alternates_no_peer_events(ev, p, h0);
                },
                SwarmInputModel::ReservationAccepted => {
                    let acts = seq![ActionModel::ScheduleDelayedPresence];
                    assert(events_of(acts) =~= Seq::<EventModel>::empty()) by {
                        assert(acts.drop_last() =~= Seq::<ActionModel>::empty());
                        assert(events_of(Seq::<ActionModel>::empty()) == Seq::<
                            EventModel,
                        >::empty());
                    }
                    lemma_alternates_no_peer_events(ev, p, h0);
                },
                SwarmInputModel::Other => {
                },
            }
        },
    }
}

/// What the refresh command does: the tracker is rebuilt from the currently
/// connected peers alone, the relay identity is untouched, and every line it
/// writes is a `PEER+`; the relay, when known, is never among them.
pub proof fn lemma_refresh_step(m: NodeModel, inp: InputModel, now: u64, p: Seq<char>)
    requires
        is_refresh_input(inp),
    ensures
        step_model(m, inp, now).relay_peer == m.relay_peer,
        step_model(m, inp, now).relay_listen == m.relay_listen,
        distinct_keys(step_model(m, inp, now).peers),
        forall|i: int|
            0 <= i < step_events(m, inp, now).len() ==> (#[trigger] step_events(m, inp, now)[i])
                is PeerUp,
        m.relay_peer == Some(p) ==> (!has_key(step_model(m, inp, now).peers, p) && (forall|i: int|
            0 <= i < step_events(m, inp, now).len() ==> !mentions_peer(
                #[trigger] step_events(m, inp, now)[i],
                p,
            ))),
{
    match inp {
        InputModel::HostCommand { recipient, body, connected, publish_ok } => {
            let base = seq![
                ActionModel::Bootstrap,
                ActionModel::QueryClosestRandom,
                ActionModel::Publish { data: "ANNOUNCE:REFRESH"@, ack: None },
            ];
            let emits = touch_all(Seq::empty(), connected, m.relay_peer, now).1;
            assert(command_step(m, recipient, body, connected, now).1 == base + emits);
            lemma_events_of_append(base, emits);
            assert(events_of(base) =~= Seq::<EventModel>::empty()) by {
                assert(base.drop_last() =~= seq![
                    ActionModel::Bootstrap,
                    ActionModel::QueryClosestRandom,
                ]);
                assert(seq![ActionModel::Bootstrap, ActionModel::QueryClosestRandom].drop_last()
                    =~= seq![ActionModel::Bootstrap]);
                assert(seq![ActionModel::Bootstrap].drop_last() =~= Seq::<ActionModel>::empty());
                assert(events_of(Seq::<ActionModel>::empty()) == Seq::<EventModel>::empty());
                assert(events_of(seq![ActionModel::Bootstrap]) == Seq::<EventModel>::empty());
                assert(events_of(seq![ActionModel::Bootstrap, ActionModel::QueryClosestRandom])
                    == Seq::<EventModel>::empty());
            }
            assert(step_events(m, inp, now) =~= events_of(emits));
            lemma_touch_all_alternation(Seq::empty(), connected, m.relay_peer, now, p);
        },
        _ => {},
    }
}

/// Every step keeps the tracker free of duplicate keys and the relay
/// identity unchanged.
pub proof fn lemma_step_distinct(m: NodeModel, inp: InputModel, now: u64)
    requires
        distinct_keys(m.peers),
    ensures
        distinct_keys(step_model(m, inp, now).peers),
        step_model(m, inp, now).relay_peer == m.relay_peer,
        step_model(m, inp, now).relay_listen == m.relay_listen,
{
    if is_refresh_input(inp) {
        lemma_refresh_step(m, inp, now, Seq::empty());
    } else {
        lemma_step_alternation(m, inp, now, Seq::empty());
    }
}

/// No step ever writes a `ME:` line.
pub proof fn lemma_step_no_me(m: NodeModel, inp: InputModel, now: u64)
    requires
        distinct_keys(m.peers),
    ensures
        forall|i: int|
            0 <= i < step_events(m, inp, now).len() ==> !((#[trigger] step_events(m, inp, now)[i])
                is Me),
{
    if is_refresh_input(inp) {
        lemma_refresh_step(m, inp, now, Seq::empty());
    } else {
        lemma_step_alternation(m, inp, now, Seq::empty());
    }
}

/// Over any run: the tracker stays duplicate-free, the relay identity stays
/// what startup decided, and no `ME:` line is ever written.
pub proof fn lemma_run_invariants(m0: NodeModel, inputs: Seq<(InputModel, u64)>)
    requires
        distinct_keys(m0.peers),
    ensures
        distinct_keys(run_model(m0, inputs).peers),
        run_model(m0, inputs).relay_peer == m0.relay_peer,
        run_model(m0, inputs).relay_listen == m0.relay_listen,
        forall|i: int|
            0 <= i < run_events(m0, inputs).len() ==> !((#[trigger] run_events(m0, inputs)[i])
                is Me),
    decreases inputs.len(),
{
    if inputs.len() > 0 {
        let head = inputs.drop_last();
        lemma_run_invariants(m0, head);
        let mh = run_model(m0, head);
        lemma_step_distinct(mh, inputs.last().0, inputs.last().1);
        lemma_step_no_me(mh, inputs.last().0, inputs.last().1);
        let a = run_events(m0, head);
        let b = step_events(mh, inputs.last().0, inputs.last().1);
        assert(run_events(m0, inputs) == a + b);
        assert(forall|i: int|
            0 <= i < (a + b).len() ==> (a + b)[i] == (if i < a.len() {
                a[i]
            } else {
                b[i - a.len()]
            }));
    }
}

/// The alternation discipline holds over any run without a refresh command,
/// and afterwards a `PEER+` for `p` is outstanding exactly when the tracker
/// holds `p`.
pub proof fn lemma_run_alternation(m0: NodeModel, inputs: Seq<(InputModel, u64)>, p: Seq<char>)
    requires
        distinct_keys(m0.peers),
        forall|i: int| 0 <= i < inputs.len() ==> !is_refresh_input((#[trigger] inputs[i]).0),
    ensures
        distinct_keys(run_model(m0, inputs).peers),
        alternates_from(run_events(m0, inputs), p, has_key(m0.peers, p)),
        open_after(run_events(m0, inputs), p, has_key(m0.peers, p)) == has_key(
            run_model(m0, inputs).peers,
            p,
        ),
    decreases inputs.len(),
{
    if inputs.len() > 0 {
        let head = inputs.drop_last();
        assert(forall|i: int| 0 <= i < head.len() ==> #[trigger] head[i] == inputs[i]);
        lemma_run_alternation(m0, head, p);
        let mh = run_model(m0, head);
        lemma_step_alternation(mh, inputs.last().0, inputs.last().1, p);
        lemma_alternates_append(
            run_events(m0, head),
            step_events(mh, inputs.last().0, inputs.last().1),
            p,
            has_key(m0.peers, p),
        );
    }
}

/// Over any run whose inputs never attribute evidence to the relay `r`, the
/// tracker never holds `r` and no peer event ever names `r`. Refresh
/// commands are allowed: they skip the relay by construction.
pub proof fn lemma_run_relay_hidden(m0: NodeModel, inputs: Seq<(InputModel, u64)>, r: Seq<char>)
    requires
        distinct_keys(m0.peers),
        m0.relay_peer == Some(r),
        !has_key(m0.peers, r),
        forall|i: int|
            0 <= i < inputs.len() ==> no_relay_evidence((#[trigger] inputs[i]).0, r),
    ensures
        !has_key(run_model(m0, inputs).peers, r),
        forall|i: int|
            0 <= i < run_events(m0, inputs).len() ==> !mentions_peer(
                #[trigger] run_events(m0, inputs)[i],
                r,
            ),
    decreases inputs.len(),
{
    if inputs.len() > 0 {
        let head = inputs.drop_last();
        assert(forall|i: int| 0 <= i < head.len() ==> #[trigger] head[i] == inputs[i]);
        lemma_run_relay_hidden(m0, head, r);
        lemma_run_invariants(m0, head);
        let mh = run_model(m0, head);
        let inp = inputs.last().0;
        let now = inputs.last().1;
        let b = step_events(mh, inp, now);
        if is_refresh_input(inp) {
            lemma_refresh_step(mh, inp, now, r);
        } else {
            lemma_step_alternation(mh, inp, now, r);
            assert(forall|i: int| 0 <= i < b.len() ==> !mentions_peer(#[trigger] b[i], r));
            lemma_alternates_no_peer_events(b, r, has_key(mh.peers, r));
        }
        let a = run_events(m0, head);
        assert(run_events(m0, inputs) == a + b);
        assert(forall|i: int|
            0 <= i < (a + b).len() ==> (a + b)[i] == (if i < a.len() {
                a[i]
            } else {
                b[i - a.len()]
            }));
    }
}

/// Startup actions never emit.
proof fn lemma_seed_all_no_emits(entries: Seq<Seq<char>>, relay: Option<Seq<char>>)
    ensures
        forall|i: int|
            0 <= i < seed_all(entries, relay).len() ==> !((#[trigger] seed_all(entries, relay)[i])
                is Emit),
    decreases entries.len(),
{
    if entries.len() > 0 {
        lemma_seed_all_no_emits(entries.drop_last(), relay);
    }
}

/// Startup writes exactly one line: this node's own identity.
pub proof fn lemma_startup_events(cfg: ConfigModel, self_peer: Seq<char>)
    ensures
        events_of(startup_actions(cfg, self_peer)) == seq![EventModel::Me { peer: self_peer }],
{
    let me = EventModel::Me { peer: self_peer };
    let base = seq![
        ActionModel::Emit { event: me },
        ActionModel::ListenOn { addr: crate::engine::spec_listen_text(cfg) },
    ];
    let dial: Seq<ActionModel> = if cfg.relay_address.len() > 0 {
        seq![ActionModel::Dial { addr: crate::multiaddr::spec_physical(cfg.relay_address) }]
    } else {
        Seq::empty()
    };
    let seeds = seed_all(cfg.bootstrap_nodes, startup_model(cfg).relay_peer);
    assert(startup_actions(cfg, self_peer) == (base + dial) + seeds);
    lemma_events_of_append(base + dial, seeds);
    lemma_events_of_append(base, dial);
    lemma_seed_all_no_emits(cfg.bootstrap_nodes, startup_model(cfg).relay_peer);
    lemma_events_of_no_emits(seeds);
    lemma_events_of_no_emits(dial);
    assert(events_of(base) =~= seq![me]) by {
        assert(base.drop_last() =~= seq![ActionModel::Emit { event: me }]);
        lemma_events_of_single_emit(me);
    }
    assert(events_of(startup_actions(cfg, self_peer)) =~= seq![me]);
}

/// The whole stream of lines a node lifetime writes: what startup emits,
/// then what a run of loop iterations emits.
pub open spec fn lifetime_events(
    cfg: ConfigModel,
    self_peer: Seq<char>,
    inputs: Seq<(InputModel, u64)>,
) -> Seq<EventModel> {
    events_of(startup_actions(cfg, self_peer)) + run_events(startup_model(cfg), inputs)
}

/// For every `PEER+:p` there is no preceding unmatched `PEER+:p`: over a
/// node lifetime whose inputs include no refresh command, the `PEER+`/`PEER-`
/// lines for any one peer form a well-formed alternation starting with
/// `PEER+`. (A refresh command re-announces still-connected peers without a
/// preceding `PEER-`, so lifetimes containing one are exempted.)
pub proof fn lemma_peer_alternation(
    cfg: ConfigModel,
    self_peer: Seq<char>,
    inputs: Seq<(InputModel, u64)>,
    p: Seq<char>,
)
    requires
        forall|i: int| 0 <= i < inputs.len() ==> !is_refresh_input((#[trigger] inputs[i]).0),
    ensures
        alternates_from(lifetime_events(cfg, self_peer, inputs), p, false),
{
    let me = EventModel::Me { peer: self_peer };
    lemma_startup_events(cfg, self_peer);
    assert(!has_key(startup_model(cfg).peers, p));
    lemma_run_alternation(startup_model(cfg), inputs, p);
    lemma_alternates_append(seq![me], run_events(startup_model(cfg), inputs), p, false);
    lemma_single_event(me, p, false);
}

/// `ME:` is the first line emitted and is emitted exactly once per node
/// lifetime.
pub proof fn lemma_me_first_and_once(
    cfg: ConfigModel,
    self_peer: Seq<char>,
    inputs: Seq<(InputModel, u64)>,
)
    ensures
        lifetime_events(cfg, self_peer, inputs).len() >= 1,
        lifetime_events(cfg, self_peer, inputs)[0] == (EventModel::Me { peer: self_peer }),
        forall|i: int|
            1 <= i < lifetime_events(cfg, self_peer, inputs).len() ==> !((
            #[trigger] lifetime_events(cfg, self_peer, inputs)[i]) is Me),
{
    let me = EventModel::Me { peer: self_peer };
    lemma_startup_events(cfg, self_peer);
    lemma_run_invariants(startup_model(cfg), inputs);
    let a = seq![me];
    let b = run_events(startup_model(cfg), inputs);
    assert(lifetime_events(cfg, self_peer, inputs) == a + b);
    assert((a + b)[0] == me);
    assert(forall|i: int| 1 <= i < (a + b).len() ==> (a + b)[i] == b[i - 1]);
}

/// The relay's peer identifier, when known, never appears in any `PEER+` or
/// `PEER-` line, provided no input attributes gossip or local-discovery
/// evidence to the relay itself — the relay originates no chat traffic.
pub proof fn lemma_relay_never_in_peer_events(
    cfg: ConfigModel,
    self_peer: Seq<char>,
    inputs: Seq<(InputModel, u64)>,
    r: Seq<char>,
)
    requires
        startup_model(cfg).relay_peer == Some(r),
        forall|i: int|
            0 <= i < inputs.len() ==> no_relay_evidence((#[trigger] inputs[i]).0, r),
    ensures
        forall|i: int|
            0 <= i < lifetime_events(cfg, self_peer, inputs).len() ==> !mentions_peer(
                #[trigger] lifetime_events(cfg, self_peer, inputs)[i],
                r,
            ),
{
    let me = EventModel::Me { peer: self_peer };
    lemma_startup_events(cfg, self_peer);
    lemma_run_relay_hidden(startup_model(cfg), inputs, r);
    let a = seq![me];
    let b = run_events(startup_model(cfg), inputs);
    assert(lifetime_events(cfg, self_peer, inputs) == a + b);
    assert(forall|i: int|
        0 <= i < (a + b).len() ==> (a + b)[i] == (if i < a.len() {
            a[i]
        } else {
            b[i - a.len()]
        }));
}

/// A `MSG_SENT:r:b` line is written by a step exactly when that step is a
/// host command to recipient `r` with body `b` whose publish succeeded, `r`
/// being neither the broadcast nor the refresh token. In particular no
/// `MSG_SENT` is ever written for the broadcast recipient, and none without
/// a successful publish of that very body.
pub proof fn lemma_sent_exactly_on_publish(
    m: NodeModel,
    inp: InputModel,
    now: u64,
    r: Seq<char>,
    b: Seq<char>,
)
    requires
        distinct_keys(m.peers),
    ensures
        step_events(m, inp, now).contains(EventModel::Sent { recipient: r, text: b })
            <==> acknowledged_publish(inp, r, b),
{
    let sent = EventModel::Sent { recipient: r, text: b };
    let ev = step_events(m, inp, now);
    if is_refresh_input(inp) {
        lemma_refresh_step(m, inp, now, r);
        if ev.contains(sent) {
            let i = choose|i: int| 0 <= i < ev.len() && ev[i] == sent;
            assert(ev[i] is PeerUp);
        }
    } else {
        lemma_step_alternation(m, inp, now, r);
        if ev.contains(sent) {
            let i = choose|i: int| 0 <= i < ev.len() && ev[i] == sent;
            assert(peer_or_chat(ev[i]) || sent_of_command(ev[i], inp));
        }
        match inp {
            InputModel::HostCommand { recipient, body, connected, publish_ok } => {
                if recipient == r && body == b && publish_ok && r != broadcast_token() {
                    let acts = command_step(m, recipient, body, connected, now).1;
                    assert(events_of(acts) =~= Seq::<EventModel>::empty()) by {
                        assert(acts.drop_last() =~= Seq::<ActionModel>::empty());
                        assert(events_of(Seq::<ActionModel>::empty()) == Seq::<
                            EventModel,
                        >::empty());
                    }
                    assert(ev =~= seq![sent]);
                    assert(ev[0] == sent);
                }
            },
            _ => {},
        }
    }
}

/// True when `inp` is a host command to `r` with body `b` whose publish the
/// gossip layer accepted, `r` being neither the broadcast nor the refresh
/// token: the one circumstance that owes a `MSG_SENT:r:b` line.
pub open spec fn acknowledged_publish(inp: InputModel, r: Seq<char>, b: Seq<char>) -> bool {
    match inp {
        InputModel::HostCommand { recipient, body, connected, publish_ok } => recipient == r
            && body == b && publish_ok && !spec_is_refresh(r) && r != broadcast_token(),
        _ => false,
    }
}

/// Over a whole run: a `MSG_SENT:r:b` line appears only if some iteration
/// was a host command to `r` with body `b` whose publish succeeded.
pub proof fn lemma_run_sent_backed_by_publish(
    m0: NodeModel,
    inputs: Seq<(InputModel, u64)>,
    r: Seq<char>,
    b: Seq<char>,
)
    requires
        distinct_keys(m0.peers),
    ensures
        run_events(m0, inputs).contains(EventModel::Sent { recipient: r, text: b }) ==> exists|
            i: int,
        | 0 <= i < inputs.len() && acknowledged_publish((#[trigger] inputs[i]).0, r, b),
    decreases inputs.len(),
{
    let sent = EventModel::Sent { recipient: r, text: b };
    if inputs.len() > 0 {
        let head = inputs.drop_last();
        lemma_run_sent_backed_by_publish(m0, head, r, b);
        lemma_run_invariants(m0, head);
        let mh = run_model(m0, head);
        lemma_sent_exactly_on_publish(mh, inputs.last().0, inputs.last().1, r, b);
        let a = run_events(m0, head);
        let be = step_events(mh, inputs.last().0, inputs.last().1);
        assert(run_events(m0, inputs) == a + be);
        assert(forall|i: int| 0 <= i < head.len() ==> #[trigger] head[i] == inputs[i]);
        if run_events(m0, inputs).contains(sent) {
            let j = choose|j: int|
                0 <= j < (a + be).len() && (a + be)[j] == sent;
            if j < a.len() {
                assert(a[j] == sent);
                assert(a.contains(sent));
                let i = choose|i: int|
                    0 <= i < head.len() && acknowledged_publish((#[trigger] head[i]).0, r, b);
                assert(acknowledged_publish(inputs[i].0, r, b));
            } else {
                assert(be[j - a.len()] == sent);
                assert(be.contains(sent));
                assert(acknowledged_publish(inputs[inputs.len() - 1].0, r, b));
            }
        }
    }
}

/// A gossip message whose payload is chat (it matches no `ANNOUNCE:` control
/// prefix) is surfaced verbatim to the host as `MSG:<source>:<payload>`.
pub proof fn lemma_chat_surfaced(m: NodeModel, source: Seq<char>, data: Seq<char>, now: u64)
    requires
        distinct_keys(m.peers),
        spec_classify(data) == GossipClass::Chat,
    ensures
        step_events(
            m,
            InputModel::FromSwarm {
                input: SwarmInputModel::GossipMessage { source: source, data: data },
            },
            now,
        ).contains(EventModel::Inbound { peer: source, text: data }),
{
    let inp = InputModel::FromSwarm {
        input: SwarmInputModel::GossipMessage { source: source, data: data },
    };
    let ev = step_events(m, inp, now);
    let input = SwarmInputModel::GossipMessage { source: source, data: data };
    let newly = !has_key(m.peers, source);
    let up: Seq<ActionModel> = if newly {
        seq![ActionModel::Emit { event: EventModel::PeerUp { peer: source } }]
    } else {
        Seq::empty()
    };
    let inb = seq![
        ActionModel::Emit { event: EventModel::Inbound { peer: source, text: data } },
    ];
    let acts = swarm_step(m, input, now).1;
    assert(acts =~= up + inb);
    lemma_events_of_append(up, inb);
    lemma_events_of_single_emit(EventModel::Inbound { peer: source, text: data });
    if newly {
        lemma_events_of_single_emit(EventModel::PeerUp { peer: source });
    }
    assert(ev.last() == (EventModel::Inbound { peer: source, text: data }));
}

/// A gossip message that matches an `ANNOUNCE:` control prefix is never
/// surfaced as a `MSG:` line: control traffic stays inside the overlay.
pub proof fn lemma_control_suppressed(m: NodeModel, source: Seq<char>, data: Seq<char>, now: u64)
    requires
        distinct_keys(m.peers),
        spec_classify(data) != GossipClass::Chat,
    ensures
        forall|i: int|
            0 <= i < step_events(
                m,
                InputModel::FromSwarm {
                    input: SwarmInputModel::GossipMessage { source: source, data: data },
                },
                now,
            ).len() ==> !((#[trigger] step_events(
                m,
                InputModel::FromSwarm {
                    input: SwarmInputModel::GossipMessage { source: source, data: data },
                },
                now,
            )[i]) is Inbound),
{
    let input = SwarmInputModel::GossipMessage { source: source, data: data };
    let newly = !has_key(m.peers, source);
    let up: Seq<ActionModel> = if newly {
        seq![ActionModel::Emit { event: EventModel::PeerUp { peer: source } }]
    } else {
        Seq::empty()
    };
    let acts = swarm_step(m, input, now).1;
    match spec_classify(data) {
        GossipClass::Presence | GossipClass::Refresh => {
            let pubact = seq![ActionModel::Publish { data: "ANNOUNCE:WELCOME"@, ack: None }];
            assert(acts =~= up + pubact);
            lemma_events_of_append(up, pubact);
            assert(events_of(pubact) =~= Seq::<EventModel>::empty()) by {
                assert(pubact.drop_last() =~= Seq::<ActionModel>::empty());
                assert(events_of(Seq::<ActionModel>::empty()) == Seq::<EventModel>::empty());
            }
            if newly {
                lemma_events_of_single_emit(EventModel::PeerUp { peer: source });
            }
        },
        GossipClass::Welcome => {
            assert(acts =~= up);
            if newly {
                lemma_events_of_single_emit(EventModel::PeerUp { peer: source });
            }
        },
        GossipClass::Chat => {},
    }
}

/// True when the input carries liveness evidence for `p`: a gossip message
/// from `p`, a local-link discovery of `p`, a DHT routing update for `p`, a
/// connection to `p`, or a refresh while `p` is connected.
pub open spec fn evidence_for(inp: InputModel, p: Seq<char>) -> bool {
    match inp {
        InputModel::HostCommand { recipient, body, connected, publish_ok } => spec_is_refresh(
            recipient,
        ) && connected.contains(p),
        InputModel::TimerTick => false,
        InputModel::FromSwarm { input } => match input {
            SwarmInputModel::GossipMessage { source, data } => source == p,
            SwarmInputModel::MdnsDiscovered { found } => exists|i: int|
                0 <= i < found.len() && (#[trigger] found[i]).0 == p,
            SwarmInputModel::RoutingUpdated { peer } => peer == p,
            SwarmInputModel::ConnectionEstablished { peer } => peer == p,
            _ => false,
        },
    }
}

/// A refresh rebuilds the tracker from the connected list alone: every
/// record it leaves for `p` is stamped `now` and backed by `p` being
/// connected.
proof fn lemma_touch_all_evidence(
    peers: Seq<Entry>,
    listed: Seq<Seq<char>>,
    relay: Option<Seq<char>>,
    now: u64,
    p: Seq<char>,
)
    requires
        distinct_keys(peers),
    ensures
        has_key(touch_all(peers, listed, relay, now).0, p) ==> ((has_key(peers, p) && seen_at(
            touch_all(peers, listed, relay, now).0,
            p,
        ) == seen_at(peers, p)) || (seen_at(touch_all(peers, listed, relay, now).0, p) == now
            && listed.contains(p) && relay != Some(p))),
    decreases listed.len(),
{
    if listed.len() > 0 {
        let head = listed.drop_last();
        let q = listed.last();
        let (p1, a1) = touch_all(peers, head, relay, now);
        lemma_touch_all_alternation(peers, head, relay, now, p);
        lemma_touch_all_evidence(peers, head, relay, now, p);
        assert(forall|i: int| 0 <= i < head.len() ==> #[trigger] head[i] == listed[i]);
        assert(head.contains(p) ==> listed.contains(p)) by {
            if head.contains(p) {
                let i = choose|i: int| 0 <= i < head.len() && head[i] == p;
                assert(listed[i] == p);
            }
        }
        if relay == Some(q) {
        } else {
            lemma_touch_model_keys(p1, q, now, p);
            if p == q {
                assert(listed[listed.len() - 1] == p);
                assert(listed.contains(p));
            }
        }
    }
}

/// Every record a local-discovery batch leaves for `p` is either carried
/// over unchanged or stamped `now` with `p` among the found peers.
proof fn lemma_discover_all_evidence(
    peers: Seq<Entry>,
    found: Seq<(Seq<char>, Seq<char>)>,
    now: u64,
    p: Seq<char>,
)
    requires
        distinct_keys(peers),
    ensures
        has_key(discover_all(peers, found, now).0, p) ==> ((has_key(peers, p) && seen_at(
            discover_all(peers, found, now).0,
            p,
        ) == seen_at(peers, p)) || (seen_at(discover_all(peers, found, now).0, p) == now && (
        exists|i: int| 0 <= i < found.len() && (#[trigger] found[i]).0 == p))),
    decreases found.len(),
{
    if found.len() > 0 {
        let head = found.drop_last();
        let q = found.last().0;
        let (p1, a1) = discover_all(peers, head, now);
        lemma_discover_all_alternation(peers, head, now, p);
        lemma_discover_all_evidence(peers, head, now, p);
        assert(forall|i: int| 0 <= i < head.len() ==> #[trigger] head[i] == found[i]);
        lemma_touch_model_keys(p1, q, now, p);
        if p == q {
            assert(found[found.len() - 1].0 == p);
        }
    }
}

/// An expiry batch never refreshes a record: whatever it leaves for `p` was
/// already there, with the same timestamp.
proof fn lemma_expire_all_evidence(peers: Seq<Entry>, expired: Seq<(Seq<char>, Seq<char>)>, p: Seq<char>)
    requires
        distinct_keys(peers),
    ensures
        has_key(expire_all(peers, expired).0, p) ==> (has_key(peers, p) && seen_at(
            expire_all(peers, expired).0,
            p,
        ) == seen_at(peers, p)),
    decreases expired.len(),
{
    if expired.len() > 0 {
        let head = expired.drop_last();
        let q = expired.last().0;
        let (p1, a1) = expire_all(peers, head);
        lemma_expire_all_alternation(peers, head, p);
        lemma_expire_all_evidence(peers, head, p);
        lemma_forget_model_keys(p1, q, p);
    }
}

/// Liveness evidence (invariant of the tracker): after any one step, a
/// tracked peer either was already tracked with the same last-seen reading,
/// or its reading is this step's clock and the step's input carried evidence
/// for it. Nothing enters the tracker without observed evidence.
pub proof fn lemma_step_evidence(m: NodeModel, inp: InputModel, now: u64, p: Seq<char>)
    requires
        distinct_keys(m.peers),
    ensures
        has_key(step_model(m, inp, now).peers, p) ==> ((has_key(m.peers, p) && seen_at(
            step_model(m, inp, now).peers,
            p,
        ) == seen_at(m.peers, p)) || (seen_at(step_model(m, inp, now).peers, p) == now
            && evidence_for(inp, p))),
{
    match inp {
        InputModel::HostCommand { recipient, body, connected, publish_ok } => {
            if spec_is_refresh(recipient) {
                lemma_touch_all_evidence(Seq::empty(), connected, m.relay_peer, now, p);
                if has_key(step_model(m, inp, now).peers, p) {
                    assert(!has_key(Seq::<Entry>::empty(), p));
                }
            }
        },
        InputModel::TimerTick => {
            if m.relay_peer is Some {
                lemma_keep_fresh_keys(m.peers, now, LIVENESS_TIMEOUT_SECS, p);
            }
        },
        InputModel::FromSwarm { input } => {
            match input {
                SwarmInputModel::GossipMessage { source, data } => {
                    lemma_touch_model_keys(m.peers, source, now, p);
                },
                SwarmInputModel::MdnsDiscovered { found } => {
                    lemma_discover_all_evidence(m.peers, found, now, p);
                },
                SwarmInputModel::MdnsExpired { expired } => {
                    lemma_expire_all_evidence(m.peers, expired, p);
                },
                SwarmInputModel::RoutingUpdated { peer } => {
                    if m.relay_peer != Some(peer) {
                        lemma_touch_model_keys(m.peers, peer, now, p);
                    }
                },
                SwarmInputModel::ConnectionEstablished { peer } => {
                    if m.relay_peer != Some(peer) {
                        lemma_touch_model_keys(m.peers, peer, now, p);
                    }
                },
                SwarmInputModel::ConnectionClosed { peer, remaining } => {
                    if remaining == 0 {
                        lemma_forget_model_keys(m.peers, peer, p);
                    }
                },
                _ => {},
            }
        },
    }
}

/// Over a whole run: a tracked peer's last-seen reading is the clock of some
/// input that carried evidence for it (or it was tracked from the start).
pub proof fn lemma_run_evidence(m0: NodeModel, inputs: Seq<(InputModel, u64)>, p: Seq<char>)
    requires
        distinct_keys(m0.peers),
    ensures
        has_key(run_model(m0, inputs).peers, p) ==> ((has_key(m0.peers, p) && seen_at(
            run_model(m0, inputs).peers,
            p,
        ) == seen_at(m0.peers, p)) || (exists|i: int|
            0 <= i < inputs.len() && evidence_for((#[trigger] inputs[i]).0, p) && seen_at(
                run_model(m0, inputs).peers,
                p,
            ) == inputs[i].1)),
    decreases inputs.len(),
{
    if inputs.len() > 0 {
        let head = inputs.drop_last();
        lemma_run_evidence(m0, head, p);
        lemma_run_invariants(m0, head);
        let mh = run_model(m0, head);
        lemma_step_evidence(mh, inputs.last().0, inputs.last().1, p);
        assert(forall|i: int| 0 <= i < head.len() ==> #[trigger] head[i] == inputs[i]);
        if has_key(run_model(m0, inputs).peers, p) {
            if has_key(mh.peers, p) && seen_at(run_model(m0, inputs).peers, p) == seen_at(
                mh.peers,
                p,
            ) {
                if !(has_key(m0.peers, p) && seen_at(mh.peers, p) == seen_at(m0.peers, p)) {
                    let i = choose|i: int|
                        0 <= i < head.len() && evidence_for((#[trigger] head[i]).0, p) && seen_at(
                            mh.peers,
                            p,
                        ) == head[i].1;
                    assert(evidence_for(inputs[i].0, p) && seen_at(run_model(m0, inputs).peers, p)
                        == inputs[i].1);
                }
            } else {
                assert(evidence_for(inputs[inputs.len() - 1].0, p) && seen_at(
                    run_model(m0, inputs).peers,
                    p,
                ) == inputs[inputs.len() - 1].1);
            }
        }
    }
}

/// The sweep bound: right after a discovery tick at clock reading `now`
/// (possible only once a relay is known), every peer still tracked has
/// evidence no older than the liveness timeout.
pub proof fn lemma_tick_freshness(m: NodeModel, now: u64, p: Seq<char>)
    requires
        distinct_keys(m.peers),
        m.relay_peer is Some,
    ensures
        has_key(step_model(m, InputModel::TimerTick, now).peers, p) ==> !stale_at(
            seen_at(step_model(m, InputModel::TimerTick, now).peers, p),
            now,
            LIVENESS_TIMEOUT_SECS,
        ),
{
    lemma_keep_fresh_keys(m.peers, now, LIVENESS_TIMEOUT_SECS, p);
}

} // verus!
