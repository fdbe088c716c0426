//! What holds of a node over its steps, whatever it is told and whatever happens.

use vstd::prelude::*;

use crate::abi::{
    lp2p_key, LP2P_CLASS_BLOCKED, LP2P_EVENT_HEADER_BYTES, LP2P_EV_LIMITED, LP2P_EV_REACHABILITY,
    LP2P_EV_RPC_FAILED, LP2P_EV_RPC_REQUEST, LP2P_EV_RPC_RESPONSE, LP2P_FAIL_TIMEOUT,
};
use crate::call::{CallView, FAILURE_PENALTY};
use crate::delegation::Delegation;
use crate::events::Event;
use crate::limits::RequestView;
use crate::node::{Command, Config, Reachability};
use crate::steps::{
    Acceptance, ActionView, Env, KadEvent, PeerInfo, Query, RpcEvent, StateView, Step, SwarmEvent,
    MAX_REMEMBERED, PROVIDE_DEBOUNCE,
};

verus! {

/// What a node is told or what happens to it.
pub enum Input {
    Command(Command),
    Swarm(SwarmEvent),
    /// A tick that finds these calls expired, in this order.
    Tick { routing: u32, peers: u32, order: Seq<u64> },
    Announcement { source: Option<(u64, Seq<u8>)>, frame: Seq<u8> },
}

/// The step that an input makes.
pub open spec fn taken(state: StateView, input: Input, env: Env) -> Step {
    match input {
        Input::Command(command) => state.commanded(command, env),
        Input::Swarm(event) => state.on_swarm(event, env),
        Input::Tick { routing, peers, order } => state.ticked(env.now, routing, peers, order),
        Input::Announcement { source, frame } => state.heard(source, frame, env).1,
    }
}

/// The call that an input starts.
pub open spec fn started(input: Input) -> Option<u64> {
    match input {
        Input::Command(Command::Rpc { id, .. }) => Some(id),
        _ => None,
    }
}

/// Whether an input can come: a command that the node can follow, a new call under a number that
/// no call has, a tick that finds the calls that are expired.
pub open spec fn can_come(state: StateView, input: Input, env: Env) -> bool {
    &&& match started(input) {
        Some(id) => !state.calls.contains_key(id),
        None => true,
    }
    &&& match input {
        Input::Command(command) => state.can_follow(command),
        Input::Tick { order, .. } => crate::steps::is_expiry_order(state.calls, env.now, order),
        _ => true,
    }
}

/// Whether an event is the outcome of a call.
pub open spec fn is_outcome(event: Event, id: u64) -> bool {
    (event.header.kind == LP2P_EV_RPC_RESPONSE || event.header.kind == LP2P_EV_RPC_FAILED)
        && event.header.id == id
}

/// How many of the events are outcomes of a call.
pub open spec fn outcomes(events: Seq<Event>, id: u64) -> nat
    decreases events.len(),
{
    if events.len() == 0 {
        0
    } else {
        outcomes(events.drop_last(), id) + (if is_outcome(events.last(), id) {
            1nat
        } else {
            0
        })
    }
}

/// One for a call that is under way, else none.
pub open spec fn pending(state: StateView, id: u64) -> nat {
    if state.calls.contains_key(id) {
        1
    } else {
        0
    }
}

/// One for a call that an input starts, else none.
pub open spec fn starts(input: Input, id: u64) -> nat {
    if started(input) == Some(id) {
        1
    } else {
        0
    }
}

proof fn lemma_no_outcomes(events: Seq<Event>, id: u64)
    requires
        forall|i: int| 0 <= i < events.len() ==> !is_outcome(#[trigger] events[i], id),
    ensures
        outcomes(events, id) == 0,
    decreases events.len(),
{
    if events.len() > 0 {
        assert(!is_outcome(events[events.len() - 1], id));
        assert forall|i: int| 0 <= i < events.drop_last().len() implies !is_outcome(
            #[trigger] events.drop_last()[i],
            id,
        ) by {
            assert(events.drop_last()[i] == events[i]);
        }
        lemma_no_outcomes(events.drop_last(), id);
    }
}

proof fn lemma_outcomes_of_one(event: Event, id: u64)
    ensures
        outcomes(seq![event], id) == (if is_outcome(event, id) {
            1nat
        } else {
            0
        }),
{
    assert(seq![event].drop_last() =~= Seq::empty());
    assert(outcomes(seq![event].drop_last(), id) == 0);
}

proof fn lemma_outcomes_of_none(id: u64)
    ensures
        outcomes(Seq::empty(), id) == 0,
{
}

proof fn lemma_outcomes_join(a: Seq<Event>, b: Seq<Event>, id: u64)
    ensures
        outcomes(a + b, id) == outcomes(a, id) + outcomes(b, id),
    decreases b.len(),
{
    if b.len() == 0 {
        assert(a + b =~= a);
    } else {
        assert((a + b).drop_last() =~= a + b.drop_last());
        lemma_outcomes_join(a, b.drop_last(), id);
    }
}

/// A call that moves on ends with its outcome or does not end.
proof fn lemma_advance_outcomes(state: StateView, call: u64, env: Env, id: u64)
    ensures
        pending(state, id) == pending(state.advanced(call, env).state, id) + outcomes(
            state.advanced(call, env).events,
            id,
        ),
{
    let step = state.advanced(call, env);
    lemma_outcomes_of_none(id);
    if step.events.len() > 0 {
        lemma_outcomes_of_one(step.events[0], id);
        assert(step.events =~= seq![step.events[0]]);
    }
    if state.calls.contains_key(call) {
        let c = state.calls[call];
        lemma_next_keeps(
            c,
            crate::call::dialable(crate::address_book::peer_views(env.connected@), state.book),
        );
    }
}

proof fn lemma_next_keeps(call: CallView, dialable: Set<(u64, Seq<u8>)>)
    ensures
        call.next(dialable).0.group == call.group,
        call.next(dialable).0.protocol == call.protocol,
        call.next(dialable).0.lookup_running == call.lookup_running,
    decreases call.candidates.len(),
{
    if call.candidates.len() > 0 {
        let rest = CallView { candidates: call.candidates.drop_first(), ..call };
        lemma_next_keeps(rest, dialable);
    }
}

proof fn lemma_rpc_outcomes(state: StateView, event: RpcEvent, env: Env, id: u64)
    ensures
        pending(state, id) == pending(state.on_rpc(event, env).state, id) + outcomes(
            state.on_rpc(event, env).events,
            id,
        ),
{
    lemma_outcomes_of_none(id);
    let step = state.on_rpc(event, env);
    match event {
        RpcEvent::Request { peer, ip, frame } => {
            if step.events.len() > 0 {
                assert(step.events =~= seq![step.events[0]]);
                lemma_outcomes_of_one(step.events[0], id);
            }
        },
        RpcEvent::Response { call, peer, frame } => {
            if let Some(c) = call {
                if state.calls.contains_key(c) {
                    match StateView::read_response(
                        peer@,
                        state.calls[c].group,
                        frame@,
                        env.unix_ms,
                    ) {
                        Some(good) => {
                            assert(step.events =~= seq![step.events[0]]);
                            lemma_outcomes_of_one(step.events[0], id);
                        },
                        None => {
                            let failed = (StateView {
                                failed: crate::steps::with_failure(state.failed, peer@, env.now),
                                ..state
                            }).with_failed_call(c, crate::abi::LP2P_FAIL_REFUSED);
                            lemma_advance_outcomes(failed, c, env, id);
                        },
                    }
                }
            }
        },
        RpcEvent::OutboundFailure { call, peer, failure } => {
            if let Some(c) = call {
                let failed = (StateView {
                    failed: crate::steps::with_failure(state.failed, peer@, env.now),
                    ..state
                }).with_failed_call(c, crate::steps::reason_of(failure));
                lemma_advance_outcomes(failed, c, env, id);
            }
        },
        RpcEvent::InboundDone { .. } => {},
    }
}

proof fn lemma_kad_outcomes(state: StateView, event: KadEvent, env: Env, id: u64)
    ensures
        pending(state, id) == pending(state.on_kad(event, env).state, id) + outcomes(
            state.on_kad(event, env).events,
            id,
        ),
{
    lemma_outcomes_of_none(id);
    let step = state.on_kad(event, env);
    match event {
        KadEvent::RoutingUpdated { .. } => {},
        KadEvent::Providers { query, providers, last } => {
            if let Some(Query::Providers { call }) = query {
                lemma_advance_outcomes(
                    state.with_providers(
                        call,
                        crate::address_book::peer_views(providers@),
                        last,
                        env.now,
                    ),
                    call,
                    env,
                    id,
                );
            }
        },
        KadEvent::ClosestPeers { query, peers } => {
            let learned = StateView {
                book: crate::steps::book_with(state.book, peers@),
                ..state
            };
            match query {
                Some(Query::Resolve { call }) => {
                    lemma_advance_outcomes(learned.with_resolved(call), call, env, id);
                },
                Some(Query::Walk { id: walk }) => {
                    lemma_no_outcomes(step.events, id);
                },
                _ => {},
            }
        },
        KadEvent::Bootstrap { .. } => {
            if step.events.len() > 0 {
                assert(step.events =~= seq![step.events[0]]);
                lemma_outcomes_of_one(step.events[0], id);
            }
        },
    }
}

proof fn lemma_tick_outcomes(state: StateView, now: u64, order: Seq<u64>, n: int, id: u64)
    requires
        crate::steps::is_expiry_order(state.calls, now, order),
        0 <= n <= order.len(),
    ensures
        outcomes(
            order.take(n).map_values(
                |x: u64| crate::steps::failed_event(x, state.calls[x], LP2P_FAIL_TIMEOUT),
            ),
            id,
        ) == (if order.take(n).contains(id) {
            1nat
        } else {
            0
        }),
    decreases n,
{
    let f = |x: u64| crate::steps::failed_event(x, state.calls[x], LP2P_FAIL_TIMEOUT);
    let part = order.take(n);
    if n > 0 {
        let before = order.take(n - 1);
        lemma_tick_outcomes(state, now, order, n - 1, id);
        assert(part.map_values(f).drop_last() =~= before.map_values(f));
        assert(part.map_values(f).last() == f(order[n - 1]));
        assert(part =~= before.push(order[n - 1]));
        if order[n - 1] == id {
            assert(part[n - 1] == id);
            if before.contains(id) {
                let k = before.index_of(id);
                assert(order[k] == order[n - 1]);
            }
        } else {
            if part.contains(id) {
                let k = part.index_of(id);
                assert(before[k] == id);
            }
            if before.contains(id) {
                let k = before.index_of(id);
                assert(part[k] == id);
            }
        }
    } else {
        assert(part.map_values(f) =~= Seq::empty());
    }
}

/// Every call has one outcome and no more. Whatever happens in a step, a call that was under way or
/// is started is under way afterwards, or the step reports its outcome, once; and no step reports
/// an outcome of anything else.
pub proof fn law_one_outcome_per_call(state: StateView, input: Input, env: Env, id: u64)
    requires
        can_come(state, input, env),
    ensures
        pending(state, id) + starts(input, id) == pending(taken(state, input, env).state, id)
            + outcomes(taken(state, input, env).events, id),
{
    lemma_outcomes_of_none(id);
    let step = taken(state, input, env);
    match input {
        Input::Command(command) => {
            if let Command::Rpc { id: new, group, node, protocol, payload, timeout } = command {
                let call = state.new_call(
                    group,
                    node,
                    protocol,
                    payload@,
                    crate::steps::later(env.now, timeout),
                );
                lemma_advance_outcomes(state.with_call(new, call), new, env, id);
            }
        },
        Input::Swarm(event) => match event {
            SwarmEvent::Kad(event) => {
                lemma_kad_outcomes(state, event, env, id);
            },
            SwarmEvent::Rpc(event) => {
                lemma_rpc_outcomes(state, event, env, id);
            },
            _ => {
                if step.events.len() > 0 {
                    assert(step.events =~= seq![step.events[0]]);
                    lemma_outcomes_of_one(step.events[0], id);
                }
            },
        },
        Input::Tick { routing, peers, order } => {
            lemma_tick_outcomes(state, env.now, order, order.len() as int, id);
            assert(order.take(order.len() as int) =~= order);
            assert(order.contains(id) <==> order.to_set().contains(id));
        },
        Input::Announcement { .. } => {
            if step.events.len() > 0 {
                assert(step.events =~= seq![step.events[0]]);
                lemma_outcomes_of_one(step.events[0], id);
            }
        },
    }
}

/// What a sequence of inputs comes to: the state then, and all that was reported.
pub open spec fn run(state: StateView, inputs: Seq<(Input, Env)>) -> (StateView, Seq<Event>)
    decreases inputs.len(),
{
    if inputs.len() == 0 {
        (state, Seq::empty())
    } else {
        let (before, events) = run(state, inputs.drop_last());
        let step = taken(before, inputs.last().0, inputs.last().1);
        (step.state.logged(step.events), events + step.events)
    }
}

/// Whether inputs can come one after the other.
pub open spec fn can_all_come(state: StateView, inputs: Seq<(Input, Env)>) -> bool
    decreases inputs.len(),
{
    inputs.len() > 0 ==> {
        &&& can_all_come(state, inputs.drop_last())
        &&& can_come(run(state, inputs.drop_last()).0, inputs.last().0, inputs.last().1)
    }
}

/// How often inputs start a call.
pub open spec fn starts_in(inputs: Seq<(Input, Env)>, id: u64) -> nat
    decreases inputs.len(),
{
    if inputs.len() == 0 {
        0
    } else {
        starts_in(inputs.drop_last(), id) + starts(inputs.last().0, id)
    }
}

/// Over any run, a call that was started has had its outcome or is still under way, and never both
/// or twice.
pub proof fn law_one_outcome_per_run(state: StateView, inputs: Seq<(Input, Env)>, id: u64)
    requires
        can_all_come(state, inputs),
    ensures
        pending(state, id) + starts_in(inputs, id) == pending(run(state, inputs).0, id) + outcomes(
            run(state, inputs).1,
            id,
        ),
    decreases inputs.len(),
{
    if inputs.len() > 0 {
        law_one_outcome_per_run(state, inputs.drop_last(), id);
        let (before, events) = run(state, inputs.drop_last());
        let (input, env) = inputs.last();
        law_one_outcome_per_call(before, input, env, id);
        lemma_outcomes_join(events, taken(before, input, env).events, id);
    }
}

/// Whether a call waits for something: a response, addresses, or providers.
pub open spec fn waits(call: CallView) -> bool {
    call.in_flight || call.resolving || call.lookup_running
}

pub open spec fn all_wait(state: StateView) -> bool {
    forall|id: u64| #[trigger] state.calls.contains_key(id) ==> waits(state.calls[id])
}

proof fn lemma_next_waits(call: CallView, dialable: Set<(u64, Seq<u8>)>)
    requires
        !(call.next(dialable).1 is Nobody),
    ensures
        waits(call.next(dialable).0),
    decreases call.candidates.len(),
{
    if call.candidates.len() > 0 {
        let peer = call.candidates[0];
        let rest = CallView { candidates: call.candidates.drop_first(), ..call };
        if !dialable.contains(peer) && call.resolved.contains(peer) {
            lemma_next_waits(rest, dialable);
        }
    }
}

proof fn lemma_advance_waits(state: StateView, call: u64, env: Env)
    requires
        forall|id: u64|
            id != call && #[trigger] state.calls.contains_key(id) ==> waits(state.calls[id]),
    ensures
        all_wait(state.advanced(call, env).state),
{
    let after = state.advanced(call, env).state;
    let dialable = crate::call::dialable(
        crate::address_book::peer_views(env.connected@),
        state.book,
    );
    if state.calls.contains_key(call) {
        let c = state.calls[call];
        lemma_next_keeps(c, dialable);
        if !(c.next(dialable).1 is Nobody) {
            lemma_next_waits(c, dialable);
        }
    }
    assert forall|id: u64| #[trigger] after.calls.contains_key(id) implies waits(
        after.calls[id],
    ) by {
        if id != call {
            assert(state.calls.contains_key(id));
        }
    }
}

/// No call is forgotten: after every step each call waits for something that is still to come, so
/// one for which nobody is left to ask has been reported as failed.
pub proof fn law_no_call_is_stuck(state: StateView, input: Input, env: Env)
    requires
        all_wait(state),
        can_come(state, input, env),
    ensures
        all_wait(taken(state, input, env).state),
{
    let after = taken(state, input, env).state;
    match input {
        Input::Command(command) => {
            if let Command::Rpc { id, group, node, protocol, payload, timeout } = command {
                let call = state.new_call(
                    group,
                    node,
                    protocol,
                    payload@,
                    crate::steps::later(env.now, timeout),
                );
                lemma_advance_waits(state.with_call(id, call), id, env);
            } else {
                assert(after.calls == state.calls);
            }
        },
        Input::Swarm(SwarmEvent::Kad(event)) => match event {
            KadEvent::Providers { query, providers, last } => {
                if let Some(Query::Providers { call }) = query {
                    lemma_advance_waits(
                        state.with_providers(
                            call,
                            crate::address_book::peer_views(providers@),
                            last,
                            env.now,
                        ),
                        call,
                        env,
                    );
                }
            },
            KadEvent::ClosestPeers { query, peers } => {
                if let Some(Query::Resolve { call }) = query {
                    let learned = StateView {
                        book: crate::steps::book_with(state.book, peers@),
                        ..state
                    };
                    lemma_advance_waits(learned.with_resolved(call), call, env);
                } else {
                    assert(after.calls == state.calls);
                }
            },
            _ => {
                assert(after.calls == state.calls);
            },
        },
        Input::Swarm(SwarmEvent::Rpc(event)) => match event {
            RpcEvent::Response { call, peer, frame } => {
                if let Some(c) = call {
                    if state.calls.contains_key(c) {
                        if StateView::read_response(
                            peer@,
                            state.calls[c].group,
                            frame@,
                            env.unix_ms,
                        ) is None {
                            let failed = (StateView {
                                failed: crate::steps::with_failure(state.failed, peer@, env.now),
                                ..state
                            }).with_failed_call(c, crate::abi::LP2P_FAIL_REFUSED);
                            lemma_advance_waits(failed, c, env);
                        }
                    }
                }
            },
            RpcEvent::OutboundFailure { call, peer, failure } => {
                if let Some(c) = call {
                    let failed = (StateView {
                        failed: crate::steps::with_failure(state.failed, peer@, env.now),
                        ..state
                    }).with_failed_call(c, crate::steps::reason_of(failure));
                    lemma_advance_waits(failed, c, env);
                }
            },
            _ => {
                assert(after.calls == state.calls);
            },
        },
        Input::Tick { .. } => {},
        _ => {
            assert(after.calls == state.calls);
        },
    }
}

/// A tick leaves no call whose time is up.
pub proof fn law_tick_ends_late_calls(
    state: StateView,
    now: u64,
    routing: u32,
    peers: u32,
    order: Seq<u64>,
    id: u64,
)
    requires
        crate::steps::is_expiry_order(state.calls, now, order),
    ensures
        ({
            let after = state.ticked(now, routing, peers, order).state;
            after.calls.contains_key(id) <==> state.calls.contains_key(id)
                && state.calls[id].deadline > now
        }),
{
    assert(order.contains(id) <==> order.to_set().contains(id));
}

/// A response is reported only of a node that proved it belongs to the group that was called: the
/// frame carries a delegation that is good, names the key of the peer that answered, and names the
/// group.
pub proof fn law_responses_are_vouched_for(
    state: StateView,
    id: u64,
    peer: (u64, Seq<u8>),
    frame: Seq<u8>,
    env: Env,
)
    requires
        state.calls.contains_key(id),
        exists|i: int|
            0 <= i < state.on_response(id, peer, frame, env).events.len() && (
            #[trigger] state.on_response(id, peer, frame, env).events[i]).header.kind
                == LP2P_EV_RPC_RESPONSE,
    ensures
        ({
            let call = state.calls[id];
            let step = state.on_response(id, peer, frame, env);
            let response = crate::wire::response_in(frame)->0;
            let d = crate::delegation::parsed(response.delegation)->Ok_0;
            &&& crate::wire::response_in(frame) is Some
            &&& crate::keys::key_in(peer) is Some
            &&& crate::delegation::parsed(response.delegation) is Ok
            &&& d.checked_for(crate::keys::key_in(peer)->0, env.unix_ms) is Ok
            &&& d.group@ == call.group@
            &&& step.events.len() == 1
            &&& step.events[0].header.id == id
            &&& step.events[0].header.group == call.group
            &&& step.events[0].header.node == crate::keys::key_array(crate::keys::key_in(peer)->0)
            &&& step.events[0].data == response.payload
        }),
{
    let step = state.on_response(id, peer, frame, env);
    if StateView::read_response(peer, state.calls[id].group, frame, env.unix_ms) is None {
        let failed = (StateView {
            failed: crate::steps::with_failure(state.failed, peer, env.now),
            ..state
        }).with_failed_call(id, crate::abi::LP2P_FAIL_REFUSED);
        assert(step == failed.advanced(id, env));
        let i = choose|i: int|
            0 <= i < step.events.len() && (#[trigger] step.events[i]).header.kind
                == LP2P_EV_RPC_RESPONSE;
        assert(step.events[i].header.kind == LP2P_EV_RPC_FAILED);
    }
}

/// A request is reported only of a node that proved which group it belongs to, for a protocol this
/// node has, of a group that is not blocked, and within every limit.
pub proof fn law_requests_are_vouched_for(
    state: StateView,
    peer: (u64, Seq<u8>),
    ip: Option<Seq<u8>>,
    frame: Seq<u8>,
    env: Env,
)
    requires
        exists|i: int|
            0 <= i < state.on_request(peer, ip, frame, env).events.len() && (
            #[trigger] state.on_request(peer, ip, frame, env).events[i]).header.kind
                == LP2P_EV_RPC_REQUEST,
    ensures
        ({
            let step = state.on_request(peer, ip, frame, env);
            let request = crate::wire::request_in(frame)->0;
            let d = crate::delegation::parsed(request.delegation)->Ok_0;
            let header = step.events[0].header;
            &&& crate::wire::request_in(frame) is Some
            &&& crate::keys::key_in(peer) is Some
            &&& crate::delegation::parsed(request.delegation) is Ok
            &&& d.checked_for(crate::keys::key_in(peer)->0, env.unix_ms) is Ok
            &&& step.events.len() == 1
            &&& header.group == d.group
            &&& header.node == crate::keys::key_array(crate::keys::key_in(peer)->0)
            &&& crate::steps::protocol_index(state.rpc_protocols, request.protocol, 0) is Some
            &&& state.limits.class_of(d.group@) != LP2P_CLASS_BLOCKED
            &&& state.limits.verdict(
                RequestView { group: d.group@, peer, ip, protocol: header.protocol },
                env.now,
            ) is Ok
            &&& step.state.inbound.contains(header.id)
            &&& step.actions == seq![ActionView::HoldInbound { id: header.id }]
        }),
{
    let step = state.on_request(peer, ip, frame, env);
    let i = choose|i: int|
        0 <= i < step.events.len() && (#[trigger] step.events[i]).header.kind
            == LP2P_EV_RPC_REQUEST;
    assert(step.events[i].header.kind != LP2P_EV_LIMITED);
    assert(i == 0);
}

/// An announcement is passed on only if it is reported, and reported only of a node that proved
/// which group it belongs to, of a group that is not blocked, and no more often than it may.
pub proof fn law_announcements_are_vouched_for(
    state: StateView,
    source: Option<(u64, Seq<u8>)>,
    frame: Seq<u8>,
    env: Env,
)
    ensures
        ({
            let (acceptance, step) = state.heard(source, frame, env);
            let message = crate::wire::response_in(frame)->0;
            let d = crate::delegation::parsed(message.delegation)->Ok_0;
            &&& acceptance == Acceptance::Accept <==> step.events.len() == 1
            &&& acceptance != Acceptance::Accept <==> step.events.len() == 0
            &&& acceptance == Acceptance::Accept ==> {
                &&& source is Some
                &&& crate::wire::response_in(frame) is Some
                &&& crate::keys::key_in(source->0) is Some
                &&& crate::delegation::parsed(message.delegation) is Ok
                &&& d.checked_for(crate::keys::key_in(source->0)->0, env.unix_ms) is Ok
                &&& state.limits.class_of(d.group@) != LP2P_CLASS_BLOCKED
                &&& state.sources.allows(source->0, env.now)
                &&& step.events[0].data == message.payload
                &&& step.events[0].header.group == d.group
            }
        }),
{
}

/// What was announced is not announced again until it changes.
pub proof fn law_announced_on_change(state: StateView, payload: Seq<u8>, other: Seq<u8>)
    requires
        state.announce is Some,
    ensures
        ({
            let once = state.announcing(payload).state;
            &&& once.announcing(payload) == once.quietly()
            &&& other != payload ==> once.announcing(other).actions.len() == 1
        }),
{
}

/// A request is answered once: after a response or a rejection nothing is sent for it any more.
pub proof fn law_answered_once(state: StateView, first: Command, second: Command, env: Env, id: u64)
    requires
        first matches Command::Respond { id: a, .. } && a == id || first == (Command::Reject { id }),
        second matches Command::Respond { id: b, .. } && b == id || second == (Command::Reject {
            id,
        }),
    ensures
        state.inbound.contains(id) <==> state.commanded(first, env).actions.len() == 1,
        !state.inbound.contains(id) <==> state.commanded(first, env).actions.len() == 0,
        state.commanded(first, env).state.commanded(second, env).actions.len() == 0,
{
}

/// A node that failed is penalized for as long as the penalty lasts; one that answers again is
/// forgiven and becomes its group's last good node.
pub proof fn law_failures_are_remembered(
    failed: crate::call::Failures,
    last_success: Map<Seq<u8>, (u64, Seq<u8>)>,
    peer: (u64, Seq<u8>),
    group: Seq<u8>,
    at: u64,
    now: u64,
)
    requires
        at <= now,
    ensures
        crate::call::penalized(crate::steps::with_failure(failed, peer, at), peer, now) <==> now
            - at < FAILURE_PENALTY,
        !crate::call::penalized(failed.remove(peer), peer, now),
        crate::call::last_good(crate::steps::with_success(last_success, group, peer), group)
            == Some(peer),
{
}

/// What is remembered of failures and successes stays bounded.
pub proof fn law_memory_is_bounded(
    failed: crate::call::Failures,
    last_success: Map<Seq<u8>, (u64, Seq<u8>)>,
    peer: (u64, Seq<u8>),
    group: Seq<u8>,
    now: u64,
)
    requires
        failed.dom().finite(),
        failed.dom().len() <= MAX_REMEMBERED,
        last_success.dom().finite(),
        last_success.dom().len() <= MAX_REMEMBERED,
    ensures
        crate::steps::with_failure(failed, peer, now).dom().len() <= MAX_REMEMBERED,
        crate::steps::with_success(last_success, group, peer).dom().len() <= MAX_REMEMBERED,
{
    let recent = failed.restrict(
        Set::new(|p: (u64, Seq<u8>)| crate::call::penalized(failed, p, now)),
    );
    assert(recent.dom().subset_of(failed.dom()));
    vstd::set_lib::lemma_set_subset_finite(failed.dom(), recent.dom());
}

/// A burst of new peers becomes one publication: after a tick has published the provider record no
/// tick does so again before the debounce is over, whatever else has changed by then.
pub proof fn law_provide_is_debounced(
    state: StateView,
    now: u64,
    routing: u32,
    peers: u32,
    order: Seq<u64>,
    later: StateView,
    then: u64,
)
    requires
        state.provide_now(now),
        later.last_provide == state.ticked(now, routing, peers, order).state.last_provide,
        now <= then,
        then - now < PROVIDE_DEBOUNCE,
    ensures
        !later.provide_now(then),
{
}

/// A node never queues itself: a call that has not seen this node does not see it when providers
/// are found.
pub proof fn law_never_calls_itself(
    call: CallView,
    providers: Seq<(u64, Seq<u8>)>,
    own: (u64, Seq<u8>),
    last_good: Option<(u64, Seq<u8>)>,
    failed: crate::call::Failures,
    now: u64,
)
    requires
        !call.seen.contains(own),
    ensures
        !call.enqueued_all(providers, own, last_good, failed, now).seen.contains(own),
        forall|i: int|
            0 <= i < providers.len() && #[trigger] providers[i] != own ==> call.enqueued_all(
                providers,
                own,
                last_good,
                failed,
                now,
            ).seen.contains(providers[i]),
        call.seen.subset_of(call.enqueued_all(providers, own, last_good, failed, now).seen),
    decreases providers.len(),
{
    if providers.len() > 0 {
        let init = providers.drop_last();
        law_never_calls_itself(call, init, own, last_good, failed, now);
        assert forall|i: int| 0 <= i < providers.len() && #[trigger] providers[i]
            != own implies call.enqueued_all(providers, own, last_good, failed, now).seen.contains(
            providers[i],
        ) by {
            if i < init.len() {
                assert(init[i] == providers[i]);
            }
        }
    }
}

/// A sample names no entry of the routing table twice, and the next sample of the same table starts
/// one entry further on.
pub proof fn law_samples_go_round(state: StateView, entries: Seq<PeerInfo>, i: int, j: int)
    requires
        entries.len() > 0,
        entries.len() <= usize::MAX,
        0 <= i < j < entries.len(),
    ensures
        ({
            let start = state.sample_start(entries.len());
            let next = StateView { sample_offset: start as usize, ..state };
            &&& (start + i) % (entries.len() as int) != (start + j) % (entries.len() as int)
            &&& next.sample_start(entries.len()) == (start + 1) % (entries.len() as int)
        }),
{
    let n = entries.len() as int;
    let start = state.sample_start(entries.len());
    if (start + i) % n == (start + j) % n {
        vstd::arithmetic::div_mod::lemma_fundamental_div_mod(start + i, n);
        vstd::arithmetic::div_mod::lemma_fundamental_div_mod(start + j, n);
        let a = (start + i) / n;
        let b = (start + j) / n;
        assert(n * (b - a) == j - i) by (nonlinear_arith)
            requires
                start + i == n * a + (start + i) % n,
                start + j == n * b + (start + j) % n,
                (start + i) % n == (start + j) % n,
        ;
        assert(b - a != 0 ==> n * (b - a) >= n || n * (b - a) <= -n) by (nonlinear_arith)
            requires
                n > 0,
        ;
    }
}

/// What one node asks, another reads as it was asked: a node whose delegation is good is known by
/// its key and its group, and the payload arrives under the number that the protocol's name has at
/// the other side.
pub proof fn law_request_arrives(
    asker: StateView,
    asked: StateView,
    d: Delegation,
    key: lp2p_key,
    peer: (u64, Seq<u8>),
    group: lp2p_key,
    node: Option<lp2p_key>,
    protocol: u16,
    payload: Seq<u8>,
    deadline: u64,
    unix_ms: u64,
    index: u16,
)
    requires
        asker.wf(),
        protocol < asker.rpc_protocols.len(),
        asker.delegation == d.bytes(),
        crate::keys::key_in(peer) == Some(key@),
        d.checked_for(key@, unix_ms) is Ok,
        crate::steps::protocol_index(asked.rpc_protocols, asker.rpc_protocols[protocol as int], 0)
            == Some(index as int),
    ensures
        asked.read_request(
            peer,
            asker.new_call(group, node, protocol, payload, deadline).frame,
            unix_ms,
        ) == Some((key, d.group, index, payload)),
{
    let request = crate::wire::RequestView {
        delegation: asker.delegation,
        protocol: asker.rpc_protocols[protocol as int],
        payload,
    };
    crate::wire::law_request_read_back(request);
    crate::delegation::law_delegation_read_back(d);
    crate::keys::law_key_array(key);
}

/// What one node answers, another accepts, if the answering node's delegation is good and of the
/// group that was called.
pub proof fn law_response_arrives(
    answering: StateView,
    d: Delegation,
    key: lp2p_key,
    peer: (u64, Seq<u8>),
    id: u64,
    payload: Vec<u8>,
    env: Env,
)
    requires
        answering.wf(),
        answering.inbound.contains(id),
        answering.delegation == d.bytes(),
        crate::keys::key_in(peer) == Some(key@),
        d.checked_for(key@, env.unix_ms) is Ok,
    ensures
        ({
            let action = answering.commanded(Command::Respond { id, payload }, env).actions[0];
            &&& action is SendResponse
            &&& StateView::read_response(
                peer,
                d.group,
                action->SendResponse_frame,
                env.unix_ms,
            ) == Some((key, payload@))
        }),
{
    let response = crate::wire::ResponseView {
        delegation: answering.delegation,
        payload: payload@,
    };
    crate::wire::law_response_read_back(response);
    crate::delegation::law_delegation_read_back(d);
    crate::keys::law_key_array(key);
}

/// What one node announces, another hears and passes on, unless it blocked the group or has heard
/// the node too often.
pub proof fn law_announcement_arrives(
    announcing: StateView,
    hearing: StateView,
    d: Delegation,
    key: lp2p_key,
    peer: (u64, Seq<u8>),
    payload: Seq<u8>,
    env: Env,
)
    requires
        announcing.wf(),
        announcing.announce is Some,
        announcing.announce->0.payload != Some(payload),
        announcing.delegation == d.bytes(),
        crate::keys::key_in(peer) == Some(key@),
        d.checked_for(key@, env.unix_ms) is Ok,
    ensures
        ({
            let action = announcing.announcing(payload).actions[0];
            let (acceptance, step) = hearing.heard(Some(peer), action->Publish_frame, env);
            &&& action is Publish
            &&& acceptance == (if hearing.limits.class_of(d.group@) != LP2P_CLASS_BLOCKED
                && hearing.sources.allows(peer, env.now) {
                Acceptance::Accept
            } else {
                Acceptance::Ignore
            })
            &&& acceptance == Acceptance::Accept ==> step.events[0].data == payload
                && step.events[0].header.group == d.group && step.events[0].header.node == key
        }),
{
    let message = crate::wire::ResponseView { delegation: announcing.delegation, payload };
    crate::wire::law_response_read_back(message);
    crate::delegation::law_delegation_read_back(d);
    crate::keys::law_key_array(key);
}

/// Whether two states are of the same node, the first the earlier one: who it is, which group vouches
/// for it, what it speaks, where it announces, and whether it can be reached if it was told.
pub open spec fn same_node(a: StateView, b: StateView) -> bool {
    &&& a.local_peer == b.local_peer
    &&& a.group == b.group
    &&& a.delegation == b.delegation
    &&& a.dht_protocol == b.dht_protocol
    &&& a.rpc_protocols == b.rpc_protocols
    &&& a.reachability != Reachability::Unknown ==> a.reachability == b.reachability
    &&& a.announce is Some <==> b.announce is Some
    &&& a.announce is Some ==> a.announce->0.topic == b.announce->0.topic
}

/// Whether two states have the same classes and limits.
pub open spec fn same_limits(a: StateView, b: StateView) -> bool {
    a.limits.classes == b.limits.classes && a.limits.rules == b.limits.rules
}

proof fn lemma_advance_keeps(state: StateView, call: u64, env: Env)
    ensures
        same_node(state, state.advanced(call, env).state),
        same_limits(state, state.advanced(call, env).state),
{
}

proof fn lemma_kad_keeps(state: StateView, event: KadEvent, env: Env)
    ensures
        same_node(state, state.on_kad(event, env).state),
        same_limits(state, state.on_kad(event, env).state),
{
    match event {
        KadEvent::Providers { query, providers, last } => {
            if let Some(Query::Providers { call }) = query {
                let queued = state.with_providers(
                    call,
                    crate::address_book::peer_views(providers@),
                    last,
                    env.now,
                );
                lemma_advance_keeps(queued, call, env);
            }
        },
        KadEvent::ClosestPeers { query, peers } => {
            if let Some(Query::Resolve { call }) = query {
                let learned = StateView {
                    book: crate::steps::book_with(state.book, peers@),
                    ..state
                };
                lemma_advance_keeps(learned.with_resolved(call), call, env);
            }
        },
        _ => {},
    }
}

proof fn lemma_rpc_keeps(state: StateView, event: RpcEvent, env: Env)
    ensures
        same_node(state, state.on_rpc(event, env).state),
        same_limits(state, state.on_rpc(event, env).state),
{
    match event {
        RpcEvent::Response { call, peer, frame } => {
            if let Some(c) = call {
                let failed = (StateView {
                    failed: crate::steps::with_failure(state.failed, peer@, env.now),
                    ..state
                }).with_failed_call(c, crate::abi::LP2P_FAIL_REFUSED);
                lemma_advance_keeps(failed, c, env);
            }
        },
        RpcEvent::OutboundFailure { call, peer, failure } => {
            if let Some(c) = call {
                let failed = (StateView {
                    failed: crate::steps::with_failure(state.failed, peer@, env.now),
                    ..state
                }).with_failed_call(c, crate::steps::reason_of(failure));
                lemma_advance_keeps(failed, c, env);
            }
        },
        _ => {},
    }
}

proof fn lemma_command_keeps(state: StateView, command: Command, env: Env)
    ensures
        same_node(state, state.commanded(command, env).state),
{
    if let Command::Rpc { id, group, node, protocol, payload, timeout } = command {
        let call = state.new_call(
            group,
            node,
            protocol,
            payload@,
            crate::steps::later(env.now, timeout),
        );
        lemma_advance_keeps(state.with_call(id, call), id, env);
    }
}

proof fn lemma_swarm_keeps(state: StateView, event: SwarmEvent, env: Env)
    ensures
        same_node(state, state.on_swarm(event, env).state),
{
    match event {
        SwarmEvent::Kad(event) => {
            lemma_kad_keeps(state, event, env);
        },
        SwarmEvent::Rpc(event) => {
            lemma_rpc_keeps(state, event, env);
        },
        _ => {},
    }
}

/// What a node is started with stays, whatever it is told and whatever happens.
pub proof fn law_identity_is_kept(state: StateView, input: Input, env: Env)
    ensures
        same_node(state, taken(state, input, env).state),
{
    match input {
        Input::Command(command) => {
            lemma_command_keeps(state, command, env);
        },
        Input::Swarm(event) => {
            lemma_swarm_keeps(state, event, env);
        },
        _ => {},
    }
}

/// Whether no event reports a reachability.
pub open spec fn silent_on_reachability(events: Seq<Event>) -> bool {
    forall|i: int|
        0 <= i < events.len() ==> (#[trigger] events[i]).header.kind != LP2P_EV_REACHABILITY
}

/// Whether others are told to reach the node at relayed addresses alone.
pub open spec fn only_relayed(actions: Seq<ActionView>) -> bool {
    forall|i: int|
        0 <= i < actions.len() ==> ((#[trigger] actions[i]) matches ActionView::AddExternalAddress {
            address,
        } ==> crate::multiaddr::relayed(address))
}

proof fn lemma_advance_silent(state: StateView, call: u64, env: Env)
    ensures
        silent_on_reachability(state.advanced(call, env).events),
        only_relayed(state.advanced(call, env).actions),
{
}

proof fn lemma_kad_silent(state: StateView, event: KadEvent, env: Env)
    ensures
        silent_on_reachability(state.on_kad(event, env).events),
        only_relayed(state.on_kad(event, env).actions),
{
    match event {
        KadEvent::Providers { query, providers, last } => {
            if let Some(Query::Providers { call }) = query {
                let queued = state.with_providers(
                    call,
                    crate::address_book::peer_views(providers@),
                    last,
                    env.now,
                );
                lemma_advance_silent(queued, call, env);
            }
        },
        KadEvent::ClosestPeers { query, peers } => {
            if let Some(Query::Resolve { call }) = query {
                let learned = StateView {
                    book: crate::steps::book_with(state.book, peers@),
                    ..state
                };
                lemma_advance_silent(learned.with_resolved(call), call, env);
            }
        },
        _ => {},
    }
}

proof fn lemma_rpc_silent(state: StateView, event: RpcEvent, env: Env)
    ensures
        silent_on_reachability(state.on_rpc(event, env).events),
        only_relayed(state.on_rpc(event, env).actions),
{
    match event {
        RpcEvent::Response { call, peer, frame } => {
            if let Some(c) = call {
                let failed = (StateView {
                    failed: crate::steps::with_failure(state.failed, peer@, env.now),
                    ..state
                }).with_failed_call(c, crate::abi::LP2P_FAIL_REFUSED);
                lemma_advance_silent(failed, c, env);
            }
        },
        RpcEvent::OutboundFailure { call, peer, failure } => {
            if let Some(c) = call {
                let failed = (StateView {
                    failed: crate::steps::with_failure(state.failed, peer@, env.now),
                    ..state
                }).with_failed_call(c, crate::steps::reason_of(failure));
                lemma_advance_silent(failed, c, env);
            }
        },
        _ => {},
    }
}

proof fn lemma_step_silent(state: StateView, input: Input, env: Env)
    ensures
        silent_on_reachability(taken(state, input, env).events),
        state.reachability == Reachability::Private ==> only_relayed(
            taken(state, input, env).actions,
        ),
{
    match input {
        Input::Command(command) => {
            if let Command::Rpc { id, group, node, protocol, payload, timeout } = command {
                let call = state.new_call(
                    group,
                    node,
                    protocol,
                    payload@,
                    crate::steps::later(env.now, timeout),
                );
                lemma_advance_silent(state.with_call(id, call), id, env);
            }
        },
        Input::Swarm(SwarmEvent::Kad(event)) => {
            lemma_kad_silent(state, event, env);
        },
        Input::Swarm(SwarmEvent::Rpc(event)) => {
            lemma_rpc_silent(state, event, env);
        },
        _ => {},
    }
}

/// Every node starts with a report of its reachability, where the queue has room for it. One that
/// was told whether it can be reached reports that once: no step makes another report.
pub proof fn law_reachability_is_reported_once(
    config: Config,
    local_peer: (u64, Seq<u8>),
    state: StateView,
    input: Input,
    env: Env,
)
    requires
        config.event_queue_bytes >= LP2P_EVENT_HEADER_BYTES,
    ensures
        StateView::initial(config, local_peer).shared.log.events == seq![
            crate::steps::reachability_event(config.reachability),
        ],
        state.reachability != Reachability::Unknown ==> silent_on_reachability(
            taken(state, input, env).events,
        ),
{
    assert(crate::events::size_of_all(Seq::empty()) == 0);
    assert(StateView::initial(config, local_peer).shared.log.events =~= seq![
        crate::steps::reachability_event(config.reachability),
    ]);
    lemma_step_silent(state, input, env);
}

/// A private node tells others of relayed addresses only, whatever it listens on.
pub proof fn law_private_nodes_announce_relays(state: StateView, input: Input, env: Env)
    requires
        state.reachability == Reachability::Private,
    ensures
        only_relayed(taken(state, input, env).actions),
{
    lemma_step_silent(state, input, env);
}

/// Classes and limits are the caller's: nothing that happens to a node changes them.
pub proof fn law_only_commands_change_limits(state: StateView, input: Input, env: Env)
    requires
        !(input is Command),
    ensures
        same_limits(state, taken(state, input, env).state),
{
    match input {
        Input::Swarm(SwarmEvent::Kad(event)) => {
            lemma_kad_keeps(state, event, env);
        },
        Input::Swarm(SwarmEvent::Rpc(event)) => {
            lemma_rpc_keeps(state, event, env);
        },
        _ => {},
    }
}

/// Over any run a node stays the same node.
pub proof fn law_identity_is_kept_over_runs(state: StateView, inputs: Seq<(Input, Env)>)
    ensures
        same_node(state, run(state, inputs).0),
    decreases inputs.len(),
{
    if inputs.len() > 0 {
        law_identity_is_kept_over_runs(state, inputs.drop_last());
        let (before, events) = run(state, inputs.drop_last());
        law_identity_is_kept(before, inputs.last().0, inputs.last().1);
    }
}

} // verus!
