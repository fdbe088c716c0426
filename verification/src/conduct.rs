//! What a node does with each thing it is told and each thing that happens to it, said of what goes
//! in and what comes out.

use vstd::prelude::*;

use crate::abi::{
    lp2p_key, LP2P_EVF_LAST, LP2P_EV_DHT_RESULT, LP2P_EV_PEER_DISCOVERED, LP2P_EV_RPC_FAILED,
    LP2P_EV_RPC_RESPONSE, LP2P_FAIL_REFUSED, LP2P_FAIL_TIMEOUT, LP2P_FAIL_UNREACHABLE,
};
use crate::call::{CallView, NextView};
use crate::delegation::Delegation;
use crate::events::Event;
use crate::node::{Command, Config, Reachability};
use crate::steps::{
    ActionView, Env, Failure, KadEvent, PeerInfo, Query, RpcEvent, StateView, Step,
    SwarmEvent,
};

verus! {

/// Whether a peer can be asked right away: a connection is open to it, or an address is known.
pub open spec fn in_reach(state: StateView, env: Env, peer: (u64, Seq<u8>)) -> bool {
    ||| exists|i: int| 0 <= i < env.connected@.len() && (#[trigger] env.connected@[i])@ == peer
    ||| state.book.addresses.contains_key(peer)
}

/// Whether a peer failed a call less than five minutes before.
pub open spec fn failed_lately(state: StateView, peer: (u64, Seq<u8>), now: u64) -> bool {
    &&& state.failed.contains_key(peer)
    &&& now < state.failed[peer] || now - state.failed[peer] < 300_000_000_000
}

/// Whether a call can move on: it waits neither for a response nor for addresses.
pub open spec fn idle(call: CallView) -> bool {
    !call.in_flight && !call.resolving
}

/// Whether two calls are the same but for who is left to ask and what is waited for.
pub open spec fn same_call(a: CallView, b: CallView) -> bool {
    &&& a.group == b.group
    &&& a.protocol == b.protocol
    &&& a.frame == b.frame
    &&& a.deadline == b.deadline
}

/// Whether an event is the report that a call came to nothing, for a reason.
pub open spec fn reports_failure(event: Event, id: u64, call: CallView, reason: u16) -> bool {
    &&& event.header.kind == LP2P_EV_RPC_FAILED
    &&& event.header.id == id
    &&& event.header.group == call.group
    &&& event.header.protocol == call.protocol
    &&& event.header.reason == reason
    &&& event.header.flags == 0
    &&& event.header.node@ == Seq::new(32, |i: int| 0u8)
    &&& event.data.len() == 0
}

/// Whether two states differ in nothing but a call, how many requests were sent, and the log.
pub open spec fn same_but_call(a: StateView, b: StateView, id: u64) -> bool {
    &&& forall|other: u64|
        other != id ==> (#[trigger] a.calls.contains_key(other) == b.calls.contains_key(other)) && (
        a.calls.contains_key(other) ==> a.calls[other] == b.calls[other])
    &&& b == (StateView {
        calls: b.calls,
        shared: crate::node::SharedView { rpc_out: b.shared.rpc_out, ..a.shared },
        ..a
    })
}

proof fn lemma_in_reach(state: StateView, env: Env, peer: (u64, Seq<u8>))
    ensures
        crate::call::dialable(
            crate::address_book::peer_views(env.connected@),
            state.book,
        ).contains(peer) == in_reach(state, env, peer),
{
    let views = crate::address_book::peer_views(env.connected@);
    if views.contains(peer) {
        let i = views.index_of(peer);
        assert(env.connected@[i]@ == peer);
    }
    if exists|i: int| 0 <= i < env.connected@.len() && (#[trigger] env.connected@[i])@ == peer {
        let i = choose|i: int| 0 <= i < env.connected@.len() && (#[trigger] env.connected@[i])@
            == peer;
        assert(views[i] == peer);
    }
}

/// How many candidates are passed over: those that cannot be dialled and were looked up before.
proof fn lemma_next_skips(call: CallView, dialable: Set<(u64, Seq<u8>)>) -> (k: int)
    ensures
        0 <= k <= call.candidates.len(),
        forall|i: int|
            0 <= i < k ==> !dialable.contains(#[trigger] call.candidates[i])
                && call.resolved.contains(call.candidates[i]),
        k < call.candidates.len() ==> dialable.contains(call.candidates[k])
            || !call.resolved.contains(call.candidates[k]),
        ({
            let (after, next) = call.next(dialable);
            if k == call.candidates.len() {
                next == NextView::Nobody && after == (CallView {
                    candidates: Seq::empty(),
                    ..call
                })
            } else if dialable.contains(call.candidates[k]) {
                next == NextView::Send(call.candidates[k]) && after == (CallView {
                    candidates: call.candidates.skip(k + 1),
                    in_flight: true,
                    ..call
                })
            } else {
                next == NextView::Resolve(call.candidates[k]) && after == (CallView {
                    candidates: call.candidates.skip(k),
                    resolved: call.resolved.insert(call.candidates[k]),
                    resolving: true,
                    ..call
                })
            }
        }),
    decreases call.candidates.len(),
{
    if call.candidates.len() == 0 {
        assert(call.candidates =~= Seq::empty());
        return 0;
    }
    let peer = call.candidates[0];
    if dialable.contains(peer) || !call.resolved.contains(peer) {
        assert(call.candidates.skip(0) =~= call.candidates);
        assert(call.candidates.skip(1) =~= call.candidates.drop_first());
        0
    } else {
        let rest = CallView { candidates: call.candidates.drop_first(), ..call };
        let k = lemma_next_skips(rest, dialable);
        assert forall|i: int| 0 <= i < k + 1 implies !dialable.contains(
            #[trigger] call.candidates[i],
        ) && call.resolved.contains(call.candidates[i]) by {
            if i > 0 {
                assert(call.candidates[i] == rest.candidates[i - 1]);
            }
        }
        if k < rest.candidates.len() {
            assert(rest.candidates.skip(k + 1) =~= call.candidates.skip(k + 2));
            assert(rest.candidates.skip(k) =~= call.candidates.skip(k + 1));
        }
        k + 1
    }
}

/// Who is next when a call moves on: the first candidate that can be asked or was not looked up yet.
pub open spec fn is_next(state: StateView, env: Env, call: CallView, k: int) -> bool {
    &&& 0 <= k <= call.candidates.len()
    &&& forall|i: int|
        0 <= i < k ==> !in_reach(state, env, #[trigger] call.candidates[i])
            && call.resolved.contains(call.candidates[i])
    &&& k < call.candidates.len() ==> in_reach(state, env, call.candidates[k])
        || !call.resolved.contains(call.candidates[k])
}

/// A call asks its candidates in their order. The first that can be reached gets the call's frame;
/// one of which no address is known is looked up first, once. When nobody is left the call waits
/// for its lookup, or is reported as failed with what the last attempt came to.
pub proof fn law_candidates_are_asked_in_turn(state: StateView, id: u64, env: Env, k: int)
    requires
        state.calls.contains_key(id),
        idle(state.calls[id]),
        is_next(state, env, state.calls[id], k),
    ensures
        ({
            let call = state.calls[id];
            let step = state.advanced(id, env);
            let after = step.state.calls[id];
            &&& same_but_call(state, step.state, id)
            &&& if k == call.candidates.len() {
                &&& step.actions.len() == 0
                &&& step.state.shared.rpc_out == state.shared.rpc_out
                &&& step.state.calls.contains_key(id) == call.lookup_running
                &&& call.lookup_running ==> step.events.len() == 0 && after == (CallView {
                    candidates: Seq::empty(),
                    ..call
                })
                &&& !call.lookup_running ==> step.events.len() == 1 && reports_failure(
                    step.events[0],
                    id,
                    call,
                    call.last_failure,
                )
            } else {
                let peer = call.candidates[k];
                &&& step.events.len() == 0
                &&& step.state.calls.contains_key(id)
                &&& if in_reach(state, env, peer) {
                    &&& step.actions == seq![
                        ActionView::SendRequest { call: id, peer, frame: call.frame },
                    ]
                    &&& after == (CallView {
                        candidates: call.candidates.skip(k + 1),
                        in_flight: true,
                        ..call
                    })
                    &&& state.shared.rpc_out < u64::MAX ==> step.state.shared.rpc_out
                        == state.shared.rpc_out + 1
                } else {
                    &&& step.actions == seq![ActionView::Resolve { call: id, peer }]
                    &&& after == (CallView {
                        candidates: call.candidates.skip(k),
                        resolved: call.resolved.insert(peer),
                        resolving: true,
                        ..call
                    })
                    &&& step.state.shared.rpc_out == state.shared.rpc_out
                }
            }
        }),
{
    let call = state.calls[id];
    let dialable = crate::call::dialable(
        crate::address_book::peer_views(env.connected@),
        state.book,
    );
    let n = lemma_next_skips(call, dialable);
    assert forall|p: (u64, Seq<u8>)| #[trigger] dialable.contains(p) == in_reach(state, env, p) by {
        lemma_in_reach(state, env, p);
    }
    if n < k {
        assert(!in_reach(state, env, call.candidates[n]));
    } else if k < n {
        assert(!dialable.contains(call.candidates[k]));
    }
    assert(n == k);
    let step = state.advanced(id, env);
    if k == call.candidates.len() && !call.lookup_running {
        assert(step.events[0].header.node@ =~= Seq::new(32, |i: int| 0u8));
    }
}

/// A call that waits for a response or for addresses is left alone, and so is one that is over.
pub proof fn law_waiting_calls_are_left_alone(state: StateView, id: u64, env: Env)
    requires
        state.calls.contains_key(id) ==> !idle(state.calls[id]),
    ensures
        ({
            let step = state.advanced(id, env);
            step.state == state && step.events.len() == 0 && step.actions.len() == 0
        }),
{
}

/// There is always one candidate that is next, or nobody is left.
pub proof fn law_somebody_is_next(state: StateView, env: Env, call: CallView) -> (k: int)
    ensures
        is_next(state, env, call, k),
{
    let dialable = crate::call::dialable(
        crate::address_book::peer_views(env.connected@),
        state.book,
    );
    assert forall|p: (u64, Seq<u8>)| #[trigger] dialable.contains(p) == in_reach(state, env, p) by {
        lemma_in_reach(state, env, p);
    }
    lemma_next_skips(call, dialable)
}

/// Whatever a lookup reports, first or last, nobody it found is lost. Every peer but the node itself
/// has been seen by the call, and one that was not seen before stands among the candidates. Nobody
/// else is queued, who was queued stays, and the flag says no more than whether the lookup goes on.
pub proof fn law_found_providers_are_queued(
    state: StateView,
    id: u64,
    providers: Seq<(u64, Seq<u8>)>,
    last: bool,
    now: u64,
    peer: (u64, Seq<u8>),
)
    requires
        state.calls.contains_key(id),
    ensures
        ({
            let before = state.calls[id];
            let after = state.with_providers(id, providers, last, now);
            let call = after.calls[id];
            let found = providers.contains(peer) && peer != state.local_peer;
            &&& after.calls.contains_key(id)
            &&& call.seen.contains(peer) <==> before.seen.contains(peer) || found
            &&& call.candidates.contains(peer) <==> before.candidates.contains(peer) || (found
                && !before.seen.contains(peer))
            &&& call.lookup_running == (before.lookup_running && !last)
            &&& call == (CallView {
                seen: call.seen,
                candidates: call.candidates,
                lookup_running: call.lookup_running,
                ..before
            })
            &&& after == (StateView { calls: state.calls.insert(id, call), ..state })
        }),
{
    let c = state.calls[id];
    let good = crate::call::last_good(state.last_success, c.group@);
    crate::call::lemma_seen(c, providers, state.local_peer, good, state.failed, now);
    crate::call::lemma_queued_candidates(
        c,
        providers,
        state.local_peer,
        good,
        state.failed,
        now,
        peer,
    );
    lemma_queued_rest(c, providers, state.local_peer, good, state.failed, now);
}

proof fn lemma_queued_rest(
    call: CallView,
    peers: Seq<(u64, Seq<u8>)>,
    except: (u64, Seq<u8>),
    last_good: Option<(u64, Seq<u8>)>,
    failed: crate::call::Failures,
    now: u64,
)
    ensures
        call.enqueued_all(peers, except, last_good, failed, now) == (CallView {
            seen: call.enqueued_all(peers, except, last_good, failed, now).seen,
            candidates: call.enqueued_all(peers, except, last_good, failed, now).candidates,
            ..call
        }),
    decreases peers.len(),
{
    if peers.len() > 0 {
        lemma_queued_rest(call, peers.drop_last(), except, last_good, failed, now);
    }
}

/// Where a peer that a lookup found stands in line: one that failed lately goes to the end; the one
/// that last answered for the group goes to the front; any other goes behind all that have not
/// failed lately and before those that have.
pub proof fn law_place_in_line(
    state: StateView,
    id: u64,
    peer: (u64, Seq<u8>),
    last: bool,
    now: u64,
) -> (at: int)
    requires
        state.calls.contains_key(id),
        peer != state.local_peer,
        !state.calls[id].seen.contains(peer),
    ensures
        ({
            let before = state.calls[id].candidates;
            let group = state.calls[id].group@;
            let good = state.last_success.contains_key(group) && state.last_success[group] == peer;
            let after = state.with_providers(id, seq![peer], last, now).calls[id].candidates;
            &&& 0 <= at <= before.len()
            &&& after == before.insert(at, peer)
            &&& if failed_lately(state, peer, now) {
                at == before.len()
            } else if good {
                at == 0
            } else {
                &&& forall|i: int| 0 <= i < at ==> !failed_lately(state, #[trigger] before[i], now)
                &&& at < before.len() ==> failed_lately(state, before[at], now)
            }
        }),
{
    let call = state.calls[id];
    let before = call.candidates;
    let good = crate::call::last_good(state.last_success, call.group@);
    let one = seq![peer];
    assert(one.drop_last() =~= Seq::empty());
    assert(call.enqueued_all(one.drop_last(), state.local_peer, good, state.failed, now) == call);
    crate::call::lemma_first_penalized(before, state.failed, now, 0);
    let at = if failed_lately(state, peer, now) {
        before.len() as int
    } else if good == Some(peer) {
        0
    } else {
        crate::call::first_penalized(before, state.failed, now, 0)
    };
    assert(state.with_providers(id, one, last, now).calls[id].candidates =~= before.insert(
        at,
        peer,
    ));
    at
}

/// Reports add up: what two reports queue is what one report of both would, in the order reported.
/// A report of nobody, or of a peer that was seen, or of the node itself, queues nobody.
pub proof fn law_reports_add_up(
    state: StateView,
    id: u64,
    first: Seq<(u64, Seq<u8>)>,
    second: Seq<(u64, Seq<u8>)>,
    last: bool,
    now: u64,
)
    requires
        state.calls.contains_key(id),
    ensures
        state.with_providers(id, first, false, now).with_providers(id, second, last, now)
            == state.with_providers(id, first + second, last, now),
        (forall|i: int|
            0 <= i < second.len() ==> #[trigger] second[i] == state.local_peer
                || state.calls[id].seen.contains(second[i]))
            ==> state.with_providers(id, second, last, now).calls[id].candidates
            == state.calls[id].candidates,
    decreases second.len(),
{
    let c = state.calls[id];
    let good = crate::call::last_good(state.last_success, c.group@);
    let middle = state.with_providers(id, first, false, now).calls[id];
    lemma_queued_rest(c, first, state.local_peer, good, state.failed, now);
    assert(middle == c.enqueued_all(first, state.local_peer, good, state.failed, now));
    lemma_queued_join(c, first, second, state.local_peer, good, state.failed, now);
    assert(state.with_providers(id, first, false, now).with_providers(id, second, last, now)
        =~= state.with_providers(id, first + second, last, now));
    if forall|i: int|
        0 <= i < second.len() ==> #[trigger] second[i] == state.local_peer
            || state.calls[id].seen.contains(second[i]) {
        lemma_nobody_new(c, second, state.local_peer, good, state.failed, now);
    }
}

proof fn lemma_queued_join(
    call: CallView,
    first: Seq<(u64, Seq<u8>)>,
    second: Seq<(u64, Seq<u8>)>,
    except: (u64, Seq<u8>),
    last_good: Option<(u64, Seq<u8>)>,
    failed: crate::call::Failures,
    now: u64,
)
    ensures
        call.enqueued_all(first, except, last_good, failed, now).enqueued_all(
            second,
            except,
            last_good,
            failed,
            now,
        ) == call.enqueued_all(first + second, except, last_good, failed, now),
    decreases second.len(),
{
    if second.len() == 0 {
        assert(first + second =~= first);
    } else {
        lemma_queued_join(call, first, second.drop_last(), except, last_good, failed, now);
        assert((first + second).drop_last() =~= first + second.drop_last());
    }
}

proof fn lemma_nobody_new(
    call: CallView,
    peers: Seq<(u64, Seq<u8>)>,
    except: (u64, Seq<u8>),
    last_good: Option<(u64, Seq<u8>)>,
    failed: crate::call::Failures,
    now: u64,
)
    requires
        forall|i: int|
            0 <= i < peers.len() ==> #[trigger] peers[i] == except || call.seen.contains(peers[i]),
    ensures
        call.enqueued_all(peers, except, last_good, failed, now) == call,
    decreases peers.len(),
{
    if peers.len() > 0 {
        let init = peers.drop_last();
        assert forall|i: int| 0 <= i < init.len() implies #[trigger] init[i] == except
            || call.seen.contains(init[i]) by {
            assert(init[i] == peers[i]);
        }
        lemma_nobody_new(call, init, except, last_good, failed, now);
        assert(peers[peers.len() - 1] == peers.last());
    }
}

/// What a lookup reports for a call.
pub open spec fn report(id: u64, providers: Vec<crate::keys::PeerId>, last: bool) -> KadEvent {
    KadEvent::Providers { query: Some(Query::Providers { call: id }), providers, last }
}

/// Whether a peer is among those reported.
pub open spec fn among(peer: (u64, Seq<u8>), providers: Seq<crate::keys::PeerId>) -> bool {
    exists|i: int| 0 <= i < providers.len() && (#[trigger] providers[i])@ == peer
}

proof fn lemma_among(peer: (u64, Seq<u8>), providers: Seq<crate::keys::PeerId>)
    ensures
        crate::address_book::peer_views(providers).contains(peer) == among(peer, providers),
{
    let views = crate::address_book::peer_views(providers);
    if views.contains(peer) {
        let i = views.index_of(peer);
        assert(providers[i]@ == peer);
    }
    if among(peer, providers) {
        let i = choose|i: int| 0 <= i < providers.len() && (#[trigger] providers[i])@ == peer;
        assert(views[i] == peer);
    }
}

/// A provider that a lookup finds is put to use at once, whether or not the lookup is done: it is
/// asked, or stands in line behind somebody who is asked or looked up. The call does not fail.
pub proof fn law_found_provider_is_used(
    state: StateView,
    id: u64,
    providers: Vec<crate::keys::PeerId>,
    last: bool,
    env: Env,
    peer: (u64, Seq<u8>),
)
    requires
        state.calls.contains_key(id),
        state.calls[id].wf(),
        among(peer, providers@),
        peer != state.local_peer,
        !state.calls[id].seen.contains(peer),
    ensures
        ({
            let before = state.calls[id];
            let step = state.on_kad(report(id, providers, last), env);
            let after = step.state.calls[id];
            &&& step.state.calls.contains_key(id)
            &&& step.events.len() == 0
            &&& after.seen.contains(peer)
            &&& after.lookup_running == (before.lookup_running && !last)
            &&& after.candidates.contains(peer) || step.actions == seq![
                ActionView::SendRequest { call: id, peer, frame: before.frame },
            ]
            &&& idle(before) ==> step.actions.len() == 1
            &&& same_call(before, after)
            &&& same_but_call(state, step.state, id)
        }),
{
    let views = crate::address_book::peer_views(providers@);
    lemma_among(peer, providers@);
    let queued = state.with_providers(id, views, last, env.now);
    law_found_providers_are_queued(state, id, views, last, env.now, peer);
    let call = queued.calls[id];
    if idle(call) {
        let k = law_somebody_is_next(queued, env, call);
        law_candidates_are_asked_in_turn(queued, id, env, k);
        let j = call.candidates.index_of(peer);
        assert(call.candidates[j] == peer);
        assert(!call.resolved.contains(peer));
        if j > k {
            assert(call.candidates.skip(k + 1)[j - k - 1] == peer);
            assert(call.candidates.skip(k)[j - k] == peer);
        } else if j == k {
            assert(call.candidates.skip(k)[0] == peer);
        }
    } else {
        law_waiting_calls_are_left_alone(queued, id, env);
    }
}

proof fn lemma_first_of_new(
    state: StateView,
    id: u64,
    providers: Vec<crate::keys::PeerId>,
    last: bool,
    env: Env,
    peer: (u64, Seq<u8>),
)
    requires
        state.calls.contains_key(id),
        state.calls[id].wf(),
        state.calls[id].candidates.len() == 0,
        idle(state.calls[id]),
        among(peer, providers@),
        peer != state.local_peer,
        !state.calls[id].seen.contains(peer),
    ensures
        ({
            let queued = state.with_providers(
                id,
                crate::address_book::peer_views(providers@),
                last,
                env.now,
            );
            let first = queued.calls[id].candidates[0];
            let step = state.on_kad(report(id, providers, last), env);
            &&& queued.calls[id].candidates.contains(peer)
            &&& crate::call::failed_last(queued.calls[id].candidates, state.failed, env.now)
            &&& step.actions == seq![
                if in_reach(state, env, first) {
                    ActionView::SendRequest {
                        call: id,
                        peer: first,
                        frame: state.calls[id].frame,
                    }
                } else {
                    ActionView::Resolve { call: id, peer: first }
                },
            ]
        }),
{
    let before = state.calls[id];
    let views = crate::address_book::peer_views(providers@);
    lemma_among(peer, providers@);
    let queued = state.with_providers(id, views, last, env.now);
    let good = crate::call::last_good(state.last_success, before.group@);
    law_found_providers_are_queued(state, id, views, last, env.now, peer);
    crate::call::law_providers_in_order(
        before,
        views,
        state.local_peer,
        good,
        state.failed,
        env.now,
    );
    let call = queued.calls[id];
    let first = call.candidates[0];
    law_found_providers_are_queued(state, id, views, last, env.now, first);
    assert(call.candidates.contains(first));
    assert(!before.candidates.contains(first));
    assert(!call.resolved.contains(first));
    law_candidates_are_asked_in_turn(queued, id, env, 0);
    assert(in_reach(queued, env, first) == in_reach(state, env, first));
}

/// The node that last answered for a group is the first to be asked when a lookup finds it again,
/// unless it has failed since, whoever else is found and in whatever order.
pub proof fn law_last_good_node_is_asked_first(
    state: StateView,
    id: u64,
    providers: Vec<crate::keys::PeerId>,
    last: bool,
    env: Env,
    peer: (u64, Seq<u8>),
)
    requires
        state.calls.contains_key(id),
        state.calls[id].wf(),
        state.calls[id].candidates.len() == 0,
        idle(state.calls[id]),
        among(peer, providers@),
        peer != state.local_peer,
        !state.calls[id].seen.contains(peer),
        state.last_success.contains_key(state.calls[id].group@),
        state.last_success[state.calls[id].group@] == peer,
        !failed_lately(state, peer, env.now),
    ensures
        state.on_kad(report(id, providers, last), env).actions == seq![
            if in_reach(state, env, peer) {
                ActionView::SendRequest { call: id, peer, frame: state.calls[id].frame }
            } else {
                ActionView::Resolve { call: id, peer }
            },
        ],
{
    let views = crate::address_book::peer_views(providers@);
    lemma_among(peer, providers@);
    lemma_first_of_new(state, id, providers, last, env, peer);
    lemma_queued_rest(
        state.calls[id],
        views,
        state.local_peer,
        Some(peer),
        state.failed,
        env.now,
    );
    crate::call::law_providers_in_order(
        state.calls[id],
        views,
        state.local_peer,
        Some(peer),
        state.failed,
        env.now,
    );
}

/// As long as a lookup finds somebody who has not failed lately, nobody who has is asked first.
pub proof fn law_failed_nodes_are_asked_last(
    state: StateView,
    id: u64,
    providers: Vec<crate::keys::PeerId>,
    last: bool,
    env: Env,
    peer: (u64, Seq<u8>),
    asked: (u64, Seq<u8>),
)
    requires
        state.calls.contains_key(id),
        state.calls[id].wf(),
        state.calls[id].candidates.len() == 0,
        idle(state.calls[id]),
        among(peer, providers@),
        peer != state.local_peer,
        !state.calls[id].seen.contains(peer),
        !failed_lately(state, peer, env.now),
        failed_lately(state, asked, env.now),
    ensures
        ({
            let actions = state.on_kad(report(id, providers, last), env).actions;
            &&& !actions.contains(
                ActionView::SendRequest { call: id, peer: asked, frame: state.calls[id].frame },
            )
            &&& !actions.contains(ActionView::Resolve { call: id, peer: asked })
        }),
{
    lemma_first_of_new(state, id, providers, last, env, peer);
    let candidates = state.with_providers(
        id,
        crate::address_book::peer_views(providers@),
        last,
        env.now,
    ).calls[id].candidates;
    let j = candidates.index_of(peer);
    assert(candidates[j] == peer);
    if j > 0 {
        assert(crate::call::penalized(state.failed, candidates[0], env.now)
            ==> crate::call::penalized(state.failed, candidates[j], env.now));
    }
    assert(candidates[0] != asked);
}

/// Whether a response is good for a call: it is a frame, its delegation is good, and it names the
/// key of the peer that sent it and the group that was called.
pub open spec fn good_for(
    peer: (u64, Seq<u8>),
    group: lp2p_key,
    frame: Seq<u8>,
    unix_ms: u64,
) -> bool {
    let response = crate::wire::response_in(frame)->0;
    let d = crate::delegation::parsed(response.delegation)->Ok_0;
    &&& crate::wire::response_in(frame) is Some
    &&& crate::keys::key_in(peer) is Some
    &&& crate::delegation::parsed(response.delegation) is Ok
    &&& d.checked(unix_ms) is Ok
    &&& d.node@ == crate::keys::key_in(peer)->0
    &&& d.group@ == group@
}

/// A good response ends its call and is reported with what it carries. The peer that answered is
/// forgiven whatever it failed before, and is its group's last good node; what is known of other
/// peers stays.
pub proof fn law_good_response(
    state: StateView,
    id: u64,
    peer: (u64, Seq<u8>),
    frame: Seq<u8>,
    env: Env,
    other: (u64, Seq<u8>),
    now: u64,
)
    requires
        state.calls.contains_key(id),
        good_for(peer, state.calls[id].group, frame, env.unix_ms),
    ensures
        ({
            let call = state.calls[id];
            let step = state.on_response(id, peer, frame, env);
            let event = step.events[0];
            let after = step.state;
            &&& step.actions.len() == 0
            &&& step.events.len() == 1
            &&& event.header.kind == LP2P_EV_RPC_RESPONSE
            &&& event.header.id == id
            &&& event.header.group == call.group
            &&& event.header.node == crate::keys::key_array(crate::keys::key_in(peer)->0)
            &&& event.header.protocol == call.protocol
            &&& event.header.reason == 0
            &&& event.header.flags == 0
            &&& event.data == crate::wire::response_in(frame)->0.payload
            &&& after.calls == state.calls.remove(id)
            &&& !after.failed.contains_key(peer)
            &&& !failed_lately(after, peer, now)
            &&& other != peer ==> (after.failed.contains_key(other) == state.failed.contains_key(
                other,
            )) && (state.failed.contains_key(other) ==> after.failed[other] == state.failed[other])
            &&& after.last_success.contains_key(call.group@)
            &&& after.last_success[call.group@] == peer
            &&& state.last_success.dom().len() < 4096 ==> after.last_success
                == state.last_success.insert(call.group@, peer)
            &&& state.last_success.dom().len() >= 4096 ==> after.last_success.dom()
                == set![call.group@]
            &&& after == (StateView {
                calls: after.calls,
                failed: after.failed,
                last_success: after.last_success,
                ..state
            })
        }),
{
}

/// A peer that answered is asked first the next time its group is looked up and it is found, however
/// it failed before the answer.
pub proof fn law_answer_comes_before_failures(
    state: StateView,
    id: u64,
    peer: (u64, Seq<u8>),
    frame: Seq<u8>,
    env: Env,
    next: u64,
    providers: Vec<crate::keys::PeerId>,
    last: bool,
    later: Env,
)
    requires
        state.calls.contains_key(id),
        good_for(peer, state.calls[id].group, frame, env.unix_ms),
        next != id,
        state.calls.contains_key(next),
        state.calls[next].wf(),
        state.calls[next].group == state.calls[id].group,
        state.calls[next].candidates.len() == 0,
        idle(state.calls[next]),
        among(peer, providers@),
        peer != state.local_peer,
        !state.calls[next].seen.contains(peer),
    ensures
        ({
            let after = state.on_response(id, peer, frame, env).state;
            after.on_kad(report(next, providers, last), later).actions == seq![
                if in_reach(after, later, peer) {
                    ActionView::SendRequest { call: next, peer, frame: state.calls[next].frame }
                } else {
                    ActionView::Resolve { call: next, peer }
                },
            ]
        }),
{
    law_good_response(state, id, peer, frame, env, peer, later.now);
    let after = state.on_response(id, peer, frame, env).state;
    law_last_good_node_is_asked_first(after, next, providers, last, later, peer);
}

/// What is left of what failures were known when another is remembered: all of them, unless there
/// are too many.
proof fn lemma_failure(
    failed: crate::call::Failures,
    peer: (u64, Seq<u8>),
    other: (u64, Seq<u8>),
    now: u64,
)
    ensures
        ({
            let after = crate::steps::with_failure(failed, peer, now);
            &&& after.contains_key(peer)
            &&& after[peer] == now
            &&& other != peer && after.contains_key(other) ==> failed.contains_key(other)
                && after[other] == failed[other]
            &&& other != peer && failed.contains_key(other) && failed.dom().len() < 4096
                ==> after.contains_key(other)
        }),
{
}

/// What a call is after an attempt that came to nothing: it moves on from a state in which the peer
/// has failed now, and the call waits for nothing and remembers why.
pub open spec fn moves_on(
    state: StateView,
    id: u64,
    peer: (u64, Seq<u8>),
    reason: u16,
    env: Env,
    middle: StateView,
    step: Step,
) -> bool {
    &&& middle == (StateView { calls: middle.calls, failed: middle.failed, ..state })
    &&& middle.calls == if state.calls.contains_key(id) {
        state.calls.insert(
            id,
            CallView { in_flight: false, last_failure: reason, ..state.calls[id] },
        )
    } else {
        state.calls
    }
    &&& middle.failed.contains_key(peer)
    &&& middle.failed[peer] == env.now
    &&& forall|other: (u64, Seq<u8>)|
        other != peer && #[trigger] middle.failed.contains_key(other) ==> state.failed.contains_key(
            other,
        ) && middle.failed[other] == state.failed[other]
    &&& forall|other: (u64, Seq<u8>)|
        state.failed.dom().len() < 4096 && #[trigger] state.failed.contains_key(other)
            ==> middle.failed.contains_key(other)
    &&& step == middle.advanced(id, env)
}

/// A response that is not good counts as a failure of the peer that sent it, now: the call moves on
/// to whoever is next, and if nobody is, fails as refused.
pub proof fn law_bad_response(
    state: StateView,
    id: u64,
    peer: (u64, Seq<u8>),
    frame: Seq<u8>,
    env: Env,
) -> (middle: StateView)
    requires
        state.calls.contains_key(id),
        !good_for(peer, state.calls[id].group, frame, env.unix_ms),
    ensures
        moves_on(state, id, peer, 3, env, middle, state.on_response(id, peer, frame, env)),
{
    let middle = StateView {
        failed: crate::steps::with_failure(state.failed, peer, env.now),
        calls: state.calls.insert(
            id,
            CallView {
                in_flight: false,
                last_failure: LP2P_FAIL_REFUSED,
                ..state.calls[id]
            },
        ),
        ..state
    };
    assert forall|other: (u64, Seq<u8>)| other != peer && #[trigger] middle.failed.contains_key(
        other,
    ) implies state.failed.contains_key(other) && middle.failed[other]
        == state.failed[other] by {
        lemma_failure(state.failed, peer, other, env.now);
    }
    lemma_failure(state.failed, peer, peer, env.now);
    middle
}

/// A request that got no response counts as a failure of the peer it was sent to, now, whether or
/// not its call is still under way. The call moves on and remembers why: out of time, refused by a
/// peer that does not speak the protocol, or not reached.
pub proof fn law_failed_attempt(
    state: StateView,
    id: u64,
    peer: crate::keys::PeerId,
    failure: Failure,
    env: Env,
) -> (middle: StateView)
    ensures
        moves_on(
            state,
            id,
            peer@,
            match failure {
                Failure::Timeout => 1,
                Failure::UnsupportedProtocols => 3,
                Failure::Other => 2,
            },
            env,
            middle,
            state.on_rpc(RpcEvent::OutboundFailure { call: Some(id), peer, failure }, env),
        ),
{
    let middle = (StateView {
        failed: crate::steps::with_failure(state.failed, peer@, env.now),
        ..state
    }).with_failed_call(id, crate::steps::reason_of(failure));
    assert forall|other: (u64, Seq<u8>)| other != peer@ && #[trigger] middle.failed.contains_key(
        other,
    ) implies state.failed.contains_key(other) && middle.failed[other]
        == state.failed[other] by {
        lemma_failure(state.failed, peer@, other, env.now);
    }
    lemma_failure(state.failed, peer@, peer@, env.now);
    middle
}

/// What is remembered of failures. As long as there are fewer than 4096 every one is. Then those that
/// are more than five minutes old are forgotten, and where there are none, all others.
pub proof fn law_failures_remembered(
    state: StateView,
    peer: (u64, Seq<u8>),
    other: (u64, Seq<u8>),
    old: (u64, Seq<u8>),
    now: u64,
)
    requires
        state.wf(),
    ensures
        ({
            let after = crate::steps::with_failure(state.failed, peer, now);
            let many = state.failed.dom().len() >= 4096;
            let some_old = state.failed.contains_key(old) && !failed_lately(state, old, now);
            let none_old = forall|p: (u64, Seq<u8>)| #[trigger]
                state.failed.contains_key(p) ==> failed_lately(state, p, now);
            &&& after.contains_key(peer) && after[peer] == now
            &&& other != peer && after.contains_key(other) ==> after[other] == state.failed[other]
            &&& !many && other != peer ==> (after.contains_key(other)
                <==> state.failed.contains_key(other))
            &&& many && some_old && other != peer ==> (after.contains_key(other) <==> failed_lately(
                state,
                other,
                now,
            ))
            &&& many && none_old && other != peer ==> !after.contains_key(other)
        }),
{
    let recent = state.failed.restrict(
        Set::new(|p: (u64, Seq<u8>)| crate::call::penalized(state.failed, p, now)),
    );
    if state.failed.contains_key(old) && !failed_lately(state, old, now) {
        assert(recent.dom().subset_of(state.failed.dom().remove(old)));
        vstd::set_lib::lemma_len_subset(recent.dom(), state.failed.dom().remove(old));
    }
    if forall|p: (u64, Seq<u8>)| #[trigger]
        state.failed.contains_key(p) ==> failed_lately(state, p, now) {
        assert(recent.dom() =~= state.failed.dom()) by {
            assert forall|p: (u64, Seq<u8>)| state.failed.contains_key(p) implies #[trigger]
                recent.contains_key(p) by {
                assert(failed_lately(state, p, now));
            }
        }
    }
}

/// The peer id of a node's key: the identity multihash of the encoded key.
pub open spec fn peer_named(key: lp2p_key) -> (u64, Seq<u8>) {
    (0, seq![0x08u8, 0x01u8, 0x12u8, 0x20u8] + key@)
}

/// The key that a group's nodes are found under: the SHA-256 multihash of the group's key.
pub open spec fn key_of_group(group: lp2p_key) -> Seq<u8> {
    seq![0x12u8, 0x20u8] + crate::outside::sha256(group@)
}

/// A new call carries what it was asked for: who is called, which protocol, by when, and a frame
/// that says who asks, the protocol's name and the payload. A call to a group starts with a lookup
/// of the group's key and nobody in line; a call to a node has that node in line, and nobody else
/// is looked for.
pub proof fn law_new_call(
    state: StateView,
    id: u64,
    group: lp2p_key,
    node: Option<lp2p_key>,
    protocol: u16,
    payload: Vec<u8>,
    timeout: u64,
    env: Env,
) -> (call: CallView)
    requires
        state.wf(),
        protocol < state.rpc_protocols.len(),
    ensures
        ({
            let middle = StateView { calls: state.calls.insert(id, call), ..state };
            let step = state.commanded(
                Command::Rpc { id, group, node, protocol, payload, timeout },
                env,
            );
            let named = match node {
                Some(key) => if crate::outside::ed25519_key_valid(key@) {
                    seq![peer_named(key)]
                } else {
                    Seq::empty()
                },
                None => Seq::empty(),
            };
            &&& call.group == group
            &&& call.protocol == protocol
            &&& crate::wire::request_in(call.frame) == Some(
                crate::wire::RequestView {
                    delegation: state.delegation,
                    protocol: state.rpc_protocols[protocol as int],
                    payload: payload@,
                },
            )
            &&& call.deadline == (if env.now + timeout <= u64::MAX {
                env.now + timeout
            } else {
                u64::MAX as int
            })
            &&& call.candidates == named
            &&& forall|p: (u64, Seq<u8>)| #[trigger] call.seen.contains(p) <==> named.contains(p)
            &&& call.resolved == Set::<(u64, Seq<u8>)>::empty()
            &&& idle(call)
            &&& call.lookup_running == (node is None)
            &&& call.last_failure == LP2P_FAIL_UNREACHABLE
            &&& step.state == middle.advanced(id, env).state
            &&& step.events == middle.advanced(id, env).events
            &&& node is None ==> step.actions == seq![
                ActionView::GetProviders { call: id, key: key_of_group(group) },
            ] && step.events.len() == 0 && step.state.calls.contains_key(id)
            &&& node is Some ==> step.actions == middle.advanced(id, env).actions
        }),
{
    let call = state.new_call(
        group,
        node,
        protocol,
        payload@,
        crate::steps::later(env.now, timeout),
    );
    crate::wire::law_request_read_back(
        crate::wire::RequestView {
            delegation: state.delegation,
            protocol: state.rpc_protocols[protocol as int],
            payload: payload@,
        },
    );
    let middle = StateView { calls: state.calls.insert(id, call), ..state };
    let step = state.commanded(
        Command::Rpc { id, group, node, protocol, payload, timeout },
        env,
    );
    if node is None {
        assert(is_next(middle, env, call, 0));
        law_candidates_are_asked_in_turn(middle, id, env, 0);
        assert(step.actions =~= seq![
            ActionView::GetProviders { call: id, key: key_of_group(group) },
        ]);
    }
    call
}

/// A call to one node goes to that node and nobody else: it is asked, or looked up first where
/// nothing is known of it. Bytes that are no key name nobody, and the call fails at once.
pub proof fn law_named_call(
    state: StateView,
    id: u64,
    group: lp2p_key,
    key: lp2p_key,
    protocol: u16,
    payload: Vec<u8>,
    timeout: u64,
    env: Env,
)
    requires
        state.wf(),
        protocol < state.rpc_protocols.len(),
    ensures
        ({
            let step = state.commanded(
                Command::Rpc { id, group, node: Some(key), protocol, payload, timeout },
                env,
            );
            let peer = peer_named(key);
            if crate::outside::ed25519_key_valid(key@) {
                &&& step.events.len() == 0
                &&& step.actions.len() == 1
                &&& if in_reach(state, env, peer) {
                    step.actions[0] matches ActionView::SendRequest { call, peer: p, frame } && call
                        == id && p == peer && crate::wire::request_in(frame) == Some(
                        crate::wire::RequestView {
                            delegation: state.delegation,
                            protocol: state.rpc_protocols[protocol as int],
                            payload: payload@,
                        },
                    )
                } else {
                    step.actions[0] == (ActionView::Resolve { call: id, peer })
                }
            } else {
                &&& step.actions.len() == 0
                &&& step.events.len() == 1
                &&& step.events[0].header.kind == LP2P_EV_RPC_FAILED
                &&& step.events[0].header.id == id
                &&& step.events[0].header.reason == 2
            }
        }),
{
    let call = law_new_call(state, id, group, Some(key), protocol, payload, timeout, env);
    let middle = StateView { calls: state.calls.insert(id, call), ..state };
    assert(is_next(middle, env, call, 0));
    law_candidates_are_asked_in_turn(middle, id, env, 0);
    assert(in_reach(middle, env, peer_named(key)) == in_reach(state, env, peer_named(key)));
}

/// What a node provides is what others look up: both go by the SHA-256 multihash of the group's key.
pub proof fn law_found_where_provided(
    providing: StateView,
    calling: StateView,
    now: u64,
    id: u64,
    protocol: u16,
    payload: Vec<u8>,
    timeout: u64,
    env: Env,
)
    requires
        calling.wf(),
        protocol < calling.rpc_protocols.len(),
    ensures
        ({
            let step = calling.commanded(
                Command::Rpc { id, group: providing.group, node: None, protocol, payload, timeout },
                env,
            );
            let key = key_of_group(providing.group);
            &&& providing.provided(now).actions == seq![ActionView::Provide { key }]
            &&& providing.provided(now).events.len() == 0
            &&& providing.provided(now).state == (StateView {
                provide_due: false,
                last_provide: Some(now),
                ..providing
            })
            &&& step.actions == seq![ActionView::GetProviders { call: id, key }]
        }),
{
    let _ = law_new_call(calling, id, providing.group, None, protocol, payload, timeout, env);
}

/// A lookup of addresses that is done teaches what it found, and a call that waited for it moves on.
pub proof fn law_looked_up_call_moves_on(
    state: StateView,
    id: u64,
    peers: Vec<PeerInfo>,
    env: Env,
) -> (middle: StateView)
    ensures
        middle == (StateView { book: middle.book, calls: middle.calls, ..state }),
        middle.calls == if state.calls.contains_key(id) {
            state.calls.insert(id, CallView { resolving: false, ..state.calls[id] })
        } else {
            state.calls
        },
        middle.book == state.on_kad(KadEvent::ClosestPeers { query: None, peers }, env).state.book,
        state.on_kad(
            KadEvent::ClosestPeers { query: Some(Query::Resolve { call: id }), peers },
            env,
        ) == middle.advanced(id, env),
{
    (StateView { book: crate::steps::book_with(state.book, peers@), ..state }).with_resolved(id)
}

/// Whether an event reports a peer with its addresses: by its key, with the text of each address in
/// their order and a zero behind each.
pub open spec fn reports_peer(event: Event, id: u64, info: PeerInfo) -> bool {
    &&& event.header.kind == LP2P_EV_PEER_DISCOVERED
    &&& event.header.id == id
    &&& event.header.flags == 0
    &&& event.header.reason == 0
    &&& event.header.protocol == 0
    &&& crate::keys::key_in(info.peer@) is Some ==> event.header.node == crate::keys::key_array(
        crate::keys::key_in(info.peer@)->0,
    )
    &&& crate::keys::key_in(info.peer@) is None ==> event.header.node@ == Seq::new(
        32,
        |i: int| 0u8,
    )
    &&& event.data == lines_of(info.addresses@)
}

/// The texts of addresses in their order, a zero behind each.
pub open spec fn lines_of(addresses: Seq<crate::multiaddr::Multiaddr>) -> Seq<u8>
    decreases addresses.len(),
{
    if addresses.len() == 0 {
        Seq::empty()
    } else {
        vstd::utf8::encode_utf8(crate::outside::multiaddr_text(addresses[0]@)) + seq![0u8]
            + lines_of(addresses.drop_first())
    }
}

/// Texts are written one behind the other: the first address first.
proof fn lemma_lines(addresses: Seq<crate::multiaddr::Multiaddr>)
    ensures
        crate::steps::address_lines(crate::address_book::address_views(addresses)) == lines_of(
            addresses,
        ),
    decreases addresses.len(),
{
    let views = crate::address_book::address_views(addresses);
    if addresses.len() == 0 {
        assert(views =~= Seq::empty());
    } else {
        let rest = addresses.drop_first();
        lemma_lines(rest);
        assert(crate::address_book::address_views(rest) =~= views.drop_first());
        lemma_lines_front(views);
        assert(lines_of(addresses) =~= crate::steps::address_text(views[0]).push(0)
            + crate::steps::address_lines(views.drop_first()));
    }
}

proof fn lemma_lines_front(views: Seq<Seq<u8>>)
    requires
        views.len() > 0,
    ensures
        crate::steps::address_lines(views) == crate::steps::address_text(views[0]).push(0)
            + crate::steps::address_lines(views.drop_first()),
    decreases views.len(),
{
    if views.len() == 1 {
        assert(views.drop_last() =~= Seq::empty());
        assert(views.drop_first() =~= Seq::empty());
        assert(crate::steps::address_lines(views) =~= crate::steps::address_text(views[0]).push(0)
            + crate::steps::address_lines(views.drop_first()));
    } else {
        let init = views.drop_last();
        lemma_lines_front(init);
        assert(init.drop_first() =~= views.drop_first().drop_last());
        assert(crate::steps::address_lines(views) =~= crate::steps::address_text(views[0]).push(0)
            + crate::steps::address_lines(views.drop_first()));
    }
}

proof fn lemma_discovered(id: u64, info: PeerInfo)
    ensures
        reports_peer(
            crate::steps::discovered_event(
                id,
                info.peer@,
                crate::address_book::address_views(info.addresses@),
            ),
            id,
            info,
        ),
{
    lemma_lines(info.addresses@);
    assert(crate::events::no_key()@ =~= Seq::new(32, |i: int| 0u8));
}

/// A sample goes round the routing table: every record names an entry and carries that entry's
/// addresses, no entry comes twice, and there are as many as asked for or as there are. The next
/// sample of the same table starts one entry further on.
pub proof fn law_sample(state: StateView, entries: Seq<PeerInfo>, max: nat, i: int)
    requires
        0 < entries.len() <= usize::MAX,
    ensures
        ({
            let records = state.sample(entries, max);
            let start = state.sample_start(entries.len());
            let n = entries.len() as int;
            &&& records.len() == (if max < entries.len() {
                max
            } else {
                entries.len()
            })
            &&& 0 <= start < n
            &&& start == (state.sample_offset + 1) % n
            &&& 0 <= i < records.len() ==> reports_peer(records[i], 0, entries[(start + i) % n])
        }),
{
    let n = entries.len() as int;
    let start = state.sample_start(entries.len());
    if 0 <= i < state.sample(entries, max).len() {
        lemma_discovered(0, entries[(start + i) % n]);
    }
}

/// Whether an event says that a query is done, and how it went.
pub open spec fn reports_end(event: Event, id: u64, reason: u16) -> bool {
    &&& event.header.kind == LP2P_EV_DHT_RESULT
    &&& event.header.id == id
    &&& event.header.flags == LP2P_EVF_LAST
    &&& event.header.reason == reason
    &&& event.data.len() == 0
}

/// A random walk reports every peer it found, in order, and then that it is done; what it found is
/// learned, and nothing else changes.
pub proof fn law_walk(state: StateView, id: u64, peers: Vec<PeerInfo>, env: Env, i: int)
    ensures
        ({
            let step = state.on_kad(
                KadEvent::ClosestPeers { query: Some(Query::Walk { id }), peers },
                env,
            );
            let n = peers@.len() as int;
            &&& step.actions.len() == 0
            &&& step.events.len() == n + 1
            &&& 0 <= i < n ==> reports_peer(step.events[i], id, peers@[i])
            &&& reports_end(step.events[n], id, 0)
            &&& step.state == (StateView { book: step.state.book, ..state })
        }),
{
    if 0 <= i < peers@.len() {
        lemma_discovered(id, peers@[i]);
    }
}

/// A bootstrap that is done is reported, with whether it ran out of time, and is a reason to provide
/// again; before that nothing happens. One that could not start is reported as not reached.
pub proof fn law_bootstrap(state: StateView, id: u64, ok: bool, env: Env)
    ensures
        ({
            let query = Some(Query::Bootstrap { id });
            let going = state.on_kad(KadEvent::Bootstrap { query, ok, last: false }, env);
            let done = state.on_kad(KadEvent::Bootstrap { query, ok, last: true }, env);
            &&& going.state == state && going.events.len() == 0 && going.actions.len() == 0
            &&& done.state == (StateView { provide_due: true, ..state })
            &&& done.actions.len() == 0
            &&& done.events.len() == 1
            &&& reports_end(
                done.events[0],
                id,
                if ok {
                    0
                } else {
                    LP2P_FAIL_TIMEOUT
                },
            )
            &&& reports_end(
                crate::steps::dht_result(id, LP2P_FAIL_UNREACHABLE),
                id,
                LP2P_FAIL_UNREACHABLE,
            )
        }),
{
}

/// What comes of nobody's query, or of one that is not of its kind, is learned and no more.
pub proof fn law_stray_reports(state: StateView, query: Option<Query>, env: Env, providers: Vec<
    crate::keys::PeerId,
>, peers: Vec<PeerInfo>, last: bool)
    ensures
        !(query matches Some(Query::Providers { .. })) ==> ({
            let step = state.on_kad(KadEvent::Providers { query, providers, last }, env);
            step.state == state && step.events.len() == 0 && step.actions.len() == 0
        }),
        !(query matches Some(Query::Resolve { .. })) && !(query matches Some(Query::Walk { .. }))
            ==> ({
            let step = state.on_kad(KadEvent::ClosestPeers { query, peers }, env);
            step.state == (StateView { book: step.state.book, ..state }) && step.events.len() == 0
                && step.actions.len() == 0
        }),
{
}

/// Which of a node's protocols a name is, the first if it is there twice.
pub open spec fn is_protocol(state: StateView, name: Seq<char>, index: int) -> bool {
    &&& 0 <= index < state.rpc_protocols.len()
    &&& state.rpc_protocols[index] == name
    &&& forall|j: int| 0 <= j < index ==> #[trigger] state.rpc_protocols[j] != name
}

proof fn lemma_protocol_index(protocols: Seq<Seq<char>>, name: Seq<char>, from: int)
    requires
        0 <= from <= protocols.len(),
    ensures
        match crate::steps::protocol_index(protocols, name, from) {
            Some(i) => from <= i < protocols.len() && protocols[i] == name && forall|j: int|
                from <= j < i ==> #[trigger] protocols[j] != name,
            None => forall|j: int| from <= j < protocols.len() ==> #[trigger] protocols[j] != name,
        },
    decreases protocols.len() - from,
{
    if from < protocols.len() && protocols[from] != name {
        lemma_protocol_index(protocols, name, from + 1);
    }
}

/// Whether a request that comes in can be taken: it is a frame, its delegation is good and names the
/// key of the peer that sent it, and its protocol is one of the node's.
pub open spec fn good_request(
    state: StateView,
    peer: (u64, Seq<u8>),
    frame: Seq<u8>,
    unix_ms: u64,
) -> bool {
    let request = crate::wire::request_in(frame)->0;
    let d = crate::delegation::parsed(request.delegation)->Ok_0;
    &&& crate::wire::request_in(frame) is Some
    &&& crate::keys::key_in(peer) is Some
    &&& crate::delegation::parsed(request.delegation) is Ok
    &&& d.checked(unix_ms) is Ok
    &&& d.node@ == crate::keys::key_in(peer)->0
    &&& state.rpc_protocols.contains(request.protocol)
}

/// A request that cannot be taken is refused without a word, and leaves no trace.
pub proof fn law_bad_request(
    state: StateView,
    peer: crate::keys::PeerId,
    ip: Option<crate::multiaddr::Ip>,
    frame: Vec<u8>,
    env: Env,
)
    requires
        !good_request(state, peer@, frame@, env.unix_ms),
    ensures
        ({
            let step = state.on_rpc(RpcEvent::Request { peer, ip, frame }, env);
            step.state == state && step.events.len() == 0 && step.actions.len() == 0
        }),
{
    if crate::wire::request_in(frame@) is Some {
        let name = crate::wire::request_in(frame@)->0.protocol;
        lemma_protocol_index(state.rpc_protocols, name, 0);
        match crate::steps::protocol_index(state.rpc_protocols, name, 0) {
            Some(i) => {
                assert(state.rpc_protocols[i] == name);
                assert(state.rpc_protocols.contains(name));
            },
            None => {},
        }
    }
}

/// A good request is checked against the limits of its group, by the peer that sent it, the address
/// it came from and its protocol. If they have room it is reported under a number of its own, which
/// is held until it is answered; if not it is counted as limited, and reported as that unless there
/// were too many reports.
pub proof fn law_good_request(
    state: StateView,
    peer: crate::keys::PeerId,
    ip: Option<crate::multiaddr::Ip>,
    frame: Vec<u8>,
    env: Env,
    index: int,
)
    requires
        state.wf(),
        good_request(state, peer@, frame@, env.unix_ms),
        is_protocol(state, crate::wire::request_in(frame@)->0.protocol, index),
    ensures
        ({
            let request = crate::wire::request_in(frame@)->0;
            let d = crate::delegation::parsed(request.delegation)->Ok_0;
            let asked = crate::limits::RequestView {
                group: d.group@,
                peer: peer@,
                ip: match ip {
                    Some(ip) => Some(ip@),
                    None => None,
                },
                protocol: index as u16,
            };
            let step = state.on_rpc(RpcEvent::Request { peer, ip, frame }, env);
            let limits = state.limits.checked(asked, env.now);
            let event = step.events[0];
            let id = state.shared.next_id;
            match state.limits.verdict(asked, env.now) {
                Ok(_) => {
                    &&& step.actions == seq![ActionView::HoldInbound { id }]
                    &&& step.events.len() == 1
                    &&& event.header.kind == crate::abi::LP2P_EV_RPC_REQUEST
                    &&& event.header.id == id
                    &&& event.header.group == d.group
                    &&& event.header.node == crate::keys::key_array(crate::keys::key_in(peer@)->0)
                    &&& event.header.protocol == index
                    &&& event.header.reason == 0
                    &&& event.header.flags == 0
                    &&& event.data == request.payload
                    &&& step.state == (StateView {
                        limits,
                        inbound: state.inbound.insert(id),
                        shared: crate::node::SharedView {
                            next_id: step.state.shared.next_id,
                            rpc_in: step.state.shared.rpc_in,
                            ..state.shared
                        },
                        ..state
                    })
                    &&& step.state.shared.next_id != id
                    &&& id < u64::MAX ==> step.state.shared.next_id == id + 1
                    &&& state.shared.rpc_in < u64::MAX ==> step.state.shared.rpc_in
                        == state.shared.rpc_in + 1
                },
                Err(reason) => {
                    &&& step.actions.len() == 0
                    &&& step.events.len() == (if limits.may_report(env.now) {
                        1int
                    } else {
                        0
                    })
                    &&& step.events.len() == 1 ==> {
                        &&& event.header.kind == crate::abi::LP2P_EV_LIMITED
                        &&& event.header.id == 0
                        &&& event.header.group == d.group
                        &&& event.header.node == crate::keys::key_array(
                            crate::keys::key_in(peer@)->0,
                        )
                        &&& event.header.protocol == index
                        &&& event.header.reason == reason
                        &&& event.data.len() == 0
                    }
                    &&& step.state == (StateView {
                        limits: limits.asked_to_report(env.now),
                        shared: crate::node::SharedView {
                            rpc_limited: step.state.shared.rpc_limited,
                            ..state.shared
                        },
                        ..state
                    })
                    &&& state.shared.rpc_limited < u64::MAX ==> step.state.shared.rpc_limited
                        == state.shared.rpc_limited + 1
                },
            }
        }),
{
    lemma_protocol_index(
        state.rpc_protocols,
        crate::wire::request_in(frame@)->0.protocol,
        0,
    );
    let name = crate::wire::request_in(frame@)->0.protocol;
    assert(crate::steps::protocol_index(state.rpc_protocols, name, 0) == Some(index)) by {
        match crate::steps::protocol_index(state.rpc_protocols, name, 0) {
            Some(i) => {
                if i < index {
                    assert(state.rpc_protocols[i] != name);
                } else if index < i {
                    assert(state.rpc_protocols[index] != name);
                }
            },
            None => {
                assert(state.rpc_protocols[index] != name);
            },
        }
    }
}

/// What is answered reaches whoever asked, as long as the request is held: a response carries who
/// answers and the payload, a rejection closes the stream. Either way the request is no longer held,
/// and nothing else changes. For a request that is not held nothing is done.
pub proof fn law_answers(state: StateView, id: u64, payload: Vec<u8>, env: Env)
    requires
        state.wf(),
    ensures
        ({
            let respond = state.commanded(Command::Respond { id, payload }, env);
            let reject = state.commanded(Command::Reject { id }, env);
            let done = StateView { inbound: state.inbound.remove(id), ..state };
            &&& respond.events.len() == 0 && reject.events.len() == 0
            &&& if state.inbound.contains(id) {
                &&& respond.state == done && reject.state == done
                &&& respond.actions.len() == 1
                &&& respond.actions[0] matches ActionView::SendResponse { id: to, frame } && to
                    == id && crate::wire::response_in(frame) == Some(
                    crate::wire::ResponseView { delegation: state.delegation, payload: payload@ },
                )
                &&& reject.actions == seq![ActionView::CloseInbound { id }]
            } else {
                &&& respond.state == state && reject.state == state
                &&& respond.actions.len() == 0 && reject.actions.len() == 0
            }
        }),
{
    crate::wire::law_response_read_back(
        crate::wire::ResponseView { delegation: state.delegation, payload: payload@ },
    );
}

/// A request whose stream is gone is no longer held, and nothing else changes.
pub proof fn law_gone_requests_are_let_go(state: StateView, id: Option<u64>, env: Env)
    ensures
        ({
            let step = state.on_rpc(RpcEvent::InboundDone { id }, env);
            &&& step.events.len() == 0 && step.actions.len() == 0
            &&& id is Some ==> step.state == (StateView {
                inbound: state.inbound.remove(id->0),
                ..state
            })
            &&& id is None ==> step.state == state
        }),
{
}

/// Responses go to the call that the request was sent for; one that belongs to no call under way is
/// dropped. A failure that belongs to no call is remembered all the same.
pub proof fn law_late_outcomes(
    state: StateView,
    call: Option<u64>,
    peer: crate::keys::PeerId,
    frame: Vec<u8>,
    failure: Failure,
    env: Env,
)
    ensures
        ({
            let step = state.on_rpc(RpcEvent::Response { call, peer, frame }, env);
            if call is Some && state.calls.contains_key(call->0) {
                step == state.on_response(call->0, peer@, frame@, env)
            } else {
                step.state == state && step.events.len() == 0 && step.actions.len() == 0
            }
        }),
        call is None ==> ({
            let step = state.on_rpc(RpcEvent::OutboundFailure { call, peer, failure }, env);
            &&& step.events.len() == 0 && step.actions.len() == 0
            &&& step.state.failed.contains_key(peer@)
            &&& step.state.failed[peer@] == env.now
            &&& step.state == (StateView { failed: step.state.failed, ..state })
        }),
{
}

/// What is announced goes out on the topic that the node was started with, whenever it changes, and
/// says who announces and the payload. The same payload is not published again, and a node without
/// announcements publishes nothing.
pub proof fn law_announcing(state: StateView, payload: Vec<u8>, env: Env)
    requires
        state.wf(),
    ensures
        ({
            let step = state.commanded(Command::AnnounceSetPayload { payload }, env);
            &&& step.events.len() == 0
            &&& if state.announce is Some && state.announce->0.payload != Some(payload@) {
                &&& step.actions.len() == 1
                &&& step.actions[0] matches ActionView::Publish { topic, frame } && topic
                    == state.announce->0.topic && crate::wire::response_in(frame) == Some(
                    crate::wire::ResponseView { delegation: state.delegation, payload: payload@ },
                )
                &&& step.state.announce is Some
                &&& step.state.announce->0.topic == state.announce->0.topic
                &&& step.state.announce->0.payload == Some(payload@)
                &&& step.state == (StateView { announce: step.state.announce, ..state })
            } else {
                step.state == state && step.actions.len() == 0
            }
        }),
{
    crate::wire::law_response_read_back(
        crate::wire::ResponseView { delegation: state.delegation, payload: payload@ },
    );
}

/// What becomes of an announcement that is heard. One that is no frame, or that nobody vouches for,
/// is held against whoever sent it and leaves no trace. One of a blocked group is dropped. Any other
/// costs its source a token, and is reported and passed on if there was one.
pub proof fn law_hearing(
    state: StateView,
    source: Option<(u64, Seq<u8>)>,
    frame: Seq<u8>,
    env: Env,
)
    ensures
        ({
            let message = crate::wire::response_in(frame)->0;
            let d = crate::delegation::parsed(message.delegation)->Ok_0;
            let vouched = source is Some && crate::wire::response_in(frame) is Some
                && crate::keys::key_in(source->0) is Some && crate::delegation::parsed(
                message.delegation,
            ) is Ok && d.checked(env.unix_ms) is Ok && d.node@ == crate::keys::key_in(
                source->0,
            )->0;
            let (acceptance, step) = state.heard(source, frame, env);
            let event = step.events[0];
            let blocked = state.limits.classes.contains_key(d.group@)
                && state.limits.classes[d.group@] == 255;
            &&& step.actions.len() == 0
            &&& if !vouched {
                &&& acceptance == crate::steps::Acceptance::Reject
                &&& step.state == state && step.events.len() == 0
            } else if blocked {
                &&& acceptance == crate::steps::Acceptance::Ignore
                &&& step.state == state && step.events.len() == 0
            } else {
                &&& step.state == (StateView {
                    sources: state.sources.asked(source->0, env.now),
                    ..state
                })
                &&& if state.sources.allows(source->0, env.now) {
                    &&& acceptance == crate::steps::Acceptance::Accept
                    &&& step.events.len() == 1
                    &&& event.header.kind == crate::abi::LP2P_EV_ANNOUNCEMENT
                    &&& event.header.group == d.group
                    &&& event.header.node == crate::keys::key_array(
                        crate::keys::key_in(source->0)->0,
                    )
                    &&& event.header.id == 0
                    &&& event.header.reason == 0
                    &&& event.data == message.payload
                } else {
                    acceptance == crate::steps::Acceptance::Ignore && step.events.len() == 0
                }
            }
        }),
{
}

/// Whether an event names a peer, of which it says nothing but some data.
pub open spec fn names_peer(event: Event, kind: u16, peer: (u64, Seq<u8>), data: Seq<u8>) -> bool {
    &&& event.header.kind == kind
    &&& event.header.id == 0
    &&& event.header.flags == 0
    &&& event.header.reason == 0
    &&& event.header.protocol == 0
    &&& crate::keys::key_in(peer) is Some ==> event.header.node == crate::keys::key_array(
        crate::keys::key_in(peer)->0,
    )
    &&& crate::keys::key_in(peer) is None ==> event.header.node@ == Seq::new(32, |i: int| 0u8)
    &&& event.data == data
}

/// A peer is reported as connected with its first connection, by the address of that connection,
/// and as gone with its last; what is in between is not reported. Nothing else changes.
pub proof fn law_peers_come_and_go(
    state: StateView,
    peer: crate::keys::PeerId,
    address: crate::multiaddr::Multiaddr,
    n: u32,
    env: Env,
)
    ensures
        ({
            let come = state.on_swarm(
                SwarmEvent::ConnectionEstablished { peer, address, num_established: n },
                env,
            );
            let gone = state.on_swarm(
                SwarmEvent::ConnectionClosed { peer, num_established: n },
                env,
            );
            &&& come.state == state && gone.state == state
            &&& come.actions.len() == 0 && gone.actions.len() == 0
            &&& come.events.len() == (if n == 1 {
                1int
            } else {
                0
            })
            &&& gone.events.len() == (if n == 0 {
                1int
            } else {
                0
            })
            &&& n == 1 ==> names_peer(
                come.events[0],
                crate::abi::LP2P_EV_PEER_CONNECTED,
                peer@,
                vstd::utf8::encode_utf8(crate::outside::multiaddr_text(address@)),
            )
            &&& n == 0 ==> names_peer(
                gone.events[0],
                crate::abi::LP2P_EV_PEER_DISCONNECTED,
                peer@,
                Seq::empty(),
            )
        }),
{
    assert(crate::events::no_key()@ =~= Seq::new(32, |i: int| 0u8));
}

/// Every address that the node listens on is reported by its text. Others are told to reach the node
/// there exactly if the address is a specific one, and, for a private node, leads through a relay.
pub proof fn law_listening(state: StateView, address: crate::multiaddr::Multiaddr, env: Env)
    ensures
        ({
            let step = state.on_swarm(SwarmEvent::NewListenAddr { address }, env);
            let event = step.events[0];
            let octets = crate::outside::multiaddr_ip(address@);
            let everywhere = octets is Some && forall|i: int|
                0 <= i < octets->0.len() ==> #[trigger] octets->0[i] == 0;
            let relayed = exists|i: int|
                0 <= i < crate::outside::multiaddr_protocols(address@).len()
                    && #[trigger] crate::outside::multiaddr_protocols(address@)[i]
                    == "p2p-circuit"@;
            let told = !everywhere && (state.reachability != Reachability::Private || relayed);
            &&& step.state == state
            &&& step.events.len() == 1
            &&& event.header.kind == crate::abi::LP2P_EV_LISTENING
            &&& event.header.id == 0
            &&& event.header.reason == 0
            &&& event.data == vstd::utf8::encode_utf8(crate::outside::multiaddr_text(address@))
            &&& told ==> step.actions == seq![
                ActionView::AddExternalAddress { address: address@ },
            ]
            &&& !told ==> step.actions.len() == 0
        }),
{
    let octets = crate::outside::multiaddr_ip(address@);
    if octets is Some {
        assert(crate::multiaddr::all_zero(octets->0) <==> forall|i: int|
            0 <= i < octets->0.len() ==> #[trigger] octets->0[i] == 0);
    }
    let protocols = crate::outside::multiaddr_protocols(address@);
    assert(protocols.contains("p2p-circuit"@) <==> exists|i: int|
        0 <= i < protocols.len() && #[trigger] protocols[i] == "p2p-circuit"@);
}

/// Where a peer says it listens is learned. A peer that speaks the node's DHT protocol is told to
/// the DHT, with every address in order; any other is not.
pub proof fn law_identified(
    state: StateView,
    peer: crate::keys::PeerId,
    protocols: Vec<String>,
    listen_addrs: Vec<crate::multiaddr::Multiaddr>,
    env: Env,
    i: int,
)
    ensures
        ({
            let step = state.on_swarm(
                SwarmEvent::Identified { peer, protocols, listen_addrs },
                env,
            );
            let speaks = exists|j: int|
                0 <= j < protocols@.len() && (#[trigger] protocols@[j])@ == state.dht_protocol;
            &&& step.events.len() == 0
            &&& step.state == (StateView {
                book: state.book.added_all(
                    peer@,
                    crate::address_book::address_views(listen_addrs@),
                ),
                ..state
            })
            &&& step.actions.len() == (if speaks {
                listen_addrs@.len()
            } else {
                0
            })
            &&& speaks && 0 <= i < listen_addrs@.len() ==> step.actions[i]
                == (ActionView::AddDhtAddress { peer: peer@, address: listen_addrs@[i]@ })
        }),
{
    let names = crate::node::names(protocols@);
    if names.contains(state.dht_protocol) {
        let j = names.index_of(state.dht_protocol);
        assert(protocols@[j]@ == state.dht_protocol);
    }
    if exists|j: int|
        0 <= j < protocols@.len() && (#[trigger] protocols@[j])@ == state.dht_protocol {
        let j = choose|j: int|
            0 <= j < protocols@.len() && (#[trigger] protocols@[j])@ == state.dht_protocol;
        assert(names[j] == state.dht_protocol);
    }
}

/// What the routing table learns the node learns, and a new peer is a reason to provide again.
pub proof fn law_routing_updates(
    state: StateView,
    peer: crate::keys::PeerId,
    addresses: Vec<crate::multiaddr::Multiaddr>,
    is_new_peer: bool,
    env: Env,
)
    ensures
        ({
            let step = state.on_kad(
                KadEvent::RoutingUpdated { peer, addresses, is_new_peer },
                env,
            );
            &&& step.events.len() == 0 && step.actions.len() == 0
            &&& is_new_peer ==> step.state.provide_due
            &&& !is_new_peer ==> step.state.provide_due == state.provide_due
            &&& step.state == (StateView {
                book: state.book.added_all(
                    peer@,
                    crate::address_book::address_views(addresses@),
                ),
                provide_due: step.state.provide_due,
                ..state
            })
        }),
{
}

/// What a lookup finds is learned peer by peer, in the order found.
pub proof fn law_found_addresses_are_learned(
    book: crate::address_book::BookView,
    first: Seq<PeerInfo>,
    info: PeerInfo,
    second: Seq<PeerInfo>,
)
    ensures
        crate::steps::book_with(book, Seq::empty()) == book,
        crate::steps::book_with(book, seq![info]) == book.added_all(
            info.peer@,
            crate::address_book::address_views(info.addresses@),
        ),
        crate::steps::book_with(crate::steps::book_with(book, first), second)
            == crate::steps::book_with(book, first + second),
    decreases second.len(),
{
    assert(seq![info].drop_last() =~= Seq::empty());
    assert(crate::steps::book_with(book, seq![info].drop_last()) == book);
    if second.len() == 0 {
        assert(first + second =~= first);
    } else {
        law_found_addresses_are_learned(book, first, info, second.drop_last());
        assert((first + second).drop_last() =~= first + second.drop_last());
    }
}

/// Every lookup that is done teaches what it found, whatever it was for.
pub proof fn law_lookups_teach(
    state: StateView,
    query: Option<Query>,
    peers: Vec<PeerInfo>,
    env: Env,
)
    ensures
        state.on_kad(KadEvent::ClosestPeers { query, peers }, env).state.book
            == crate::steps::book_with(state.book, peers@),
{
}

/// What the caller tells of a node's address is learned and told to the DHT; bytes that are no key
/// tell nothing.
pub proof fn law_told_addresses(
    state: StateView,
    node: lp2p_key,
    address: crate::multiaddr::Multiaddr,
    env: Env,
)
    ensures
        ({
            let step = state.commanded(Command::AddAddress { node, address }, env);
            let peer = peer_named(node);
            &&& step.events.len() == 0
            &&& if crate::outside::ed25519_key_valid(node@) {
                &&& step.state == (StateView { book: state.book.added(peer, address@), ..state })
                &&& step.actions == seq![ActionView::AddDhtAddress { peer, address: address@ }]
            } else {
                step.state == state && step.actions.len() == 0
            }
        }),
{
}

/// The other commands do what they say and no more: queries start under their numbers, classes and
/// limits are the caller's to set, and a shutdown is not the node's to act on.
pub proof fn law_plain_commands(
    state: StateView,
    id: u64,
    group: lp2p_key,
    class: u8,
    scope: u8,
    protocol: u16,
    rate: crate::abi::lp2p_rate,
    env: Env,
)
    ensures
        state.commanded(Command::Bootstrap { id }, env) == (Step {
            state,
            events: Seq::empty(),
            actions: seq![ActionView::Bootstrap { id }],
        }),
        state.commanded(Command::RandomWalk { id }, env) == (Step {
            state,
            events: Seq::empty(),
            actions: seq![ActionView::RandomWalk { id }],
        }),
        state.commanded(Command::SetClass { group, class }, env) == (Step {
            state: StateView { limits: state.limits.with_class(group@, class), ..state },
            events: Seq::empty(),
            actions: Seq::empty(),
        }),
        state.commanded(Command::SetLimit { class, scope, protocol, rate }, env) == (Step {
            state: StateView {
                limits: state.limits.with_limit(
                    crate::limits::RuleId { class, scope, protocol },
                    rate,
                ),
                ..state
            },
            events: Seq::empty(),
            actions: Seq::empty(),
        }),
        state.commanded(Command::Shutdown, env) == (Step {
            state,
            events: Seq::empty(),
            actions: Seq::empty(),
        }),
{
}

/// What a tick does. Every call whose time is up is reported as out of time and is over; the provider
/// record goes out if there is a reason to and none went out in the last two seconds; the counts are
/// what they are said to be. Nothing else changes.
pub proof fn law_tick(
    state: StateView,
    now: u64,
    routing: u32,
    peers: u32,
    order: Seq<u64>,
    i: int,
    id: u64,
)
    requires
        crate::steps::is_expiry_order(state.calls, now, order),
    ensures
        order.contains(id) <==> state.calls.contains_key(id) && state.calls[id].deadline <= now,
        order.no_duplicates(),
        ({
            let step = state.ticked(now, routing, peers, order);
            let after = step.state;
            let due = state.provide_due && (state.last_provide is None || (
            state.last_provide->0 <= now && now - state.last_provide->0 >= 2_000_000_000));
            &&& step.events.len() == order.len()
            &&& 0 <= i < order.len() ==> reports_failure(
                step.events[i],
                order[i],
                state.calls[order[i]],
                1,
            )
            &&& after.calls.contains_key(id) <==> state.calls.contains_key(id)
                && state.calls[id].deadline > now
            &&& after.calls.contains_key(id) ==> after.calls[id] == state.calls[id]
            &&& due ==> step.actions == seq![
                ActionView::Provide { key: key_of_group(state.group) },
            ] && !after.provide_due && after.last_provide == Some(now)
            &&& !due ==> step.actions.len() == 0 && after.provide_due == state.provide_due
                && after.last_provide == state.last_provide
            &&& after.shared.routing_table_peers == routing
            &&& after.shared.connections == peers
            &&& after == (StateView {
                calls: after.calls,
                provide_due: after.provide_due,
                last_provide: after.last_provide,
                shared: crate::node::SharedView {
                    routing_table_peers: routing,
                    connections: peers,
                    ..state.shared
                },
                ..state
            })
        }),
{
    assert(order.contains(id) <==> order.to_set().contains(id));
    assert(crate::events::no_key()@ =~= Seq::new(32, |i: int| 0u8));
}

/// What the DHT reports is taken as that, whatever it is.
#[verifier::spinoff_prover]
pub proof fn law_dht_events(state: StateView, event: KadEvent, env: Env)
    ensures
        state.on_swarm(SwarmEvent::Kad(event), env).state == state.on_kad(event, env).state,
        state.on_swarm(SwarmEvent::Kad(event), env).events == state.on_kad(event, env).events,
        state.on_swarm(SwarmEvent::Kad(event), env).actions == state.on_kad(event, env).actions,
{
    let (a, b) = (state.on_swarm(SwarmEvent::Kad(event), env), state.on_kad(event, env));
    lemma_same_step(a, b);
}

/// What the streams of requests report is taken as that, whatever it is.
#[verifier::spinoff_prover]
pub proof fn law_stream_events(state: StateView, event: RpcEvent, env: Env)
    ensures
        state.on_swarm(SwarmEvent::Rpc(event), env).state == state.on_rpc(event, env).state,
        state.on_swarm(SwarmEvent::Rpc(event), env).events == state.on_rpc(event, env).events,
        state.on_swarm(SwarmEvent::Rpc(event), env).actions == state.on_rpc(event, env).actions,
{
    let (a, b) = (state.on_swarm(SwarmEvent::Rpc(event), env), state.on_rpc(event, env));
    lemma_same_step(a, b);
}

/// Steps that are one and the same have everything in common.
proof fn lemma_same_step(a: Step, b: Step)
    requires
        a == b,
    ensures
        a.state == b.state,
        a.events == b.events,
        a.actions == b.actions,
{
}

/// What a node starts as: it is who it was told to be, knows nobody, has no call under way, limits
/// nobody, and has reported whether it can be reached. It announces on the topic it was told, and
/// hears three announcements of a peer at once and then one every ten seconds.
pub proof fn law_start(config: Config, local_peer: (u64, Seq<u8>))
    requires
        config.event_queue_bytes >= 88,
    ensures
        ({
            let state = StateView::initial(config, local_peer);
            let event = state.shared.log.events[0];
            &&& state.local_peer == local_peer
            &&& state.group == config.delegation.group
            &&& state.delegation == config.delegation.bytes()
            &&& state.dht_protocol == config.dht_protocol@
            &&& state.rpc_protocols.len() == config.rpc_protocols@.len()
            &&& forall|i: int|
                0 <= i < config.rpc_protocols@.len() ==> #[trigger] state.rpc_protocols[i]
                    == config.rpc_protocols@[i]@
            &&& state.reachability == config.reachability
            &&& state.calls == Map::<u64, CallView>::empty()
            &&& state.inbound == Set::<u64>::empty()
            &&& state.book.addresses.dom() == Set::<(u64, Seq<u8>)>::empty()
            &&& state.book.order.len() == 0
            &&& state.failed.dom() == Set::<(u64, Seq<u8>)>::empty()
            &&& state.last_success.dom() == Set::<Seq<u8>>::empty()
            &&& !state.provide_due
            &&& state.last_provide is None
            &&& state.limits.rules.len() == 0
            &&& state.limits.classes.dom() == Set::<Seq<u8>>::empty()
            &&& state.limits.events_window is None
            &&& state.announce is Some <==> config.announce is Some
            &&& config.announce is Some ==> state.announce->0.topic == config.announce->0.topic@
                && state.announce->0.payload is None
            &&& state.sources.interval == 10_000_000_000
            &&& state.sources.burst == 3
            &&& state.sources.buckets.dom() == Set::<(u64, Seq<u8>)>::empty()
            &&& state.shared.next_id == 1
            &&& state.shared.rpc_in == 0
            &&& state.shared.rpc_out == 0
            &&& state.shared.rpc_limited == 0
            &&& state.shared.connections == 0
            &&& state.shared.routing_table_peers == 0
            &&& !state.shared.poisoned
            &&& state.shared.log.max_bytes == config.event_queue_bytes
            &&& state.shared.log.dropped == 0
            &&& state.shared.log.closed is None
            &&& state.shared.log.events.len() == 1
            &&& event.header.kind == crate::abi::LP2P_EV_REACHABILITY
            &&& event.header.reason == (match config.reachability {
                Reachability::Unknown => 0,
                Reachability::Public => 1u16,
                Reachability::Private => 2,
            })
            &&& event.data.len() == 0
        }),
{
    assert(crate::events::size_of_all(Seq::empty()) == 0);
}

/// What was reported is there to be polled: an event goes to the end of the log where there is room,
/// and is counted as dropped where there is none. Nothing else changes.
pub proof fn law_reports_are_logged(state: StateView, event: Event)
    ensures
        ({
            let before = state.shared.log;
            let after = state.logged(seq![event]);
            let log = after.shared.log;
            let size = (88 + event.data.len() + 7) / 8 * 8;
            &&& state.logged(Seq::empty()) == state
            &&& after == (StateView {
                shared: crate::node::SharedView { log, ..state.shared },
                ..state
            })
            &&& log.closed == before.closed
            &&& log.max_bytes == before.max_bytes
            &&& if crate::events::size_of_all(before.events) + size <= before.max_bytes {
                log.events == before.events.push(event) && log.dropped == before.dropped
            } else {
                &&& log.events == before.events
                &&& before.dropped < u64::MAX ==> log.dropped == before.dropped + 1
                &&& before.dropped == u64::MAX ==> log.dropped == u64::MAX
            }
        }),
{
    let one = seq![event];
    assert(one.drop_last() =~= Seq::empty());
    assert(state.shared.log.pushed_all(one.drop_last()) == state.shared.log);
    assert(state.logged(Seq::empty()) =~= state);
}

/// Events are logged one after the other.
pub proof fn law_logged_in_order(state: StateView, first: Seq<Event>, second: Seq<Event>)
    ensures
        state.logged(first).logged(second) == state.logged(first + second),
    decreases second.len(),
{
    if second.len() == 0 {
        assert(first + second =~= first);
    } else {
        law_logged_in_order(state, first, second.drop_last());
        assert((first + second).drop_last() =~= first + second.drop_last());
    }
}

} // verus!
