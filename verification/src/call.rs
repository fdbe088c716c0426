//! One call in progress: who is left to try, and what the last attempt said.

use std::collections::VecDeque;

use vstd::prelude::*;

use crate::abi::lp2p_key;
use crate::address_book::AddressBook;
use crate::keys::PeerId;
use crate::table::{Key, Table};

verus! {

/// How long a node that failed a call is asked last, in nanoseconds: five minutes. A provider
/// record outlives its node by up to its TTL, and without this every call to the group would try
/// the dead node first half the time.
pub const FAILURE_PENALTY: u64 = 300_000_000_000;

pub struct Call {
    pub group: lp2p_key,
    pub protocol: u16,
    pub frame: Vec<u8>,
    pub candidates: VecDeque<PeerId>,
    /// Every peer ever queued, so a provider reported twice is tried once.
    pub seen: Table<PeerId, ()>,
    /// Peers whose addresses were already looked up, so a lookup that found nothing is not
    /// repeated.
    pub resolved: Table<PeerId, ()>,
    pub in_flight: bool,
    pub resolving: bool,
    pub lookup_running: bool,
    pub deadline: u64,
    pub last_failure: u16,
}

/// A call as values.
#[verifier::ext_equal]
pub struct CallView {
    pub group: lp2p_key,
    pub protocol: u16,
    pub frame: Seq<u8>,
    pub candidates: Seq<(u64, Seq<u8>)>,
    pub seen: Set<(u64, Seq<u8>)>,
    pub resolved: Set<(u64, Seq<u8>)>,
    pub in_flight: bool,
    pub resolving: bool,
    pub lookup_running: bool,
    pub deadline: u64,
    pub last_failure: u16,
}

impl View for Call {
    type V = CallView;

    open spec fn view(&self) -> CallView {
        CallView {
            group: self.group,
            protocol: self.protocol,
            frame: self.frame@,
            candidates: crate::address_book::peer_views(self.candidates@),
            seen: self.seen@.dom(),
            resolved: self.resolved@.dom(),
            in_flight: self.in_flight,
            resolving: self.resolving,
            lookup_running: self.lookup_running,
            deadline: self.deadline,
            last_failure: self.last_failure,
        }
    }
}

/// The nodes that failed a call, and when.
pub type Failures = Map<(u64, Seq<u8>), u64>;

/// Whether a node failed a call so recently that it is asked last.
pub open spec fn penalized(failed: Failures, peer: (u64, Seq<u8>), now: u64) -> bool {
    failed.contains_key(peer) && crate::limits::elapsed(failed[peer], now) < FAILURE_PENALTY
}

/// The first of the candidates that is asked last; their number if none is.
pub open spec fn first_penalized(
    candidates: Seq<(u64, Seq<u8>)>,
    failed: Failures,
    now: u64,
    from: int,
) -> int
    decreases candidates.len() - from,
{
    if from < 0 || from >= candidates.len() {
        candidates.len() as int
    } else if penalized(failed, candidates[from], now) {
        from
    } else {
        first_penalized(candidates, failed, now, from + 1)
    }
}

/// The candidates with another one: the group's last good node first, recently failed nodes last,
/// the rest in the order they came.
pub open spec fn queued(
    candidates: Seq<(u64, Seq<u8>)>,
    peer: (u64, Seq<u8>),
    last_good: Option<(u64, Seq<u8>)>,
    failed: Failures,
    now: u64,
) -> Seq<(u64, Seq<u8>)> {
    if penalized(failed, peer, now) {
        candidates.push(peer)
    } else if last_good == Some(peer) {
        seq![peer] + candidates
    } else {
        candidates.insert(first_penalized(candidates, failed, now, 0), peer)
    }
}

/// What a call does next.
#[verifier::ext_equal]
pub enum NextView {
    /// Ask this peer.
    Send((u64, Seq<u8>)),
    /// Look this peer's addresses up.
    Resolve((u64, Seq<u8>)),
    /// There is nobody left to ask.
    Nobody,
}

impl CallView {
    /// Every candidate stands in line once and was queued once; what was looked up was queued.
    pub open spec fn wf(self) -> bool {
        &&& self.candidates.no_duplicates()
        &&& forall|i: int|
            0 <= i < self.candidates.len() ==> self.seen.contains(#[trigger] self.candidates[i])
        &&& self.resolved.subset_of(self.seen)
        &&& self.seen.finite()
    }

    /// The call with another candidate, unless it was one before.
    pub open spec fn enqueued(
        self,
        peer: (u64, Seq<u8>),
        last_good: Option<(u64, Seq<u8>)>,
        failed: Failures,
        now: u64,
    ) -> CallView {
        if self.seen.contains(peer) {
            self
        } else {
            CallView {
                seen: self.seen.insert(peer),
                candidates: queued(self.candidates, peer, last_good, failed, now),
                ..self
            }
        }
    }

    /// The call with several candidates but a given one, one after the other.
    pub open spec fn enqueued_all(
        self,
        peers: Seq<(u64, Seq<u8>)>,
        except: (u64, Seq<u8>),
        last_good: Option<(u64, Seq<u8>)>,
        failed: Failures,
        now: u64,
    ) -> CallView
        decreases peers.len(),
    {
        if peers.len() == 0 {
            self
        } else {
            let call = self.enqueued_all(peers.drop_last(), except, last_good, failed, now);
            if peers.last() == except {
                call
            } else {
                call.enqueued(peers.last(), last_good, failed, now)
            }
        }
    }

    /// What the call does next, and the call then: candidates that cannot be dialled are looked up
    /// once, and passed over where that has not helped.
    pub open spec fn next(self, dialable: Set<(u64, Seq<u8>)>) -> (CallView, NextView)
        decreases self.candidates.len(),
    {
        if self.candidates.len() == 0 {
            (self, NextView::Nobody)
        } else {
            let peer = self.candidates[0];
            let rest = CallView { candidates: self.candidates.drop_first(), ..self };
            if dialable.contains(peer) {
                (CallView { in_flight: true, ..rest }, NextView::Send(peer))
            } else if !self.resolved.contains(peer) {
                (
                    CallView { resolved: self.resolved.insert(peer), resolving: true, ..self },
                    NextView::Resolve(peer),
                )
            } else {
                rest.next(dialable)
            }
        }
    }
}

/// Whether recently failed nodes stand behind all others.
pub open spec fn failed_last(
    candidates: Seq<(u64, Seq<u8>)>,
    failed: Failures,
    now: u64,
) -> bool {
    forall|i: int, j: int|
        0 <= i < j < candidates.len() && penalized(failed, #[trigger] candidates[i], now)
            ==> penalized(failed, #[trigger] candidates[j], now)
}

pub proof fn lemma_first_penalized(
    candidates: Seq<(u64, Seq<u8>)>,
    failed: Failures,
    now: u64,
    from: int,
)
    requires
        0 <= from <= candidates.len(),
    ensures
        from <= first_penalized(candidates, failed, now, from) <= candidates.len(),
        forall|i: int|
            from <= i < first_penalized(candidates, failed, now, from) ==> !penalized(
                failed,
                #[trigger] candidates[i],
                now,
            ),
        first_penalized(candidates, failed, now, from) < candidates.len() ==> penalized(
            failed,
            candidates[first_penalized(candidates, failed, now, from)],
            now,
        ),
    decreases candidates.len() - from,
{
    if from < candidates.len() && !penalized(failed, candidates[from], now) {
        lemma_first_penalized(candidates, failed, now, from + 1);
    }
}

/// Queueing keeps the order that calls go by: recently failed nodes stay behind all others, and
/// the group's last good node comes first unless it failed since. Nothing already queued is lost
/// or changes its place among the rest.
pub proof fn law_queue_order(
    call: CallView,
    peer: (u64, Seq<u8>),
    last_good: Option<(u64, Seq<u8>)>,
    failed: Failures,
    now: u64,
)
    requires
        call.wf(),
        failed_last(call.candidates, failed, now),
        !call.seen.contains(peer),
    ensures
        ({
            let after = call.enqueued(peer, last_good, failed, now);
            &&& failed_last(after.candidates, failed, now)
            &&& last_good == Some(peer) && !penalized(failed, peer, now) ==> after.candidates[0]
                == peer
            &&& penalized(failed, peer, now) ==> after.candidates.last() == peer
            &&& after.candidates.len() == call.candidates.len() + 1
            &&& exists|at: int|
                0 <= at <= call.candidates.len() && after.candidates == #[trigger]
                    call.candidates.insert(at, peer)
        }),
{
    let before = call.candidates;
    let after = call.enqueued(peer, last_good, failed, now).candidates;
    lemma_first_penalized(before, failed, now, 0);
    let at = if penalized(failed, peer, now) {
        before.len() as int
    } else if last_good == Some(peer) {
        0
    } else {
        first_penalized(before, failed, now, 0)
    };
    assert(after =~= before.insert(at, peer));
    assert forall|i: int, j: int|
        0 <= i < j < after.len() && penalized(failed, #[trigger] after[i], now) implies penalized(
        failed,
        #[trigger] after[j],
        now,
    ) by {
        let old_i = if i < at {
            i
        } else {
            i - 1
        };
        let old_j = if j < at {
            j
        } else {
            j - 1
        };
        if i != at && j != at {
            assert(after[i] == before[old_i] && after[j] == before[old_j]);
        } else if i == at {
            assert(after[j] == before[old_j]);
        } else {
            assert(after[i] == before[old_i]);
        }
    }
}

/// A call stays in order whatever is queued: a provider reported twice is tried once.
pub proof fn law_queued_once(
    call: CallView,
    peer: (u64, Seq<u8>),
    last_good: Option<(u64, Seq<u8>)>,
    failed: Failures,
    now: u64,
)
    requires
        call.wf(),
    ensures
        call.enqueued(peer, last_good, failed, now).wf(),
        call.enqueued(peer, last_good, failed, now).seen.contains(peer),
        call.enqueued(peer, last_good, failed, now).enqueued(peer, last_good, failed, now)
            == call.enqueued(peer, last_good, failed, now),
{
    if !call.seen.contains(peer) {
        let before = call.candidates;
        let after = call.enqueued(peer, last_good, failed, now);
        lemma_first_penalized(before, failed, now, 0);
        let at = if penalized(failed, peer, now) {
            before.len() as int
        } else if last_good == Some(peer) {
            0
        } else {
            first_penalized(before, failed, now, 0)
        };
        assert(after.candidates =~= before.insert(at, peer));
        assert forall|i: int| 0 <= i < before.len() implies before[i] != peer by {
            assert(call.seen.contains(before[i]));
        }
        assert(after.candidates.no_duplicates());
        assert forall|i: int| 0 <= i < after.candidates.len() implies after.seen.contains(
            #[trigger] after.candidates[i],
        ) by {
            if i < at {
                assert(after.candidates[i] == before[i]);
            } else if i > at {
                assert(after.candidates[i] == before[i - 1]);
            }
        }
    }
}

pub proof fn lemma_enqueued_all(
    call: CallView,
    peers: Seq<(u64, Seq<u8>)>,
    except: (u64, Seq<u8>),
    last_good: Option<(u64, Seq<u8>)>,
    failed: Failures,
    now: u64,
)
    requires
        call.wf(),
    ensures
        call.enqueued_all(peers, except, last_good, failed, now).wf(),
        call.enqueued_all(peers, except, last_good, failed, now) == (CallView {
            seen: call.enqueued_all(peers, except, last_good, failed, now).seen,
            candidates: call.enqueued_all(peers, except, last_good, failed, now).candidates,
            ..call
        }),
    decreases peers.len(),
{
    if peers.len() > 0 {
        lemma_enqueued_all(call, peers.drop_last(), except, last_good, failed, now);
        law_queued_once(
            call.enqueued_all(peers.drop_last(), except, last_good, failed, now),
            peers.last(),
            last_good,
            failed,
            now,
        );
    }
}

/// Whoever is asked next was queued, is asked in turn, and can be dialled; whoever is looked up
/// next was not looked up before. The call says whether it waits, and for what.
pub proof fn law_next_candidate(call: CallView, dialable: Set<(u64, Seq<u8>)>)
    requires
        call.wf(),
        !call.in_flight,
        !call.resolving,
    ensures
        ({
            let (after, next) = call.next(dialable);
            &&& after.wf()
            &&& after == (CallView {
                candidates: after.candidates,
                resolved: after.resolved,
                in_flight: after.in_flight,
                resolving: after.resolving,
                ..call
            })
            &&& after.in_flight <==> next is Send
            &&& after.resolving <==> next is Resolve
            &&& match next {
                NextView::Send(peer) => call.candidates.contains(peer) && dialable.contains(peer)
                    && !after.candidates.contains(peer) && after.resolved == call.resolved,
                NextView::Resolve(peer) => call.candidates.contains(peer) && !dialable.contains(
                    peer,
                ) && !call.resolved.contains(peer) && after.resolved == call.resolved.insert(peer)
                    && after.candidates.len() > 0 && after.candidates[0] == peer,
                NextView::Nobody => after.candidates.len() == 0 && after.resolved == call.resolved
                    && forall|i: int|
                    0 <= i < call.candidates.len() ==> !dialable.contains(
                        #[trigger] call.candidates[i],
                    ) && call.resolved.contains(call.candidates[i]),
            }
        }),
    decreases call.candidates.len(),
{
    if call.candidates.len() > 0 {
        let peer = call.candidates[0];
        let rest = CallView { candidates: call.candidates.drop_first(), ..call };
        assert(call.candidates.contains(peer));
        assert forall|i: int| 0 <= i < rest.candidates.len() implies call.candidates.contains(
            #[trigger] rest.candidates[i],
        ) && rest.candidates[i] != peer by {
            assert(call.candidates[i + 1] == rest.candidates[i]);
        }
        assert(rest.wf());
        if !dialable.contains(peer) && call.resolved.contains(peer) {
            law_next_candidate(rest, dialable);
            let (after, next) = rest.next(dialable);
            match next {
                NextView::Send(p) => {
                    assert(rest.candidates[rest.candidates.index_of(p)] == p);
                },
                NextView::Resolve(p) => {
                    assert(rest.candidates[rest.candidates.index_of(p)] == p);
                },
                NextView::Nobody => {
                    assert forall|i: int| 0 <= i < call.candidates.len() implies !dialable.contains(
                        #[trigger] call.candidates[i],
                    ) && call.resolved.contains(call.candidates[i]) by {
                        if i > 0 {
                            assert(rest.candidates[i - 1] == call.candidates[i]);
                        }
                    }
                },
            }
        } else if !dialable.contains(peer) {
            assert(call.seen.contains(peer));
        }
    }
}

/// However many providers are found, those that failed recently stand behind all others, and the
/// group's last good node, if it is found and has not failed since, is the first to be asked.
pub proof fn law_providers_in_order(
    call: CallView,
    peers: Seq<(u64, Seq<u8>)>,
    except: (u64, Seq<u8>),
    last_good: Option<(u64, Seq<u8>)>,
    failed: Failures,
    now: u64,
)
    requires
        call.wf(),
        failed_last(call.candidates, failed, now),
    ensures
        ({
            let after = call.enqueued_all(peers, except, last_good, failed, now);
            &&& failed_last(after.candidates, failed, now)
            &&& last_good is Some && peers.contains(last_good->0) && last_good->0 != except
                && !call.seen.contains(last_good->0) && !penalized(failed, last_good->0, now)
                ==> after.candidates.len() > 0 && after.candidates[0] == last_good->0
        }),
    decreases peers.len(),
{
    if peers.len() > 0 {
        let init = peers.drop_last();
        let peer = peers.last();
        let before = call.enqueued_all(init, except, last_good, failed, now);
        law_providers_in_order(call, init, except, last_good, failed, now);
        lemma_enqueued_all(call, init, except, last_good, failed, now);
        lemma_seen(call, init, except, last_good, failed, now);
        if peer != except && !before.seen.contains(peer) {
            law_queue_order(before, peer, last_good, failed, now);
            lemma_first_penalized(before.candidates, failed, now, 0);
        }
        if last_good is Some && peers.contains(last_good->0) && last_good->0 != peer {
            let at = peers.index_of(last_good->0);
            assert(init[at] == last_good->0);
            assert(init.contains(last_good->0));
        }
    }
}

/// What was seen is what was seen before and what was queued.
pub proof fn lemma_seen(
    call: CallView,
    peers: Seq<(u64, Seq<u8>)>,
    except: (u64, Seq<u8>),
    last_good: Option<(u64, Seq<u8>)>,
    failed: Failures,
    now: u64,
)
    ensures
        forall|p: (u64, Seq<u8>)| #[trigger]
            call.enqueued_all(peers, except, last_good, failed, now).seen.contains(p)
                <==> call.seen.contains(p) || (p != except && peers.contains(p)),
    decreases peers.len(),
{
    if peers.len() > 0 {
        let init = peers.drop_last();
        lemma_seen(call, init, except, last_good, failed, now);
        assert forall|p: (u64, Seq<u8>)| #[trigger]
            call.enqueued_all(peers, except, last_good, failed, now).seen.contains(
                p,
            ) <==> call.seen.contains(p) || (p != except && peers.contains(p)) by {
            assert(call.enqueued_all(init, except, last_good, failed, now).seen.contains(p)
                <==> call.seen.contains(p) || (p != except && init.contains(p)));
            if p == peers.last() {
                assert(peers[peers.len() - 1] == p);
            }
            if init.contains(p) {
                assert(peers[init.index_of(p)] == p);
            }
            if peers.contains(p) && p != peers.last() {
                assert(init[peers.index_of(p)] == p);
            }
        }
    }
}

/// Who stands in line is who stood there before and who was queued and not seen before.
pub proof fn lemma_queued_candidates(
    call: CallView,
    peers: Seq<(u64, Seq<u8>)>,
    except: (u64, Seq<u8>),
    last_good: Option<(u64, Seq<u8>)>,
    failed: Failures,
    now: u64,
    p: (u64, Seq<u8>),
)
    ensures
        call.enqueued_all(peers, except, last_good, failed, now).candidates.contains(p)
            <==> call.candidates.contains(p) || (p != except && peers.contains(p)
            && !call.seen.contains(p)),
    decreases peers.len(),
{
    if peers.len() > 0 {
        let init = peers.drop_last();
        let peer = peers.last();
        let before = call.enqueued_all(init, except, last_good, failed, now);
        let after = call.enqueued_all(peers, except, last_good, failed, now);
        lemma_queued_candidates(call, init, except, last_good, failed, now, p);
        lemma_seen(call, init, except, last_good, failed, now);
        assert(peers.contains(p) <==> init.contains(p) || p == peer) by {
            assert(peers =~= init.push(peer));
            if init.contains(p) {
                assert(peers[init.index_of(p)] == p);
            }
            if peers.contains(p) && p != peer {
                assert(init[peers.index_of(p)] == p);
            }
            assert(peers[peers.len() - 1] == peer);
        }
        assert(before.seen.contains(p) <==> call.seen.contains(p) || (p != except
            && init.contains(p)));
        if peer != except && !before.seen.contains(peer) {
            lemma_first_penalized(before.candidates, failed, now, 0);
            let at = if penalized(failed, peer, now) {
                before.candidates.len() as int
            } else if last_good == Some(peer) {
                0
            } else {
                first_penalized(before.candidates, failed, now, 0)
            };
            assert(after.candidates =~= before.candidates.insert(at, peer));
            lemma_insert_contains(before.candidates, at, peer, p);
        }
    }
}

proof fn lemma_insert_contains<A>(s: Seq<A>, at: int, a: A, b: A)
    requires
        0 <= at <= s.len(),
    ensures
        s.insert(at, a).contains(b) <==> s.contains(b) || b == a,
{
    let t = s.insert(at, a);
    assert(t[at] == a);
    if s.contains(b) {
        let i = s.index_of(b);
        assert(t[if i < at {
            i
        } else {
            i + 1
        }] == b);
    }
    if t.contains(b) && b != a {
        let i = t.index_of(b);
        assert(s[if i < at {
            i
        } else {
            i - 1
        }] == b);
    }
}

fn is_penalized(peer: &PeerId, failed: &Table<PeerId, u64>, now: u64) -> (r: bool)
    ensures
        r == penalized(failed@, peer@, now),
{
    match failed.get(peer) {
        Some(at) => now < *at || now - *at < FAILURE_PENALTY,
        None => false,
    }
}

/// Queues `peer` for `call`: the group's last good node first, recently failed nodes last, the
/// rest in the order the DHT reported them.
pub fn enqueue(
    call: &mut Call,
    peer: PeerId,
    last_success: &Table<lp2p_key, PeerId>,
    failed: &Table<PeerId, u64>,
    now: u64,
)
    ensures
        final(call)@ == old(call)@.enqueued(
            peer@,
            last_good(last_success@.map_values(|p: PeerId| p@), old(call).group@),
            failed@,
            now,
        ),
{
    let ghost before = call@;
    let ghost good = last_good(last_success@.map_values(|p: PeerId| p@), call.group@);
    if call.seen.contains(&peer) {
        return;
    }
    call.seen.insert_new(peer.copy(), ());
    let ghost start = call.candidates@;
    let is_last_good = match last_success.get(&call.group) {
        Some(last) => last.same(&peer),
        None => false,
    };
    if is_penalized(&peer, failed, now) {
        call.candidates.push_back(peer);
    } else if is_last_good {
        call.candidates.push_front(peer);
    } else {
        let mut position: usize = 0;
        while position < call.candidates.len() && !is_penalized(
            &call.candidates[position],
            failed,
            now,
        )
            invariant
                call.candidates@ == start,
                position <= start.len(),
                first_penalized(crate::address_book::peer_views(start), failed@, now, 0)
                    == first_penalized(
                    crate::address_book::peer_views(start),
                    failed@,
                    now,
                    position as int,
                ),
            decreases start.len() - position,
        {
            position += 1;
        }
        call.candidates.insert(position, peer);
    }
    assert(call@.candidates =~= queued(before.candidates, peer@, good, failed@, now));
    assert(call@.seen =~= before.seen.insert(peer@));
}

/// The last good node of a group.
pub open spec fn last_good(
    last_success: Map<Seq<u8>, (u64, Seq<u8>)>,
    group: Seq<u8>,
) -> Option<(u64, Seq<u8>)> {
    if last_success.contains_key(group) {
        Some(last_success[group])
    } else {
        None
    }
}

/// What a call does next.
pub enum Next {
    Send(PeerId),
    Resolve(PeerId),
    Nobody,
}

impl View for Next {
    type V = NextView;

    open spec fn view(&self) -> NextView {
        match self {
            Next::Send(peer) => NextView::Send(peer@),
            Next::Resolve(peer) => NextView::Resolve(peer@),
            Next::Nobody => NextView::Nobody,
        }
    }
}

/// The peers that can be dialled: those a connection is open to and those an address is known of.
pub open spec fn dialable(
    connected: Seq<(u64, Seq<u8>)>,
    book: crate::address_book::BookView,
) -> Set<(u64, Seq<u8>)> {
    Set::new(|p: (u64, Seq<u8>)| connected.contains(p) || book.knows(p))
}

fn is_connected(connected: &Vec<PeerId>, peer: &PeerId) -> (r: bool)
    ensures
        r == crate::address_book::peer_views(connected@).contains(peer@),
{
    let mut i: usize = 0;
    while i < connected.len()
        invariant
            i <= connected@.len(),
            forall|j: int| 0 <= j < i ==> (#[trigger] connected@[j])@ != peer@,
        decreases connected@.len() - i,
    {
        if connected[i].same(peer) {
            assert(crate::address_book::peer_views(connected@)[i as int] == peer@);
            return true;
        }
        i += 1;
    }
    assert forall|j: int| 0 <= j < connected@.len() implies crate::address_book::peer_views(
        connected@,
    )[j] != peer@ by {
        assert(connected@[j]@ != peer@);
    }
    false
}

/// Takes the next candidate that can be dialled, or names one whose addresses have to be looked
/// up first.
pub fn next_candidate(call: &mut Call, connected: &Vec<PeerId>, book: &AddressBook) -> (next: Next)
    ensures
        (final(call)@, next@) == old(call)@.next(
            dialable(crate::address_book::peer_views(connected@), book@),
        ),
{
    let ghost d = dialable(crate::address_book::peer_views(connected@), book@);
    let ghost start = call@;
    while call.candidates.len() > 0
        invariant
            d == dialable(crate::address_book::peer_views(connected@), book@),
            call@.next(d) == start.next(d),
            start == old(call)@,
        decreases call.candidates@.len(),
    {
        let ghost before = call@;
        match call.candidates.pop_front() {
            None => {},
            Some(peer) => {
                assert(peer@ == before.candidates[0]);
                assert(crate::address_book::peer_views(call.candidates@)
                    =~= before.candidates.drop_first());
                if is_connected(connected, &peer) || book.knows(&peer) {
                    call.in_flight = true;
                    return Next::Send(peer);
                }
                if !call.resolved.contains(&peer) {
                    call.resolved.insert_new(peer.copy(), ());
                    call.candidates.push_front(peer.copy());
                    call.resolving = true;
                    assert(call@.candidates =~= before.candidates);
                    assert(call@.resolved =~= before.resolved.insert(peer@));
                    return Next::Resolve(peer);
                }
            },
        }
    }
    Next::Nobody
}

} // verus!
