//! A node's state, and the steps it takes: each function takes what was told or what happened,
//! changes the state, and answers what the network is asked to do.

use std::collections::{HashMap, HashSet, VecDeque};

use vstd::prelude::*;

use crate::abi::{
    lp2p_key, LP2P_CLASS_BLOCKED, LP2P_EVF_LAST, LP2P_EV_ANNOUNCEMENT, LP2P_EV_DHT_RESULT,
    LP2P_EV_LIMITED, LP2P_EV_LISTENING, LP2P_EV_PEER_CONNECTED, LP2P_EV_PEER_DISCONNECTED,
    LP2P_EV_PEER_DISCOVERED, LP2P_EV_REACHABILITY, LP2P_EV_RPC_FAILED, LP2P_EV_RPC_REQUEST, LP2P_EV_RPC_RESPONSE,
    LP2P_FAIL_REFUSED, LP2P_FAIL_TIMEOUT, LP2P_FAIL_UNREACHABLE,
};
use crate::address_book::AddressBook;
use crate::bytes::{append_bytes, copy_bytes, same_bytes, same_key, same_text};
use crate::call::{enqueue, next_candidate, Call, Next, FAILURE_PENALTY};
use crate::delegation::Delegation;
use crate::events::{EventBuilder, Record};
use crate::keys::{key_of, peer_id, PeerId};
use crate::limits::{Limits, Request, SourceRate};
use crate::multiaddr::{is_relayed, is_unspecified, Ip, Multiaddr};
use crate::node::{Command, Config, Reachability, Shared};
use crate::outside::sha256_digest;
use crate::steps::{
    Acceptance, Action, Announce, Env, Failure, KadEvent, PeerInfo, Query, RpcEvent, SwarmEvent,
    ANNOUNCE_BURST, ANNOUNCE_INTERVAL, MAX_REMEMBERED, PROVIDE_DEBOUNCE,
};
use crate::table::{Key, Table};
use crate::wire::{decode_request, decode_response, encode_request, encode_response};

verus! {

broadcast use vstd::std_specs::hash::group_hash_axioms;

pub struct State {
    shared: Shared,
    book: AddressBook,
    local_peer: PeerId,
    group: lp2p_key,
    delegation: [u8; 136],
    dht_protocol: String,
    rpc_protocols: Vec<String>,
    reachability: Reachability,
    calls: HashMap<u64, Call>,
    inbound: HashSet<u64>,
    provide_due: bool,
    last_provide: Option<u64>,
    sample_offset: usize,
    last_success: Table<lp2p_key, PeerId>,
    failed: Table<PeerId, u64>,
    limits: Limits,
    announce: Option<Announce>,
    sources: SourceRate,
}

impl View for State {
    type V = crate::steps::StateView;

    closed spec fn view(&self) -> crate::steps::StateView {
        crate::steps::StateView {
            shared: self.shared@,
            book: self.book@,
            local_peer: self.local_peer@,
            group: self.group,
            delegation: self.delegation@,
            dht_protocol: self.dht_protocol@,
            rpc_protocols: crate::node::names(self.rpc_protocols@),
            reachability: self.reachability,
            calls: self.calls@.map_values(|c: Call| c@),
            inbound: self.inbound@,
            provide_due: self.provide_due,
            last_provide: self.last_provide,
            sample_offset: self.sample_offset,
            last_success: self.last_success@.map_values(|p: PeerId| p@),
            failed: self.failed@,
            limits: self.limits@,
            announce: match self.announce {
                Some(announce) => Some(announce@),
                None => None,
            },
            sources: self.sources@,
        }
    }
}

proof fn lemma_log_none(state: crate::steps::StateView)
    ensures
        state.logged(Seq::empty()) == state,
{
    assert(state.logged(Seq::empty()) =~= state);
}

proof fn lemma_log_one(log: crate::events::Log, event: crate::events::Event)
    ensures
        log.pushed_all(seq![event]) == log.pushed(event),
{
    assert(seq![event].drop_last() =~= Seq::<crate::events::Event>::empty());
    assert(log.pushed_all(seq![event].drop_last()) == log);
}

/// The key that a group is found under: the multihash of the group key's digest.
pub fn provider_key(group: &lp2p_key) -> (key: Vec<u8>)
    ensures
        key@ == crate::steps::provider_key(group@),
{
    let mut key: Vec<u8> = Vec::new();
    key.push(0x12);
    key.push(0x20);
    let digest = sha256_digest(group.as_slice());
    append_bytes(&mut key, digest.as_slice());
    assert(key@ =~= crate::steps::provider_key(group@));
    key
}

/// The key that events name a peer by, zeros for a peer that has none.
pub fn peer_key(peer: &PeerId) -> (key: lp2p_key)
    ensures
        key == crate::steps::peer_key(peer@),
{
    match key_of(peer) {
        Some(key) => {
            proof {
                crate::keys::law_key_array(key);
            }
            key
        },
        None => {
            let none: lp2p_key = [0;32];
            none
        },
    }
}

/// The record of a peer and its addresses.
pub fn discovered(id: u64, peer: &PeerId, addresses: &[Multiaddr]) -> (record: Record)
    ensures
        record@.event == crate::steps::discovered_event(
            id,
            peer@,
            crate::address_book::address_views(addresses@),
        ),
{
    let mut data: Vec<u8> = Vec::new();
    let mut i: usize = 0;
    let ghost views = crate::address_book::address_views(addresses@);
    assert(views.take(0) =~= Seq::empty());
    while i < addresses.len()
        invariant
            i <= addresses@.len(),
            views == crate::address_book::address_views(addresses@),
            data@ == crate::steps::address_lines(views.take(i as int)),
        decreases addresses@.len() - i,
    {
        let text = addresses[i].to_text();
        append_bytes(&mut data, text.as_str().as_bytes());
        data.push(0);
        assert(views.take(i + 1).drop_last() =~= views.take(i as int));
        assert(data@ =~= crate::steps::address_lines(views.take(i + 1)));
        i += 1;
    }
    assert(views.take(i as int) =~= views);
    EventBuilder::new(LP2P_EV_PEER_DISCOVERED).id(id).node(peer_key(peer)).data(data.as_slice())
}

fn copy_texts(texts: &Vec<String>) -> (copies: Vec<String>)
    ensures
        crate::node::names(copies@) == crate::node::names(texts@),
{
    let mut copies: Vec<String> = Vec::new();
    let mut i: usize = 0;
    while i < texts.len()
        invariant
            i <= texts@.len(),
            copies@.len() == i,
            forall|j: int| 0 <= j < i ==> (#[trigger] copies@[j])@ == texts@[j]@,
        decreases texts@.len() - i,
    {
        copies.push(texts[i].clone());
        i += 1;
    }
    assert(crate::node::names(copies@) =~= crate::node::names(texts@));
    copies
}

/// Who sent a delegation along, if it is good and names the node that the peer is.
fn sender(peer: &PeerId, delegation: &[u8], unix_ms: u64) -> (r: Option<(lp2p_key, Delegation)>)
    ensures
        r == crate::steps::sender(peer@, delegation@, unix_ms),
{
    let node = match key_of(peer) {
        Some(node) => node,
        None => return None,
    };
    proof {
        crate::keys::law_key_array(node);
    }
    match Delegation::parse(delegation) {
        Ok(d) => if d.verify_for(&node, unix_ms).is_ok() {
            Some((node, d))
        } else {
            None
        },
        Err(_) => None,
    }
}

impl State {
    pub fn new(config: &Config, local_peer: PeerId) -> (state: State)
        requires
            config.wf(),
        ensures
            state@ == crate::steps::StateView::initial(*config, local_peer@),
            state@.wf(),
    {
        let mut state = State {
            shared: Shared::new(config.event_queue_bytes),
            book: AddressBook::new(),
            local_peer,
            group: config.delegation.group,
            delegation: config.delegation.to_bytes(),
            dht_protocol: config.dht_protocol.clone(),
            rpc_protocols: copy_texts(&config.rpc_protocols),
            reachability: config.reachability,
            calls: HashMap::new(),
            inbound: HashSet::new(),
            provide_due: false,
            last_provide: None,
            sample_offset: 0,
            last_success: Table::new(),
            failed: Table::new(),
            limits: Limits::new(),
            announce: match &config.announce {
                Some(announce) => Some(
                    Announce { topic: announce.topic.clone(), payload: None },
                ),
                None => None,
            },
            sources: SourceRate::new(ANNOUNCE_INTERVAL, ANNOUNCE_BURST),
        };
        let ghost silent = state@;
        let record = EventBuilder::new(LP2P_EV_REACHABILITY).reason(
            config.reachability.reason(),
        ).build();
        state.emit(record);
        proof {
            lemma_log_one(silent.shared.log, record@.event);
            assert(silent.shared =~= crate::node::SharedView::initial(config.event_queue_bytes));
            assert(state@ =~= crate::steps::StateView::initial(*config, local_peer@));
        }
        state
    }

    /// What the caller and the node both touch.
    pub fn shared(&self) -> (shared: &Shared)
        ensures
            shared@ == self@.shared,
    {
        &self.shared
    }

    /// What the caller and the node both touch, to change it.
    pub fn shared_mut(&mut self) -> (shared: &mut Shared)
        ensures
            shared@ == old(self)@.shared,
            final(self)@ == (crate::steps::StateView { shared: final(shared)@, ..old(self)@ }),
    {
        &mut self.shared
    }

    /// The addresses that dials are offered.
    pub fn book(&self) -> (book: &AddressBook)
        ensures
            book@ == self@.book,
    {
        &self.book
    }

    /// The addresses that dials are offered, to add some.
    pub fn book_mut(&mut self) -> (book: &mut AddressBook)
        ensures
            book@ == old(self)@.book,
            final(self)@ == (crate::steps::StateView { book: final(book)@, ..old(self)@ }),
    {
        &mut self.book
    }

    fn emit(&mut self, record: Record)
        ensures
            final(self)@ == old(self)@.logged(seq![record@.event]),
            final(self).calls == old(self).calls,
    {
        let ghost before = self@;
        self.shared.events.push(record);
        proof {
            lemma_log_one(before.shared.log, record@.event);
            assert(self@ =~= before.logged(seq![record@.event]));
        }
    }

    /// Announces this node as a provider of its group. libp2p re-publishes on its own schedule;
    /// this covers the moments that schedule misses: start, a first peer, a finished bootstrap.
    pub fn provide(&mut self, now: u64) -> (action: Action)
        requires
            old(self)@.wf(),
        ensures
            final(self)@ == old(self)@.provided(now).state,
            seq![action@] == old(self)@.provided(now).actions,
            final(self)@.wf(),
    {
        let ghost before = self@;
        self.provide_due = false;
        self.last_provide = Some(now);
        assert(self@ =~= before.provided(now).state);
        Action::Provide { key: provider_key(&self.group) }
    }

    /// Sends the call to its next candidate, looks a candidate's addresses up first when nothing
    /// is known about it, or fails the call when nobody is left.
    pub fn advance(&mut self, id: u64, env: &Env) -> (actions: Vec<Action>)
        requires
            old(self)@.wf(),
        ensures
            ({
                let step = old(self)@.advanced(id, *env);
                &&& final(self)@ == step.state.logged(step.events)
                &&& crate::steps::action_views(actions@) == step.actions
            }),
            final(self)@.wf(),
    {
        let ghost before = self@;
        let ghost calls = self.calls@;
        let ghost step = before.advanced(id, *env);
        let mut actions: Vec<Action> = Vec::new();
        proof {
            lemma_log_none(before);
            assert(crate::steps::action_views(actions@) =~= Seq::empty());
        }
        let mut call = match self.calls.remove(&id) {
            Some(call) => call,
            None => {
                assert(self.calls@ =~= calls);
                return actions;
            },
        };
        assert(before.calls.contains_key(id) && before.calls[id] == call@);
        if call.in_flight || call.resolving {
            self.calls.insert(id, call);
            assert(self.calls@ =~= calls);
            return actions;
        }
        let next = next_candidate(&mut call, &env.connected, &self.book);
        proof {
            crate::call::law_next_candidate(
                before.calls[id],
                crate::call::dialable(
                    crate::address_book::peer_views(env.connected@),
                    before.book,
                ),
            );
        }
        match next {
            Next::Send(peer) => {
                let frame = copy_bytes(call.frame.as_slice());
                self.calls.insert(id, call);
                self.shared.rpc_out = self.shared.rpc_out.wrapping_add(1);
                actions.push(Action::SendRequest { call: id, peer, frame });
                proof {
                    assert(self@.calls =~= before.calls.insert(id, call@));
                    assert(self@ =~= step.state);
                    lemma_log_none(step.state);
                    assert(crate::steps::action_views(actions@) =~= step.actions);
                }
            },
            Next::Resolve(peer) => {
                self.calls.insert(id, call);
                actions.push(Action::Resolve { call: id, peer });
                proof {
                    assert(self@.calls =~= before.calls.insert(id, call@));
                    assert(self@ =~= step.state);
                    lemma_log_none(step.state);
                    assert(crate::steps::action_views(actions@) =~= step.actions);
                }
            },
            Next::Nobody => {
                if call.lookup_running {
                    self.calls.insert(id, call);
                    proof {
                        assert(self@.calls =~= before.calls.insert(id, call@));
                        assert(self@ =~= step.state);
                        lemma_log_none(step.state);
                    }
                } else {
                    proof {
                        assert(self@.calls =~= before.calls.remove(id));
                        assert(self@ =~= step.state);
                    }
                    self.emit(
                        EventBuilder::new(LP2P_EV_RPC_FAILED).id(id).group(call.group).protocol(
                            call.protocol,
                        ).reason(call.last_failure).build(),
                    );
                }
            },
        }
        actions
    }

    pub fn command(&mut self, command: Command, env: &Env) -> (actions: Vec<Action>)
        requires
            old(self)@.wf(),
            old(self)@.can_follow(command),
        ensures
            ({
                let step = old(self)@.commanded(command, *env);
                &&& final(self)@ == step.state.logged(step.events)
                &&& crate::steps::action_views(actions@) == step.actions
            }),
            final(self)@.wf(),
    {
        let ghost before = self@;
        let ghost step = before.commanded(command, *env);
        let mut actions: Vec<Action> = Vec::new();
        proof {
            lemma_log_none(before);
            lemma_log_none(step.state);
            assert(crate::steps::action_views(actions@) =~= Seq::empty());
        }
        match command {
            Command::Rpc { id, group, node, protocol, payload, timeout } => {
                return self.request(id, group, node, protocol, payload, timeout, env);
            },
            Command::Respond { id, payload } => {
                if self.inbound.remove(&id) {
                    let frame = encode_response(self.delegation.as_slice(), payload.as_slice());
                    actions.push(Action::SendResponse { id, frame });
                }
            },
            Command::Reject { id } => {
                if self.inbound.remove(&id) {
                    actions.push(Action::CloseInbound { id });
                }
            },
            Command::AddAddress { node, address } => {
                if let Some(peer) = peer_id(&node) {
                    self.book.add(peer.copy(), address.copy());
                    actions.push(Action::AddDhtAddress { peer, address });
                }
            },
            Command::Bootstrap { id } => {
                actions.push(Action::Bootstrap { id });
            },
            Command::RandomWalk { id } => {
                actions.push(Action::RandomWalk { id });
            },
            Command::SetClass { group, class } => {
                self.limits.set_class(group, class);
            },
            Command::SetLimit { class, scope, protocol, rate } => {
                self.limits.set_limit(class, scope, protocol, rate);
            },
            Command::AnnounceSetPayload { payload } => {
                if let Some(action) = self.announce(payload) {
                    actions.push(action);
                }
            },
            Command::Shutdown => {},
        }
        assert(self@ =~= step.state);
        assert(crate::steps::action_views(actions@) =~= step.actions);
        actions
    }

    /// Starts a call: to one node if it is named, else to whoever provides for the group.
    fn request(
        &mut self,
        id: u64,
        group: lp2p_key,
        node: Option<lp2p_key>,
        protocol: u16,
        payload: Vec<u8>,
        timeout: u64,
        env: &Env,
    ) -> (actions: Vec<Action>)
        requires
            old(self)@.wf(),
            protocol < old(self)@.rpc_protocols.len(),
        ensures
            ({
                let step = old(self)@.commanded(
                    Command::Rpc { id, group, node, protocol, payload, timeout },
                    *env,
                );
                &&& final(self)@ == step.state.logged(step.events)
                &&& crate::steps::action_views(actions@) == step.actions
            }),
            final(self)@.wf(),
    {
        let ghost before = self@;
        let deadline: u64 = if timeout <= u64::MAX - env.now {
            env.now + timeout
        } else {
            u64::MAX
        };
        let ghost wanted = before.new_call(group, node, protocol, payload@, deadline);
        proof {
            assert(before.rpc_protocols[protocol as int] == self.rpc_protocols@[protocol as int]@);
        }
        let frame = encode_request(
            self.delegation.as_slice(),
            self.rpc_protocols[protocol as usize].as_str(),
            payload.as_slice(),
        );
        let mut call = Call {
            group,
            protocol,
            frame,
            candidates: VecDeque::new(),
            seen: Table::new(),
            resolved: Table::new(),
            in_flight: false,
            resolving: false,
            lookup_running: false,
            deadline,
            last_failure: LP2P_FAIL_UNREACHABLE,
        };
        let mut actions: Vec<Action> = Vec::new();
        let ghost mut named: Seq<(u64, Seq<u8>)> = Seq::empty();
        match node {
            Some(key) => {
                if let Some(peer) = peer_id(&key) {
                    call.seen.insert_new(peer.copy(), ());
                    call.candidates.push_back(peer);
                    proof {
                        named = seq![peer@];
                    }
                }
            },
            None => {
                actions.push(Action::GetProviders { call: id, key: provider_key(&group) });
                call.lookup_running = true;
            },
        }
        proof {
            assert(call@.candidates =~= named);
            assert(call@.seen =~= named.to_set()) by {
                if named.len() > 0 {
                    assert(named[0] == named[0]);
                    assert(named.to_set().contains(named[0]));
                }
            }
            assert(call@ =~= wanted);
            assert(wanted.wf());
        }
        let ghost first = crate::steps::action_views(actions@);
        self.calls.insert(id, call);
        assert(self@ =~= before.with_call(id, wanted));
        let ghost middle = self@;
        let mut more = self.advance(id, env);
        let ghost rest = crate::steps::action_views(more@);
        actions.append(&mut more);
        proof {
            assert(crate::steps::action_views(actions@) =~= first + rest);
            let step = before.commanded(
                Command::Rpc { id, group, node, protocol, payload, timeout },
                *env,
            );
            assert(first + rest =~= step.actions);
        }
        actions
    }

    /// Announces a payload, unless it is what was announced last.
    fn announce(&mut self, payload: Vec<u8>) -> (action: Option<Action>)
        requires
            old(self)@.wf(),
        ensures
            final(self)@ == old(self)@.announcing(payload@).state,
            match action {
                Some(action) => old(self)@.announcing(payload@).actions == seq![action@],
                None => old(self)@.announcing(payload@).actions == Seq::<
                    crate::steps::ActionView,
                >::empty(),
            },
            final(self)@.wf(),
    {
        let ghost before = self@;
        let (topic, changed) = match &self.announce {
            None => return None,
            Some(announce) => {
                let changed = match &announce.payload {
                    Some(last) => !same_bytes(last.as_slice(), payload.as_slice()),
                    None => true,
                };
                (announce.topic.clone(), changed)
            },
        };
        if !changed {
            return None;
        }
        let frame = encode_response(self.delegation.as_slice(), payload.as_slice());
        let again = topic.clone();
        self.announce = Some(Announce { topic: again, payload: Some(payload) });
        assert(self@ =~= before.announcing(payload@).state);
        Some(Action::Publish { topic, frame })
    }

    /// A bootstrap that could not even start is reported as done.
    pub fn bootstrap_failed(&mut self, id: u64)
        requires
            old(self)@.wf(),
        ensures
            final(self)@ == old(self)@.logged(
                seq![crate::steps::dht_result(id, LP2P_FAIL_UNREACHABLE)],
            ),
            final(self)@.wf(),
    {
        self.emit(
            EventBuilder::new(LP2P_EV_DHT_RESULT).id(id).flags(LP2P_EVF_LAST).reason(
                LP2P_FAIL_UNREACHABLE,
            ).build(),
        );
    }

    /// What has to be done every now and then: calls whose time is up fail, the provider record is
    /// published if it is due, and what callers count is brought up to date.
    pub fn tick(&mut self, now: u64, routing: u32, peers: u32) -> (actions: Vec<Action>)
        requires
            old(self)@.wf(),
        ensures
            exists|order: Seq<u64>|
                #![trigger old(self)@.ticked(now, routing, peers, order)]
                {
                    let step = old(self)@.ticked(now, routing, peers, order);
                    &&& crate::steps::is_expiry_order(old(self)@.calls, now, order)
                    &&& final(self)@ == step.state.logged(step.events)
                    &&& crate::steps::action_views(actions@) == step.actions
                },
            final(self)@.wf(),
    {
        let ghost before = self@;
        let order = self.expired(now);
        let ghost step = before.ticked(now, routing, peers, order@);
        let ghost wanted = |id: u64| crate::steps::failed_event(
            id,
            before.calls[id],
            LP2P_FAIL_TIMEOUT,
        );
        let mut i: usize = 0;
        proof {
            lemma_log_none(before);
            assert(order@.take(0).map_values(wanted) =~= Seq::empty());
            assert(order@.take(0).to_set() =~= Set::empty());
            assert(before.calls.remove_keys(Set::empty()) =~= before.calls);
        }
        while i < order.len()
            invariant
                i <= order@.len(),
                crate::steps::is_expiry_order(before.calls, now, order@),
                wanted == (|id: u64| crate::steps::failed_event(
                    id,
                    before.calls[id],
                    LP2P_FAIL_TIMEOUT,
                )),
                self@ == (crate::steps::StateView {
                    calls: before.calls.remove_keys(order@.take(i as int).to_set()),
                    ..before
                }).logged(order@.take(i as int).map_values(wanted)),
            decreases order@.len() - i,
        {
            let id = order[i];
            let ghost start = self@;
            proof {
                assert(order@.contains(id));
                assert forall|k: int| 0 <= k < i implies order@.take(i as int)[k] != id by {
                    assert(order@[k] != order@[i as int]);
                }
                assert(!order@.take(i as int).to_set().contains(id));
                assert(start.calls.contains_key(id) && start.calls[id] == before.calls[id]);
            }
            if let Some(call) = self.calls.remove(&id) {
                assert(self@.calls =~= start.calls.remove(id));
                self.emit(
                    EventBuilder::new(LP2P_EV_RPC_FAILED).id(id).group(call.group).protocol(
                        call.protocol,
                    ).reason(LP2P_FAIL_TIMEOUT).build(),
                );
                proof {
                    let next = order@.take(i + 1);
                    assert(next.drop_last() =~= order@.take(i as int));
                    assert(next.to_set() =~= order@.take(i as int).to_set().insert(id)) by {
                        assert(next =~= order@.take(i as int).push(id));
                        assert forall|x: u64| next.to_set().contains(x) implies order@.take(
                            i as int,
                        ).to_set().insert(id).contains(x) by {
                            let k = next.index_of(x);
                            if k < i {
                                assert(order@.take(i as int)[k] == x);
                            }
                        }
                        assert forall|x: u64|
                            order@.take(i as int).to_set().insert(id).contains(
                                x,
                            ) implies next.to_set().contains(x) by {
                            if x == id {
                                assert(next[i as int] == x);
                            } else {
                                let k = order@.take(i as int).index_of(x);
                                assert(next[k] == x);
                            }
                        }
                    }
                    assert(before.calls.remove_keys(next.to_set()) =~= start.calls.remove(id));
                    let events = next.map_values(wanted);
                    assert(events.drop_last() =~= order@.take(i as int).map_values(wanted));
                    assert(events.last() == wanted(id));
                    lemma_log_one(start.shared.log, wanted(id));
                    assert(self@ =~= (crate::steps::StateView {
                        calls: before.calls.remove_keys(next.to_set()),
                        ..before
                    }).logged(events));
                }
            }
            i += 1;
        }
        assert(order@.take(i as int) =~= order@);
        let mut actions: Vec<Action> = Vec::new();
        let due = self.provide_due && match self.last_provide {
            Some(at) => now >= at && now - at >= PROVIDE_DEBOUNCE,
            None => true,
        };
        if due {
            let action = self.provide(now);
            actions.push(action);
        }
        self.shared.routing_table_peers = routing;
        self.shared.connections = peers;
        proof {
            assert(order@.map_values(wanted) =~= step.events);
            assert(self@ =~= step.state.logged(step.events));
            assert(crate::steps::action_views(actions@) =~= step.actions);
        }
        actions
    }

    /// The calls whose time is up.
    fn expired(&self, now: u64) -> (order: Vec<u64>)
        ensures
            crate::steps::is_expiry_order(self@.calls, now, order@),
    {
        let mut order: Vec<u64> = Vec::new();
        for id in it: self.calls.keys()
            invariant
                order@.no_duplicates(),
                forall|x: u64| #[trigger]
                    order@.contains(x) <==> (exists|k: int|
                        0 <= k < it.index() && *(#[trigger] it.seq()[k]) == x)
                        && self.calls@.contains_key(x) && self.calls@[x].deadline <= now,
                it.seq().no_duplicates(),
                it.seq().unref().to_set() == self.calls@.dom(),
        {
            let ghost before = order@;
            let ghost at = it.index();
            let ghost x = *id;
            proof {
                assert(it.seq()[at] == id);
                if before.contains(x) {
                    let k = choose|k: int| 0 <= k < at && *(#[trigger] it.seq()[k]) == x;
                    assert(it.seq()[k] == it.seq()[at]);
                }
            }
            let mut up = false;
            if let Some(call) = self.calls.get(id) {
                if call.deadline <= now {
                    order.push(*id);
                    up = true;
                }
            }
            proof {
                assert(it.seq().unref()[at] == x);
                assert(it.seq().unref().to_set().contains(x));
                assert(self.calls@.contains_key(x));
                assert(up == (self.calls@[x].deadline <= now));
                if up {
                    assert(order@ =~= before.push(x));
                    assert(order@.no_duplicates());
                }
                assert forall|y: u64| #[trigger] order@.contains(y) <==> (exists|k: int|
                    0 <= k < at + 1 && *(#[trigger] it.seq()[k]) == y) && self.calls@.contains_key(
                    y,
                ) && self.calls@[y].deadline <= now by {
                    if y == x {
                        assert(*it.seq()[at] == y);
                        if up {
                            assert(order@[order@.len() - 1] == y);
                        }
                    } else {
                        assert(order@.contains(y) <==> before.contains(y)) by {
                            if before.contains(y) {
                                assert(order@[before.index_of(y)] == y);
                            }
                            if order@.contains(y) {
                                assert(before[order@.index_of(y)] == y);
                            }
                        }
                        if exists|k: int| 0 <= k < at + 1 && *(#[trigger] it.seq()[k]) == y {
                            let k = choose|k: int|
                                0 <= k < at + 1 && *(#[trigger] it.seq()[k]) == y;
                            assert(k != at);
                            assert(0 <= k < at && *it.seq()[k] == y);
                        }
                    }
                }
            }
        }
        order
    }

    /// A sample of the routing table. Buckets run from near to far; starting somewhere else on
    /// every call hands out different entry points instead of the same nearest few.
    pub fn routing_sample(&mut self, entries: &Vec<PeerInfo>, max: usize) -> (records: Vec<Record>)
        requires
            old(self)@.wf(),
        ensures
            entries@.len() == 0 ==> records@.len() == 0 && final(self)@ == old(self)@,
            entries@.len() > 0 ==> {
                &&& records@.map_values(|r: Record| r@.event) == old(self)@.sample(
                    entries@,
                    max as nat,
                )
                &&& final(self)@ == (crate::steps::StateView {
                    sample_offset: old(self)@.sample_start(entries@.len()) as usize,
                    ..old(self)@
                })
            },
            final(self)@.wf(),
    {
        let mut records: Vec<Record> = Vec::new();
        let ghost before = self@;
        let len: usize = entries.len();
        if len == 0 {
            return records;
        }
        self.sample_offset = (self.sample_offset + 1) % len;
        let ghost start = before.sample_start(entries@.len());
        assert(self@ =~= (crate::steps::StateView { sample_offset: start as usize, ..before }));
        let count: usize = if max < len {
            max
        } else {
            len
        };
        let mut at: usize = self.sample_offset;
        let mut i: usize = 0;
        proof {
            vstd::arithmetic::div_mod::lemma_small_mod(start as nat, len as nat);
        }
        while i < count
            invariant
                len == entries@.len(),
                len > 0,
                count <= len,
                count == (if max < len {
                    max
                } else {
                    len
                }),
                i <= count,
                start == before.sample_start(entries@.len()),
                0 <= start < len,
                at == (start + i) % len as int,
                records@.len() == i,
                forall|j: int|
                    0 <= j < i ==> (#[trigger] records@[j])@.event == before.sample(
                        entries@,
                        max as nat,
                    )[j],
            decreases count - i,
        {
            let entry = &entries[at];
            records.push(discovered(0, &entry.peer, entry.addresses.as_slice()));
            proof {
                let sum = start + i;
                if sum < len {
                    vstd::arithmetic::div_mod::lemma_small_mod(sum as nat, len as nat);
                    if sum + 1 == len {
                        vstd::arithmetic::div_mod::lemma_mod_self_0(len as int);
                    } else {
                        vstd::arithmetic::div_mod::lemma_small_mod((sum + 1) as nat, len as nat);
                    }
                } else {
                    vstd::arithmetic::div_mod::lemma_mod_sub_multiples_vanish(sum, len as int);
                    vstd::arithmetic::div_mod::lemma_mod_sub_multiples_vanish(
                        sum + 1,
                        len as int,
                    );
                    vstd::arithmetic::div_mod::lemma_small_mod((sum - len) as nat, len as nat);
                    if sum + 1 - len == len {
                        vstd::arithmetic::div_mod::lemma_mod_self_0(len as int);
                    } else {
                        vstd::arithmetic::div_mod::lemma_small_mod(
                            (sum + 1 - len) as nat,
                            len as nat,
                        );
                    }
                }
            }
            at = if at + 1 == len {
                0
            } else {
                at + 1
            };
            i += 1;
        }
        assert(records@.map_values(|r: Record| r@.event) =~= before.sample(entries@, max as nat));
        records
    }

    pub fn swarm_event(&mut self, event: SwarmEvent, env: &Env) -> (actions: Vec<Action>)
        requires
            old(self)@.wf(),
        ensures
            ({
                let step = old(self)@.on_swarm(event, *env);
                &&& final(self)@ == step.state.logged(step.events)
                &&& crate::steps::action_views(actions@) == step.actions
            }),
            final(self)@.wf(),
    {
        match event {
            SwarmEvent::NewListenAddr { address } => self.listening(address, env),
            SwarmEvent::ConnectionEstablished { peer, address, num_established } => self.connected(
                peer,
                address,
                num_established,
                env,
            ),
            SwarmEvent::ConnectionClosed { peer, num_established } => self.disconnected(
                peer,
                num_established,
                env,
            ),
            SwarmEvent::Kad(event) => self.kad_event(event, env),
            SwarmEvent::Identified { peer, protocols, listen_addrs } => self.identified(
                peer,
                protocols,
                listen_addrs,
                env,
            ),
            SwarmEvent::Rpc(event) => self.rpc_event(event, env),
        }
    }

    /// The node listens on another address.
    fn listening(&mut self, address: Multiaddr, env: &Env) -> (actions: Vec<Action>)
        requires
            old(self)@.wf(),
        ensures
            ({
                let step = old(self)@.on_swarm(
                    SwarmEvent::NewListenAddr { address },
                    *env,
                );
                &&& final(self)@ == step.state.logged(step.events)
                &&& crate::steps::action_views(actions@) == step.actions
            }),
            final(self)@.wf(),
    {
        let ghost before = self@;
        let ghost step = before.on_swarm(
            SwarmEvent::NewListenAddr { address },
            *env,
        );
        let mut actions: Vec<Action> = Vec::new();
        proof {
            lemma_log_none(before);
            lemma_log_none(step.state);
            assert(crate::steps::action_views(actions@) =~= Seq::empty());
        }
        // A specific address the node was told to listen on is taken as reachable, unless the node
        // is private and the address is no relay's.
        let text = address.to_text();
        let private = self.reachability == Reachability::Private;
        if !is_unspecified(&address) && (!private || is_relayed(&address)) {
            actions.push(Action::AddExternalAddress { address });
        }
        self.emit(EventBuilder::new(LP2P_EV_LISTENING).data(text.as_str().as_bytes()));
        assert(crate::steps::action_views(actions@) =~= step.actions);
        actions
    }

    /// A connection to a peer is there with `num_established` of them now.
    fn connected(
        &mut self,
        peer: PeerId,
        address: Multiaddr,
        num_established: u32,
        env: &Env,
    ) -> (actions: Vec<Action>)
        requires
            old(self)@.wf(),
        ensures
            ({
                let step = old(self)@.on_swarm(
                    SwarmEvent::ConnectionEstablished { peer, address, num_established },
                    *env,
                );
                &&& final(self)@ == step.state.logged(step.events)
                &&& crate::steps::action_views(actions@) == step.actions
            }),
            final(self)@.wf(),
    {
        let ghost before = self@;
        let ghost step = before.on_swarm(
            SwarmEvent::ConnectionEstablished { peer, address, num_established },
            *env,
        );
        let actions: Vec<Action> = Vec::new();
        proof {
            lemma_log_none(before);
            lemma_log_none(step.state);
            assert(crate::steps::action_views(actions@) =~= Seq::empty());
        }
        if num_established == 1 {
            let text = address.to_text();
            self.emit(
                EventBuilder::new(LP2P_EV_PEER_CONNECTED).node(peer_key(&peer)).data(
                    text.as_str().as_bytes(),
                ),
            );
        }
        actions
    }

    /// A connection to a peer is gone, with `num_established` of them left.
    fn disconnected(&mut self, peer: PeerId, num_established: u32, env: &Env) -> (actions: Vec<
        Action,
    >)
        requires
            old(self)@.wf(),
        ensures
            ({
                let step = old(self)@.on_swarm(
                    SwarmEvent::ConnectionClosed { peer, num_established },
                    *env,
                );
                &&& final(self)@ == step.state.logged(step.events)
                &&& crate::steps::action_views(actions@) == step.actions
            }),
            final(self)@.wf(),
    {
        let ghost before = self@;
        let ghost step = before.on_swarm(
            SwarmEvent::ConnectionClosed { peer, num_established },
            *env,
        );
        let actions: Vec<Action> = Vec::new();
        proof {
            lemma_log_none(before);
            lemma_log_none(step.state);
            assert(crate::steps::action_views(actions@) =~= Seq::empty());
        }
        if num_established == 0 {
            self.emit(
                EventBuilder::new(LP2P_EV_PEER_DISCONNECTED).node(peer_key(&peer)).build(),
            );
        }
        actions
    }

    /// A peer has said what it speaks and where it listens.
    fn identified(
        &mut self,
        peer: PeerId,
        protocols: Vec<String>,
        listen_addrs: Vec<Multiaddr>,
        env: &Env,
    ) -> (actions: Vec<Action>)
        requires
            old(self)@.wf(),
        ensures
            ({
                let step = old(self)@.on_swarm(
                    SwarmEvent::Identified { peer, protocols, listen_addrs },
                    *env,
                );
                &&& final(self)@ == step.state.logged(step.events)
                &&& crate::steps::action_views(actions@) == step.actions
            }),
            final(self)@.wf(),
    {
        let ghost before = self@;
        let ghost step = before.on_swarm(
            SwarmEvent::Identified { peer, protocols, listen_addrs },
            *env,
        );
        let mut actions: Vec<Action> = Vec::new();
        proof {
            lemma_log_none(before);
            lemma_log_none(step.state);
            assert(crate::steps::action_views(actions@) =~= Seq::empty());
        }
        let speaks_dht = self.speaks_dht(&protocols);
        self.learn(&peer, &listen_addrs);
        if speaks_dht {
            let mut i: usize = 0;
            while i < listen_addrs.len()
                invariant
                    i <= listen_addrs@.len(),
                    actions@.len() == i,
                    forall|j: int|
                        0 <= j < i ==> (#[trigger] actions@[j])@
                            == (crate::steps::ActionView::AddDhtAddress {
                            peer: peer@,
                            address: listen_addrs@[j]@,
                        }),
                decreases listen_addrs@.len() - i,
            {
                actions.push(
                    Action::AddDhtAddress { peer: peer.copy(), address: listen_addrs[i].copy() },
                );
                i += 1;
            }
        }
        assert(crate::steps::action_views(actions@) =~= step.actions);
        actions
    }

    /// Whether the node's DHT is among the protocols.
    fn speaks_dht(&self, protocols: &Vec<String>) -> (r: bool)
        ensures
            r == crate::node::names(protocols@).contains(self@.dht_protocol),
    {
        let mut i: usize = 0;
        while i < protocols.len()
            invariant
                i <= protocols@.len(),
                forall|j: int| 0 <= j < i ==> (#[trigger] protocols@[j])@ != self.dht_protocol@,
            decreases protocols@.len() - i,
        {
            if same_text(protocols[i].as_str(), self.dht_protocol.as_str()) {
                assert(crate::node::names(protocols@)[i as int] == self.dht_protocol@);
                return true;
            }
            i += 1;
        }
        assert forall|j: int| 0 <= j < protocols@.len() implies crate::node::names(protocols@)[j]
            != self.dht_protocol@ by {
            assert(protocols@[j]@ != self.dht_protocol@);
        }
        false
    }

    /// Adds addresses of a peer to the book.
    fn learn(&mut self, peer: &PeerId, addresses: &Vec<Multiaddr>)
        requires
            old(self)@.wf(),
        ensures
            final(self)@ == (crate::steps::StateView {
                book: old(self)@.book.added_all(
                    peer@,
                    crate::address_book::address_views(addresses@),
                ),
                ..old(self)@
            }),
            final(self)@.wf(),
    {
        let ghost before = self@;
        let ghost views = crate::address_book::address_views(addresses@);
        let mut i: usize = 0;
        assert(views.take(0) =~= Seq::empty());
        while i < addresses.len()
            invariant
                i <= addresses@.len(),
                views == crate::address_book::address_views(addresses@),
                self@ == (crate::steps::StateView {
                    book: before.book.added_all(peer@, views.take(i as int)),
                    ..before
                }),
                before.wf(),
                self@.book.wf(),
            decreases addresses@.len() - i,
        {
            let ghost start = self@;
            self.book.add(peer.copy(), addresses[i].copy());
            proof {
                assert(views.take(i + 1).drop_last() =~= views.take(i as int));
                assert(self@ =~= (crate::steps::StateView {
                    book: before.book.added_all(peer@, views.take(i + 1)),
                    ..before
                }));
            }
            i += 1;
        }
        assert(views.take(i as int) =~= views);
    }

    /// Adds what a lookup found to the book.
    fn learn_all(&mut self, peers: &Vec<PeerInfo>)
        requires
            old(self)@.wf(),
        ensures
            final(self)@ == (crate::steps::StateView {
                book: crate::steps::book_with(old(self)@.book, peers@),
                ..old(self)@
            }),
            final(self)@.wf(),
    {
        let ghost before = self@;
        let mut i: usize = 0;
        assert(peers@.take(0) =~= Seq::empty());
        while i < peers.len()
            invariant
                i <= peers@.len(),
                self@ == (crate::steps::StateView {
                    book: crate::steps::book_with(before.book, peers@.take(i as int)),
                    ..before
                }),
                self@.wf(),
            decreases peers@.len() - i,
        {
            self.learn(&peers[i].peer, &peers[i].addresses);
            proof {
                assert(peers@.take(i + 1).drop_last() =~= peers@.take(i as int));
                assert(self@ =~= (crate::steps::StateView {
                    book: crate::steps::book_with(before.book, peers@.take(i + 1)),
                    ..before
                }));
            }
            i += 1;
        }
        assert(peers@.take(i as int) =~= peers@);
    }

    pub fn kad_event(&mut self, event: KadEvent, env: &Env) -> (actions: Vec<Action>)
        requires
            old(self)@.wf(),
        ensures
            ({
                let step = old(self)@.on_kad(event, *env);
                &&& final(self)@ == step.state.logged(step.events)
                &&& crate::steps::action_views(actions@) == step.actions
            }),
            final(self)@.wf(),
    {
        let ghost before = self@;
        let ghost step = before.on_kad(event, *env);
        let actions: Vec<Action> = Vec::new();
        proof {
            lemma_log_none(before);
            lemma_log_none(step.state);
            assert(crate::steps::action_views(actions@) =~= Seq::empty());
        }
        match event {
            KadEvent::RoutingUpdated { peer, addresses, is_new_peer } => {
                self.learn(&peer, &addresses);
                if is_new_peer {
                    self.provide_due = true;
                }
                assert(self@ =~= step.state);
            },
            KadEvent::Providers { query, providers, last } => {
                if let Some(Query::Providers { call }) = query {
                    self.queue_providers(call, &providers, last, env.now);
                    return self.advance(call, env);
                }
            },
            KadEvent::ClosestPeers { query, peers } => {
                self.learn_all(&peers);
                match query {
                    Some(Query::Resolve { call }) => {
                        let ghost learned = self@;
                        let ghost calls = self.calls@;
                        if let Some(found) = self.calls.remove(&call) {
                            let mut found = found;
                            found.resolving = false;
                            self.calls.insert(call, found);
                            assert(self@.calls =~= learned.with_resolved(call).calls);
                        } else {
                            assert(self.calls@ =~= calls);
                        }
                        assert(self@ =~= learned.with_resolved(call));
                        return self.advance(call, env);
                    },
                    Some(Query::Walk { id }) => {
                        self.report_walk(id, &peers);
                    },
                    _ => {},
                }
            },
            KadEvent::Bootstrap { query, ok, last } => {
                if last {
                    self.provide_due = true;
                    assert(self@ =~= step.state);
                    if let Some(Query::Bootstrap { id }) = query {
                        let reason: u16 = if ok {
                            0
                        } else {
                            LP2P_FAIL_TIMEOUT
                        };
                        self.emit(
                            EventBuilder::new(LP2P_EV_DHT_RESULT).id(id).flags(
                                LP2P_EVF_LAST,
                            ).reason(reason).build(),
                        );
                    }
                }
            },
        }
        actions
    }

    /// Queues providers for a call, this node itself left out.
    fn queue_providers(&mut self, call: u64, providers: &Vec<PeerId>, last: bool, now: u64)
        requires
            old(self)@.wf(),
        ensures
            final(self)@ == old(self)@.with_providers(
                call,
                crate::address_book::peer_views(providers@),
                last,
                now,
            ),
            final(self)@.wf(),
    {
        let ghost before = self@;
        let ghost calls = self.calls@;
        let ghost peers = crate::address_book::peer_views(providers@);
        match self.calls.remove(&call) {
            None => {
                assert(self.calls@ =~= calls);
            },
            Some(found) => {
                let mut found = found;
                let ghost start = found@;
                let ghost good = crate::call::last_good(before.last_success, start.group@);
                let mut i: usize = 0;
                assert(peers.take(0) =~= Seq::empty());
                while i < providers.len()
                    invariant
                        i <= providers@.len(),
                        peers == crate::address_book::peer_views(providers@),
                        good == crate::call::last_good(before.last_success, start.group@),
                        before.last_success == self.last_success@.map_values(|p: PeerId| p@),
                        before.failed == self.failed@,
                        before.local_peer == self.local_peer@,
                        start.wf(),
                        found@ == start.enqueued_all(
                            peers.take(i as int),
                            before.local_peer,
                            good,
                            before.failed,
                            now,
                        ),
                    decreases providers@.len() - i,
                {
                    proof {
                        assert(peers.take(i + 1).drop_last() =~= peers.take(i as int));
                        crate::call::lemma_enqueued_all(
                            start,
                            peers.take(i as int),
                            before.local_peer,
                            good,
                            before.failed,
                            now,
                        );
                    }
                    if !providers[i].same(&self.local_peer) {
                        enqueue(
                            &mut found,
                            providers[i].copy(),
                            &self.last_success,
                            &self.failed,
                            now,
                        );
                    }
                    i += 1;
                }
                proof {
                    assert(peers.take(i as int) =~= peers);
                    crate::call::lemma_enqueued_all(
                        start,
                        peers,
                        before.local_peer,
                        good,
                        before.failed,
                        now,
                    );
                }
                if last {
                    found.lookup_running = false;
                }
                self.calls.insert(call, found);
                assert(self@.calls =~= before.with_providers(call, peers, last, now).calls);
            },
        }
        assert(self@ =~= before.with_providers(call, peers, last, now));
    }

    /// Reports the peers that a random walk found, and that it is done.
    fn report_walk(&mut self, id: u64, peers: &Vec<PeerInfo>)
        requires
            old(self)@.wf(),
        ensures
            final(self)@ == old(self)@.logged(
                peers@.map_values(
                    |p: PeerInfo|
                        crate::steps::discovered_event(
                            id,
                            p.peer@,
                            crate::address_book::address_views(p.addresses@),
                        ),
                ).push(crate::steps::dht_result(id, 0)),
            ),
            final(self)@.wf(),
    {
        let ghost before = self@;
        let ghost event = |p: PeerInfo|
            crate::steps::discovered_event(
                id,
                p.peer@,
                crate::address_book::address_views(p.addresses@),
            );
        let mut i: usize = 0;
        proof {
            assert(peers@.take(0).map_values(event) =~= Seq::empty());
            lemma_log_none(before);
        }
        while i < peers.len()
            invariant
                i <= peers@.len(),
                event == (|p: PeerInfo|
                    crate::steps::discovered_event(
                        id,
                        p.peer@,
                        crate::address_book::address_views(p.addresses@),
                    )),
                self@ == before.logged(peers@.take(i as int).map_values(event)),
            decreases peers@.len() - i,
        {
            let ghost start = self@;
            let record = discovered(id, &peers[i].peer, peers[i].addresses.as_slice());
            self.emit(record);
            proof {
                let next = peers@.take(i + 1).map_values(event);
                assert(next.drop_last() =~= peers@.take(i as int).map_values(event));
                lemma_log_one(start.shared.log, record@.event);
                assert(self@ =~= before.logged(next));
            }
            i += 1;
        }
        let ghost all = peers@.map_values(event);
        let ghost start = self@;
        assert(peers@.take(i as int) =~= peers@);
        self.emit(EventBuilder::new(LP2P_EV_DHT_RESULT).id(id).flags(LP2P_EVF_LAST).build());
        proof {
            let done = crate::steps::dht_result(id, 0);
            lemma_log_one(start.shared.log, done);
            assert(all.push(done).drop_last() =~= all);
            assert(self@ =~= before.logged(all.push(done)));
        }
    }

    pub fn rpc_event(&mut self, event: RpcEvent, env: &Env) -> (actions: Vec<Action>)
        requires
            old(self)@.wf(),
        ensures
            ({
                let step = old(self)@.on_rpc(event, *env);
                &&& final(self)@ == step.state.logged(step.events)
                &&& crate::steps::action_views(actions@) == step.actions
            }),
            final(self)@.wf(),
    {
        let ghost before = self@;
        let ghost step = before.on_rpc(event, *env);
        let mut actions: Vec<Action> = Vec::new();
        proof {
            lemma_log_none(before);
            lemma_log_none(step.state);
            assert(crate::steps::action_views(actions@) =~= Seq::empty());
        }
        match event {
            RpcEvent::Request { peer, ip, frame } => {
                if let Some(id) = self.inbound_request(peer, ip, frame.as_slice(), env) {
                    actions.push(Action::HoldInbound { id });
                }
                assert(crate::steps::action_views(actions@) =~= step.actions);
            },
            RpcEvent::Response { call, peer, frame } => {
                if let Some(id) = call {
                    return self.response(id, peer, frame.as_slice(), env);
                }
            },
            RpcEvent::OutboundFailure { call, peer, failure } => {
                self.remember_failure(peer, env.now);
                if let Some(id) = call {
                    let reason = match failure {
                        Failure::Timeout => LP2P_FAIL_TIMEOUT,
                        Failure::UnsupportedProtocols => LP2P_FAIL_REFUSED,
                        Failure::Other => LP2P_FAIL_UNREACHABLE,
                    };
                    self.fail_attempt(id, reason);
                    return self.advance(id, env);
                }
            },
            RpcEvent::InboundDone { id } => {
                if let Some(id) = id {
                    let _ = self.inbound.remove(&id);
                    assert(self@ =~= step.state);
                }
            },
        }
        actions
    }

    /// The last attempt of a call came to nothing.
    fn fail_attempt(&mut self, id: u64, reason: u16)
        requires
            old(self)@.wf(),
        ensures
            final(self)@ == old(self)@.with_failed_call(id, reason),
            final(self)@.wf(),
    {
        let ghost before = self@;
        let ghost calls = self.calls@;
        match self.calls.remove(&id) {
            None => {
                assert(self.calls@ =~= calls);
            },
            Some(call) => {
                let mut call = call;
                call.in_flight = false;
                call.last_failure = reason;
                self.calls.insert(id, call);
                assert(self@.calls =~= before.with_failed_call(id, reason).calls);
            },
        }
        assert(self@ =~= before.with_failed_call(id, reason));
    }

    /// Reports a request that came in and answers the number to hold its stream under, or None
    /// where the stream is dropped, which is a rejection: the requester's failover moves on
    /// without waiting for a timeout.
    pub fn inbound_request(
        &mut self,
        peer: PeerId,
        ip: Option<Ip>,
        frame: &[u8],
        env: &Env,
    ) -> (id: Option<u64>)
        requires
            old(self)@.wf(),
        ensures
            ({
                let step = old(self)@.on_request(
                    peer@,
                    match ip {
                        Some(ip) => Some(ip@),
                        None => None,
                    },
                    frame@,
                    *env,
                );
                &&& final(self)@ == step.state.logged(step.events)
                &&& match id {
                    Some(id) => step.actions == seq![crate::steps::ActionView::HoldInbound { id }],
                    None => step.actions == Seq::<crate::steps::ActionView>::empty(),
                }
            }),
            final(self)@.wf(),
    {
        let ghost before = self@;
        let ghost octets = match ip {
            Some(ip) => Some(ip@),
            None => None,
        };
        let ghost step = before.on_request(peer@, octets, frame@, *env);
        proof {
            lemma_log_none(before);
            lemma_log_none(step.state);
        }
        let request = match decode_request(frame) {
            Some(request) => request,
            None => return None,
        };
        let (node, delegation) = match sender(&peer, request.delegation, env.unix_ms) {
            Some(sender) => sender,
            None => return None,
        };
        let protocol = match self.protocol_of(request.protocol) {
            Some(protocol) => protocol,
            None => return None,
        };
        let group = delegation.group;
        let asked = Request { group: &group, peer, ip, protocol };
        let ghost asked_view = asked@;
        assert(asked_view == (crate::limits::RequestView {
            group: group@,
            peer: peer@,
            ip: octets,
            protocol,
        }));
        match self.limits.check(&asked, env.now) {
            Err(reason) => {
                self.shared.rpc_limited = self.shared.rpc_limited.wrapping_add(1);
                let report = self.limits.may_report(env.now);
                assert(self@ =~= step.state);
                if report {
                    self.emit(
                        EventBuilder::new(LP2P_EV_LIMITED).group(group).node(node).protocol(
                            protocol,
                        ).reason(reason).build(),
                    );
                }
                None
            },
            Ok(()) => {
                let id = self.shared.next_id();
                self.shared.rpc_in = self.shared.rpc_in.wrapping_add(1);
                self.inbound.insert(id);
                assert(self@ =~= step.state);
                self.emit(
                    EventBuilder::new(LP2P_EV_RPC_REQUEST).id(id).group(group).node(
                        node,
                    ).protocol(protocol).data(request.payload),
                );
                Some(id)
            },
        }
    }

    /// Which of the node's protocols has a name.
    fn protocol_of(&self, name: &str) -> (index: Option<u16>)
        requires
            self@.wf(),
        ensures
            match index {
                Some(i) => crate::steps::protocol_index(self@.rpc_protocols, name@, 0) == Some(
                    i as int,
                ),
                None => crate::steps::protocol_index(self@.rpc_protocols, name@, 0) is None,
            },
    {
        let mut i: usize = 0;
        let ghost protocols = self@.rpc_protocols;
        while i < self.rpc_protocols.len()
            invariant
                protocols == crate::node::names(self.rpc_protocols@),
                protocols.len() <= u16::MAX,
                i <= protocols.len(),
                crate::steps::protocol_index(protocols, name@, 0)
                    == crate::steps::protocol_index(protocols, name@, i as int),
            decreases protocols.len() - i,
        {
            if same_text(self.rpc_protocols[i].as_str(), name) {
                return Some(i as u16);
            }
            i += 1;
        }
        None
    }

    /// Ends the call with a good response, or asks the next candidate.
    pub fn response(
        &mut self,
        id: u64,
        peer: PeerId,
        frame: &[u8],
        env: &Env,
    ) -> (actions: Vec<Action>)
        requires
            old(self)@.wf(),
        ensures
            ({
                let step = old(self)@.on_response(id, peer@, frame@, *env);
                &&& final(self)@ == step.state.logged(step.events)
                &&& crate::steps::action_views(actions@) == step.actions
            }),
            final(self)@.wf(),
    {
        let ghost before = self@;
        let ghost step = before.on_response(id, peer@, frame@, *env);
        let actions: Vec<Action> = Vec::new();
        proof {
            lemma_log_none(before);
            lemma_log_none(step.state);
            assert(crate::steps::action_views(actions@) =~= Seq::empty());
        }
        let (group, protocol) = match self.calls.get(&id) {
            Some(call) => (call.group, call.protocol),
            None => return actions,
        };
        match read_response(&peer, &group, frame, env.unix_ms) {
            Some((node, payload)) => {
                let ghost calls = self.calls@;
                let _ = self.calls.remove(&id);
                let _ = self.failed.remove(&peer);
                assert(before.last_success.dom() =~= self.last_success@.dom());
                if self.last_success.len() >= MAX_REMEMBERED {
                    self.last_success.clear();
                }
                let ghost kept = self.last_success@.map_values(|p: PeerId| p@);
                self.last_success.insert(group, peer);
                proof {
                    assert(self@.calls =~= before.calls.remove(id));
                    assert(kept =~= if before.last_success.dom().len() < MAX_REMEMBERED {
                        before.last_success
                    } else {
                        Map::empty()
                    });
                    assert(self@.last_success =~= kept.insert(group@, peer@));
                    assert(self@ =~= step.state);
                }
                self.emit(
                    EventBuilder::new(LP2P_EV_RPC_RESPONSE).id(id).group(group).node(
                        node,
                    ).protocol(protocol).data(payload),
                );
                actions
            },
            None => {
                self.remember_failure(peer, env.now);
                self.fail_attempt(id, LP2P_FAIL_REFUSED);
                self.advance(id, env)
            },
        }
    }

    /// A node failed a call. When too many are remembered, those whose penalty is over are
    /// forgotten, and all of them where that does not help.
    pub fn remember_failure(&mut self, peer: PeerId, now: u64)
        requires
            old(self)@.wf(),
        ensures
            final(self)@ == (crate::steps::StateView {
                failed: crate::steps::with_failure(old(self)@.failed, peer@, now),
                ..old(self)@
            }),
            final(self)@.wf(),
    {
        let ghost before = self@;
        if self.failed.len() >= MAX_REMEMBERED {
            self.forget_old_failures(now);
            if self.failed.len() >= MAX_REMEMBERED {
                self.failed.clear();
            }
        }
        self.failed.insert(peer, now);
        assert(self@ =~= (crate::steps::StateView {
            failed: crate::steps::with_failure(before.failed, peer@, now),
            ..before
        }));
    }

    fn forget_old_failures(&mut self, now: u64)
        ensures
            final(self)@ == (crate::steps::StateView {
                failed: old(self)@.failed.restrict(
                    Set::new(
                        |p: (u64, Seq<u8>)| crate::call::penalized(old(self)@.failed, p, now),
                    ),
                ),
                ..old(self)@
            }),
            final(self)@.failed.dom().finite(),
    {
        let ghost state = self@;
        let ghost before = self.failed@;
        let mut failed: Table<PeerId, u64> = Table::new();
        std::mem::swap(&mut failed, &mut self.failed);
        let mut n: usize = failed.len();
        while n > 0
            invariant
                failed@.dom().finite(),
                n == failed@.dom().len(),
                self@ == (crate::steps::StateView { failed: self.failed@, ..state }),
                forall|p: (u64, Seq<u8>)| #[trigger]
                    failed@.contains_key(p) ==> before.contains_key(p) && failed@[p] == before[p]
                        && !self.failed@.contains_key(p),
                forall|p: (u64, Seq<u8>)| #[trigger]
                    self.failed@.contains_key(p) ==> crate::call::penalized(before, p, now)
                        && self.failed@[p] == before[p],
                forall|p: (u64, Seq<u8>)| #[trigger]
                    crate::call::penalized(before, p, now) ==> failed@.contains_key(p)
                        || self.failed@.contains_key(p),
            decreases n,
        {
            match failed.pop() {
                Some(entry) => {
                    let recent = now < entry.1 || now - entry.1 < FAILURE_PENALTY;
                    assert(recent == crate::call::penalized(before, entry.0@, now));
                    if recent {
                        self.failed.insert_new(entry.0, entry.1);
                    }
                },
                None => {},
            }
            n -= 1;
        }
        proof {
            failed@.dom().lemma_len0_is_empty();
            let wanted = before.restrict(
                Set::new(|p: (u64, Seq<u8>)| crate::call::penalized(before, p, now)),
            );
            assert(self.failed@ =~= wanted);
        }
        let _ = self.failed.len();
    }

    /// Reports an announcement that may be heard. What nobody vouches for is held against whoever
    /// sent it; a blocked group is not heard, and no node more often than it may.
    pub fn announcement(
        &mut self,
        source: Option<PeerId>,
        frame: &[u8],
        env: &Env,
    ) -> (acceptance: Acceptance)
        requires
            old(self)@.wf(),
        ensures
            ({
                let (verdict, step) = old(self)@.heard(
                    match source {
                        Some(peer) => Some(peer@),
                        None => None,
                    },
                    frame@,
                    *env,
                );
                &&& acceptance == verdict
                &&& final(self)@ == step.state.logged(step.events)
            }),
            final(self)@.wf(),
    {
        let ghost before = self@;
        proof {
            lemma_log_none(before);
        }
        let peer = match source {
            Some(peer) => peer,
            None => return Acceptance::Reject,
        };
        let ghost step = before.heard(Some(peer@), frame@, *env).1;
        proof {
            lemma_log_none(step.state);
        }
        let message = match decode_response(frame) {
            Some(message) => message,
            None => return Acceptance::Reject,
        };
        let (node, delegation) = match sender(&peer, message.delegation, env.unix_ms) {
            Some(sender) => sender,
            None => return Acceptance::Reject,
        };
        if self.limits.class_of(&delegation.group) == LP2P_CLASS_BLOCKED {
            return Acceptance::Ignore;
        }
        let allowed = self.sources.allow(peer, env.now);
        assert(self@ =~= step.state);
        if !allowed {
            return Acceptance::Ignore;
        }
        self.emit(
            EventBuilder::new(LP2P_EV_ANNOUNCEMENT).group(delegation.group).node(node).data(
                message.payload,
            ),
        );
        Acceptance::Accept
    }
}

/// Who answered and what, if a response is good.
fn read_response<'a>(peer: &PeerId, group: &lp2p_key, frame: &'a [u8], unix_ms: u64) -> (r: Option<
    (lp2p_key, &'a [u8]),
>)
    ensures
        match r {
            Some((node, payload)) => crate::steps::StateView::read_response(
                peer@,
                *group,
                frame@,
                unix_ms,
            ) == Some((node, payload@)),
            None => crate::steps::StateView::read_response(peer@, *group, frame@, unix_ms) is None,
        },
{
    let response = match decode_response(frame) {
        Some(response) => response,
        None => return None,
    };
    match sender(peer, response.delegation, unix_ms) {
        Some((node, delegation)) => if same_key(&delegation.group, group) {
            Some((node, response.payload))
        } else {
            None
        },
        None => None,
    }
}

} // verus!
