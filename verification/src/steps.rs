//! What a node does with what it is told and what happens to it, as steps from one state to the
//! next.
//!
//! The network is outside: every step takes what was told or what happened, and answers what to do
//! about it as [`Action`]s. What the network numbers its requests and queries by stays with whoever
//! performs the actions; it hands back the call or query that an outcome belongs to.

use vstd::prelude::*;

use crate::abi::{
    lp2p_event, lp2p_key, LP2P_CLASS_BLOCKED, LP2P_DELEGATION_BYTES, LP2P_EVF_LAST,
    LP2P_EV_ANNOUNCEMENT, LP2P_EV_DHT_RESULT, LP2P_EV_LIMITED, LP2P_EV_LISTENING,
    LP2P_EV_PEER_CONNECTED, LP2P_EV_PEER_DISCONNECTED, LP2P_EV_PEER_DISCOVERED,
    LP2P_EV_REACHABILITY, LP2P_EV_RPC_FAILED, LP2P_EV_RPC_REQUEST, LP2P_EV_RPC_RESPONSE, LP2P_FAIL_REFUSED,
    LP2P_FAIL_TIMEOUT, LP2P_FAIL_UNREACHABLE,
};
use crate::delegation::Delegation;
use crate::keys::PeerId;
use crate::multiaddr::{Ip, Multiaddr};
use crate::node::{Command, Config, Reachability};

verus! {

/// How long a provider record is re-published at most once, in nanoseconds: two seconds. A burst of
/// new peers after start becomes one publication instead of one per peer.
pub const PROVIDE_DEBOUNCE: u64 = 2_000_000_000;

/// Bound of the per-group and per-peer memory behind the order of candidates.
pub const MAX_REMEMBERED: usize = 4096;

/// A node is heard once in this time, in nanoseconds: ten seconds.
pub const ANNOUNCE_INTERVAL: u64 = 10_000_000_000;

/// How many announcements of a node are heard at once.
pub const ANNOUNCE_BURST: u32 = 3;

/// What a step finds around it.
pub struct Env {
    /// In nanoseconds, on a clock that does not go back.
    pub now: u64,
    /// In milliseconds since the Unix epoch.
    pub unix_ms: u64,
    /// The peers a connection is open to.
    pub connected: Vec<PeerId>,
}

/// What a query was started for.
#[derive(Clone, Copy, Debug, PartialEq, Eq, Structural)]
pub enum Query {
    Providers { call: u64 },
    Resolve { call: u64 },
    Bootstrap { id: u64 },
    Walk { id: u64 },
}

/// What the node asks the network to do.
pub enum Action {
    /// Look up who provides a key, for a call.
    GetProviders { call: u64, key: Vec<u8> },
    /// Look up the addresses of a peer, for a call.
    Resolve { call: u64, peer: PeerId },
    /// Send a request to a peer, for a call.
    SendRequest { call: u64, peer: PeerId, frame: Vec<u8> },
    /// Keep the stream of the request that just came in, under this number.
    HoldInbound { id: u64 },
    /// Answer a request.
    SendResponse { id: u64, frame: Vec<u8> },
    /// Close a request's stream without a response.
    CloseInbound { id: u64 },
    /// Tell the DHT an address of a peer.
    AddDhtAddress { peer: PeerId, address: Multiaddr },
    Bootstrap { id: u64 },
    RandomWalk { id: u64 },
    /// Tell others to reach this node here.
    AddExternalAddress { address: Multiaddr },
    /// Announce this node as a provider of a key.
    Provide { key: Vec<u8> },
    /// Publish a message on a topic.
    Publish { topic: String, frame: Vec<u8> },
}

/// What the network is asked to do, as values.
#[verifier::ext_equal]
pub enum ActionView {
    GetProviders { call: u64, key: Seq<u8> },
    Resolve { call: u64, peer: (u64, Seq<u8>) },
    SendRequest { call: u64, peer: (u64, Seq<u8>), frame: Seq<u8> },
    HoldInbound { id: u64 },
    SendResponse { id: u64, frame: Seq<u8> },
    CloseInbound { id: u64 },
    AddDhtAddress { peer: (u64, Seq<u8>), address: Seq<u8> },
    Bootstrap { id: u64 },
    RandomWalk { id: u64 },
    AddExternalAddress { address: Seq<u8> },
    Provide { key: Seq<u8> },
    Publish { topic: Seq<char>, frame: Seq<u8> },
}

impl View for Action {
    type V = ActionView;

    open spec fn view(&self) -> ActionView {
        match self {
            Action::GetProviders { call, key } => ActionView::GetProviders {
                call: *call,
                key: key@,
            },
            Action::Resolve { call, peer } => ActionView::Resolve { call: *call, peer: peer@ },
            Action::SendRequest { call, peer, frame } => ActionView::SendRequest {
                call: *call,
                peer: peer@,
                frame: frame@,
            },
            Action::HoldInbound { id } => ActionView::HoldInbound { id: *id },
            Action::SendResponse { id, frame } => ActionView::SendResponse {
                id: *id,
                frame: frame@,
            },
            Action::CloseInbound { id } => ActionView::CloseInbound { id: *id },
            Action::AddDhtAddress { peer, address } => ActionView::AddDhtAddress {
                peer: peer@,
                address: address@,
            },
            Action::Bootstrap { id } => ActionView::Bootstrap { id: *id },
            Action::RandomWalk { id } => ActionView::RandomWalk { id: *id },
            Action::AddExternalAddress { address } => ActionView::AddExternalAddress {
                address: address@,
            },
            Action::Provide { key } => ActionView::Provide { key: key@ },
            Action::Publish { topic, frame } => ActionView::Publish {
                topic: topic@,
                frame: frame@,
            },
        }
    }
}

pub open spec fn action_views(actions: Seq<Action>) -> Seq<ActionView> {
    actions.map_values(|a: Action| a@)
}

/// What is announced, and where.
pub struct Announce {
    pub topic: String,
    /// What was announced last.
    pub payload: Option<Vec<u8>>,
}

#[verifier::ext_equal]
pub struct AnnounceView {
    pub topic: Seq<char>,
    pub payload: Option<Seq<u8>>,
}

impl View for Announce {
    type V = AnnounceView;

    open spec fn view(&self) -> AnnounceView {
        AnnounceView {
            topic: self.topic@,
            payload: match self.payload {
                Some(payload) => Some(payload@),
                None => None,
            },
        }
    }
}

/// A node as values.
#[verifier::ext_equal]
pub struct StateView {
    pub shared: crate::node::SharedView,
    pub book: crate::address_book::BookView,
    pub local_peer: (u64, Seq<u8>),
    pub group: lp2p_key,
    pub delegation: Seq<u8>,
    pub dht_protocol: Seq<char>,
    pub rpc_protocols: Seq<Seq<char>>,
    /// Whether others can reach the node, as it was told.
    pub reachability: Reachability,
    pub calls: Map<u64, crate::call::CallView>,
    /// The requests that were reported and not yet answered.
    pub inbound: Set<u64>,
    pub provide_due: bool,
    pub last_provide: Option<u64>,
    pub sample_offset: usize,
    /// The node of each group that answered last; it is asked first next time.
    pub last_success: Map<Seq<u8>, (u64, Seq<u8>)>,
    /// Nodes that failed a call, and when; they are asked last until the penalty is over.
    pub failed: crate::call::Failures,
    pub limits: crate::limits::LimitsView,
    pub announce: Option<AnnounceView>,
    pub sources: crate::limits::SourceRateView,
}

/// What a step comes to: the state then, the events it reports, and what the network is asked.
#[verifier::ext_equal]
pub struct Step {
    pub state: StateView,
    pub events: Seq<crate::events::Event>,
    pub actions: Seq<ActionView>,
}

/// A peer that a lookup found, and its addresses.
pub struct PeerInfo {
    pub peer: PeerId,
    pub addresses: Vec<Multiaddr>,
}

/// What the DHT reports.
pub enum KadEvent {
    /// A peer was added to the routing table, or its addresses changed.
    RoutingUpdated { peer: PeerId, addresses: Vec<Multiaddr>, is_new_peer: bool },
    /// A lookup of providers found some, perhaps none; `last` where it is done.
    Providers { query: Option<Query>, providers: Vec<PeerId>, last: bool },
    /// A lookup of peers is done, or has run out of time.
    ClosestPeers { query: Option<Query>, peers: Vec<PeerInfo> },
    /// A bootstrap made progress; `last` where it is done.
    Bootstrap { query: Option<Query>, ok: bool, last: bool },
}

/// Why a request got no response.
#[derive(Clone, Copy, Debug, PartialEq, Eq, Structural)]
pub enum Failure {
    Timeout,
    UnsupportedProtocols,
    Other,
}

/// What the streams of requests report. `call` is the call that a request was sent for, and `id`
/// the number a request that came in was held under.
pub enum RpcEvent {
    Request { peer: PeerId, ip: Option<Ip>, frame: Vec<u8> },
    Response { call: Option<u64>, peer: PeerId, frame: Vec<u8> },
    OutboundFailure { call: Option<u64>, peer: PeerId, failure: Failure },
    InboundDone { id: Option<u64> },
}

/// What the network reports.
pub enum SwarmEvent {
    NewListenAddr { address: Multiaddr },
    /// A connection to a peer is up, by this address; there are this many now.
    ConnectionEstablished { peer: PeerId, address: Multiaddr, num_established: u32 },
    /// A connection to a peer is gone; there are this many left.
    ConnectionClosed { peer: PeerId, num_established: u32 },
    Kad(KadEvent),
    /// A peer said what it speaks and where it listens.
    Identified { peer: PeerId, protocols: Vec<String>, listen_addrs: Vec<Multiaddr> },
    Rpc(RpcEvent),
}

/// What becomes of an announcement: passed on, dropped, or held against whoever sent it.
#[derive(Clone, Copy, Debug, PartialEq, Eq, Structural)]
pub enum Acceptance {
    Accept,
    Ignore,
    Reject,
}

/// The key that a group is found under: the multihash of the group key's digest.
pub open spec fn provider_key(group: Seq<u8>) -> Seq<u8> {
    seq![0x12u8, 0x20u8] + crate::outside::sha256(group)
}

/// The key that events name a peer by, zeros for a peer that has none.
pub open spec fn peer_key(peer: (u64, Seq<u8>)) -> lp2p_key {
    match crate::keys::key_in(peer) {
        Some(key) => crate::keys::key_array(key),
        None => crate::events::no_key(),
    }
}

/// The text of an address as bytes.
pub open spec fn address_text(address: Seq<u8>) -> Seq<u8> {
    vstd::utf8::encode_utf8(crate::outside::multiaddr_text(address))
}

/// Addresses as text, a zero behind each.
pub open spec fn address_lines(addresses: Seq<Seq<u8>>) -> Seq<u8>
    decreases addresses.len(),
{
    if addresses.len() == 0 {
        Seq::empty()
    } else {
        address_lines(addresses.drop_last()) + address_text(addresses.last()).push(0)
    }
}

/// The report of a call that came to nothing.
pub open spec fn failed_event(
    id: u64,
    call: crate::call::CallView,
    reason: u16,
) -> crate::events::Event {
    crate::events::event_of(
        lp2p_event {
            id,
            group: call.group,
            protocol: call.protocol,
            reason,
            ..crate::events::blank_header(LP2P_EV_RPC_FAILED)
        },
        Seq::empty(),
    )
}

/// The report that a query is done.
pub open spec fn dht_result(id: u64, reason: u16) -> crate::events::Event {
    crate::events::event_of(
        lp2p_event {
            id,
            flags: LP2P_EVF_LAST,
            reason,
            ..crate::events::blank_header(LP2P_EV_DHT_RESULT)
        },
        Seq::empty(),
    )
}

/// The report of a peer and its addresses.
pub open spec fn discovered_event(
    id: u64,
    peer: (u64, Seq<u8>),
    addresses: Seq<Seq<u8>>,
) -> crate::events::Event {
    crate::events::event_of(
        lp2p_event {
            id,
            node: peer_key(peer),
            ..crate::events::blank_header(LP2P_EV_PEER_DISCOVERED)
        },
        address_lines(addresses),
    )
}

/// The report of a peer coming or going.
pub open spec fn peer_event(
    kind: u16,
    peer: (u64, Seq<u8>),
    data: Seq<u8>,
) -> crate::events::Event {
    crate::events::event_of(
        lp2p_event { node: peer_key(peer), ..crate::events::blank_header(kind) },
        data,
    )
}

/// Who sent a delegation along: the node's key and the delegation, if the delegation is good and
/// names the node that the peer is.
pub open spec fn sender(
    peer: (u64, Seq<u8>),
    delegation: Seq<u8>,
    unix_ms: u64,
) -> Option<(lp2p_key, Delegation)> {
    match (crate::keys::key_in(peer), crate::delegation::parsed(delegation)) {
        (Some(node), Ok(d)) => if d.checked_for(node, unix_ms) is Ok {
            Some((crate::keys::key_array(node), d))
        } else {
            None
        },
        _ => None,
    }
}

/// Which of the protocols has a name.
pub open spec fn protocol_index(protocols: Seq<Seq<char>>, name: Seq<char>, from: int) -> Option<
    int,
>
    decreases protocols.len() - from,
{
    if from < 0 || from >= protocols.len() {
        None
    } else if protocols[from] == name {
        Some(from)
    } else {
        protocol_index(protocols, name, from + 1)
    }
}

/// A moment some time later, the last one where there is none so late.
pub open spec fn later(now: u64, time: u64) -> u64 {
    if now + time <= u64::MAX {
        (now + time) as u64
    } else {
        u64::MAX
    }
}

/// A book with what a lookup found.
pub open spec fn book_with(
    book: crate::address_book::BookView,
    peers: Seq<PeerInfo>,
) -> crate::address_book::BookView
    decreases peers.len(),
{
    if peers.len() == 0 {
        book
    } else {
        book_with(book, peers.drop_last()).added_all(
            peers.last().peer@,
            crate::address_book::address_views(peers.last().addresses@),
        )
    }
}

/// The failures with another one. When there are too many, those whose penalty is over are
/// forgotten, and all of them where that does not help.
pub open spec fn with_failure(
    failed: crate::call::Failures,
    peer: (u64, Seq<u8>),
    now: u64,
) -> crate::call::Failures {
    let recent = failed.restrict(
        Set::new(|p: (u64, Seq<u8>)| crate::call::penalized(failed, p, now)),
    );
    let kept = if failed.dom().len() < MAX_REMEMBERED {
        failed
    } else if recent.dom().len() < MAX_REMEMBERED {
        recent
    } else {
        Map::empty()
    };
    kept.insert(peer, now)
}

/// The last good nodes with another one. When there are too many all others are forgotten.
pub open spec fn with_success(
    last_success: Map<Seq<u8>, (u64, Seq<u8>)>,
    group: Seq<u8>,
    peer: (u64, Seq<u8>),
) -> Map<Seq<u8>, (u64, Seq<u8>)> {
    (if last_success.dom().len() < MAX_REMEMBERED {
        last_success
    } else {
        Map::empty()
    }).insert(group, peer)
}

/// An order of the calls whose time is up: each of them once, and no others.
pub open spec fn is_expiry_order(
    calls: Map<u64, crate::call::CallView>,
    now: u64,
    order: Seq<u64>,
) -> bool {
    &&& order.no_duplicates()
    &&& forall|id: u64| #[trigger]
        order.contains(id) <==> calls.contains_key(id) && calls[id].deadline <= now
}

/// The report of whether others can reach the node.
pub open spec fn reachability_event(reachability: Reachability) -> crate::events::Event {
    crate::events::event_of(
        lp2p_event {
            reason: reachability.code(),
            ..crate::events::blank_header(LP2P_EV_REACHABILITY)
        },
        Seq::empty(),
    )
}

impl StateView {
    /// What a node starts with; it has reported its reachability.
    pub open spec fn initial(config: Config, local_peer: (u64, Seq<u8>)) -> StateView {
        StateView {
            shared: crate::node::SharedView {
                log: crate::node::SharedView::initial(config.event_queue_bytes).log.pushed(
                    reachability_event(config.reachability),
                ),
                ..crate::node::SharedView::initial(config.event_queue_bytes)
            },
            book: crate::address_book::BookView::empty(),
            local_peer,
            group: config.delegation.group,
            delegation: config.delegation.bytes(),
            dht_protocol: config.dht_protocol@,
            rpc_protocols: crate::node::names(config.rpc_protocols@),
            reachability: config.reachability,
            calls: Map::empty(),
            inbound: Set::empty(),
            provide_due: false,
            last_provide: None,
            sample_offset: 0,
            last_success: Map::empty(),
            failed: Map::empty(),
            limits: crate::limits::LimitsView {
                classes: Map::empty(),
                rules: Seq::empty(),
                buckets: Map::empty(),
                events_window: None,
                events_in_window: 0,
            },
            announce: match config.announce {
                Some(announce) => Some(AnnounceView { topic: announce.topic@, payload: None }),
                None => None,
            },
            sources: crate::limits::SourceRateView {
                interval: ANNOUNCE_INTERVAL,
                burst: ANNOUNCE_BURST,
                buckets: Map::empty(),
            },
        }
    }

    /// What holds of a node at all times.
    pub open spec fn wf(self) -> bool {
        &&& self.delegation.len() == LP2P_DELEGATION_BYTES
        &&& crate::node::protocols_usable(self.rpc_protocols)
        &&& forall|id: u64| #[trigger] self.calls.contains_key(id) ==> self.calls[id].wf()
        &&& self.book.wf()
        &&& self.limits.wf()
        &&& self.sources.wf()
        &&& self.sample_offset < usize::MAX
        &&& self.last_success.dom().finite()
        &&& self.last_success.dom().len() <= MAX_REMEMBERED
        &&& self.failed.dom().finite()
        &&& self.failed.dom().len() <= MAX_REMEMBERED
    }

    /// The state with events reported.
    pub open spec fn logged(self, events: Seq<crate::events::Event>) -> StateView {
        StateView {
            shared: crate::node::SharedView {
                log: self.shared.log.pushed_all(events),
                ..self.shared
            },
            ..self
        }
    }

    /// A step that reports nothing and asks nothing.
    pub open spec fn quietly(self) -> Step {
        Step { state: self, events: Seq::empty(), actions: Seq::empty() }
    }

    /// A step that reports one event.
    pub open spec fn reporting(self, event: crate::events::Event) -> Step {
        Step { state: self, events: seq![event], actions: Seq::empty() }
    }

    /// A step that asks one thing of the network.
    pub open spec fn asking(self, action: ActionView) -> Step {
        Step { state: self, events: Seq::empty(), actions: seq![action] }
    }

    pub open spec fn with_call(self, id: u64, call: crate::call::CallView) -> StateView {
        StateView { calls: self.calls.insert(id, call), ..self }
    }

    pub open spec fn without_call(self, id: u64) -> StateView {
        StateView { calls: self.calls.remove(id), ..self }
    }

    /// Announces this node as a provider of its group. libp2p re-publishes on its own schedule;
    /// this covers the moments that schedule misses: start, a first peer, a finished bootstrap.
    pub open spec fn provided(self, now: u64) -> Step {
        (StateView { provide_due: false, last_provide: Some(now), ..self }).asking(
            ActionView::Provide { key: provider_key(self.group@) },
        )
    }

    /// Sends the call to its next candidate, looks a candidate's addresses up first when nothing
    /// is known about it, or fails the call when nobody is left.
    pub open spec fn advanced(self, id: u64, env: Env) -> Step {
        if !self.calls.contains_key(id) || self.calls[id].in_flight || self.calls[id].resolving {
            self.quietly()
        } else {
            let dialable = crate::call::dialable(
                crate::address_book::peer_views(env.connected@),
                self.book,
            );
            let (call, next) = self.calls[id].next(dialable);
            match next {
                crate::call::NextView::Send(peer) => (StateView {
                    shared: crate::node::SharedView {
                        rpc_out: crate::node::counted(self.shared.rpc_out),
                        ..self.shared
                    },
                    ..self
                }).with_call(id, call).asking(
                    ActionView::SendRequest { call: id, peer, frame: call.frame },
                ),
                crate::call::NextView::Resolve(peer) => self.with_call(id, call).asking(
                    ActionView::Resolve { call: id, peer },
                ),
                crate::call::NextView::Nobody => if call.lookup_running {
                    self.with_call(id, call).quietly()
                } else {
                    self.without_call(id).reporting(failed_event(id, call, call.last_failure))
                },
            }
        }
    }

    /// The call that a caller asks for. A call to one node has that node as its candidate; a call
    /// to a group has none until providers are found.
    pub open spec fn new_call(
        self,
        group: lp2p_key,
        node: Option<lp2p_key>,
        protocol: u16,
        payload: Seq<u8>,
        deadline: u64,
    ) -> crate::call::CallView {
        let named = match node {
            Some(key) => if crate::outside::ed25519_key_valid(key@) {
                seq![crate::keys::peer_of(key@)]
            } else {
                Seq::empty()
            },
            None => Seq::empty(),
        };
        crate::call::CallView {
            group,
            protocol,
            frame: (crate::wire::RequestView {
                delegation: self.delegation,
                protocol: self.rpc_protocols[protocol as int],
                payload,
            }).frame(),
            candidates: named,
            seen: named.to_set(),
            resolved: Set::empty(),
            in_flight: false,
            resolving: false,
            lookup_running: node is None,
            deadline,
            last_failure: LP2P_FAIL_UNREACHABLE,
        }
    }

    /// Whether a node can follow a command: its protocol is one of the node's.
    pub open spec fn can_follow(self, command: Command) -> bool {
        match command {
            Command::Rpc { protocol, .. } => protocol < self.rpc_protocols.len(),
            _ => true,
        }
    }

    pub open spec fn commanded(self, command: Command, env: Env) -> Step {
        match command {
            Command::Rpc { id, group, node, protocol, payload, timeout } => {
                let call = self.new_call(
                    group,
                    node,
                    protocol,
                    payload@,
                    later(env.now, timeout),
                );
                let step = self.with_call(id, call).advanced(id, env);
                if node is None {
                    Step {
                        actions: seq![
                            ActionView::GetProviders { call: id, key: provider_key(group@) },
                        ] + step.actions,
                        ..step
                    }
                } else {
                    step
                }
            },
            Command::Respond { id, payload } => if self.inbound.contains(id) {
                (StateView { inbound: self.inbound.remove(id), ..self }).asking(
                    ActionView::SendResponse {
                        id,
                        frame: (crate::wire::ResponseView {
                            delegation: self.delegation,
                            payload: payload@,
                        }).frame(),
                    },
                )
            } else {
                self.quietly()
            },
            Command::Reject { id } => if self.inbound.contains(id) {
                (StateView { inbound: self.inbound.remove(id), ..self }).asking(
                    ActionView::CloseInbound { id },
                )
            } else {
                self.quietly()
            },
            Command::AddAddress { node, address } => if crate::outside::ed25519_key_valid(node@) {
                let peer = crate::keys::peer_of(node@);
                (StateView { book: self.book.added(peer, address@), ..self }).asking(
                    ActionView::AddDhtAddress { peer, address: address@ },
                )
            } else {
                self.quietly()
            },
            Command::Bootstrap { id } => self.asking(ActionView::Bootstrap { id }),
            Command::RandomWalk { id } => self.asking(ActionView::RandomWalk { id }),
            Command::SetClass { group, class } => (StateView {
                limits: self.limits.with_class(group@, class),
                ..self
            }).quietly(),
            Command::SetLimit { class, scope, protocol, rate } => (StateView {
                limits: self.limits.with_limit(
                    crate::limits::RuleId { class, scope, protocol },
                    rate,
                ),
                ..self
            }).quietly(),
            Command::AnnounceSetPayload { payload } => self.announcing(payload@),
            Command::Shutdown => self.quietly(),
        }
    }

    /// What is announced is published when it changes.
    pub open spec fn announcing(self, payload: Seq<u8>) -> Step {
        match self.announce {
            Some(announce) => if announce.payload == Some(payload) {
                self.quietly()
            } else {
                (StateView {
                    announce: Some(AnnounceView { payload: Some(payload), ..announce }),
                    ..self
                }).asking(
                    ActionView::Publish {
                        topic: announce.topic,
                        frame: (crate::wire::ResponseView {
                            delegation: self.delegation,
                            payload,
                        }).frame(),
                    },
                )
            },
            None => self.quietly(),
        }
    }

    /// Whether the node's provider record should be published again now.
    pub open spec fn provide_now(self, now: u64) -> bool {
        self.provide_due && match self.last_provide {
            Some(at) => crate::limits::elapsed(at, now) >= PROVIDE_DEBOUNCE,
            None => true,
        }
    }

    /// The calls whose time is up fail, in some order; a response that still arrives finds no call
    /// and is dropped. Provider records are published if it is time, and what callers count is
    /// brought up to date.
    pub open spec fn ticked(self, now: u64, routing: u32, peers: u32, order: Seq<u64>) -> Step {
        let expired = StateView { calls: self.calls.remove_keys(order.to_set()), ..self };
        let provided = if self.provide_now(now) {
            expired.provided(now)
        } else {
            expired.quietly()
        };
        Step {
            state: StateView {
                shared: crate::node::SharedView {
                    routing_table_peers: routing,
                    connections: peers,
                    ..self.shared
                },
                ..provided.state
            },
            events: order.map_values(
                |id: u64| failed_event(id, self.calls[id], LP2P_FAIL_TIMEOUT),
            ),
            actions: provided.actions,
        }
    }

    /// Where the next sample of so many entries starts. Starting somewhere else on every call hands
    /// out different entry points instead of the same nearest few.
    pub open spec fn sample_start(self, entries: nat) -> int {
        (self.sample_offset + 1) % entries as int
    }

    /// A sample of the routing table, going round from where it starts.
    pub open spec fn sample(self, entries: Seq<PeerInfo>, max: nat) -> Seq<crate::events::Event> {
        let start = self.sample_start(entries.len());
        Seq::new(
            if max < entries.len() {
                max
            } else {
                entries.len()
            },
            |i: int|
                {
                    let entry = entries[(start + i) % entries.len() as int];
                    discovered_event(
                        0,
                        entry.peer@,
                        crate::address_book::address_views(entry.addresses@),
                    )
                },
        )
    }

    /// Whether others are told to reach the node at an address it listens on. A specific address the
    /// node was told to listen on is taken as reachable; a private node is reached through relays
    /// alone.
    pub open spec fn announces(self, address: Seq<u8>) -> bool {
        !crate::multiaddr::unspecified(address) && (self.reachability != Reachability::Private
            || crate::multiaddr::relayed(address))
    }

    pub open spec fn on_swarm(self, event: SwarmEvent, env: Env) -> Step {
        match event {
            SwarmEvent::NewListenAddr { address } => Step {
                state: self,
                events: seq![
                    crate::events::event_of(
                        crate::events::blank_header(LP2P_EV_LISTENING),
                        address_text(address@),
                    ),
                ],
                actions: if self.announces(address@) {
                    seq![ActionView::AddExternalAddress { address: address@ }]
                } else {
                    Seq::empty()
                },
            },
            SwarmEvent::ConnectionEstablished { peer, address, num_established } => if
            num_established == 1 {
                self.reporting(
                    peer_event(LP2P_EV_PEER_CONNECTED, peer@, address_text(address@)),
                )
            } else {
                self.quietly()
            },
            SwarmEvent::ConnectionClosed { peer, num_established } => if num_established == 0 {
                self.reporting(peer_event(LP2P_EV_PEER_DISCONNECTED, peer@, Seq::empty()))
            } else {
                self.quietly()
            },
            SwarmEvent::Kad(event) => self.on_kad(event, env),
            SwarmEvent::Identified { peer, protocols, listen_addrs } => {
                let addresses = crate::address_book::address_views(listen_addrs@);
                Step {
                    state: StateView { book: self.book.added_all(peer@, addresses), ..self },
                    events: Seq::empty(),
                    actions: if crate::node::names(protocols@).contains(self.dht_protocol) {
                        addresses.map_values(
                            |a: Seq<u8>| ActionView::AddDhtAddress { peer: peer@, address: a },
                        )
                    } else {
                        Seq::empty()
                    },
                }
            },
            SwarmEvent::Rpc(event) => self.on_rpc(event, env),
        }
    }

    pub open spec fn on_kad(self, event: KadEvent, env: Env) -> Step {
        match event {
            KadEvent::RoutingUpdated { peer, addresses, is_new_peer } => (StateView {
                book: self.book.added_all(
                    peer@,
                    crate::address_book::address_views(addresses@),
                ),
                provide_due: self.provide_due || is_new_peer,
                ..self
            }).quietly(),
            KadEvent::Providers { query, providers, last } => match query {
                Some(Query::Providers { call }) => self.with_providers(
                    call,
                    crate::address_book::peer_views(providers@),
                    last,
                    env.now,
                ).advanced(call, env),
                _ => self.quietly(),
            },
            KadEvent::ClosestPeers { query, peers } => {
                let state = StateView { book: book_with(self.book, peers@), ..self };
                match query {
                    Some(Query::Resolve { call }) => state.with_resolved(call).advanced(call, env),
                    Some(Query::Walk { id }) => Step {
                        state,
                        events: peers@.map_values(
                            |p: PeerInfo|
                                discovered_event(
                                    id,
                                    p.peer@,
                                    crate::address_book::address_views(p.addresses@),
                                ),
                        ).push(dht_result(id, 0)),
                        actions: Seq::empty(),
                    },
                    _ => state.quietly(),
                }
            },
            KadEvent::Bootstrap { query, ok, last } => if last {
                let state = StateView { provide_due: true, ..self };
                match query {
                    Some(Query::Bootstrap { id }) => state.reporting(
                        dht_result(
                            id,
                            if ok {
                                0
                            } else {
                                LP2P_FAIL_TIMEOUT
                            },
                        ),
                    ),
                    _ => state.quietly(),
                }
            } else {
                self.quietly()
            },
        }
    }

    /// The state with providers queued for a call, this node itself left out.
    pub open spec fn with_providers(
        self,
        call: u64,
        providers: Seq<(u64, Seq<u8>)>,
        last: bool,
        now: u64,
    ) -> StateView {
        if self.calls.contains_key(call) {
            let c = self.calls[call];
            let queued = c.enqueued_all(
                providers,
                self.local_peer,
                crate::call::last_good(self.last_success, c.group@),
                self.failed,
                now,
            );
            self.with_call(
                call,
                crate::call::CallView {
                    lookup_running: queued.lookup_running && !last,
                    ..queued
                },
            )
        } else {
            self
        }
    }

    /// The state with a call that no longer waits for addresses.
    pub open spec fn with_resolved(self, call: u64) -> StateView {
        if self.calls.contains_key(call) {
            self.with_call(call, crate::call::CallView { resolving: false, ..self.calls[call] })
        } else {
            self
        }
    }

    pub open spec fn on_rpc(self, event: RpcEvent, env: Env) -> Step {
        match event {
            RpcEvent::Request { peer, ip, frame } => self.on_request(
                peer@,
                match ip {
                    Some(ip) => Some(ip@),
                    None => None,
                },
                frame@,
                env,
            ),
            RpcEvent::Response { call, peer, frame } => match call {
                Some(call) => self.on_response(call, peer@, frame@, env),
                None => self.quietly(),
            },
            RpcEvent::OutboundFailure { call, peer, failure } => {
                let state = StateView {
                    failed: with_failure(self.failed, peer@, env.now),
                    ..self
                };
                match call {
                    Some(call) => state.with_failed_call(call, reason_of(failure)).advanced(
                        call,
                        env,
                    ),
                    None => state.quietly(),
                }
            },
            RpcEvent::InboundDone { id } => match id {
                Some(id) => (StateView { inbound: self.inbound.remove(id), ..self }).quietly(),
                None => self.quietly(),
            },
        }
    }

    /// The state with a call whose last attempt came to nothing.
    pub open spec fn with_failed_call(self, call: u64, reason: u16) -> StateView {
        if self.calls.contains_key(call) {
            self.with_call(
                call,
                crate::call::CallView {
                    in_flight: false,
                    last_failure: reason,
                    ..self.calls[call]
                },
            )
        } else {
            self
        }
    }

    /// A request that comes in: who sent it, which of the protocols it is for and what it carries,
    /// or None where it is refused without a word.
    pub open spec fn read_request(
        self,
        peer: (u64, Seq<u8>),
        frame: Seq<u8>,
        unix_ms: u64,
    ) -> Option<(lp2p_key, lp2p_key, u16, Seq<u8>)> {
        match crate::wire::request_in(frame) {
            None => None,
            Some(request) => match (
                sender(peer, request.delegation, unix_ms),
                protocol_index(self.rpc_protocols, request.protocol, 0),
            ) {
                (Some((node, d)), Some(protocol)) => Some(
                    (node, d.group, protocol as u16, request.payload),
                ),
                _ => None,
            },
        }
    }

    /// A request is reported and its stream held, or refused. A refusal by a limit is counted, and
    /// reported as long as there are not too many.
    pub open spec fn on_request(
        self,
        peer: (u64, Seq<u8>),
        ip: Option<Seq<u8>>,
        frame: Seq<u8>,
        env: Env,
    ) -> Step {
        match self.read_request(peer, frame, env.unix_ms) {
            None => self.quietly(),
            Some((node, group, protocol, payload)) => {
                let request = crate::limits::RequestView { group: group@, peer, ip, protocol };
                let limits = self.limits.checked(request, env.now);
                match self.limits.verdict(request, env.now) {
                    Ok(_) => Step {
                        state: StateView {
                            limits,
                            inbound: self.inbound.insert(self.shared.next_id),
                            shared: crate::node::SharedView {
                                next_id: crate::node::counted(self.shared.next_id),
                                rpc_in: crate::node::counted(self.shared.rpc_in),
                                ..self.shared
                            },
                            ..self
                        },
                        events: seq![
                            crate::events::event_of(
                                lp2p_event {
                                    id: self.shared.next_id,
                                    group,
                                    node,
                                    protocol,
                                    ..crate::events::blank_header(LP2P_EV_RPC_REQUEST)
                                },
                                payload,
                            ),
                        ],
                        actions: seq![ActionView::HoldInbound { id: self.shared.next_id }],
                    },
                    Err(reason) => Step {
                        state: StateView {
                            limits: limits.asked_to_report(env.now),
                            shared: crate::node::SharedView {
                                rpc_limited: crate::node::counted(self.shared.rpc_limited),
                                ..self.shared
                            },
                            ..self
                        },
                        events: if limits.may_report(env.now) {
                            seq![
                                crate::events::event_of(
                                    lp2p_event {
                                        group,
                                        node,
                                        protocol,
                                        reason,
                                        ..crate::events::blank_header(LP2P_EV_LIMITED)
                                    },
                                    Seq::empty(),
                                ),
                            ]
                        } else {
                            Seq::empty()
                        },
                        actions: Seq::empty(),
                    },
                }
            },
        }
    }

    /// Who answered and what, if a response is good: it is a frame, its delegation names the node
    /// that sent it, and the group that was called.
    pub open spec fn read_response(
        peer: (u64, Seq<u8>),
        group: lp2p_key,
        frame: Seq<u8>,
        unix_ms: u64,
    ) -> Option<(lp2p_key, Seq<u8>)> {
        match crate::wire::response_in(frame) {
            None => None,
            Some(response) => match sender(peer, response.delegation, unix_ms) {
                Some((node, d)) => if d.group@ == group@ {
                    Some((node, response.payload))
                } else {
                    None
                },
                None => None,
            },
        }
    }

    /// A good response ends its call and makes the node the group's last good one. An empty or
    /// malformed frame is a rejection, a valid one from another group is an impostor: either way
    /// this node is done and the next one is asked.
    pub open spec fn on_response(
        self,
        id: u64,
        peer: (u64, Seq<u8>),
        frame: Seq<u8>,
        env: Env,
    ) -> Step {
        if !self.calls.contains_key(id) {
            self.quietly()
        } else {
            let call = self.calls[id];
            match StateView::read_response(peer, call.group, frame, env.unix_ms) {
                Some((node, payload)) => (StateView {
                    failed: self.failed.remove(peer),
                    last_success: with_success(self.last_success, call.group@, peer),
                    ..self
                }).without_call(id).reporting(
                    crate::events::event_of(
                        lp2p_event {
                            id,
                            group: call.group,
                            node,
                            protocol: call.protocol,
                            ..crate::events::blank_header(LP2P_EV_RPC_RESPONSE)
                        },
                        payload,
                    ),
                ),
                None => (StateView {
                    failed: with_failure(self.failed, peer, env.now),
                    ..self
                }).with_failed_call(id, LP2P_FAIL_REFUSED).advanced(id, env),
            }
        }
    }

    /// What becomes of an announcement, and the state then. One that nobody vouches for is held
    /// against whoever sent it; a blocked group is not heard, and no node more often than it may.
    pub open spec fn heard(
        self,
        source: Option<(u64, Seq<u8>)>,
        frame: Seq<u8>,
        env: Env,
    ) -> (Acceptance, Step) {
        match (source, crate::wire::response_in(frame)) {
            (Some(peer), Some(message)) => match sender(peer, message.delegation, env.unix_ms) {
                None => (Acceptance::Reject, self.quietly()),
                Some((node, d)) => if self.limits.class_of(d.group@) == LP2P_CLASS_BLOCKED {
                    (Acceptance::Ignore, self.quietly())
                } else {
                    let state = StateView { sources: self.sources.asked(peer, env.now), ..self };
                    if self.sources.allows(peer, env.now) {
                        (
                            Acceptance::Accept,
                            state.reporting(
                                crate::events::event_of(
                                    lp2p_event {
                                        group: d.group,
                                        node,
                                        ..crate::events::blank_header(LP2P_EV_ANNOUNCEMENT)
                                    },
                                    message.payload,
                                ),
                            ),
                        )
                    } else {
                        (Acceptance::Ignore, state.quietly())
                    }
                },
            },
            _ => (Acceptance::Reject, self.quietly()),
        }
    }
}

/// What a caller is told of a request that got no response.
pub open spec fn reason_of(failure: Failure) -> u16 {
    match failure {
        Failure::Timeout => LP2P_FAIL_TIMEOUT,
        Failure::UnsupportedProtocols => LP2P_FAIL_REFUSED,
        Failure::Other => LP2P_FAIL_UNREACHABLE,
    }
}

} // verus!
