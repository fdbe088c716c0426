//! The node as its callers see it: what it is started with, what it is told, and what both sides
//! keep count of.
//!
//! Nothing here blocks the caller. Every public call turns into a [`Command`]; the node applies it
//! and pushes what follows into the event queue the caller polls.

use vstd::prelude::*;

use crate::abi::{
    lp2p_key, lp2p_rate, LP2P_ERR_INVALID_ARGUMENT, LP2P_ERR_PANIC, LP2P_ERR_SHUT_DOWN, LP2P_OK,
    LP2P_REACH_PRIVATE, LP2P_REACH_PUBLIC, LP2P_REACH_UNKNOWN,
};
use crate::delegation::Delegation;
use crate::events::EventQueue;
use crate::keys::{keypair_from_seed, peer_id, public_key};
use crate::multiaddr::Multiaddr;
use crate::state::State;

verus! {

/// Whether others can reach the node.
#[derive(Clone, Copy, Debug, PartialEq, Eq, Structural)]
pub enum Reachability {
    Unknown,
    Public,
    Private,
}

impl Reachability {
    /// The code that events name it by.
    pub open spec fn code(self) -> u16 {
        match self {
            Reachability::Unknown => LP2P_REACH_UNKNOWN as u16,
            Reachability::Public => LP2P_REACH_PUBLIC as u16,
            Reachability::Private => LP2P_REACH_PRIVATE as u16,
        }
    }

    /// The reason that an LP2P_EV_REACHABILITY carries.
    pub fn reason(&self) -> (reason: u16)
        ensures
            reason == self.code(),
    {
        match self {
            Reachability::Unknown => LP2P_REACH_UNKNOWN as u16,
            Reachability::Public => LP2P_REACH_PUBLIC as u16,
            Reachability::Private => LP2P_REACH_PRIVATE as u16,
        }
    }
}

/// A limiter that holds `burst` tokens and adds one every `interval_ms`.
#[derive(Clone, Copy, Debug, PartialEq, Eq, Structural)]
pub struct TokenBucket {
    pub burst: u32,
    pub interval_ms: u32,
}

#[derive(Clone, Copy, Debug)]
pub struct RelayConfig {
    pub server: bool,
    pub client: bool,
    pub max_reservations: u32,
    pub max_reservations_per_peer: u32,
    pub reservation_duration_s: u32,
    pub max_circuits: u32,
    pub max_circuits_per_peer: u32,
    pub max_circuit_duration_s: u32,
    pub max_circuit_bytes: u64,
    pub circuits_per_peer: Option<TokenBucket>,
    pub circuits_per_ip: Option<TokenBucket>,
}

pub struct AnnounceConfig {
    pub topic: String,
    pub max_payload_bytes: u32,
}

pub struct Config {
    pub node_seed: [u8; 32],
    pub delegation: Delegation,
    pub listen: Vec<Multiaddr>,
    pub dht_protocol: String,
    pub rpc_protocols: Vec<String>,
    pub rpc_max_request_bytes: u32,
    pub rpc_max_response_bytes: u32,
    pub rpc_timeout_ms: u32,
    pub quic: bool,
    pub dcutr: bool,
    pub reachability: Reachability,
    pub relay: RelayConfig,
    pub max_connections: Option<u32>,
    pub max_connections_per_peer: Option<u32>,
    pub max_pending_incoming: Option<u32>,
    pub announce: Option<AnnounceConfig>,
    pub event_queue_bytes: usize,
}

/// The names of protocols, as text.
pub open spec fn names(protocols: Seq<String>) -> Seq<Seq<char>> {
    protocols.map_values(|p: String| p@)
}

/// Whether frames can carry the names of the protocols, and events their numbers.
pub open spec fn protocols_usable(protocols: Seq<Seq<char>>) -> bool {
    &&& protocols.len() <= u16::MAX
    &&& forall|i: int|
        0 <= i < protocols.len() ==> 1 <= vstd::utf8::encode_utf8(
            #[trigger] protocols[i],
        ).len() <= 255
}

impl Config {
    /// What a node relies on of what it is started with.
    pub open spec fn wf(self) -> bool {
        protocols_usable(names(self.rpc_protocols@))
    }
}

pub enum Command {
    Rpc {
        id: u64,
        group: lp2p_key,
        node: Option<lp2p_key>,
        protocol: u16,
        payload: Vec<u8>,
        /// In nanoseconds.
        timeout: u64,
    },
    Respond { id: u64, payload: Vec<u8> },
    Reject { id: u64 },
    AddAddress { node: lp2p_key, address: Multiaddr },
    Bootstrap { id: u64 },
    RandomWalk { id: u64 },
    SetClass { group: lp2p_key, class: u8 },
    SetLimit { class: u8, scope: u8, protocol: u16, rate: lp2p_rate },
    AnnounceSetPayload { payload: Vec<u8> },
    Shutdown,
}

/// What the caller and the node both touch.
pub struct Shared {
    pub events: EventQueue,
    pub next_id: u64,
    pub connections: u32,
    pub routing_table_peers: u32,
    pub rpc_in: u64,
    pub rpc_out: u64,
    pub rpc_limited: u64,
    pub poisoned: bool,
}

/// What both sides touch, as values.
#[verifier::ext_equal]
pub struct SharedView {
    pub log: crate::events::Log,
    pub next_id: u64,
    pub connections: u32,
    pub routing_table_peers: u32,
    pub rpc_in: u64,
    pub rpc_out: u64,
    pub rpc_limited: u64,
    pub poisoned: bool,
}

impl View for Shared {
    type V = SharedView;

    open spec fn view(&self) -> SharedView {
        SharedView {
            log: self.events@.log(),
            next_id: self.next_id,
            connections: self.connections,
            routing_table_peers: self.routing_table_peers,
            rpc_in: self.rpc_in,
            rpc_out: self.rpc_out,
            rpc_limited: self.rpc_limited,
            poisoned: self.poisoned,
        }
    }
}

/// A count after one more, starting over behind the largest.
pub open spec fn counted(n: u64) -> u64 {
    if n == u64::MAX {
        0
    } else {
        (n + 1) as u64
    }
}

impl SharedView {
    /// What a node starts with.
    pub open spec fn initial(event_queue_bytes: usize) -> SharedView {
        SharedView {
            log: crate::events::Log {
                events: Seq::empty(),
                dropped: 0,
                closed: None,
                max_bytes: event_queue_bytes,
            },
            next_id: 1,
            connections: 0,
            routing_table_peers: 0,
            rpc_in: 0,
            rpc_out: 0,
            rpc_limited: 0,
            poisoned: false,
        }
    }
}

impl Shared {
    pub fn new(event_queue_bytes: usize) -> (shared: Shared)
        ensures
            shared@ == SharedView::initial(event_queue_bytes),
    {
        let shared = Shared {
            events: EventQueue::new(event_queue_bytes),
            next_id: 1,
            connections: 0,
            routing_table_peers: 0,
            rpc_in: 0,
            rpc_out: 0,
            rpc_limited: 0,
            poisoned: false,
        };
        assert(shared@ =~= SharedView::initial(event_queue_bytes));
        shared
    }

    /// The number of the next call, query or request. Numbers start over behind the largest.
    pub fn next_id(&mut self) -> (id: u64)
        ensures
            id == old(self).next_id,
            final(self)@ == (SharedView { next_id: counted(old(self).next_id), ..old(self)@ }),
    {
        let id = self.next_id;
        self.next_id = self.next_id.wrapping_add(1);
        id
    }

    /// The node's loop has ended, as it should or because it broke. What polls answer once the
    /// queue is drained says which; the first ending stays.
    pub fn ended(&mut self, broke: bool)
        ensures
            final(self)@ == (SharedView {
                poisoned: old(self).poisoned || broke,
                log: crate::events::Log {
                    closed: if old(self)@.log.closed is Some {
                        old(self)@.log.closed
                    } else if broke {
                        Some(LP2P_ERR_PANIC)
                    } else {
                        Some(LP2P_ERR_SHUT_DOWN)
                    },
                    ..old(self)@.log
                },
                ..old(self)@
            }),
    {
        if broke {
            self.poisoned = true;
            self.events.close(LP2P_ERR_PANIC);
        } else {
            self.events.close(LP2P_ERR_SHUT_DOWN);
        }
    }
}

/// What the caller's side of a node keeps of what it was started with.
#[derive(Clone, Copy, Debug)]
pub struct Node {
    pub rpc_protocol_count: usize,
    pub rpc_max_request_bytes: u32,
    pub rpc_timeout_ms: u32,
    /// None where announcements are off.
    pub announce_max_payload_bytes: Option<u32>,
}

impl Node {
    /// A node that starts with a delegation nobody would accept is refused here, where the caller
    /// can see why, rather than on every call it makes later.
    pub fn start(config: &Config, unix_ms: u64) -> (r: Result<(Node, State), i32>)
        requires
            config.wf(),
        ensures
            match r {
                Ok((node, state)) => {
                    &&& config.delegation.checked_for(
                        crate::outside::ed25519_public(config.node_seed@),
                        unix_ms,
                    ) is Ok
                    &&& node.rpc_protocol_count == config.rpc_protocols@.len()
                    &&& node.rpc_max_request_bytes == config.rpc_max_request_bytes
                    &&& node.rpc_timeout_ms == config.rpc_timeout_ms
                    &&& node.announce_max_payload_bytes == (match config.announce {
                        Some(announce) => Some(announce.max_payload_bytes),
                        None => None,
                    })
                    &&& state@ == crate::steps::StateView::initial(
                        *config,
                        crate::keys::peer_of(crate::outside::ed25519_public(config.node_seed@)),
                    )
                    &&& state@.wf()
                },
                Err(status) => status == LP2P_ERR_INVALID_ARGUMENT && config.delegation.checked_for(
                    crate::outside::ed25519_public(config.node_seed@),
                    unix_ms,
                ) is Err,
            },
    {
        let keypair = match keypair_from_seed(&config.node_seed) {
            Some(keypair) => keypair,
            None => return Err(LP2P_ERR_INVALID_ARGUMENT),
        };
        let node_key = match public_key(&keypair) {
            Some(key) => key,
            None => return Err(LP2P_ERR_INVALID_ARGUMENT),
        };
        if config.delegation.verify_for(&node_key, unix_ms).is_err() {
            return Err(LP2P_ERR_INVALID_ARGUMENT);
        }
        let local_peer = match peer_id(&node_key) {
            Some(peer) => peer,
            None => return Err(LP2P_ERR_INVALID_ARGUMENT),
        };
        let node = Node {
            rpc_protocol_count: config.rpc_protocols.len(),
            rpc_max_request_bytes: config.rpc_max_request_bytes,
            rpc_timeout_ms: config.rpc_timeout_ms,
            announce_max_payload_bytes: match &config.announce {
                Some(announce) => Some(announce.max_payload_bytes),
                None => None,
            },
        };
        Ok((node, State::new(config, local_peer)))
    }

    /// The number of the next call or query.
    pub fn next_id(&self, shared: &mut Shared) -> (id: u64)
        ensures
            id == old(shared).next_id,
            final(shared)@ == (SharedView {
                next_id: counted(old(shared).next_id),
                ..old(shared)@
            }),
    {
        shared.next_id()
    }

    /// What sending a command comes to: a node that broke takes none, and one whose loop is gone
    /// cannot be told.
    pub fn send(&self, shared: &Shared, delivered: bool) -> (status: i32)
        ensures
            status == (if shared.poisoned {
                LP2P_ERR_PANIC
            } else if delivered {
                LP2P_OK
            } else {
                LP2P_ERR_SHUT_DOWN
            }),
    {
        if shared.poisoned {
            LP2P_ERR_PANIC
        } else if delivered {
            LP2P_OK
        } else {
            LP2P_ERR_SHUT_DOWN
        }
    }
}

/// Numbers follow each other: the next is one more, and behind the largest comes 0.
pub proof fn law_counting(n: u64)
    ensures
        n < u64::MAX ==> counted(n) == n + 1,
        n == u64::MAX ==> counted(n) == 0,
        counted(n) != n,
{
}

} // verus!
