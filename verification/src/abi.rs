//! The constants and plain data types of the C interface.
//!
//! The numbers are part of the interface and never change: a network runs old releases for years,
//! so codes are only ever added. Options that the C header hands over as pointers and lengths are
//! owned values here.

use vstd::prelude::*;

verus! {

pub const LP2P_ABI_VERSION: u32 = 1;

pub const LP2P_OK: i32 = 0;

pub const LP2P_ERR_INVALID_ARGUMENT: i32 = -1;

pub const LP2P_ERR_BUFFER_TOO_SMALL: i32 = -2;

pub const LP2P_ERR_NO_MEMORY: i32 = -3;

pub const LP2P_ERR_NETWORK: i32 = -4;

pub const LP2P_ERR_LIMITED: i32 = -5;

pub const LP2P_ERR_UNAVAILABLE: i32 = -6;

pub const LP2P_ERR_SHUT_DOWN: i32 = -7;

pub const LP2P_ERR_PANIC: i32 = -99;

pub const LP2P_DELEGATION_BYTES: usize = 136;

/// An ed25519 public key: of a node, whose peer id it is, or of a group.
pub type lp2p_key = [u8; 32];

pub const LP2P_EV_LISTENING: u16 = 1;

pub const LP2P_EV_REACHABILITY: u16 = 2;

pub const LP2P_EV_PEER_CONNECTED: u16 = 3;

pub const LP2P_EV_PEER_DISCONNECTED: u16 = 4;

pub const LP2P_EV_RPC_REQUEST: u16 = 5;

pub const LP2P_EV_RPC_RESPONSE: u16 = 6;

pub const LP2P_EV_RPC_FAILED: u16 = 7;

pub const LP2P_EV_ANNOUNCEMENT: u16 = 8;

pub const LP2P_EV_PEER_DISCOVERED: u16 = 9;

pub const LP2P_EV_DHT_RESULT: u16 = 10;

pub const LP2P_EV_LIMITED: u16 = 11;

pub const LP2P_EV_OVERFLOW: u16 = 12;

pub const LP2P_EVF_LAST: u16 = 1;

pub const LP2P_REACH_UNKNOWN: u8 = 0;

pub const LP2P_REACH_PUBLIC: u8 = 1;

pub const LP2P_REACH_PRIVATE: u8 = 2;

pub const LP2P_FAIL_TIMEOUT: u16 = 1;

pub const LP2P_FAIL_UNREACHABLE: u16 = 2;

pub const LP2P_FAIL_REFUSED: u16 = 3;

pub const LP2P_FAIL_LIMITED: u16 = 4;

/// The size of an event header, and the offset of an event's data in its record.
pub const LP2P_EVENT_HEADER_BYTES: usize = 88;

pub const LP2P_CLASS_UNKNOWN: u8 = 0;

pub const LP2P_CLASS_BLOCKED: u8 = 255;

pub const LP2P_PROTOCOL_ANY: u16 = 0xffff;

/// The reason an LP2P_EV_LIMITED carries when the class is LP2P_CLASS_BLOCKED rather than a scope.
pub const LP2P_LIMITED_BLOCKED: u16 = 255;

pub const LP2P_SCOPE_PEER: u8 = 0;

pub const LP2P_SCOPE_IP_PREFIX: u8 = 1;

pub const LP2P_SCOPE_GLOBAL: u8 = 2;

/// `amount` tokens per `interval_ms`, at most `burst` of them in reserve. Any zero switches the
/// limit off.
#[derive(Clone, Copy, Debug, Default, PartialEq, Eq, Structural)]
pub struct lp2p_rate {
    pub amount: u32,
    pub interval_ms: u32,
    pub burst: u32,
}

impl lp2p_rate {
    /// Whether the rate limits anything.
    pub open spec fn is_on(self) -> bool {
        self.amount != 0 && self.interval_ms != 0 && self.burst != 0
    }
}

#[derive(Clone, Copy, Debug)]
pub struct lp2p_relay_options {
    pub server: u8,
    pub client: u8,
    pub max_reservations: u32,
    pub max_reservations_per_peer: u32,
    pub reservation_duration_s: u32,
    pub max_circuits: u32,
    pub max_circuits_per_peer: u32,
    pub max_circuit_duration_s: u32,
    pub max_circuit_bytes: u64,
    pub circuits_per_peer: lp2p_rate,
    pub circuits_per_ip: lp2p_rate,
}

#[derive(Debug)]
pub struct lp2p_announce_options {
    pub enabled: u8,
    /// None for the topic derived from the DHT protocol.
    pub topic: Option<String>,
    pub max_payload_bytes: u32,
}

#[derive(Debug)]
pub struct lp2p_options {
    pub node_seed: [u8; 32],
    pub delegation: Vec<u8>,
    pub group: lp2p_key,
    pub listen_addrs: Vec<String>,
    /// None when the caller named none, which no node starts with.
    pub dht_protocol: Option<String>,
    pub rpc_protocols: Vec<String>,
    pub rpc_max_request_bytes: u32,
    pub rpc_max_response_bytes: u32,
    pub rpc_timeout_ms: u32,
    pub quic: u8,
    pub dcutr: u8,
    pub autonat: u8,
    pub max_connections: u32,
    pub max_connections_per_peer: u32,
    pub max_pending_incoming: u32,
    pub relay: lp2p_relay_options,
    pub announce: lp2p_announce_options,
    pub event_queue_bytes: usize,
    pub reachability: u8,
}

/// The header every event record starts with.
#[derive(Clone, Copy, Debug, Default)]
pub struct lp2p_event {
    pub kind: u16,
    pub flags: u16,
    /// Of the whole record, padding included.
    pub size: u32,
    pub id: u64,
    pub group: lp2p_key,
    pub node: lp2p_key,
    pub protocol: u16,
    pub reason: u16,
    pub data_len: u32,
}

#[derive(Clone, Copy, Debug, Default)]
pub struct lp2p_stats {
    pub size: u32,
    pub connections: u32,
    pub routing_table_peers: u32,
    pub reserved: u32,
    pub rpc_in: u64,
    pub rpc_out: u64,
    pub rpc_limited: u64,
    pub events_dropped: u64,
}

/// The relay limits a node starts with; they are libp2p's own.
pub open spec fn default_relay() -> lp2p_relay_options {
    lp2p_relay_options {
        server: 1,
        client: 1,
        max_reservations: 128,
        max_reservations_per_peer: 4,
        reservation_duration_s: 3600,
        max_circuits: 16,
        max_circuits_per_peer: 4,
        max_circuit_duration_s: 120,
        max_circuit_bytes: 131072,
        circuits_per_peer: lp2p_rate { amount: 1, interval_ms: 120000, burst: 30 },
        circuits_per_ip: lp2p_rate { amount: 1, interval_ms: 60000, burst: 60 },
    }
}

/// What a caller gets who changes nothing.
pub open spec fn is_default(o: lp2p_options) -> bool {
    &&& o.node_seed@ == Seq::new(32, |i: int| 0u8)
    &&& o.delegation@.len() == 0
    &&& o.group@ == Seq::new(32, |i: int| 0u8)
    &&& o.listen_addrs@.len() == 0
    &&& o.dht_protocol is None
    &&& o.rpc_protocols@.len() == 0
    &&& o.rpc_max_request_bytes == 0x10_0000
    &&& o.rpc_max_response_bytes == 0xa0_0000
    &&& o.rpc_timeout_ms == 10_000
    &&& o.quic == 1
    &&& o.dcutr == 1
    &&& o.autonat == 1
    &&& o.max_connections == 0
    &&& o.max_connections_per_peer == 0
    &&& o.max_pending_incoming == 0
    &&& o.relay == default_relay()
    &&& o.announce.enabled == 1
    &&& o.announce.topic is None
    &&& o.announce.max_payload_bytes == 1024
    &&& o.event_queue_bytes == 0x10_0000
    &&& o.reachability == LP2P_REACH_UNKNOWN
}

/// The defaults `lp2p_options_default` hands out. The relay values are libp2p's own.
pub fn default_options() -> (o: lp2p_options)
    ensures
        is_default(o),
{
    let o = lp2p_options {
        node_seed: [0;32],
        delegation: Vec::new(),
        group: [0;32],
        listen_addrs: Vec::new(),
        dht_protocol: None,
        rpc_protocols: Vec::new(),
        rpc_max_request_bytes: 0x10_0000,
        rpc_max_response_bytes: 0xa0_0000,
        rpc_timeout_ms: 10_000,
        quic: 1,
        dcutr: 1,
        autonat: 1,
        max_connections: 0,
        max_connections_per_peer: 0,
        max_pending_incoming: 0,
        relay: lp2p_relay_options {
            server: 1,
            client: 1,
            max_reservations: 128,
            max_reservations_per_peer: 4,
            reservation_duration_s: 60 * 60,
            max_circuits: 16,
            max_circuits_per_peer: 4,
            max_circuit_duration_s: 2 * 60,
            max_circuit_bytes: 0x2_0000,
            circuits_per_peer: lp2p_rate { amount: 1, interval_ms: 2 * 60 * 1000, burst: 30 },
            circuits_per_ip: lp2p_rate { amount: 1, interval_ms: 60 * 1000, burst: 60 },
        },
        announce: lp2p_announce_options { enabled: 1, topic: None, max_payload_bytes: 1024 },
        event_queue_bytes: 0x10_0000,
        reachability: LP2P_REACH_UNKNOWN,
    };
    assert(o.node_seed@ =~= Seq::new(32, |i: int| 0u8));
    assert(o.group@ =~= Seq::new(32, |i: int| 0u8));
    o
}

/// What a caller gets who changes nothing: payloads of a megabyte and responses of ten, ten seconds
/// for a call, no limit on connections, announcements of a kilobyte on the network's own topic, a
/// queue of a megabyte, QUIC and hole punching on, and nothing said of reachability.
pub proof fn law_defaults(o: lp2p_options)
    requires
        is_default(o),
    ensures
        o.rpc_max_request_bytes == 1024 * 1024,
        o.rpc_max_response_bytes == 10 * 1024 * 1024,
        o.rpc_timeout_ms == 10 * 1000,
        o.max_connections == 0 && o.max_connections_per_peer == 0 && o.max_pending_incoming == 0,
        o.quic == 1 && o.dcutr == 1 && o.autonat == 1,
        o.announce.enabled == 1 && o.announce.topic is None && o.announce.max_payload_bytes == 1024,
        o.event_queue_bytes == 1024 * 1024,
        o.reachability == 0,
        o.dht_protocol is None,
        o.delegation@.len() == 0 && o.listen_addrs@.len() == 0 && o.rpc_protocols@.len() == 0,
        o.relay.server == 1 && o.relay.client == 1,
        o.relay.max_reservations == 128 && o.relay.max_reservations_per_peer == 4,
        o.relay.reservation_duration_s == 60 * 60,
        o.relay.max_circuits == 16 && o.relay.max_circuits_per_peer == 4,
        o.relay.max_circuit_duration_s == 2 * 60,
        o.relay.max_circuit_bytes == 128 * 1024,
        o.relay.circuits_per_peer == (lp2p_rate { amount: 1, interval_ms: 120_000, burst: 30 }),
        o.relay.circuits_per_ip == (lp2p_rate { amount: 1, interval_ms: 60_000, burst: 60 }),
{
}

} // verus!
