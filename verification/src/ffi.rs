//! What the functions of the C interface decide, once the caller's pointers and lengths are values.
//!
//! A function that tells the node something answers the [`Command`] to send, or the status that the
//! caller gets instead.

use vstd::prelude::*;
use vstd::string::StringExecFns;

use crate::abi::{
    default_options, lp2p_key, lp2p_options, lp2p_rate, lp2p_stats, LP2P_ABI_VERSION,
    LP2P_CLASS_BLOCKED, LP2P_ERR_INVALID_ARGUMENT, LP2P_ERR_UNAVAILABLE, LP2P_PROTOCOL_ANY,
    LP2P_REACH_PRIVATE, LP2P_REACH_PUBLIC, LP2P_REACH_UNKNOWN, LP2P_SCOPE_GLOBAL,
};
use crate::bytes::{copy_bytes, same_key};
use crate::delegation::{now_ms, Delegation};
use crate::events::{EventQueue, Record};
use crate::keys::{keypair_from_seed, peer_id, public_key};
use crate::limits::MILLISECOND;
use crate::multiaddr::Multiaddr;
use crate::node::{
    AnnounceConfig, Command, Config, Node, Reachability, RelayConfig, Shared, TokenBucket,
};
use crate::outside::stream_protocol_valid;
use crate::state::State;

verus! {

/// The status that a result comes down to.
pub fn status(result: Result<i32, i32>) -> (status: i32)
    ensures
        status == (match result {
            Ok(status) => status,
            Err(status) => status,
        }),
{
    match result {
        Ok(status) => status,
        Err(status) => status,
    }
}

pub fn lp2p_abi_version() -> (version: u32)
    ensures
        version == LP2P_ABI_VERSION,
{
    LP2P_ABI_VERSION
}

/// How much of a struct that starts with its size both sides know: no more than the caller's
/// header says and no more than this module has. A struct that cannot even hold its size is
/// refused.
pub fn known_size(size: u32, full: usize) -> (known: Result<usize, i32>)
    ensures
        match known {
            Ok(n) => size >= 4 && n == (if size as usize <= full {
                size as usize
            } else {
                full
            }),
            Err(status) => size < 4 && status == LP2P_ERR_INVALID_ARGUMENT,
        },
{
    if size < 4 {
        Err(LP2P_ERR_INVALID_ARGUMENT)
    } else if size as usize <= full {
        Ok(size as usize)
    } else {
        Ok(full)
    }
}

/// 0 in a limit field means no limit of the module's own.
pub fn limit(value: u32) -> (limit: Option<u32>)
    ensures
        limit == (if value == 0 {
            None
        } else {
            Some(value)
        }),
{
    if value == 0 {
        None
    } else {
        Some(value)
    }
}

/// What a rate is to a limiter that adds one token at a time.
pub open spec fn bucket_for(rate: lp2p_rate) -> Option<TokenBucket> {
    if !rate.is_on() {
        None
    } else {
        Some(
            TokenBucket {
                burst: rate.burst,
                interval_ms: if rate.interval_ms < rate.amount {
                    1
                } else {
                    rate.interval_ms / rate.amount
                },
            },
        )
    }
}

/// libp2p's relay limiter holds `burst` tokens and adds one every `interval_ms`; `amount` per
/// `interval_ms` becomes one per `interval_ms / amount`, at least a millisecond. Any zero switches
/// the limiter off.
pub fn token_bucket(rate: lp2p_rate) -> (bucket: Option<TokenBucket>)
    ensures
        bucket == bucket_for(rate),
        bucket is Some ==> bucket->0.interval_ms >= 1 && bucket->0.burst >= 1,
{
    if rate.burst == 0 || rate.amount == 0 || rate.interval_ms == 0 {
        return None;
    }
    let interval_ms: u32 = if rate.interval_ms < rate.amount {
        1
    } else {
        rate.interval_ms / rate.amount
    };
    proof {
        if rate.interval_ms >= rate.amount {
            let i = rate.interval_ms as int;
            let a = rate.amount as int;
            assert(i / a >= 1) by (nonlinear_arith)
                requires
                    i >= a,
                    a > 0,
            ;
        }
    }
    Some(TokenBucket { burst: rate.burst, interval_ms })
}

/// The topic that announcements are made on: the one named, else one derived from the DHT
/// protocol, so two networks never share an announcement topic.
pub open spec fn announce_topic(o: lp2p_options) -> Seq<char> {
    match o.announce.topic {
        Some(topic) => topic@,
        None => o.dht_protocol->0@ + "/announce"@,
    }
}

/// What a node can be started with. The delegation is one and is the group's, every address is an
/// address, the DHT has a protocol name, announcements have a topic if they are made, frames can
/// carry the protocols' names, and there are limits to sizes and times.
pub open spec fn options_usable(o: lp2p_options) -> bool {
    &&& crate::delegation::parsed(o.delegation@) is Ok
    &&& crate::delegation::parsed(o.delegation@)->Ok_0.group@ == o.group@
    &&& forall|i: int|
        0 <= i < o.listen_addrs@.len() ==> crate::outside::multiaddr_of_text(
            (#[trigger] o.listen_addrs@[i])@,
        ) is Some
    &&& o.dht_protocol is Some
    &&& o.dht_protocol->0@.len() > 0
    &&& o.dht_protocol->0@[0] == '/'
    &&& o.announce.enabled != 0 ==> announce_topic(o).len() > 0
    &&& crate::node::protocols_usable(crate::node::names(o.rpc_protocols@))
    &&& o.rpc_max_request_bytes != 0
    &&& o.rpc_max_response_bytes != 0
    &&& o.rpc_timeout_ms != 0
    &&& o.reachability == LP2P_REACH_UNKNOWN || o.reachability == LP2P_REACH_PUBLIC
        || o.reachability == LP2P_REACH_PRIVATE
}

/// The reachability that a code stands for.
pub open spec fn reachability_of(code: u8) -> Reachability {
    if code == LP2P_REACH_PRIVATE {
        Reachability::Private
    } else if code == LP2P_REACH_PUBLIC {
        Reachability::Public
    } else {
        Reachability::Unknown
    }
}

/// The size of the event queue: what was asked for, but enough for the largest response. Below one
/// megabyte-sized response a queue would drop the first large event it meets.
pub open spec fn queue_bytes(o: lp2p_options) -> int {
    let least = if o.rpc_max_response_bytes + 4096 <= usize::MAX {
        o.rpc_max_response_bytes + 4096
    } else {
        usize::MAX as int
    };
    if o.event_queue_bytes >= least {
        o.event_queue_bytes as int
    } else {
        least
    }
}

/// Whether a config is what options say.
pub open spec fn config_matches(o: lp2p_options, c: Config) -> bool {
    &&& c.node_seed == o.node_seed
    &&& crate::delegation::parsed(o.delegation@) == Ok::<Delegation, crate::delegation::Invalid>(
        c.delegation,
    )
    &&& c.listen@.len() == o.listen_addrs@.len()
    &&& forall|i: int|
        0 <= i < o.listen_addrs@.len() ==> crate::outside::multiaddr_of_text(
            (#[trigger] o.listen_addrs@[i])@,
        ) == Some(c.listen@[i]@)
    &&& c.dht_protocol@ == o.dht_protocol->0@
    &&& crate::node::names(c.rpc_protocols@) == crate::node::names(o.rpc_protocols@)
    &&& c.rpc_max_request_bytes == o.rpc_max_request_bytes
    &&& c.rpc_max_response_bytes == o.rpc_max_response_bytes
    &&& c.rpc_timeout_ms == o.rpc_timeout_ms
    &&& c.quic == (o.quic != 0)
    &&& c.dcutr == (o.dcutr != 0)
    &&& c.reachability == reachability_of(o.reachability)
    &&& c.relay == (RelayConfig {
        server: o.relay.server != 0,
        client: o.relay.client != 0,
        max_reservations: o.relay.max_reservations,
        max_reservations_per_peer: o.relay.max_reservations_per_peer,
        reservation_duration_s: o.relay.reservation_duration_s,
        max_circuits: o.relay.max_circuits,
        max_circuits_per_peer: o.relay.max_circuits_per_peer,
        max_circuit_duration_s: o.relay.max_circuit_duration_s,
        max_circuit_bytes: o.relay.max_circuit_bytes,
        circuits_per_peer: bucket_for(o.relay.circuits_per_peer),
        circuits_per_ip: bucket_for(o.relay.circuits_per_ip),
    })
    &&& c.max_connections == (if o.max_connections == 0 {
        None
    } else {
        Some(o.max_connections)
    })
    &&& c.max_connections_per_peer == (if o.max_connections_per_peer == 0 {
        None
    } else {
        Some(o.max_connections_per_peer)
    })
    &&& c.max_pending_incoming == (if o.max_pending_incoming == 0 {
        None
    } else {
        Some(o.max_pending_incoming)
    })
    &&& match c.announce {
        Some(announce) => o.announce.enabled != 0 && announce.topic@ == announce_topic(o)
            && announce.max_payload_bytes == o.announce.max_payload_bytes,
        None => o.announce.enabled == 0,
    }
    &&& c.event_queue_bytes == queue_bytes(o)
}

fn parse_all(texts: &Vec<String>) -> (addresses: Option<Vec<Multiaddr>>)
    ensures
        match addresses {
            Some(addresses) => addresses@.len() == texts@.len() && forall|i: int|
                0 <= i < texts@.len() ==> crate::outside::multiaddr_of_text(
                    (#[trigger] texts@[i])@,
                ) == Some(addresses@[i]@),
            None => exists|i: int|
                0 <= i < texts@.len() && crate::outside::multiaddr_of_text(
                    (#[trigger] texts@[i])@,
                ) is None,
        },
{
    let mut addresses: Vec<Multiaddr> = Vec::new();
    let mut i: usize = 0;
    while i < texts.len()
        invariant
            i <= texts@.len(),
            addresses@.len() == i,
            forall|j: int|
                0 <= j < i ==> crate::outside::multiaddr_of_text((#[trigger] texts@[j])@) == Some(
                    addresses@[j]@,
                ),
        decreases texts@.len() - i,
    {
        match Multiaddr::parse(texts[i].as_str()) {
            Some(address) => addresses.push(address),
            None => return None,
        }
        i += 1;
    }
    Some(addresses)
}

/// Whether frames can carry the names of the protocols; a copy of them if so.
fn usable_protocols(protocols: &Vec<String>) -> (copies: Option<Vec<String>>)
    ensures
        match copies {
            Some(copies) => crate::node::protocols_usable(crate::node::names(protocols@))
                && crate::node::names(copies@) == crate::node::names(protocols@),
            None => !crate::node::protocols_usable(crate::node::names(protocols@)),
        },
{
    let ghost names = crate::node::names(protocols@);
    if protocols.len() > 65535 {
        return None;
    }
    let mut copies: Vec<String> = Vec::new();
    let mut i: usize = 0;
    while i < protocols.len()
        invariant
            names == crate::node::names(protocols@),
            i <= protocols@.len(),
            copies@.len() == i,
            forall|j: int|
                0 <= j < i ==> (#[trigger] copies@[j])@ == names[j] && 1
                    <= vstd::utf8::encode_utf8(names[j]).len() <= 255,
        decreases protocols@.len() - i,
    {
        let name = protocols[i].as_str().as_bytes();
        assert(name@ == vstd::utf8::encode_utf8(names[i as int]));
        if name.len() == 0 || name.len() > 255 {
            return None;
        }
        copies.push(protocols[i].clone());
        i += 1;
    }
    assert forall|j: int| 0 <= j < names.len() implies 1 <= vstd::utf8::encode_utf8(
        #[trigger] names[j],
    ).len() <= 255 by {
        assert(copies@[j]@ == names[j]);
    }
    assert(crate::node::names(copies@) =~= names);
    Some(copies)
}

/// What a node is started with, from what the caller asked for.
pub fn config_from(o: &lp2p_options) -> (config: Result<Config, i32>)
    ensures
        match config {
            Ok(c) => options_usable(*o) && config_matches(*o, c) && c.wf(),
            Err(status) => !options_usable(*o) && status == LP2P_ERR_INVALID_ARGUMENT,
        },
{
    let delegation = match Delegation::parse(o.delegation.as_slice()) {
        Ok(delegation) => delegation,
        Err(_) => return Err(LP2P_ERR_INVALID_ARGUMENT),
    };
    if !same_key(&delegation.group, &o.group) {
        return Err(LP2P_ERR_INVALID_ARGUMENT);
    }
    let listen = match parse_all(&o.listen_addrs) {
        Some(listen) => listen,
        None => return Err(LP2P_ERR_INVALID_ARGUMENT),
    };
    let dht_protocol = match &o.dht_protocol {
        Some(name) => name.clone(),
        None => return Err(LP2P_ERR_INVALID_ARGUMENT),
    };
    if !stream_protocol_valid(dht_protocol.as_str()) {
        return Err(LP2P_ERR_INVALID_ARGUMENT);
    }
    let announce = if o.announce.enabled != 0 {
        let topic = match &o.announce.topic {
            Some(topic) => topic.clone(),
            None => {
                let mut topic = dht_protocol.clone();
                topic.append("/announce");
                topic
            },
        };
        if topic.as_str().is_empty() {
            return Err(LP2P_ERR_INVALID_ARGUMENT);
        }
        Some(AnnounceConfig { topic, max_payload_bytes: o.announce.max_payload_bytes })
    } else {
        None
    };
    let rpc_protocols = match usable_protocols(&o.rpc_protocols) {
        Some(protocols) => protocols,
        None => return Err(LP2P_ERR_INVALID_ARGUMENT),
    };
    if o.rpc_max_request_bytes == 0 || o.rpc_max_response_bytes == 0 || o.rpc_timeout_ms == 0 {
        return Err(LP2P_ERR_INVALID_ARGUMENT);
    }
    let reachability = if o.reachability == LP2P_REACH_PRIVATE {
        Reachability::Private
    } else if o.reachability == LP2P_REACH_PUBLIC {
        Reachability::Public
    } else if o.reachability == LP2P_REACH_UNKNOWN {
        Reachability::Unknown
    } else {
        return Err(LP2P_ERR_INVALID_ARGUMENT);
    };
    let response: usize = o.rpc_max_response_bytes as usize;
    let least: usize = if response <= usize::MAX - 4096 {
        response + 4096
    } else {
        usize::MAX
    };
    Ok(
        Config {
            node_seed: o.node_seed,
            delegation,
            listen,
            dht_protocol,
            rpc_protocols,
            rpc_max_request_bytes: o.rpc_max_request_bytes,
            rpc_max_response_bytes: o.rpc_max_response_bytes,
            rpc_timeout_ms: o.rpc_timeout_ms,
            quic: o.quic != 0,
            dcutr: o.dcutr != 0,
            reachability,
            relay: RelayConfig {
                server: o.relay.server != 0,
                client: o.relay.client != 0,
                max_reservations: o.relay.max_reservations,
                max_reservations_per_peer: o.relay.max_reservations_per_peer,
                reservation_duration_s: o.relay.reservation_duration_s,
                max_circuits: o.relay.max_circuits,
                max_circuits_per_peer: o.relay.max_circuits_per_peer,
                max_circuit_duration_s: o.relay.max_circuit_duration_s,
                max_circuit_bytes: o.relay.max_circuit_bytes,
                circuits_per_peer: token_bucket(o.relay.circuits_per_peer),
                circuits_per_ip: token_bucket(o.relay.circuits_per_ip),
            },
            max_connections: limit(o.max_connections),
            max_connections_per_peer: limit(o.max_connections_per_peer),
            max_pending_incoming: limit(o.max_pending_incoming),
            announce,
            event_queue_bytes: if o.event_queue_bytes >= least {
                o.event_queue_bytes
            } else {
                least
            },
        },
    )
}

/// The defaults that a caller's options are laid over.
pub fn lp2p_options_default() -> (o: lp2p_options)
    ensures
        crate::abi::is_default(o),
{
    default_options()
}

/// Starts a node with a caller's options: its config, what its callers need of it, and its state.
pub fn lp2p_start(options: &lp2p_options, unix_ms: u64) -> (r: Result<(Config, Node, State), i32>)
    ensures
        match r {
            Ok((config, node, state)) => {
                &&& options_usable(*options)
                &&& config_matches(*options, config)
                &&& config.delegation.checked_for(
                    crate::outside::ed25519_public(options.node_seed@),
                    unix_ms,
                ) is Ok
                &&& node.rpc_protocol_count == options.rpc_protocols@.len()
                &&& node.rpc_max_request_bytes == options.rpc_max_request_bytes
                &&& node.rpc_timeout_ms == options.rpc_timeout_ms
                &&& node.announce_max_payload_bytes == (if options.announce.enabled != 0 {
                    Some(options.announce.max_payload_bytes)
                } else {
                    None
                })
                &&& state@ == crate::steps::StateView::initial(
                    config,
                    crate::keys::peer_of(crate::outside::ed25519_public(options.node_seed@)),
                )
                &&& state@.wf()
            },
            Err(status) => status == LP2P_ERR_INVALID_ARGUMENT && (!options_usable(*options)
                || crate::delegation::parsed(options.delegation@)->Ok_0.checked_for(
                crate::outside::ed25519_public(options.node_seed@),
                unix_ms,
            ) is Err),
        },
{
    match config_from(options) {
        Err(status) => Err(status),
        Ok(config) => match Node::start(&config, unix_ms) {
            Err(status) => Err(status),
            Ok((node, state)) => Ok((config, node, state)),
        },
    }
}

/// Polls a node's events. Waiting until there are some, or for as long as `timeout_ms` says, is
/// the caller's.
pub fn lp2p_poll(events: &mut EventQueue, buf: &mut [u8], timeout_ms: i32) -> (n: i32)
    ensures
        timeout_ms < 0 ==> n == LP2P_ERR_INVALID_ARGUMENT && final(events)@ == old(events)@
            && final(buf)@ == old(buf)@,
        timeout_ms >= 0 ==> {
            &&& n == old(events)@.answer(old(buf)@.len())
            &&& final(events)@ == old(events)@.polled(old(buf)@.len())
            &&& final(buf)@.len() == old(buf)@.len()
            &&& exists|little: bool| #[trigger]
                old(events)@.output(old(buf)@.len(), little) + old(buf)@.skip(
                    old(events)@.written(old(buf)@.len()) as int,
                ) == final(buf)@
        },
{
    if timeout_ms < 0 {
        return LP2P_ERR_INVALID_ARGUMENT;
    }
    events.poll(buf)
}

/// Whether a node takes a call: its protocol is one of the node's, its payload is not too large,
/// and a node that is named has a key.
pub open spec fn call_valid(
    node: Node,
    target: Option<lp2p_key>,
    protocol: u16,
    len: nat,
) -> bool {
    &&& protocol < node.rpc_protocol_count
    &&& len <= node.rpc_max_request_bytes
    &&& target is Some ==> crate::outside::ed25519_key_valid(target->0@)
}

/// A call to a group, or to one node of it. A timeout of 0 stands for the node's own.
pub fn lp2p_rpc_request(
    node: &Node,
    shared: &mut Shared,
    group: &lp2p_key,
    node_key: Option<lp2p_key>,
    protocol: u16,
    data: &[u8],
    timeout_ms: u32,
) -> (command: Result<Command, i32>)
    ensures
        match command {
            Ok(command) => {
                &&& call_valid(*node, node_key, protocol, data@.len())
                &&& final(shared)@ == (crate::node::SharedView {
                    next_id: crate::node::counted(old(shared).next_id),
                    ..old(shared)@
                })
                &&& command matches Command::Rpc {
                    id,
                    group: g,
                    node: n,
                    protocol: p,
                    payload,
                    timeout,
                }
                &&& id == old(shared).next_id
                &&& g == *group
                &&& n == node_key
                &&& p == protocol
                &&& payload@ == data@
                &&& timeout == (if timeout_ms == 0 {
                    node.rpc_timeout_ms * MILLISECOND
                } else {
                    timeout_ms * MILLISECOND
                })
            },
            Err(status) => {
                &&& !call_valid(*node, node_key, protocol, data@.len())
                &&& status == LP2P_ERR_INVALID_ARGUMENT
                &&& final(shared)@ == old(shared)@
            },
        },
{
    let max: usize = node.rpc_max_request_bytes as usize;
    if protocol as usize >= node.rpc_protocol_count || data.len() > max {
        return Err(LP2P_ERR_INVALID_ARGUMENT);
    }
    if let Some(target) = &node_key {
        if peer_id(target).is_none() {
            return Err(LP2P_ERR_INVALID_ARGUMENT);
        }
    }
    let id = node.next_id(shared);
    let timeout: u64 = if timeout_ms == 0 {
        node.rpc_timeout_ms as u64 * MILLISECOND
    } else {
        timeout_ms as u64 * MILLISECOND
    };
    Ok(
        Command::Rpc {
            id,
            group: *group,
            node: node_key,
            protocol,
            payload: copy_bytes(data),
            timeout,
        },
    )
}

/// The answer to a request.
pub fn lp2p_rpc_respond(request_id: u64, data: &[u8]) -> (command: Command)
    ensures
        command matches Command::Respond { id, payload } && id == request_id && payload@ == data@,
{
    Command::Respond { id: request_id, payload: copy_bytes(data) }
}

/// The refusal of a request.
pub fn lp2p_rpc_reject(request_id: u64) -> (command: Command)
    ensures
        command == (Command::Reject { id: request_id }),
{
    Command::Reject { id: request_id }
}

/// The class of a group.
pub fn lp2p_peer_set_class(group: &lp2p_key, peer_class: u8) -> (command: Command)
    ensures
        command == (Command::SetClass { group: *group, class: peer_class }),
{
    Command::SetClass { group: *group, class: peer_class }
}

/// A limit for a class. There is none for blocked groups, which are refused anyway, nor for a
/// protocol the node does not have.
pub fn lp2p_limit_set(
    node: &Node,
    peer_class: u8,
    scope: u8,
    protocol: u16,
    rate: lp2p_rate,
) -> (command: Result<Command, i32>)
    ensures
        ({
            let valid = scope <= LP2P_SCOPE_GLOBAL && peer_class != LP2P_CLASS_BLOCKED && (protocol
                == LP2P_PROTOCOL_ANY || protocol < node.rpc_protocol_count);
            match command {
                Ok(command) => valid && command == (Command::SetLimit {
                    class: peer_class,
                    scope,
                    protocol,
                    rate,
                }),
                Err(status) => !valid && status == LP2P_ERR_INVALID_ARGUMENT,
            }
        }),
{
    if scope > LP2P_SCOPE_GLOBAL || peer_class == LP2P_CLASS_BLOCKED || (protocol
        != LP2P_PROTOCOL_ANY && protocol as usize >= node.rpc_protocol_count) {
        return Err(LP2P_ERR_INVALID_ARGUMENT);
    }
    Ok(Command::SetLimit { class: peer_class, scope, protocol, rate })
}

/// What the node announces, where it announces anything.
pub fn lp2p_announce_set_payload(node: &Node, data: &[u8]) -> (command: Result<Command, i32>)
    ensures
        match command {
            Ok(command) => {
                &&& node.announce_max_payload_bytes is Some
                &&& data@.len() <= node.announce_max_payload_bytes->0
                &&& command matches Command::AnnounceSetPayload { payload }
                &&& payload@ == data@
            },
            Err(status) => match node.announce_max_payload_bytes {
                None => status == LP2P_ERR_UNAVAILABLE,
                Some(max) => data@.len() > max && status == LP2P_ERR_INVALID_ARGUMENT,
            },
        },
{
    match node.announce_max_payload_bytes {
        None => Err(LP2P_ERR_UNAVAILABLE),
        Some(max) => if data.len() > max as usize {
            Err(LP2P_ERR_INVALID_ARGUMENT)
        } else {
            Ok(Command::AnnounceSetPayload { payload: copy_bytes(data) })
        },
    }
}

/// An address of a node.
pub fn lp2p_add_address(node_key: &lp2p_key, multiaddr: &str) -> (command: Result<Command, i32>)
    ensures
        match command {
            Ok(command) => {
                &&& crate::outside::ed25519_key_valid(node_key@)
                &&& command matches Command::AddAddress { node, address }
                &&& node == *node_key
                &&& crate::outside::multiaddr_of_text(multiaddr@) == Some(address@)
            },
            Err(status) => status == LP2P_ERR_INVALID_ARGUMENT && (
            !crate::outside::ed25519_key_valid(node_key@) || crate::outside::multiaddr_of_text(
                multiaddr@,
            ) is None),
        },
{
    if peer_id(node_key).is_none() {
        return Err(LP2P_ERR_INVALID_ARGUMENT);
    }
    match Multiaddr::parse(multiaddr) {
        Some(address) => Ok(Command::AddAddress { node: *node_key, address }),
        None => Err(LP2P_ERR_INVALID_ARGUMENT),
    }
}

pub fn lp2p_dht_bootstrap(node: &Node, shared: &mut Shared) -> (command: Command)
    ensures
        command == (Command::Bootstrap { id: old(shared).next_id }),
        final(shared)@ == (crate::node::SharedView {
            next_id: crate::node::counted(old(shared).next_id),
            ..old(shared)@
        }),
{
    Command::Bootstrap { id: node.next_id(shared) }
}

pub fn lp2p_dht_random_walk(node: &Node, shared: &mut Shared) -> (command: Command)
    ensures
        command == (Command::RandomWalk { id: old(shared).next_id }),
        final(shared)@ == (crate::node::SharedView {
            next_id: crate::node::counted(old(shared).next_id),
            ..old(shared)@
        }),
{
    Command::RandomWalk { id: node.next_id(shared) }
}

pub open spec fn record_views(records: Seq<Record>) -> Seq<crate::events::RecordView> {
    records.map_values(|r: Record| r@)
}

/// A sample of the routing table into `buf`: as many whole records as fit, the bytes written.
pub fn lp2p_routing_sample(records: &Vec<Record>, buf: &mut [u8]) -> (n: i32)
    ensures
        ({
            let views = record_views(records@);
            let count = crate::events::fitting(views, old(buf)@.len() as int);
            let out = crate::events::joined(views.take(count as int));
            &&& final(buf)@ == out + old(buf)@.skip(out.len() as int)
            &&& n == out.len() as i32
        }),
{
    crate::events::write_records(records, buf)
}

/// The counts of a node, for a caller whose struct says how much of it there is.
pub fn lp2p_stats_get(shared: &Shared, size: u32) -> (stats: Result<lp2p_stats, i32>)
    ensures
        match stats {
            Ok(stats) => size >= 4 && stats == (lp2p_stats {
                size,
                connections: shared.connections,
                routing_table_peers: shared.routing_table_peers,
                reserved: 0,
                rpc_in: shared.rpc_in,
                rpc_out: shared.rpc_out,
                rpc_limited: shared.rpc_limited,
                events_dropped: shared@.log.dropped,
            }),
            Err(status) => size < 4 && status == LP2P_ERR_INVALID_ARGUMENT,
        },
{
    if size < 4 {
        return Err(LP2P_ERR_INVALID_ARGUMENT);
    }
    Ok(
        lp2p_stats {
            size,
            connections: shared.connections,
            routing_table_peers: shared.routing_table_peers,
            reserved: 0,
            rpc_in: shared.rpc_in,
            rpc_out: shared.rpc_out,
            rpc_limited: shared.rpc_limited,
            events_dropped: shared.events.dropped(),
        },
    )
}

/// The public key of a seed. Every seed has one.
pub fn lp2p_key_from_seed(seed: &[u8; 32]) -> (key: Result<lp2p_key, i32>)
    ensures
        key is Ok,
        key->Ok_0@ == crate::outside::ed25519_public(seed@),
        crate::outside::ed25519_key_valid(key->Ok_0@),
{
    match keypair_from_seed(seed) {
        Some(keypair) => match public_key(&keypair) {
            Some(key) => Ok(key),
            None => Err(LP2P_ERR_INVALID_ARGUMENT),
        },
        None => Err(LP2P_ERR_INVALID_ARGUMENT),
    }
}

/// A delegation to a node, by the group whose seed it is. Every seed signs, and what it signs
/// passes its checks until it expires.
pub fn lp2p_delegation_sign(group_seed: &[u8; 32], node_key: &lp2p_key, expires_ms: u64) -> (r:
    Result<[u8; 136], i32>)
    ensures
        r is Ok,
        ({
            let d = crate::delegation::parsed(r->Ok_0@)->Ok_0;
            &&& d.bytes() == r->Ok_0@
            &&& d.node == *node_key
            &&& d.group@ == crate::outside::ed25519_public(group_seed@)
            &&& d.expires_ms == expires_ms
            &&& d.signature@ == crate::outside::ed25519_signature(
                group_seed@,
                crate::delegation::signed_message(node_key@, d.group@, expires_ms),
            )
            &&& forall|now_ms: u64| #[trigger]
                d.checked(now_ms) is Ok <==> !d.expired(now_ms)
        }),
{
    match Delegation::sign(group_seed, node_key, expires_ms) {
        Some(delegation) => {
            proof {
                crate::delegation::law_delegation_read_back(delegation);
            }
            Ok(delegation.to_bytes())
        },
        None => Err(LP2P_ERR_INVALID_ARGUMENT),
    }
}

/// What checking a delegation at a moment comes to: the group and the node it names, if it is one
/// and is good then.
pub open spec fn delegation_verdict(delegation: Seq<u8>, now_ms: u64) -> Result<
    (lp2p_key, lp2p_key),
    i32,
> {
    match crate::delegation::parsed(delegation) {
        Err(_) => Err(LP2P_ERR_INVALID_ARGUMENT),
        Ok(d) => if d.checked(now_ms) is Ok {
            Ok((d.group, d.node))
        } else {
            Err(LP2P_ERR_INVALID_ARGUMENT)
        },
    }
}

/// The group and the node that a delegation names, if it is good at the given moment, or now where
/// that is 0.
pub fn lp2p_delegation_verify(delegation: &[u8], now_ms_or_zero: u64) -> (r: Result<
    (lp2p_key, lp2p_key),
    i32,
>)
    ensures
        now_ms_or_zero != 0 ==> r == delegation_verdict(delegation@, now_ms_or_zero),
        exists|now: u64| r == #[trigger] delegation_verdict(delegation@, now),
{
    let now = if now_ms_or_zero == 0 {
        now_ms()
    } else {
        now_ms_or_zero
    };
    let r = match Delegation::parse(delegation) {
        Err(_) => Err(LP2P_ERR_INVALID_ARGUMENT),
        Ok(d) => if d.verify(now).is_ok() {
            Ok((d.group, d.node))
        } else {
            Err(LP2P_ERR_INVALID_ARGUMENT)
        },
    };
    assert(r == delegation_verdict(delegation@, now));
    r
}

/// What a node can be started with, said of the options alone: a delegation of the right length for
/// the group named, addresses that are addresses, a DHT protocol with a slash in front, a topic if
/// announcements are on, protocol names that a frame can carry, sizes and a time that are not zero,
/// and a reachability that there is.
pub proof fn law_usable_options(o: lp2p_options)
    ensures
        options_usable(o) <==> {
            &&& o.delegation@.len() == 136
            &&& crate::delegation::parsed(o.delegation@)->Ok_0.group@ == o.group@
            &&& forall|i: int|
                0 <= i < o.listen_addrs@.len() ==> crate::outside::multiaddr_of_text(
                    (#[trigger] o.listen_addrs@[i])@,
                ) is Some
            &&& o.dht_protocol is Some && o.dht_protocol->0@.len() > 0 && o.dht_protocol->0@[0]
                == '/'
            &&& o.announce.enabled == 0 || o.announce.topic is None || o.announce.topic->0@.len()
                > 0
            &&& o.rpc_protocols@.len() <= 65535
            &&& forall|i: int|
                0 <= i < o.rpc_protocols@.len() ==> 1 <= vstd::utf8::encode_utf8(
                    (#[trigger] o.rpc_protocols@[i])@,
                ).len() <= 255
            &&& o.rpc_max_request_bytes > 0
            &&& o.rpc_max_response_bytes > 0
            &&& o.rpc_timeout_ms > 0
            &&& o.reachability <= 2
        },
{
    let names = crate::node::names(o.rpc_protocols@);
    if crate::node::protocols_usable(names) {
        assert forall|i: int| 0 <= i < o.rpc_protocols@.len() implies 1 <= vstd::utf8::encode_utf8(
            (#[trigger] o.rpc_protocols@[i])@,
        ).len() <= 255 by {
            assert(names[i] == o.rpc_protocols@[i]@);
        }
    }
    if forall|i: int|
        0 <= i < o.rpc_protocols@.len() ==> 1 <= vstd::utf8::encode_utf8(
            (#[trigger] o.rpc_protocols@[i])@,
        ).len() <= 255 {
        assert forall|i: int| 0 <= i < names.len() implies 1 <= vstd::utf8::encode_utf8(
            #[trigger] names[i],
        ).len() <= 255 by {
            assert(names[i] == o.rpc_protocols@[i]@);
        }
    }
}

/// Announcements are made on the topic that the caller names, else on the DHT protocol with
/// "/announce" behind it; they are off exactly if the caller switches them off.
pub proof fn law_announce_topic(o: lp2p_options, c: Config)
    requires
        config_matches(o, c),
    ensures
        c.announce is Some <==> o.announce.enabled != 0,
        c.announce is Some ==> c.announce->0.max_payload_bytes == o.announce.max_payload_bytes,
        c.announce is Some && o.announce.topic is Some ==> c.announce->0.topic@
            == o.announce.topic->0@,
        c.announce is Some && o.announce.topic is None ==> c.announce->0.topic@
            == o.dht_protocol->0@ + "/announce"@,
{
}

/// A node announces where its options say: whatever happens to it, what is announced is published on
/// the topic the caller named, else on the DHT protocol with "/announce" behind it.
pub proof fn law_published_on_the_topic(
    o: lp2p_options,
    c: Config,
    local_peer: (u64, Seq<u8>),
    inputs: Seq<(crate::laws::Input, crate::steps::Env)>,
    payload: Vec<u8>,
    env: crate::steps::Env,
    i: int,
)
    requires
        config_matches(o, c),
    ensures
        ({
            let state = crate::laws::run(
                crate::steps::StateView::initial(c, local_peer),
                inputs,
            ).0;
            let actions = state.commanded(Command::AnnounceSetPayload { payload }, env).actions;
            0 <= i < actions.len() ==> {
                &&& o.announce.enabled != 0
                &&& actions[i] matches crate::steps::ActionView::Publish { topic, .. } && topic == (
                match o.announce.topic {
                    Some(topic) => topic@,
                    None => o.dht_protocol->0@ + "/announce"@,
                })
            }
        }),
{
    crate::laws::law_identity_is_kept_over_runs(
        crate::steps::StateView::initial(c, local_peer),
        inputs,
    );
}

/// A node's config is what its options say, field by field; a zero in a limit on connections means
/// no limit, and other numbers that stand for yes or no mean yes unless they are zero.
pub proof fn law_config_follows_options(o: lp2p_options, c: Config, d: Delegation, i: int)
    requires
        config_matches(o, c),
        o.delegation@ == d.bytes(),
        o.reachability <= 2,
    ensures
        c.node_seed == o.node_seed,
        c.delegation == d,
        c.listen@.len() == o.listen_addrs@.len(),
        0 <= i < o.listen_addrs@.len() ==> crate::outside::multiaddr_of_text(o.listen_addrs@[i]@)
            == Some(c.listen@[i]@),
        c.dht_protocol@ == o.dht_protocol->0@,
        c.rpc_protocols@.len() == o.rpc_protocols@.len(),
        0 <= i < o.rpc_protocols@.len() ==> c.rpc_protocols@[i]@ == o.rpc_protocols@[i]@,
        c.rpc_max_request_bytes == o.rpc_max_request_bytes,
        c.rpc_max_response_bytes == o.rpc_max_response_bytes,
        c.rpc_timeout_ms == o.rpc_timeout_ms,
        c.quic <==> o.quic != 0,
        c.dcutr <==> o.dcutr != 0,
        c.reachability == Reachability::Unknown <==> o.reachability == 0,
        c.reachability == Reachability::Public <==> o.reachability == 1,
        c.reachability == Reachability::Private <==> o.reachability == 2,
        c.relay.server <==> o.relay.server != 0,
        c.relay.client <==> o.relay.client != 0,
        c.relay.max_reservations == o.relay.max_reservations,
        c.relay.max_reservations_per_peer == o.relay.max_reservations_per_peer,
        c.relay.reservation_duration_s == o.relay.reservation_duration_s,
        c.relay.max_circuits == o.relay.max_circuits,
        c.relay.max_circuits_per_peer == o.relay.max_circuits_per_peer,
        c.relay.max_circuit_duration_s == o.relay.max_circuit_duration_s,
        c.relay.max_circuit_bytes == o.relay.max_circuit_bytes,
        c.relay.circuits_per_peer == bucket_for(o.relay.circuits_per_peer),
        c.relay.circuits_per_ip == bucket_for(o.relay.circuits_per_ip),
        c.max_connections is None <==> o.max_connections == 0,
        c.max_connections is Some ==> c.max_connections->0 == o.max_connections,
        c.max_connections_per_peer is None <==> o.max_connections_per_peer == 0,
        c.max_connections_per_peer is Some ==> c.max_connections_per_peer->0
            == o.max_connections_per_peer,
        c.max_pending_incoming is None <==> o.max_pending_incoming == 0,
        c.max_pending_incoming is Some ==> c.max_pending_incoming->0 == o.max_pending_incoming,
{
    crate::delegation::law_delegation_read_back(d);
    let (a, b) = (crate::node::names(c.rpc_protocols@), crate::node::names(o.rpc_protocols@));
    assert(a.len() == c.rpc_protocols@.len() && b.len() == o.rpc_protocols@.len());
    if 0 <= i < o.rpc_protocols@.len() {
        assert(a[i] == b[i]);
    }
}

/// The event queue is as large as asked for, and large enough for the largest response with 4096
/// bytes to spare; no larger than one of the two asks for.
pub proof fn law_queue_size(o: lp2p_options, c: Config)
    requires
        config_matches(o, c),
        o.rpc_max_response_bytes + 4096 <= usize::MAX,
    ensures
        c.event_queue_bytes >= o.event_queue_bytes,
        c.event_queue_bytes >= o.rpc_max_response_bytes + 4096,
        c.event_queue_bytes == o.event_queue_bytes || c.event_queue_bytes
            == o.rpc_max_response_bytes + 4096,
{
}

/// A relay's limiter is off exactly if its rate has a zero. Else it holds the burst, and adds one
/// token in the longest time that is no slower than the rate, but no more than one a millisecond.
pub proof fn law_relay_rate(rate: lp2p_rate)
    ensures
        bucket_for(rate) is None <==> rate.amount == 0 || rate.interval_ms == 0 || rate.burst == 0,
        bucket_for(rate) is Some ==> ({
            let bucket = bucket_for(rate)->0;
            &&& bucket.burst == rate.burst
            &&& bucket.interval_ms >= 1
            &&& bucket.interval_ms > 1 ==> bucket.interval_ms * rate.amount <= rate.interval_ms
            &&& (bucket.interval_ms + 1) * rate.amount > rate.interval_ms
        }),
{
    if rate.is_on() {
        let (i, a) = (rate.interval_ms as int, rate.amount as int);
        let q = i / a;
        vstd::arithmetic::div_mod::lemma_fundamental_div_mod(i, a);
        assert(a * q == q * a && (q + 1) * a == q * a + a && (1 + 1) * a == a + a)
            by (nonlinear_arith);
        if i >= a {
            assert(q >= 1) by (nonlinear_arith)
                requires
                    q * a + i % a == i,
                    i % a < a,
                    i >= a,
                    a > 0,
            ;
        }
    }
}

/// Whether a call is taken: the protocol is one of the node's, the payload is within its limit, and
/// a node that is named has a key.
pub proof fn law_calls_taken(node: Node, target: Option<lp2p_key>, protocol: u16, len: nat)
    ensures
        call_valid(node, target, protocol, len) <==> protocol < node.rpc_protocol_count && len
            <= node.rpc_max_request_bytes && (target is None || crate::outside::ed25519_key_valid(
            target->0@,
        )),
{
}

/// What a delegation is worth at a moment: it names its group and its node if it passes its checks.
pub proof fn law_delegation_verdict(d: Delegation, now_ms: u64, bytes: Seq<u8>)
    ensures
        d.checked(now_ms) is Ok ==> delegation_verdict(d.bytes(), now_ms) == Ok::<
            (lp2p_key, lp2p_key),
            i32,
        >((d.group, d.node)),
        d.checked(now_ms) is Err ==> delegation_verdict(d.bytes(), now_ms) is Err,
        bytes.len() != 136 ==> delegation_verdict(bytes, now_ms) is Err,
        delegation_verdict(bytes, now_ms) is Err ==> delegation_verdict(bytes, now_ms)->Err_0 == -1,
{
    crate::delegation::law_delegation_read_back(d);
}

} // verus!
