//! What the functions of the C interface decide.

use libp2p_ffi::abi::{
    default_options, lp2p_options, lp2p_rate, LP2P_ABI_VERSION, LP2P_CLASS_BLOCKED,
    LP2P_ERR_INVALID_ARGUMENT, LP2P_ERR_PANIC, LP2P_ERR_SHUT_DOWN, LP2P_ERR_UNAVAILABLE,
    LP2P_EV_LISTENING, LP2P_OK, LP2P_PROTOCOL_ANY, LP2P_REACH_PRIVATE, LP2P_REACH_PUBLIC,
    LP2P_SCOPE_GLOBAL, LP2P_SCOPE_PEER,
};
use libp2p_ffi::events::EventBuilder;
use libp2p_ffi::ffi::{
    config_from, known_size, limit, lp2p_abi_version, lp2p_add_address, lp2p_announce_set_payload,
    lp2p_delegation_sign, lp2p_dht_bootstrap, lp2p_dht_random_walk, lp2p_key_from_seed,
    lp2p_limit_set, lp2p_options_default, lp2p_peer_set_class, lp2p_poll, lp2p_routing_sample,
    lp2p_rpc_reject, lp2p_rpc_request, lp2p_rpc_respond, lp2p_start, lp2p_stats_get, status,
    token_bucket,
};
use libp2p_ffi::node::{Command, Node, Reachability, Shared};

fn options() -> lp2p_options {
    let group_seed = [9; 32];
    let mut options = default_options();
    options.node_seed = [8; 32];
    options.group = lp2p_key_from_seed(&group_seed).unwrap();
    let node = lp2p_key_from_seed(&options.node_seed).unwrap();
    options.delegation = lp2p_delegation_sign(&group_seed, &node, 0).unwrap().to_vec();
    options.listen_addrs = vec!["/ip4/127.0.0.1/tcp/0".to_string()];
    options.dht_protocol = Some("/test/kad/1".to_string());
    options.rpc_protocols = vec!["/test/a/1".to_string(), "/test/b/1".to_string()];
    options
}

fn node() -> Node {
    Node {
        rpc_protocol_count: 2,
        rpc_max_request_bytes: 4,
        rpc_timeout_ms: 10_000,
        announce_max_payload_bytes: Some(3),
    }
}

fn refused(change: fn(&mut lp2p_options)) -> bool {
    let mut o = options();
    change(&mut o);
    matches!(config_from(&o), Err(LP2P_ERR_INVALID_ARGUMENT))
}

#[test]
fn a_rate_becomes_libp2ps_token_bucket() {
    // One circuit per two minutes, thirty in reserve: libp2p's own default.
    let bucket = token_bucket(lp2p_rate { amount: 1, interval_ms: 120_000, burst: 30 }).unwrap();
    assert_eq!((bucket.burst, bucket.interval_ms), (30, 120 * 1000));
    // Ten per second is one every 100 ms.
    let bucket = token_bucket(lp2p_rate { amount: 10, interval_ms: 1000, burst: 5 }).unwrap();
    assert_eq!(bucket.interval_ms, 100);
    // Any zero switches the limiter off rather than blocking everything.
    assert!(token_bucket(lp2p_rate { amount: 0, interval_ms: 1000, burst: 5 }).is_none());
    assert!(token_bucket(lp2p_rate { amount: 1, interval_ms: 1000, burst: 0 }).is_none());
    assert_eq!(limit(0), None);
    assert_eq!(limit(7), Some(7));
}

#[test]
fn a_rate_faster_than_a_millisecond_becomes_one() {
    let bucket = token_bucket(lp2p_rate { amount: 3000, interval_ms: 1000, burst: 1 }).unwrap();
    assert_eq!(bucket.interval_ms, 1);
    assert!(token_bucket(lp2p_rate { amount: 1, interval_ms: 0, burst: 1 }).is_none());
}

#[test]
fn usable_options_become_a_config() {
    let mut o = options();
    o.max_connections = 5;
    o.quic = 0;
    o.reachability = LP2P_REACH_PRIVATE;
    let c = config_from(&o).unwrap_or_else(|_| panic!("refused"));
    assert_eq!(c.delegation.group, o.group);
    assert_eq!(c.listen[0].to_text(), "/ip4/127.0.0.1/tcp/0");
    assert_eq!(c.dht_protocol, "/test/kad/1");
    assert_eq!(c.rpc_protocols, o.rpc_protocols);
    assert_eq!((c.max_connections, c.max_connections_per_peer), (Some(5), None));
    assert_eq!((c.quic, c.dcutr), (false, true));
    assert_eq!(c.reachability, Reachability::Private);
    assert_eq!(c.relay.circuits_per_peer.unwrap().interval_ms, 120_000);
    assert_eq!(c.relay.circuits_per_ip.unwrap().burst, 60);
    // Derived from the DHT protocol.
    assert_eq!(c.announce.unwrap().topic, "/test/kad/1/announce");
    // Enough for the largest response.
    assert_eq!(c.event_queue_bytes, (10 << 20) + 4096);

    o.announce.topic = Some("elsewhere".to_string());
    o.announce.max_payload_bytes = 7;
    o.event_queue_bytes = 100 << 20;
    o.reachability = LP2P_REACH_PUBLIC;
    let c = config_from(&o).unwrap_or_else(|_| panic!("refused"));
    let announce = c.announce.unwrap();
    assert_eq!((announce.topic.as_str(), announce.max_payload_bytes), ("elsewhere", 7));
    assert_eq!(c.event_queue_bytes, 100 << 20);
    assert_eq!(c.reachability, Reachability::Public);
    o.announce.enabled = 0;
    o.announce.topic = Some(String::new());
    assert!(config_from(&o).unwrap_or_else(|_| panic!("refused")).announce.is_none());
}

#[test]
fn options_that_cannot_be_used_are_refused() {
    assert!(!refused(|_| {}));
    assert!(refused(|o| o.delegation.truncate(135)));
    assert!(refused(|o| o.group[0] ^= 1));
    assert!(refused(|o| o.listen_addrs.push("nowhere".to_string())));
    assert!(refused(|o| o.dht_protocol = None));
    assert!(refused(|o| o.dht_protocol = Some("test".to_string())));
    assert!(refused(|o| o.dht_protocol = Some(String::new())));
    assert!(refused(|o| o.announce.topic = Some(String::new())));
    assert!(refused(|o| o.rpc_protocols.push(String::new())));
    assert!(refused(|o| o.rpc_protocols.push("x".repeat(256))));
    assert!(!refused(|o| o.rpc_protocols.push("x".repeat(255))));
    assert!(refused(|o| o.rpc_protocols = vec!["p".to_string(); 65536]));
    assert!(refused(|o| o.rpc_max_request_bytes = 0));
    assert!(refused(|o| o.rpc_max_response_bytes = 0));
    assert!(refused(|o| o.rpc_timeout_ms = 0));
    assert!(refused(|o| o.reachability = 3));
}

#[test]
fn a_node_starts_with_what_it_was_given() {
    let (config, node, state) = match lp2p_start(&options(), 1) {
        Ok(started) => started,
        Err(status) => panic!("{status}"),
    };
    assert_eq!(node.rpc_protocol_count, 2);
    assert_eq!(node.rpc_max_request_bytes, 1 << 20);
    assert_eq!(node.rpc_timeout_ms, 10_000);
    assert_eq!(node.announce_max_payload_bytes, Some(1024));
    assert_eq!(config.delegation.node, lp2p_key_from_seed(&[8; 32]).unwrap());
    assert_eq!(state.shared().next_id, 1);
    assert!(matches!(lp2p_start(&default_options(), 1), Err(LP2P_ERR_INVALID_ARGUMENT)));
}

#[test]
fn the_defaults_are_documented() {
    let o = lp2p_options_default();
    assert_eq!(lp2p_abi_version(), LP2P_ABI_VERSION);
    assert_eq!((o.rpc_max_request_bytes, o.rpc_max_response_bytes), (1 << 20, 10 << 20));
    assert_eq!((o.rpc_timeout_ms, o.event_queue_bytes), (10_000, 1 << 20));
    assert_eq!(o.relay.circuits_per_ip, lp2p_rate { amount: 1, interval_ms: 60_000, burst: 60 });
    assert!(o.dht_protocol.is_none() && o.rpc_protocols.is_empty());
}

#[test]
fn sizes_are_taken_from_the_smaller_side() {
    assert_eq!(known_size(3, 40), Err(LP2P_ERR_INVALID_ARGUMENT));
    assert_eq!(known_size(4, 40), Ok(4));
    assert_eq!(known_size(40, 40), Ok(40));
    assert_eq!(known_size(1000, 40), Ok(40));
    assert_eq!((status(Ok(3)), status(Err(-4))), (3, -4));
}

#[test]
fn calls_are_checked_before_they_are_numbered() {
    let mut shared = Shared::new(1024);
    let target = lp2p_key_from_seed(&[3; 32]).unwrap();
    let ask = |shared: &mut Shared, node_key, protocol, data: &[u8], timeout_ms| {
        lp2p_rpc_request(&node(), shared, &[1; 32], node_key, protocol, data, timeout_ms)
    };
    assert!(matches!(ask(&mut shared, None, 2, b"", 0), Err(LP2P_ERR_INVALID_ARGUMENT)));
    assert!(matches!(ask(&mut shared, None, 1, b"12345", 0), Err(LP2P_ERR_INVALID_ARGUMENT)));
    let no_key = (0..=255u8)
        .map(|b| {
            let mut key = [0u8; 32];
            key[0] = b;
            key
        })
        .find(|key| libp2p::identity::ed25519::PublicKey::try_from_bytes(key).is_err());
    assert!(matches!(ask(&mut shared, no_key, 1, b"", 0), Err(LP2P_ERR_INVALID_ARGUMENT)));
    assert_eq!(shared.next_id, 1);
    match ask(&mut shared, Some(target), 1, b"1234", 0) {
        Ok(Command::Rpc { id, group, node, protocol, payload, timeout }) => {
            assert_eq!((id, group, node, protocol), (1, [1; 32], Some(target), 1));
            assert_eq!(payload, b"1234");
            assert_eq!(timeout, 10_000_000_000);
        }
        _ => panic!("refused"),
    }
    match ask(&mut shared, None, 0, b"", 25) {
        Ok(Command::Rpc { id, node, timeout, .. }) => {
            assert_eq!((id, node, timeout), (2, None, 25_000_000));
        }
        _ => panic!("refused"),
    }
    assert!(matches!(lp2p_dht_bootstrap(&node(), &mut shared), Command::Bootstrap { id: 3 }));
    assert!(matches!(lp2p_dht_random_walk(&node(), &mut shared), Command::RandomWalk { id: 4 }));
    // Numbers start over behind the largest.
    shared.next_id = u64::MAX;
    assert_eq!(node().next_id(&mut shared), u64::MAX);
    assert_eq!(node().next_id(&mut shared), 0);
}

#[test]
fn commands_say_what_the_caller_said() {
    let key = lp2p_key_from_seed(&[3; 32]).unwrap();
    assert!(matches!(lp2p_rpc_reject(7), Command::Reject { id: 7 }));
    match lp2p_rpc_respond(7, b"yes") {
        Command::Respond { id, payload } => assert_eq!((id, payload), (7, b"yes".to_vec())),
        _ => panic!("no response"),
    }
    match lp2p_peer_set_class(&key, 9) {
        Command::SetClass { group, class } => assert_eq!((group, class), (key, 9)),
        _ => panic!("no class"),
    }
    match lp2p_add_address(&key, "/ip4/1.2.3.4/tcp/5") {
        Ok(Command::AddAddress { node, address }) => {
            assert_eq!((node, address.to_text()), (key, "/ip4/1.2.3.4/tcp/5".to_string()))
        }
        _ => panic!("no address"),
    }
    assert!(matches!(lp2p_add_address(&key, "1.2.3.4"), Err(LP2P_ERR_INVALID_ARGUMENT)));
}

#[test]
fn limits_are_for_classes_scopes_and_protocols_there_are() {
    let rate = lp2p_rate { amount: 1, interval_ms: 60_000, burst: 2 };
    let set = |class, scope, protocol| lp2p_limit_set(&node(), class, scope, protocol, rate);
    match set(7, LP2P_SCOPE_PEER, 1) {
        Ok(Command::SetLimit { class, scope, protocol, rate: r }) => {
            assert_eq!((class, scope, protocol, r), (7, LP2P_SCOPE_PEER, 1, rate))
        }
        _ => panic!("refused"),
    }
    assert!(set(0, LP2P_SCOPE_GLOBAL, LP2P_PROTOCOL_ANY).is_ok());
    assert!(matches!(set(7, LP2P_SCOPE_GLOBAL + 1, 0), Err(LP2P_ERR_INVALID_ARGUMENT)));
    assert!(matches!(set(LP2P_CLASS_BLOCKED, 0, 0), Err(LP2P_ERR_INVALID_ARGUMENT)));
    assert!(matches!(set(7, LP2P_SCOPE_PEER, 2), Err(LP2P_ERR_INVALID_ARGUMENT)));
}

#[test]
fn a_payload_to_announce_has_to_fit() {
    match lp2p_announce_set_payload(&node(), b"abc") {
        Ok(Command::AnnounceSetPayload { payload }) => assert_eq!(payload, b"abc"),
        _ => panic!("refused"),
    }
    assert!(matches!(
        lp2p_announce_set_payload(&node(), b"abcd"),
        Err(LP2P_ERR_INVALID_ARGUMENT)
    ));
    let quiet = Node { announce_max_payload_bytes: None, ..node() };
    assert!(matches!(lp2p_announce_set_payload(&quiet, b"abcd"), Err(LP2P_ERR_UNAVAILABLE)));
}

#[test]
fn polling_and_counting() {
    let mut shared = Shared::new(1024);
    shared.events.push(EventBuilder::new(LP2P_EV_LISTENING).build());
    let mut buf = [0u8; 100];
    assert_eq!(lp2p_poll(&mut shared.events, &mut buf, -1), LP2P_ERR_INVALID_ARGUMENT);
    assert_eq!(lp2p_poll(&mut shared.events, &mut buf, 0), 88);
    assert_eq!(lp2p_poll(&mut shared.events, &mut buf, 0), 0);
    shared.connections = 2;
    shared.routing_table_peers = 3;
    shared.rpc_in = 4;
    shared.rpc_out = 5;
    shared.rpc_limited = 6;
    shared.events.push(EventBuilder::new(LP2P_EV_LISTENING).data(&[0; 2000]));
    let stats = lp2p_stats_get(&shared, 48).unwrap();
    assert_eq!((stats.size, stats.connections, stats.routing_table_peers), (48, 2, 3));
    assert_eq!((stats.rpc_in, stats.rpc_out, stats.rpc_limited), (4, 5, 6));
    assert_eq!((stats.reserved, stats.events_dropped), (0, 1));
    assert!(matches!(lp2p_stats_get(&shared, 3), Err(LP2P_ERR_INVALID_ARGUMENT)));
}

#[test]
fn a_sample_fills_the_buffer_with_whole_records() {
    let records = vec![EventBuilder::new(9).id(1).build(), EventBuilder::new(9).id(2).build()];
    let mut buf = [0u8; 100];
    assert_eq!(lp2p_routing_sample(&records, &mut buf), 88);
    let mut large = [0u8; 200];
    assert_eq!(lp2p_routing_sample(&records, &mut large), 176);
}

#[test]
fn a_node_that_ended_says_why() {
    let mut shared = Shared::new(1024);
    assert_eq!(node().send(&shared, true), LP2P_OK);
    assert_eq!(node().send(&shared, false), LP2P_ERR_SHUT_DOWN);
    shared.ended(true);
    assert_eq!(node().send(&shared, true), LP2P_ERR_PANIC);
    shared.ended(false);
    let mut buf = [0u8; 8];
    assert_eq!(shared.events.poll(&mut buf), LP2P_ERR_PANIC);
    let mut orderly = Shared::new(1024);
    orderly.ended(false);
    assert!(!orderly.poisoned);
    assert_eq!(orderly.events.poll(&mut buf), LP2P_ERR_SHUT_DOWN);
}
