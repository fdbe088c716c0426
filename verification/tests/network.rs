//! Nodes that talk to each other. The network between them is played by hand: it performs what the
//! nodes ask for, in order and without loss, on a clock that the tests set.

use libp2p_ffi::abi::{
    default_options, lp2p_key, lp2p_options, lp2p_rate, LP2P_CLASS_BLOCKED, LP2P_CLASS_UNKNOWN,
    LP2P_ERR_INVALID_ARGUMENT, LP2P_ERR_UNAVAILABLE, LP2P_EVF_LAST, LP2P_EV_ANNOUNCEMENT,
    LP2P_EV_DHT_RESULT, LP2P_EV_LIMITED, LP2P_EV_LISTENING, LP2P_EV_PEER_CONNECTED,
    LP2P_EV_PEER_DISCONNECTED, LP2P_EV_PEER_DISCOVERED, LP2P_EV_REACHABILITY, LP2P_EV_RPC_FAILED,
    LP2P_EV_RPC_REQUEST,
    LP2P_EV_RPC_RESPONSE, LP2P_FAIL_REFUSED, LP2P_FAIL_TIMEOUT, LP2P_FAIL_UNREACHABLE,
    LP2P_LIMITED_BLOCKED, LP2P_PROTOCOL_ANY, LP2P_REACH_PRIVATE, LP2P_REACH_PUBLIC,
    LP2P_REACH_UNKNOWN, LP2P_SCOPE_PEER,
};
use libp2p_ffi::delegation::Delegation;
use libp2p_ffi::ffi::{
    lp2p_announce_set_payload, lp2p_delegation_sign, lp2p_key_from_seed, lp2p_limit_set,
    lp2p_peer_set_class, lp2p_rpc_request, lp2p_rpc_respond, lp2p_start, lp2p_stats_get,
};
use libp2p_ffi::keys::{peer_id, PeerId};
use libp2p_ffi::limits::SECOND;
use libp2p_ffi::multiaddr::Multiaddr;
use libp2p_ffi::node::{Command, Node};
use libp2p_ffi::state::{discovered, peer_key, provider_key, State};
use libp2p_ffi::steps::{
    Acceptance, Action, Env, Failure, KadEvent, PeerInfo, Query, RpcEvent, SwarmEvent,
};
use libp2p_ffi::wire::{decode_response, encode_request, encode_response};

const START: u64 = 1_000 * SECOND;
const UNIX_MS: u64 = 1_700_000_000_000;

#[derive(Clone, Debug)]
struct Event {
    kind: u16,
    flags: u16,
    id: u64,
    group: lp2p_key,
    node: lp2p_key,
    protocol: u16,
    reason: u16,
    data: Vec<u8>,
}

struct TestNode {
    state: State,
    node: Node,
    key: lp2p_key,
    group: lp2p_key,
    group_seed: [u8; 32],
    peer: PeerId,
    alive: bool,
    /// Streams held: the number here, the asking node and its call.
    held: Vec<(u64, usize, u64)>,
    answers: Option<Vec<u8>>,
    /// The group and the protocol of each request it answered.
    seen: Vec<(lp2p_key, u16)>,
}

struct Net {
    nodes: Vec<TestNode>,
    now: u64,
}

fn options_of(
    node_seed: [u8; 32],
    group_seed: [u8; 32],
    expires_ms: u64,
) -> Result<lp2p_options, i32> {
    let mut options = default_options();
    options.node_seed = node_seed;
    options.group = lp2p_key_from_seed(&group_seed)?;
    let key = lp2p_key_from_seed(&node_seed)?;
    options.delegation = lp2p_delegation_sign(&group_seed, &key, expires_ms)?.to_vec();
    options.dht_protocol = Some("/test/kad/1".to_string());
    options.rpc_protocols = vec!["/test/echo/1".to_string(), "/test/other/1".to_string()];
    Ok(options)
}

fn start_with(
    node_seed: [u8; 32],
    group_seed: [u8; 32],
    announce: u8,
    expires_ms: u64,
) -> Result<TestNode, i32> {
    let mut options = options_of(node_seed, group_seed, expires_ms)?;
    options.announce.enabled = announce;
    start_from(&options, group_seed)
}

/// Starts a node, which reports its reachability before anything else.
fn start_from(options: &lp2p_options, group_seed: [u8; 32]) -> Result<TestNode, i32> {
    let key = lp2p_key_from_seed(&options.node_seed)?;
    let (config, node, state) = lp2p_start(options, UNIX_MS)?;
    let mut started = TestNode {
        state,
        node,
        key,
        group: config.delegation.group,
        group_seed,
        peer: peer_id(&key).unwrap(),
        alive: true,
        held: Vec::new(),
        answers: None,
        seen: Vec::new(),
    };
    let events = started.poll();
    assert_eq!(events.len(), 1);
    assert_eq!(events[0].kind, LP2P_EV_REACHABILITY);
    assert_eq!(events[0].reason, u16::from(options.reachability));
    assert_eq!((events[0].flags, events[0].id, events[0].data.len()), (0, 0, 0));
    Ok(started)
}

fn start(node_seed: [u8; 32], group_seed: [u8; 32]) -> TestNode {
    start_with(node_seed, group_seed, 1, 0).unwrap_or_else(|status| panic!("{status}"))
}

fn read_events(bytes: &[u8]) -> Vec<Event> {
    let mut events = Vec::new();
    let mut at = 0;
    while at < bytes.len() {
        let b = &bytes[at..];
        let size = u32::from_ne_bytes(b[4..8].try_into().unwrap()) as usize;
        let data_len = u32::from_ne_bytes(b[84..88].try_into().unwrap()) as usize;
        events.push(Event {
            kind: u16::from_ne_bytes(b[0..2].try_into().unwrap()),
            flags: u16::from_ne_bytes(b[2..4].try_into().unwrap()),
            id: u64::from_ne_bytes(b[8..16].try_into().unwrap()),
            group: b[16..48].try_into().unwrap(),
            node: b[48..80].try_into().unwrap(),
            protocol: u16::from_ne_bytes(b[80..82].try_into().unwrap()),
            reason: u16::from_ne_bytes(b[82..84].try_into().unwrap()),
            data: b[88..88 + data_len].to_vec(),
        });
        at += size;
    }
    events
}

impl TestNode {
    fn poll(&mut self) -> Vec<Event> {
        let mut buf = vec![0u8; 1 << 16];
        let n = self.state.shared_mut().events.poll(&mut buf);
        assert!(n >= 0);
        read_events(&buf[..n as usize])
    }

    fn has_reported(&mut self) -> Vec<u16> {
        self.poll().iter().map(|e| e.kind).collect()
    }
}

fn address_of(n: usize) -> Multiaddr {
    Multiaddr::parse(&format!("/ip4/10.0.0.{}/tcp/4001", n + 1)).unwrap()
}

impl Net {
    fn new(nodes: Vec<TestNode>) -> Net {
        Net { nodes, now: START }
    }

    fn env(&self) -> Env {
        Env { now: self.now, unix_ms: UNIX_MS, connected: Vec::new() }
    }

    fn tell(&mut self, n: usize, command: Command) {
        let env = self.env();
        let actions = self.nodes[n].state.command(command, &env);
        self.perform(n, actions);
    }

    fn happen(&mut self, n: usize, event: SwarmEvent) {
        let env = self.env();
        let actions = self.nodes[n].state.swarm_event(event, &env);
        self.perform(n, actions);
    }

    fn find(&self, peer: &PeerId) -> Option<usize> {
        self.nodes.iter().position(|node| node.peer == *peer)
    }

    /// Does what node `n` asks for, and what follows from it.
    fn perform(&mut self, n: usize, actions: Vec<Action>) {
        for action in actions {
            match action {
                Action::GetProviders { call, key } => {
                    // Provider records outlive their nodes.
                    let providers = self
                        .nodes
                        .iter()
                        .filter(|node| provider_key(&node.group) == key)
                        .map(|node| node.peer.clone())
                        .collect();
                    let query = Some(Query::Providers { call });
                    self.happen(
                        n,
                        SwarmEvent::Kad(KadEvent::Providers { query, providers, last: true }),
                    );
                }
                Action::Resolve { call, peer } => {
                    let peers = match self.find(&peer) {
                        Some(m) => vec![PeerInfo { peer, addresses: vec![address_of(m)] }],
                        None => Vec::new(),
                    };
                    let query = Some(Query::Resolve { call });
                    self.happen(n, SwarmEvent::Kad(KadEvent::ClosestPeers { query, peers }));
                }
                Action::SendRequest { call, peer, frame } => self.deliver(n, call, peer, frame),
                Action::SendResponse { id, frame } => {
                    let at = self.nodes[n].held.iter().position(|h| h.0 == id).unwrap();
                    let (_, asker, call) = self.nodes[n].held.remove(at);
                    let peer = self.nodes[n].peer.clone();
                    let event = RpcEvent::Response { call: Some(call), peer, frame };
                    self.happen(asker, SwarmEvent::Rpc(event));
                    let done = RpcEvent::InboundDone { id: Some(id) };
                    self.happen(n, SwarmEvent::Rpc(done));
                }
                Action::CloseInbound { id } => {
                    let at = self.nodes[n].held.iter().position(|h| h.0 == id).unwrap();
                    let (_, asker, call) = self.nodes[n].held.remove(at);
                    let peer = self.nodes[n].peer.clone();
                    let event =
                        RpcEvent::Response { call: Some(call), peer, frame: Vec::new() };
                    self.happen(asker, SwarmEvent::Rpc(event));
                }
                Action::Publish { frame, .. } => {
                    let source = self.nodes[n].peer.clone();
                    for m in 0..self.nodes.len() {
                        if m != n {
                            let env = self.env();
                            let source = Some(source.clone());
                            self.nodes[m].state.announcement(source, &frame, &env);
                        }
                    }
                }
                Action::HoldInbound { .. } => unreachable!(),
                _ => {}
            }
        }
    }

    fn deliver(&mut self, from: usize, call: u64, peer: PeerId, frame: Vec<u8>) {
        let target = self.find(&peer);
        let Some(to) = target.filter(|to| self.nodes[*to].alive) else {
            let event =
                RpcEvent::OutboundFailure { call: Some(call), peer, failure: Failure::Other };
            return self.happen(from, SwarmEvent::Rpc(event));
        };
        let env = self.env();
        let asker = self.nodes[from].peer.clone();
        let event = RpcEvent::Request { peer: asker, ip: None, frame };
        let actions = self.nodes[to].state.swarm_event(SwarmEvent::Rpc(event), &env);
        match actions.first() {
            Some(Action::HoldInbound { id }) => {
                let id = *id;
                self.nodes[to].held.push((id, from, call));
                if let Some(prefix) = self.nodes[to].answers.clone() {
                    let events = self.nodes[to].poll();
                    let asked = events.iter().find(|e| e.kind == LP2P_EV_RPC_REQUEST).unwrap();
                    assert_eq!(asked.id, id);
                    self.nodes[to].seen.push((asked.group, asked.protocol));
                    let mut answer = prefix;
                    answer.extend_from_slice(&asked.data);
                    self.tell(to, lp2p_rpc_respond(id, &answer));
                }
            }
            Some(_) => unreachable!(),
            None => {
                // A stream closed without a response reads as an empty frame.
                let event = RpcEvent::Response { call: Some(call), peer, frame: Vec::new() };
                self.happen(from, SwarmEvent::Rpc(event));
            }
        }
    }

    fn request(
        &mut self,
        n: usize,
        group: lp2p_key,
        node_key: Option<lp2p_key>,
        protocol: u16,
        payload: &[u8],
    ) -> u64 {
        let node = self.nodes[n].node;
        let shared = self.nodes[n].state.shared_mut();
        let id = shared.next_id;
        let command = lp2p_rpc_request(&node, shared, &group, node_key, protocol, payload, 0)
            .unwrap_or_else(|status| panic!("{status}"));
        self.tell(n, command);
        id
    }

    fn outcome(&mut self, n: usize, id: u64) -> Event {
        let mut outcomes: Vec<Event> = self.nodes[n]
            .poll()
            .into_iter()
            .filter(|e| e.kind == LP2P_EV_RPC_RESPONSE || e.kind == LP2P_EV_RPC_FAILED)
            .collect();
        assert_eq!(outcomes.len(), 1);
        let outcome = outcomes.remove(0);
        assert_eq!(outcome.id, id);
        outcome
    }

    fn tick(&mut self, n: usize) -> usize {
        let now = self.now;
        let actions = self.nodes[n].state.tick(now, 3, 2);
        actions.len()
    }
}

fn serving(mut node: TestNode, name: &str) -> TestNode {
    node.answers = Some(format!("{name}:").into_bytes());
    node
}

#[test]
fn a_group_is_called_by_its_key_and_fails_over_to_the_next_node() {
    let a1 = serving(start([1; 32], [0xa0; 32]), "a1");
    let a2 = serving(start([2; 32], [0xa0; 32]), "a2");
    let b = start([3; 32], [0xb0; 32]);
    let (a1_key, a2_key, group_a) = (a1.key, a2.key, a1.group);
    let group_b = b.group;
    let mut net = Net::new(vec![a1, a2, b]);

    // By group: whichever node answers, it has to be one of group A's, and say so.
    let id = net.request(2, group_a, None, 0, b"ping");
    let answer = net.outcome(2, id);
    assert_eq!(answer.kind, LP2P_EV_RPC_RESPONSE, "reason {}", answer.reason);
    assert_eq!(answer.group, group_a);
    assert!(answer.node == a1_key || answer.node == a2_key);
    assert!(answer.data == b"a1:ping" || answer.data == b"a2:ping", "{:?}", answer.data);

    // Pinned to one node.
    let id = net.request(2, group_a, Some(a2_key), 1, b"pinned");
    let answer = net.outcome(2, id);
    assert_eq!(answer.kind, LP2P_EV_RPC_RESPONSE);
    assert_eq!(answer.data, b"a2:pinned");
    assert_eq!(answer.node, a2_key);

    // Failover: a2 answered last and goes away. The next call asks it first, fails over to a1,
    // and from then on a1 is asked first: every call gets an answer, and the dead node is asked
    // exactly once.
    net.nodes[1].alive = false;
    for round in 0..5 {
        let id = net.request(2, group_a, None, 0, format!("after{round}").as_bytes());
        let answer = net.outcome(2, id);
        assert_eq!(answer.kind, LP2P_EV_RPC_RESPONSE, "round {round}, reason {}", answer.reason);
        assert_eq!(answer.node, a1_key);
        assert_eq!(answer.data, format!("a1:after{round}").into_bytes());
    }
    let stats = lp2p_stats_get(net.nodes[2].state.shared(), 48).unwrap();
    assert_eq!(stats.rpc_out, 7 + 1, "seven calls, one of them failed over once");

    // A group nobody belongs to fails, and says why.
    let id = net.request(2, [0x77; 32], None, 0, b"nobody");
    let answer = net.outcome(2, id);
    assert_eq!(answer.kind, LP2P_EV_RPC_FAILED);
    assert_eq!(answer.reason, LP2P_FAIL_UNREACHABLE);

    // Every request a1 or a2 saw came from group B, on a protocol the caller named.
    let seen: Vec<(lp2p_key, u16)> =
        net.nodes[0].seen.iter().chain(&net.nodes[1].seen).copied().collect();
    assert_eq!(seen.len(), 7);
    for (group, protocol) in seen {
        assert_eq!(group, group_b);
        assert!(protocol < 2);
    }
    assert_eq!(net.nodes[1].seen.last(), Some(&(group_b, 1)));
}

#[test]
fn a_node_with_someone_elses_delegation_does_not_start() {
    let mut options = options_of([4; 32], [0xc0; 32], 0).unwrap();
    let other = lp2p_key_from_seed(&[5; 32]).unwrap();
    options.delegation = lp2p_delegation_sign(&[0xc0; 32], &other, 0).unwrap().to_vec();
    assert!(matches!(lp2p_start(&options, UNIX_MS), Err(LP2P_ERR_INVALID_ARGUMENT)));
    // Nor does one whose delegation has run out.
    assert!(matches!(
        start_with([4; 32], [0xc0; 32], 1, UNIX_MS),
        Err(LP2P_ERR_INVALID_ARGUMENT)
    ));
    assert!(start_with([4; 32], [0xc0; 32], 1, UNIX_MS + 1).is_ok());
}

#[test]
fn a_private_node_announces_only_relayed_addresses() {
    let relay = libp2p::identity::Keypair::ed25519_from_bytes([5u8; 32]).unwrap();
    let relayed = format!("/ip4/10.0.0.9/tcp/1/p2p/{}/p2p-circuit", relay.public().to_peer_id());
    let behind_any =
        format!("/ip4/0.0.0.0/tcp/1/p2p/{}/p2p-circuit", relay.public().to_peer_id());
    let direct = "/ip4/10.0.0.1/tcp/4001".to_string();
    let unspecified = "/ip6/::/tcp/4001".to_string();
    for (reachability, announced) in [
        (LP2P_REACH_UNKNOWN, vec![&direct, &relayed]),
        (LP2P_REACH_PUBLIC, vec![&direct, &relayed]),
        (LP2P_REACH_PRIVATE, vec![&relayed]),
    ] {
        let mut options = options_of([8; 32], [0xe0; 32], 0).unwrap();
        options.reachability = reachability;
        let mut node = start_from(&options, [0xe0; 32]).unwrap_or_else(|s| panic!("{s}"));
        let env = Env { now: START, unix_ms: UNIX_MS, connected: Vec::new() };
        let mut told = Vec::new();
        for text in [&direct, &unspecified, &relayed, &behind_any] {
            let address = Multiaddr::parse(text).unwrap();
            for action in node.state.swarm_event(SwarmEvent::NewListenAddr { address }, &env) {
                match action {
                    Action::AddExternalAddress { address } => told.push(address.to_text()),
                    _ => unreachable!(),
                }
            }
        }
        assert_eq!(told.iter().collect::<Vec<_>>(), announced, "{reachability}");
        // It listens on all four whatever it announces, and does not report its reachability again.
        assert_eq!(node.has_reported(), [LP2P_EV_LISTENING; 4]);
    }
}

#[test]
fn limits_apply_per_class_and_a_blocked_group_is_refused() {
    let server = serving(start([60; 32], [0xf0; 32]), "ok");
    let caller = start([61; 32], [0xf1; 32]);
    let (server_key, server_group) = (server.key, server.group);
    let (caller_key, caller_group) = (caller.key, caller.group);
    let mut net = Net::new(vec![server, caller]);

    // Two calls per minute per node, for groups nobody classified.
    let per_minute = lp2p_rate { amount: 1, interval_ms: 60_000, burst: 2 };
    let node = net.nodes[0].node;
    let command =
        lp2p_limit_set(&node, LP2P_CLASS_UNKNOWN, LP2P_SCOPE_PEER, LP2P_PROTOCOL_ANY, per_minute)
            .unwrap_or_else(|status| panic!("{status}"));
    net.tell(0, command);
    for round in 0..2 {
        let id = net.request(1, server_group, Some(server_key), 0, b"within");
        assert_eq!(net.outcome(1, id).kind, LP2P_EV_RPC_RESPONSE, "round {round}");
        assert!(net.nodes[0].poll().is_empty());
    }
    let id = net.request(1, server_group, Some(server_key), 0, b"over");
    let outcome = net.outcome(1, id);
    assert_eq!((outcome.kind, outcome.reason), (LP2P_EV_RPC_FAILED, LP2P_FAIL_REFUSED));
    let limited = net.nodes[0].poll();
    assert_eq!(limited.len(), 1);
    assert_eq!(limited[0].kind, LP2P_EV_LIMITED);
    assert_eq!(limited[0].reason, LP2P_SCOPE_PEER as u16);
    assert_eq!(limited[0].node, caller_key);
    assert_eq!(limited[0].group, caller_group);

    // The caller's group in a class of its own, which has no limit: it gets through again.
    net.tell(0, lp2p_peer_set_class(&caller_group, 7));
    let id = net.request(1, server_group, Some(server_key), 0, b"classified");
    assert_eq!(net.outcome(1, id).kind, LP2P_EV_RPC_RESPONSE);

    // Blocked: refused whatever the limits say.
    net.tell(0, lp2p_peer_set_class(&caller_group, LP2P_CLASS_BLOCKED));
    let id = net.request(1, server_group, Some(server_key), 0, b"blocked");
    assert_eq!(net.outcome(1, id).kind, LP2P_EV_RPC_FAILED);
    let limited = net.nodes[0].poll();
    assert_eq!(limited.len(), 1);
    assert_eq!(limited[0].reason, LP2P_LIMITED_BLOCKED);

    // A limit for the blocked class, or for a protocol the node does not have, is refused.
    assert!(matches!(
        lp2p_limit_set(&node, LP2P_CLASS_BLOCKED, LP2P_SCOPE_PEER, LP2P_PROTOCOL_ANY, per_minute),
        Err(LP2P_ERR_INVALID_ARGUMENT)
    ));
    assert!(matches!(
        lp2p_limit_set(&node, 7, LP2P_SCOPE_PEER, 9, per_minute),
        Err(LP2P_ERR_INVALID_ARGUMENT)
    ));
    let stats = lp2p_stats_get(net.nodes[0].state.shared(), 48).unwrap();
    assert_eq!((stats.rpc_limited, stats.rpc_in), (2, 3));
}

#[test]
fn an_announcement_reaches_every_subscribed_node_once_per_change() {
    let hub = start([70; 32], [0x70; 32]);
    let speaker = start([71; 32], [0x71; 32]);
    let listener = start([72; 32], [0x72; 32]);
    let (speaker_key, speaker_group) = (speaker.key, speaker.group);
    let node = speaker.node;
    let mut net = Net::new(vec![hub, speaker, listener]);
    let announce = |net: &mut Net, payload: &[u8]| {
        let command = lp2p_announce_set_payload(&node, payload)
            .unwrap_or_else(|status| panic!("{status}"));
        net.tell(1, command);
    };

    announce(&mut net, b"api 1, https://speaker.example");
    let heard = net.nodes[2].poll();
    assert_eq!(heard.len(), 1);
    assert_eq!(heard[0].kind, LP2P_EV_ANNOUNCEMENT);
    assert_eq!((heard[0].node, heard[0].group), (speaker_key, speaker_group));
    assert_eq!(heard[0].data, b"api 1, https://speaker.example");
    // The hub heard it too, and nobody hears their own.
    assert_eq!(net.nodes[0].poll().len(), 1);
    assert!(net.nodes[1].poll().is_empty());

    // The same payload again is not announced again; a changed one is.
    announce(&mut net, b"api 1, https://speaker.example");
    assert!(net.nodes[2].poll().is_empty());
    announce(&mut net, b"api 2");
    assert_eq!(net.nodes[2].poll()[0].data, b"api 2");
    assert_eq!(net.nodes[0].poll().len(), 1);

    // A listener that blocked the speaker's group does not hear it any more; the hub still does.
    net.tell(2, lp2p_peer_set_class(&speaker_group, LP2P_CLASS_BLOCKED));
    announce(&mut net, b"api 3");
    assert_eq!(net.nodes[0].poll()[0].data, b"api 3");
    assert!(net.nodes[2].poll().is_empty());

    // The speaker has used three announcements within seconds; the fourth is not passed on.
    announce(&mut net, b"api 4");
    assert!(net.nodes[0].poll().is_empty());
    net.now += 10 * SECOND;
    announce(&mut net, b"api 5");
    assert_eq!(net.nodes[0].poll()[0].data, b"api 5");

    // Too large is refused; with announcements off there is nothing to set.
    assert!(matches!(
        lp2p_announce_set_payload(&node, &[0u8; 1025]),
        Err(LP2P_ERR_INVALID_ARGUMENT)
    ));
    let quiet = start_with([73; 32], [0x73; 32], 0, 0).unwrap_or_else(|s| panic!("{s}"));
    assert!(matches!(lp2p_announce_set_payload(&quiet.node, b"x"), Err(LP2P_ERR_UNAVAILABLE)));
}

#[test]
fn an_announcement_that_nobody_vouches_for_is_held_against_its_sender() {
    let mut hub = start([70; 32], [0x70; 32]);
    let speaker = start([71; 32], [0x71; 32]);
    let other = start([72; 32], [0x72; 32]);
    let env = Env { now: START, unix_ms: UNIX_MS, connected: Vec::new() };
    let delegation = lp2p_delegation_sign(&speaker.group_seed, &speaker.key, 0).unwrap();
    let frame = encode_response(&delegation, b"hello");
    let mut hear = |source: Option<PeerId>, frame: &[u8]| {
        hub.state.announcement(source, frame, &env)
    };
    assert_eq!(hear(Some(other.peer), &frame), Acceptance::Reject);
    assert_eq!(hear(None, &frame), Acceptance::Reject);
    assert_eq!(hear(Some(speaker.peer.clone()), b""), Acceptance::Reject);
    assert_eq!(hear(Some(speaker.peer.clone()), &frame), Acceptance::Accept);
    assert_eq!(hub.has_reported(), [LP2P_EV_ANNOUNCEMENT]);
}

#[test]
fn a_late_call_fails_once_and_a_late_response_is_dropped() {
    let silent = start([1; 32], [0xa0; 32]);
    let caller = start([2; 32], [0xb0; 32]);
    let group = silent.group;
    let silent_key = silent.key;
    let mut net = Net::new(vec![silent, caller]);
    let id = net.request(1, group, Some(silent_key), 0, b"?");
    assert_eq!(net.nodes[0].has_reported(), [LP2P_EV_RPC_REQUEST]);
    assert!(net.nodes[1].poll().is_empty());
    net.now += 10 * SECOND - 1;
    net.tick(1);
    assert!(net.nodes[1].poll().is_empty());
    net.now += 1;
    net.tick(1);
    let failed = net.outcome(1, id);
    assert_eq!((failed.kind, failed.reason), (LP2P_EV_RPC_FAILED, LP2P_FAIL_TIMEOUT));
    assert_eq!((failed.group, failed.protocol), (group, 0));
    // The answer comes too late for anybody to hear.
    let held = net.nodes[0].held[0].0;
    net.tell(0, lp2p_rpc_respond(held, b"late"));
    assert!(net.nodes[1].poll().is_empty());
    net.tick(1);
    assert!(net.nodes[1].poll().is_empty());
    let stats = lp2p_stats_get(net.nodes[1].state.shared(), 48).unwrap();
    assert_eq!((stats.routing_table_peers, stats.connections, stats.rpc_out), (3, 2, 1));
}

#[test]
fn a_rejected_call_moves_on_and_a_request_is_answered_once() {
    let first = start([1; 32], [0xa0; 32]);
    let caller = start([2; 32], [0xb0; 32]);
    let (group, first_key) = (first.group, first.key);
    let mut net = Net::new(vec![first, caller]);
    let id = net.request(1, group, Some(first_key), 0, b"?");
    let held = net.nodes[0].held[0].0;
    net.tell(0, Command::Reject { id: held });
    let failed = net.outcome(1, id);
    assert_eq!((failed.kind, failed.reason), (LP2P_EV_RPC_FAILED, LP2P_FAIL_REFUSED));
    // Nothing is left to answer.
    let env = net.env();
    let command = lp2p_rpc_respond(held, b"!");
    assert!(net.nodes[0].state.command(command, &env).is_empty());
    assert!(net.nodes[0].state.command(Command::Reject { id: held }, &env).is_empty());
}

#[test]
fn an_impostor_of_another_group_is_passed_over() {
    let impostor = serving(start([1; 32], [0xa0; 32]), "false");
    let honest = serving(start([2; 32], [0xc0; 32]), "true");
    let caller = start([3; 32], [0xb0; 32]);
    let group = honest.group;
    let peers = vec![impostor.peer.clone(), honest.peer.clone(), caller.peer.clone()];
    let mut net = Net::new(vec![impostor, honest, caller]);
    let env = net.env();
    let command = Command::Rpc {
        id: 50,
        group,
        node: None,
        protocol: 1,
        payload: b"who".to_vec(),
        timeout: SECOND,
    };
    let actions = net.nodes[2].state.command(command, &env);
    assert!(matches!(&actions[..], [Action::GetProviders { call: 50, key }]
        if *key == provider_key(&group)));
    // The lookup names the impostor first, and the caller itself, which is left out.
    let event = KadEvent::Providers {
        query: Some(Query::Providers { call: 50 }),
        providers: peers,
        last: true,
    };
    net.happen(2, SwarmEvent::Kad(event));
    let answer = net.outcome(2, 50);
    assert_eq!((answer.kind, answer.protocol), (LP2P_EV_RPC_RESPONSE, 1));
    assert_eq!(answer.data, b"true:who");
    assert_eq!(net.nodes[2].state.shared().rpc_out, 2);
}

#[test]
fn a_failed_node_is_asked_last_until_its_penalty_is_over() {
    let mut caller = start([3; 32], [0xb0; 32]);
    let peers: Vec<PeerId> =
        (11..=13u8).map(|n| peer_id(&lp2p_key_from_seed(&[n; 32]).unwrap()).unwrap()).collect();
    for (n, peer) in peers.iter().enumerate() {
        caller.state.book_mut().add(peer.clone(), address_of(n));
    }
    let mut now = START;
    caller.state.remember_failure(peers[0].clone(), now);
    let mut first_asked = |now: u64, id: u64| {
        let env = Env { now, unix_ms: UNIX_MS, connected: Vec::new() };
        let command = Command::Rpc {
            id,
            group: [5; 32],
            node: None,
            protocol: 0,
            payload: Vec::new(),
            timeout: SECOND,
        };
        caller.state.command(command, &env);
        let event = KadEvent::Providers {
            query: Some(Query::Providers { call: id }),
            providers: peers.clone(),
            last: true,
        };
        let mut asked = Vec::new();
        let mut actions = caller.state.kad_event(event, &env);
        while let Some(Action::SendRequest { peer, .. }) = actions.pop() {
            asked.push(peers.iter().position(|p| *p == peer).unwrap());
            let event =
                RpcEvent::OutboundFailure { call: Some(id), peer, failure: Failure::Timeout };
            // Failures of this test do not count against the nodes for the next round.
            let env = Env { now: 0, unix_ms: UNIX_MS, connected: Vec::new() };
            actions = caller.state.rpc_event(event, &env);
        }
        asked
    };
    assert_eq!(first_asked(now, 1), [1, 2, 0]);
    now += 300 * SECOND;
    assert_eq!(first_asked(now, 2), [0, 1, 2]);
}

#[test]
fn a_candidate_without_an_address_is_looked_up_once() {
    let mut caller = start([3; 32], [0xb0; 32]);
    let key = lp2p_key_from_seed(&[1; 32]).unwrap();
    let peer = peer_id(&key).unwrap();
    let env = Env { now: START, unix_ms: UNIX_MS, connected: Vec::new() };
    let command = Command::Rpc {
        id: 1,
        group: [5; 32],
        node: Some(key),
        protocol: 0,
        payload: Vec::new(),
        timeout: SECOND,
    };
    let actions = caller.state.command(command, &env);
    assert!(matches!(&actions[..], [Action::Resolve { call: 1, peer: p }] if *p == peer));
    let query = Some(Query::Resolve { call: 1 });
    let event = KadEvent::ClosestPeers { query, peers: Vec::new() };
    assert!(caller.state.kad_event(event, &env).is_empty());
    let failed = caller.poll();
    assert_eq!((failed[0].kind, failed[0].reason), (LP2P_EV_RPC_FAILED, LP2P_FAIL_UNREACHABLE));
    // A connected peer needs no address.
    let env = Env { connected: vec![peer.clone()], ..env };
    let command = Command::Rpc {
        id: 2,
        group: [5; 32],
        node: Some(key),
        protocol: 0,
        payload: b"x".to_vec(),
        timeout: SECOND,
    };
    let actions = caller.state.command(command, &env);
    match &actions[..] {
        [Action::SendRequest { call: 2, peer: p, frame }] => {
            assert_eq!(*p, peer);
            let delegation = Delegation::sign(&[0xb0; 32], &caller.key, 0).unwrap().to_bytes();
            assert_eq!(*frame, encode_request(&delegation, "/test/echo/1", b"x"));
        }
        _ => panic!("not sent"),
    }
}

#[test]
fn why_a_request_got_no_response_is_told() {
    for (failure, reason) in [
        (Failure::Timeout, LP2P_FAIL_TIMEOUT),
        (Failure::UnsupportedProtocols, LP2P_FAIL_REFUSED),
        (Failure::Other, LP2P_FAIL_UNREACHABLE),
    ] {
        let mut caller = start([3; 32], [0xb0; 32]);
        let key = lp2p_key_from_seed(&[1; 32]).unwrap();
        let peer = peer_id(&key).unwrap();
        let env = Env { now: START, unix_ms: UNIX_MS, connected: vec![peer.clone()] };
        let command = Command::Rpc {
            id: 1,
            group: [5; 32],
            node: Some(key),
            protocol: 0,
            payload: Vec::new(),
            timeout: SECOND,
        };
        caller.state.command(command, &env);
        let event = RpcEvent::OutboundFailure { call: Some(1), peer, failure };
        assert!(caller.state.rpc_event(event, &env).is_empty());
        assert_eq!(caller.poll()[0].reason, reason);
    }
}

#[test]
fn requests_that_nobody_vouches_for_are_refused_without_a_word() {
    let mut server = start([60; 32], [0xf0; 32]);
    let caller = start([61; 32], [0xf1; 32]);
    let other = start([62; 32], [0xf1; 32]);
    let env = Env { now: START, unix_ms: UNIX_MS, connected: Vec::new() };
    let good = Delegation::sign(&caller.group_seed, &caller.key, 0).unwrap().to_bytes();
    let expired = Delegation::sign(&caller.group_seed, &caller.key, 5).unwrap().to_bytes();
    let mut ask = |peer: &PeerId, frame: &[u8]| {
        server.state.inbound_request(peer.clone(), None, frame, &env)
    };
    let frame = encode_request(&good, "/test/other/1", b"x");
    assert_eq!(ask(&other.peer, &frame), None);
    assert_eq!(ask(&caller.peer, b"junk"), None);
    assert_eq!(ask(&caller.peer, &encode_request(&expired, "/test/other/1", b"x")), None);
    assert_eq!(ask(&caller.peer, &encode_request(&good, "/unknown/1", b"x")), None);
    assert_eq!(ask(&PeerId { code: 0x12, digest: vec![0; 32] }, &frame), None);
    assert_eq!(ask(&caller.peer, &frame), Some(1));
    let events = server.poll();
    assert_eq!(events.len(), 1);
    assert_eq!((events[0].kind, events[0].protocol), (LP2P_EV_RPC_REQUEST, 1));
    assert_eq!((events[0].node, events[0].group), (caller.key, caller.group));
    assert_eq!(events[0].data, b"x");
    // The response is framed with the server's own delegation.
    let actions = server.state.command(lp2p_rpc_respond(1, b"y"), &env);
    match &actions[..] {
        [Action::SendResponse { id: 1, frame }] => {
            let own = Delegation::sign(&server.group_seed, &server.key, 0).unwrap().to_bytes();
            let response = decode_response(frame).unwrap();
            assert_eq!((response.delegation, response.payload), (&own[..], &b"y"[..]));
        }
        _ => panic!("not answered"),
    }
}

#[test]
fn connections_and_listening_are_reported() {
    let node = start([1; 32], [0xa0; 32]);
    let key = lp2p_key_from_seed(&[9; 32]).unwrap();
    let peer = peer_id(&key).unwrap();
    let mut net = Net::new(vec![node]);
    let relayed = Multiaddr::parse(&format!("/ip4/10.0.0.9/tcp/1/p2p/{}/p2p-circuit",
        libp2p::identity::Keypair::ed25519_from_bytes([5u8; 32]).unwrap().public().to_peer_id()))
        .unwrap();
    let text = relayed.to_text();
    for num_established in [1, 2] {
        net.happen(0, SwarmEvent::ConnectionEstablished {
            peer: peer.clone(),
            address: relayed.copy(),
            num_established,
        });
    }
    for num_established in [1, 0] {
        net.happen(0, SwarmEvent::ConnectionClosed { peer: peer.clone(), num_established });
    }
    let events = net.nodes[0].poll();
    assert_eq!(events.len(), 2);
    assert_eq!((events[0].kind, events[0].node), (LP2P_EV_PEER_CONNECTED, key));
    assert_eq!(events[0].data, text.as_bytes());
    assert_eq!((events[1].kind, events[1].node), (LP2P_EV_PEER_DISCONNECTED, key));
    assert!(events[1].data.is_empty());

    let env = net.env();
    let mut listen = |text: &str| {
        let address = Multiaddr::parse(text).unwrap();
        net.nodes[0].state.swarm_event(SwarmEvent::NewListenAddr { address }, &env)
    };
    assert!(listen("/ip4/0.0.0.0/tcp/1").is_empty());
    let actions = listen("/ip4/127.0.0.1/tcp/1");
    assert!(matches!(&actions[..], [Action::AddExternalAddress { address }]
        if address.to_text() == "/ip4/127.0.0.1/tcp/1"));
    let events = net.nodes[0].poll();
    assert_eq!(events.len(), 2);
    assert_eq!((events[1].kind, &events[1].data[..]), (LP2P_EV_LISTENING, &b"/ip4/127.0.0.1/tcp/1"[..]));
}

#[test]
fn what_a_peer_says_of_itself_is_learned() {
    let mut node = start([1; 32], [0xa0; 32]);
    let env = Env { now: START, unix_ms: UNIX_MS, connected: Vec::new() };
    let peer = start([2; 32], [0xa0; 32]).peer;
    let mut identify = |protocols: Vec<String>| {
        let event = SwarmEvent::Identified {
            peer: peer.clone(),
            protocols,
            listen_addrs: vec![address_of(0), address_of(1)],
        };
        node.state.swarm_event(event, &env)
    };
    assert!(identify(vec!["/other/1".to_string()]).is_empty());
    let actions = identify(vec!["/other/1".to_string(), "/test/kad/1".to_string()]);
    assert_eq!(actions.len(), 2);
    assert!(matches!(&actions[1], Action::AddDhtAddress { peer: p, address }
        if *p == peer && address.same(&address_of(1))));
    assert_eq!(node.state.book().addresses(&peer).len(), 2);

    let key = lp2p_key_from_seed(&[7; 32]).unwrap();
    let command = Command::AddAddress { node: key, address: address_of(5) };
    let actions = node.state.command(command, &env);
    assert!(matches!(&actions[..], [Action::AddDhtAddress { .. }]));
    assert!(node.state.book().knows(&peer_id(&key).unwrap()));
}

#[test]
fn providing_follows_new_peers_but_not_each_of_them() {
    let node = start([1; 32], [0xa0; 32]);
    let group = node.group;
    let mut net = Net::new(vec![node]);
    match net.nodes[0].state.provide(START) {
        Action::Provide { key } => {
            assert_eq!(key.len(), 34);
            assert_eq!(key, provider_key(&group));
            assert_eq!(&key[..2], &[0x12, 0x20]);
        }
        _ => panic!("not provided"),
    }
    assert_eq!(net.tick(0), 0);
    for n in 1..5u8 {
        let peer = peer_id(&lp2p_key_from_seed(&[n; 32]).unwrap()).unwrap();
        let event = KadEvent::RoutingUpdated { peer, addresses: Vec::new(), is_new_peer: true };
        net.happen(0, SwarmEvent::Kad(event));
    }
    net.now += 2 * SECOND - 1;
    assert_eq!(net.tick(0), 0);
    net.now += 1;
    assert_eq!(net.tick(0), 1);
    net.now += 10 * SECOND;
    assert_eq!(net.tick(0), 0);
    // A finished bootstrap is another reason.
    let query = Some(Query::Bootstrap { id: 4 });
    net.happen(0, SwarmEvent::Kad(KadEvent::Bootstrap { query, ok: true, last: true }));
    assert_eq!(net.tick(0), 1);
}

#[test]
fn the_provider_key_is_the_sha256_of_the_group() {
    // SHA-256 of 32 zero bytes.
    let digest = [
        0x66, 0x68, 0x7a, 0xad, 0xf8, 0x62, 0xbd, 0x77, 0x6c, 0x8f, 0xc1, 0x8b, 0x8e, 0x9f, 0x8e,
        0x20, 0x08, 0x97, 0x14, 0x85, 0x6e, 0xe2, 0x33, 0xb3, 0x90, 0x2a, 0x59, 0x1d, 0x0d, 0x5f,
        0x29, 0x25,
    ];
    let key = provider_key(&[0; 32]);
    assert_eq!(&key[..2], &[0x12, 0x20]);
    assert_eq!(&key[2..], &digest);
}

#[test]
fn queries_report_their_end() {
    let node = start([1; 32], [0xa0; 32]);
    let found = start([2; 32], [0xa0; 32]);
    let found_key = found.key;
    let mut net = Net::new(vec![node]);
    let bootstrap = |ok, last| {
        let query = Some(Query::Bootstrap { id: 4 });
        SwarmEvent::Kad(KadEvent::Bootstrap { query, ok, last })
    };
    net.happen(0, bootstrap(true, false));
    assert!(net.nodes[0].poll().is_empty());
    net.happen(0, bootstrap(false, true));
    net.happen(0, bootstrap(true, true));
    net.nodes[0].state.bootstrap_failed(9);
    let events = net.nodes[0].poll();
    let ends: Vec<(u16, u16, u64, u16)> =
        events.iter().map(|e| (e.kind, e.flags, e.id, e.reason)).collect();
    assert_eq!(ends, [
        (LP2P_EV_DHT_RESULT, LP2P_EVF_LAST, 4, LP2P_FAIL_TIMEOUT),
        (LP2P_EV_DHT_RESULT, LP2P_EVF_LAST, 4, 0),
        (LP2P_EV_DHT_RESULT, LP2P_EVF_LAST, 9, LP2P_FAIL_UNREACHABLE),
    ]);

    let peers = vec![PeerInfo { peer: found.peer.clone(), addresses: vec![address_of(0)] }];
    let query = Some(Query::Walk { id: 6 });
    net.happen(0, SwarmEvent::Kad(KadEvent::ClosestPeers { query, peers }));
    let events = net.nodes[0].poll();
    assert_eq!(events.len(), 2);
    assert_eq!((events[0].kind, events[0].id), (LP2P_EV_PEER_DISCOVERED, 6));
    assert_eq!(events[0].node, found_key);
    assert_eq!(events[0].data, b"/ip4/10.0.0.1/tcp/4001\0");
    assert_eq!((events[1].kind, events[1].flags, events[1].id), (LP2P_EV_DHT_RESULT, 1, 6));
    assert!(net.nodes[0].state.book().knows(&found.peer));
    let env = net.env();
    let asked = net.nodes[0].state.command(Command::RandomWalk { id: 8 }, &env);
    assert!(matches!(&asked[..], [Action::RandomWalk { id: 8 }]));
    let asked = net.nodes[0].state.command(Command::Bootstrap { id: 9 }, &env);
    assert!(matches!(&asked[..], [Action::Bootstrap { id: 9 }]));
    assert!(net.nodes[0].state.command(Command::Shutdown, &env).is_empty());
}

#[test]
fn samples_start_somewhere_else_every_time() {
    let mut node = start([1; 32], [0xa0; 32]);
    assert!(node.state.routing_sample(&Vec::new(), 5).is_empty());
    let entries: Vec<PeerInfo> = (0..3u8)
        .map(|n| PeerInfo {
            peer: peer_id(&lp2p_key_from_seed(&[n; 32]).unwrap()).unwrap(),
            addresses: vec![address_of(n as usize), address_of(9)],
        })
        .collect();
    let mut sample = |max: usize| -> Vec<usize> {
        node.state
            .routing_sample(&entries, max)
            .iter()
            .map(|r| {
                let node: lp2p_key = r.bytes()[48..80].try_into().unwrap();
                entries.iter().position(|e| peer_key(&e.peer) == node).unwrap()
            })
            .collect()
    };
    assert_eq!(sample(2), [1, 2]);
    assert_eq!(sample(2), [2, 0]);
    assert_eq!(sample(9), [0, 1, 2]);
    assert_eq!(sample(0), []);
    let record = discovered(3, &entries[0].peer, &entries[0].addresses);
    let event = &read_events(record.bytes())[0];
    assert_eq!((event.kind, event.id), (LP2P_EV_PEER_DISCOVERED, 3));
    assert_eq!(event.data, b"/ip4/10.0.0.1/tcp/4001\0/ip4/10.0.0.10/tcp/4001\0");
    assert_eq!(peer_key(&PeerId { code: 1, digest: Vec::new() }), [0; 32]);
}

#[test]
fn a_flood_of_refusals_is_counted_but_not_reported() {
    let mut server = start([60; 32], [0xf0; 32]);
    let caller = start([61; 32], [0xf1; 32]);
    let env = Env { now: START, unix_ms: UNIX_MS, connected: Vec::new() };
    server.state.command(lp2p_peer_set_class(&caller.group, LP2P_CLASS_BLOCKED), &env);
    let delegation = Delegation::sign(&caller.group_seed, &caller.key, 0).unwrap().to_bytes();
    let frame = encode_request(&delegation, "/test/echo/1", b"");
    for _ in 0..40 {
        assert_eq!(server.state.inbound_request(caller.peer.clone(), None, &frame, &env), None);
    }
    assert_eq!(server.has_reported(), [LP2P_EV_LIMITED; 10]);
    assert_eq!(server.state.shared().rpc_limited, 40);
}
