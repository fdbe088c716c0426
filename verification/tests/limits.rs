//! Classes and token buckets. Time is in nanoseconds.

use libp2p_ffi::abi::{
    lp2p_key, lp2p_rate, LP2P_CLASS_BLOCKED, LP2P_CLASS_UNKNOWN, LP2P_LIMITED_BLOCKED,
    LP2P_PROTOCOL_ANY, LP2P_SCOPE_GLOBAL, LP2P_SCOPE_IP_PREFIX, LP2P_SCOPE_PEER,
};
use libp2p_ffi::keys::PeerId;
use libp2p_ffi::limits::{Limits, Request, SourceRate, EVENTS_PER_SECOND, MILLISECOND, SECOND};
use libp2p_ffi::multiaddr::Ip;

const GROUP: lp2p_key = [1; 32];
const START: u64 = 1_000_000_000_000;

fn random() -> PeerId {
    let peer = libp2p::PeerId::random();
    PeerId { code: peer.as_ref().code(), digest: peer.as_ref().digest().to_vec() }
}

fn ip4(text: &str) -> Ip {
    let octets: Vec<u8> = text.split('.').map(|part| part.parse().unwrap()).collect();
    Ip::V4(octets.try_into().unwrap())
}

fn request(peer: &PeerId, ip: Option<&str>, protocol: u16) -> Request<'static> {
    Request { group: &GROUP, peer: peer.clone(), ip: ip.map(ip4), protocol }
}

fn rate(amount: u32, interval_ms: u32, burst: u32) -> lp2p_rate {
    lp2p_rate { amount, interval_ms, burst }
}

#[test]
fn a_bucket_allows_its_burst_and_refills_at_its_rate() {
    let mut limits = Limits::default();
    limits.set_limit(LP2P_CLASS_UNKNOWN, LP2P_SCOPE_PEER, LP2P_PROTOCOL_ANY, rate(1, 1000, 2));
    let peer = random();
    let start = START;
    assert_eq!(limits.check(&request(&peer, None, 0), start), Ok(()));
    assert_eq!(limits.check(&request(&peer, None, 1), start), Ok(()));
    assert_eq!(limits.check(&request(&peer, None, 0), start), Err(LP2P_SCOPE_PEER as u16));
    // Another peer has a bucket of its own.
    assert_eq!(limits.check(&request(&random(), None, 0), start), Ok(()));
    // One token per second.
    let later = start + 1100 * MILLISECOND;
    assert_eq!(limits.check(&request(&peer, None, 0), later), Ok(()));
    assert!(limits.check(&request(&peer, None, 0), later).is_err());
}

#[test]
fn a_prefix_is_shared_and_a_relayed_connection_has_none() {
    let mut limits = Limits::default();
    limits.set_limit(
        LP2P_CLASS_UNKNOWN,
        LP2P_SCOPE_IP_PREFIX,
        LP2P_PROTOCOL_ANY,
        rate(1, 60_000, 1),
    );
    let now = START;
    assert_eq!(limits.check(&request(&random(), Some("10.0.0.1"), 0), now), Ok(()));
    assert_eq!(
        limits.check(&request(&random(), Some("10.0.0.200"), 0), now),
        Err(LP2P_SCOPE_IP_PREFIX as u16)
    );
    assert_eq!(limits.check(&request(&random(), Some("10.0.1.1"), 0), now), Ok(()));
    assert_eq!(limits.check(&request(&random(), None, 0), now), Ok(()));
}

#[test]
fn classes_protocols_and_removal() {
    let mut limits = Limits::default();
    limits.set_limit(7, LP2P_SCOPE_GLOBAL, 3, rate(1, 60_000, 1));
    let peer = random();
    let now = START;
    // The group is unknown, so class 7's limit does not apply.
    assert_eq!(limits.check(&request(&peer, None, 3), now), Ok(()));
    assert_eq!(limits.check(&request(&peer, None, 3), now), Ok(()));
    limits.set_class(GROUP, 7);
    assert_eq!(limits.check(&request(&peer, None, 3), now), Ok(()));
    assert!(limits.check(&request(&peer, None, 3), now).is_err());
    // Another protocol is not limited.
    assert_eq!(limits.check(&request(&peer, None, 4), now), Ok(()));
    // A zero rate removes the limit.
    limits.set_limit(7, LP2P_SCOPE_GLOBAL, 3, rate(0, 0, 0));
    assert_eq!(limits.check(&request(&peer, None, 3), now), Ok(()));
    limits.set_class(GROUP, LP2P_CLASS_BLOCKED);
    assert_eq!(limits.check(&request(&peer, None, 4), now), Err(LP2P_LIMITED_BLOCKED));
    limits.set_class(GROUP, LP2P_CLASS_UNKNOWN);
    assert_eq!(limits.class_of(&GROUP), LP2P_CLASS_UNKNOWN);
}

#[test]
fn a_refused_request_takes_no_token_from_the_other_limits() {
    let mut limits = Limits::default();
    limits.set_limit(LP2P_CLASS_UNKNOWN, LP2P_SCOPE_PEER, LP2P_PROTOCOL_ANY, rate(1, 60_000, 5));
    limits.set_limit(
        LP2P_CLASS_UNKNOWN,
        LP2P_SCOPE_GLOBAL,
        LP2P_PROTOCOL_ANY,
        rate(1, 60_000, 1),
    );
    let peer = random();
    let now = START;
    assert_eq!(limits.check(&request(&peer, None, 0), now), Ok(()));
    for _ in 0..10 {
        assert_eq!(limits.check(&request(&peer, None, 0), now), Err(LP2P_SCOPE_GLOBAL as u16));
    }
    // The global limit goes away; the peer still has four of its five tokens.
    limits.set_limit(LP2P_CLASS_UNKNOWN, LP2P_SCOPE_GLOBAL, LP2P_PROTOCOL_ANY, rate(0, 0, 0));
    for _ in 0..4 {
        assert_eq!(limits.check(&request(&peer, None, 0), now), Ok(()));
    }
    assert!(limits.check(&request(&peer, None, 0), now).is_err());
}

#[test]
fn announcements_are_limited_per_source() {
    let mut rate = SourceRate::new(10 * SECOND, 3);
    let (a, b) = (random(), random());
    let now = START;
    assert!((0..3).all(|_| rate.allow(a.clone(), now)));
    assert!(!rate.allow(a.clone(), now));
    assert!(rate.allow(b, now));
    assert!(rate.allow(a, now + 10 * SECOND));
}

#[test]
fn full_buckets_are_forgotten_and_events_are_bounded() {
    let mut limits = Limits::default();
    limits.set_limit(LP2P_CLASS_UNKNOWN, LP2P_SCOPE_PEER, LP2P_PROTOCOL_ANY, rate(1, 1000, 1));
    let now = START;
    limits.check(&request(&random(), None, 0), now).unwrap();
    assert_eq!(limits.bucket_count(), 1);
    limits.sweep(now + 2 * SECOND);
    assert_eq!(limits.bucket_count(), 0);

    let reported = (0..50).filter(|_| limits.may_report(now)).count();
    assert_eq!(reported, EVENTS_PER_SECOND as usize);
    assert!(limits.may_report(now + SECOND));
}

#[test]
fn a_token_comes_back_to_the_nanosecond() {
    let mut limits = Limits::default();
    limits.set_limit(0, LP2P_SCOPE_PEER, LP2P_PROTOCOL_ANY, rate(3, 1000, 1));
    let peer = random();
    assert_eq!(limits.check(&request(&peer, None, 0), START), Ok(()));
    // A third of a second does not divide into nanoseconds: one more is needed.
    assert!(limits.check(&request(&peer, None, 0), START + 333_333_333).is_err());
    assert_eq!(limits.check(&request(&peer, None, 0), START + 333_333_334), Ok(()));
}

#[test]
fn asking_often_does_not_cost_what_has_been_saved() {
    let mut limits = Limits::default();
    limits.set_limit(0, LP2P_SCOPE_PEER, LP2P_PROTOCOL_ANY, rate(1, 1000, 1));
    let peer = random();
    assert_eq!(limits.check(&request(&peer, None, 0), START), Ok(()));
    for i in 1..1000 {
        assert!(limits.check(&request(&peer, None, 0), START + i * MILLISECOND).is_err());
    }
    assert_eq!(limits.check(&request(&peer, None, 0), START + SECOND), Ok(()));
}

#[test]
fn a_changed_rate_keeps_what_was_used() {
    let mut limits = Limits::default();
    limits.set_limit(0, LP2P_SCOPE_PEER, LP2P_PROTOCOL_ANY, rate(1, 60_000, 3));
    let peer = random();
    for _ in 0..2 {
        assert_eq!(limits.check(&request(&peer, None, 0), START), Ok(()));
    }
    // One token is left, whatever the interval is now; a larger burst does not fill it up.
    limits.set_limit(0, LP2P_SCOPE_PEER, LP2P_PROTOCOL_ANY, rate(1, 1_000, 10));
    assert_eq!(limits.check(&request(&peer, None, 0), START), Ok(()));
    assert!(limits.check(&request(&peer, None, 0), START).is_err());
    assert_eq!(limits.check(&request(&peer, None, 0), START + SECOND), Ok(()));
}

#[test]
fn ipv6_is_limited_by_its_network() {
    let mut limits = Limits::default();
    limits.set_limit(0, LP2P_SCOPE_IP_PREFIX, LP2P_PROTOCOL_ANY, rate(1, 60_000, 1));
    let ask = |limits: &mut Limits, octets: [u8; 16]| {
        limits.check(
            &Request { group: &GROUP, peer: random(), ip: Some(Ip::V6(octets)), protocol: 0 },
            START,
        )
    };
    let mut host = [0u8; 16];
    host[..8].copy_from_slice(&[0x20, 1, 0xd, 0xb8, 0, 0, 7, 1]);
    assert_eq!(ask(&mut limits, host), Ok(()));
    // The eighth byte is within the network, the seventh is not.
    host[7] = 2;
    assert_eq!(ask(&mut limits, host), Err(LP2P_SCOPE_IP_PREFIX as u16));
    host[6] = 8;
    assert_eq!(ask(&mut limits, host), Ok(()));
}

#[test]
fn a_sweep_keeps_what_is_not_full_and_drops_what_has_no_limit() {
    let mut limits = Limits::default();
    limits.set_limit(0, LP2P_SCOPE_PEER, LP2P_PROTOCOL_ANY, rate(1, 1000, 2));
    limits.set_limit(0, LP2P_SCOPE_GLOBAL, 5, rate(1, 1000, 2));
    let peer = random();
    assert_eq!(limits.check(&request(&peer, None, 5), START), Ok(()));
    assert_eq!(limits.bucket_count(), 2);
    limits.sweep(START + SECOND / 2);
    assert_eq!(limits.bucket_count(), 2);
    limits.set_limit(0, LP2P_SCOPE_GLOBAL, 5, rate(1, 1000, 0));
    assert_eq!(limits.bucket_count(), 1);
    limits.sweep(START + SECOND);
    assert_eq!(limits.bucket_count(), 0);
}

#[test]
fn a_source_without_a_burst_is_never_heard() {
    let mut never = SourceRate::new(SECOND, 0);
    assert!(!never.allow(random(), START));
    let mut always = SourceRate::new(0, 1);
    let peer = random();
    assert!((0..5).all(|_| always.allow(peer.clone(), START)));
    assert!(!SourceRate::new(0, 0).allow(random(), START));
}

#[test]
fn reports_start_over_with_the_next_second() {
    let mut limits = Limits::default();
    for _ in 0..EVENTS_PER_SECOND {
        assert!(limits.may_report(START));
    }
    assert!(!limits.may_report(START + SECOND - 1));
    assert!(limits.may_report(START + SECOND));
    assert_eq!((0..20).filter(|_| limits.may_report(START + SECOND)).count(), 9);
}

#[test]
fn no_more_is_admitted_than_burst_and_rate_allow() {
    let mut limits = Limits::default();
    limits.set_limit(0, LP2P_SCOPE_PEER, LP2P_PROTOCOL_ANY, rate(7, 1000, 5));
    limits.set_limit(0, LP2P_SCOPE_GLOBAL, 1, rate(1, 1000, 100));
    let peer = random();
    let admitted = (0..3000u64)
        .filter(|i| {
            let protocol = (i % 2) as u16;
            limits.check(&request(&peer, None, protocol), START + i * MILLISECOND).is_ok()
        })
        .count();
    // Five in reserve and seven for each of the three seconds, less the last millisecond.
    assert_eq!(admitted, 5 + 20);

    let mut sources = SourceRate::new(10 * SECOND, 3);
    let heard =
        (0..100u64).filter(|i| sources.allow(peer.clone(), START + i * SECOND)).count();
    assert_eq!(heard, 3 + 9);
}

fn per_peer(limits: &mut Limits, amount: u32, interval_ms: u32, burst: u32) {
    let rate = rate(amount, interval_ms, burst);
    limits.set_limit(0, LP2P_SCOPE_PEER, LP2P_PROTOCOL_ANY, rate);
}

#[test]
fn a_refused_request_takes_no_part_of_a_token() {
    for asks_between in [false, true] {
        let mut limits = Limits::default();
        let peer = random();
        let mut ask = |limits: &mut Limits, now: u64| limits.check(&request(&peer, None, 0), now);
        per_peer(&mut limits, 1, 1_000_000, 1);
        assert_eq!(ask(&mut limits, START), Ok(()));
        assert!(ask(&mut limits, START + 999_999).is_err());
        per_peer(&mut limits, 1, 1, 1);
        if asks_between {
            assert!(ask(&mut limits, START + 999_999).is_err());
        }
        per_peer(&mut limits, 1, 1_000_000, 1);
        assert!(ask(&mut limits, START + 1000 * SECOND - 1).is_err());
        assert_eq!(ask(&mut limits, START + 1000 * SECOND), Ok(()));
    }
}

#[test]
fn shares_of_different_rates_add_up() {
    let mut limits = Limits::default();
    let peer = random();
    let mut ask = |limits: &mut Limits, now: u64| limits.check(&request(&peer, None, 0), now);
    per_peer(&mut limits, 1, 3, 1);
    assert_eq!(ask(&mut limits, START), Ok(()));
    // A nanosecond each at a token per 3, 7 and 11 ms: 131 of 231 million parts.
    for (i, interval_ms) in [3, 7, 11].into_iter().enumerate() {
        per_peer(&mut limits, 1, interval_ms, 1);
        assert!(ask(&mut limits, START + 1 + i as u64).is_err());
    }
    per_peer(&mut limits, 1, 231, 1);
    let full = START + 3 + 231_000_000 - 131;
    assert!(ask(&mut limits, full - 1).is_err());
    assert_eq!(ask(&mut limits, full), Ok(()));
    // Nothing is left over.
    assert!(ask(&mut limits, full + 230_999_999).is_err());
    assert_eq!(ask(&mut limits, full + 231_000_000), Ok(()));
}

#[test]
fn an_admitted_request_takes_one_token_whatever_rate_follows() {
    let mut limits = Limits::default();
    let peer = random();
    let mut ask = |limits: &mut Limits, now: u64| limits.check(&request(&peer, None, 0), now);
    per_peer(&mut limits, 2, 3, 3);
    for _ in 0..3 {
        assert_eq!(ask(&mut limits, START), Ok(()));
    }
    // Two parts a nanosecond, of which three million make a token: 4 000 004, less one token.
    let now = START + 2_000_002;
    assert_eq!(ask(&mut limits, now), Ok(()));
    // 1 000 004 of three million parts are left; 7 ms make a token from here on.
    per_peer(&mut limits, 1, 7, 3);
    let left: u64 = (7 * (2 * 2_000_002 - 3_000_000)) / 3;
    assert!(ask(&mut limits, now + 7_000_000 - left - 1).is_err());
    assert_eq!(ask(&mut limits, now + 7_000_000 - left), Ok(()));
}

#[test]
fn time_until_a_check_counts_at_the_rate_in_force() {
    let mut limits = Limits::default();
    let peer = random();
    let mut ask = |limits: &mut Limits, now: u64| limits.check(&request(&peer, None, 0), now);
    per_peer(&mut limits, 1, 1_000, 1);
    assert_eq!(ask(&mut limits, START), Ok(()));
    // Half a token until here, and the other half a thousand times slower.
    assert!(ask(&mut limits, START + SECOND / 2).is_err());
    per_peer(&mut limits, 1, 1_000_000, 1);
    assert!(ask(&mut limits, START + SECOND / 2 + 500 * SECOND - 1).is_err());
    assert_eq!(ask(&mut limits, START + SECOND / 2 + 500 * SECOND), Ok(()));
}

#[test]
fn a_sweep_is_not_noticed() {
    let (peer, other) = (random(), random());
    let run = |swept: bool| {
        let mut limits = Limits::default();
        per_peer(&mut limits, 3, 1_000, 2);
        limits.set_limit(0, LP2P_SCOPE_GLOBAL, 1, rate(1, 700, 3));
        let mut verdicts = Vec::new();
        for i in 0..200u64 {
            let now = START + i * 77 * MILLISECOND;
            let who = if i % 3 == 0 { &other } else { &peer };
            verdicts.push(limits.check(&request(who, None, (i % 2) as u16), now));
            if swept {
                limits.sweep(now + MILLISECOND);
            }
        }
        verdicts
    };
    let verdicts = run(false);
    assert_eq!(verdicts, run(true));
    assert!(verdicts.contains(&Ok(())) && verdicts.contains(&Err(LP2P_SCOPE_PEER as u16)));

    let mut limits = Limits::default();
    per_peer(&mut limits, 1, 1_000, 1);
    assert_eq!(limits.check(&request(&peer, None, 0), START), Ok(()));
    limits.sweep(START + 2 * SECOND);
    assert_eq!(limits.bucket_count(), 0);
}

#[test]
fn the_largest_rates_and_times_are_counted() {
    let mut limits = Limits::default();
    let peer = random();
    let mut ask = |limits: &mut Limits, now: u64| limits.check(&request(&peer, None, 0), now);
    per_peer(&mut limits, 1, u32::MAX, 1);
    assert_eq!(ask(&mut limits, 0), Ok(()));
    let interval = u64::from(u32::MAX) * MILLISECOND;
    assert!(ask(&mut limits, interval - 1).is_err());
    // What is missing is gained in a nanosecond at a rate that is a little faster, and not before.
    per_peer(&mut limits, 1, u32::MAX - 1, 1);
    assert!(ask(&mut limits, interval - 1).is_err());
    assert_eq!(ask(&mut limits, interval), Ok(()));
    per_peer(&mut limits, u32::MAX, 1, u32::MAX);
    assert_eq!(ask(&mut limits, u64::MAX), Ok(()));
}
