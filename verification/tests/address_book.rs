//! Addresses and the book they are kept in.

use libp2p_ffi::address_book::{AddressBook, MAX_ADDRESSES_PER_PEER, MAX_PEERS};
use libp2p_ffi::keys::PeerId;
use libp2p_ffi::multiaddr::{is_relayed, is_unspecified, remote_ip, Ip, Multiaddr};

fn peer(n: u32) -> PeerId {
    PeerId { code: 0, digest: n.to_be_bytes().to_vec() }
}

fn address(port: u16) -> Multiaddr {
    Multiaddr::parse(&format!("/ip4/10.0.0.1/tcp/{port}")).unwrap()
}

fn texts(book: &AddressBook, peer: &PeerId) -> Vec<String> {
    book.addresses(peer).iter().map(|a| a.to_text()).collect()
}

#[test]
fn a_book_offers_what_it_was_told() {
    let mut book = AddressBook::default();
    assert!(!book.knows(&peer(1)));
    assert!(book.addresses(&peer(1)).is_empty());
    book.add(peer(1), address(1));
    book.add(peer(1), address(2));
    book.add(peer(1), address(1));
    book.add(peer(2), address(3));
    assert!(book.knows(&peer(1)));
    assert_eq!(texts(&book, &peer(1)), ["/ip4/10.0.0.1/tcp/1", "/ip4/10.0.0.1/tcp/2"]);
    assert_eq!(texts(&book, &peer(2)), ["/ip4/10.0.0.1/tcp/3"]);
}

#[test]
fn the_oldest_address_makes_room() {
    let mut book = AddressBook::default();
    for port in 1..=MAX_ADDRESSES_PER_PEER as u16 + 1 {
        book.add(peer(1), address(port));
    }
    let known = texts(&book, &peer(1));
    assert_eq!(known.len(), MAX_ADDRESSES_PER_PEER);
    assert_eq!(known[0], "/ip4/10.0.0.1/tcp/2");
    assert_eq!(known[7], "/ip4/10.0.0.1/tcp/9");
}

#[test]
fn the_oldest_peer_makes_room() {
    let mut book = AddressBook::default();
    for n in 0..MAX_PEERS as u32 {
        book.add(peer(n), address(1));
    }
    // A peer that is known already costs nobody their place.
    book.add(peer(0), address(2));
    assert!(book.knows(&peer(0)));
    book.add(peer(MAX_PEERS as u32), address(1));
    assert!(!book.knows(&peer(0)));
    assert!(book.knows(&peer(1)));
    assert!(book.knows(&peer(MAX_PEERS as u32)));
}

#[test]
fn addresses_are_read_and_written() {
    assert!(Multiaddr::parse("nonsense").is_none());
    assert!(Multiaddr::parse("/ip4/300.0.0.1").is_none());
    let a = address(4001);
    assert_eq!(a.as_bytes(), &[4, 10, 0, 0, 1, 6, 0x0f, 0xa1]);
    assert_eq!(a.to_text(), "/ip4/10.0.0.1/tcp/4001");
    let b = Multiaddr::from_bytes(a.as_bytes().to_vec()).unwrap();
    assert!(a.same(&b));
    assert!(!a.same(&address(4002)));
    assert!(Multiaddr::from_bytes(vec![4, 10, 0]).is_none());
}

#[test]
fn unspecified_addresses_are_told_apart() {
    for (text, unspecified) in [
        ("/ip4/0.0.0.0/tcp/1", true),
        ("/ip4/0.0.0.1/tcp/1", false),
        ("/ip6/::/udp/1/quic-v1", true),
        ("/ip6/::1/udp/1/quic-v1", false),
        ("/dns4/example.org/tcp/1", false),
    ] {
        assert_eq!(is_unspecified(&Multiaddr::parse(text).unwrap()), unspecified, "{text}");
    }
}

#[test]
fn a_relayed_connection_shows_no_ip() {
    let direct = address(1);
    assert!(matches!(remote_ip(&direct, false), Some(Ip::V4([10, 0, 0, 1]))));
    assert!(remote_ip(&direct, true).is_none());
    let dns = Multiaddr::parse("/dns4/example.org/tcp/1").unwrap();
    assert!(remote_ip(&dns, false).is_none());
    let v6 = Multiaddr::parse("/ip6/2001:db8::1/tcp/1").unwrap();
    let octets = [0x20, 0x01, 0x0d, 0xb8, 0, 0, 0, 0, 0, 0, 0, 0, 0, 0, 0, 1];
    assert!(matches!(remote_ip(&v6, false), Some(Ip::V6(o)) if o == octets));
    assert_eq!(&v6.as_bytes()[..17], &[&[41][..], &octets[..]].concat()[..]);
    // A protocol code of five bytes whose excess bits are dropped: IPv4 all the same.
    let long = vec![0x84, 0x80, 0x80, 0x80, 0x10, 10, 0, 0, 1];
    let long = Multiaddr::from_bytes(long).unwrap();
    assert!(matches!(remote_ip(&long, false), Some(Ip::V4([10, 0, 0, 1]))));
    let empty = Multiaddr::from_bytes(Vec::new()).unwrap();
    assert!(remote_ip(&empty, false).is_none());
}

#[test]
fn a_circuit_among_the_protocols_makes_an_address_relayed() {
    let relay = libp2p::identity::Keypair::ed25519_from_bytes([5u8; 32]).unwrap();
    let relay = relay.public().to_peer_id();
    for (text, protocols, relayed) in [
        ("/ip4/10.0.0.1/tcp/1".to_string(), vec!["ip4", "tcp"], false),
        (format!("/ip6/::1/udp/1/quic-v1/p2p/{relay}"), vec!["ip6", "udp", "quic-v1", "p2p"], false),
        (format!("/ip4/10.0.0.1/tcp/1/p2p/{relay}/p2p-circuit"),
            vec!["ip4", "tcp", "p2p", "p2p-circuit"], true),
        (format!("/p2p/{relay}/p2p-circuit/p2p/{relay}"), vec!["p2p", "p2p-circuit", "p2p"], true),
        ("/p2p-circuit".to_string(), vec!["p2p-circuit"], true),
    ] {
        let address = Multiaddr::parse(&text).unwrap();
        assert_eq!(address.protocols(), protocols, "{text}");
        assert_eq!(is_relayed(&address), relayed, "{text}");
    }
    assert!(!is_relayed(&Multiaddr::from_bytes(Vec::new()).unwrap()));
}
