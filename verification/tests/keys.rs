//! Keys and peer ids.

use libp2p_ffi::keys::{key_of, keypair_from_seed, peer_id, public_key, PeerId};

fn own(peer: &libp2p::PeerId) -> PeerId {
    PeerId { code: peer.as_ref().code(), digest: peer.as_ref().digest().to_vec() }
}

#[test]
fn peer_id_round_trips_through_the_key() {
    let keypair = keypair_from_seed(&[7; 32]).unwrap();
    let key = public_key(&keypair).unwrap();
    let peer = peer_id(&key).unwrap();
    let libp2p_keypair = libp2p::identity::Keypair::ed25519_from_bytes([7u8; 32]).unwrap();
    assert_eq!(peer, own(&libp2p_keypair.public().to_peer_id()));
    assert_eq!(key_of(&peer), Some(key));
}

#[test]
fn a_peer_id_is_the_encoded_key() {
    let key = public_key(&keypair_from_seed(&[7; 32]).unwrap()).unwrap();
    let peer = peer_id(&key).unwrap();
    assert_eq!(peer.code, 0);
    assert_eq!(&peer.digest[..4], &[8, 1, 0x12, 0x20]);
    assert_eq!(&peer.digest[4..], &key);
}

#[test]
fn other_peers_have_no_key() {
    // A hash of a key is not the key.
    assert_eq!(key_of(&PeerId { code: 0x12, digest: vec![1; 32] }), None);
    // Neither is anything that does not decode.
    assert_eq!(key_of(&PeerId { code: 0, digest: vec![1, 2, 3] }), None);
    // Key type 2 is secp256k1.
    let mut digest = vec![8, 2, 0x12, 0x20];
    digest.extend_from_slice(&[7; 32]);
    assert_eq!(key_of(&PeerId { code: 0, digest }), None);
}

#[test]
fn bytes_that_are_no_key_make_no_peer() {
    let bad = (0..=255u8)
        .map(|b| {
            let mut key = [0u8; 32];
            key[0] = b;
            key
        })
        .find(|key| libp2p::identity::ed25519::PublicKey::try_from_bytes(key).is_err())
        .unwrap();
    assert_eq!(peer_id(&bad), None);
}
