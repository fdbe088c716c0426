//! A node's key is its peer id. These convert between the 32 bytes the C side sees and a peer id,
//! and refuse every key type but ed25519.

use vstd::prelude::*;

use crate::abi::lp2p_key;
use crate::bytes::{copy_bytes, same_bytes};
use crate::outside::{ed25519_decode_protobuf, ed25519_peer_id, ed25519_public_key};
use crate::table::Key;

verus! {

/// A peer id: the multihash of a public key.
#[derive(Clone, Debug, PartialEq, Eq, Hash)]
pub struct PeerId {
    /// Which hash it is; 0 means the digest is the encoded key itself.
    pub code: u64,
    pub digest: Vec<u8>,
}

impl View for PeerId {
    type V = (u64, Seq<u8>);

    open spec fn view(&self) -> (u64, Seq<u8>) {
        (self.code, self.digest@)
    }
}

impl PeerId {
    pub fn copy(&self) -> (peer: PeerId)
        ensures
            peer@ == self@,
    {
        PeerId { code: self.code, digest: copy_bytes(self.digest.as_slice()) }
    }
}

impl Key for PeerId {
    fn same(&self, other: &Self) -> (r: bool) {
        self.code == other.code && same_bytes(self.digest.as_slice(), other.digest.as_slice())
    }
}

/// The key that 32 bytes are.
pub open spec fn key_array(bytes: Seq<u8>) -> lp2p_key {
    choose|k: lp2p_key| #[trigger] k@ == bytes
}

/// A key is the key that its bytes are.
pub proof fn law_key_array(key: lp2p_key)
    ensures
        key_array(key@) == key,
{
    let other = key_array(key@);
    assert(other@ == key@);
    assert(other =~= key);
}

/// An ed25519 key pair, kept as the seed it is made from.
pub struct Keypair {
    seed: [u8; 32],
    public: lp2p_key,
}

impl Keypair {
    #[verifier::type_invariant]
    spec fn wf(self) -> bool {
        self.public@ == crate::outside::ed25519_public(self.seed@)
            && crate::outside::ed25519_key_valid(self.public@)
    }

    /// The seed the pair is made from.
    pub closed spec fn seed(self) -> Seq<u8> {
        self.seed@
    }
}

/// The peer id of an ed25519 key.
pub open spec fn peer_of(key: Seq<u8>) -> (u64, Seq<u8>) {
    (0, crate::outside::ed25519_protobuf(key))
}

/// The ed25519 key inside a peer id, or None for any other kind of peer.
pub open spec fn key_in(peer: (u64, Seq<u8>)) -> Option<Seq<u8>> {
    if peer.0 != 0 {
        None
    } else {
        crate::outside::ed25519_key_in_protobuf(peer.1)
    }
}

/// Every seed makes a key pair.
pub fn keypair_from_seed(seed: &[u8; 32]) -> (keypair: Option<Keypair>)
    ensures
        keypair is Some,
        keypair->0.seed() == seed@,
{
    match ed25519_public_key(seed) {
        Some(public) => Some(Keypair { seed: *seed, public }),
        None => None,
    }
}

/// Every key pair has a public key, and it is a valid one.
pub fn public_key(keypair: &Keypair) -> (key: Option<lp2p_key>)
    ensures
        key is Some,
        key->0@ == crate::outside::ed25519_public(keypair.seed()),
        crate::outside::ed25519_key_valid(key->0@),
{
    proof {
        use_type_invariant(keypair);
    }
    Some(keypair.public)
}

/// The peer id of a node's key, or None where the bytes are no key.
pub fn peer_id(key: &lp2p_key) -> (peer: Option<PeerId>)
    ensures
        match peer {
            Some(p) => crate::outside::ed25519_key_valid(key@) && p@ == peer_of(key@),
            None => !crate::outside::ed25519_key_valid(key@),
        },
{
    ed25519_peer_id(key)
}

/// The ed25519 key inside a peer id, or None for any other kind of peer. The key of a peer id that
/// was made from a key is that key.
pub fn key_of(peer: &PeerId) -> (key: Option<lp2p_key>)
    ensures
        match key {
            Some(k) => key_in(peer@) == Some(k@) && crate::outside::ed25519_key_valid(k@),
            None => key_in(peer@) is None,
        },
        forall|k: Seq<u8>|
            #![trigger peer_of(k)]
            k.len() == 32 && crate::outside::ed25519_key_valid(k) && peer@ == peer_of(k)
                ==> key_in(peer@) == Some(k),
{
    // An ed25519 peer id is the identity multihash of the protobuf-encoded public key.
    if peer.code != 0 {
        return None;
    }
    let key = ed25519_decode_protobuf(peer.digest.as_slice());
    proof {
        assert forall|k: Seq<u8>|
            #![trigger peer_of(k)]
            k.len() == 32 && crate::outside::ed25519_key_valid(k) && peer@ == peer_of(
                k,
            ) implies key_in(peer@) == Some(k) by {
            assert(peer.digest@ == crate::outside::ed25519_protobuf(k));
        }
    }
    key
}

/// A peer id is a node's only if it is the identity hash of an encoded ed25519 key; any other kind
/// names no node.
pub proof fn law_peer_ids(key: lp2p_key, peer: (u64, Seq<u8>))
    ensures
        peer_of(key@) == (0u64, seq![0x08u8, 0x01u8, 0x12u8, 0x20u8] + key@),
        peer.0 != 0 ==> key_in(peer) is None,
        peer.0 == 0 ==> key_in(peer) == crate::outside::ed25519_key_in_protobuf(peer.1),
        peer_of(key@).1.len() == 36,
{
}

/// Different keys have different peer ids.
pub proof fn law_peer_ids_differ(a: lp2p_key, b: lp2p_key)
    requires
        peer_of(a@) == peer_of(b@),
    ensures
        a@ == b@,
{
    assert(peer_of(a@).1.skip(4) =~= a@);
    assert(peer_of(b@).1.skip(4) =~= b@);
}

} // verus!
