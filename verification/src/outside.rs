//! What libp2p and the standard library compute for this crate.
//!
//! Each item here is believed, not proved: its contract says what the function it calls does. A
//! result that would take pages to state has a name instead, a function of the arguments that
//! nothing else is said of than what stands here.

use vstd::prelude::*;

use crate::abi::lp2p_key;
use crate::keys::PeerId;
use crate::multiaddr::Ip;

verus! {

/// Whether 32 bytes are an ed25519 public key, as `ed25519::PublicKey::try_from_bytes` decides.
pub uninterp spec fn ed25519_key_valid(key: Seq<u8>) -> bool;

/// The public key of a seed, as `identity::Keypair::public` gives it.
pub uninterp spec fn ed25519_public(seed: Seq<u8>) -> Seq<u8>;

/// The signature of a seed over a message, as `ed25519::Keypair::sign` gives it.
pub uninterp spec fn ed25519_signature(seed: Seq<u8>, message: Seq<u8>) -> Seq<u8>;

/// Whether a signature is a key's over a message, as `ed25519::PublicKey::verify` decides.
pub uninterp spec fn ed25519_verifies(key: Seq<u8>, message: Seq<u8>, signature: Seq<u8>) -> bool;

/// The ed25519 key in a protobuf-encoded public key, as `PublicKey::try_decode_protobuf` and
/// `PublicKey::try_into_ed25519` find it; None for anything else.
pub uninterp spec fn ed25519_key_in_protobuf(bytes: Seq<u8>) -> Option<Seq<u8>>;

/// The SHA-256 digest, as `kad::KBucketKey::new` computes it.
pub uninterp spec fn sha256(bytes: Seq<u8>) -> Seq<u8>;

/// Whether bytes are a multiaddress, as `Multiaddr::try_from` decides.
pub uninterp spec fn multiaddr_valid(bytes: Seq<u8>) -> bool;

/// The bytes of a multiaddress in text form, as `Multiaddr::from_str` gives them.
pub uninterp spec fn multiaddr_of_text(text: Seq<char>) -> Option<Seq<u8>>;

/// The text form of a multiaddress, as `Multiaddr::to_string` gives it.
pub uninterp spec fn multiaddr_text(bytes: Seq<u8>) -> Seq<char>;

/// The octets of the IP address that a multiaddress starts with, as `Multiaddr::iter` yields it:
/// four for IPv4, sixteen for IPv6, None where it starts with anything else.
pub uninterp spec fn multiaddr_ip(bytes: Seq<u8>) -> Option<Seq<u8>>;

/// The names of the protocols in a multiaddress, as `Multiaddr::protocol_stack` yields them.
pub uninterp spec fn multiaddr_protocols(bytes: Seq<u8>) -> Seq<Seq<char>>;

/// Whether the code of the first protocol in a multiaddress, if there is one, is a single byte.
pub open spec fn plain_start(bytes: Seq<u8>) -> bool {
    bytes.len() == 0 || bytes[0] < 0x80
}

/// The octets behind the code of IPv4 or IPv6 at the start of a multiaddress.
pub open spec fn plain_ip(bytes: Seq<u8>) -> Option<Seq<u8>> {
    if bytes.len() >= 5 && bytes[0] == 4 {
        Some(bytes.subrange(1, 5))
    } else if bytes.len() >= 17 && bytes[0] == 41 {
        Some(bytes.subrange(1, 17))
    } else {
        None
    }
}

/// The protobuf encoding of an ed25519 public key: key type 1, then the 32 bytes of the key.
pub open spec fn ed25519_protobuf(key: Seq<u8>) -> Seq<u8> {
    seq![0x08u8, 0x01u8, 0x12u8, 0x20u8] + key
}

/// `identity::Keypair::ed25519_from_bytes`, and the public key of that pair. Every seed of 32
/// bytes makes a pair, and its public key is a valid one.
#[verifier::external_body]
pub(crate) fn ed25519_public_key(seed: &[u8; 32]) -> (key: Option<lp2p_key>)
    ensures
        key is Some,
        key->0@ == ed25519_public(seed@),
        ed25519_key_valid(key->0@),
{
    let mut copy = *seed;
    let keypair = libp2p::identity::Keypair::ed25519_from_bytes(&mut copy).ok()?;
    keypair.public().try_into_ed25519().ok().map(|pk| pk.to_bytes())
}

/// `ed25519::Keypair::sign` with the pair of a seed. A signature is 64 bytes, and the seed's
/// public key verifies it.
#[verifier::external_body]
pub(crate) fn ed25519_sign(seed: &[u8; 32], message: &[u8]) -> (signature: Option<[u8; 64]>)
    ensures
        signature is Some,
        signature->0@ == ed25519_signature(seed@, message@),
        ed25519_verifies(ed25519_public(seed@), message@, signature->0@),
{
    let mut copy = *seed;
    let secret = libp2p::identity::ed25519::SecretKey::try_from_bytes(&mut copy).ok()?;
    libp2p::identity::ed25519::Keypair::from(secret).sign(message).try_into().ok()
}

/// `ed25519::PublicKey::verify` with the key that the bytes are; None where they are no key.
#[verifier::external_body]
pub(crate) fn ed25519_verify(key: &lp2p_key, message: &[u8], signature: &[u8; 64]) -> (r: Option<
    bool,
>)
    ensures
        match r {
            Some(good) => ed25519_key_valid(key@) && good == ed25519_verifies(
                key@,
                message@,
                signature@,
            ),
            None => !ed25519_key_valid(key@),
        },
{
    libp2p::identity::ed25519::PublicKey::try_from_bytes(key)
        .ok()
        .map(|pk| pk.verify(message, signature))
}

/// `PublicKey::to_peer_id` of an ed25519 key. The peer id of so short a key is the identity
/// multihash, code 0, of its protobuf encoding.
#[verifier::external_body]
pub(crate) fn ed25519_peer_id(key: &lp2p_key) -> (peer: Option<PeerId>)
    ensures
        match peer {
            Some(p) => ed25519_key_valid(key@) && p@ == (0u64, ed25519_protobuf(key@)),
            None => !ed25519_key_valid(key@),
        },
{
    let pk = libp2p::identity::ed25519::PublicKey::try_from_bytes(key).ok()?;
    let multihash = *libp2p::identity::PublicKey::from(pk).to_peer_id().as_ref();
    Some(PeerId { code: multihash.code(), digest: multihash.digest().to_vec() })
}

/// `PublicKey::try_decode_protobuf`, for ed25519 keys. What it finds is a valid key, and it finds
/// a valid key in its own encoding.
#[verifier::external_body]
pub(crate) fn ed25519_decode_protobuf(bytes: &[u8]) -> (key: Option<lp2p_key>)
    ensures
        match key {
            Some(k) => ed25519_key_in_protobuf(bytes@) == Some(k@) && ed25519_key_valid(k@),
            None => ed25519_key_in_protobuf(bytes@) is None,
        },
        forall|k: Seq<u8>|
            #![trigger ed25519_protobuf(k)]
            k.len() == 32 && ed25519_key_valid(k) && bytes@ == ed25519_protobuf(k) ==> key is Some
                && key->0@ == k,
{
    let pk = libp2p::identity::PublicKey::try_decode_protobuf(bytes).ok()?;
    pk.try_into_ed25519().ok().map(|pk| pk.to_bytes())
}

/// `kad::KBucketKey::new`, which hashes its argument with SHA-256; the digest is 32 bytes.
#[verifier::external_body]
pub(crate) fn sha256_digest(bytes: &[u8]) -> (digest: Vec<u8>)
    ensures
        digest@ == sha256(bytes@),
        digest@.len() == 32,
{
    libp2p::kad::KBucketKey::new(bytes.to_vec()).hashed_bytes().to_vec()
}

/// `Multiaddr::try_from` on bytes.
#[verifier::external_body]
pub(crate) fn multiaddr_check(bytes: &[u8]) -> (r: bool)
    ensures
        r == multiaddr_valid(bytes@),
{
    libp2p::Multiaddr::try_from(bytes.to_vec()).is_ok()
}

/// `Multiaddr::from_str`. What parses is a multiaddress in bytes as well.
#[verifier::external_body]
pub(crate) fn multiaddr_parse(text: &str) -> (bytes: Option<Vec<u8>>)
    ensures
        match bytes {
            Some(b) => multiaddr_of_text(text@) == Some(b@) && multiaddr_valid(b@),
            None => multiaddr_of_text(text@) is None,
        },
{
    text.parse::<libp2p::Multiaddr>().ok().map(|address| address.to_vec())
}

/// `Multiaddr::to_string`.
#[verifier::external_body]
pub(crate) fn multiaddr_to_text(bytes: &[u8]) -> (text: String)
    requires
        multiaddr_valid(bytes@),
    ensures
        text@ == multiaddr_text(bytes@),
{
    libp2p::Multiaddr::try_from(bytes.to_vec()).unwrap().to_string()
}

/// The first item of `Multiaddr::iter`, where it is an IP address. Behind a protocol code of one
/// byte, 4 for IPv4 and 41 for IPv6, stand the octets. A code is a varint of up to five bytes whose
/// excess bits are dropped, so a longer form can stand for the same code; of what starts with one
/// only the name is given.
#[verifier::external_body]
pub(crate) fn multiaddr_first_ip(bytes: &[u8]) -> (ip: Option<Ip>)
    requires
        multiaddr_valid(bytes@),
    ensures
        match ip {
            Some(ip) => multiaddr_ip(bytes@) == Some(ip@),
            None => multiaddr_ip(bytes@) is None,
        },
        plain_start(bytes@) ==> match ip {
            Some(ip) => plain_ip(bytes@) == Some(ip@),
            None => plain_ip(bytes@) is None,
        },
{
    match libp2p::Multiaddr::try_from(bytes.to_vec()).unwrap().iter().next() {
        Some(libp2p::multiaddr::Protocol::Ip4(ip)) => Some(Ip::V4(ip.octets())),
        Some(libp2p::multiaddr::Protocol::Ip6(ip)) => Some(Ip::V6(ip.octets())),
        _ => None,
    }
}

/// `Multiaddr::protocol_stack`.
#[verifier::external_body]
pub(crate) fn multiaddr_protocol_names(bytes: &[u8]) -> (names: Vec<String>)
    requires
        multiaddr_valid(bytes@),
    ensures
        crate::node::names(names@) == multiaddr_protocols(bytes@),
{
    let address = libp2p::Multiaddr::try_from(bytes.to_vec()).unwrap();
    address.protocol_stack().map(|name| name.to_string()).collect()
}

/// `StreamProtocol::try_from_owned`: a protocol name starts with a slash.
#[verifier::external_body]
pub(crate) fn stream_protocol_valid(name: &str) -> (r: bool)
    ensures
        r == (name@.len() > 0 && name@[0] == '/'),
{
    libp2p::StreamProtocol::try_from_owned(name.to_owned()).is_ok()
}

/// `u16::to_ne_bytes`: the two bytes in one order or the other, as the machine has it.
#[verifier::external_body]
pub(crate) fn u16_to_ne_bytes(x: u16) -> (bytes: [u8; 2])
    ensures
        bytes@ == crate::bytes::le_bytes(x as nat, 2) || bytes@ == crate::bytes::be_bytes(
            x as nat,
            2,
        ),
{
    x.to_ne_bytes()
}

/// `SystemTime::elapsed` of the Unix epoch; None for a clock before it. It is the time: nothing is
/// said of it.
#[verifier::external_body]
pub(crate) fn since_unix_epoch() -> (time: Option<std::time::Duration>) {
    std::time::UNIX_EPOCH.elapsed().ok()
}

/// `Duration::as_millis`, of which nothing is said.
pub assume_specification[ std::time::Duration::as_millis ](time: &std::time::Duration) -> u128
;

/// `std::str::Utf8Error`, carried through and never looked into.
#[verifier::external_type_specification]
#[verifier::external_body]
pub struct ExUtf8Error(std::str::Utf8Error);

/// `str::from_utf8`: the bytes are a string exactly if they are valid UTF-8.
pub assume_specification[ std::str::from_utf8 ](v: &[u8]) -> (r: Result<&str, std::str::Utf8Error>)
    ensures
        match r {
            Ok(s) => vstd::utf8::valid_utf8(v@) && vstd::utf8::encode_utf8(s@) == v@,
            Err(_) => !vstd::utf8::valid_utf8(v@),
        },
;

} // verus!
