//! "Node key X belongs to group Y until T", signed by the group key.
//!
//! The module has to check a delegation on every request and every response, so the format is
//! the module's and not the caller's:
//!
//! ```text
//! offset  size  field
//!      0    32  node key     ed25519 public key; the peer id of the node
//!     32    32  group key    ed25519 public key
//!     64     8  expires_ms   unix milliseconds, big endian; 0 means it does not expire
//!     72    64  signature    ed25519 by the group key over
//!                            "libp2p-ffi delegation v1" || node key || group key || expires_ms
//! ```
//!
//! The context string keeps a delegation from ever being a valid signature over anything else the
//! group key signs.

use vstd::prelude::*;

use crate::abi::{lp2p_key, LP2P_DELEGATION_BYTES};
use crate::bytes::{append_bytes, key_at, push_be, read_be64, same_key};
use crate::outside::{ed25519_public_key, ed25519_sign, ed25519_verify, since_unix_epoch};

verus! {

#[derive(Clone, Copy, Debug, PartialEq, Eq)]
pub struct Delegation {
    pub node: lp2p_key,
    pub group: lp2p_key,
    pub expires_ms: u64,
    pub signature: [u8; 64],
}

#[derive(Clone, Copy, Debug, PartialEq, Eq, Structural)]
pub enum Invalid {
    Length,
    GroupKey,
    Signature,
    Expired,
    WrongNode,
}

/// What a group key signs to delegate to a node.
pub open spec fn signed_message(node: Seq<u8>, group: Seq<u8>, expires_ms: u64) -> Seq<u8> {
    vstd::utf8::encode_utf8("libp2p-ffi delegation v1"@) + node + group + crate::bytes::be_bytes(
        expires_ms as nat,
        8,
    )
}

/// The bytes that a group key signs to delegate to a node.
pub fn message(node: &lp2p_key, group: &lp2p_key, expires_ms: u64) -> (msg: Vec<u8>)
    ensures
        msg@ == signed_message(node@, group@, expires_ms),
{
    let mut msg: Vec<u8> = Vec::new();
    append_bytes(&mut msg, "libp2p-ffi delegation v1".as_bytes());
    append_bytes(&mut msg, node.as_slice());
    append_bytes(&mut msg, group.as_slice());
    push_be(&mut msg, expires_ms, 8);
    assert(msg@ =~= signed_message(node@, group@, expires_ms));
    msg
}

/// The delegation that bytes are, where they are one.
pub open spec fn parsed(bytes: Seq<u8>) -> Result<Delegation, Invalid> {
    if bytes.len() == LP2P_DELEGATION_BYTES {
        Ok(choose|d: Delegation| #[trigger] d.bytes() == bytes)
    } else {
        Err(Invalid::Length)
    }
}

impl Delegation {
    /// The delegation as it travels.
    pub open spec fn bytes(self) -> Seq<u8> {
        self.node@ + self.group@ + crate::bytes::be_bytes(self.expires_ms as nat, 8)
            + self.signature@
    }

    /// Whether the delegation has run out.
    pub open spec fn expired(self, now_ms: u64) -> bool {
        self.expires_ms != 0 && self.expires_ms <= now_ms
    }

    /// Whether the signature is the group's over what the delegation says.
    pub open spec fn signature_good(self) -> bool {
        crate::outside::ed25519_verifies(
            self.group@,
            signed_message(self.node@, self.group@, self.expires_ms),
            self.signature@,
        )
    }

    /// What checking the delegation comes to.
    pub open spec fn checked(self, now_ms: u64) -> Result<(), Invalid> {
        if !crate::outside::ed25519_key_valid(self.group@) {
            Err(Invalid::GroupKey)
        } else if !self.signature_good() {
            Err(Invalid::Signature)
        } else if self.expired(now_ms) {
            Err(Invalid::Expired)
        } else {
            Ok(())
        }
    }

    /// What checking the delegation of a given node comes to.
    pub open spec fn checked_for(self, node: Seq<u8>, now_ms: u64) -> Result<(), Invalid> {
        match self.checked(now_ms) {
            Err(invalid) => Err(invalid),
            Ok(()) => if self.node@ == node {
                Ok(())
            } else {
                Err(Invalid::WrongNode)
            },
        }
    }

    pub fn parse(bytes: &[u8]) -> (d: Result<Self, Invalid>)
        ensures
            d == parsed(bytes@),
            match d {
                Ok(d) => d.bytes() == bytes@,
                Err(invalid) => invalid == Invalid::Length,
            },
            d is Ok <==> bytes@.len() == LP2P_DELEGATION_BYTES,
    {
        if bytes.len() != LP2P_DELEGATION_BYTES {
            return Err(Invalid::Length);
        }
        let (_, rest) = bytes.split_at(64);
        let (expires, signature) = rest.split_at(8);
        let d = Delegation {
            node: key_at(bytes, 0),
            group: key_at(bytes, 32),
            expires_ms: read_be64(expires),
            signature: signature_at(signature),
        };
        proof {
            crate::bytes::law_bytes_write_back(expires@);
            assert(d.bytes() =~= bytes@);
            law_delegation_bytes(d, parsed(bytes@)->Ok_0);
        }
        Ok(d)
    }

    pub fn to_bytes(&self) -> (out: [u8; 136])
        ensures
            out@ == self.bytes(),
    {
        let mut all: Vec<u8> = Vec::new();
        append_bytes(&mut all, self.node.as_slice());
        append_bytes(&mut all, self.group.as_slice());
        push_be(&mut all, self.expires_ms, 8);
        append_bytes(&mut all, self.signature.as_slice());
        assert(all@ =~= self.bytes());
        proof {
            lemma_lengths(*self);
        }
        let mut out: [u8; 136] = [0;136];
        let mut i: usize = 0;
        while i < 136
            invariant
                i <= 136,
                all@.len() == 136,
                forall|j: int| 0 <= j < i ==> out@[j] == all@[j],
            decreases 136 - i,
        {
            out[i] = all[i];
            i += 1;
        }
        assert(out@ =~= all@);
        out
    }

    /// Every seed signs. The delegation names the node, the seed's public key as the group, and
    /// the expiry, and it passes its checks until it expires.
    pub fn sign(group_seed: &[u8; 32], node: &lp2p_key, expires_ms: u64) -> (d: Option<Self>)
        ensures
            d is Some,
            d->0.node == *node,
            d->0.group@ == crate::outside::ed25519_public(group_seed@),
            d->0.expires_ms == expires_ms,
            d->0.signature@ == crate::outside::ed25519_signature(
                group_seed@,
                signed_message(node@, d->0.group@, expires_ms),
            ),
            forall|now_ms: u64| #[trigger]
                d->0.checked(now_ms) == (if d->0.expired(now_ms) {
                    Err::<(), Invalid>(Invalid::Expired)
                } else {
                    Ok(())
                }),
    {
        match ed25519_public_key(group_seed) {
            Some(group) => {
                let msg = message(node, &group, expires_ms);
                match ed25519_sign(group_seed, msg.as_slice()) {
                    Some(signature) => Some(
                        Delegation { node: *node, group, expires_ms, signature },
                    ),
                    None => None,
                }
            },
            None => None,
        }
    }

    /// Checks the signature and the expiry against `now_ms`.
    pub fn verify(&self, now_ms: u64) -> (r: Result<(), Invalid>)
        ensures
            r == self.checked(now_ms),
    {
        let msg = message(&self.node, &self.group, self.expires_ms);
        match ed25519_verify(&self.group, msg.as_slice(), &self.signature) {
            None => Err(Invalid::GroupKey),
            Some(good) => if !good {
                Err(Invalid::Signature)
            } else if self.expires_ms != 0 && self.expires_ms <= now_ms {
                Err(Invalid::Expired)
            } else {
                Ok(())
            },
        }
    }

    /// Checks everything [`verify`](Self::verify) does, and that the delegation names `node`.
    pub fn verify_for(&self, node: &lp2p_key, now_ms: u64) -> (r: Result<(), Invalid>)
        ensures
            r == self.checked_for(node@, now_ms),
    {
        match self.verify(now_ms) {
            Err(invalid) => Err(invalid),
            Ok(()) => if same_key(&self.node, node) {
                Ok(())
            } else {
                Err(Invalid::WrongNode)
            },
        }
    }
}

fn signature_at(bytes: &[u8]) -> (signature: [u8; 64])
    requires
        bytes@.len() == 64,
    ensures
        signature@ == bytes@,
{
    let mut signature: [u8; 64] = [0;64];
    let mut i: usize = 0;
    while i < 64
        invariant
            i <= 64,
            bytes@.len() == 64,
            forall|j: int| 0 <= j < i ==> signature@[j] == bytes@[j],
        decreases 64 - i,
    {
        signature[i] = bytes[i];
        i += 1;
    }
    assert(signature@ =~= bytes@);
    signature
}

proof fn lemma_lengths(d: Delegation)
    ensures
        d.bytes().len() == LP2P_DELEGATION_BYTES,
{
    crate::bytes::lemma_byte_counts(d.expires_ms as nat, 8);
}

/// A delegation is read back from its bytes as it was written.
pub proof fn law_delegation_read_back(d: Delegation)
    ensures
        parsed(d.bytes()) == Ok::<Delegation, Invalid>(d),
{
    lemma_lengths(d);
    law_delegation_bytes(d, parsed(d.bytes())->Ok_0);
}

/// Two delegations with the same bytes are the same.
pub proof fn law_delegation_bytes(a: Delegation, b: Delegation)
    requires
        a.bytes() == b.bytes(),
    ensures
        a == b,
{
    crate::bytes::lemma_byte_counts(a.expires_ms as nat, 8);
    crate::bytes::lemma_byte_counts(b.expires_ms as nat, 8);
    reveal_with_fuel(crate::bytes::values_of, 9);
    crate::bytes::law_bytes_read_back(a.expires_ms as nat, 8);
    crate::bytes::law_bytes_read_back(b.expires_ms as nat, 8);
    assert(a.node@ =~= a.bytes().subrange(0, 32));
    assert(b.node@ =~= a.bytes().subrange(0, 32));
    assert(a.group@ =~= a.bytes().subrange(32, 64));
    assert(b.group@ =~= a.bytes().subrange(32, 64));
    assert(crate::bytes::be_bytes(a.expires_ms as nat, 8) =~= a.bytes().subrange(64, 72));
    assert(crate::bytes::be_bytes(b.expires_ms as nat, 8) =~= a.bytes().subrange(64, 72));
    assert(a.signature@ =~= a.bytes().subrange(72, 136));
    assert(b.signature@ =~= a.bytes().subrange(72, 136));
    assert(a.node =~= b.node);
    assert(a.group =~= b.group);
    assert(a.signature =~= b.signature);
}

/// What a group signs says which node, which group and which expiry: no two say the same.
pub proof fn law_messages_differ(
    node: Seq<u8>,
    group: Seq<u8>,
    expires_ms: u64,
    other_node: Seq<u8>,
    other_group: Seq<u8>,
    other_expires_ms: u64,
)
    requires
        node.len() == 32,
        group.len() == 32,
        other_node.len() == 32,
        other_group.len() == 32,
        signed_message(node, group, expires_ms) == signed_message(
            other_node,
            other_group,
            other_expires_ms,
        ),
    ensures
        node == other_node,
        group == other_group,
        expires_ms == other_expires_ms,
{
    let m = signed_message(node, group, expires_ms);
    let c = vstd::utf8::encode_utf8("libp2p-ffi delegation v1"@).len() as int;
    crate::bytes::lemma_byte_counts(expires_ms as nat, 8);
    crate::bytes::lemma_byte_counts(other_expires_ms as nat, 8);
    reveal_with_fuel(crate::bytes::values_of, 9);
    crate::bytes::law_bytes_read_back(expires_ms as nat, 8);
    crate::bytes::law_bytes_read_back(other_expires_ms as nat, 8);
    assert(node =~= m.subrange(c, c + 32));
    assert(other_node =~= m.subrange(c, c + 32));
    assert(group =~= m.subrange(c + 32, c + 64));
    assert(other_group =~= m.subrange(c + 32, c + 64));
    assert(crate::bytes::be_bytes(expires_ms as nat, 8) =~= m.subrange(c + 64, c + 72));
    assert(crate::bytes::be_bytes(other_expires_ms as nat, 8) =~= m.subrange(c + 64, c + 72));
}

/// A delegation that is checked later is no better for it: what was refused stays refused, and
/// what was accepted is refused at most for having expired.
pub proof fn law_checks_over_time(d: Delegation, node: Seq<u8>, now_ms: u64, later_ms: u64)
    requires
        now_ms <= later_ms,
    ensures
        d.checked_for(node, later_ms) is Ok ==> d.checked_for(node, now_ms) is Ok,
        d.checked_for(node, now_ms) is Ok ==> (d.checked_for(node, later_ms) is Ok
            || d.checked_for(node, later_ms) == Err::<(), Invalid>(Invalid::Expired)),
        d.expires_ms == 0 ==> d.checked_for(node, later_ms) == d.checked_for(node, now_ms),
{
}

/// A number of milliseconds since the Unix epoch as 64 bits hold it; 0 for a clock before the epoch.
pub fn unix_ms_of(ms: Option<u128>) -> (low: u64)
    ensures
        low == (match ms {
            Some(ms) => ms % 0x1_0000_0000_0000_0000,
            None => 0,
        }),
{
    match ms {
        Some(ms) => {
            #[verifier::truncate]
            let low = ms as u64;
            assert(low == ms % 0x1_0000_0000_0000_0000) by (bit_vector)
                requires
                    low == ms as u64,
            ;
            low
        },
        None => 0,
    }
}

/// The system clock's milliseconds since the Unix epoch, as [`unix_ms_of`] reads them. Nothing is
/// said of the result: it is the time, and any number of milliseconds can be.
pub fn now_ms() -> u64 {
    match since_unix_epoch() {
        Some(time) => unix_ms_of(Some(time.as_millis())),
        None => unix_ms_of(None),
    }
}

/// How a delegation lies in its bytes: the node's key, the group's key, the expiry with the most
/// significant byte first, the signature.
pub proof fn law_delegation_layout(d: Delegation)
    ensures
        d.bytes().len() == 136,
        d.bytes().subrange(0, 32) == d.node@,
        d.bytes().subrange(32, 64) == d.group@,
        crate::bytes::from_be(d.bytes().subrange(64, 72)) == d.expires_ms,
        d.bytes().subrange(72, 136) == d.signature@,
{
    lemma_lengths(d);
    crate::bytes::lemma_byte_counts(d.expires_ms as nat, 8);
    reveal_with_fuel(crate::bytes::values_of, 9);
    crate::bytes::law_bytes_read_back(d.expires_ms as nat, 8);
    assert(d.bytes().subrange(0, 32) =~= d.node@);
    assert(d.bytes().subrange(32, 64) =~= d.group@);
    assert(d.bytes().subrange(64, 72) =~= crate::bytes::be_bytes(d.expires_ms as nat, 8));
    assert(d.bytes().subrange(72, 136) =~= d.signature@);
}

/// What a group signs: the context first, so that it is nothing else the group signs, then the node's
/// key, the group's key and the expiry with the most significant byte first.
pub proof fn law_message_layout(node: Seq<u8>, group: Seq<u8>, expires_ms: u64)
    requires
        node.len() == 32,
        group.len() == 32,
    ensures
        ({
            let m = signed_message(node, group, expires_ms);
            let context = vstd::utf8::encode_utf8("libp2p-ffi delegation v1"@);
            let c = context.len() as int;
            &&& m.len() == c + 72
            &&& m.subrange(0, c) == context
            &&& m.subrange(c, c + 32) == node
            &&& m.subrange(c + 32, c + 64) == group
            &&& crate::bytes::from_be(m.subrange(c + 64, c + 72)) == expires_ms
        }),
{
    let m = signed_message(node, group, expires_ms);
    let context = vstd::utf8::encode_utf8("libp2p-ffi delegation v1"@);
    let c = context.len() as int;
    crate::bytes::lemma_byte_counts(expires_ms as nat, 8);
    reveal_with_fuel(crate::bytes::values_of, 9);
    crate::bytes::law_bytes_read_back(expires_ms as nat, 8);
    assert(m.subrange(0, c) =~= context);
    assert(m.subrange(c, c + 32) =~= node);
    assert(m.subrange(c + 32, c + 64) =~= group);
    assert(m.subrange(c + 64, c + 72) =~= crate::bytes::be_bytes(expires_ms as nat, 8));
}

/// When a delegation is good: its group is a key, the signature is that key's over the node, the
/// group and the expiry, and it has not run out, which one that names no expiry never does. For a
/// node it is good if it also names that node. What is wrong is said in this order.
pub proof fn law_good_delegations(d: Delegation, node: Seq<u8>, now_ms: u64)
    ensures
        ({
            let key = crate::outside::ed25519_key_valid(d.group@);
            let signed = crate::outside::ed25519_verifies(
                d.group@,
                signed_message(d.node@, d.group@, d.expires_ms),
                d.signature@,
            );
            let over = d.expires_ms != 0 && now_ms >= d.expires_ms;
            &&& d.checked(now_ms) is Ok <==> key && signed && !over
            &&& d.checked_for(node, now_ms) is Ok <==> key && signed && !over && d.node@ == node
            &&& d.checked(now_ms) is Err ==> d.checked_for(node, now_ms) == d.checked(now_ms)
            &&& !key ==> d.checked(now_ms) == Err::<(), Invalid>(Invalid::GroupKey)
            &&& key && !signed ==> d.checked(now_ms) == Err::<(), Invalid>(Invalid::Signature)
            &&& key && signed && over ==> d.checked(now_ms) == Err::<(), Invalid>(Invalid::Expired)
            &&& key && signed && !over && d.node@ != node ==> d.checked_for(node, now_ms) == Err::<
                (),
                Invalid,
            >(Invalid::WrongNode)
        }),
{
}

/// Bytes of any other length are no delegation.
pub proof fn law_delegation_length(bytes: Seq<u8>)
    ensures
        parsed(bytes) is Ok <==> bytes.len() == 136,
        bytes.len() != 136 ==> parsed(bytes) == Err::<Delegation, Invalid>(Invalid::Length),
{
}

} // verus!
