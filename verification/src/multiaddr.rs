//! Network addresses, held in their byte form.

use vstd::prelude::*;

use crate::bytes::{copy_bytes, same_bytes, same_text};
use crate::outside::{
    multiaddr_check, multiaddr_first_ip, multiaddr_parse, multiaddr_protocol_names,
    multiaddr_to_text,
};

verus! {

/// An IP address by its octets.
#[derive(Clone, Copy, Debug)]
pub enum Ip {
    V4([u8; 4]),
    V6([u8; 16]),
}

impl View for Ip {
    type V = Seq<u8>;

    open spec fn view(&self) -> Seq<u8> {
        match self {
            Ip::V4(octets) => octets@,
            Ip::V6(octets) => octets@,
        }
    }
}

/// A multiaddress. Two are the same if their bytes are.
pub struct Multiaddr {
    bytes: Vec<u8>,
}

impl View for Multiaddr {
    type V = Seq<u8>;

    closed spec fn view(&self) -> Seq<u8> {
        self.bytes@
    }
}

impl Multiaddr {
    #[verifier::type_invariant]
    spec fn wf(self) -> bool {
        crate::outside::multiaddr_valid(self.bytes@)
    }

    /// The address that bytes encode, or None where they encode none.
    pub fn from_bytes(bytes: Vec<u8>) -> (address: Option<Multiaddr>)
        ensures
            match address {
                Some(a) => crate::outside::multiaddr_valid(bytes@) && a@ == bytes@,
                None => !crate::outside::multiaddr_valid(bytes@),
            },
    {
        if multiaddr_check(bytes.as_slice()) {
            Some(Multiaddr { bytes })
        } else {
            None
        }
    }

    /// The address that a text names, or None where it names none.
    pub fn parse(text: &str) -> (address: Option<Multiaddr>)
        ensures
            match address {
                Some(a) => crate::outside::multiaddr_of_text(text@) == Some(a@),
                None => crate::outside::multiaddr_of_text(text@) is None,
            },
    {
        match multiaddr_parse(text) {
            Some(bytes) => Some(Multiaddr { bytes }),
            None => None,
        }
    }

    pub fn as_bytes(&self) -> (bytes: &[u8])
        ensures
            bytes@ == self@,
    {
        self.bytes.as_slice()
    }

    pub fn to_text(&self) -> (text: String)
        ensures
            text@ == crate::outside::multiaddr_text(self@),
    {
        proof {
            use_type_invariant(self);
        }
        multiaddr_to_text(self.bytes.as_slice())
    }

    pub fn copy(&self) -> (address: Multiaddr)
        ensures
            address@ == self@,
    {
        proof {
            use_type_invariant(self);
        }
        Multiaddr { bytes: copy_bytes(self.bytes.as_slice()) }
    }

    pub fn same(&self, other: &Multiaddr) -> (r: bool)
        ensures
            r == (self@ == other@),
    {
        same_bytes(self.bytes.as_slice(), other.bytes.as_slice())
    }

    /// The IP address that the address starts with.
    pub fn first_ip(&self) -> (ip: Option<Ip>)
        ensures
            match ip {
                Some(ip) => crate::outside::multiaddr_ip(self@) == Some(ip@),
                None => crate::outside::multiaddr_ip(self@) is None,
            },
            crate::outside::plain_start(self@) ==> crate::outside::multiaddr_ip(self@)
                == crate::outside::plain_ip(self@),
    {
        proof {
            use_type_invariant(self);
        }
        multiaddr_first_ip(self.bytes.as_slice())
    }

    /// The names of the protocols in the address.
    pub fn protocols(&self) -> (names: Vec<String>)
        ensures
            crate::node::names(names@) == crate::outside::multiaddr_protocols(self@),
    {
        proof {
            use_type_invariant(self);
        }
        multiaddr_protocol_names(self.bytes.as_slice())
    }
}

/// Whether the octets are the address that stands for every interface: all of them zero.
pub open spec fn all_zero(octets: Seq<u8>) -> bool {
    forall|i: int| 0 <= i < octets.len() ==> octets[i] == 0
}

/// Whether an address starts with the unspecified IP address.
pub open spec fn unspecified(address: Seq<u8>) -> bool {
    match crate::outside::multiaddr_ip(address) {
        Some(octets) => all_zero(octets),
        None => false,
    }
}

fn zero_octets(octets: &[u8]) -> (r: bool)
    ensures
        r == all_zero(octets@),
{
    let mut i: usize = 0;
    while i < octets.len()
        invariant
            i <= octets@.len(),
            forall|j: int| 0 <= j < i ==> octets@[j] == 0,
        decreases octets@.len() - i,
    {
        if octets[i] != 0 {
            return false;
        }
        i += 1;
    }
    true
}

impl Ip {
    /// Whether this is the address that stands for every interface.
    pub fn is_unspecified(&self) -> (r: bool)
        ensures
            r == all_zero(self@),
    {
        match self {
            Ip::V4(octets) => zero_octets(octets.as_slice()),
            Ip::V6(octets) => zero_octets(octets.as_slice()),
        }
    }
}

/// Whether an address starts with the unspecified IP address: a node that listens on it is not
/// reached on it.
pub fn is_unspecified(address: &Multiaddr) -> (r: bool)
    ensures
        r == unspecified(address@),
        crate::outside::plain_start(address@) ==> r == (match crate::outside::plain_ip(address@) {
            Some(octets) => all_zero(octets),
            None => false,
        }),
{
    match address.first_ip() {
        Some(ip) => ip.is_unspecified(),
        None => false,
    }
}

/// Whether an address leads through a relay.
pub open spec fn relayed(address: Seq<u8>) -> bool {
    crate::outside::multiaddr_protocols(address).contains("p2p-circuit"@)
}

/// Whether an address leads through a relay: a circuit is among its protocols.
pub fn is_relayed(address: &Multiaddr) -> (r: bool)
    ensures
        r == relayed(address@),
{
    let names = address.protocols();
    let ghost views = crate::outside::multiaddr_protocols(address@);
    let mut i: usize = 0;
    while i < names.len()
        invariant
            views == crate::node::names(names@),
            views == crate::outside::multiaddr_protocols(address@),
            i <= names@.len(),
            forall|j: int| 0 <= j < i ==> views[j] != "p2p-circuit"@,
        decreases names@.len() - i,
    {
        if same_text(names[i].as_str(), "p2p-circuit") {
            assert(views[i as int] == "p2p-circuit"@);
            return true;
        }
        i += 1;
    }
    false
}

/// The IP address a connection comes from, by its remote address; a relayed connection has none,
/// since its visible address is the relay's.
pub fn remote_ip(address: &Multiaddr, relayed: bool) -> (ip: Option<Ip>)
    ensures
        relayed ==> ip is None,
        !relayed ==> match ip {
            Some(ip) => crate::outside::multiaddr_ip(address@) == Some(ip@),
            None => crate::outside::multiaddr_ip(address@) is None,
        },
        !relayed && crate::outside::plain_start(address@) ==> match ip {
            Some(ip) => crate::outside::plain_ip(address@) == Some(ip@),
            None => crate::outside::plain_ip(address@) is None,
        },
{
    if relayed {
        None
    } else {
        address.first_ip()
    }
}

} // verus!
