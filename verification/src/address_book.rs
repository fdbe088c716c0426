//! Addresses of peers that are not in the routing table.
//!
//! Kademlia hands addresses to a dial only for peers in its buckets and for peers of a query that
//! is still running. A provider found by a finished lookup, or a node the caller named, would
//! otherwise be undialable. The book remembers what the node learned and offers it to every
//! outbound dial. It is bounded: when full, the oldest peer is forgotten.

use std::collections::VecDeque;

use vstd::prelude::*;

use crate::keys::PeerId;
use crate::multiaddr::Multiaddr;
use crate::table::Table;

verus! {

pub const MAX_PEERS: usize = 4096;

pub const MAX_ADDRESSES_PER_PEER: usize = 8;

/// What a book holds.
#[verifier::ext_equal]
pub struct BookView {
    pub addresses: Map<(u64, Seq<u8>), Seq<Seq<u8>>>,
    /// The peers in the order they came in, the oldest first.
    pub order: Seq<(u64, Seq<u8>)>,
}

/// A peer's addresses with another one: a known one changes nothing, and when there are too many
/// the oldest goes.
pub open spec fn with_address(list: Seq<Seq<u8>>, address: Seq<u8>) -> Seq<Seq<u8>> {
    if list.contains(address) {
        list
    } else if list.len() == MAX_ADDRESSES_PER_PEER {
        list.drop_first().push(address)
    } else {
        list.push(address)
    }
}

impl BookView {
    pub open spec fn empty() -> BookView {
        BookView { addresses: Map::empty(), order: Seq::empty() }
    }

    pub open spec fn knows(self, peer: (u64, Seq<u8>)) -> bool {
        self.addresses.contains_key(peer)
    }

    /// What is known of a peer.
    pub open spec fn of(self, peer: (u64, Seq<u8>)) -> Seq<Seq<u8>> {
        if self.knows(peer) {
            self.addresses[peer]
        } else {
            Seq::empty()
        }
    }

    /// The book with another address.
    pub open spec fn added(self, peer: (u64, Seq<u8>), address: Seq<u8>) -> BookView {
        if self.knows(peer) {
            BookView {
                addresses: self.addresses.insert(
                    peer,
                    with_address(self.addresses[peer], address),
                ),
                ..self
            }
        } else if self.order.len() == MAX_PEERS {
            BookView {
                addresses: self.addresses.remove(self.order[0]).insert(peer, seq![address]),
                order: self.order.drop_first().push(peer),
            }
        } else {
            BookView {
                addresses: self.addresses.insert(peer, seq![address]),
                order: self.order.push(peer),
            }
        }
    }

    /// The book with several addresses of a peer, one after the other.
    pub open spec fn added_all(self, peer: (u64, Seq<u8>), addresses: Seq<Seq<u8>>) -> BookView
        decreases addresses.len(),
    {
        if addresses.len() == 0 {
            self
        } else {
            self.added_all(peer, addresses.drop_last()).added(peer, addresses.last())
        }
    }

    /// The order names every peer once, there are not too many peers, and of none too many
    /// addresses, each of them once.
    pub open spec fn wf(self) -> bool {
        &&& self.order.no_duplicates()
        &&& self.order.len() <= MAX_PEERS
        &&& forall|p: (u64, Seq<u8>)| #[trigger]
            self.order.contains(p) <==> self.addresses.contains_key(p)
        &&& forall|p: (u64, Seq<u8>)| #[trigger]
            self.addresses.contains_key(p) ==> {
                &&& 1 <= self.addresses[p].len() <= MAX_ADDRESSES_PER_PEER
                &&& self.addresses[p].no_duplicates()
            }
    }
}

/// A book keeps its bounds whatever is added.
pub proof fn law_book_bounded(book: BookView, peer: (u64, Seq<u8>), address: Seq<u8>)
    requires
        book.wf(),
    ensures
        book.added(peer, address).wf(),
        book.added(peer, address).knows(peer),
        book.added(peer, address).of(peer).contains(address),
{
    let after = book.added(peer, address);
    if book.knows(peer) {
        let list = book.addresses[peer];
        let new = with_address(list, address);
        if !list.contains(address) {
            assert(new.last() == address);
            assert(new.contains(address));
            let kept = if list.len() == MAX_ADDRESSES_PER_PEER {
                list.drop_first()
            } else {
                list
            };
            assert(new =~= kept.push(address));
            assert forall|i: int| 0 <= i < kept.len() implies kept[i] != address by {
                assert(list.contains(kept[i]));
            }
            assert(new.no_duplicates());
        }
        assert forall|p: (u64, Seq<u8>)| #[trigger] after.order.contains(
            p,
        ) <==> after.addresses.contains_key(p) by {
            assert(book.order.contains(p) <==> book.addresses.contains_key(p));
        }
    } else {
        let order = if book.order.len() == MAX_PEERS {
            book.order.drop_first()
        } else {
            book.order
        };
        assert(after.order =~= order.push(peer));
        assert(!book.order.contains(peer));
        assert forall|i: int| 0 <= i < order.len() implies order[i] != peer by {
            assert(book.order.contains(order[i]));
        }
        assert forall|p: (u64, Seq<u8>)| #[trigger] after.order.contains(
            p,
        ) <==> after.addresses.contains_key(p) by {
            assert(book.order.contains(p) <==> book.addresses.contains_key(p));
            if after.order.contains(p) {
                let i = after.order.index_of(p);
                if i < order.len() {
                    assert(order[i] == p);
                    assert(book.order.contains(p));
                    if book.order.len() == MAX_PEERS {
                        assert(book.order[i + 1] == p);
                    }
                }
            }
            if after.addresses.contains_key(p) {
                if p == peer {
                    assert(after.order.last() == p);
                } else {
                    let i = book.order.index_of(p);
                    if book.order.len() == MAX_PEERS {
                        assert(book.order[i] == p);
                        assert(after.order[i - 1] == p);
                    } else {
                        assert(after.order[i] == p);
                    }
                }
            }
        }
        assert(seq![address][0] == address);
    }
}

/// What is added of one peer does not change what is known of another, unless the book is full and
/// the other is the oldest in it.
pub proof fn law_book_peers_apart(
    book: BookView,
    peer: (u64, Seq<u8>),
    address: Seq<u8>,
    other: (u64, Seq<u8>),
)
    requires
        book.wf(),
        other != peer,
        book.order.len() < MAX_PEERS || book.knows(peer) || other != book.order[0],
    ensures
        book.added(peer, address).of(other) == book.of(other),
{
}

/// An address that is known already changes nothing.
pub proof fn law_book_known_address(book: BookView, peer: (u64, Seq<u8>), address: Seq<u8>)
    requires
        book.of(peer).contains(address),
    ensures
        book.added(peer, address) == book,
{
    assert(book.added(peer, address).addresses =~= book.addresses);
}

pub open spec fn address_views(list: Seq<Multiaddr>) -> Seq<Seq<u8>> {
    list.map_values(|a: Multiaddr| a@)
}

pub open spec fn peer_views(list: Seq<PeerId>) -> Seq<(u64, Seq<u8>)> {
    list.map_values(|p: PeerId| p@)
}

pub struct AddressBook {
    addresses: Table<PeerId, Vec<Multiaddr>>,
    order: VecDeque<PeerId>,
}

impl View for AddressBook {
    type V = BookView;

    closed spec fn view(&self) -> BookView {
        BookView {
            addresses: self.addresses@.map_values(|l: Vec<Multiaddr>| address_views(l@)),
            order: peer_views(self.order@),
        }
    }
}

fn listed(list: &Vec<Multiaddr>, address: &Multiaddr) -> (r: bool)
    ensures
        r == address_views(list@).contains(address@),
{
    let mut i: usize = 0;
    while i < list.len()
        invariant
            i <= list@.len(),
            forall|j: int| 0 <= j < i ==> (#[trigger] list@[j])@ != address@,
        decreases list@.len() - i,
    {
        if list[i].same(address) {
            assert(address_views(list@)[i as int] == address@);
            return true;
        }
        i += 1;
    }
    assert forall|j: int| 0 <= j < list@.len() implies address_views(list@)[j] != address@ by {
        assert(list@[j]@ != address@);
    }
    false
}

impl Default for AddressBook {
    fn default() -> (book: Self)
        ensures
            book@ == BookView::empty(),
    {
        AddressBook::new()
    }
}

impl AddressBook {
    #[verifier::type_invariant]
    spec fn inv(self) -> bool {
        self@.wf()
    }

    pub fn new() -> (book: Self)
        ensures
            book@ == BookView::empty(),
            book@.wf(),
    {
        let book = AddressBook { addresses: Table::new(), order: VecDeque::new() };
        assert(book@ =~= BookView::empty());
        book
    }

    pub fn add(&mut self, peer: PeerId, address: Multiaddr)
        ensures
            final(self)@ == old(self)@.added(peer@, address@),
            final(self)@.wf(),
    {
        proof {
            use_type_invariant(&*self);
        }
        let ghost before = self@;
        let mut book = AddressBook::new();
        std::mem::swap(&mut book, self);
        let AddressBook { addresses, order } = book;
        let mut addresses = addresses;
        let mut order = order;
        let ghost table = addresses@;
        let ghost peers = order@;
        match addresses.remove(&peer) {
            Some(list) => {
                let mut list = list;
                let ghost start = list@;
                if !listed(&list, &address) {
                    if list.len() == MAX_ADDRESSES_PER_PEER {
                        let _ = list.remove(0);
                    }
                    list.push(address);
                    assert(address_views(list@) =~= with_address(
                        address_views(start),
                        address@,
                    ));
                }
                let ghost new = address_views(list@);
                addresses.insert_new(peer, list);
                proof {
                    assert(before.addresses[peer@] == address_views(start));
                    assert(addresses@.map_values(
                        |l: Vec<Multiaddr>| address_views(l@),
                    ) =~= before.addresses.insert(peer@, new));
                }
            },
            None => {
                if order.len() == MAX_PEERS {
                    if let Some(oldest) = order.pop_front() {
                        let _ = addresses.remove(&oldest);
                    }
                }
                let mut list: Vec<Multiaddr> = Vec::new();
                list.push(address);
                assert(address_views(list@) =~= seq![address@]);
                addresses.insert(peer.copy(), list);
                order.push_back(peer);
                assert(addresses@.map_values(|l: Vec<Multiaddr>| address_views(l@))
                    =~= before.added(peer@, address@).addresses);
                assert(peer_views(order@) =~= before.added(peer@, address@).order);
            },
        }
        proof {
            law_book_bounded(before, peer@, address@);
        }
        *self = AddressBook { addresses, order };
        assert(self@ =~= before.added(peer@, address@));
    }

    pub fn addresses(&self, peer: &PeerId) -> (list: &[Multiaddr])
        ensures
            address_views(list@) == self@.of(peer@),
    {
        match self.addresses.get(peer) {
            Some(list) => list.as_slice(),
            None => {
                let none: &[Multiaddr] = &[];
                assert(address_views(none@) =~= Seq::<Seq<u8>>::empty());
                none
            },
        }
    }

    pub fn knows(&self, peer: &PeerId) -> (r: bool)
        ensures
            r == self@.knows(peer@),
    {
        self.addresses.contains(peer)
    }
}

/// How an address is learned. A peer that is known gets it behind those it has, unless it has it
/// already; with eight of them the oldest goes. A new peer goes behind all others with this one
/// address; with 4096 of them the oldest is forgotten.
pub proof fn law_book_learns(book: BookView, peer: (u64, Seq<u8>), address: Seq<u8>)
    requires
        book.wf(),
    ensures
        ({
            let after = book.added(peer, address);
            let known = book.addresses.contains_key(peer);
            let list = book.addresses[peer];
            &&& after.addresses.contains_key(peer)
            &&& !known ==> after.addresses[peer] == seq![address]
            &&& known && list.contains(address) ==> after.addresses[peer] == list
            &&& known && !list.contains(address) && list.len() < 8 ==> after.addresses[peer]
                == list.push(address)
            &&& known && !list.contains(address) && list.len() == 8 ==> after.addresses[peer]
                == list.drop_first().push(address)
            &&& known ==> after.order == book.order
            &&& !known && book.order.len() < 4096 ==> after.order == book.order.push(peer)
            &&& !known && book.order.len() == 4096 ==> after.order == book.order.drop_first().push(
                peer,
            ) && !after.addresses.contains_key(book.order[0])
        }),
{
    if !book.addresses.contains_key(peer) && book.order.len() == 4096 {
        assert(book.order.contains(book.order[0]));
    }
}

/// Several addresses are learned one after the other.
pub proof fn law_book_learns_in_order(
    book: BookView,
    peer: (u64, Seq<u8>),
    first: Seq<Seq<u8>>,
    address: Seq<u8>,
    second: Seq<Seq<u8>>,
)
    ensures
        book.added_all(peer, Seq::empty()) == book,
        book.added_all(peer, seq![address]) == book.added(peer, address),
        book.added_all(peer, first).added_all(peer, second) == book.added_all(
            peer,
            first + second,
        ),
    decreases second.len(),
{
    assert(seq![address].drop_last() =~= Seq::empty());
    assert(book.added_all(peer, seq![address].drop_last()) == book);
    if second.len() == 0 {
        assert(first + second =~= first);
    } else {
        law_book_learns_in_order(book, peer, first, address, second.drop_last());
        assert((first + second).drop_last() =~= first + second.drop_last());
    }
}

/// What is known of a peer is the addresses it was learned with; of any other peer nothing is known.
pub proof fn law_book_answers(book: BookView, peer: (u64, Seq<u8>))
    ensures
        book.knows(peer) <==> book.addresses.contains_key(peer),
        book.knows(peer) ==> book.of(peer) == book.addresses[peer],
        !book.knows(peer) ==> book.of(peer).len() == 0,
{
}

/// Peers and addresses are taken for what they are, each in its place.
pub proof fn law_views(peers: Seq<PeerId>, addresses: Seq<Multiaddr>, i: int)
    ensures
        peer_views(peers).len() == peers.len(),
        address_views(addresses).len() == addresses.len(),
        0 <= i < peers.len() ==> peer_views(peers)[i] == peers[i]@,
        0 <= i < addresses.len() ==> address_views(addresses)[i] == addresses[i]@,
{
}

} // verus!
