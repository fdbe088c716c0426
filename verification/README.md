# libp2p_ffi

A libp2p node behind a C interface, with the part that decides verified by Verus.

A node finds the nodes of a group by the group's key, carries request and response between nodes
with failover, and reports what happens as events the caller polls. Which operations exist, what a
payload means and what a peer class allows are the caller's.

```text
src/abi.rs            the constants and plain types of the interface
src/outside.rs        what libp2p and std compute: believed, not proved
src/bytes.rs          byte strings and byte orders
src/natural.rs        natural numbers of any size
src/fraction.rs       fractions of them, without rounding
src/table.rs          a map with keys compared by their view
src/keys.rs           32-byte ed25519 keys <-> peer ids
src/multiaddr.rs      network addresses
src/delegation.rs     "node X belongs to group Y until T", signed by the group key
src/wire.rs           the RPC frames, byte for byte
src/events.rs         the bounded event queue and the record format
src/limits.rs         peer classes and token buckets
src/address_book.rs   addresses of peers the routing table does not hold
src/call.rs           one call: who is asked next
src/node.rs           what a node is started with and told
src/steps.rs          what a node does, as steps from one state to the next
src/state.rs          the node that takes those steps
src/laws.rs           what holds over all steps
src/ffi.rs            what the functions of the C interface decide
app/                  raw pointers, the swarm and its runtime
tests/                the same on concrete values; nodes talk over a network played by hand
```

The library touches neither sockets nor clocks nor threads. Its state takes what was told or what
happened, and answers what the network is asked to do. Time is a number of nanoseconds that the
caller passes in. Token buckets hold exact fractions, so nothing is lost to rounding, whatever rates
follow each other.
