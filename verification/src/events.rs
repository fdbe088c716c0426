//! The queue between the node and whoever polls it, and the record format.
//!
//! A record is an `lp2p_event` header followed by its data, padded to a multiple of 8. The queue is
//! bounded in bytes. What does not fit is counted and reported as one `LP2P_EV_OVERFLOW` record
//! ahead of the next events, so a caller always learns that it missed something.
//!
//! Numbers in a header are in the byte order of the machine, as C reads them.

use std::collections::VecDeque;

use vstd::prelude::*;

use crate::abi::{
    lp2p_event, lp2p_key, LP2P_ERR_BUFFER_TOO_SMALL, LP2P_EVENT_HEADER_BYTES, LP2P_EV_OVERFLOW,
};
use crate::bytes::{append_bytes, push_be, push_le};
use crate::outside::u16_to_ne_bytes;

verus! {

/// The key of 32 zero bytes, which stands where an event names no group or no node.
pub open spec fn no_key() -> lp2p_key {
    vstd::array::spec_array_fill_for_copy_type::<u8, 32>(0)
}

/// The header of an event without data, all else zero.
pub open spec fn blank_header(kind: u16) -> lp2p_event {
    lp2p_event {
        kind,
        flags: 0,
        size: 0,
        id: 0,
        group: no_key(),
        node: no_key(),
        protocol: 0,
        reason: 0,
        data_len: 0,
    }
}

/// An event: its header and its data.
#[verifier::ext_equal]
pub struct Event {
    pub header: lp2p_event,
    pub data: Seq<u8>,
}

/// The size of a record that holds so many bytes of data.
pub open spec fn record_size(data_len: nat) -> nat {
    (LP2P_EVENT_HEADER_BYTES as nat + data_len + 7) / 8 * 8
}

/// The event that a header and data make. The header learns the sizes, as far as they fit.
pub open spec fn event_of(header: lp2p_event, data: Seq<u8>) -> Event {
    Event {
        header: lp2p_event {
            size: record_size(data.len()) as u32,
            data_len: data.len() as u32,
            ..header
        },
        data,
    }
}

/// The `n` low bytes of `x` in the given byte order.
pub open spec fn number(x: nat, n: nat, little: bool) -> Seq<u8> {
    if little {
        crate::bytes::le_bytes(x, n)
    } else {
        crate::bytes::be_bytes(x, n)
    }
}

/// The header of a record.
pub open spec fn header_bytes(h: lp2p_event, little: bool) -> Seq<u8> {
    number(h.kind as nat, 2, little) + number(h.flags as nat, 2, little) + number(
        h.size as nat,
        4,
        little,
    ) + number(h.id as nat, 8, little) + h.group@ + h.node@ + number(h.protocol as nat, 2, little)
        + number(h.reason as nat, 2, little) + number(h.data_len as nat, 4, little)
}

/// A record in queue: the event, and the byte order it was written in.
#[verifier::ext_equal]
pub struct RecordView {
    pub event: Event,
    pub little: bool,
}

impl RecordView {
    /// How many bytes the record has.
    pub open spec fn size(self) -> nat {
        record_size(self.event.data.len())
    }

    /// The record: header, data, and zeros up to a multiple of 8.
    #[verifier::opaque]
    pub open spec fn bytes(self) -> Seq<u8> {
        header_bytes(self.event.header, self.little) + self.event.data + Seq::new(
            (record_size(self.event.data.len()) - LP2P_EVENT_HEADER_BYTES
                - self.event.data.len()) as nat,
            |i: int| 0u8,
        )
    }
}

/// The number that a byte string holds in the given byte order.
pub open spec fn number_in(bytes: Seq<u8>, little: bool) -> nat {
    if little {
        crate::bytes::from_le(bytes)
    } else {
        crate::bytes::from_be(bytes)
    }
}

/// Whether a byte string starts with the record of an event, as a reader of C finds it: by the
/// offsets of the header's fields, and the data after the header.
pub open spec fn reads_as(bytes: Seq<u8>, little: bool, event: Event) -> bool {
    let h = event.header;
    &&& bytes.len() >= LP2P_EVENT_HEADER_BYTES + h.data_len
    &&& number_in(bytes.subrange(0, 2), little) == h.kind
    &&& number_in(bytes.subrange(2, 4), little) == h.flags
    &&& number_in(bytes.subrange(4, 8), little) == h.size
    &&& number_in(bytes.subrange(8, 16), little) == h.id
    &&& bytes.subrange(16, 48) == h.group@
    &&& bytes.subrange(48, 80) == h.node@
    &&& number_in(bytes.subrange(80, 82), little) == h.protocol
    &&& number_in(bytes.subrange(82, 84), little) == h.reason
    &&& number_in(bytes.subrange(84, 88), little) == h.data_len
    &&& bytes.subrange(88, 88 + h.data_len) == event.data
}

proof fn lemma_number(x: nat, n: nat, little: bool)
    ensures
        number(x, n, little).len() == n,
        x < crate::bytes::values_of(n) ==> number_in(number(x, n, little), little) == x,
{
    crate::bytes::lemma_byte_counts(x, n);
    if x < crate::bytes::values_of(n) {
        crate::bytes::law_bytes_read_back(x, n);
    }
}

proof fn lemma_header(h: lp2p_event, little: bool)
    ensures
        header_bytes(h, little).len() == LP2P_EVENT_HEADER_BYTES,
{
    lemma_number(h.kind as nat, 2, little);
    lemma_number(h.flags as nat, 2, little);
    lemma_number(h.size as nat, 4, little);
    lemma_number(h.id as nat, 8, little);
    lemma_number(h.protocol as nat, 2, little);
    lemma_number(h.reason as nat, 2, little);
    lemma_number(h.data_len as nat, 4, little);
}

/// A record is a whole number of 8 bytes long, and no longer than header and data need.
pub proof fn law_record_size(record: RecordView)
    ensures
        record.bytes().len() == record.size(),
        record.bytes().len() % 8 == 0,
        LP2P_EVENT_HEADER_BYTES + record.event.data.len() <= record.bytes().len(),
        record.bytes().len() < LP2P_EVENT_HEADER_BYTES + record.event.data.len() + 8,
{
    reveal(RecordView::bytes);
    lemma_header(record.event.header, record.little);
}

/// An event is read back from its record as it was written, whatever stands behind the record, and
/// the size in its header leads to what stands there. Events whose record does not fit a 32-bit
/// size are left out: their header cannot say how long they are.
pub proof fn law_record_read_back(header: lp2p_event, data: Seq<u8>, little: bool, rest: Seq<u8>)
    requires
        record_size(data.len()) <= u32::MAX,
    ensures
        ({
            let event = event_of(header, data);
            let bytes = (RecordView { event, little }).bytes() + rest;
            &&& reads_as(bytes, little, event)
            &&& bytes.skip(event.header.size as int) == rest
        }),
{
    let event = event_of(header, data);
    let h = event.header;
    let record = RecordView { event, little };
    let bytes = record.bytes() + rest;
    reveal(RecordView::bytes);
    law_record_size(record);
    reveal_with_fuel(crate::bytes::values_of, 9);
    lemma_number(h.kind as nat, 2, little);
    lemma_number(h.flags as nat, 2, little);
    lemma_number(h.size as nat, 4, little);
    lemma_number(h.id as nat, 8, little);
    lemma_number(h.protocol as nat, 2, little);
    lemma_number(h.reason as nat, 2, little);
    lemma_number(h.data_len as nat, 4, little);
    assert(bytes.subrange(0, 2) =~= number(h.kind as nat, 2, little));
    assert(bytes.subrange(2, 4) =~= number(h.flags as nat, 2, little));
    assert(bytes.subrange(4, 8) =~= number(h.size as nat, 4, little));
    assert(bytes.subrange(8, 16) =~= number(h.id as nat, 8, little));
    assert(bytes.subrange(16, 48) =~= h.group@);
    assert(bytes.subrange(48, 80) =~= h.node@);
    assert(bytes.subrange(80, 82) =~= number(h.protocol as nat, 2, little));
    assert(bytes.subrange(82, 84) =~= number(h.reason as nat, 2, little));
    assert(bytes.subrange(84, 88) =~= number(h.data_len as nat, 4, little));
    assert(bytes.subrange(88, 88 + data.len() as int) =~= data);
    assert(bytes.skip(h.size as int) =~= rest);
}

pub struct Record {
    bytes: Vec<u8>,
    event: Ghost<Event>,
    little: Ghost<bool>,
}

impl View for Record {
    type V = RecordView;

    closed spec fn view(&self) -> RecordView {
        RecordView { event: self.event@, little: self.little@ }
    }
}

impl Record {
    /// The bytes are the event's record.
    #[verifier::type_invariant]
    spec fn wf(self) -> bool {
        self.bytes@ == self@.bytes()
    }

    pub fn bytes(&self) -> (bytes: &[u8])
        ensures
            bytes@ == self@.bytes(),
            bytes@.len() == self@.size(),
    {
        proof {
            use_type_invariant(self);
            law_record_size(self@);
        }
        self.bytes.as_slice()
    }
}

fn push_number(out: &mut Vec<u8>, x: u64, n: usize, little: bool)
    ensures
        final(out)@ == old(out)@ + number(x as nat, n as nat, little),
{
    if little {
        push_le(out, x, n);
    } else {
        push_be(out, x, n);
    }
}

fn header_vec(h: lp2p_event, little: bool) -> (out: Vec<u8>)
    ensures
        out@ == header_bytes(h, little),
{
    let mut out: Vec<u8> = Vec::new();
    push_number(&mut out, h.kind as u64, 2, little);
    push_number(&mut out, h.flags as u64, 2, little);
    push_number(&mut out, h.size as u64, 4, little);
    push_number(&mut out, h.id, 8, little);
    append_bytes(&mut out, h.group.as_slice());
    append_bytes(&mut out, h.node.as_slice());
    push_number(&mut out, h.protocol as u64, 2, little);
    push_number(&mut out, h.reason as u64, 2, little);
    push_number(&mut out, h.data_len as u64, 4, little);
    assert(out@ =~= header_bytes(h, little));
    out
}

/// Whether two bytes are the number one with the least significant byte first.
pub fn least_first(one: [u8; 2]) -> (r: bool)
    ensures
        r == (one@ == crate::bytes::le_bytes(1, 2)),
{
    proof {
        reveal_with_fuel(crate::bytes::le_bytes, 3);
        assert(crate::bytes::le_bytes(1, 2) =~= seq![1u8, 0u8]);
        assert(one@[0] == 1 && one@[1] == 0 ==> one@ =~= seq![1u8, 0u8]);
    }
    one[0] == 1 && one[1] == 0
}

/// Whether the machine puts the least significant byte first, as [`least_first`] tells it from how
/// the machine writes the number one. Nothing is said of the result: it is the machine's.
pub fn native_little() -> bool {
    least_first(u16_to_ne_bytes(1))
}

pub struct EventBuilder {
    header: lp2p_event,
}

impl View for EventBuilder {
    type V = lp2p_event;

    closed spec fn view(&self) -> lp2p_event {
        self.header
    }
}

impl EventBuilder {
    pub fn new(kind: u16) -> (b: Self)
        ensures
            b@ == blank_header(kind),
    {
        let group: lp2p_key = [0;32];
        let node: lp2p_key = [0;32];
        EventBuilder {
            header: lp2p_event {
                kind,
                flags: 0,
                size: 0,
                id: 0,
                group,
                node,
                protocol: 0,
                reason: 0,
                data_len: 0,
            },
        }
    }

    pub fn id(self, id: u64) -> (b: Self)
        ensures
            b@ == (lp2p_event { id, ..self@ }),
    {
        EventBuilder { header: lp2p_event { id, ..self.header } }
    }

    pub fn flags(self, flags: u16) -> (b: Self)
        ensures
            b@ == (lp2p_event { flags, ..self@ }),
    {
        EventBuilder { header: lp2p_event { flags, ..self.header } }
    }

    pub fn group(self, group: lp2p_key) -> (b: Self)
        ensures
            b@ == (lp2p_event { group, ..self@ }),
    {
        EventBuilder { header: lp2p_event { group, ..self.header } }
    }

    pub fn node(self, node: lp2p_key) -> (b: Self)
        ensures
            b@ == (lp2p_event { node, ..self@ }),
    {
        EventBuilder { header: lp2p_event { node, ..self.header } }
    }

    pub fn protocol(self, protocol: u16) -> (b: Self)
        ensures
            b@ == (lp2p_event { protocol, ..self@ }),
    {
        EventBuilder { header: lp2p_event { protocol, ..self.header } }
    }

    pub fn reason(self, reason: u16) -> (b: Self)
        ensures
            b@ == (lp2p_event { reason, ..self@ }),
    {
        EventBuilder { header: lp2p_event { reason, ..self.header } }
    }

    /// The record of the event with this data, in the given byte order.
    pub fn encode(self, data: &[u8], little: bool) -> (record: Record)
        ensures
            record@ == (RecordView { event: event_of(self@, data@), little }),
    {
        let size: u128 = (LP2P_EVENT_HEADER_BYTES as u128 + data.len() as u128 + 7) / 8 * 8;
        #[verifier::truncate]
        let size_field: u32 = size as u32;
        #[verifier::truncate]
        let data_len_field: u32 = data.len() as u32;
        let h = lp2p_event { size: size_field, data_len: data_len_field, ..self.header };
        let ghost event = event_of(self.header, data@);
        let ghost record = RecordView { event, little };
        assert(h == event.header);
        let mut out = header_vec(h, little);
        append_bytes(&mut out, data);
        let ghost unpadded = out@;
        proof {
            lemma_header(h, little);
            law_record_size(record);
            assert(unpadded == header_bytes(h, little) + data@);
            assert(unpadded.len() == LP2P_EVENT_HEADER_BYTES + data@.len());
        }
        while out.len() % 8 != 0
            invariant
                unpadded.len() == LP2P_EVENT_HEADER_BYTES + data@.len(),
                unpadded.len() <= out@.len() <= record_size(data@.len()),
                out@ =~= unpadded + Seq::new(
                    (out@.len() - unpadded.len()) as nat,
                    |i: int| 0u8,
                ),
            decreases record_size(data@.len()) - out@.len(),
        {
            out.push(0);
        }
        proof {
            reveal(RecordView::bytes);
            assert(out@ =~= record.bytes());
        }
        Record { bytes: out, event: Ghost(event), little: Ghost(little) }
    }

    /// The record of the event with this data, in the byte order of the machine.
    pub fn data(self, data: &[u8]) -> (record: Record)
        ensures
            record@.event == event_of(self@, data@),
    {
        let little = native_little();
        self.encode(data, little)
    }

    pub fn build(self) -> (record: Record)
        ensures
            record@.event == event_of(self@, Seq::empty()),
    {
        let none: [u8; 0] = [];
        assert(none@ =~= Seq::<u8>::empty());
        self.data(none.as_slice())
    }
}

/// How many bytes the records take up.
pub open spec fn total(records: Seq<RecordView>) -> nat
    decreases records.len(),
{
    if records.len() == 0 {
        0
    } else {
        records[0].size() + total(records.drop_first())
    }
}

/// The records one behind the other.
pub open spec fn joined(records: Seq<RecordView>) -> Seq<u8>
    decreases records.len(),
{
    if records.len() == 0 {
        Seq::empty()
    } else {
        records[0].bytes() + joined(records.drop_first())
    }
}

/// How many of the records, from the first one on, fit into a room of so many bytes.
pub open spec fn fitting(records: Seq<RecordView>, room: int) -> nat
    decreases records.len(),
{
    if records.len() == 0 || records[0].size() > room {
        0
    } else {
        1 + fitting(records.drop_first(), room - records[0].size())
    }
}

/// What a queue holds, apart from how the records are written.
#[verifier::ext_equal]
pub struct Log {
    pub events: Seq<Event>,
    pub dropped: u64,
    pub closed: Option<i32>,
    pub max_bytes: usize,
}

/// How many bytes the records of events take up.
pub open spec fn size_of_all(events: Seq<Event>) -> nat
    decreases events.len(),
{
    if events.len() == 0 {
        0
    } else {
        record_size(events[0].data.len()) + size_of_all(events.drop_first())
    }
}

impl Log {
    /// The log with another event at its end, or counted as dropped where it does not fit.
    pub open spec fn pushed(self, event: Event) -> Log {
        if size_of_all(self.events) + record_size(event.data.len()) <= self.max_bytes {
            Log { events: self.events.push(event), ..self }
        } else {
            Log {
                dropped: if self.dropped < u64::MAX {
                    (self.dropped + 1) as u64
                } else {
                    u64::MAX
                },
                ..self
            }
        }
    }

    /// The log with events one after the other at its end.
    pub open spec fn pushed_all(self, events: Seq<Event>) -> Log
        decreases events.len(),
    {
        if events.len() == 0 {
            self
        } else {
            self.pushed_all(events.drop_last()).pushed(events.last())
        }
    }
}

/// What a queue holds.
#[verifier::ext_equal]
pub struct QueueView {
    pub records: Seq<RecordView>,
    /// How many records did not fit since that was last reported.
    pub dropped: u64,
    /// What a poll answers once the queue is drained, if it is closed.
    pub closed: Option<i32>,
    /// How many bytes the records may take up.
    pub max_bytes: usize,
}

impl QueueView {
    /// The events in queue, the oldest first.
    pub open spec fn events(self) -> Seq<Event> {
        self.records.map_values(|r: RecordView| r.event)
    }

    /// The queue apart from how the records are written.
    pub open spec fn log(self) -> Log {
        Log {
            events: self.events(),
            dropped: self.dropped,
            closed: self.closed,
            max_bytes: self.max_bytes,
        }
    }

    /// Whether another record of so many bytes fits.
    pub open spec fn has_room(self, size: nat) -> bool {
        total(self.records) + size <= self.max_bytes
    }

    /// The queue after a record was pushed: it goes to the end, or is counted as dropped.
    pub open spec fn pushed(self, record: RecordView) -> QueueView {
        if self.has_room(record.size()) {
            QueueView { records: self.records.push(record), ..self }
        } else {
            QueueView {
                dropped: if self.dropped < u64::MAX {
                    (self.dropped + 1) as u64
                } else {
                    u64::MAX
                },
                ..self
            }
        }
    }

    /// Whether a poll has something to say.
    pub open spec fn ready(self) -> bool {
        self.records.len() > 0 || self.dropped > 0 || self.closed is Some
    }

    /// The report of what was dropped, if anything was.
    pub open spec fn overflow(self, little: bool) -> Seq<RecordView> {
        if self.dropped > 0 {
            seq![
                RecordView {
                    event: event_of(
                        lp2p_event { id: self.dropped, ..blank_header(LP2P_EV_OVERFLOW) },
                        Seq::empty(),
                    ),
                    little,
                },
            ]
        } else {
            Seq::empty()
        }
    }

    /// The size of the report.
    pub open spec fn overflow_size(self) -> nat {
        if self.dropped > 0 {
            LP2P_EVENT_HEADER_BYTES as nat
        } else {
            0
        }
    }

    /// How many records a poll with a buffer of so many bytes takes.
    pub open spec fn taken(self, room: nat) -> nat {
        fitting(self.records, room - self.overflow_size())
    }

    /// Whether a poll has something to write and not even the first of it fits.
    pub open spec fn too_small(self, room: nat) -> bool {
        if self.dropped > 0 {
            room < self.overflow_size()
        } else {
            self.records.len() > 0 && self.taken(room) == 0
        }
    }

    /// How many bytes a poll writes.
    pub open spec fn written(self, room: nat) -> nat {
        if self.too_small(room) {
            0
        } else {
            self.overflow_size() + total(self.records.take(self.taken(room) as int))
        }
    }

    /// What a poll answers.
    pub open spec fn answer(self, room: nat) -> i32 {
        if self.too_small(room) {
            LP2P_ERR_BUFFER_TOO_SMALL
        } else if self.written(room) == 0 && self.closed is Some {
            self.closed->0
        } else {
            self.written(room) as i32
        }
    }

    /// The queue after a poll: without what was reported and taken.
    pub open spec fn polled(self, room: nat) -> QueueView {
        if self.too_small(room) {
            self
        } else {
            QueueView {
                records: self.records.skip(self.taken(room) as int),
                dropped: 0,
                ..self
            }
        }
    }

    /// What a poll writes: the report of what was dropped, then the oldest records, all of them
    /// whole.
    pub open spec fn output(self, room: nat, little: bool) -> Seq<u8> {
        if self.too_small(room) {
            Seq::empty()
        } else {
            joined(self.overflow(little) + self.records.take(self.taken(room) as int))
        }
    }
}

proof fn lemma_total_push(records: Seq<RecordView>, record: RecordView)
    ensures
        total(records.push(record)) == total(records) + record.size(),
        joined(records.push(record)) == joined(records) + record.bytes(),
    decreases records.len(),
{
    let pushed = records.push(record);
    if records.len() > 0 {
        assert(pushed.drop_first() =~= records.drop_first().push(record));
        lemma_total_push(records.drop_first(), record);
        assert(joined(pushed) =~= joined(records) + record.bytes());
    } else {
        assert(pushed.drop_first() =~= records);
        assert(joined(pushed) =~= joined(records) + record.bytes());
    }
}

proof fn lemma_sizes(records: Seq<RecordView>)
    ensures
        total(records) == size_of_all(records.map_values(|r: RecordView| r.event)),
    decreases records.len(),
{
    let events = records.map_values(|r: RecordView| r.event);
    if records.len() > 0 {
        lemma_sizes(records.drop_first());
        assert(events.drop_first() =~= records.drop_first().map_values(
            |r: RecordView| r.event,
        ));
    }
}

/// Pushing a record pushes its event.
proof fn lemma_pushed_log(q: QueueView, record: RecordView)
    ensures
        q.pushed(record).log() == q.log().pushed(record.event),
{
    lemma_sizes(q.records);
    assert(q.records.push(record).map_values(|r: RecordView| r.event) =~= q.events().push(
        record.event,
    ));
    assert(q.pushed(record).log() =~= q.log().pushed(record.event));
}

proof fn lemma_joined(a: Seq<RecordView>, b: Seq<RecordView>)
    ensures
        joined(a + b) == joined(a) + joined(b),
        total(a + b) == total(a) + total(b),
    decreases a.len(),
{
    if a.len() == 0 {
        assert(a + b =~= b);
        assert(joined(a + b) =~= joined(a) + joined(b));
    } else {
        assert((a + b).drop_first() =~= a.drop_first() + b);
        lemma_joined(a.drop_first(), b);
        assert(joined(a + b) =~= joined(a) + joined(b));
    }
}

proof fn lemma_joined_total(records: Seq<RecordView>)
    ensures
        joined(records).len() == total(records),
    decreases records.len(),
{
    if records.len() > 0 {
        law_record_size(records[0]);
        lemma_joined_total(records.drop_first());
    }
}

proof fn lemma_fitting(records: Seq<RecordView>, room: int)
    ensures
        fitting(records, room) <= records.len(),
        room >= 0 ==> total(records.take(fitting(records, room) as int)) <= room,
        fitting(records, room) < records.len() ==> total(
            records.take(fitting(records, room) as int),
        ) + records[fitting(records, room) as int].size() > room || room < 0,
    decreases records.len(),
{
    if records.len() > 0 && records[0].size() <= room {
        let rest = records.drop_first();
        let n = fitting(rest, room - records[0].size());
        lemma_fitting(rest, room - records[0].size());
        assert(records.take(n as int + 1).drop_first() =~= rest.take(n as int));
    }
}

/// The size of the report of what was dropped is that of a header.
proof fn lemma_overflow(q: QueueView, little: bool)
    ensures
        total(q.overflow(little)) == q.overflow_size(),
        q.dropped > 0 ==> joined(q.overflow(little)) == q.overflow(little)[0].bytes(),
        q.dropped > 0 ==> q.overflow(little)[0].size() == q.overflow_size(),
        q.dropped == 0 ==> joined(q.overflow(little)) == Seq::<u8>::empty(),
{
    let o = q.overflow(little);
    if q.dropped > 0 {
        law_record_size(o[0]);
        assert(o.drop_first() =~= Seq::<RecordView>::empty());
        assert(total(o) == o[0].size() + total(o.drop_first()));
        assert(joined(o.drop_first()) =~= Seq::<u8>::empty());
        assert(joined(o) == o[0].bytes() + joined(o.drop_first()));
        assert(joined(o) =~= o[0].bytes());
    }
}

/// Whatever is polled, nothing is lost and nothing is said twice: the records before are those
/// that were taken, in their order, and those that stay.
pub proof fn law_poll_conserves(q: QueueView, room: nat)
    ensures
        q.too_small(room) ==> q.polled(room) == q,
        !q.too_small(room) ==> q.records == q.records.take(q.taken(room) as int) + q.polled(
            room,
        ).records,
        q.polled(room).closed == q.closed,
        q.polled(room).max_bytes == q.max_bytes,
        q.dropped > 0 && !q.too_small(room) ==> q.polled(room).dropped == 0,
{
    lemma_fitting(q.records, room - q.overflow_size());
    if !q.too_small(room) {
        assert(q.records =~= q.records.take(q.taken(room) as int) + q.polled(room).records);
    }
}

/// A poll fills the buffer as far as whole records go: what it writes fits, and the first record
/// it leaves would not have.
pub proof fn law_poll_fills(q: QueueView, room: nat, little: bool)
    requires
        !q.too_small(room),
    ensures
        q.output(room, little).len() == q.written(room) <= room,
        q.polled(room).records.len() > 0 ==> q.written(room) + q.polled(
            room,
        ).records[0].size() > room,
{
    let n = q.taken(room);
    lemma_fitting(q.records, room - q.overflow_size());
    lemma_joined_total(q.overflow(little) + q.records.take(n as int));
    lemma_overflow(q, little);
    lemma_joined(q.overflow(little), q.records.take(n as int));
}

/// A drained queue that is closed answers its status, at every poll.
pub proof fn law_closed_queue_answers(q: QueueView, room: nat)
    requires
        q.closed is Some,
        q.records.len() == 0,
        q.dropped == 0,
    ensures
        q.answer(room) == q.closed->0,
        q.polled(room) == q,
{
    assert(q.records.take(0) =~= q.records);
    assert(q.records.skip(0) =~= q.records);
}

/// A buffer that every record fits takes at least one of them from a queue that holds any, so
/// polling again and again drains the queue.
pub proof fn law_poll_makes_progress(q: QueueView, room: nat)
    requires
        q.records.len() > 0 || q.dropped > 0,
        room >= LP2P_EVENT_HEADER_BYTES,
        q.records.len() > 0 ==> q.records[0].size() <= room,
    ensures
        !q.too_small(room),
        q.polled(room).records.len() < q.records.len() || (q.dropped > 0 && q.polled(
            room,
        ).dropped == 0),
{
    lemma_fitting(q.records, room - q.overflow_size());
}

/// What was dropped is reported with its number before any event that came later.
pub proof fn law_overflow_first(q: QueueView, room: nat, little: bool)
    requires
        q.dropped > 0,
        !q.too_small(room),
    ensures
        reads_as(q.output(room, little), little, q.overflow(little)[0].event),
        q.overflow(little)[0].event.header.kind == LP2P_EV_OVERFLOW,
        q.overflow(little)[0].event.header.id == q.dropped,
{
    let rest = q.records.take(q.taken(room) as int);
    lemma_overflow(q, little);
    lemma_joined(q.overflow(little), rest);
    law_record_read_back(
        lp2p_event { id: q.dropped, ..blank_header(LP2P_EV_OVERFLOW) },
        Seq::empty(),
        little,
        joined(rest),
    );
}

struct Inner {
    records: VecDeque<Record>,
    bytes: usize,
    dropped: u64,
    closed: Option<i32>,
}

impl Inner {
    spec fn records_view(self) -> Seq<RecordView> {
        self.records@.map_values(|r: Record| r@)
    }

    fn empty() -> (inner: Inner)
        ensures
            inner.records_view() == Seq::<RecordView>::empty(),
            inner.bytes == 0,
    {
        let inner = Inner { records: VecDeque::new(), bytes: 0, dropped: 0, closed: None };
        assert(inner.records_view() =~= Seq::<RecordView>::empty());
        inner
    }
}

pub struct EventQueue {
    inner: Inner,
    max_bytes: usize,
}

impl View for EventQueue {
    type V = QueueView;

    closed spec fn view(&self) -> QueueView {
        QueueView {
            records: self.inner.records_view(),
            dropped: self.inner.dropped,
            closed: self.inner.closed,
            max_bytes: self.max_bytes,
        }
    }
}

impl EventQueue {
    /// The queue counts the bytes it holds, and keeps to its limit.
    #[verifier::type_invariant]
    spec fn wf(self) -> bool {
        self.inner.bytes == total(self.inner.records_view()) && self.inner.bytes <= self.max_bytes
    }

    pub fn new(max_bytes: usize) -> (q: Self)
        ensures
            q@ == (QueueView {
                records: Seq::empty(),
                dropped: 0,
                closed: None,
                max_bytes,
            }),
    {
        let inner = Inner { records: VecDeque::new(), bytes: 0, dropped: 0, closed: None };
        assert(inner.records_view() =~= Seq::<RecordView>::empty());
        EventQueue { inner, max_bytes }
    }

    /// Whatever is pushed, the queue keeps to its limit.
    pub fn push(&mut self, record: Record)
        ensures
            final(self)@ == old(self)@.pushed(record@),
            final(self)@.log() == old(self)@.log().pushed(record@.event),
            total(final(self)@.records) <= final(self)@.max_bytes,
    {
        proof {
            use_type_invariant(&*self);
        }
        let ghost before = self@;
        let mut inner = Inner::empty();
        std::mem::swap(&mut inner, &mut self.inner);
        let size: usize = record.bytes().len();
        if size > self.max_bytes - inner.bytes {
            if inner.dropped < u64::MAX {
                inner.dropped = inner.dropped + 1;
            }
        } else {
            inner.bytes = inner.bytes + size;
            let ghost records = inner.records_view();
            inner.records.push_back(record);
            proof {
                assert(inner.records_view() =~= records.push(record@));
                lemma_total_push(records, record@);
            }
        }
        self.inner = inner;
        assert(self@ =~= before.pushed(record@));
        proof {
            lemma_pushed_log(before, record@);
        }
    }

    /// Makes polls answer `status` once the queue is drained. The first status stays.
    pub fn close(&mut self, status: i32)
        ensures
            final(self)@ == (QueueView {
                closed: if old(self)@.closed is Some {
                    old(self)@.closed
                } else {
                    Some(status)
                },
                ..old(self)@
            }),
    {
        proof {
            use_type_invariant(&*self);
        }
        if self.inner.closed.is_none() {
            self.inner.closed = Some(status);
        }
    }

    pub fn dropped(&self) -> (n: u64)
        ensures
            n == self@.dropped,
    {
        self.inner.dropped
    }

    /// Whether a poll has something to say; a caller that waits, waits for this.
    pub fn ready(&self) -> (r: bool)
        ensures
            r == self@.ready(),
    {
        self.inner.records.len() > 0 || self.inner.dropped > 0 || self.inner.closed.is_some()
    }

    /// Whole records into `buf`: the bytes written, or a negative status. A record that does not
    /// fit an otherwise empty buffer stays in queue; a larger buffer gets it.
    pub fn poll(&mut self, buf: &mut [u8]) -> (n: i32)
        ensures
            n == old(self)@.answer(old(buf)@.len()),
            final(self)@ == old(self)@.polled(old(buf)@.len()),
            final(buf)@.len() == old(buf)@.len(),
            exists|little: bool| #[trigger]
                old(self)@.output(old(buf)@.len(), little) + old(buf)@.skip(
                    old(self)@.written(old(buf)@.len()) as int,
                ) == final(buf)@,
    {
        let ghost q = self@;
        let ghost start = buf@;
        let ghost room = buf@.len();
        proof {
            use_type_invariant(&*self);
            assert(start.skip(0) =~= start);
            assert(Seq::<u8>::empty() + start =~= start);
        }
        let mut written: usize = 0;
        let little = native_little();
        let mut inner = Inner::empty();
        std::mem::swap(&mut inner, &mut self.inner);
        if inner.dropped > 0 {
            let none: [u8; 0] = [];
            let overflow = EventBuilder::new(LP2P_EV_OVERFLOW).id(inner.dropped).encode(
                none.as_slice(),
                little,
            );
            proof {
                assert(none@ =~= Seq::<u8>::empty());
                lemma_overflow(q, little);
                assert(overflow@ =~= q.overflow(little)[0]);
            }
            if overflow.bytes().len() > buf.len() {
                self.inner = inner;
                assert(self@ =~= q);
                assert(q.output(room, little) + start.skip(q.written(room) as int) =~= buf@);
                return LP2P_ERR_BUFFER_TOO_SMALL;
            }
            write_at(buf, 0, overflow.bytes());
            written = overflow.bytes().len();
            inner.dropped = 0;
        }
        proof {
            lemma_overflow(q, little);
            lemma_fitting(q.records, room - q.overflow_size());
            assert(buf@ =~= joined(q.overflow(little)) + start.skip(written as int));
            assert(q.overflow(little) + q.records.take(0) =~= q.overflow(little));
            assert(q.records.skip(0) =~= q.records);
            assert(total(q.records.take(0)) == 0);
        }
        let ghost mut k: nat = 0;
        while inner.records.len() > 0
            invariant
                q == old(self)@,
                start == old(buf)@,
                room == buf@.len() == start.len(),
                k <= q.records.len(),
                inner.records_view() =~= q.records.skip(k as int),
                inner.bytes == total(inner.records_view()),
                inner.bytes <= self.max_bytes,
                self.max_bytes == q.max_bytes,
                k > 0 ==> written > 0,
                inner.dropped == 0,
                inner.closed == q.closed,
                written == q.overflow_size() + total(q.records.take(k as int)),
                written <= room,
                buf@ =~= joined(q.overflow(little) + q.records.take(k as int)) + start.skip(
                    written as int,
                ),
                joined(q.overflow(little) + q.records.take(k as int)).len() == written,
                q.taken(room) == k + fitting(q.records.skip(k as int), room - written),
                q.dropped > 0 ==> room >= q.overflow_size(),
            ensures
                k == q.taken(room),
                q.dropped == 0 && q.records.len() > 0 ==> k > 0,
            decreases inner.records@.len(),
        {
            let front = inner.records.pop_front();
            let ghost rest = q.records.skip(k as int);
            match front {
                None => {},
                Some(front) => {
                    assert(front@ == rest[0]);
                    let len: usize = front.bytes().len();
                    if len > buf.len() - written {
                        inner.records.push_front(front);
                        assert(inner.records_view() =~= rest);
                        if written == 0 {
                            self.inner = inner;
                            assert(self@ =~= q);
                            assert(rest =~= q.records);
                            assert(q.too_small(room));
                            assert(buf@ =~= start);
                            assert(q.output(room, little) + start.skip(0) =~= buf@);
                            return LP2P_ERR_BUFFER_TOO_SMALL;
                        }
                        break;
                    }
                    write_at(buf, written, front.bytes());
                    written = written + len;
                    inner.bytes = inner.bytes - len;
                    proof {
                        let o = q.overflow(little);
                        let next = q.records.take(k as int + 1);
                        assert(next =~= q.records.take(k as int).push(rest[0]));
                        assert(o + next =~= (o + q.records.take(k as int)).push(rest[0]));
                        lemma_total_push(q.records.take(k as int), rest[0]);
                        law_record_size(rest[0]);
                        lemma_total_push(o + q.records.take(k as int), rest[0]);
                        assert(rest.drop_first() =~= q.records.skip(k as int + 1));
                        assert(inner.records_view() =~= rest.drop_first());
                        k = k + 1;
                    }
                },
            }
        }
        self.inner = inner;
        assert(self@ =~= q.polled(room));
        assert(q.output(room, little) + start.skip(q.written(room) as int) =~= buf@);
        if written == 0 {
            if let Some(status) = self.inner.closed {
                return status;
            }
        }
        #[verifier::truncate]
        let n: i32 = written as i32;
        n
    }
}

/// Writes as many whole records as fit into `buf`, from the first one on: the bytes written.
pub fn write_records(records: &Vec<Record>, buf: &mut [u8]) -> (n: i32)
    ensures
        ({
            let views = records@.map_values(|r: Record| r@);
            let count = fitting(views, old(buf)@.len() as int);
            let out = joined(views.take(count as int));
            &&& final(buf)@ == out + old(buf)@.skip(out.len() as int)
            &&& n == out.len() as i32
        }),
{
    let ghost start = buf@;
    let ghost views = records@.map_values(|r: Record| r@);
    let room: usize = buf.len();
    let mut written: usize = 0;
    let mut k: usize = 0;
    proof {
        assert(views.take(0) =~= Seq::empty());
        assert(views.skip(0) =~= views);
        assert(start.skip(0) =~= start);
        assert(buf@ =~= joined(views.take(0)) + start.skip(0));
    }
    while k < records.len()
        invariant
            start == old(buf)@,
            room == start.len(),
            buf@.len() == room,
            views == records@.map_values(|r: Record| r@),
            k <= records@.len(),
            written <= room,
            joined(views.take(k as int)).len() == written,
            buf@ =~= joined(views.take(k as int)) + start.skip(written as int),
            fitting(views, room as int) == k + fitting(views.skip(k as int), room - written),
        ensures
            k == fitting(views, room as int),
        decreases records@.len() - k,
    {
        let bytes = records[k].bytes();
        let ghost rest = views.skip(k as int);
        assert(rest[0] == views[k as int] && bytes@ == rest[0].bytes());
        if bytes.len() > room - written {
            break;
        }
        write_at(buf, written, bytes);
        written = written + bytes.len();
        proof {
            assert(views.take(k + 1) =~= views.take(k as int).push(rest[0]));
            lemma_total_push(views.take(k as int), rest[0]);
            assert(rest.drop_first() =~= views.skip(k + 1));
        }
        k += 1;
    }
    #[verifier::truncate]
    let n: i32 = written as i32;
    n
}

/// Copies `bytes` into `buf` from `at` on.
fn write_at(buf: &mut [u8], at: usize, bytes: &[u8])
    requires
        at + bytes@.len() <= old(buf)@.len(),
    ensures
        final(buf)@ == old(buf)@.take(at as int) + bytes@ + old(buf)@.skip(at + bytes@.len()),
{
    let ghost start = buf@;
    let mut i: usize = 0;
    let room: usize = buf.len();
    while i < bytes.len()
        invariant
            i <= bytes@.len(),
            at + bytes@.len() <= room,
            buf@.len() == start.len() == room,
            forall|j: int| 0 <= j < i ==> buf@[at + j] == bytes@[j],
            forall|j: int| 0 <= j < at || at + i <= j < start.len() ==> buf@[j] == start[j],
        decreases bytes@.len() - i,
    {
        buf[at + i] = bytes[i];
        i += 1;
    }
    assert(buf@ =~= start.take(at as int) + bytes@ + start.skip(at + bytes@.len()));
}

/// An event says nothing that it was not given: what is not set in a header is zero, and the sizes in
/// it are those of the record and of the data.
pub proof fn law_headers(header: lp2p_event, kind: u16, data: Seq<u8>)
    ensures
        ({
            let blank = blank_header(kind);
            &&& blank.kind == kind
            &&& blank.flags == 0
            &&& blank.id == 0
            &&& blank.protocol == 0
            &&& blank.reason == 0
            &&& blank.group@ == Seq::new(32, |i: int| 0u8)
            &&& blank.node@ == Seq::new(32, |i: int| 0u8)
        }),
        ({
            let event = event_of(header, data);
            let h = event.header;
            &&& event.data == data
            &&& h.kind == header.kind
            &&& h.flags == header.flags
            &&& h.id == header.id
            &&& h.group == header.group
            &&& h.node == header.node
            &&& h.protocol == header.protocol
            &&& h.reason == header.reason
            &&& data.len() + 96 <= u32::MAX ==> h.data_len == data.len() && h.size % 8 == 0
                && 88 + data.len() <= h.size < 96 + data.len()
        }),
{
    assert(no_key()@ =~= Seq::new(32, |i: int| 0u8));
}

/// Records stand one behind the other, each as it is, and take up the room that they take up alone.
pub proof fn law_records_in_a_row(a: Seq<RecordView>, b: Seq<RecordView>, record: RecordView)
    ensures
        joined(a + b) == joined(a) + joined(b),
        total(a + b) == total(a) + total(b),
        joined(seq![record]) == record.bytes(),
        total(seq![record]) == record.bytes().len(),
        joined(a).len() == total(a),
{
    lemma_joined(a, b);
    lemma_joined_total(a);
    law_record_size(record);
    let one = seq![record];
    assert(one.drop_first() =~= Seq::empty());
    assert(joined(one.drop_first()) =~= Seq::empty());
    assert(total(one.drop_first()) == 0);
    assert(joined(one) =~= record.bytes());
}

/// Of records that are written into a buffer, as many as fit are: what is written fits, and the next
/// would not have.
pub proof fn law_as_many_as_fit(records: Seq<RecordView>, room: nat)
    ensures
        ({
            let n = fitting(records, room as int) as int;
            &&& n <= records.len()
            &&& total(records.take(n)) <= room
            &&& n < records.len() ==> total(records.take(n)) + records[n].size() > room
        }),
{
    lemma_fitting(records, room as int);
}

/// What is pushed goes behind all that is there, if there is room for its bytes; else it is counted.
/// Nothing that is there is lost for it.
pub proof fn law_push(q: QueueView, record: RecordView)
    ensures
        ({
            let after = q.pushed(record);
            &&& after.closed == q.closed && after.max_bytes == q.max_bytes
            &&& if total(q.records) + record.bytes().len() <= q.max_bytes {
                after.records == q.records.push(record) && after.dropped == q.dropped
            } else {
                &&& after.records == q.records
                &&& q.dropped < u64::MAX ==> after.dropped == q.dropped + 1
                &&& q.dropped == u64::MAX ==> after.dropped == u64::MAX
            }
        }),
{
    law_record_size(record);
}

/// What a poll answers. A buffer that not even the first thing to say fits into is too small, and
/// nothing is taken. A queue with nothing to say answers what it was closed with, or 0 bytes. Any
/// other poll answers how many bytes it wrote: a report of what was dropped if anything was, and the
/// records from the oldest on.
pub proof fn law_poll(q: QueueView, room: nat, little: bool)
    ensures
        ({
            let n = q.taken(room) as int;
            let out = q.output(room, little);
            let small = (q.dropped > 0 && room < 88) || (q.dropped == 0 && q.records.len() > 0
                && q.records[0].bytes().len() > room);
            let nothing = q.dropped == 0 && q.records.len() == 0;
            &&& small ==> q.answer(room) == -2 && q.polled(room) == q && out.len() == 0
            &&& nothing ==> q.polled(room) == q && out.len() == 0 && q.answer(room) == (
            match q.closed {
                Some(status) => status,
                None => 0,
            })
            &&& !small && !nothing ==> {
                &&& out.len() > 0
                &&& out.len() <= room
                &&& out.len() <= i32::MAX ==> q.answer(room) == out.len()
                &&& out == joined(q.overflow(little)) + joined(q.records.take(n))
                &&& q.polled(room).records == q.records.skip(n)
                &&& q.polled(room).dropped == 0
                &&& 0 <= n <= q.records.len()
                &&& q.dropped == 0 ==> n > 0
            }
            &&& q.ready() <==> !nothing || q.closed is Some
        }),
{
    let n = q.taken(room) as int;
    let o = q.overflow(little);
    lemma_fitting(q.records, room - q.overflow_size());
    lemma_overflow(q, little);
    lemma_joined(o, q.records.take(n));
    lemma_joined_total(o + q.records.take(n));
    if q.records.len() > 0 {
        law_record_size(q.records[0]);
        if n > 0 {
            assert(q.records.take(n)[0] == q.records[0]);
            assert(total(q.records.take(n)) >= q.records[0].size());
        }
    } else {
        assert(q.records.take(0) =~= q.records);
        assert(q.records.skip(0) =~= q.records);
    }
}

/// What stands in a record behind the data is zeros.
pub proof fn law_padding(record: RecordView, i: int)
    requires
        LP2P_EVENT_HEADER_BYTES + record.event.data.len() <= i < record.bytes().len(),
    ensures
        record.bytes()[i] == 0,
{
    reveal(RecordView::bytes);
    lemma_header(record.event.header, record.little);
}

} // verus!
