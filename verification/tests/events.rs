//! Records and the queue they wait in.

use libp2p_ffi::abi::{
    lp2p_event, LP2P_ERR_BUFFER_TOO_SMALL, LP2P_ERR_PANIC, LP2P_ERR_SHUT_DOWN, LP2P_EV_DHT_RESULT,
    LP2P_EV_LISTENING, LP2P_EV_OVERFLOW, LP2P_EV_RPC_RESPONSE,
};
use libp2p_ffi::events::{least_first, native_little, write_records, EventBuilder, EventQueue};

fn header(bytes: &[u8]) -> lp2p_event {
    lp2p_event {
        kind: u16::from_ne_bytes([bytes[0], bytes[1]]),
        flags: u16::from_ne_bytes([bytes[2], bytes[3]]),
        size: u32::from_ne_bytes(bytes[4..8].try_into().unwrap()),
        id: u64::from_ne_bytes(bytes[8..16].try_into().unwrap()),
        group: bytes[16..48].try_into().unwrap(),
        node: bytes[48..80].try_into().unwrap(),
        protocol: u16::from_ne_bytes([bytes[80], bytes[81]]),
        reason: u16::from_ne_bytes([bytes[82], bytes[83]]),
        data_len: u32::from_ne_bytes(bytes[84..88].try_into().unwrap()),
    }
}

#[test]
fn records_are_padded_and_whole() {
    let mut q = EventQueue::new(1 << 16);
    q.push(EventBuilder::new(LP2P_EV_LISTENING).data(b"abc"));
    q.push(EventBuilder::new(LP2P_EV_LISTENING).data(b"defgh"));
    let mut buf = [0u8; 100];
    let n = q.poll(&mut buf);
    assert_eq!(n, 96, "only the first record fits");
    let h = header(&buf);
    assert_eq!((h.kind, h.size, h.data_len), (LP2P_EV_LISTENING, 96, 3));
    let mut small = [0u8; 50];
    assert_eq!(q.poll(&mut small), LP2P_ERR_BUFFER_TOO_SMALL);
    assert_eq!(q.poll(&mut buf), 96);
    assert_eq!(q.poll(&mut buf), 0);
}

#[test]
fn overflow_is_reported_before_the_next_events() {
    let mut q = EventQueue::new(96);
    q.push(EventBuilder::new(LP2P_EV_LISTENING).data(b"a"));
    q.push(EventBuilder::new(LP2P_EV_LISTENING).data(b"b"));
    q.push(EventBuilder::new(LP2P_EV_LISTENING).data(b"c"));
    let mut buf = [0u8; 1024];
    let n = q.poll(&mut buf);
    assert_eq!(n, 88 + 96);
    let h = header(&buf);
    assert_eq!((h.kind, h.id), (LP2P_EV_OVERFLOW, 2));
}

#[test]
fn a_closed_queue_answers_its_status_once_drained() {
    let mut q = EventQueue::new(1024);
    q.push(EventBuilder::new(LP2P_EV_LISTENING).build());
    q.close(LP2P_ERR_SHUT_DOWN);
    let mut buf = [0u8; 1024];
    assert_eq!(q.poll(&mut buf), 88);
    assert_eq!(q.poll(&mut buf), LP2P_ERR_SHUT_DOWN);
}

#[test]
fn a_header_carries_every_field_at_its_offset() {
    let record = EventBuilder::new(LP2P_EV_RPC_RESPONSE)
        .id(0x0102030405060708)
        .flags(0x1112)
        .group([3; 32])
        .node([4; 32])
        .protocol(0x2122)
        .reason(0x3132)
        .data(b"payload");
    let bytes = record.bytes();
    assert_eq!(bytes.len(), 96);
    let h = header(bytes);
    assert_eq!((h.kind, h.flags, h.size), (LP2P_EV_RPC_RESPONSE, 0x1112, 96));
    assert_eq!(h.id, 0x0102030405060708);
    assert_eq!((h.group, h.node), ([3; 32], [4; 32]));
    assert_eq!((h.protocol, h.reason, h.data_len), (0x2122, 0x3132, 7));
    assert_eq!(&bytes[88..95], b"payload");
    assert_eq!(bytes[95], 0);
}

#[test]
fn both_byte_orders_are_written_as_asked() {
    let little = EventBuilder::new(0x0102).id(1).encode(b"", true);
    assert_eq!(&little.bytes()[..2], &[2, 1]);
    assert_eq!(&little.bytes()[8..16], &[1, 0, 0, 0, 0, 0, 0, 0]);
    let big = EventBuilder::new(0x0102).id(1).encode(b"", false);
    assert_eq!(&big.bytes()[..2], &[1, 2]);
    assert_eq!(&big.bytes()[8..16], &[0, 0, 0, 0, 0, 0, 0, 1]);
    let native = EventBuilder::new(0x0102).id(1).build();
    let same = if native_little() { little } else { big };
    assert_eq!(native.bytes(), same.bytes());
    assert_eq!(native_little(), 1u16.to_ne_bytes() == [1, 0]);
}

#[test]
fn data_that_fills_the_last_eight_bytes_is_not_padded() {
    assert_eq!(EventBuilder::new(1).data(&[7; 8]).bytes().len(), 96);
    assert_eq!(EventBuilder::new(1).data(&[7; 9]).bytes().len(), 104);
    assert_eq!(EventBuilder::new(1).build().bytes().len(), 88);
}

#[test]
fn a_poll_leaves_the_rest_of_the_buffer_and_keeps_the_order() {
    let mut q = EventQueue::new(1 << 16);
    for id in 1..=3u64 {
        q.push(EventBuilder::new(LP2P_EV_DHT_RESULT).id(id).build());
    }
    assert!(q.ready());
    let mut buf = [9u8; 200];
    assert_eq!(q.poll(&mut buf), 176);
    assert_eq!(header(&buf[..88]).id, 1);
    assert_eq!(header(&buf[88..]).id, 2);
    assert!(buf[176..].iter().all(|b| *b == 9));
    assert_eq!(q.poll(&mut buf), 88);
    assert_eq!(header(&buf).id, 3);
    assert!(!q.ready());
}

#[test]
fn a_buffer_too_small_for_the_report_changes_nothing() {
    let mut q = EventQueue::new(88);
    q.push(EventBuilder::new(1).build());
    q.push(EventBuilder::new(1).build());
    assert_eq!(q.dropped(), 1);
    let mut small = [5u8; 87];
    assert_eq!(q.poll(&mut small), LP2P_ERR_BUFFER_TOO_SMALL);
    assert!(small.iter().all(|b| *b == 5));
    assert_eq!(q.dropped(), 1);
    let mut buf = [0u8; 88];
    // The report alone fits; the record follows at the next poll.
    assert_eq!(q.poll(&mut buf), 88);
    assert_eq!(header(&buf).kind, LP2P_EV_OVERFLOW);
    assert_eq!(q.dropped(), 0);
    assert_eq!(q.poll(&mut buf), 88);
    assert_eq!(header(&buf).kind, 1);
}

#[test]
fn the_first_close_stays() {
    let mut q = EventQueue::new(1024);
    q.close(LP2P_ERR_PANIC);
    q.close(LP2P_ERR_SHUT_DOWN);
    assert!(q.ready());
    let mut buf = [0u8; 10];
    assert_eq!(q.poll(&mut buf), LP2P_ERR_PANIC);
    assert_eq!(q.poll(&mut buf), LP2P_ERR_PANIC);
}

#[test]
fn a_sample_is_cut_at_the_last_whole_record() {
    let records = vec![
        EventBuilder::new(1).id(1).build(),
        EventBuilder::new(1).id(2).data(b"xyz"),
        EventBuilder::new(1).id(3).build(),
    ];
    let mut buf = [0u8; 200];
    assert_eq!(write_records(&records, &mut buf), 88 + 96);
    assert_eq!(header(&buf[88..]).id, 2);
    let mut none = [0u8; 80];
    assert_eq!(write_records(&records, &mut none), 0);
    assert!(none.iter().all(|b| *b == 0));
}

#[test]
fn the_byte_order_is_read_from_the_number_one() {
    assert!(least_first(1u16.to_le_bytes()));
    assert!(!least_first(1u16.to_be_bytes()));
}
