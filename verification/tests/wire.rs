//! The frames of requests and responses.

use libp2p_ffi::abi::LP2P_DELEGATION_BYTES;
use libp2p_ffi::wire::{
    decode_request, decode_response, encode_request, encode_response, read_bounded, FrameTooLong,
    RawCodec, FRAME_OVERHEAD, RPC_PROTOCOL,
};

#[test]
fn frames_round_trip() {
    let delegation = [9u8; LP2P_DELEGATION_BYTES];
    let frame = encode_request(&delegation, "/gradido/federation/1", b"hello");
    let req = decode_request(&frame).unwrap();
    assert_eq!(req.delegation, &delegation[..]);
    assert_eq!(req.protocol, "/gradido/federation/1");
    assert_eq!(req.payload, b"hello");

    let frame = encode_response(&delegation, b"");
    let res = decode_response(&frame).unwrap();
    assert_eq!(res.payload, b"");
}

#[test]
fn truncated_frames_are_refused() {
    let delegation = [9u8; LP2P_DELEGATION_BYTES];
    let frame = encode_request(&delegation, "/p", b"x");
    assert!(decode_request(&frame[..10]).is_none());
    assert!(decode_request(&[2]).is_none());
    assert!(decode_response(&frame[..100]).is_none());
}

#[test]
fn a_request_is_laid_out_byte_for_byte() {
    let frame = encode_request(&[9; LP2P_DELEGATION_BYTES], "/p", b"xy");
    let mut expected = vec![1];
    expected.extend_from_slice(&[9; 136]);
    expected.extend_from_slice(&[2, b'/', b'p', b'x', b'y']);
    assert_eq!(frame, expected);

    let frame = encode_response(&[9; LP2P_DELEGATION_BYTES], b"z");
    let mut expected = vec![1];
    expected.extend_from_slice(&[9; 136]);
    expected.push(b'z');
    assert_eq!(frame, expected);
    assert_eq!(decode_response(&frame).unwrap().delegation, &[9; 136]);
}

#[test]
fn frames_that_say_something_else_are_refused() {
    let mut frame = encode_request(&[9; LP2P_DELEGATION_BYTES], "/p", b"");
    assert_eq!(decode_request(&frame).unwrap().payload, b"");
    // A name that is not UTF-8, one that is longer than the frame, none at all, another version.
    frame[139] = 0xff;
    assert!(decode_request(&frame).is_none());
    frame[139] = b'p';
    frame[137] = 3;
    assert!(decode_request(&frame).is_none());
    frame[137] = 0;
    assert!(decode_request(&frame).is_none());
    frame[137] = 2;
    frame[0] = 2;
    assert!(decode_request(&frame).is_none());
    assert!(decode_response(&frame).is_none());
    assert!(decode_request(&[]).is_none());
    assert!(decode_response(&[]).is_none());
}

#[test]
fn the_longest_name_fits_its_length() {
    let name = "/".repeat(255);
    let frame = encode_request(&[0; LP2P_DELEGATION_BYTES], &name, b"!");
    assert_eq!(frame.len() as u64, FRAME_OVERHEAD + 1);
    assert_eq!(decode_request(&frame).unwrap().protocol, name);
}

#[test]
fn reading_stops_at_the_limit() {
    let codec = RawCodec::for_payloads(10, 20);
    assert_eq!((codec.max_request, codec.max_response), (403, 413));
    assert_eq!(read_bounded(vec![1, 2, 3], 3), Ok(vec![1, 2, 3]));
    assert_eq!(read_bounded(vec![1, 2, 3, 4], 3), Err(FrameTooLong));
    assert_eq!(read_bounded(Vec::new(), 0), Ok(Vec::new()));
    assert_eq!(RPC_PROTOCOL, "/lp2p/rpc/1");
}
