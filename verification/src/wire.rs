//! What travels on an RPC stream. Everything here is the contract a mirror in another language
//! has to follow byte for byte.
//!
//! One libp2p protocol carries every RPC: `/lp2p/rpc/1`. A stream holds one request and one
//! response. The requester writes its frame and closes its write side; the responder reads to the
//! end, writes its frame and closes; the requester reads to the end. A stream closed without a
//! response is a rejection.
//!
//! ```text
//! request    u8 version = 1
//!            136 bytes  the requester's delegation
//!            u8         length of the protocol name, 1..=255
//!            ...        the protocol name, UTF-8, as the caller registered it
//!            ...        payload, to the end of the stream
//!
//! response   u8 version = 1
//!            136 bytes  the responder's delegation
//!            ...        payload, to the end of the stream
//! ```
//!
//! The protocol name rides in the frame rather than in libp2p's protocol negotiation because
//! rust-libp2p's request-response cannot choose a protocol per request. The delegation rides in
//! every frame so that neither side needs a second round trip, or any state, to know which group
//! the other belongs to.

use vstd::prelude::*;

use crate::abi::LP2P_DELEGATION_BYTES;
use crate::bytes::append_bytes;

verus! {

pub const RPC_PROTOCOL: &'static str = "/lp2p/rpc/1";

pub const VERSION: u8 = 1;

/// The most that a frame holds besides the payload: version, delegation, name length and name.
pub const FRAME_OVERHEAD: u64 = 393;

pub struct Request<'a> {
    pub delegation: &'a [u8],
    pub protocol: &'a str,
    pub payload: &'a [u8],
}

pub struct Response<'a> {
    pub delegation: &'a [u8],
    pub payload: &'a [u8],
}

/// What a request says.
#[verifier::ext_equal]
pub struct RequestView {
    pub delegation: Seq<u8>,
    pub protocol: Seq<char>,
    pub payload: Seq<u8>,
}

/// What a response says.
#[verifier::ext_equal]
pub struct ResponseView {
    pub delegation: Seq<u8>,
    pub payload: Seq<u8>,
}

impl<'a> View for Request<'a> {
    type V = RequestView;

    open spec fn view(&self) -> RequestView {
        RequestView {
            delegation: self.delegation@,
            protocol: self.protocol@,
            payload: self.payload@,
        }
    }
}

impl<'a> View for Response<'a> {
    type V = ResponseView;

    open spec fn view(&self) -> ResponseView {
        ResponseView { delegation: self.delegation@, payload: self.payload@ }
    }
}

impl RequestView {
    /// Whether a frame can carry the request.
    pub open spec fn fits(self) -> bool {
        self.delegation.len() == LP2P_DELEGATION_BYTES && 1 <= vstd::utf8::encode_utf8(
            self.protocol,
        ).len() <= 255
    }

    /// The frame that carries the request.
    pub open spec fn frame(self) -> Seq<u8> {
        let name = vstd::utf8::encode_utf8(self.protocol);
        seq![VERSION] + self.delegation + seq![name.len() as u8] + name + self.payload
    }
}

impl ResponseView {
    /// Whether a frame can carry the response.
    pub open spec fn fits(self) -> bool {
        self.delegation.len() == LP2P_DELEGATION_BYTES
    }

    /// The frame that carries the response.
    pub open spec fn frame(self) -> Seq<u8> {
        seq![VERSION] + self.delegation + self.payload
    }
}

/// What a frame says as a request, or None where it is none.
pub open spec fn request_in(frame: Seq<u8>) -> Option<RequestView> {
    if frame.len() < 138 || frame[0] != VERSION || frame[137] == 0 || frame.len() < 138
        + frame[137] || !vstd::utf8::valid_utf8(frame.subrange(138, 138 + frame[137])) {
        None
    } else {
        Some(
            RequestView {
                delegation: frame.subrange(1, 137),
                protocol: vstd::utf8::decode_utf8(frame.subrange(138, 138 + frame[137])),
                payload: frame.skip(138 + frame[137]),
            },
        )
    }
}

/// What a frame says as a response, or None where it is none.
pub open spec fn response_in(frame: Seq<u8>) -> Option<ResponseView> {
    if frame.len() < 137 || frame[0] != VERSION {
        None
    } else {
        Some(ResponseView { delegation: frame.subrange(1, 137), payload: frame.skip(137) })
    }
}

/// A request is read back from its frame as it was written.
pub proof fn law_request_read_back(request: RequestView)
    requires
        request.fits(),
    ensures
        request_in(request.frame()) == Some(request),
{
    let frame = request.frame();
    let name = vstd::utf8::encode_utf8(request.protocol);
    vstd::utf8::encode_utf8_valid_utf8(request.protocol);
    vstd::utf8::encode_utf8_decode_utf8(request.protocol);
    assert(frame[137] == name.len() as u8);
    assert(frame.subrange(138, 138 + name.len() as int) =~= name);
    assert(frame.subrange(1, 137) =~= request.delegation);
    assert(frame.skip(138 + name.len() as int) =~= request.payload);
}

/// A frame that is read as a request is the frame of what was read.
pub proof fn law_request_write_back(frame: Seq<u8>)
    requires
        request_in(frame) is Some,
    ensures
        request_in(frame)->0.fits(),
        request_in(frame)->0.frame() == frame,
{
    let request = request_in(frame)->0;
    let n = frame[137];
    let name = frame.subrange(138, 138 + n);
    vstd::utf8::decode_utf8_encode_utf8(name);
    assert(vstd::utf8::encode_utf8(request.protocol) == name);
    assert(name.len() as u8 == n);
    assert(request.frame() =~= frame);
}

/// A response is read back from its frame as it was written.
pub proof fn law_response_read_back(response: ResponseView)
    requires
        response.fits(),
    ensures
        response_in(response.frame()) == Some(response),
{
    let frame = response.frame();
    assert(frame.subrange(1, 137) =~= response.delegation);
    assert(frame.skip(137) =~= response.payload);
}

/// A frame that is read as a response is the frame of what was read.
pub proof fn law_response_write_back(frame: Seq<u8>)
    requires
        response_in(frame) is Some,
    ensures
        response_in(frame)->0.fits(),
        response_in(frame)->0.frame() == frame,
{
    assert(response_in(frame)->0.frame() =~= frame);
}

/// A frame is longer than its payload by no more than the overhead.
pub proof fn law_frame_overhead(request: RequestView, response: ResponseView)
    requires
        request.fits(),
        response.fits(),
    ensures
        request.frame().len() <= request.payload.len() + FRAME_OVERHEAD,
        response.frame().len() <= response.payload.len() + FRAME_OVERHEAD,
{
}

pub fn encode_request(delegation: &[u8], protocol: &str, payload: &[u8]) -> (frame: Vec<u8>)
    requires
        delegation@.len() == LP2P_DELEGATION_BYTES,
        1 <= vstd::utf8::encode_utf8(protocol@).len() <= 255,
    ensures
        frame@ == (RequestView {
            delegation: delegation@,
            protocol: protocol@,
            payload: payload@,
        }).frame(),
        request_in(frame@) == Some(
            RequestView { delegation: delegation@, protocol: protocol@, payload: payload@ },
        ),
{
    let mut out: Vec<u8> = Vec::new();
    let name = protocol.as_bytes();
    out.push(VERSION);
    append_bytes(&mut out, delegation);
    out.push(name.len() as u8);
    append_bytes(&mut out, name);
    append_bytes(&mut out, payload);
    proof {
        let request = RequestView {
            delegation: delegation@,
            protocol: protocol@,
            payload: payload@,
        };
        assert(out@ =~= request.frame());
        law_request_read_back(request);
    }
    out
}

pub fn decode_request(frame: &[u8]) -> (request: Option<Request<'_>>)
    ensures
        match request {
            Some(request) => request_in(frame@) == Some(request@),
            None => request_in(frame@) is None,
        },
{
    if frame.len() < LP2P_DELEGATION_BYTES + 2 || frame[0] != VERSION {
        return None;
    }
    let (head, rest) = frame.split_at(LP2P_DELEGATION_BYTES + 2);
    let (_, rest_of_head) = head.split_at(1);
    let (delegation, _) = rest_of_head.split_at(LP2P_DELEGATION_BYTES);
    let name_len: usize = frame[LP2P_DELEGATION_BYTES + 1] as usize;
    if name_len == 0 || rest.len() < name_len {
        return None;
    }
    let (name, payload) = rest.split_at(name_len);
    proof {
        assert(delegation@ =~= frame@.subrange(1, 137));
        assert(name@ =~= frame@.subrange(138, 138 + name_len));
        assert(payload@ =~= frame@.skip(138 + name_len as int));
    }
    match std::str::from_utf8(name) {
        Ok(protocol) => {
            proof {
                vstd::utf8::encode_utf8_decode_utf8(protocol@);
            }
            Some(Request { delegation, protocol, payload })
        },
        Err(_) => None,
    }
}

pub fn encode_response(delegation: &[u8], payload: &[u8]) -> (frame: Vec<u8>)
    requires
        delegation@.len() == LP2P_DELEGATION_BYTES,
    ensures
        frame@ == (ResponseView { delegation: delegation@, payload: payload@ }).frame(),
        response_in(frame@) == Some(
            ResponseView { delegation: delegation@, payload: payload@ },
        ),
{
    let mut out: Vec<u8> = Vec::new();
    out.push(VERSION);
    append_bytes(&mut out, delegation);
    append_bytes(&mut out, payload);
    proof {
        let response = ResponseView { delegation: delegation@, payload: payload@ };
        assert(out@ =~= response.frame());
        law_response_read_back(response);
    }
    out
}

pub fn decode_response(frame: &[u8]) -> (response: Option<Response<'_>>)
    ensures
        match response {
            Some(response) => response_in(frame@) == Some(response@),
            None => response_in(frame@) is None,
        },
{
    if frame.len() < LP2P_DELEGATION_BYTES + 1 || frame[0] != VERSION {
        return None;
    }
    let (_, rest) = frame.split_at(1);
    let (delegation, payload) = rest.split_at(LP2P_DELEGATION_BYTES);
    proof {
        assert(delegation@ =~= frame@.subrange(1, 137));
        assert(payload@ =~= frame@.skip(137));
    }
    Some(Response { delegation, payload })
}

/// Bytes in, bytes out, bounded. The frame overhead is added to the caller's payload limits.
#[derive(Clone, Copy, Debug)]
pub struct RawCodec {
    pub max_request: u64,
    pub max_response: u64,
}

impl RawCodec {
    /// The codec for a node's payload limits.
    pub fn for_payloads(max_request_bytes: u32, max_response_bytes: u32) -> (codec: RawCodec)
        ensures
            codec.max_request == max_request_bytes + FRAME_OVERHEAD,
            codec.max_response == max_response_bytes + FRAME_OVERHEAD,
    {
        RawCodec {
            max_request: max_request_bytes as u64 + FRAME_OVERHEAD,
            max_response: max_response_bytes as u64 + FRAME_OVERHEAD,
        }
    }
}

/// A frame that is longer than it may be.
#[derive(Clone, Copy, Debug, PartialEq, Eq)]
pub struct FrameTooLong;

/// What a reader that asked for no more than one byte past `max` makes of what it got. The one byte
/// tells a frame that is exactly at the limit from one that is over.
pub fn read_bounded(frame: Vec<u8>, max: u64) -> (r: Result<Vec<u8>, FrameTooLong>)
    ensures
        match r {
            Ok(accepted) => frame@.len() <= max && accepted@ == frame@,
            Err(_) => frame@.len() > max,
        },
{
    if frame.len() as u64 > max {
        Err(FrameTooLong)
    } else {
        Ok(frame)
    }
}

/// Reading one byte past the limit is enough: what a stream holds is within the limit exactly if
/// the part read is, and then the part read is all of it.
pub proof fn law_bounded_read(stream: Seq<u8>, max: nat)
    ensures
        ({
            let part = if stream.len() <= max + 1 {
                stream
            } else {
                stream.take(max as int + 1)
            };
            &&& part.len() <= max <==> stream.len() <= max
            &&& part.len() <= max ==> part == stream
        }),
{
}

/// How a request lies in its frame: the version, who asks, how long the protocol's name is, the name
/// and the payload.
pub proof fn law_request_layout(request: RequestView)
    requires
        request.fits(),
    ensures
        ({
            let frame = request.frame();
            let name = vstd::utf8::encode_utf8(request.protocol);
            let n = name.len() as int;
            &&& frame.len() == 138 + n + request.payload.len()
            &&& frame[0] == 1
            &&& frame.subrange(1, 137) == request.delegation
            &&& frame[137] == n
            &&& frame.subrange(138, 138 + n) == name
            &&& frame.skip(138 + n) == request.payload
        }),
{
    let frame = request.frame();
    let name = vstd::utf8::encode_utf8(request.protocol);
    assert(frame.subrange(1, 137) =~= request.delegation);
    assert(frame.subrange(138, 138 + name.len() as int) =~= name);
    assert(frame.skip(138 + name.len() as int) =~= request.payload);
}

/// How a response lies in its frame: the version, who answers, the payload.
pub proof fn law_response_layout(response: ResponseView)
    requires
        response.fits(),
    ensures
        ({
            let frame = response.frame();
            &&& frame.len() == 137 + response.payload.len()
            &&& frame[0] == 1
            &&& frame.subrange(1, 137) == response.delegation
            &&& frame.skip(137) == response.payload
        }),
{
    let frame = response.frame();
    assert(frame.subrange(1, 137) =~= response.delegation);
    assert(frame.skip(137) =~= response.payload);
}

/// Which byte strings are frames. A request has the version, a delegation, and a name that is not
/// empty, is there to its end and is UTF-8; a response has the version and a delegation. A frame of
/// another version is none, nor is an empty one.
pub proof fn law_frames(frame: Seq<u8>)
    ensures
        request_in(frame) is Some <==> {
            &&& frame.len() >= 138
            &&& frame[0] == 1
            &&& frame[137] >= 1
            &&& frame.len() >= 138 + frame[137]
            &&& vstd::utf8::valid_utf8(frame.subrange(138, 138 + frame[137]))
        },
        response_in(frame) is Some <==> frame.len() >= 137 && frame[0] == 1,
        request_in(frame) is Some ==> ({
            let request = request_in(frame)->0;
            &&& request.delegation == frame.subrange(1, 137)
            &&& request.payload == frame.skip(138 + frame[137])
            &&& request.protocol == vstd::utf8::decode_utf8(
                frame.subrange(138, 138 + frame[137]),
            )
        }),
        response_in(frame) is Some ==> response_in(frame)->0.delegation == frame.subrange(1, 137)
            && response_in(frame)->0.payload == frame.skip(137),
{
}

/// The overhead is no larger than it has to be: with the longest name a request takes all of it.
pub proof fn law_frame_overhead_is_used(request: RequestView)
    requires
        request.fits(),
        vstd::utf8::encode_utf8(request.protocol).len() == 255,
    ensures
        request.frame().len() == request.payload.len() + FRAME_OVERHEAD,
{
}

} // verus!
