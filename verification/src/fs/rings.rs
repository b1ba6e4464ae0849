//! The rings of a client: requests come in one, responses go out by the other.
use vstd::prelude::*;

use crate::bytes;
use crate::ring;
use crate::ring::{response_frame, Ring};

verus! {

/// A response: two words and a payload.
pub struct Frame {
    pub result: u64,
    pub w1: u64,
    pub payload: Vec<u8>,
}

/// A response as a value.
#[verifier::ext_equal]
pub struct FrameView {
    pub result: u64,
    pub w1: u64,
    pub payload: Seq<u8>,
}

impl View for Frame {
    type V = FrameView;

    open spec fn view(&self) -> FrameView {
        FrameView { result: self.result, w1: self.w1, payload: self.payload@ }
    }
}

/// The head of the first request in the ring: what is asked, the two words,
/// and how many bytes lie behind it. `None` if there is no whole head.
pub fn req_ring_read(ring: &Ring) -> (r: Option<(u32, u64, u64, usize)>)
    requires
        ring.wf(),
    ensures
        match r {
            Some((tag, w0, w1, n)) => {
                &&& ring@.len() == 20 + n
                &&& tag == bytes::le_value(ring@, 0, 4)
                &&& w0 == bytes::le_value(ring@, 4, 8)
                &&& w1 == bytes::le_value(ring@, 12, 8)
            },
            None => ring@.len() < 20,
        },
{
    let total: usize = ring.available();
    if total < 20 {
        return None;
    }
    Some((ring.field32(0), ring.field64(4), ring.field64(12), total - 20))
}

/// The payload of the first request, which is taken out of the ring with it.
pub fn req_ring_read_payload(ring: &mut Ring, payload_len: usize) -> (r: Vec<u8>)
    requires
        old(ring).wf(),
        20 + payload_len <= old(ring)@.len(),
    ensures
        final(ring).wf(),
        ring::reader_moved(*old(ring), *final(ring)),
        r@ == old(ring)@.subrange(20, 20 + payload_len),
        final(ring)@ == old(ring)@.skip(20 + payload_len),
{
    let p: Vec<u8> = ring.peek(20, payload_len);
    ring.consume(20 + payload_len);
    p
}

/// Takes a request out of the ring unread.
pub fn req_ring_consume(ring: &mut Ring, frame_len: usize)
    requires
        old(ring).wf(),
        frame_len <= old(ring)@.len(),
    ensures
        final(ring).wf(),
        ring::reader_moved(*old(ring), *final(ring)),
        final(ring)@ == old(ring)@.skip(frame_len as int),
{
    ring.consume(frame_len);
}

/// The first request cannot be one: everything is thrown away, so that the
/// next request starts where it should.
pub fn req_resync(ring: &mut Ring)
    requires
        old(ring).wf(),
    ensures
        final(ring).wf(),
        ring::reader_moved(*old(ring), *final(ring)),
        final(ring)@ == Seq::<u8>::empty(),
{
    ring.discard();
}

/// Writes a response into the ring.
pub fn resp_ring_write(ring: &mut Ring, result: u64, w1: u64, payload: &[u8])
    requires
        old(ring).wf(),
        payload.len() <= 0xFFEF,
    ensures
        final(ring).wf(),
        ring::writer_moved(*old(ring), *final(ring), ring::response(result, w1, payload@)),
        old(ring).fits(16 + payload@.len() as int) ==> final(ring)@ == old(ring)@ + ring::response(
            result,
            w1,
            payload@,
        ),
{
    let f: Vec<u8> = response_frame(result, w1, payload);
    ring.put(&f);
}

} // verus!
