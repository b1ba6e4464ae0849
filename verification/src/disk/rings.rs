//! The rings of the driver: requests for sectors and names in one, responses
//! in the other, and its own requests to the file system server.
use vstd::prelude::*;

use super::nodes::{DISK_MAX_NAME, DISK_MAX_SECTORS};
use crate::bytes;
use crate::bytes::is_utf8;
use crate::ring;
use crate::ring::{request_frame, response_frame, Ring};

verus! {

/// Writes a response.
pub fn disk_resp_write(ring: &mut Ring, result: u64, w1: u64, payload: &[u8])
    requires
        old(ring).wf(),
        payload.len() <= 0xFFEF,
    ensures
        final(ring).wf(),
        ring::writer_moved(*old(ring), *final(ring), ring::response(result, w1, payload@)),
        old(ring).fits(16 + payload@.len() as int) ==> final(ring)@ == old(ring)@ + ring::response(
            result,
            w1,
            payload@,
        ),
{
    let f: Vec<u8> = response_frame(result, w1, payload);
    ring.put(&f);
}

/// The number that a request begins with.
pub open spec fn first_word(s: Seq<u8>) -> nat {
    bytes::le_value(s, 0, 8)
}

/// A request that holds a name: its length, and its bytes.
pub open spec fn whole_name(s: Seq<u8>) -> bool {
    0 < first_word(s) <= DISK_MAX_NAME && s.len() >= 8 + first_word(s)
}

/// The ring once a name was taken out of it.
pub open spec fn past_name(s: Seq<u8>) -> Seq<u8> {
    if s.len() < 8 {
        s
    } else if !whole_name(s) {
        Seq::empty()
    } else {
        s.skip(8 + first_word(s) as int)
    }
}

/// The name that is asked for. A request that cannot be one empties the ring;
/// a name that is no text is taken out and dropped.
pub fn disk_req_read_name(ring: &mut Ring) -> (r: Option<Vec<u8>>)
    requires
        old(ring).wf(),
    ensures
        final(ring).wf(),
        ring::reader_moved(*old(ring), *final(ring)),
        ({
            let s = old(ring)@;
            let n = first_word(s) as int;
            &&& final(ring)@ == past_name(s)
            &&& if s.len() < 8 || !whole_name(s) {
                r is None
            } else {
                &&& match r {
                    Some(name) => name@ == s.subrange(8, 8 + n),
                    None => !vstd::utf8::valid_utf8(s.subrange(8, 8 + n)),
                }
                &&& r is Some ==> vstd::utf8::valid_utf8(r->0@)
            }
        }),
{
    let avail: usize = ring.available();
    if avail < 8 {
        return None;
    }
    let n: u64 = ring.field64(0);
    if n == 0 || n > DISK_MAX_NAME as u64 || (avail as u64) < 8 + n {
        ring.discard();
        return None;
    }
    let len: usize = n as usize;
    let name: Vec<u8> = ring.peek(8, len);
    ring.consume(8 + len);
    if is_utf8(&name) {
        Some(name)
    } else {
        None
    }
}

/// How many sectors are asked for. The request is taken out of the ring.
pub fn disk_req_read_count(ring: &mut Ring) -> (r: Option<usize>)
    requires
        old(ring).wf(),
    ensures
        final(ring).wf(),
        ring::reader_moved(*old(ring), *final(ring)),
        ({
            let s = old(ring)@;
            if s.len() < 8 {
                r is None && final(ring)@ == s
            } else {
                &&& final(ring)@ == s.skip(8)
                &&& match r {
                    Some(n) => n == first_word(s) && 1 <= n <= DISK_MAX_SECTORS,
                    None => !(1 <= first_word(s) <= DISK_MAX_SECTORS),
                }
            }
        }),
{
    if ring.available() < 8 {
        return None;
    }
    let n: u64 = ring.field64(0);
    ring.consume(8);
    if n == 0 || n > DISK_MAX_SECTORS as u64 {
        return None;
    }
    Some(n as usize)
}

/// A request that holds sectors: how many, and their bytes.
pub open spec fn whole_sectors(s: Seq<u8>) -> bool {
    1 <= first_word(s) <= DISK_MAX_SECTORS && s.len() >= 8 + 512 * first_word(s)
}

/// The ring once sectors were taken out of it.
pub open spec fn past_sectors(s: Seq<u8>) -> Seq<u8> {
    if s.len() < 8 {
        s
    } else if !whole_sectors(s) {
        Seq::empty()
    } else {
        s.skip(8 + 512 * (first_word(s) as int))
    }
}

/// The sectors that are to be written. A request that cannot be one empties
/// the ring.
pub fn disk_req_read_multi(ring: &mut Ring) -> (r: Option<Vec<u8>>)
    requires
        old(ring).wf(),
    ensures
        final(ring).wf(),
        ring::reader_moved(*old(ring), *final(ring)),
        ({
            let s = old(ring)@;
            let n = first_word(s) as int;
            &&& final(ring)@ == past_sectors(s)
            &&& if s.len() < 8 || !whole_sectors(s) {
                r is None
            } else {
                r matches Some(d) && d@ == s.subrange(8, 8 + 512 * n)
            }
        }),
{
    let avail: usize = ring.available();
    if avail < 8 {
        return None;
    }
    let n: u64 = ring.field64(0);
    if n == 0 || n > DISK_MAX_SECTORS as u64 || (avail as u64) < 8 + n * 512 {
        ring.discard();
        return None;
    }
    let len: usize = n as usize * 512;
    let data: Vec<u8> = ring.peek(8, len);
    ring.consume(8 + len);
    Some(data)
}

/// Writes a request to the file system server, if there is room for it.
pub fn fs_req_write(ring: &mut Ring, tag: u32, w0: u64, w1: u64, payload: &[u8]) -> (ok: bool)
    requires
        old(ring).wf(),
        payload.len() <= 0xFFEB,
    ensures
        final(ring).wf(),
        ok == old(ring).fits(20 + payload@.len() as int),
        final(ring)@ == (if ok {
            old(ring)@ + ring::request(tag, w0, w1, payload@)
        } else {
            old(ring)@
        }),
        ok ==> ring::writer_moved(*old(ring), *final(ring), ring::request(tag, w0, w1, payload@)),
        !ok ==> ring::untouched(*old(ring), *final(ring)),
{
    if ring.available() + 20 + payload.len() >= ring::RING_DATA_CAP {
        return false;
    }
    let f: Vec<u8> = request_frame(tag, w0, w1, payload);
    ring.put(&f);
    true
}

/// Takes back the request that was written last.
pub fn fs_req_rollback(ring: &mut Ring, frame_len: usize)
    requires
        old(ring).wf(),
        frame_len <= old(ring)@.len(),
    ensures
        final(ring).wf(),
        final(ring)@ == old(ring)@.take(old(ring)@.len() - frame_len),
        final(ring).page() == old(ring).page(),
        final(ring).head_pos() == (old(ring).head_pos() + ring::RING_DATA_CAP - frame_len) % (
        ring::RING_DATA_CAP as int),
        final(ring).tail_pos() == old(ring).tail_pos(),
{
    ring.unput(frame_len);
}

/// A request that could not be sent is taken back: the ring is as before.
pub proof fn law_rollback_undoes_write(
    s: Seq<u8>,
    tag: u32,
    w0: u64,
    w1: u64,
    payload: Seq<u8>,
)
    ensures
        (s + ring::request(tag, w0, w1, payload)).take(
            (s + ring::request(tag, w0, w1, payload)).len() - (20 + payload.len()),
        ) == s,
{
    ring::law_request_reads_back(tag, w0, w1, payload, Seq::empty());
    let f = ring::request(tag, w0, w1, payload);
    assert(f + Seq::<u8>::empty() =~= f);
    assert((s + f).take((s + f).len() - (20 + payload.len())) =~= s);
}

/// The result in the next response of the file system server, which is taken
/// out of the ring. `None` if there is none.
pub fn fs_resp_read(ring: &mut Ring) -> (r: Option<u64>)
    requires
        old(ring).wf(),
    ensures
        final(ring).wf(),
        ring::reader_moved(*old(ring), *final(ring)),
        if old(ring)@.len() < 16 {
            r is None && final(ring)@ == old(ring)@
        } else {
            &&& r matches Some(v) && v == bytes::le_value(old(ring)@, 0, 8)
            &&& final(ring)@ == old(ring)@.skip(16)
        },
{
    if ring.available() < 16 {
        return None;
    }
    let v: u64 = ring.field64(0);
    ring.consume(16);
    Some(v)
}

/// Empties both rings.
pub fn fs_rings_reset(req: &mut Ring, resp: &mut Ring)
    requires
        old(req).wf(),
        old(resp).wf(),
    ensures
        final(req).wf(),
        final(resp).wf(),
        final(req)@ == Seq::<u8>::empty(),
        final(req).head_pos() == 0,
        final(req).tail_pos() == 0,
        final(req).page() == old(req).page(),
        final(resp)@ == Seq::<u8>::empty(),
        final(resp).head_pos() == 0,
        final(resp).tail_pos() == 0,
        final(resp).page() == old(resp).page(),
{
    req.reset();
    resp.reset();
}

/// A name in a ring is taken out whole: what follows it is left. Sectors are
/// taken out as many as they are announced.
pub proof fn law_names_and_sectors_are_taken_whole(name: Seq<u8>, data: Seq<u8>, n: nat, rest: Seq<u8>)
    requires
        0 < name.len() <= DISK_MAX_NAME,
        1 <= n <= DISK_MAX_SECTORS,
        data.len() == 512 * n,
    ensures
        ({
            let s = bytes::le_bytes(name.len(), 8) + name + rest;
            &&& whole_name(s)
            &&& s.subrange(8, 8 + first_word(s) as int) == name
            &&& past_name(s) == rest
        }),
        ({
            let s = bytes::le_bytes(n, 8) + data + rest;
            &&& whole_sectors(s)
            &&& first_word(s) == n
            &&& s.subrange(8, 8 + 512 * n as int) == data
            &&& past_sectors(s) == rest
        }),
{
    bytes::lemma_le_bytes_len(name.len(), 8);
    bytes::lemma_le_bytes_len(n, 8);
    ring::lemma_pow256();
    let s = bytes::le_bytes(name.len(), 8) + name + rest;
    assert(s.subrange(0, 8) =~= bytes::le_bytes(name.len(), 8));
    bytes::lemma_le_round_trip(s, 0, name.len(), 8);
    assert(s.subrange(8, 8 + name.len() as int) =~= name);
    assert(s.skip(8 + name.len() as int) =~= rest);
    let t = bytes::le_bytes(n, 8) + data + rest;
    assert(t.subrange(0, 8) =~= bytes::le_bytes(n, 8));
    bytes::lemma_le_round_trip(t, 0, n, 8);
    assert(t.subrange(8, 8 + 512 * n as int) =~= data);
    assert(t.skip(8 + 512 * n as int) =~= rest);
}

} // verus!
