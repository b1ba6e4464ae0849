//! Rings: byte queues in a shared page, with one writer and one reader.
use vstd::prelude::*;

use crate::bytes;
use crate::bytes::push_le;

verus! {

/// How many bytes of the page are data. One of them always stays free.
pub const RING_DATA_CAP: usize = 4088;

/// A ring. The writer moves the head, the reader the tail.
pub struct Ring {
    data: Vec<u8>,
    head: u32,
    tail: u32,
}

/// How many bytes lie between tail and head.
pub open spec fn distance(head: int, tail: int) -> int {
    if head >= tail {
        head - tail
    } else {
        head + RING_DATA_CAP - tail
    }
}

/// The page with bytes laid out from a position on, round the end of it.
pub open spec fn laid(d: Seq<u8>, pos: int, s: Seq<u8>) -> Seq<u8>
    decreases s.len(),
{
    if s.len() == 0 {
        d
    } else {
        laid(d, pos, s.drop_last()).update(
            (pos + s.len() - 1) % (RING_DATA_CAP as int),
            s.last(),
        )
    }
}

pub proof fn lemma_laid(d: Seq<u8>, pos: int, s: Seq<u8>)
    requires
        d.len() == RING_DATA_CAP,
        0 <= pos < RING_DATA_CAP,
        s.len() <= RING_DATA_CAP,
    ensures
        laid(d, pos, s).len() == d.len(),
        forall|p: int|
            0 <= p < RING_DATA_CAP ==> #[trigger] laid(d, pos, s)[p] == (if distance(p, pos)
                < s.len() {
                s[distance(p, pos)]
            } else {
                d[p]
            }),
    decreases s.len(),
{
    if s.len() > 0 {
        let t = s.drop_last();
        lemma_laid(d, pos, t);
        let q = (pos + s.len() - 1) % (RING_DATA_CAP as int);
        assert(distance(q, pos) == s.len() - 1);
        assert forall|p: int| 0 <= p < RING_DATA_CAP implies #[trigger] laid(d, pos, s)[p] == (
        if distance(p, pos) < s.len() {
            s[distance(p, pos)]
        } else {
            d[p]
        }) by {
            if p != q {
                assert(distance(p, pos) != s.len() - 1);
                assert(laid(d, pos, s)[p] == laid(d, pos, t)[p]);
            }
        }
    }
}

/// What lies between the tail and the head of a page.
pub open spec fn between(d: Seq<u8>, head: int, tail: int) -> Seq<u8> {
    Seq::new(distance(head, tail) as nat, |i: int| d[(tail + i) % (RING_DATA_CAP as int)])
}

proof fn lemma_put(d: Seq<u8>, head: int, tail: int, s: Seq<u8>)
    requires
        d.len() == RING_DATA_CAP,
        0 <= head < RING_DATA_CAP,
        0 <= tail < RING_DATA_CAP,
        distance(head, tail) + s.len() < RING_DATA_CAP,
    ensures
        between(laid(d, head, s), (head + s.len() as int) % (RING_DATA_CAP as int), tail)
            == between(d, head, tail) + s,
{
    lemma_laid(d, head, s);
    let e = laid(d, head, s);
    let h = (head + s.len() as int) % (RING_DATA_CAP as int);
    let n = distance(head, tail);
    let a = between(e, h, tail);
    let b = between(d, head, tail) + s;
    assert(distance(h, tail) == n + s.len());
    assert forall|k: int| 0 <= k < n + s.len() implies #[trigger] a[k] == b[k] by {
        let p = (tail + k) % (RING_DATA_CAP as int);
        assert(0 <= p < RING_DATA_CAP);
        assert(a[k] == e[p]);
        if k < n {
            assert(distance(p, head) >= s.len());
        } else {
            assert(distance(p, head) == k - n);
        }
    }
    assert(a =~= b);
}

/// What a reader does to a ring: it moves the tail on by what it takes out, and
/// leaves the head and the page alone.
pub open spec fn reader_moved(a: Ring, b: Ring) -> bool {
    &&& b.page() == a.page()
    &&& b.head_pos() == a.head_pos()
    &&& b.tail_pos() == (a.tail_pos() + (a@.len() - b@.len())) % (RING_DATA_CAP as int)
}

/// What a writer does to a ring: it lays bytes out from the head on and moves the
/// head behind them, and leaves the tail alone.
pub open spec fn writer_moved(a: Ring, b: Ring, s: Seq<u8>) -> bool {
    &&& b.page() == laid(a.page(), a.head_pos(), s)
    &&& b.head_pos() == (a.head_pos() + s.len()) % (RING_DATA_CAP as int)
    &&& b.tail_pos() == a.tail_pos()
}

/// Nothing of a ring has changed.
pub open spec fn untouched(a: Ring, b: Ring) -> bool {
    b.page() == a.page() && b.head_pos() == a.head_pos() && b.tail_pos() == a.tail_pos()
}

impl Ring {
    pub closed spec fn page(&self) -> Seq<u8> {
        self.data@
    }

    pub closed spec fn head_pos(&self) -> int {
        self.head as int
    }

    pub closed spec fn tail_pos(&self) -> int {
        self.tail as int
    }

    pub open spec fn wf(&self) -> bool {
        self.page().len() == RING_DATA_CAP && 0 <= self.head_pos() < RING_DATA_CAP && 0
            <= self.tail_pos() < RING_DATA_CAP
    }

    /// The bytes that were written and not read yet.
    pub open spec fn view(&self) -> Seq<u8> {
        between(self.page(), self.head_pos(), self.tail_pos())
    }

    pub fn new() -> (r: Ring)
        ensures
            r.wf(),
            r@ == Seq::<u8>::empty(),
            r.page() == bytes::filled(0, RING_DATA_CAP as nat),
            r.head_pos() == 0,
            r.tail_pos() == 0,
    {
        let r = Ring { data: bytes::repeat_byte(0, RING_DATA_CAP), head: 0, tail: 0 };
        assert(r@ =~= Seq::empty());
        r
    }

    /// The ring that a page holds. `None` if it cannot be one.
    pub fn from_page(data: Vec<u8>, head: u32, tail: u32) -> (r: Option<Ring>)
        ensures
            match r {
                Some(x) => x.wf() && x.page() == data@ && x.head_pos() == head && x.tail_pos()
                    == tail,
                None => data@.len() != RING_DATA_CAP || head >= RING_DATA_CAP || tail
                    >= RING_DATA_CAP,
            },
    {
        if data.len() != RING_DATA_CAP || head >= RING_DATA_CAP as u32 || tail
            >= RING_DATA_CAP as u32 {
            return None;
        }
        Some(Ring { data, head, tail })
    }

    pub fn head(&self) -> (r: u32)
        ensures
            r == self.head_pos(),
    {
        self.head
    }

    pub fn tail(&self) -> (r: u32)
        ensures
            r == self.tail_pos(),
    {
        self.tail
    }

    pub fn data(&self) -> (r: &Vec<u8>)
        ensures
            r@ == self.page(),
    {
        &self.data
    }

    /// How many bytes can be read.
    pub fn available(&self) -> (r: usize)
        requires
            self.wf(),
        ensures
            r == self@.len(),
            r < RING_DATA_CAP,
    {
        if self.head >= self.tail {
            (self.head - self.tail) as usize
        } else {
            (self.head + RING_DATA_CAP as u32 - self.tail) as usize
        }
    }

    /// Bytes that can be read, without taking them out.
    pub fn peek(&self, at: usize, n: usize) -> (r: Vec<u8>)
        requires
            self.wf(),
            at + n <= self@.len(),
        ensures
            r@ == self@.subrange(at as int, at + n),
    {
        let mut out: Vec<u8> = Vec::new();
        let mut i: usize = 0;
        while i < n
            invariant
                i <= n,
                self.wf(),
                at + n <= self@.len(),
                self@.len() < RING_DATA_CAP,
                out@ == self@.subrange(at as int, at + i),
            decreases n - i,
        {
            let p: usize = (self.tail as usize + at + i) % RING_DATA_CAP;
            out.push(self.data[p]);
            assert(self@[at + i] == self.page()[p as int]);
            i += 1;
            assert(out@ =~= self@.subrange(at as int, at + i));
        }
        out
    }

    /// Takes bytes out.
    pub fn consume(&mut self, n: usize)
        requires
            old(self).wf(),
            n <= old(self)@.len(),
        ensures
            final(self).wf(),
            final(self)@ == old(self)@.skip(n as int),
            reader_moved(*old(self), *final(self)),
    {
        let used: usize = self.available();
        self.tail = ((self.tail as usize + n) % RING_DATA_CAP) as u32;
        proof {
            let t0 = old(self).tail_pos();
            assert(distance(self.head_pos(), self.tail_pos()) == used - n);
            assert forall|i: int| 0 <= i < used - n implies #[trigger] self@[i] == old(self)@[i
                + n] by {
                assert((self.tail_pos() + i) % (RING_DATA_CAP as int) == (t0 + (i + n)) % (
                RING_DATA_CAP as int));
            }
            assert(self@ =~= old(self)@.skip(n as int));
        }
    }

    /// Throws everything away.
    pub fn discard(&mut self)
        requires
            old(self).wf(),
        ensures
            final(self).wf(),
            final(self)@ == Seq::<u8>::empty(),
            reader_moved(*old(self), *final(self)),
    {
        self.tail = self.head;
        assert(self@ =~= Seq::empty());
    }

    /// Starts anew: head and tail are at the start of the page.
    pub fn reset(&mut self)
        requires
            old(self).wf(),
        ensures
            final(self).wf(),
            final(self)@ == Seq::<u8>::empty(),
            final(self).page() == old(self).page(),
            final(self).head_pos() == 0,
            final(self).tail_pos() == 0,
    {
        self.head = 0;
        self.tail = 0;
        assert(self@ =~= Seq::empty());
    }

    /// Whether bytes fit.
    pub open spec fn fits(&self, n: int) -> bool {
        self@.len() + n < RING_DATA_CAP
    }

    /// Writes bytes from the head on and moves it behind them. If they fit,
    /// they come behind what is in the ring; if they do not, they cover it.
    pub fn put(&mut self, s: &[u8])
        requires
            old(self).wf(),
            s.len() <= 0xFFFF,
        ensures
            final(self).wf(),
            writer_moved(*old(self), *final(self), s@),
            old(self).fits(s@.len() as int) ==> final(self)@ == old(self)@ + s@,
    {
        let ghost d = self.data@;
        let mut i: usize = 0;
        assert(s@.take(0) =~= Seq::empty());
        while i < s.len()
            invariant
                i <= s@.len(),
                s@.len() <= 0xFFFF,
                self.wf(),
                self.head == old(self).head,
                self.tail == old(self).tail,
                d == old(self).data@,
                self.data@ == laid(d, self.head as int, s@.take(i as int)),
            decreases s@.len() - i,
        {
            let p: usize = (self.head as usize + i) % RING_DATA_CAP;
            self.data.set(p, s[i]);
            proof {
                assert(s@.take(i + 1).drop_last() =~= s@.take(i as int));
            }
            i += 1;
        }
        assert(s@.take(i as int) =~= s@);
        self.head = ((self.head as usize + s.len()) % RING_DATA_CAP) as u32;
        proof {
            if old(self).fits(s@.len() as int) {
                lemma_put(d, old(self).head_pos(), self.tail_pos(), s@);
            }
        }
    }

    /// Takes back what was written last.
    pub fn unput(&mut self, n: usize)
        requires
            old(self).wf(),
            n <= old(self)@.len(),
        ensures
            final(self).wf(),
            final(self)@ == old(self)@.take(old(self)@.len() - n),
            final(self).page() == old(self).page(),
            final(self).head_pos() == (old(self).head_pos() + RING_DATA_CAP - n) % (
            RING_DATA_CAP as int),
            final(self).tail_pos() == old(self).tail_pos(),
    {
        let used: usize = self.available();
        self.head = ((self.head as usize + RING_DATA_CAP - n) % RING_DATA_CAP) as u32;
        proof {
            assert(distance(self.head_pos(), self.tail_pos()) == used - n);
            assert(self@ =~= old(self)@.take(used - n));
        }
    }
}

// ── Frames ──

/// A request: what is asked, two words, and a payload.
pub open spec fn request(tag: u32, w0: u64, w1: u64, payload: Seq<u8>) -> Seq<u8> {
    bytes::le_bytes(tag as nat, 4) + bytes::le_bytes(w0 as nat, 8) + bytes::le_bytes(w1 as nat, 8)
        + payload
}

/// A response: two words and a payload.
pub open spec fn response(result: u64, w1: u64, payload: Seq<u8>) -> Seq<u8> {
    bytes::le_bytes(result as nat, 8) + bytes::le_bytes(w1 as nat, 8) + payload
}

/// The bytes of a request.
pub fn request_frame(tag: u32, w0: u64, w1: u64, payload: &[u8]) -> (r: Vec<u8>)
    ensures
        r@ == request(tag, w0, w1, payload@),
        r@.len() == 20 + payload@.len(),
{
    let mut f: Vec<u8> = Vec::new();
    push_le(&mut f, tag as u64, 4);
    push_le(&mut f, w0, 8);
    push_le(&mut f, w1, 8);
    bytes::append_bytes(&mut f, payload);
    proof {
        bytes::lemma_le_bytes_len(tag as nat, 4);
        bytes::lemma_le_bytes_len(w0 as nat, 8);
        bytes::lemma_le_bytes_len(w1 as nat, 8);
        assert(f@ =~= request(tag, w0, w1, payload@));
    }
    f
}

/// The bytes of a response.
pub fn response_frame(result: u64, w1: u64, payload: &[u8]) -> (r: Vec<u8>)
    ensures
        r@ == response(result, w1, payload@),
        r@.len() == 16 + payload@.len(),
{
    let mut f: Vec<u8> = Vec::new();
    push_le(&mut f, result, 8);
    push_le(&mut f, w1, 8);
    bytes::append_bytes(&mut f, payload);
    proof {
        bytes::lemma_le_bytes_len(result as nat, 8);
        bytes::lemma_le_bytes_len(w1 as nat, 8);
        assert(f@ =~= response(result, w1, payload@));
    }
    f
}

pub proof fn lemma_pow256()
    ensures
        vstd::arithmetic::power::pow(256, 4) == 0x1_0000_0000,
        vstd::arithmetic::power::pow(256, 8) == 0x1_0000_0000_0000_0000,
{
    reveal_with_fuel(vstd::arithmetic::power::pow, 9);
}

/// The fields of a request that was laid out read back as they were, and the
/// rest of the bytes is the payload and what came behind it.
pub proof fn law_request_reads_back(tag: u32, w0: u64, w1: u64, payload: Seq<u8>, rest: Seq<u8>)
    ensures
        ({
            let s = request(tag, w0, w1, payload) + rest;
            &&& s.len() == 20 + payload.len() + rest.len()
            &&& bytes::le_value(s, 0, 4) == tag
            &&& bytes::le_value(s, 4, 8) == w0
            &&& bytes::le_value(s, 12, 8) == w1
            &&& s.subrange(20, 20 + payload.len() as int) == payload
            &&& s.skip(20 + payload.len() as int) == rest
        }),
{
    let s = request(tag, w0, w1, payload) + rest;
    bytes::lemma_le_bytes_len(tag as nat, 4);
    bytes::lemma_le_bytes_len(w0 as nat, 8);
    bytes::lemma_le_bytes_len(w1 as nat, 8);
    lemma_pow256();
    assert(s.subrange(0, 4) =~= bytes::le_bytes(tag as nat, 4));
    assert(s.subrange(4, 12) =~= bytes::le_bytes(w0 as nat, 8));
    assert(s.subrange(12, 20) =~= bytes::le_bytes(w1 as nat, 8));
    bytes::lemma_le_round_trip(s, 0, tag as nat, 4);
    bytes::lemma_le_round_trip(s, 4, w0 as nat, 8);
    bytes::lemma_le_round_trip(s, 12, w1 as nat, 8);
    assert(s.subrange(20, 20 + payload.len() as int) =~= payload);
    assert(s.skip(20 + payload.len() as int) =~= rest);
}

/// The fields of a response that was laid out read back as they were.
pub proof fn law_response_reads_back(result: u64, w1: u64, payload: Seq<u8>, rest: Seq<u8>)
    ensures
        ({
            let s = response(result, w1, payload) + rest;
            &&& s.len() == 16 + payload.len() + rest.len()
            &&& bytes::le_value(s, 0, 8) == result
            &&& bytes::le_value(s, 8, 8) == w1
            &&& s.subrange(16, 16 + payload.len() as int) == payload
            &&& s.skip(16 + payload.len() as int) == rest
        }),
{
    let s = response(result, w1, payload) + rest;
    bytes::lemma_le_bytes_len(result as nat, 8);
    bytes::lemma_le_bytes_len(w1 as nat, 8);
    lemma_pow256();
    assert(s.subrange(0, 8) =~= bytes::le_bytes(result as nat, 8));
    assert(s.subrange(8, 16) =~= bytes::le_bytes(w1 as nat, 8));
    bytes::lemma_le_round_trip(s, 0, result as nat, 8);
    bytes::lemma_le_round_trip(s, 8, w1 as nat, 8);
    assert(s.subrange(16, 16 + payload.len() as int) =~= payload);
    assert(s.skip(16 + payload.len() as int) =~= rest);
}

pub proof fn lemma_le_value_sub(s: Seq<u8>, at: int, n: nat, a: int, b: int)
    requires
        0 <= a <= at,
        at + n <= b <= s.len(),
    ensures
        bytes::le_value(s.subrange(a, b), at - a, n) == bytes::le_value(s, at, n),
    decreases n,
{
    if n > 0 {
        lemma_le_value_sub(s, at + 1, (n - 1) as nat, a, b);
    }
}

impl Ring {
    /// A 32-bit field of the bytes that can be read.
    pub fn field32(&self, at: usize) -> (r: u32)
        requires
            self.wf(),
            at + 4 <= self@.len(),
        ensures
            r == bytes::le_value(self@, at as int, 4),
    {
        let b: Vec<u8> = self.peek(at, 4);
        proof {
            lemma_le_value_sub(self@, at as int, 4, at as int, at + 4);
        }
        bytes::read_le32(&b, 0)
    }

    /// A 64-bit field of the bytes that can be read.
    pub fn field64(&self, at: usize) -> (r: u64)
        requires
            self.wf(),
            at + 8 <= self@.len(),
        ensures
            r == bytes::le_value(self@, at as int, 8),
    {
        let b: Vec<u8> = self.peek(at, 8);
        proof {
            lemma_le_value_sub(self@, at as int, 8, at as int, at + 8);
        }
        bytes::read_le64(&b, 0)
    }
}

} // verus!
