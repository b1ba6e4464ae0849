//! Pipes: byte queues between descriptors. Nothing ever blocks: the caller of
//! an empty or full pipe tries again.
use std::collections::BTreeMap;
use std::collections::VecDeque;
use vstd::prelude::*;

verus! {

broadcast use vstd::std_specs::btree::group_btree_axioms;

pub const PIPE_DEFAULT_CAP: usize = 8192;

/// A smaller hint asks for the default.
pub const PIPE_MIN_CAP: usize = 4096;

pub const PIPE_MAX_CAP: usize = 16384;

/// The bytes under way, how many fit, and how many ends are open.
pub struct PipeBuf {
    data: VecDeque<u8>,
    cap: usize,
    r_open: u32,
    w_open: u32,
}

/// A pipe as a value.
#[verifier::ext_equal]
pub struct PipeView {
    pub data: Seq<u8>,
    pub cap: nat,
    pub readers: nat,
    pub writers: nat,
}

pub struct PipeTable {
    pipes: BTreeMap<u32, PipeBuf>,
    next: u32,
}

/// The capacity that a hint asks for.
pub open spec fn capacity_for(hint: usize) -> nat {
    if hint < PIPE_MIN_CAP {
        PIPE_DEFAULT_CAP as nat
    } else if hint > PIPE_MAX_CAP {
        PIPE_MAX_CAP as nat
    } else {
        hint as nat
    }
}

/// The id behind another one; that behind the last is 1.
pub open spec fn id_after(id: u32) -> u32 {
    if id == u32::MAX {
        1
    } else {
        (id + 1) as u32
    }
}

/// An id that comes before `id` when they are gone through from `start` on.
pub open spec fn passed(start: u32, id: u32, k: u32) -> bool {
    k != 0 && if start <= id {
        start <= k < id
    } else {
        start <= k || k < id
    }
}

/// A pipe with one end more.
pub open spec fn one_more(p: PipeView, write: bool) -> PipeView {
    if write {
        PipeView { writers: p.writers + 1, ..p }
    } else {
        PipeView { readers: p.readers + 1, ..p }
    }
}

/// A pipe with one end less.
pub open spec fn one_less(p: PipeView, write: bool) -> PipeView {
    if write {
        PipeView {
            writers: if p.writers > 0 {
                (p.writers - 1) as nat
            } else {
                0
            },
            ..p
        }
    } else {
        PipeView {
            readers: if p.readers > 0 {
                (p.readers - 1) as nat
            } else {
                0
            },
            ..p
        }
    }
}

/// The pipes once an end of `id` was closed; a pipe without ends is gone.
pub open spec fn after_close(m: Map<u32, PipeView>, id: u32, write: bool) -> Map<u32, PipeView> {
    if m.contains_key(id) {
        let p = one_less(m[id], write);
        if p.readers == 0 && p.writers == 0 {
            m.remove(id)
        } else {
            m.insert(id, p)
        }
    } else {
        m
    }
}

pub open spec fn smaller(a: int, b: int) -> int {
    if a <= b {
        a
    } else {
        b
    }
}

impl PipeBuf {
    pub closed spec fn view(&self) -> PipeView {
        PipeView {
            data: self.data@,
            cap: self.cap as nat,
            readers: self.r_open as nat,
            writers: self.w_open as nat,
        }
    }
}

impl PipeTable {
    pub closed spec fn view(&self) -> Map<u32, PipeView> {
        Map::new(
            |id: u32| self.pipes@.contains_key(id),
            |id: u32| self.pipes@[id]@,
        )
    }

    /// The id from which on a free one is looked for.
    pub closed spec fn next_id(&self) -> u32 {
        if self.next == 0 {
            1
        } else {
            self.next
        }
    }

    /// Ids are never 0, and no pipe holds more than fits.
    pub open spec fn wf(&self) -> bool {
        &&& !self@.contains_key(0)
        &&& forall|id: u32| #[trigger]
            self@.contains_key(id) ==> self@[id].data.len() <= self@[id].cap && self@[id].cap
                <= PIPE_MAX_CAP
    }

    pub fn new() -> (r: PipeTable)
        ensures
            r@ == Map::<u32, PipeView>::empty(),
            r.next_id() == 1,
            r.wf(),
    {
        let r = PipeTable { pipes: BTreeMap::new(), next: 1 };
        assert(r@ =~= Map::<u32, PipeView>::empty());
        r
    }

    /// Some id is not taken.
    pub open spec fn has_room(&self) -> bool {
        exists|id: u32| id != 0 && !#[trigger] self@.contains_key(id)
    }

    /// Whether another pipe can be made.
    pub fn can_create(&self) -> (r: bool)
        ensures
            r == self.has_room(),
    {
        let mut id: u32 = 1;
        while id < u32::MAX && self.pipes.contains_key(&id)
            invariant
                1 <= id,
                forall|k: u32| 0 < k < id ==> #[trigger] self.pipes@.contains_key(k),
            decreases u32::MAX - id,
        {
            id = id + 1;
        }
        let free: bool = !self.pipes.contains_key(&id);
        proof {
            if free {
                assert(!self@.contains_key(id));
            } else {
                assert forall|k: u32| k != 0 implies #[trigger] self@.contains_key(k) by {
                    assert(self.pipes@.contains_key(k));
                }
            }
        }
        free
    }

    /// Makes a pipe with both ends open once. Returns its id, the first free one
    /// behind that of the last pipe.
    pub fn create(&mut self, hint: usize) -> (id: u32)
        requires
            old(self).wf(),
            old(self).has_room(),
        ensures
            final(self).wf(),
            id != 0,
            !old(self)@.contains_key(id),
            forall|k: u32|
                passed(old(self).next_id(), id, k) ==> #[trigger] old(self)@.contains_key(k),
            final(self).next_id() == id_after(id),
            final(self)@ == old(self)@.insert(
                id,
                (PipeView {
                    data: Seq::empty(),
                    cap: capacity_for(hint),
                    readers: 1,
                    writers: 1,
                }),
            ),
    {
        let cap: usize = if hint < PIPE_MIN_CAP {
            PIPE_DEFAULT_CAP
        } else if hint > PIPE_MAX_CAP {
            PIPE_MAX_CAP
        } else {
            hint
        };
        let start: u32 = if self.next == 0 {
            1
        } else {
            self.next
        };
        let mut id: u32 = start;
        let mut tried: u64 = 0;
        while self.pipes.contains_key(&id)
            invariant
                id != 0,
                start != 0,
                tried < 0xFFFF_FFFF,
                old(self).has_room(),
                self.pipes@ == old(self).pipes@,
                tried <= 0xFFFF_FFFF - start ==> id == start + tried,
                tried > 0xFFFF_FFFF - start ==> id == start + tried - 0xFFFF_FFFF,
                forall|k: u32|
                    k != 0 && ((start <= k && k - start < tried) || (k < start && k + 0xFFFF_FFFF
                        - start < tried)) ==> #[trigger] self.pipes@.contains_key(k),
            decreases 0xFFFF_FFFF - tried,
        {
            tried = tried + 1;
            proof {
                if tried == 0xFFFF_FFFF {
                    assert forall|k: u32| k != 0 implies #[trigger] old(self)@.contains_key(k) by {
                        assert(self.pipes@.contains_key(k));
                    }
                    assert(false);
                }
            }
            id = if id == 0xFFFF_FFFF {
                1
            } else {
                id + 1
            };
        }
        assert forall|k: u32| passed(start, id, k) implies #[trigger] old(self)@.contains_key(k) by {
            assert(self.pipes@.contains_key(k));
        }
        self.next = if id == 0xFFFF_FFFF {
            1
        } else {
            id + 1
        };
        self.pipes.insert(id, PipeBuf { data: VecDeque::new(), cap, r_open: 1, w_open: 1 });
        assert(self@ =~= old(self)@.insert(
            id,
            PipeView { data: Seq::empty(), cap: capacity_for(hint), readers: 1, writers: 1 },
        ));
        id
    }

    /// Another end of a pipe is opened. False if there is no such pipe.
    pub fn end_opened(&mut self, id: u32, write: bool) -> (ok: bool)
        requires
            old(self).wf(),
            old(self)@.contains_key(id) ==> old(self)@[id].readers < u32::MAX
                && old(self)@[id].writers < u32::MAX,
        ensures
            final(self).wf(),
            final(self).next_id() == old(self).next_id(),
            ok == old(self)@.contains_key(id),
            final(self)@ == (if ok {
                old(self)@.insert(id, one_more(old(self)@[id], write))
            } else {
                old(self)@
            }),
    {
        let ghost before = self@;
        assert(before.contains_key(id) == self.pipes@.contains_key(id));
        match self.pipes.remove(&id) {
            Some(p) => {
                let mut p = p;
                if write {
                    p.w_open = p.w_open + 1;
                } else {
                    p.r_open = p.r_open + 1;
                }
                self.pipes.insert(id, p);
                assert(self@ =~= before.insert(id, one_more(before[id], write)));
                true
            },
            None => {
                assert(self@ =~= before);
                false
            },
        }
    }

    /// An end of a pipe is closed; without ends the pipe is gone.
    pub fn end_closed(&mut self, id: u32, write: bool)
        requires
            old(self).wf(),
        ensures
            final(self).wf(),
            final(self).next_id() == old(self).next_id(),
            final(self)@ == after_close(old(self)@, id, write),
    {
        let ghost before = self@;
        assert(before.contains_key(id) == self.pipes@.contains_key(id));
        match self.pipes.remove(&id) {
            Some(p) => {
                let mut p = p;
                if write {
                    p.w_open = if p.w_open > 0 {
                        p.w_open - 1
                    } else {
                        0
                    };
                } else {
                    p.r_open = if p.r_open > 0 {
                        p.r_open - 1
                    } else {
                        0
                    };
                }
                if !(p.r_open == 0 && p.w_open == 0) {
                    self.pipes.insert(id, p);
                }
            },
            None => {},
        }
        assert(self@ =~= after_close(before, id, write));
    }

    /// Takes up to `out.len()` bytes out of a pipe. Returns how many, and
    /// whether no one can write any more: nothing read then means the end.
    pub fn read(&mut self, id: u32, out: &mut [u8]) -> (r: Option<(usize, bool)>)
        requires
            old(self).wf(),
        ensures
            final(self).wf(),
            final(self).next_id() == old(self).next_id(),
            final(out)@.len() == old(out)@.len(),
            (r is Some) == old(self)@.contains_key(id),
            match r {
                Some((n, eof)) => {
                    let p = old(self)@[id];
                    &&& n == smaller(old(out)@.len() as int, p.data.len() as int)
                    &&& eof == (p.writers == 0)
                    &&& final(out)@ == p.data.take(n as int) + old(out)@.skip(n as int)
                    &&& final(self)@ == old(self)@.insert(
                        id,
                        (PipeView { data: p.data.skip(n as int), ..p }),
                    )
                },
                None => final(self)@ == old(self)@ && final(out)@ == old(out)@,
            },
    {
        let ghost before = self@;
        assert(before.contains_key(id) == self.pipes@.contains_key(id));
        match self.pipes.remove(&id) {
            Some(p) => {
                let mut p = p;
                let ghost d = p.data@;
                let mut n: usize = 0;
                while n < out.len() && p.data.len() > 0
                    invariant
                        n <= out@.len(),
                        n <= d.len(),
                        out@.len() == old(out)@.len(),
                        p.data@ == d.skip(n as int),
                        p.cap == before[id].cap,
                        p.r_open == before[id].readers,
                        p.w_open == before[id].writers,
                        out@ == d.take(n as int) + old(out)@.skip(n as int),
                    decreases out@.len() - n,
                {
                    match p.data.pop_front() {
                        Some(b) => {
                            out[n] = b;
                            n += 1;
                            assert(p.data@ =~= d.skip(n as int));
                            assert(out@ =~= d.take(n as int) + old(out)@.skip(n as int));
                        },
                        None => {},
                    }
                }
                let eof: bool = p.w_open == 0;
                self.pipes.insert(id, p);
                assert(self@ =~= before.insert(
                    id,
                    PipeView { data: before[id].data.skip(n as int), ..before[id] },
                ));
                Some((n, eof))
            },
            None => {
                assert(self@ =~= before);
                None
            },
        }
    }

    /// Puts as many bytes as fit into a pipe. Returns how many; `None` if there
    /// is no such pipe or no one reads it.
    pub fn write(&mut self, id: u32, data: &[u8]) -> (r: Option<usize>)
        requires
            old(self).wf(),
        ensures
            final(self).wf(),
            final(self).next_id() == old(self).next_id(),
            (r is Some) == (old(self)@.contains_key(id) && old(self)@[id].readers > 0),
            match r {
                Some(n) => {
                    let p = old(self)@[id];
                    &&& n == smaller(data@.len() as int, p.cap - p.data.len())
                    &&& final(self)@ == old(self)@.insert(
                        id,
                        (PipeView { data: p.data + data@.take(n as int), ..p }),
                    )
                },
                None => final(self)@ == old(self)@,
            },
    {
        let ghost before = self@;
        assert(before.contains_key(id) == self.pipes@.contains_key(id));
        match self.pipes.remove(&id) {
            Some(p) => {
                let mut p = p;
                if p.r_open == 0 {
                    self.pipes.insert(id, p);
                    assert(self@ =~= before);
                    return None;
                }
                let ghost d = p.data@;
                let mut n: usize = 0;
                while n < data.len() && p.data.len() < p.cap
                    invariant
                        n <= data@.len(),
                        d.len() + n <= p.cap,
                        p.data@ == d + data@.take(n as int),
                        p.cap == before[id].cap,
                        p.r_open == before[id].readers,
                        p.w_open == before[id].writers,
                    decreases data@.len() - n,
                {
                    p.data.push_back(data[n]);
                    n += 1;
                    assert(p.data@ =~= d + data@.take(n as int));
                }
                self.pipes.insert(id, p);
                assert(self@ =~= before.insert(
                    id,
                    PipeView { data: before[id].data + data@.take(n as int), ..before[id] },
                ));
                Some(n)
            },
            None => {
                assert(self@ =~= before);
                None
            },
        }
    }

    /// Whether someone can read a pipe.
    pub fn has_readers(&self, id: u32) -> (r: bool)
        ensures
            r == (self@.contains_key(id) && self@[id].readers > 0),
    {
        assert(self@.contains_key(id) == self.pipes@.contains_key(id));
        match self.pipes.get(&id) {
            Some(p) => p.r_open > 0,
            None => false,
        }
    }

    /// Whether another end of a pipe can be counted.
    pub fn can_open(&self, id: u32) -> (r: bool)
        ensures
            r == (self@.contains_key(id) ==> self@[id].readers < u32::MAX && self@[id].writers
                < u32::MAX),
    {
        assert(self@.contains_key(id) == self.pipes@.contains_key(id));
        match self.pipes.get(&id) {
            Some(p) => p.r_open < u32::MAX && p.w_open < u32::MAX,
            None => true,
        }
    }
}

/// A pipe keeps the order of bytes: what is written comes out behind what was
/// there, first in first out.
pub proof fn law_pipe_is_fifo(p: PipeView, written: Seq<u8>, n: int)
    requires
        p.data.len() + written.len() <= p.cap,
        0 <= n <= p.data.len() + written.len(),
    ensures
        (p.data + written).take(n) + (p.data + written).skip(n) == p.data + written,
        n <= p.data.len() ==> (p.data + written).take(n) == p.data.take(n),
        n >= p.data.len() ==> (p.data + written).take(n) == p.data + written.take(
            n - p.data.len(),
        ),
{
    assert((p.data + written).take(n) + (p.data + written).skip(n) =~= p.data + written);
    if n <= p.data.len() {
        assert((p.data + written).take(n) =~= p.data.take(n));
    }
    if n >= p.data.len() {
        assert((p.data + written).take(n) =~= p.data + written.take(n - p.data.len()));
    }
}

/// Opening an end and closing it again leaves a pipe as it was, if an end was
/// open before.
pub proof fn law_open_then_close(m: Map<u32, PipeView>, id: u32, write: bool)
    requires
        m.contains_key(id),
        m[id].readers > 0 || m[id].writers > 0,
    ensures
        after_close(m.insert(id, one_more(m[id], write)), id, write) == m,
{
    assert(after_close(m.insert(id, one_more(m[id], write)), id, write) =~= m);
}

} // verus!
