//! Direct memory access: the table that tells the controller where the data
//! is, and the counters of the engine.
use vstd::prelude::*;

use super::block::AtaDisk;
use crate::bytes;
use crate::bytes::push_le;

verus! {

/// How many entries a table has at most.
pub const PRD_MAX_ENTRIES: usize = 8;

/// Where the data starts on the page that begins with the table.
pub const DATA_OFF: u64 = 64;

/// After how many transfers the counters are worth a line.
pub const STAT_EVERY: u64 = 512;

/// How many bytes there are from a position to the next 64K boundary.
pub open spec fn to_boundary(p: int) -> int {
    0x1_0000 - p % 0x1_0000
}

/// The pieces of `len` bytes at a position, from `off` on: none crosses a 64K
/// boundary.
pub open spec fn pieces(phys: int, off: int, len: int) -> Seq<(int, int)>
    decreases len - off,
{
    if off >= len {
        Seq::empty()
    } else {
        let b = to_boundary(phys + off);
        let run = if len - off > b {
            b
        } else {
            len - off
        };
        seq![(phys + off, run)] + pieces(phys, off + run, len)
    }
}

/// Each piece begins where the one before ends, they are `len` bytes in all,
/// and none crosses a 64K boundary.
pub open spec fn covers(ps: Seq<(int, int)>, phys: int, len: int) -> bool
    decreases ps.len(),
{
    if ps.len() == 0 {
        len == 0
    } else {
        let (p, n) = ps[0];
        p == phys && 0 < n <= len && phys / 0x1_0000 == (phys + n - 1) / 0x1_0000 && covers(
            ps.skip(1),
            phys + n,
            len - n,
        )
    }
}

/// The pieces cover the whole, in order, and stay within 64K boundaries.
pub proof fn law_pieces_cover(phys: int, off: int, len: int)
    requires
        0 <= phys,
        0 <= off <= len,
    ensures
        covers(pieces(phys, off, len), phys + off, len - off),
    decreases len - off,
{
    if off < len {
        let b = to_boundary(phys + off);
        let run = if len - off > b {
            b
        } else {
            len - off
        };
        law_pieces_cover(phys, off + run, len);
        assert(pieces(phys, off, len).skip(1) =~= pieces(phys, off + run, len));
    }
}

/// An entry: where, how much, and whether it is the last.
pub open spec fn table_entry(p: (int, int), last: bool) -> Seq<u8> {
    bytes::le_bytes(p.0 as nat, 4) + bytes::le_bytes(p.1 as nat, 2) + seq![
        0u8,
        if last {
            0x80u8
        } else {
            0u8
        },
    ]
}

/// The table for pieces.
pub open spec fn table_of(ps: Seq<(int, int)>) -> Seq<u8>
    decreases ps.len(),
{
    if ps.len() == 0 {
        Seq::empty()
    } else {
        table_entry(ps[0], ps.len() == 1) + table_of(ps.skip(1))
    }
}

/// A transfer that the controller can be told: up to seven sectors, below 4G.
pub open spec fn reachable(phys: u64, len: usize) -> bool {
    0 < len <= 3584 && phys + len <= 0x1_0000_0000
}

/// The table for `len` bytes at a physical address; `None` if the controller
/// cannot reach them.
pub fn build_prd(phys: u64, len: usize) -> (r: Option<Vec<u8>>)
    ensures
        match r {
            Some(t) => reachable(phys, len) && t@ == table_of(pieces(phys as int, 0, len as int))
                && t@.len() <= 16,
            None => !reachable(phys, len),
        },
{
    if len == 0 || len > 3584 {
        return None;
    }
    if phys > 0x1_0000_0000 || phys + len as u64 > 0x1_0000_0000 {
        return None;
    }
    let total: u64 = len as u64;
    let b: u64 = 0x1_0000 - phys % 0x1_0000;
    let mut t: Vec<u8> = Vec::new();
    if total > b {
        let rest: u64 = total - b;
        push_entry(&mut t, phys, b, false);
        push_entry(&mut t, phys + b, rest, true);
        proof {
            let ps = pieces(phys as int, 0, len as int);
            reveal_with_fuel(pieces, 4);
            reveal_with_fuel(table_of, 4);
            assert((phys + b) % 0x1_0000 == 0);
            assert(ps =~= seq![(phys as int, b as int), ((phys + b) as int, rest as int)]);
            assert(ps.skip(1) =~= seq![((phys + b) as int, rest as int)]);
            assert(ps.skip(1).skip(1) =~= Seq::empty());
            assert(t@ =~= table_of(ps));
            lemma_entry_len((phys as int, b as int), false);
            lemma_entry_len(((phys + b) as int, rest as int), true);
        }
    } else {
        push_entry(&mut t, phys, total, true);
        proof {
            let ps = pieces(phys as int, 0, len as int);
            reveal_with_fuel(pieces, 3);
            reveal_with_fuel(table_of, 3);
            assert(ps =~= seq![(phys as int, total as int)]);
            assert(ps.skip(1) =~= Seq::empty());
            assert(t@ =~= table_of(ps));
            lemma_entry_len((phys as int, total as int), true);
        }
    }
    Some(t)
}

proof fn lemma_entry_len(p: (int, int), last: bool)
    ensures
        table_entry(p, last).len() == 8,
{
    bytes::lemma_le_bytes_len(p.0 as nat, 4);
    bytes::lemma_le_bytes_len(p.1 as nat, 2);
}

fn push_entry(t: &mut Vec<u8>, base: u64, run: u64, last: bool)
    ensures
        final(t)@ == old(t)@ + table_entry((base as int, run as int), last),
{
    push_le(t, base, 4);
    push_le(t, run, 2);
    t.push(0);
    t.push(
        if last {
            0x80
        } else {
            0
        },
    );
    assert(t@ =~= old(t)@ + table_entry((base as int, run as int), last));
}

/// The engine: the ports of the controller, the page that it works on, and how
/// many transfers went well, went another way, and how they were waited for.
#[derive(Clone, Copy, PartialEq, Eq, Debug, Structural)]
pub struct DmaEngine {
    pub bmiba: u16,
    pub staging_phys: u64,
    pub dma_ok: u64,
    pub dma_fb: u64,
    pub irq_drained: u64,
    pub ev_wait: u64,
    pub ev_fast: u64,
    pub ev_abort: u64,
}

/// The engine once a transfer went well, or another way.
pub open spec fn noted(e: DmaEngine, ok: bool) -> DmaEngine {
    if ok {
        DmaEngine { dma_ok: e.dma_ok.wrapping_add(1), ..e }
    } else {
        DmaEngine { dma_fb: e.dma_fb.wrapping_add(1), ..e }
    }
}

impl DmaEngine {
    /// An engine, if the controller has ports for it, a disk has a mode for
    /// it, and a page could be had.
    pub fn init(bmiba: Option<u16>, modes: &[Option<u8>], page: Option<u64>) -> (r: Option<
        DmaEngine,
    >)
        ensures
            r == (if bmiba is Some && page is Some && exists|i: int|
                0 <= i < modes@.len() && (#[trigger] modes@[i]) is Some {
                Some(
                    DmaEngine {
                        bmiba: bmiba->0,
                        staging_phys: page->0,
                        dma_ok: 0,
                        dma_fb: 0,
                        irq_drained: 0,
                        ev_wait: 0,
                        ev_fast: 0,
                        ev_abort: 0,
                    },
                )
            } else {
                None
            }),
    {
        let mut any: bool = false;
        let mut i: usize = 0;
        while i < modes.len()
            invariant
                i <= modes@.len(),
                any == exists|k: int| 0 <= k < i && (#[trigger] modes@[k]) is Some,
            decreases modes@.len() - i,
        {
            if modes[i].is_some() {
                assert(modes@[i as int] is Some);
                any = true;
            }
            i += 1;
        }
        match (bmiba, page) {
            (Some(b), Some(p)) => {
                if any {
                    Some(
                        DmaEngine {
                            bmiba: b,
                            staging_phys: p,
                            dma_ok: 0,
                            dma_fb: 0,
                            irq_drained: 0,
                            ev_wait: 0,
                            ev_fast: 0,
                            ev_abort: 0,
                        },
                    )
                } else {
                    None
                }
            },
            _ => None,
        }
    }

    /// Counts a transfer. True if the counters are worth a line now.
    pub fn note(&mut self, ok: bool) -> (due: bool)
        ensures
            *final(self) == noted(*old(self), ok),
            due == (final(self).dma_ok.wrapping_add(final(self).dma_fb) % STAT_EVERY == 0),
    {
        if ok {
            self.dma_ok = self.dma_ok.wrapping_add(1);
        } else {
            self.dma_fb = self.dma_fb.wrapping_add(1);
        }
        self.dma_ok.wrapping_add(self.dma_fb) % STAT_EVERY == 0
    }

    /// Counts an interrupt that no one waited for.
    pub fn note_irq_drained(&mut self)
        ensures
            *final(self) == (DmaEngine {
                irq_drained: old(self).irq_drained.wrapping_add(1),
                ..*old(self)
            }),
    {
        self.irq_drained = self.irq_drained.wrapping_add(1);
    }

    /// Counts a transfer whose end an interrupt told.
    pub fn note_ev_wait(&mut self)
        ensures
            *final(self) == (DmaEngine {
                ev_wait: old(self).ev_wait.wrapping_add(1),
                ..*old(self)
            }),
    {
        self.ev_wait = self.ev_wait.wrapping_add(1);
    }

    /// Counts a transfer that was over before it was waited for.
    pub fn note_ev_fast(&mut self)
        ensures
            *final(self) == (DmaEngine {
                ev_fast: old(self).ev_fast.wrapping_add(1),
                ..*old(self)
            }),
    {
        self.ev_fast = self.ev_fast.wrapping_add(1);
    }

    /// Counts a transfer that was given up because who asked for it is gone.
    pub fn note_ev_abort(&mut self)
        ensures
            *final(self) == (DmaEngine {
                ev_abort: old(self).ev_abort.wrapping_add(1),
                ..*old(self)
            }),
    {
        self.ev_abort = self.ev_abort.wrapping_add(1);
    }

    /// Whether a transfer is over, well or not, by the status of the
    /// controller.
    pub fn is_done(&self, st: u8) -> (r: bool)
        ensures
            r == ((st / 4) % 2 == 1 || (st / 2) % 2 == 1),
    {
        (st / 4) % 2 == 1 || (st / 2) % 2 == 1
    }

    /// Prepares a transfer of `n` sectors for a drive with `room` bytes in
    /// memory: the table for the page. `None`, and counted as going another
    /// way, where the engine cannot do it.
    pub fn start_dma(&mut self, disk: &AtaDisk, n: usize, room: usize) -> (r: Option<Vec<u8>>)
        requires
            old(self).staging_phys <= u64::MAX - 64,
        ensures
            ({
                let can = 1 <= n <= 7 && room >= n * 512 && disk.lba48 && reachable(
                    (old(self).staging_phys + DATA_OFF) as u64,
                    (n * 512) as usize,
                );
                match r {
                    Some(t) => can && *final(self) == *old(self) && t@ == table_of(
                        pieces(old(self).staging_phys + DATA_OFF, 0, n * 512),
                    ),
                    None => !can && *final(self) == noted(*old(self), false),
                }
            }),
    {
        if n == 0 || n > 7 || room < n * 512 || !disk.lba48 {
            self.note(false);
            return None;
        }
        match build_prd(self.staging_phys + DATA_OFF, n * 512) {
            Some(t) => Some(t),
            None => {
                self.note(false);
                None
            },
        }
    }

    /// The end of a transfer: well, if neither the controller nor the drive
    /// tell of an error and, for a write, the drive has put everything on its
    /// disk.
    pub fn finish_dma(&mut self, controller: u8, drive: u8, flushed: bool, write: bool) -> (ok:
        bool)
        ensures
            ok == ((controller / 2) % 2 == 0 && drive % 2 == 0 && (write ==> flushed)),
            *final(self) == noted(*old(self), ok),
    {
        let ok: bool = (controller / 2) % 2 == 0 && drive % 2 == 0 && (!write || flushed);
        self.note(ok);
        ok
    }
}

} // verus!
