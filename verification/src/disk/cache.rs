//! A cache of sectors, by disk and sector number. Writes go through: a sector
//! is in the cache only as it is on the disk.
use vstd::prelude::*;

use crate::fs::block::Image;

verus! {

/// How many sectors are cached.
pub const CACHE_SECTORS: usize = 256;

/// What a write does.
#[derive(Clone, Copy, PartialEq, Eq, Debug, Structural)]
pub enum Policy {
    /// It goes to the disk at once.
    WriteThrough,
}

/// After how many lookups the counters are worth a line.
pub const LOG_EVERY: u64 = 2048;

#[derive(Clone, Copy)]
struct Entry {
    valid: bool,
    disk: u32,
    lba: u64,
    used: bool,
    data: [u8; 512],
}

/// A place in the cache, as a value. `used` gives it a second chance before
/// another sector takes it.
#[verifier::ext_equal]
pub struct Slot {
    pub valid: bool,
    pub disk: u32,
    pub lba: u64,
    pub used: bool,
    pub data: Seq<u8>,
}

pub struct Cache {
    entries: Vec<Entry>,
    hand: usize,
    hits: u64,
    misses: u64,
    inserts: u64,
    next_log_at: u64,
}

impl Entry {
    spec fn view(&self) -> Slot {
        Slot {
            valid: self.valid,
            disk: self.disk,
            lba: self.lba,
            used: self.used,
            data: self.data@,
        }
    }
}

/// Whether a place holds a sector.
pub open spec fn holds(s: Slot, disk: u32, lba: u64) -> bool {
    s.valid && s.disk == disk && s.lba == lba
}

/// The first place that holds a sector; as many as there are, if none does.
pub open spec fn slot_index(s: Seq<Slot>, disk: u32, lba: u64) -> int
    decreases s.len(),
{
    if s.len() == 0 {
        0
    } else {
        let i = slot_index(s.drop_last(), disk, lba);
        if i < s.len() - 1 || holds(s.last(), disk, lba) {
            i
        } else {
            s.len() as int
        }
    }
}

pub proof fn lemma_slot_index(s: Seq<Slot>, disk: u32, lba: u64)
    ensures
        0 <= slot_index(s, disk, lba) <= s.len(),
        slot_index(s, disk, lba) < s.len() ==> holds(s[slot_index(s, disk, lba)], disk, lba),
        forall|i: int| 0 <= i < slot_index(s, disk, lba) ==> !holds(#[trigger] s[i], disk, lba),
    decreases s.len(),
{
    if s.len() > 0 {
        lemma_slot_index(s.drop_last(), disk, lba);
        let d = s.drop_last();
        assert forall|i: int| 0 <= i < slot_index(s, disk, lba) implies !holds(
            #[trigger] s[i],
            disk,
            lba,
        ) by {
            if i < s.len() - 1 {
                assert(d[i] == s[i]);
            }
        }
    }
}

/// Whether a sector is in the cache.
pub open spec fn cached(s: Seq<Slot>, disk: u32, lba: u64) -> bool {
    slot_index(s, disk, lba) < s.len()
}

/// No sector is in the cache twice.
pub open spec fn one_place_each(s: Seq<Slot>) -> bool {
    forall|i: int, j: int|
        0 <= i < j < s.len() && (#[trigger] s[i]).valid && (#[trigger] s[j]).valid ==> s[i].disk
            != s[j].disk || s[i].lba != s[j].lba
}

/// Every sector in the cache is as it is on its disk.
pub open spec fn coherent(s: Seq<Slot>, disks: Seq<Image>) -> bool {
    forall|i: int|
        0 <= i < s.len() && (#[trigger] s[i]).valid && s[i].disk < disks.len()
            ==> disks[s[i].disk as int].dom().contains(s[i].lba)
            && disks[s[i].disk as int][s[i].lba] == s[i].data
}

/// The place after another.
pub open spec fn next_place(h: int) -> int {
    if h + 1 == CACHE_SECTORS {
        0
    } else {
        h + 1
    }
}

/// The clock: from `h` on, places that were used lose their second chance,
/// until one is free or had none. The places, and the one that is taken.
pub open spec fn clock(s: Seq<Slot>, h: int, fuel: nat) -> (Seq<Slot>, int)
    decreases fuel,
{
    if fuel == 0 || !s[h].valid || !s[h].used {
        (s, h)
    } else {
        clock(s.update(h, Slot { used: false, ..s[h] }), next_place(h), (fuel - 1) as nat)
    }
}

/// The places once a sector is taken in, and where the clock stands then.
pub open spec fn taken_in(s: Seq<Slot>, h: int, disk: u32, lba: u64, data: Seq<u8>) -> (
    Seq<Slot>,
    int,
) {
    let i = slot_index(s, disk, lba);
    if i < s.len() {
        (s.update(i, Slot { used: true, data, ..s[i] }), h)
    } else {
        let (t, k) = clock(s, h, 512);
        (t.update(k, Slot { valid: true, disk, lba, used: true, data }), next_place(k))
    }
}

proof fn lemma_clock(s: Seq<Slot>, h: int, fuel: nat)
    requires
        s.len() == CACHE_SECTORS,
        0 <= h < CACHE_SECTORS,
    ensures
        clock(s, h, fuel).0.len() == s.len(),
        0 <= clock(s, h, fuel).1 < CACHE_SECTORS,
        forall|i: int|
            0 <= i < s.len() ==> (#[trigger] clock(s, h, fuel).0[i]) == (Slot {
                used: clock(s, h, fuel).0[i].used,
                ..s[i]
            }),
    decreases fuel,
{
    if fuel == 0 || !s[h].valid || !s[h].used {
    } else {
        let t = s.update(h, Slot { used: false, ..s[h] });
        lemma_clock(t, next_place(h), (fuel - 1) as nat);
        assert forall|i: int| 0 <= i < s.len() implies (#[trigger] clock(s, h, fuel).0[i]) == (
        Slot { used: clock(s, h, fuel).0[i].used, ..s[i] }) by {
            assert(clock(s, h, fuel).0[i] == clock(t, next_place(h), (fuel - 1) as nat).0[i]);
        }
    }
}

/// A sector that was taken in is found with its data, no sector is in two
/// places, and every other sector is as it was or gone.
pub proof fn law_taken_in_is_found(
    s: Seq<Slot>,
    h: int,
    disk: u32,
    lba: u64,
    data: Seq<u8>,
)
    requires
        s.len() == CACHE_SECTORS,
        0 <= h < CACHE_SECTORS,
        one_place_each(s),
    ensures
        ({
            let t = taken_in(s, h, disk, lba, data).0;
            &&& t.len() == s.len()
            &&& one_place_each(t)
            &&& cached(t, disk, lba)
            &&& t[slot_index(t, disk, lba)].data == data
            &&& forall|i: int|
                0 <= i < t.len() && (#[trigger] t[i]).valid && !holds(t[i], disk, lba)
                    ==> s[i].valid && t[i].disk == s[i].disk && t[i].lba == s[i].lba && t[i].data
                    == s[i].data
        }),
        0 <= taken_in(s, h, disk, lba, data).1 < CACHE_SECTORS,
{
    let i = slot_index(s, disk, lba);
    let t = taken_in(s, h, disk, lba, data).0;
    lemma_slot_index(s, disk, lba);
    lemma_slot_index(t, disk, lba);
    let p = if i < s.len() {
        i
    } else {
        lemma_clock(s, h, 512);
        clock(s, h, 512).1
    };
    assert(holds(t[p], disk, lba));
    assert(t[p].data == data);
    assert forall|k: int| 0 <= k < t.len() && k != p implies (#[trigger] t[k]) == (Slot {
        used: t[k].used,
        ..s[k]
    }) by {
        if i < s.len() {
        } else {
            assert(clock(s, h, 512).0[k] == Slot { used: clock(s, h, 512).0[k].used, ..s[k] });
        }
    }
    assert forall|k: int| 0 <= k < t.len() && k != p implies !holds(#[trigger] t[k], disk, lba) by {
        if holds(t[k], disk, lba) {
            assert(holds(s[k], disk, lba));
            if i < s.len() {
                if k < p {
                    assert(s[k].disk != s[p].disk || s[k].lba != s[p].lba);
                } else {
                    assert(s[p].disk != s[k].disk || s[p].lba != s[k].lba);
                }
            }
        }
    }
    assert(slot_index(t, disk, lba) == p) by {
        let x = slot_index(t, disk, lba);
        if x < p {
            assert(!holds(t[x], disk, lba));
        } else if p < x {
            assert(!holds(t[p], disk, lba));
        }
    }
    assert forall|a: int, b: int|
        0 <= a < b < t.len() && (#[trigger] t[a]).valid && (#[trigger] t[b]).valid implies t[a].disk
        != t[b].disk || t[a].lba != t[b].lba by {
        if a == p {
            assert(!holds(t[b], disk, lba));
        } else if b == p {
            assert(!holds(t[a], disk, lba));
        } else {
            assert(s[a].valid && s[b].valid);
        }
    }
}

/// The places once a sector is thrown out.
pub open spec fn thrown_out(s: Seq<Slot>, disk: u32, lba: u64) -> Seq<Slot> {
    let i = slot_index(s, disk, lba);
    if i < s.len() {
        s.update(i, Slot { valid: false, ..s[i] })
    } else {
        s
    }
}

/// The places once a run of sectors is thrown out.
pub open spec fn run_out(s: Seq<Slot>, disk: u32, base: int, n: nat) -> Seq<Slot>
    decreases n,
{
    if n == 0 {
        s
    } else {
        thrown_out(run_out(s, disk, base, (n - 1) as nat), disk, (base + n - 1) as u64)
    }
}

/// Once a sector is thrown out it is not in the cache, and all others are as
/// they were.
pub proof fn law_thrown_out_is_gone(s: Seq<Slot>, disk: u32, lba: u64)
    requires
        one_place_each(s),
    ensures
        thrown_out(s, disk, lba).len() == s.len(),
        one_place_each(thrown_out(s, disk, lba)),
        !cached(thrown_out(s, disk, lba), disk, lba),
        forall|i: int|
            0 <= i < s.len() ==> (#[trigger] thrown_out(s, disk, lba)[i]) == (if holds(
                s[i],
                disk,
                lba,
            ) {
                Slot { valid: false, ..s[i] }
            } else {
                s[i]
            }),
{
    let t = thrown_out(s, disk, lba);
    let i = slot_index(s, disk, lba);
    lemma_slot_index(s, disk, lba);
    lemma_slot_index(t, disk, lba);
    assert forall|k: int| 0 <= k < s.len() implies (#[trigger] t[k]) == (if holds(s[k], disk, lba) {
        Slot { valid: false, ..s[k] }
    } else {
        s[k]
    }) by {
        if k != i && holds(s[k], disk, lba) {
            if k < i {
                assert(!holds(s[k], disk, lba));
            } else {
                assert(holds(s[i], disk, lba));
                assert(s[i].disk != s[k].disk || s[i].lba != s[k].lba);
            }
        }
    }
    assert forall|k: int| 0 <= k < t.len() implies !holds(#[trigger] t[k], disk, lba) by {
        assert(t[k].valid ==> !holds(s[k], disk, lba));
    }
    assert forall|a: int, b: int|
        0 <= a < b < t.len() && (#[trigger] t[a]).valid && (#[trigger] t[b]).valid implies t[a].disk
        != t[b].disk || t[a].lba != t[b].lba by {
        assert(s[a].valid && s[b].valid);
    }
}

pub proof fn lemma_run_out(s: Seq<Slot>, disk: u32, base: int, n: nat)
    requires
        one_place_each(s),
        0 <= base,
        base + n <= u64::MAX,
    ensures
        run_out(s, disk, base, n).len() == s.len(),
        one_place_each(run_out(s, disk, base, n)),
        forall|i: int|
            0 <= i < s.len() ==> (#[trigger] run_out(s, disk, base, n)[i]) == (if s[i].valid
                && s[i].disk == disk && base <= s[i].lba < base + n {
                Slot { valid: false, ..s[i] }
            } else {
                s[i]
            }),
    decreases n,
{
    if n > 0 {
        lemma_run_out(s, disk, base, (n - 1) as nat);
        let t = run_out(s, disk, base, (n - 1) as nat);
        let lba = (base + n - 1) as u64;
        law_thrown_out_is_gone(t, disk, lba);
        assert forall|i: int| 0 <= i < s.len() implies (#[trigger] run_out(s, disk, base, n)[i])
            == (if s[i].valid && s[i].disk == disk && base <= s[i].lba < base + n {
            Slot { valid: false, ..s[i] }
        } else {
            s[i]
        }) by {
            assert(thrown_out(t, disk, lba)[i] == (if holds(t[i], disk, lba) {
                Slot { valid: false, ..t[i] }
            } else {
                t[i]
            }));
        }
    }
}

/// The cache, as a value: its places, where the clock stands, the hits, misses
/// and sectors taken in so far, and at how many lookups they are next worth a
/// line.
#[verifier::ext_equal]
pub struct CacheView {
    pub slots: Seq<Slot>,
    pub hand: int,
    pub counts: (u64, u64, u64),
    pub log_at: u64,
}

/// The cache once a sector was looked up.
pub open spec fn looked_up(c: CacheView, disk: u32, lba: u64) -> CacheView {
    let i = slot_index(c.slots, disk, lba);
    if i < c.slots.len() {
        CacheView {
            slots: c.slots.update(i, Slot { used: true, ..c.slots[i] }),
            counts: (c.counts.0.wrapping_add(1), c.counts.1, c.counts.2),
            ..c
        }
    } else {
        CacheView { counts: (c.counts.0, c.counts.1.wrapping_add(1), c.counts.2), ..c }
    }
}

/// A lookup throws nothing out.
pub proof fn lemma_lookup_keeps(c: CacheView, disk: u32, lba: u64, d2: u32, l2: u64)
    ensures
        cached(looked_up(c, disk, lba).slots, d2, l2) == cached(c.slots, d2, l2),
{
    let t = looked_up(c, disk, lba).slots;
    let i = slot_index(c.slots, disk, lba);
    lemma_slot_index(c.slots, disk, lba);
    lemma_slot_index(c.slots, d2, l2);
    lemma_slot_index(t, d2, l2);
    assert forall|k: int| 0 <= k < t.len() implies holds(#[trigger] t[k], d2, l2) == holds(
        c.slots[k],
        d2,
        l2,
    ) by {
        if k == i {
            assert(t[k] == Slot { used: true, ..c.slots[k] });
        }
    }
    let a = slot_index(c.slots, d2, l2);
    let b = slot_index(t, d2, l2);
    if a < c.slots.len() {
        assert(holds(t[a], d2, l2));
    }
    if b < t.len() {
        assert(holds(c.slots[b], d2, l2));
    }
}

/// The cache once misses were counted.
pub open spec fn missed(c: CacheView, n: u64) -> CacheView {
    CacheView { counts: (c.counts.0, c.counts.1.wrapping_add(n), c.counts.2), ..c }
}

/// The cache once a sector was taken in.
pub open spec fn inserted(c: CacheView, disk: u32, lba: u64, data: Seq<u8>) -> CacheView {
    let (slots, hand) = taken_in(c.slots, c.hand, disk, lba, data);
    CacheView {
        slots,
        hand,
        counts: if cached(c.slots, disk, lba) {
            c.counts
        } else {
            (c.counts.0, c.counts.1, c.counts.2.wrapping_add(1))
        },
        ..c
    }
}

/// The cache once a run of sectors was taken in, in order.
pub open spec fn run_inserted(c: CacheView, disk: u32, base: int, secs: Seq<Seq<u8>>) -> CacheView
    decreases secs.len(),
{
    if secs.len() == 0 {
        c
    } else {
        inserted(
            run_inserted(c, disk, base, secs.drop_last()),
            disk,
            (base + secs.len() - 1) as u64,
            secs.last(),
        )
    }
}

impl Cache {
    /// The cache as a value.
    pub open spec fn state(&self) -> CacheView {
        CacheView {
            slots: self@,
            hand: self.hand_at(),
            counts: self.counts(),
            log_at: self.log_at(),
        }
    }

    /// The places of the cache.
    pub closed spec fn view(&self) -> Seq<Slot> {
        Seq::new(self.entries@.len(), |i: int| self.entries@[i]@)
    }

    /// Where the clock stands.
    pub closed spec fn hand_at(&self) -> int {
        self.hand as int
    }

    /// Hits, misses and sectors taken in so far, modulo 2^64.
    pub closed spec fn counts(&self) -> (u64, u64, u64) {
        (self.hits, self.misses, self.inserts)
    }

    /// At how many lookups the counters are next worth a line.
    pub closed spec fn log_at(&self) -> u64 {
        self.next_log_at
    }

    pub open spec fn wf(&self) -> bool {
        &&& self@.len() == CACHE_SECTORS
        &&& 0 <= self.hand_at() < CACHE_SECTORS
        &&& one_place_each(self@)
        &&& forall|i: int| 0 <= i < self@.len() ==> (#[trigger] self@[i]).data.len() == 512
    }

    pub fn new() -> (r: Cache)
        ensures
            r.wf(),
            forall|i: int| 0 <= i < r@.len() ==> !(#[trigger] r@[i]).valid,
            r.hand_at() == 0,
            r.counts() == (0u64, 0u64, 0u64),
            r.log_at() == LOG_EVERY,
    {
        let mut entries: Vec<Entry> = Vec::new();
        let mut i: usize = 0;
        while i < CACHE_SECTORS
            invariant
                i <= CACHE_SECTORS,
                entries@.len() == i,
                forall|k: int| 0 <= k < i ==> !(#[trigger] entries@[k]).valid,
            decreases CACHE_SECTORS - i,
        {
            entries.push(Entry { valid: false, disk: 0, lba: 0, used: false, data: [0u8; 512] });
            i += 1;
        }
        let r = Cache { entries, hand: 0, hits: 0, misses: 0, inserts: 0, next_log_at: LOG_EVERY };
        assert forall|k: int| 0 <= k < r@.len() implies !(#[trigger] r@[k]).valid by {
            assert(!r.entries@[k].valid);
        }
        r
    }

    fn find(&self, disk: u32, lba: u64) -> (r: Option<usize>)
        ensures
            match r {
                Some(i) => i < self@.len() && i == slot_index(self@, disk, lba),
                None => !cached(self@, disk, lba),
            },
    {
        let ghost s = self@;
        proof {
            lemma_slot_index(s, disk, lba);
        }
        let mut i: usize = 0;
        while i < self.entries.len()
            invariant
                i <= self.entries@.len(),
                s == self@,
                forall|k: int| 0 <= k < i ==> !holds(#[trigger] s[k], disk, lba),
                0 <= slot_index(s, disk, lba) <= s.len(),
                slot_index(s, disk, lba) < s.len() ==> holds(
                    s[slot_index(s, disk, lba)],
                    disk,
                    lba,
                ),
                forall|k: int|
                    0 <= k < slot_index(s, disk, lba) ==> !holds(#[trigger] s[k], disk, lba),
            decreases self.entries@.len() - i,
        {
            assert(s[i as int] == self.entries@[i as int]@);
            let e: &Entry = &self.entries[i];
            if e.valid && e.disk == disk && e.lba == lba {
                return Some(i);
            }
            i += 1;
        }
        None
    }

    fn put(&mut self, i: usize, e: Entry)
        requires
            i < old(self)@.len(),
        ensures
            final(self)@ == old(self)@.update(i as int, e@),
            final(self).hand_at() == old(self).hand_at(),
            final(self).counts() == old(self).counts(),
            final(self).log_at() == old(self).log_at(),
    {
        self.entries.set(i, e);
        assert(self@ =~= old(self)@.update(i as int, e@));
    }
}

fn sector_from(data: &[u8]) -> (r: [u8; 512])
    requires
        data.len() >= 512,
    ensures
        r@ == data@.take(512),
{
    let mut sec: [u8; 512] = [0u8; 512];
    let mut i: usize = 0;
    while i < 512
        invariant
            i <= 512,
            data@.len() >= 512,
            forall|x: int| 0 <= x < i ==> #[trigger] sec@[x] == data@[x],
        decreases 512 - i,
    {
        sec[i] = data[i];
        i += 1;
    }
    assert(sec@ =~= data@.take(512));
    sec
}

/// Copies a sector that is in the cache to the front of `out`, and counts a
/// hit or a miss.
pub fn lookup_into(c: &mut Cache, disk: u32, lba: u64, out: &mut [u8]) -> (hit: bool)
    requires
        old(c).wf(),
        old(out)@.len() >= 512,
    ensures
        final(c).wf(),
        hit == cached(old(c)@, disk, lba),
        final(out)@ == (if hit {
            old(c)@[slot_index(old(c)@, disk, lba)].data + old(out)@.skip(512)
        } else {
            old(out)@
        }),
        final(c).state() == looked_up(old(c).state(), disk, lba),
{
    let ghost s = c@;
    match c.find(disk, lba) {
        Some(i) => {
            assert(s[i as int] == c.entries@[i as int]@);
            let mut e: Entry = c.entries[i];
            let mut k: usize = 0;
            while k < 512
                invariant
                    k <= 512,
                    old(out)@.len() >= 512,
                    out@.len() == old(out)@.len(),
                    forall|x: int|
                        0 <= x < out@.len() ==> #[trigger] out@[x] == (if x < k {
                            e.data@[x]
                        } else {
                            old(out)@[x]
                        }),
                decreases 512 - k,
            {
                out[k] = e.data[k];
                k += 1;
            }
            assert(out@ =~= e.data@ + old(out)@.skip(512));
            e.used = true;
            c.put(i, e);
            c.hits = c.hits.wrapping_add(1);
            proof {
                let t = s.update(i as int, Slot { used: true, ..s[i as int] });
                assert(c@ =~= t);
                assert(one_place_each(t)) by {
                    assert forall|a: int, b: int|
                        0 <= a < b < t.len() && (#[trigger] t[a]).valid && (
                        #[trigger] t[b]).valid implies t[a].disk != t[b].disk || t[a].lba
                        != t[b].lba by {
                        assert(s[a].valid && s[b].valid);
                    }
                }
            }
            true
        },
        None => {
            c.misses = c.misses.wrapping_add(1);
            assert(c@ =~= s);
            false
        },
    }
}

/// Whether a sector is in the cache.
pub fn contains(c: &Cache, disk: u32, lba: u64) -> (r: bool)
    ensures
        r == cached(c@, disk, lba),
{
    c.find(disk, lba).is_some()
}

/// Counts misses.
pub fn note_misses(c: &mut Cache, n: u64)
    requires
        old(c).wf(),
    ensures
        final(c).wf(),
        final(c).state() == missed(old(c).state(), n),
{
    c.misses = c.misses.wrapping_add(n);
    assert(c@ =~= old(c)@);
}

/// Takes a sector in, as it is on the disk.
pub fn insert_from(c: &mut Cache, disk: u32, lba: u64, data: &[u8])
    requires
        old(c).wf(),
        data.len() >= 512,
    ensures
        final(c).wf(),
        final(c).state() == inserted(old(c).state(), disk, lba, data@.take(512)),
{
    let ghost s = c@;
    let ghost h0 = c.hand_at();
    let sec: [u8; 512] = sector_from(data);
    proof {
        law_taken_in_is_found(s, h0, disk, lba, sec@);
        lemma_slot_index(s, disk, lba);
    }
    if let Some(i) = c.find(disk, lba) {
        assert(s[i as int] == c.entries@[i as int]@);
        let mut e: Entry = c.entries[i];
        e.data = sec;
        e.used = true;
        c.put(i, e);
        proof {
            let t = taken_in(s, h0, disk, lba, sec@).0;
            assert(c@ =~= t);
            assert forall|k: int| 0 <= k < c@.len() implies (#[trigger] c@[k]).data.len() == 512 by {
                if k != i {
                    assert(c@[k] == s[k]);
                }
            }
        }
        return;
    }
    let mut fuel: u32 = 512;
    let mut h: usize = c.hand;
    let ghost goal = clock(s, h0, 512);
    proof {
        lemma_clock(s, h0, 512);
    }
    assert(c.entries@[h as int]@ == c@[h as int]);
    while fuel > 0 && c.entries[h].valid && c.entries[h].used
        invariant
            fuel <= 512,
            h < CACHE_SECTORS,
            c.entries@.len() == CACHE_SECTORS,
            c@.len() == CACHE_SECTORS,
            goal == clock(c@, h as int, fuel as nat),
            c.counts() == old(c).counts(),
            c.log_at() == old(c).log_at(),
            forall|k: int| 0 <= k < c@.len() ==> (#[trigger] c@[k]).data.len() == 512,
        decreases fuel,
    {
        assert(c@[h as int] == c.entries@[h as int]@);
        let mut e: Entry = c.entries[h];
        e.used = false;
        let ghost s1 = c@;
        c.put(h, e);
        proof {
            assert(c@ =~= s1.update(h as int, Slot { used: false, ..s1[h as int] }));
            assert forall|k: int| 0 <= k < c@.len() implies (#[trigger] c@[k]).data.len() == 512 by {
                if k != h {
                    assert(c@[k] == s1[k]);
                }
            }
        }
        h = (h + 1) % CACHE_SECTORS;
        fuel = fuel - 1;
    }
    assert(c@[h as int] == c.entries@[h as int]@);
    let ghost s2 = c@;
    c.put(h, Entry { valid: true, disk, lba, used: true, data: sec });
    c.hand = (h + 1) % CACHE_SECTORS;
    c.inserts = c.inserts.wrapping_add(1);
    proof {
        let t = s2.update(
            h as int,
            Slot { valid: true, disk, lba, used: true, data: sec@ },
        );
        assert(c@ =~= t);
        assert forall|k: int| 0 <= k < c@.len() implies (#[trigger] c@[k]).data.len() == 512 by {
            if k != h {
                assert(c@[k] == s2[k]);
            }
        }
    }
}

/// Throws a sector out.
pub fn invalidate(c: &mut Cache, disk: u32, lba: u64)
    requires
        old(c).wf(),
    ensures
        final(c).wf(),
        final(c).state() == (CacheView {
            slots: thrown_out(old(c)@, disk, lba),
            ..old(c).state()
        }),
{
    let ghost s = c@;
    proof {
        law_thrown_out_is_gone(s, disk, lba);
    }
    if let Some(i) = c.find(disk, lba) {
        assert(s[i as int] == c.entries@[i as int]@);
        let mut e: Entry = c.entries[i];
        e.valid = false;
        c.put(i, e);
        assert(c@ =~= thrown_out(s, disk, lba));
    }
}

/// Throws a run of sectors out.
pub fn invalidate_run(c: &mut Cache, disk: u32, base: u64, n: usize)
    requires
        old(c).wf(),
        base + n <= u64::MAX,
    ensures
        final(c).wf(),
        final(c).state() == (CacheView {
            slots: run_out(old(c)@, disk, base as int, n as nat),
            ..old(c).state()
        }),
{
    let mut j: usize = 0;
    while j < n
        invariant
            j <= n,
            base + n <= u64::MAX,
            c.wf(),
            c.state() == (CacheView {
                slots: run_out(old(c)@, disk, base as int, j as nat),
                ..old(c).state()
            }),
        decreases n - j,
    {
        invalidate(c, disk, base + j as u64);
        j += 1;
    }
}

/// Hits, misses and sectors taken in so far.
pub fn stats(c: &Cache) -> (r: (u64, u64, u64))
    ensures
        r == c.counts(),
{
    (c.hits, c.misses, c.inserts)
}

impl Cache {
    /// The counters, once in a while: when enough lookups have been made since
    /// the last time.
    pub fn due_stats(&mut self) -> (r: Option<(u64, u64, u64)>)
        ensures
            ({
                let (h, m, _n) = old(self).counts();
                if h.wrapping_add(m) >= old(self).log_at() {
                    r == Some(old(self).counts()) && final(self).state() == (CacheView {
                        log_at: old(self).log_at().wrapping_add(LOG_EVERY),
                        ..old(self).state()
                    })
                } else {
                    r is None && final(self).state() == old(self).state()
                }
            }),
    {
        if self.hits.wrapping_add(self.misses) >= self.next_log_at {
            self.next_log_at = self.next_log_at.wrapping_add(LOG_EVERY);
            assert(self@ =~= old(self)@);
            Some((self.hits, self.misses, self.inserts))
        } else {
            None
        }
    }
}

/// A sector that was used since the clock last came by stays where the next
/// place was not: it loses its second chance, and the next place is taken.
pub proof fn law_used_sector_gets_a_second_chance(
    s: Seq<Slot>,
    h: int,
    disk: u32,
    lba: u64,
    data: Seq<u8>,
)
    requires
        s.len() == CACHE_SECTORS,
        0 <= h < CACHE_SECTORS,
        !cached(s, disk, lba),
        s[h].valid,
        s[h].used,
        !s[next_place(h)].valid || !s[next_place(h)].used,
    ensures
        ({
            let (t, k) = taken_in(s, h, disk, lba, data);
            let n = (h + 1) % 256;
            &&& t[h] == (Slot { used: false, ..s[h] })
            &&& holds(t[n], disk, lba) && t[n].data == data && t[n].used
            &&& k == (n + 1) % 256
        }),
{
    reveal_with_fuel(clock, 3);
}

/// A free place, or one that was not used since the clock last came by, is
/// taken at once, and nothing else changes.
pub proof fn law_unused_place_is_taken(
    s: Seq<Slot>,
    h: int,
    disk: u32,
    lba: u64,
    data: Seq<u8>,
    other: int,
)
    requires
        s.len() == CACHE_SECTORS,
        0 <= h < CACHE_SECTORS,
        0 <= other < CACHE_SECTORS,
        other != h,
        !cached(s, disk, lba),
        !s[h].valid || !s[h].used,
    ensures
        ({
            let t = taken_in(s, h, disk, lba, data).0;
            holds(t[h], disk, lba) && t[h].data == data && t[other] == s[other]
        }),
{
    reveal_with_fuel(clock, 2);
}

/// A lookup changes no sector. It counts as a hit where the sector is in the
/// cache, and as a miss where it is not.
pub proof fn law_lookup_changes_no_sector(c: CacheView, disk: u32, lba: u64, i: int)
    requires
        0 <= i < c.slots.len(),
        c.counts.0 < u64::MAX,
        c.counts.1 < u64::MAX,
    ensures
        ({
            let d = looked_up(c, disk, lba);
            &&& d.slots[i].data == c.slots[i].data && d.slots[i].valid == c.slots[i].valid
                && d.slots[i].disk == c.slots[i].disk && d.slots[i].lba == c.slots[i].lba
            &&& d.hand == c.hand
            &&& cached(c.slots, disk, lba) ==> d.counts == ((c.counts.0 + 1) as u64, c.counts.1, c.counts.2)
            &&& !cached(c.slots, disk, lba) ==> d.counts == (c.counts.0, (c.counts.1 + 1) as u64, c.counts.2)
        }),
{
    lemma_slot_index(c.slots, disk, lba);
}

} // verus!
