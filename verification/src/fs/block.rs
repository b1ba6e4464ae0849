//! Sources of 512-byte sectors, and what reads and writes do to their bytes.
use vstd::prelude::*;

verus! {

/// What a device holds: the sectors by number.
pub type Image = Map<u64, Seq<u8>>;

/// The byte at an absolute position of the device.
pub open spec fn byte_at(img: Image, p: int) -> u8 {
    img[(p / 512) as u64][p % 512]
}

/// `n` bytes from an absolute position on.
pub open spec fn bytes_at(img: Image, p: int, n: nat) -> Seq<u8> {
    Seq::new(n, |i: int| byte_at(img, p + i))
}

/// Whether sector `l` holds one of the `n` bytes from position `a` on.
pub open spec fn touched(l: u64, a: int, n: int) -> bool {
    n > 0 && l * 512 < a + n && a < (l + 1) * 512
}

/// The image with the bytes from position `a` on replaced by `d`.
pub open spec fn patched(img: Image, a: int, d: Seq<u8>) -> Image {
    Map::new(
        |l: u64| img.dom().contains(l),
        |l: u64|
            if touched(l, a, d.len() as int) {
                Seq::new(
                    512,
                    |k: int|
                        {
                            let p = l * 512 + k;
                            if a <= p < a + d.len() {
                                d[p - a]
                            } else {
                                img[l][k]
                            }
                        },
                )
            } else {
                img[l]
            },
    )
}

/// A sector is as it was.
pub open spec fn same_sector(img: Image, img2: Image, l: u64) -> bool {
    img2.dom().contains(l) == img.dom().contains(l) && (img.dom().contains(l) ==> img2[l] == img[l])
}

/// No sector has changed, unless it holds one of the `n` bytes from `a` on.
pub open spec fn same_outside(img: Image, img2: Image, a: int, n: int) -> bool {
    forall|l: u64| !touched(l, a, n) ==> #[trigger] same_sector(img, img2, l)
}

/// Every sector that holds one of the `n` bytes from `a` on is there.
pub open spec fn present(img: Image, a: int, n: int) -> bool {
    forall|l: u64| #[trigger] touched(l, a, n) ==> img.dom().contains(l)
}

/// The image with `n` sectors from `lba` on replaced by those in `d`.
pub open spec fn with_run(img: Image, lba: int, n: nat, d: Seq<u8>) -> Image
    decreases n,
{
    if n == 0 {
        img
    } else {
        with_run(img, lba, (n - 1) as nat, d).insert(
            (lba + n - 1) as u64,
            d.subrange((n - 1) * 512, n as int * 512),
        )
    }
}

pub proof fn lemma_with_run(img: Image, lba: int, n: nat, d: Seq<u8>)
    requires
        0 <= lba,
        lba + n <= u64::MAX,
        n * 512 <= d.len(),
    ensures
        forall|l: u64| #[trigger]
            with_run(img, lba, n, d).dom().contains(l) == (img.dom().contains(l) || lba <= l < lba
                + n),
        forall|l: u64| #[trigger]
            with_run(img, lba, n, d)[l] == (if lba <= l < lba + n {
                d.subrange((l - lba) * 512, (l - lba + 1) * 512)
            } else {
                img[l]
            }),
    decreases n,
{
    if n > 0 {
        lemma_with_run(img, lba, (n - 1) as nat, d);
        let m = with_run(img, lba, (n - 1) as nat, d);
        let key = (lba + n - 1) as u64;
        assert(key == lba + n - 1);
        assert forall|l: u64| #[trigger]
            with_run(img, lba, n, d)[l] == (if lba <= l < lba + n {
                d.subrange((l - lba) * 512, (l - lba + 1) * 512)
            } else {
                img[l]
            }) by {
            if l == key {
            } else {
                assert(with_run(img, lba, n, d)[l] == m[l]);
            }
        }
        assert forall|l: u64| #[trigger]
            with_run(img, lba, n, d).dom().contains(l) == (img.dom().contains(l) || lba <= l < lba
                + n) by {
            assert(with_run(img, lba, n, d).dom().contains(l) == (m.dom().contains(l) || l
                == key));
        }
    }
}

/// A patch changes the bytes of its range and no others.
pub proof fn law_patch_reads_back(img: Image, a: int, d: Seq<u8>, p: int)
    requires
        0 <= a,
        0 <= p < 512 * u64::MAX,
        present(img, a, d.len() as int),
        img.dom().contains((p / 512) as u64),
    ensures
        byte_at(patched(img, a, d), p) == (if a <= p < a + d.len() {
            d[p - a]
        } else {
            byte_at(img, p)
        }),
{
    let l = (p / 512) as u64;
    assert(l == p / 512);
    if a <= p < a + d.len() {
        assert(touched(l, a, d.len() as int));
    }
}

/// Patching nothing changes nothing.
pub proof fn lemma_patch_empty(img: Image, a: int)
    ensures
        patched(img, a, Seq::empty()) == img,
{
    assert(patched(img, a, Seq::empty()) =~= img);
}

/// Two patches side by side are one.
pub proof fn lemma_patch_join(img: Image, a: int, d: Seq<u8>, e: Seq<u8>)
    ensures
        patched(patched(img, a, d), a + d.len(), e) == patched(img, a, d + e),
{
    let one = patched(img, a, d);
    let two = patched(one, a + d.len(), e);
    let all = patched(img, a, d + e);
    assert forall|l: u64| img.dom().contains(l) implies two[l] == all[l] by {
        assert(one.dom().contains(l));
        if touched(l, a, (d + e).len() as int) {
            assert(two[l] =~= all[l]);
        } else {
            assert(!touched(l, a, d.len() as int));
            assert(!touched(l, a + d.len(), e.len() as int));
        }
    }
    assert(two =~= all);
}

/// Replacing whole sectors by ones that differ in a range is patching that
/// range, if each of the sectors has a byte of it.
pub proof fn lemma_run_is_patch(img: Image, lba: int, n: nat, run: Seq<u8>, a: int, d: Seq<u8>)
    requires
        0 <= lba,
        lba + n <= u64::MAX,
        run.len() == n * 512,
        lba * 512 <= a,
        a + d.len() <= (lba + n) * 512,
        forall|l: u64| lba <= l < lba + n ==> #[trigger] touched(l, a, d.len() as int),
        forall|l: u64| lba <= l < lba + n ==> #[trigger] img.dom().contains(l),
        forall|i: int|
            0 <= i < n * 512 ==> #[trigger] run[i] == (if a <= lba * 512 + i < a + d.len() {
                d[lba * 512 + i - a]
            } else {
                byte_at(img, lba * 512 + i)
            }),
    ensures
        with_run(img, lba, n, run) == patched(img, a, d),
{
    lemma_with_run(img, lba, n, run);
    let w = with_run(img, lba, n, run);
    let q = patched(img, a, d);
    assert forall|l: u64| img.dom().contains(l) implies #[trigger] w[l] == q[l] by {
        if lba <= l < lba + n {
            assert(touched(l, a, d.len() as int));
            assert forall|k: int| 0 <= k < 512 implies w[l][k] == q[l][k] by {
                let i = (l - lba) * 512 + k;
                assert(w[l][k] == run[i]);
                assert(lba * 512 + i == l * 512 + k);
                assert((l * 512 + k) / 512 == l);
                assert((l * 512 + k) % 512 == k);
            }
            assert(w[l] =~= q[l]);
        } else {
            assert(!touched(l, a, d.len() as int));
        }
    }
    assert forall|l: u64| w.dom().contains(l) == q.dom().contains(l) by {
        assert(w.dom().contains(l) == (img.dom().contains(l) || lba <= l < lba + n));
    }
    assert(w =~= q);
}

/// A source of sectors, numbered from the start of the mounted node.
///
/// `faults` counts the transfers that the device has failed; a caller that
/// sees it unchanged knows that every transfer took place. A source that is not
/// verified itself need not say what it holds.
pub trait BlockSource {
    /// The sectors of the device.
    open spec fn image(&self) -> Image {
        Map::empty()
    }

    /// How many transfers have failed so far.
    open spec fn faults(&self) -> nat {
        0
    }

    /// Reads a sector.
    fn read_sector(&mut self, lba: u64, buf: &mut [u8; 512]) -> (ok: bool)
        ensures
            final(self).image() == old(self).image(),
            ok ==> {
                &&& old(self).image().dom().contains(lba)
                &&& final(buf)@ == old(self).image()[lba]
                &&& final(self).faults() == old(self).faults()
            },
            !ok ==> final(self).faults() > old(self).faults(),
    ;

    /// Writes a sector; it is stable when the call returns.
    fn write_sector(&mut self, lba: u64, data: &[u8; 512]) -> (ok: bool)
        ensures
            ok ==> {
                &&& final(self).image() == old(self).image().insert(lba, data@)
                &&& final(self).faults() == old(self).faults()
            },
            !ok ==> {
                &&& final(self).image().remove(lba) == old(self).image().remove(lba)
                &&& final(self).faults() > old(self).faults()
            },
    ;

    /// Reads `n` sectors in a row; fails where `out` is too short for them.
    fn read_sectors(&mut self, lba: u64, n: usize, out: &mut [u8]) -> (ok: bool)
        requires
            lba + n <= u64::MAX,
            n * 512 <= usize::MAX,
        ensures
            final(self).image() == old(self).image(),
            final(out)@.len() == old(out)@.len(),
            old(out)@.len() < n * 512 ==> !ok,
            ok ==> {
                &&& final(self).faults() == old(self).faults()
                &&& forall|l: u64|
                    lba <= l < lba + n ==> #[trigger] old(self).image().dom().contains(l)
                &&& forall|l: u64|
                    lba <= l < lba + n ==> (#[trigger] old(self).image()[l]).len() == 512
                &&& forall|i: int|
                    0 <= i < n * 512 ==> #[trigger] final(out)@[i] == byte_at(
                        old(self).image(),
                        lba * 512 + i,
                    )
            },
            !ok && old(out)@.len() >= n * 512 ==> final(self).faults() > old(self).faults(),
    {
        if out.len() < n * 512 {
            return false;
        }
        let mut k: usize = 0;
        while k < n
            invariant
                k <= n,
                lba + n <= u64::MAX,
                n * 512 <= usize::MAX,
                n * 512 <= old(out)@.len(),
                old(out)@.len() == out@.len(),
                self.image() == old(self).image(),
                self.faults() == old(self).faults(),
                forall|l: u64|
                    lba <= l < lba + k ==> #[trigger] old(self).image().dom().contains(l),
                forall|l: u64|
                    lba <= l < lba + k ==> (#[trigger] old(self).image()[l]).len() == 512,
                forall|i: int|
                    0 <= i < k * 512 ==> #[trigger] out@[i] == byte_at(
                        old(self).image(),
                        lba * 512 + i,
                    ),
            decreases n - k,
        {
            let mut sec: [u8; 512] = [0u8; 512];
            if !self.read_sector(lba + k as u64, &mut sec) {
                return false;
            }
            let ghost before = out@;
            let mut i: usize = 0;
            while i < 512
                invariant
                    i <= 512,
                    k < n,
                    n * 512 <= usize::MAX,
                    n * 512 <= out@.len(),
                    out@.len() == before.len(),
                    forall|x: int|
                        0 <= x < out@.len() && !(k * 512 <= x < k * 512 + i) ==> #[trigger] out@[x]
                            == before[x],
                    forall|x: int|
                        k * 512 <= x < k * 512 + i ==> #[trigger] out@[x] == sec@[x - k * 512],
                decreases 512 - i,
            {
                out[k * 512 + i] = sec[i];
                i += 1;
            }
            assert forall|x: int| 0 <= x < (k + 1) * 512 implies #[trigger] out@[x] == byte_at(
                old(self).image(),
                lba * 512 + x,
            ) by {
                if x >= k * 512 {
                    let p = lba * 512 + x;
                    assert(p / 512 == lba + k);
                    assert(p % 512 == x - k * 512);
                }
            }
            assert(sec@.len() == 512);
            assert(old(self).image()[(lba + k) as u64] == sec@);
            k += 1;
        }
        true
    }

    /// Writes `n` sectors in a row; fails where `data` is too short for them.
    fn write_sectors(&mut self, lba: u64, n: usize, data: &[u8]) -> (ok: bool)
        requires
            lba + n <= u64::MAX,
            n * 512 <= usize::MAX,
        ensures
            data@.len() < n * 512 ==> !ok,
            ok ==> {
                &&& final(self).image() == with_run(old(self).image(), lba as int, n as nat, data@)
                &&& final(self).faults() == old(self).faults()
            },
            !ok && data@.len() >= n * 512 ==> final(self).faults() > old(self).faults(),
            forall|l: u64|
                !(lba <= l < lba + n) ==> #[trigger] final(self).image()[l] == old(self).image()[l],
            forall|l: u64|
                !(lba <= l < lba + n) ==> #[trigger] final(self).image().dom().contains(l) == old(
                    self,
                ).image().dom().contains(l),
    {
        if data.len() < n * 512 {
            return false;
        }
        let mut k: usize = 0;
        while k < n
            invariant
                k <= n,
                lba + n <= u64::MAX,
                n * 512 <= usize::MAX,
                n * 512 <= data@.len(),
                self.image() == with_run(old(self).image(), lba as int, k as nat, data@),
                self.faults() == old(self).faults(),
            decreases n - k,
        {
            let mut sec: [u8; 512] = [0u8; 512];
            let mut i: usize = 0;
            while i < 512
                invariant
                    i <= 512,
                    k < n,
                    n * 512 <= usize::MAX,
                    n * 512 <= data@.len(),
                    forall|x: int| 0 <= x < i ==> #[trigger] sec@[x] == data@[k * 512 + x],
                decreases 512 - i,
            {
                sec[i] = data[k * 512 + i];
                i += 1;
            }
            assert(sec@ =~= data@.subrange(k * 512, (k + 1) * 512));
            let ghost before = self.image();
            proof {
                lemma_with_run(old(self).image(), lba as int, k as nat, data@);
            }
            if !self.write_sector(lba + k as u64, &sec) {
                proof {
                    let key = (lba + k) as u64;
                    assert forall|l: u64| !(lba <= l < lba + n) implies #[trigger] self.image()[l]
                        == old(self).image()[l] by {
                        assert(before.remove(key)[l] == before[l]);
                        assert(self.image().remove(key)[l] == self.image()[l]);
                    }
                    assert forall|l: u64| !(lba <= l < lba + n) implies #[trigger] self.image().dom().contains(
                        l,
                    ) == old(self).image().dom().contains(l) by {
                        assert(before.remove(key).dom().contains(l) == before.dom().contains(l));
                        assert(self.image().remove(key).dom().contains(l)
                            == self.image().dom().contains(l));
                    }
                }
                return false;
            }
            k += 1;
        }
        proof {
            lemma_with_run(old(self).image(), lba as int, n as nat, data@);
        }
        true
    }
}

/// A device in memory.
pub struct RamDisk {
    sectors: Vec<[u8; 512]>,
    failed: Ghost<nat>,
}

impl BlockSource for RamDisk {
    closed spec fn image(&self) -> Image {
        Map::new(|l: u64| l < self.sectors@.len(), |l: u64| self.sectors@[l as int]@)
    }

    closed spec fn faults(&self) -> nat {
        self.failed@
    }

    fn read_sector(&mut self, lba: u64, buf: &mut [u8; 512]) -> (ok: bool)
        ensures
            ok == old(self).image().dom().contains(lba),
    {
        if lba >= self.sectors.len() as u64 {
            self.failed = Ghost(self.failed@ + 1);
            return false;
        }
        *buf = self.sectors[lba as usize];
        true
    }

    fn write_sector(&mut self, lba: u64, data: &[u8; 512]) -> (ok: bool)
        ensures
            ok == old(self).image().dom().contains(lba),
    {
        if lba >= self.sectors.len() as u64 {
            self.failed = Ghost(self.failed@ + 1);
            assert(self.image() =~= old(self).image());
            return false;
        }
        self.sectors.set(lba as usize, *data);
        assert(self.image() =~= old(self).image().insert(lba, data@));
        true
    }
}

impl RamDisk {
    /// A device of `n` sectors, all zero.
    pub fn new(n: usize) -> (r: RamDisk)
        ensures
            forall|l: u64| #[trigger] r.image().dom().contains(l) == (l < n),
            forall|l: u64| l < n ==> #[trigger] r.image()[l] == Seq::new(512, |k: int| 0u8),
            r.faults() == 0,
    {
        let mut sectors: Vec<[u8; 512]> = Vec::new();
        let zero: [u8; 512] = [0u8; 512];
        let mut i: usize = 0;
        while i < n
            invariant
                i <= n,
                sectors@.len() == i,
                zero@ =~= Seq::new(512, |k: int| 0u8),
                forall|k: int| 0 <= k < i ==> (#[trigger] sectors@[k]) == zero,
            decreases n - i,
        {
            sectors.push(zero);
            i += 1;
        }
        RamDisk { sectors, failed: Ghost(0) }
    }
}

} // verus!
