//! Partition tables: the four primary entries of a master boot record.
use vstd::prelude::*;

use crate::bytes;
use crate::bytes::read_le32;

verus! {

/// A partition: its type, its first sector, and how many there are.
#[derive(Clone, Copy, PartialEq, Eq, Debug, Structural)]
pub struct PartInfo {
    pub ptype: u8,
    pub start: u32,
    pub sectors: u32,
}

/// Entry `i` of the table.
pub open spec fn entry(s: Seq<u8>, i: int) -> PartInfo {
    PartInfo {
        ptype: s[0x1BE + i * 16 + 4],
        start: bytes::le_value(s, 0x1BE + i * 16 + 8, 4) as u32,
        sectors: bytes::le_value(s, 0x1BE + i * 16 + 12, 4) as u32,
    }
}

/// The entries in use among the first `n`.
pub open spec fn entries_in_use(s: Seq<u8>, n: nat) -> Seq<PartInfo>
    decreases n,
{
    if n == 0 {
        Seq::empty()
    } else {
        let r = entries_in_use(s, (n - 1) as nat);
        let e = entry(s, n - 1);
        if e.ptype != 0 && e.sectors != 0 {
            r.push(e)
        } else {
            r
        }
    }
}

/// The partitions that a first sector names: none if it is not signed.
pub open spec fn partitions(s: Seq<u8>) -> Seq<PartInfo> {
    if s[510] == 0x55 && s[511] == 0xAA {
        entries_in_use(s, 4)
    } else {
        Seq::empty()
    }
}

/// Adds the partitions that a first sector names.
pub fn parse_mbr(sector0: &[u8; 512], out: &mut Vec<PartInfo>)
    ensures
        final(out)@ == old(out)@ + partitions(sector0@),
        partitions(sector0@).len() <= 4,
{
    let s: &[u8] = sector0.as_slice();
    if s[510] != 0x55 || s[511] != 0xAA {
        assert(out@ =~= old(out)@ + partitions(sector0@));
        return;
    }
    let mut i: usize = 0;
    assert(out@ =~= old(out)@ + entries_in_use(s@, 0));
    while i < 4
        invariant
            i <= 4,
            s@ == sector0@,
            s@.len() == 512,
            out@ == old(out)@ + entries_in_use(s@, i as nat),
            entries_in_use(s@, i as nat).len() <= i,
        decreases 4 - i,
    {
        let base: usize = 0x1BE + i * 16;
        let ptype: u8 = s[base + 4];
        let start: u32 = read_le32(s, base + 8);
        let sectors: u32 = read_le32(s, base + 12);
        let ghost before = out@;
        if ptype != 0 && sectors != 0 {
            out.push(PartInfo { ptype, start, sectors });
            assert(out@ =~= old(out)@ + entries_in_use(s@, i as nat).push(
                entry(s@, i as int),
            ));
        }
        i += 1;
    }
}

} // verus!
