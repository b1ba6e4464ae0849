//! The most that a program may do, by the measured identity of its image.
use vstd::prelude::*;

use super::codes::RIGHTS_ALL;

verus! {

/// What an unknown program may do: all but mounting, unmounting, granting
/// descriptors and making pipes.
pub const DEFAULT_UNKNOWN_OPS: u32 = 0x19F;

/// The first entry for a hash.
pub open spec fn listed_mask(table: Seq<(u64, u32)>, hash: u64) -> Option<u32>
    decreases table.len(),
{
    if table.len() == 0 {
        None
    } else if table[0].0 == hash {
        Some(table[0].1)
    } else {
        listed_mask(table.skip(1), hash)
    }
}

/// The most that the peer of a channel may do: everything for the first
/// process, what the tables say of a known image, the default for any other
/// and where the image is not known.
pub open spec fn ceiling_of(
    pid: Option<i64>,
    hash: Option<u64>,
    services: Seq<(u64, u32)>,
    tests: Seq<(u64, u32)>,
) -> u32 {
    if pid == Some(1i64) {
        RIGHTS_ALL
    } else {
        match hash {
            Some(h) => match listed_mask(services, h) {
                Some(m) => m,
                None => match listed_mask(tests, h) {
                    Some(m) => m,
                    None => DEFAULT_UNKNOWN_OPS,
                },
            },
            None => DEFAULT_UNKNOWN_OPS,
        }
    }
}

fn find_mask(table: &[(u64, u32)], hash: u64) -> (r: Option<u32>)
    ensures
        r == listed_mask(table@, hash),
{
    let mut i: usize = 0;
    assert(table@.skip(0) =~= table@);
    while i < table.len()
        invariant
            i <= table.len(),
            listed_mask(table@, hash) == listed_mask(table@.skip(i as int), hash),
        decreases table.len() - i,
    {
        assert(table@.skip(i as int).skip(1) =~= table@.skip(i + 1));
        let (h, m): (u64, u32) = table[i];
        if h == hash {
            return Some(m);
        }
        i += 1;
    }
    None
}

/// The most that the peer of a channel may do, given its process id and the
/// hash of its image, as far as they are known.
pub fn ceiling_for(
    pid: Option<i64>,
    hash: Option<u64>,
    services: &[(u64, u32)],
    tests: &[(u64, u32)],
) -> (r: u32)
    ensures
        r == ceiling_of(pid, hash, services@, tests@),
{
    if let Some(p) = pid {
        if p == 1 {
            return RIGHTS_ALL;
        }
    }
    if let Some(h) = hash {
        if let Some(m) = find_mask(services, h) {
            return m;
        }
        if let Some(m) = find_mask(tests, h) {
            return m;
        }
    }
    DEFAULT_UNKNOWN_OPS
}

} // verus!
