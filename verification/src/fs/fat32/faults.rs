//! What a volume holds after an operation during which transfers may have
//! failed. A sector whose write failed may hold anything; all others hold what
//! is said here.
use vstd::prelude::*;

use super::create;
use super::dir;
use super::file;
use super::file::Chain;
use super::types;
use super::types::{FileInfo, Geometry};
use crate::bytes;
use crate::fs::block;
use crate::fs::block::Image;
use crate::shell::glob;

verus! {

/// A transfer failed while `d` was written into a chain, from byte `rel` of
/// cluster `c` on: `r` bytes had been written, and of the cluster that came next
/// the sectors that were to be written may have changed.
pub open spec fn poured_part(
    img: Image,
    g: Geometry,
    c: u32,
    rel: int,
    d: Seq<u8>,
    r: int,
    img2: Image,
) -> bool
    decreases d.len(),
{
    let n = file::min(types::cluster_size(g) - rel, d.len() as int);
    let a = types::cluster_pos(g, c) + rel;
    if d.len() == 0 || rel < 0 || rel >= types::cluster_size(g) {
        false
    } else if r == 0 {
        block::same_outside(img, img2, a, n)
    } else if r < n || n == d.len() {
        false
    } else {
        let img1 = block::patched(img, a, d.take(n));
        match types::next_in(img1, g, c) {
            Some(c1) => poured_part(img1, g, c1, 0, d.skip(n), r - n, img2),
            None => r == n && img2 == img1,
        }
    }
}

/// Where a transfer failed, not all was written.
pub proof fn lemma_part_is_short(
    img: Image,
    g: Geometry,
    c: u32,
    rel: int,
    d: Seq<u8>,
    r: int,
    img2: Image,
)
    requires
        poured_part(img, g, c, rel, d, r, img2),
    ensures
        0 <= r < d.len(),
    decreases d.len(),
{
    let n = file::min(types::cluster_size(g) - rel, d.len() as int);
    if r != 0 {
        let img1 = block::patched(img, types::cluster_pos(g, c) + rel, d.take(n));
        if let Some(c1) = types::next_in(img1, g, c) {
            lemma_part_is_short(img1, g, c1, 0, d.skip(n), r - n, img2);
        }
    }
}

/// A transfer failed during a write within a file, of which `r` bytes had been
/// written.
pub open spec fn overwritten_part(
    img: Image,
    g: Geometry,
    info: FileInfo,
    offset: int,
    data: Seq<u8>,
    r: int,
    img2: Image,
) -> bool {
    let cs = types::cluster_size(g);
    &&& offset < info.size && data.len() > 0 && info.first_cluster >= 2
    &&& match types::nth_in(img, g, info.first_cluster, (offset / cs) as nat) {
        Some(c) => poured_part(
            img,
            g,
            c,
            offset % cs,
            data.take(file::min(data.len() as int, info.size - offset)),
            r,
            img2,
        ),
        None => r == 0 && img2 == img,
    }
}

/// What a write within a file comes to: all of it, or a part.
pub open spec fn overwrite_outcome(
    img: Image,
    g: Geometry,
    info: FileInfo,
    offset: int,
    data: Seq<u8>,
    r: int,
    img2: Image,
) -> bool {
    (img2, r) == file::overwritten(img, g, info, offset, data) || overwritten_part(
        img,
        g,
        info,
        offset,
        data,
        r,
        img2,
    )
}

/// A transfer failed while bytes of a file were zeroed.
pub open spec fn zeroed_part(
    img: Image,
    g: Geometry,
    first: u32,
    a: int,
    b: int,
    img2: Image,
) -> bool {
    let cs = types::cluster_size(g);
    &&& a < b && first >= 2
    &&& match types::nth_in(img, g, first, (a / cs) as nat) {
        Some(c) => exists|r: int| #[trigger]
            poured_part(img, g, c, a % cs, bytes::filled(0, (b - a) as nat), r, img2),
        None => img2 == img,
    }
}

/// What zeroing bytes of a file comes to.
pub open spec fn zero_outcome(
    img: Image,
    g: Geometry,
    first: u32,
    a: int,
    b: int,
    img2: Image,
    ok: bool,
) -> bool {
    (img2, ok) == file::zeroed(img, g, first, a, b) || (!ok && zeroed_part(
        img,
        g,
        first,
        a,
        b,
        img2,
    ))
}

/// A transfer failed while start and size of a directory entry were set: the
/// sectors of the two may have changed.
pub open spec fn entry_part(
    img: Image,
    g: Geometry,
    dir_cluster: u32,
    entry_off: int,
    img2: Image,
) -> bool {
    match file::entry_pos(img, g, dir_cluster, entry_off) {
        Some(p) => block::same_outside(img, img2, p + 20, 12),
        None => img2 == img,
    }
}

/// What setting start and size of a directory entry comes to.
pub open spec fn entry_outcome(
    img: Image,
    g: Geometry,
    dir_cluster: u32,
    entry_off: int,
    first: u32,
    size: u32,
    img2: Image,
) -> bool {
    img2 == file::entry_patched(img, g, dir_cluster, entry_off, first, size).0 || entry_part(
        img,
        g,
        dir_cluster,
        entry_off,
        img2,
    )
}

/// What setting the count of free clusters comes to: at worst its sector has
/// changed.
pub open spec fn count_outcome(img: Image, delta: int, next_free: u32, img2: Image) -> bool {
    img2 == types::with_fsinfo(img, delta, next_free) || block::same_outside(img, img2, 512, 512)
}

/// A chain that got the free cluster `c` more.
pub open spec fn with_link(s: Chain, g: Geometry, c: u32) -> Chain {
    let marked = types::with_entry(s.img, g, c, types::EOC_VAL);
    Chain {
        img: if s.have == 0 {
            marked
        } else {
            types::with_entry(marked, g, s.last, c)
        },
        first: if s.have == 0 {
            c
        } else {
            s.first
        },
        last: c,
        have: s.have + 1,
        allocated: s.allocated + 1,
    }
}

/// What lengthening a chain by `k` free clusters comes to. Where one more could
/// not be linked, the table and the entry of the last cluster may have changed.
pub open spec fn link_outcome(s: Chain, g: Geometry, k: nat, t: Chain) -> bool
    decreases k,
{
    if k == 0 {
        &&& t.first == s.first
        &&& t.last == s.last
        &&& t.have == s.have
        &&& t.allocated == s.allocated
        &&& forall|l: u64|
            !types::table_sector(g, l) && !types::entry_sector(g, s.last, l)
                ==> #[trigger] block::same_sector(s.img, t.img, l)
    } else {
        exists|c: u32| #[trigger]
            types::free_cluster(s.img, g, c) && link_outcome(
                with_link(s, g, c),
                g,
                (k - 1) as nat,
                t,
            )
    }
}

/// The length of a chain and its last cluster as they are counted; a first
/// cluster whose entry cannot be read is taken for the whole chain.
pub open spec fn count_of_chain(img: Image, g: Geometry, first: u32, have: int, last: u32) -> bool {
    types::tail_of(img, g, first) == Some((have, last)) || (first >= 2 && have == 1 && last
        == first)
}

/// The last steps of a write into a lengthened chain: the data, and where the
/// gap could be zeroed also the entry of the file, which is set to a size of no
/// more than the old one or the end of what was written.
pub open spec fn data_outcome(
    s: Chain,
    g: Geometry,
    info: FileInfo,
    offset: int,
    data: Seq<u8>,
    zi: Image,
    zok: bool,
    r: int,
    pi: Image,
) -> bool {
    let end = file::min(offset + data.len(), s.have * types::cluster_size(g));
    let old_end = file::min(info.size as int, end);
    let size = if offset + r > old_end {
        offset + r
    } else {
        old_end
    };
    if zok {
        exists|wi: Image| #[trigger]
            overwrite_outcome(
                zi,
                g,
                file::resized(info, s.first, end as u32),
                offset,
                data.take(file::min(end - offset, data.len() as int)),
                r,
                wi,
            ) && entry_outcome(
                wi,
                g,
                info.dir_cluster,
                info.entry_off as int,
                s.first,
                size as u32,
                pi,
            )
    } else {
        overwrite_outcome(zi, g, info, offset, data, r, pi)
    }
}

/// What writing into a lengthened chain comes to: the gap from the old end is
/// zeroed, `r` bytes are written, then the entry of the file and the count of
/// free clusters are set.
pub open spec fn into_outcome(
    s: Chain,
    g: Geometry,
    info: FileInfo,
    offset: int,
    data: Seq<u8>,
    r: int,
    img2: Image,
) -> bool {
    let end = file::min(offset + data.len(), s.have * types::cluster_size(g));
    let old_end = file::min(info.size as int, end);
    if end <= offset {
        r == 0 && img2 == s.img
    } else {
        exists|zi: Image, zok: bool, pi: Image|
            {
                &&& zero_outcome(s.img, g, s.first, old_end, end, zi, zok)
                &&& #[trigger] data_outcome(s, g, info, offset, data, zi, zok, r, pi)
                &&& count_outcome(pi, -s.allocated, file::after(s.last), img2)
            }
    }
}

/// What a write that may make a file longer comes to.
pub open spec fn grow_outcome(
    img: Image,
    g: Geometry,
    info: FileInfo,
    offset: int,
    data: Seq<u8>,
    r: int,
    img2: Image,
) -> bool {
    if data.len() == 0 || info.is_dir {
        r == 0 && img2 == img
    } else {
        ||| overwrite_outcome(img, g, info, offset, data, r, img2)
        ||| info.size < offset + data.len() && exists|have: int, last: u32, k: nat, t: Chain|
            {
                &&& #[trigger] count_of_chain(img, g, info.first_cluster, have, last)
                &&& #[trigger] link_outcome(
                    Chain { img, first: info.first_cluster, last, have, allocated: 0 },
                    g,
                    k,
                    t,
                )
                &&& into_outcome(t, g, info, offset, data, r, img2)
            }
    }
}

// ── Creating and truncating ──

/// The image in which a directory whose last cluster is `last` has got the
/// cluster `c` more, zeroed.
pub open spec fn with_room(img: Image, g: Geometry, last: u32, c: u32) -> Image {
    let marked = types::with_entry(img, g, c, types::EOC_VAL);
    let blank = block::patched(
        marked,
        types::cluster_pos(g, c),
        bytes::filled(0, types::cluster_size(g) as nat),
    );
    types::with_entry(blank, g, last, c)
}

/// Room for an entry was made at `off` of a directory. A full directory has got
/// a free cluster more.
pub open spec fn room_outcome(
    img: Image,
    g: Geometry,
    home: u32,
    off: int,
    img2: Image,
) -> bool {
    match create::place_from(img, g, home, 0, types::MAX_WALK as nat) {
        create::Place::At(o) => off == o && img2 == img,
        create::Place::Full(last, o) => off == o && exists|c: u32| #[trigger]
            types::free_cluster(img, g, c) && count_outcome(
                with_room(img, g, last, c),
                -1,
                (c + 1) as u32,
                img2,
            ),
        create::Place::Endless => false,
    }
}

/// No room was made for an entry. Where the directory is full, the table, the
/// entry of its last cluster and the sectors of a free cluster may have changed.
pub open spec fn room_refused(img: Image, g: Geometry, home: u32, img2: Image) -> bool {
    match create::place_from(img, g, home, 0, types::MAX_WALK as nat) {
        create::Place::Full(last, _) => types::same_but_table(img, img2, g) || exists|c: u32|
            #[trigger]
            types::free_cluster(img, g, c) && forall|l: u64|
                !types::table_sector(g, l) && !types::entry_sector(g, last, l) && !block::touched(
                    l,
                    types::cluster_pos(g, c),
                    types::cluster_size(g),
                ) ==> #[trigger] block::same_sector(img, img2, l),
        _ => img2 == img,
    }
}

/// The entry of a new file was to be written to a slot: it was, or the sectors
/// of the slot may have changed.
pub open spec fn slot_outcome(
    img: Image,
    g: Geometry,
    home: u32,
    off: int,
    e: Seq<u8>,
    ok: bool,
    img2: Image,
) -> bool {
    match file::entry_pos(img, g, home, off) {
        Some(pos) => if ok {
            img2 == block::patched(img, pos, e) && block::bytes_at(img2, pos, e.len()) == e
        } else {
            block::same_outside(img, img2, pos, e.len() as int)
        },
        None => !ok && img2 == img,
    }
}

/// What creating a file comes to. It is said to be created only where its entry
/// was written.
pub open spec fn create_outcome(
    img: Image,
    g: Geometry,
    path: Seq<u8>,
    ok: bool,
    img2: Image,
) -> bool {
    let p = dir::stripped(path);
    match (create::short_name(p.skip(glob::base_start(p))), create::home_of(img, g, p)) {
        (Some((name, ext)), Some(home)) => if p.len() == 0 || dir::found(img, g, p) is Some {
            !ok && img2 == img
        } else {
            ||| !ok && (img2 == img || room_refused(img, g, home, img2))
            ||| exists|off: int, mid: Image| #[trigger]
                room_outcome(img, g, home, off, mid) && slot_outcome(
                    mid,
                    g,
                    home,
                    off,
                    create::fresh_entry(name, ext),
                    ok,
                    img2,
                )
        },
        _ => !ok && img2 == img,
    }
}

/// A transfer failed while the chain from `c` on was set free: some clusters
/// from its start on are free, and the entry of the next one may have changed.
pub open spec fn freed_part(img: Image, g: Geometry, c: u32, fuel: nat, img2: Image) -> bool
    decreases fuel,
{
    types::same_but_entry(img, img2, g, c) || (fuel > 0 && c >= 2 && match types::next_in(
        img,
        g,
        c,
    ) {
        Some(n) => freed_part(types::with_entry(img, g, c, 0), g, n, (fuel - 1) as nat, img2),
        None => false,
    })
}

/// What truncating a file comes to. It is said to be truncated only where its
/// entry says so and its chain is free.
pub open spec fn truncate_outcome(
    img: Image,
    g: Geometry,
    info: FileInfo,
    ok: bool,
    img2: Image,
) -> bool {
    let (img1, there) = file::entry_patched(
        img,
        g,
        info.dir_cluster,
        info.entry_off as int,
        0,
        0,
    );
    let at = file::entry_pos(img, g, info.dir_cluster, info.entry_off as int);
    let (free, n) = create::freed(img1, g, info.first_cluster, types::MAX_WALK as nat);
    if info.is_dir {
        !ok && img2 == img
    } else if ok {
        &&& there
        &&& file::entry_reads(img1, at->0, 0, 0)
        &&& if n == 0 {
            img2 == free
        } else {
            count_outcome(free, n, info.first_cluster, img2)
        }
    } else {
        entry_part(img, g, info.dir_cluster, info.entry_off as int, img2) || (there && freed_part(
            img1,
            g,
            info.first_cluster,
            types::MAX_WALK as nat,
            img2,
        ))
    }
}

} // verus!
