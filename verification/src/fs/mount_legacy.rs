//! Mount points of drivers, and what a path leads to.
use vstd::prelude::*;
use vstd::slice::slice_subrange;

use super::block::BlockSource;
use super::codes::{DEV_CONSOLE, DEV_KBD, DEV_KEYBOARD, DEV_NULL, DEV_ZERO};
use super::fat32::dir;
use super::fat32::dir::strip_slashes;
use super::mount;
use super::mount::FsMount;
use super::ramfs;
use super::ramfs::trim_root;
use crate::bytes;
use crate::bytes::{bytes_eq, copy_of, find_byte, parse_digits, starts_with};
use crate::names;
use crate::names::{contains_name, join_names, sort_names};

verus! {

/// Which kind of local file system serves a path.
#[derive(Clone, Copy, PartialEq, Eq, Debug, Structural)]
pub enum FsKind {
    /// The file system in memory at the root.
    Ram,
    /// A mounted volume.
    Fat,
    /// Another mounted local file system.
    Local,
}

/// A mount point of a driver, and the channel to it.
pub struct Mount {
    pub prefix: Vec<u8>,
    pub driver_chan: u64,
}

// ── The longest prefix ──

/// What is left of a path behind a mount point, if it is the mount point or
/// lies under it.
pub open spec fn under(t: Seq<u8>, prefix: Seq<u8>) -> Option<Seq<u8>> {
    if t == prefix {
        Some(Seq::empty())
    } else if t.len() > prefix.len() && t[prefix.len() as int] == 47 && bytes::has_prefix(t, prefix) {
        Some(t.skip(prefix.len() as int + 1))
    } else {
        None
    }
}

/// The mount point that is longest, the first of them, and what is left of the
/// path behind it.
pub open spec fn longest(t: Seq<u8>, prefixes: Seq<Seq<u8>>) -> Option<(int, Seq<u8>)>
    decreases prefixes.len(),
{
    if prefixes.len() == 0 {
        None
    } else {
        let b = longest(t, prefixes.drop_last());
        match under(t, prefixes.last()) {
            Some(rel) => if b is None || ({
                let (_i, r) = b->0;
                r.len() > rel.len()
            }) {
                Some((prefixes.len() - 1, rel))
            } else {
                b
            },
            None => b,
        }
    }
}

/// No mount point that a path lies under leaves less of it than the one that
/// it leads to, and there is one if there is any.
pub proof fn law_longest_prefix_wins(t: Seq<u8>, prefixes: Seq<Seq<u8>>, i: int)
    requires
        0 <= i < prefixes.len(),
        under(t, prefixes[i]) is Some,
    ensures
        longest(t, prefixes) matches Some((j, rel)) && 0 <= j < prefixes.len() && under(
            t,
            prefixes[j],
        ) == Some(rel) && rel.len() <= under(t, prefixes[i])->0.len(),
    decreases prefixes.len(),
{
    let d = prefixes.drop_last();
    lemma_longest(t, d);
    if i < d.len() {
        assert(d[i] == prefixes[i]);
        law_longest_prefix_wins(t, d, i);
    }
}

pub proof fn lemma_longest(t: Seq<u8>, prefixes: Seq<Seq<u8>>)
    ensures
        longest(t, prefixes) matches Some((j, rel)) ==> 0 <= j < prefixes.len() && under(
            t,
            prefixes[j],
        ) == Some(rel),
    decreases prefixes.len(),
{
    if prefixes.len() > 0 {
        lemma_longest(t, prefixes.drop_last());
    }
}

/// What is left of a path behind a mount point.
pub fn rel_under<'a>(t: &'a [u8], prefix: &[u8]) -> (r: Option<&'a [u8]>)
    ensures
        match r {
            Some(rel) => under(t@, prefix@) == Some(rel@),
            None => under(t@, prefix@) is None,
        },
{
    if bytes_eq(t, prefix) {
        let e: &[u8] = slice_subrange(t, 0, 0);
        assert(e@ =~= Seq::empty());
        return Some(e);
    }
    if t.len() > prefix.len() && t[prefix.len()] == 47 && starts_with(t, prefix) {
        let rel: &[u8] = slice_subrange(t, prefix.len() + 1, t.len());
        assert(rel@ =~= t@.skip(prefix@.len() as int + 1));
        return Some(rel);
    }
    None
}

/// The mount points of drivers, without leading slashes.
pub open spec fn driver_prefixes(mounts: Seq<Mount>) -> Seq<Seq<u8>> {
    Seq::new(mounts.len(), |i: int| ramfs::rel_key(mounts[i].prefix@))
}

/// The channel of the driver that a path leads to, and what is left of it.
pub open spec fn driver_of(path: Seq<u8>, mounts: Seq<Mount>) -> Option<(u64, Seq<u8>)> {
    match longest(ramfs::rel_key(path), driver_prefixes(mounts)) {
        Some((i, rel)) => Some((mounts[i].driver_chan, rel)),
        None => None,
    }
}

/// The channel of the driver that a path leads to, and what is left of the
/// path behind the mount point, which is the longest that fits.
pub fn resolve_mount(path: &[u8], mounts: &[Mount]) -> (r: Option<(u64, Vec<u8>)>)
    ensures
        match r {
            Some((c, rel)) => driver_of(path@, mounts@) == Some((c, rel@)),
            None => driver_of(path@, mounts@) is None,
        },
{
    let t: &[u8] = trim_root(path);
    let ghost ps = driver_prefixes(mounts@);
    let mut best: Option<(usize, &[u8])> = None;
    let mut i: usize = 0;
    assert(ps.take(0) =~= Seq::empty());
    while i < mounts.len()
        invariant
            i <= mounts@.len(),
            t@ == ramfs::rel_key(path@),
            ps == driver_prefixes(mounts@),
            match best {
                Some((j, rel)) => j < i && longest(t@, ps.take(i as int)) == Some((j as int, rel@)),
                None => longest(t@, ps.take(i as int)) is None,
            },
        decreases mounts@.len() - i,
    {
        proof {
            assert(ps.take(i + 1).drop_last() =~= ps.take(i as int));
            assert(ps.take(i + 1).last() == ps[i as int]);
        }
        let prefix: &[u8] = trim_root(&mounts[i].prefix);
        if let Some(rel) = rel_under(t, prefix) {
            let better: bool = match best {
                Some((_, r)) => r.len() > rel.len(),
                None => true,
            };
            if better {
                best = Some((i, rel));
            }
        }
        i += 1;
    }
    assert(ps.take(i as int) =~= ps);
    match best {
        Some((j, rel)) => Some((mounts[j].driver_chan, copy_of(rel))),
        None => None,
    }
}

// ── What mount points add to a listing ──

/// The first component of a path.
pub open spec fn first_part(p: Seq<u8>) -> Seq<u8> {
    p.take(bytes::index_from(p, 0, 47))
}

/// The name that a mount point gives the directory `t`; empty if it is not
/// below it.
pub open spec fn child_at(p: Seq<u8>, t: Seq<u8>) -> Seq<u8> {
    if t.len() == 0 {
        first_part(p)
    } else if p.len() > t.len() && bytes::has_prefix(p, t) && p[t.len() as int] == 47 {
        first_part(p.skip(t.len() as int + 1))
    } else {
        Seq::empty()
    }
}

/// The names that mount points give the directory `t`, each once, in the order
/// of the mount points.
pub open spec fn children_at(ps: Seq<Seq<u8>>, t: Seq<u8>) -> Seq<Seq<u8>>
    decreases ps.len(),
{
    if ps.len() == 0 {
        Seq::empty()
    } else {
        let c = children_at(ps.drop_last(), t);
        let n = child_at(ps.last(), t);
        if n.len() > 0 && !c.contains(n) {
            c.push(n)
        } else {
            c
        }
    }
}

/// A list of names with room for a fixed number of them.
pub struct StrList {
    pub items: Vec<Vec<u8>>,
    pub cap: usize,
}

impl StrList {
    pub open spec fn view(&self) -> Seq<Seq<u8>> {
        bytes::views(self.items@)
    }

    pub fn with_capacity(cap: usize) -> (r: StrList)
        ensures
            r@ == Seq::<Seq<u8>>::empty(),
            r.cap == cap,
    {
        let r = StrList { items: Vec::new(), cap };
        assert(r@ =~= Seq::empty());
        r
    }

    /// Adds a name, if there is room for it.
    pub fn push(&mut self, s: &[u8])
        ensures
            final(self).cap == old(self).cap,
            final(self)@ == (if old(self)@.len() < old(self).cap {
                old(self)@.push(s@)
            } else {
                old(self)@
            }),
    {
        if self.items.len() < self.cap {
            let n: Vec<u8> = copy_of(s);
            proof {
                bytes::lemma_views_push(self.items@, n);
            }
            self.items.push(n);
        }
    }

    pub fn contains(&self, s: &[u8]) -> (r: bool)
        ensures
            r == self@.contains(s@),
    {
        contains_name(&self.items, s)
    }

    pub fn sort(&mut self)
        ensures
            final(self).cap == old(self).cap,
            final(self)@ == names::sorted(old(self)@),
    {
        self.items = sort_names(&self.items);
    }

    pub fn is_empty(&self) -> (r: bool)
        ensures
            r == (self@.len() == 0),
    {
        self.items.len() == 0
    }
}

fn child_name<'a>(p: &'a [u8], t: &[u8]) -> (r: &'a [u8])
    ensures
        r@ == child_at(p@, t@),
{
    let rest: &[u8] = if t.len() == 0 {
        p
    } else if p.len() > t.len() && starts_with(p, t) && p[t.len()] == 47 {
        slice_subrange(p, t.len() + 1, p.len())
    } else {
        let e: &[u8] = slice_subrange(p, 0, 0);
        assert(e@ =~= Seq::empty());
        return e;
    };
    assert(t@.len() > 0 ==> rest@ =~= p@.skip(t@.len() as int + 1));
    let j: usize = find_byte(rest, 0, 47);
    let r: &[u8] = slice_subrange(rest, 0, j);
    assert(r@ =~= first_part(rest@));
    r
}

/// The list of a directory, if it is not empty.
pub open spec fn listing_of(c: Seq<Seq<u8>>) -> Option<Seq<Seq<u8>>> {
    if c.len() == 0 {
        None
    } else {
        Some(names::sorted(c))
    }
}

/// The names that the mount points of drivers give a directory, in order.
/// `None` if there are none.
pub fn synth_children(mounts: &[Mount], path: &[u8]) -> (r: Option<StrList>)
    ensures
        match r {
            Some(l) => listing_of(
                children_at(driver_prefixes(mounts@), dir::stripped(path@)),
            ) == Some(l@),
            None => listing_of(
                children_at(driver_prefixes(mounts@), dir::stripped(path@)),
            ) is None,
        },
{
    let t: &[u8] = strip_slashes(path);
    let ghost ps = driver_prefixes(mounts@);
    let mut out = StrList::with_capacity(mounts.len());
    let mut i: usize = 0;
    assert(ps.take(0) =~= Seq::empty());
    while i < mounts.len()
        invariant
            i <= mounts@.len(),
            t@ == dir::stripped(path@),
            ps == driver_prefixes(mounts@),
            out.cap == mounts@.len(),
            out@.len() <= i,
            out@ == children_at(ps.take(i as int), t@),
        decreases mounts@.len() - i,
    {
        proof {
            assert(ps.take(i + 1).drop_last() =~= ps.take(i as int));
            assert(ps.take(i + 1).last() == ps[i as int]);
        }
        let child: &[u8] = child_name(trim_root(&mounts[i].prefix), t);
        if child.len() > 0 && !out.contains(child) {
            out.push(child);
        }
        i += 1;
    }
    assert(ps.take(i as int) =~= ps);
    if out.is_empty() {
        None
    } else {
        out.sort();
        Some(out)
    }
}

/// The names that mounted file systems give a directory, in order.
pub fn fsmount_children<B: BlockSource>(mounts: &Vec<FsMount<B>>, path: &[u8]) -> (r: Option<
    StrList,
>)
    ensures
        match r {
            Some(l) => listing_of(
                children_at(mount::targets(mounts@), dir::stripped(path@)),
            ) == Some(l@),
            None => listing_of(
                children_at(mount::targets(mounts@), dir::stripped(path@)),
            ) is None,
        },
{
    let t: &[u8] = strip_slashes(path);
    let ghost ps = mount::targets(mounts@);
    let mut out = StrList::with_capacity(mounts.len());
    let mut i: usize = 0;
    assert(ps.take(0) =~= Seq::empty());
    while i < mounts.len()
        invariant
            i <= mounts@.len(),
            t@ == dir::stripped(path@),
            ps == mount::targets(mounts@),
            out.cap == mounts@.len(),
            out@.len() <= i,
            out@ == children_at(ps.take(i as int), t@),
        decreases mounts@.len() - i,
    {
        proof {
            assert(ps.take(i + 1).drop_last() =~= ps.take(i as int));
            assert(ps.take(i + 1).last() == ps[i as int]);
        }
        let child: &[u8] = child_name(&mounts[i].target, t);
        if child.len() > 0 && !out.contains(child) {
            out.push(child);
        }
        i += 1;
    }
    assert(ps.take(i as int) =~= ps);
    if out.is_empty() {
        None
    } else {
        out.sort();
        Some(out)
    }
}

/// A listing with the names that mount points give the directory: each name
/// once, in order.
pub open spec fn union_listing(
    entries: Seq<Seq<u8>>,
    drivers: Seq<Seq<u8>>,
    mounted: Seq<Seq<u8>>,
    path: Seq<u8>,
) -> Seq<Seq<u8>> {
    let t = dir::stripped(path);
    let a = names::joined(entries, names::sorted(children_at(drivers, t)));
    names::sorted(names::joined(a, names::sorted(children_at(mounted, t))))
}

/// A listing with the names that mount points give the directory. Entries of
/// the directory itself are never covered.
pub fn union_mount_children<B: BlockSource>(
    entries: Vec<Vec<u8>>,
    mounts: &[Mount],
    mounts_fat: &Vec<FsMount<B>>,
    path: &[u8],
) -> (r: Vec<Vec<u8>>)
    ensures
        bytes::views(r@) == union_listing(
            bytes::views(entries@),
            driver_prefixes(mounts@),
            mount::targets(mounts_fat@),
            path@,
        ),
{
    let mut out: Vec<Vec<u8>> = entries;
    let ghost t = dir::stripped(path@);
    if let Some(extra) = synth_children(mounts, path) {
        join_names(&mut out, &extra.items);
    } else {
        assert(children_at(driver_prefixes(mounts@), t) =~= Seq::empty());
    }
    if let Some(extra) = fsmount_children(mounts_fat, path) {
        join_names(&mut out, &extra.items);
    } else {
        assert(children_at(mount::targets(mounts_fat@), t) =~= Seq::empty());
    }
    sort_names(&out)
}

pub proof fn lemma_sorted_holds(s: Seq<Seq<u8>>, n: Seq<u8>)
    ensures
        names::sorted(s).contains(n) == s.contains(n),
{
    broadcast use vstd::seq_lib::group_to_multiset_ensures;

    names::law_sorted_in_order(s);
    assert(names::sorted(s).to_multiset().contains(n) == s.to_multiset().contains(n));
}

/// A listing shows every entry of the directory and every mount point in it,
/// and nothing else, in order.
pub proof fn law_listing_shows_mount_points(
    entries: Seq<Seq<u8>>,
    drivers: Seq<Seq<u8>>,
    mounted: Seq<Seq<u8>>,
    path: Seq<u8>,
    n: Seq<u8>,
)
    ensures
        names::in_order(union_listing(entries, drivers, mounted, path)),
        union_listing(entries, drivers, mounted, path).contains(n) == (entries.contains(n)
            || children_at(drivers, dir::stripped(path)).contains(n) || children_at(
            mounted,
            dir::stripped(path),
        ).contains(n)),
{
    let t = dir::stripped(path);
    let a = names::joined(entries, names::sorted(children_at(drivers, t)));
    let b = names::joined(a, names::sorted(children_at(mounted, t)));
    names::law_sorted_in_order(b);
    names::law_joined_holds_both(entries, names::sorted(children_at(drivers, t)));
    names::law_joined_holds_both(a, names::sorted(children_at(mounted, t)));
    lemma_sorted_holds(b, n);
    lemma_sorted_holds(children_at(drivers, t), n);
    lemma_sorted_holds(children_at(mounted, t), n);
    assert(b.contains(n) == (a.contains(n) || names::sorted(children_at(mounted, t)).contains(n)));
    assert(a.contains(n) == (entries.contains(n) || names::sorted(children_at(drivers, t)).contains(
        n,
    )));
}

// ── Local paths ──

/// A path in the realm of drivers: `dev` and what lies below it.
pub open spec fn device_path(path: Seq<u8>) -> bool {
    let t = ramfs::rel_key(path);
    bytes::has_prefix(t, seq![100u8, 101, 118, 47]) || t == seq![100u8, 101, 118]
}

/// The kind of local file system that serves a path; `None` for drivers.
pub open spec fn local_kind<B: BlockSource>(mounts: Seq<FsMount<B>>, path: Seq<u8>) -> Option<
    FsKind,
> {
    if device_path(path) {
        None
    } else {
        match longest(ramfs::rel_key(path), mount::targets(mounts)) {
            Some((i, _)) => if mounts[i].fs is Local {
                Some(FsKind::Local)
            } else {
                Some(FsKind::Fat)
            },
            None => Some(FsKind::Ram),
        }
    }
}

/// The kind of local file system that serves a path. `None` for the paths of
/// drivers.
pub fn resolve_local<B: BlockSource>(mounts_fat: &Vec<FsMount<B>>, path: &[u8]) -> (r: Option<
    FsKind,
>)
    ensures
        r == local_kind(mounts_fat@, path@),
{
    let t: &[u8] = trim_root(path);
    let dev: [u8; 4] = [100, 101, 118, 47];
    assert(dev@ =~= seq![100u8, 101, 118, 47]);
    assert(dev@.subrange(0, 3) =~= seq![100u8, 101, 118]);
    if starts_with(t, dev.as_slice()) || bytes_eq(t, slice_subrange(dev.as_slice(), 0, 3)) {
        return None;
    }
    match mount::find_mount(mounts_fat, path) {
        Some((i, _)) => {
            if mounts_fat[i].is_local() {
                Some(FsKind::Local)
            } else {
                Some(FsKind::Fat)
            }
        },
        None => Some(FsKind::Ram),
    }
}

// ── Names of devices ──

/// The number of a device by its name: `null`, `zero`, `keyboard`, `console`
/// or `kbd`.
pub open spec fn device_number(name: Seq<u8>) -> Option<u64> {
    if name == seq![110u8, 117, 108, 108] {
        Some(DEV_NULL)
    } else if name == seq![122u8, 101, 114, 111] {
        Some(DEV_ZERO)
    } else if name == seq![107u8, 101, 121, 98, 111, 97, 114, 100] {
        Some(DEV_KEYBOARD)
    } else if name == seq![99u8, 111, 110, 115, 111, 108, 101] {
        Some(DEV_CONSOLE)
    } else if name == seq![107u8, 98, 100] {
        Some(DEV_KBD)
    } else {
        None
    }
}

/// The number of a device by its name.
pub fn dev_type(name: &[u8]) -> (r: Option<u64>)
    ensures
        r == device_number(name@),
{
    let null: [u8; 4] = [110, 117, 108, 108];
    let zero: [u8; 4] = [122, 101, 114, 111];
    let keyboard: [u8; 8] = [107, 101, 121, 98, 111, 97, 114, 100];
    let console: [u8; 7] = [99, 111, 110, 115, 111, 108, 101];
    let kbd: [u8; 3] = [107, 98, 100];
    assert(null@ =~= seq![110u8, 117, 108, 108]);
    assert(zero@ =~= seq![122u8, 101, 114, 111]);
    assert(keyboard@ =~= seq![107u8, 101, 121, 98, 111, 97, 114, 100]);
    assert(console@ =~= seq![99u8, 111, 110, 115, 111, 108, 101]);
    assert(kbd@ =~= seq![107u8, 98, 100]);
    if bytes_eq(name, null.as_slice()) {
        Some(DEV_NULL)
    } else if bytes_eq(name, zero.as_slice()) {
        Some(DEV_ZERO)
    } else if bytes_eq(name, keyboard.as_slice()) {
        Some(DEV_KEYBOARD)
    } else if bytes_eq(name, console.as_slice()) {
        Some(DEV_CONSOLE)
    } else if bytes_eq(name, kbd.as_slice()) {
        Some(DEV_KBD)
    } else {
        None
    }
}

/// The handle of a disk (`sda` to `sdp`) or a partition of one (`sda1` to
/// `sda64`): the disk times 65536, and the partition, 0 for the whole disk.
pub open spec fn disk_number(name: Seq<u8>) -> Option<int> {
    if name.len() < 3 || name[0] != 115 || name[1] != 100 || !(97 <= name[2] <= 112) {
        None
    } else if name.len() == 3 {
        Some((name[2] - 97) * 65536)
    } else {
        let tail = name.skip(3);
        if bytes::all_digits(tail) && 1 <= bytes::decimal_value(tail) <= 64 {
            Some((name[2] - 97) * 65536 + bytes::decimal_value(tail))
        } else {
            None
        }
    }
}

/// The handle of a disk or a partition by its name.
pub fn disk_handle(name: &[u8]) -> (r: Option<u32>)
    ensures
        match r {
            Some(h) => disk_number(name@) == Some(h as int),
            None => disk_number(name@) is None,
        },
{
    if name.len() < 3 || name[0] != 115 || name[1] != 100 || name[2] < 97 || name[2] > 112 {
        return None;
    }
    let disk: u32 = (name[2] - 97) as u32;
    if name.len() == 3 {
        return Some(disk * 65536);
    }
    let tail: &[u8] = slice_subrange(name, 3, name.len());
    assert(tail@ =~= name@.skip(3));
    match parse_digits(tail, 64) {
        Some(n) => {
            if n == 0 {
                None
            } else {
                Some(disk * 65536 + n as u32)
            }
        },
        None => None,
    }
}

} // verus!
