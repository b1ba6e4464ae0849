//! Mounted file systems: a table from targets to file systems.
use vstd::prelude::*;
use vstd::slice::slice_subrange;

use super::block::BlockSource;
use super::fat32::dir;
use super::fat32::dir::strip_slashes;
use super::fat32::types::Fat32;
use super::mount_legacy;
use super::mount_legacy::rel_under;
use super::provider;
use super::provider::{FsType, MountedFs};
use super::ramfs;
use super::ramfs::{trim_root, RamFs};
use crate::bytes;
use crate::bytes::{bytes_eq, concat, copy_of, find_byte, has_byte, starts_with};
use crate::shell::cwd;
use crate::text;

verus! {

// ── Sources ──

/// Where a file system comes from.
pub enum Source {
    /// A disk, by its name, serial number or label.
    Block { key: Vec<u8> },
}

/// `/dev/`
pub open spec fn dev_prefix() -> Seq<u8> {
    seq![47u8, 100, 101, 118, 47]
}

/// `UUID=`
pub open spec fn uuid_prefix() -> Seq<u8> {
    seq![85u8, 85, 73, 68, 61]
}

/// `LABEL=`
pub open spec fn label_prefix() -> Seq<u8> {
    seq![76u8, 65, 66, 69, 76, 61]
}

/// `disk/by-uuid/`
pub open spec fn by_uuid_prefix() -> Seq<u8> {
    seq![100u8, 105, 115, 107, 47, 98, 121, 45, 117, 117, 105, 100, 47]
}

/// `disk/by-label/`
pub open spec fn by_label_prefix() -> Seq<u8> {
    seq![100u8, 105, 115, 107, 47, 98, 121, 45, 108, 97, 98, 101, 108, 47]
}

/// `ramfs`
pub open spec fn ramfs_name() -> Seq<u8> {
    seq![114u8, 97, 109, 102, 115]
}

pub open spec fn hex_byte(c: u8) -> bool {
    48 <= c <= 57 || 65 <= c <= 70 || 97 <= c <= 102
}

pub open spec fn double_slash(s: Seq<u8>) -> bool {
    exists|i: int| 0 <= i < s.len() - 1 && #[trigger] s[i] == 47 && s[i + 1] == 47
}

/// The normal form of a source: `/dev/` and a name, `UUID=` and eight
/// hexadecimal digits, or `LABEL=` and up to eleven bytes without a slash.
pub open spec fn source_form(source: Seq<u8>) -> Option<Seq<u8>> {
    let s = text::trimmed_form(source);
    if bytes::has_prefix(s, dev_prefix()) {
        let name = s.skip(5);
        if name.len() == 0 || name.len() > 32 || double_slash(name) || dir::stripped(name).len()
            == 0 {
            None
        } else {
            Some(dev_prefix() + dir::stripped(name))
        }
    } else if bytes::has_prefix(s, uuid_prefix()) {
        if s.len() == 13 && forall|i: int| 5 <= i < 13 ==> hex_byte(#[trigger] s[i]) {
            Some(s)
        } else {
            None
        }
    } else if bytes::has_prefix(s, label_prefix()) {
        if 6 < s.len() <= 17 && !s.skip(6).contains(47u8) {
            Some(s)
        } else {
            None
        }
    } else {
        None
    }
}

fn has_double_slash(s: &[u8]) -> (r: bool)
    ensures
        r == double_slash(s@),
{
    let mut i: usize = 0;
    while i < s.len()
        invariant
            i <= s@.len(),
            forall|k: int| 0 <= k < i && k < s@.len() - 1 ==> !(#[trigger] s@[k] == 47 && s@[k + 1]
                == 47),
        decreases s@.len() - i,
    {
        if i + 1 < s.len() && s[i] == 47 && s[i + 1] == 47 {
            assert(s@[i as int] == 47);
            return true;
        }
        i += 1;
    }
    false
}

/// The normal form of a source.
pub fn normalize_source(source: &[u8]) -> (r: Option<Vec<u8>>)
    ensures
        match r {
            Some(s) => source_form(source@) == Some(s@),
            None => source_form(source@) is None,
        },
{
    let s: Vec<u8> = text::trim(source);
    let dev: [u8; 5] = [47, 100, 101, 118, 47];
    let uuid: [u8; 5] = [85, 85, 73, 68, 61];
    let label: [u8; 6] = [76, 65, 66, 69, 76, 61];
    assert(dev@ =~= dev_prefix());
    assert(uuid@ =~= uuid_prefix());
    assert(label@ =~= label_prefix());
    if starts_with(&s, dev.as_slice()) {
        let name: &[u8] = slice_subrange(&s, 5, s.len());
        assert(name@ =~= s@.skip(5));
        if name.len() == 0 || has_double_slash(name) || name.len() > 32 {
            return None;
        }
        let name: &[u8] = strip_slashes(name);
        if name.len() == 0 {
            return None;
        }
        return Some(concat(dev.as_slice(), name));
    }
    if starts_with(&s, uuid.as_slice()) {
        if s.len() != 13 {
            return None;
        }
        let mut i: usize = 5;
        while i < 13
            invariant
                5 <= i <= 13,
                s@.len() == 13,
                s@ == text::trimmed_form(source@),
                !bytes::has_prefix(s@, dev_prefix()),
                bytes::has_prefix(s@, uuid_prefix()),
                forall|k: int| 5 <= k < i ==> hex_byte(#[trigger] s@[k]),
            decreases 13 - i,
        {
            let c: u8 = s[i];
            let hex: bool = (48 <= c && c <= 57) || (65 <= c && c <= 70) || (97 <= c && c <= 102);
            if !hex {
                assert(!hex_byte(s@[i as int]));
                assert(source_form(source@) is None);
                return None;
            }
            i += 1;
        }
        return Some(s);
    }
    if starts_with(&s, label.as_slice()) {
        let name: &[u8] = slice_subrange(&s, 6, s.len());
        assert(name@ =~= s@.skip(6));
        if name.len() == 0 || name.len() > 11 || has_byte(name, 47) {
            return None;
        }
        return Some(s);
    }
    None
}

/// A key: it has a byte, and no slash.
pub open spec fn plain_key(k: Seq<u8>) -> Option<Seq<u8>> {
    if k.len() > 0 && !k.contains(47u8) {
        Some(k)
    } else {
        None
    }
}

/// What a driver is asked for: the name, the serial number or the label.
pub open spec fn key_of(source: Seq<u8>) -> Option<Seq<u8>> {
    if bytes::has_prefix(source, dev_prefix()) {
        let name = source.skip(5);
        if bytes::has_prefix(name, by_uuid_prefix()) {
            plain_key(name.skip(13))
        } else if bytes::has_prefix(name, by_label_prefix()) {
            plain_key(name.skip(14))
        } else {
            plain_key(name)
        }
    } else if bytes::has_prefix(source, uuid_prefix()) {
        Some(source.skip(5))
    } else if bytes::has_prefix(source, label_prefix()) {
        Some(source.skip(6))
    } else {
        None
    }
}

fn as_key(k: &[u8]) -> (r: Option<Vec<u8>>)
    ensures
        match r {
            Some(s) => plain_key(k@) == Some(s@),
            None => plain_key(k@) is None,
        },
{
    if k.len() > 0 && !has_byte(k, 47) {
        Some(copy_of(k))
    } else {
        None
    }
}

/// What a driver is asked for.
pub fn resolve_key(source: &[u8]) -> (r: Option<Vec<u8>>)
    ensures
        match r {
            Some(s) => key_of(source@) == Some(s@),
            None => key_of(source@) is None,
        },
{
    let dev: [u8; 5] = [47, 100, 101, 118, 47];
    let uuid: [u8; 5] = [85, 85, 73, 68, 61];
    let label: [u8; 6] = [76, 65, 66, 69, 76, 61];
    let by_uuid: [u8; 13] = [100, 105, 115, 107, 47, 98, 121, 45, 117, 117, 105, 100, 47];
    let by_label: [u8; 14] = [100, 105, 115, 107, 47, 98, 121, 45, 108, 97, 98, 101, 108, 47];
    assert(dev@ =~= dev_prefix());
    assert(uuid@ =~= uuid_prefix());
    assert(label@ =~= label_prefix());
    assert(by_uuid@ =~= by_uuid_prefix());
    assert(by_label@ =~= by_label_prefix());
    if starts_with(source, dev.as_slice()) {
        let name: &[u8] = slice_subrange(source, 5, source.len());
        assert(name@ =~= source@.skip(5));
        if starts_with(name, by_uuid.as_slice()) {
            let tail: &[u8] = slice_subrange(name, 13, name.len());
            assert(tail@ =~= name@.skip(13));
            return as_key(tail);
        }
        if starts_with(name, by_label.as_slice()) {
            let tail: &[u8] = slice_subrange(name, 14, name.len());
            assert(tail@ =~= name@.skip(14));
            return as_key(tail);
        }
        return as_key(name);
    }
    if starts_with(source, uuid.as_slice()) {
        let k: &[u8] = slice_subrange(source, 5, source.len());
        assert(k@ =~= source@.skip(5));
        return Some(copy_of(k));
    }
    if starts_with(source, label.as_slice()) {
        let k: &[u8] = slice_subrange(source, 6, source.len());
        assert(k@ =~= source@.skip(6));
        return Some(copy_of(k));
    }
    None
}

impl Source {
    pub open spec fn key(&self) -> Seq<u8> {
        match *self {
            Source::Block { key } => key@,
        }
    }

    /// The source that a normal form names.
    pub fn parse(norm: &[u8]) -> (r: Option<Source>)
        ensures
            match r {
                Some(s) => key_of(norm@) == Some(s.key()),
                None => key_of(norm@) is None,
            },
    {
        match resolve_key(norm) {
            Some(key) => Some(Source::Block { key }),
            None => None,
        }
    }
}

/// The keys that a driver can be asked for: up to 16 bytes.
pub open spec fn askable(k: Seq<u8>) -> bool {
    0 < k.len() <= 16
}

/// The key to ask the disk driver for, for a source in its normal form.
pub open spec fn asked_key(norm: Seq<u8>) -> Option<Seq<u8>> {
    match key_of(norm) {
        Some(k) => if askable(k) {
            Some(k)
        } else {
            None
        },
        None => None,
    }
}

/// The key to ask the disk driver for, for a source in its normal form.
pub fn ask_key(norm: &[u8]) -> (r: Option<Vec<u8>>)
    ensures
        match r {
            Some(k) => asked_key(norm@) == Some(k@),
            None => asked_key(norm@) is None,
        },
{
    match resolve_key(norm) {
        Some(k) => {
            if k.len() == 0 || k.len() > 16 {
                None
            } else {
                Some(k)
            }
        },
        None => None,
    }
}

/// The key to ask the disk driver for before a source can be mounted. None is
/// needed for the file system in memory, nor for a source that is malformed.
pub fn mount_key(source: &[u8]) -> (r: Option<Vec<u8>>)
    ensures
        match r {
            Some(k) => text::trimmed_form(source@) != ramfs_name() && (source_form(source@)
                matches Some(n) && asked_key(n) == Some(k@)),
            None => text::trimmed_form(source@) == ramfs_name() || (source_form(source@)
                matches Some(n) ==> asked_key(n) is None),
        },
{
    let name: [u8; 5] = [114, 97, 109, 102, 115];
    assert(name@ =~= ramfs_name());
    if bytes_eq(&text::trim(source), name.as_slice()) {
        return None;
    }
    match normalize_source(source) {
        Some(n) => ask_key(&n),
        None => None,
    }
}

/// The handle of a source, given the driver's answer for its key: `None` where
/// the driver knows none, or could not be asked.
pub fn resolve_mount_source(source: &[u8], answer: Option<u32>) -> (r: Option<u32>)
    ensures
        r == (if asked_key(source@) is Some {
            answer
        } else {
            None
        }),
{
    match ask_key(source) {
        Some(_) => answer,
        None => None,
    }
}

/// What becomes of a source, given the disk that the driver has for its key:
/// `None` if there is none. A disk whose boot sector cannot be read or
/// describes no volume gives an inactive file system.
pub fn negotiate<B: BlockSource>(source: &Source, disk: Option<B>) -> (r: Option<
    (FsType, MountedFs<B>),
>)
    ensures
        match r {
            Some((ty, fs)) => askable(source.key()) && disk is Some && ty == FsType::Vfat
                && provider::mounted_from(disk->0, fs),
            None => !askable(source.key()) || disk is None,
        },
{
    match source {
        Source::Block { key } => {
            if key.len() == 0 || key.len() > 16 {
                return None;
            }
            match disk {
                Some(d) => Some((FsType::Vfat, MountedFs::Fat(Fat32::mount(d)))),
                None => None,
            }
        },
    }
}

// ── Targets ──

/// All components are real ones.
pub open spec fn all_real(s: Seq<u8>) -> bool
    decreases s.len(),
{
    let j = bytes::index_from(s, 0, 47);
    if j < 0 || j >= s.len() {
        cwd::real_component(s)
    } else {
        cwd::real_component(s.take(j)) && all_real(s.skip(j + 1))
    }
}

/// The normal form of a target: a path without slashes at its ends, whose
/// components are neither empty nor `.` nor `..`.
pub open spec fn target_form(target: Seq<u8>) -> Option<Seq<u8>> {
    let t = dir::stripped(text::trimmed_form(target));
    if t.len() > 0 && all_real(t) {
        Some(t)
    } else {
        None
    }
}

fn is_real(c: &[u8]) -> (r: bool)
    ensures
        r == cwd::real_component(c@),
{
    let dots: [u8; 2] = [46, 46];
    assert(dots@ =~= seq![46u8, 46u8]);
    assert(dots@.subrange(0, 1) =~= seq![46u8]);
    c.len() > 0 && !bytes_eq(c, slice_subrange(dots.as_slice(), 0, 1)) && !bytes_eq(
        c,
        dots.as_slice(),
    )
}

/// The normal form of a target.
pub fn normalize_target(target: &[u8]) -> (r: Option<Vec<u8>>)
    ensures
        match r {
            Some(t) => target_form(target@) == Some(t@),
            None => target_form(target@) is None,
        },
{
    let trimmed: Vec<u8> = text::trim(target);
    let t: &[u8] = strip_slashes(&trimmed);
    if t.len() == 0 {
        return None;
    }
    let mut rest: &[u8] = t;
    let mut more: bool = true;
    while more
        invariant
            t@ == dir::stripped(text::trimmed_form(target@)),
            t@.len() > 0,
            more ==> all_real(t@) == all_real(rest@),
            !more ==> all_real(t@),
        decreases if more {
            rest@.len() + 1
        } else {
            0
        },
    {
        let j: usize = find_byte(rest, 0, 47);
        let c: &[u8] = slice_subrange(rest, 0, j);
        proof {
            bytes::lemma_index_from(rest@, 0, 47);
            assert(c@ =~= rest@.take(j as int));
            if j == rest@.len() {
                assert(c@ =~= rest@);
            }
        }
        if !is_real(c) {
            return None;
        }
        if j < rest.len() {
            let next: &[u8] = slice_subrange(rest, j + 1, rest.len());
            assert(next@ =~= rest@.skip(j + 1));
            rest = next;
        } else {
            more = false;
        }
    }
    Some(copy_of(t))
}

// ── The table ──

/// A mounted file system. Descriptors know it by its id, which stays the same
/// for as long as it is mounted.
pub struct FsMount<B: BlockSource> {
    pub id: u64,
    /// The target, in its normal form.
    pub target: Vec<u8>,
    /// The source, in its normal form.
    pub source: Vec<u8>,
    /// Options; kept, not interpreted.
    pub opts: Vec<u8>,
    pub fstype: FsType,
    pub fs: MountedFs<B>,
}

/// The volume that is mounted on every start, and where: `UUID=4F4C4556` on
/// `fat`.
pub fn static_mount() -> (r: (Vec<u8>, Vec<u8>))
    ensures
        r.0@ == uuid_prefix() + seq![52u8, 70, 52, 67, 52, 53, 53, 54],
        r.1@ == seq![102u8, 97, 116],
{
    let s: [u8; 13] = [85, 85, 73, 68, 61, 52, 70, 52, 67, 52, 53, 53, 54];
    let t: [u8; 3] = [102, 97, 116];
    assert(s@ =~= uuid_prefix() + seq![52u8, 70, 52, 67, 52, 53, 53, 54]);
    assert(t@ =~= seq![102u8, 97, 116]);
    (copy_of(s.as_slice()), copy_of(t.as_slice()))
}

pub open spec fn targets<B: BlockSource>(mounts: Seq<FsMount<B>>) -> Seq<Seq<u8>> {
    Seq::new(mounts.len(), |i: int| mounts[i].target@)
}

/// All mounted file systems are in order.
pub open spec fn mounts_ready<B: BlockSource>(mounts: Seq<FsMount<B>>) -> bool {
    forall|i: int| 0 <= i < mounts.len() ==> (#[trigger] mounts[i]).fs.fs_ready()
}

/// The first mount with an id; as many as there are mounts, if there is none.
pub open spec fn id_index<B: BlockSource>(mounts: Seq<FsMount<B>>, id: u64) -> int
    decreases mounts.len(),
{
    if mounts.len() == 0 {
        0
    } else {
        let i = id_index(mounts.drop_last(), id);
        if i < mounts.len() - 1 || mounts.last().id == id {
            i
        } else {
            mounts.len() as int
        }
    }
}

/// The first mount on a target; as many as there are mounts, if there is none.
pub open spec fn target_index(ts: Seq<Seq<u8>>, t: Seq<u8>) -> int
    decreases ts.len(),
{
    if ts.len() == 0 {
        0
    } else {
        let i = target_index(ts.drop_last(), t);
        if i < ts.len() - 1 || ts.last() == t {
            i
        } else {
            ts.len() as int
        }
    }
}

pub proof fn lemma_target_index(ts: Seq<Seq<u8>>, t: Seq<u8>)
    ensures
        0 <= target_index(ts, t) <= ts.len(),
        target_index(ts, t) < ts.len() ==> ts[target_index(ts, t)] == t,
        forall|i: int| 0 <= i < target_index(ts, t) ==> #[trigger] ts[i] != t,
    decreases ts.len(),
{
    if ts.len() > 0 {
        lemma_target_index(ts.drop_last(), t);
        let d = ts.drop_last();
        assert forall|i: int| 0 <= i < target_index(ts, t) implies #[trigger] ts[i] != t by {
            if i < ts.len() - 1 {
                assert(d[i] == ts[i]);
            }
        }
    }
}

pub proof fn lemma_id_index<B: BlockSource>(mounts: Seq<FsMount<B>>, id: u64)
    ensures
        0 <= id_index(mounts, id) <= mounts.len(),
        id_index(mounts, id) < mounts.len() ==> mounts[id_index(mounts, id)].id == id,
        forall|i: int| 0 <= i < id_index(mounts, id) ==> (#[trigger] mounts[i]).id != id,
    decreases mounts.len(),
{
    if mounts.len() > 0 {
        lemma_id_index(mounts.drop_last(), id);
        let d = mounts.drop_last();
        assert forall|i: int| 0 <= i < id_index(mounts, id) implies (#[trigger] mounts[i]).id
            != id by {
            if i < mounts.len() - 1 {
                assert(d[i] == mounts[i]);
            }
        }
    }
}

/// The position of a mount by its id.
pub fn by_id<B: BlockSource>(mounts: &Vec<FsMount<B>>, id: u64) -> (r: Option<usize>)
    ensures
        match r {
            Some(i) => i < mounts@.len() && i == id_index(mounts@, id),
            None => id_index(mounts@, id) == mounts@.len(),
        },
{
    let mut i: usize = 0;
    assert(mounts@.take(0) =~= Seq::empty());
    while i < mounts.len()
        invariant
            i <= mounts@.len(),
            id_index(mounts@.take(i as int), id) == i,
            forall|k: int| 0 <= k < i ==> (#[trigger] mounts@[k]).id != id,
        decreases mounts@.len() - i,
    {
        proof {
            assert(mounts@.take(i + 1).drop_last() =~= mounts@.take(i as int));
        }
        if mounts[i].id == id {
            proof {
                lemma_id_index(mounts@, id);
                let x = id_index(mounts@, id);
                assert(mounts@[i as int].id == id);
                if x < i {
                    assert(mounts@[x].id != id);
                }
            }
            return Some(i);
        }
        i += 1;
    }
    assert(mounts@.take(i as int) =~= mounts@);
    None
}

/// A mount by its id.
pub fn by_id_mut<B: BlockSource>(mounts: &mut Vec<FsMount<B>>, id: u64) -> (r: Option<
    &mut FsMount<B>,
>)
    ensures
        match r {
            Some(m) => {
                let i = id_index(old(mounts)@, id);
                &&& i < old(mounts)@.len()
                &&& *m == old(mounts)@[i]
                &&& final(mounts)@ == old(mounts)@.update(i, *final(m))
            },
            None => id_index(old(mounts)@, id) == old(mounts)@.len() && final(mounts)@ == old(
                mounts,
            )@,
        },
{
    match by_id(mounts, id) {
        Some(i) => {
            proof {
                lemma_id_index(mounts@, id);
            }
            Some(&mut mounts[i])
        },
        None => None,
    }
}

/// The position of the mount on a target.
pub fn by_target<B: BlockSource>(mounts: &Vec<FsMount<B>>, target: &[u8]) -> (r: Option<usize>)
    ensures
        match r {
            Some(i) => i < mounts@.len() && i == target_index(targets(mounts@), target@),
            None => target_index(targets(mounts@), target@) == mounts@.len(),
        },
{
    let ghost ts = targets(mounts@);
    proof {
        lemma_target_index(ts, target@);
    }
    let mut i: usize = 0;
    while i < mounts.len()
        invariant
            i <= mounts@.len(),
            ts == targets(mounts@),
            forall|k: int| 0 <= k < i ==> #[trigger] ts[k] != target@,
            0 <= target_index(ts, target@) <= ts.len(),
            target_index(ts, target@) < ts.len() ==> ts[target_index(ts, target@)] == target@,
            forall|k: int| 0 <= k < target_index(ts, target@) ==> #[trigger] ts[k] != target@,
        decreases mounts@.len() - i,
    {
        assert(ts[i as int] == mounts@[i as int].target@);
        if bytes_eq(&mounts[i].target, target) {
            return Some(i);
        }
        i += 1;
    }
    None
}

/// The mount that a path leads to, and what is left of it.
pub fn find_mount<B: BlockSource>(mounts: &Vec<FsMount<B>>, path: &[u8]) -> (r: Option<
    (usize, Vec<u8>),
>)
    ensures
        match r {
            Some((i, rel)) => i < mounts@.len() && mount_legacy::longest(
                ramfs::rel_key(path@),
                targets(mounts@),
            ) == Some((i as int, rel@)),
            None => mount_legacy::longest(ramfs::rel_key(path@), targets(mounts@)) is None,
        },
{
    let t: &[u8] = trim_root(path);
    let ghost ps = targets(mounts@);
    let mut best: Option<(usize, &[u8])> = None;
    let mut i: usize = 0;
    assert(ps.take(0) =~= Seq::empty());
    while i < mounts.len()
        invariant
            i <= mounts@.len(),
            t@ == ramfs::rel_key(path@),
            ps == targets(mounts@),
            match best {
                Some((j, rel)) => j < i && mount_legacy::longest(t@, ps.take(i as int)) == Some(
                    (j as int, rel@),
                ),
                None => mount_legacy::longest(t@, ps.take(i as int)) is None,
            },
        decreases mounts@.len() - i,
    {
        proof {
            assert(ps.take(i + 1).drop_last() =~= ps.take(i as int));
            assert(ps.take(i + 1).last() == ps[i as int]);
        }
        if let Some(rel) = rel_under(t, &mounts[i].target) {
            let better: bool = match best {
                Some((_, r)) => rel.len() < r.len(),
                None => true,
            };
            if better {
                best = Some((i, rel));
            }
        }
        i += 1;
    }
    assert(ps.take(i as int) =~= ps);
    match best {
        Some((j, rel)) => Some((j, copy_of(rel))),
        None => None,
    }
}

/// A mount like another but for the file system on it.
pub open spec fn same_mount<B: BlockSource>(a: FsMount<B>, b: FsMount<B>) -> bool {
    a.id == b.id && a.target@ == b.target@ && a.source@ == b.source@ && a.opts@ == b.opts@
}

/// The table with the file system of one mount replaced.
pub open spec fn only_fs_of<B: BlockSource>(
    before: Seq<FsMount<B>>,
    after: Seq<FsMount<B>>,
    i: int,
) -> bool {
    &&& after.len() == before.len()
    &&& forall|k: int|
        0 <= k < before.len() && k != i ==> #[trigger] after[k] == before[k]
    &&& 0 <= i < before.len() ==> same_mount(after[i], before[i]) && (after[i].fs is Local)
        == (before[i].fs is Local)
}

/// A mount was put on a target: the one that was there is replaced and keeps
/// its id, else a new one comes last, with the next id.
pub open spec fn put<B: BlockSource>(
    before: Seq<FsMount<B>>,
    after: Seq<FsMount<B>>,
    target: Seq<u8>,
    source: Seq<u8>,
    opts: Seq<u8>,
    next_id: u64,
) -> bool {
    let i = target_index(targets(before), target);
    &&& after.len() == (if i < before.len() {
        before.len()
    } else {
        before.len() + 1
    })
    &&& forall|k: int| 0 <= k < before.len() && k != i ==> #[trigger] after[k] == before[k]
    &&& after[i].target@ == target
    &&& after[i].source@ == source
    &&& after[i].opts@ == opts
    &&& after[i].id == (if i < before.len() {
        before[i].id
    } else {
        next_id
    })
}

pub open spec fn next_after<B: BlockSource>(before: Seq<FsMount<B>>, target: Seq<u8>, next_id: u64) -> u64 {
    if target_index(targets(before), target) < before.len() {
        next_id
    } else if next_id == u64::MAX {
        0
    } else {
        (next_id + 1) as u64
    }
}

fn put_mount<B: BlockSource>(
    mounts: &mut Vec<FsMount<B>>,
    target: Vec<u8>,
    source: Vec<u8>,
    opts: &[u8],
    fstype: FsType,
    fs: MountedFs<B>,
    next_id: &mut u64,
)
    requires
        mounts_ready(old(mounts)@),
        fs.fs_ready(),
    ensures
        mounts_ready(final(mounts)@),
        put(old(mounts)@, final(mounts)@, target@, source@, opts@, *old(next_id)),
        ({
            let i = target_index(targets(old(mounts)@), target@);
            final(mounts)@[i].fstype == fstype && final(mounts)@[i].fs == fs
        }),
        *final(next_id) == next_after(old(mounts)@, target@, *old(next_id)),
{
    match by_target(mounts, &target) {
        Some(i) => {
            let id: u64 = mounts[i].id;
            mounts.set(i, FsMount { id, target, source, opts: copy_of(opts), fstype, fs });
        },
        None => {
            let id: u64 = *next_id;
            *next_id = id.wrapping_add(1);
            mounts.push(FsMount { id, target, source, opts: copy_of(opts), fstype, fs });
        },
    }
}

/// What a mount request asks for.
pub enum SpecView {
    /// Nothing that can be mounted.
    Bad,
    /// A new file system in memory.
    Memory { target: Seq<u8> },
    /// The volume on a disk.
    Volume { target: Seq<u8>, source: Seq<u8> },
}

pub open spec fn spec_of(source: Seq<u8>, target: Seq<u8>) -> SpecView {
    match target_form(target) {
        None => SpecView::Bad,
        Some(t) => if text::trimmed_form(source) == ramfs_name() {
            SpecView::Memory { target: t }
        } else {
            match source_form(source) {
                None => SpecView::Bad,
                Some(s) => if asked_key(s) is Some {
                    SpecView::Volume { target: t, source: s }
                } else {
                    SpecView::Bad
                },
            }
        },
    }
}

/// Mounts a source on a target. `disk` is the disk that the driver has for the
/// key of the source. True if the file system is active; where the source or
/// the target is malformed or there is no disk, nothing changes, and a disk
/// without a readable volume is mounted inactive.
pub fn apply_mount_spec<B: BlockSource>(
    mounts: &mut Vec<FsMount<B>>,
    source: &[u8],
    target: &[u8],
    opts: &[u8],
    next_id: &mut u64,
    disk: Option<B>,
) -> (active: bool)
    requires
        mounts_ready(old(mounts)@),
    ensures
        mounts_ready(final(mounts)@),
        match spec_of(source@, target@) {
            SpecView::Bad => !active && final(mounts)@ == old(mounts)@ && *final(next_id) == *old(
                next_id,
            ),
            SpecView::Memory { target } => {
                let i = target_index(targets(old(mounts)@), target);
                &&& active
                &&& put(
                    old(mounts)@,
                    final(mounts)@,
                    target,
                    ramfs_name(),
                    opts@,
                    *old(next_id),
                )
                &&& final(mounts)@[i].fstype == FsType::Ramfs
                &&& provider::empty_memory(final(mounts)@[i].fs)
                &&& *final(next_id) == next_after(old(mounts)@, target, *old(next_id))
            },
            SpecView::Volume { target, source } => if disk is None {
                !active && final(mounts)@ == old(mounts)@ && *final(next_id) == *old(next_id)
            } else {
                let i = target_index(targets(old(mounts)@), target);
                &&& put(old(mounts)@, final(mounts)@, target, source, opts@, *old(next_id))
                &&& final(mounts)@[i].fstype == FsType::Vfat
                &&& provider::mounted_from(disk->0, final(mounts)@[i].fs)
                &&& active == final(mounts)@[i].fs.active()
                &&& *final(next_id) == next_after(old(mounts)@, target, *old(next_id))
            },
        },
{
    let norm_target: Vec<u8> = match normalize_target(target) {
        Some(t) => t,
        None => {
            return false;
        },
    };
    let name: [u8; 5] = [114, 97, 109, 102, 115];
    assert(name@ =~= ramfs_name());
    if bytes_eq(&text::trim(source), name.as_slice()) {
        put_mount(
            mounts,
            norm_target,
            copy_of(name.as_slice()),
            opts,
            FsType::Ramfs,
            MountedFs::Local(RamFs::new()),
            next_id,
        );
        return true;
    }
    let norm_source: Vec<u8> = match normalize_source(source) {
        Some(s) => s,
        None => {
            return false;
        },
    };
    let src: Source = match Source::parse(&norm_source) {
        Some(s) => s,
        None => {
            return false;
        },
    };
    match negotiate(&src, disk) {
        Some((fstype, fs)) => {
            let active: bool = fs.is_active();
            put_mount(mounts, norm_target, norm_source, opts, fstype, fs, next_id);
            active
        },
        None => false,
    }
}

/// The key of a mount that is inactive: what to ask the driver for to bring it
/// back.
pub fn pending_key<B: BlockSource>(mounts: &Vec<FsMount<B>>, mi: usize) -> (r: Option<Vec<u8>>)
    ensures
        match r {
            Some(k) => mi < mounts@.len() && !mounts@[mi as int].fs.active() && asked_key(
                mounts@[mi as int].source@,
            ) == Some(k@),
            None => mi < mounts@.len() && !mounts@[mi as int].fs.active() ==> asked_key(
                mounts@[mi as int].source@,
            ) is None,
        },
{
    if mi >= mounts.len() || mounts[mi].is_active() {
        return None;
    }
    ask_key(&mounts[mi].source)
}

/// What a mount is brought back to: `fs` is the file system on it now.
pub open spec fn revived<B: BlockSource>(
    before: Seq<FsMount<B>>,
    after: Seq<FsMount<B>>,
    mi: int,
    disk: Option<B>,
) -> bool {
    if mi >= before.len() || before[mi].fs.active() {
        after == before
    } else if asked_key(before[mi].source@) is Some && disk is Some {
        &&& only_fs_of(before, after, mi)
        &&& after[mi].fstype == FsType::Vfat
        &&& provider::mounted_from(disk->0, after[mi].fs)
    } else {
        after == before
    }
}

pub open spec fn bumped(g: u64) -> u64 {
    if g == u64::MAX {
        0
    } else {
        (g + 1) as u64
    }
}

/// Brings an inactive mount back, with the disk that the driver has for its
/// key. True if it is active now. The generation goes up where a volume came
/// back: what was known of its files no longer holds.
pub fn reactivate_mount<B: BlockSource>(
    mounts: &mut Vec<FsMount<B>>,
    mi: usize,
    fgen: &mut u64,
    disk: Option<B>,
) -> (ok: bool)
    requires
        mounts_ready(old(mounts)@),
    ensures
        mounts_ready(final(mounts)@),
        revived(old(mounts)@, final(mounts)@, mi as int, disk),
        ok == (mi < old(mounts)@.len() && final(mounts)@[mi as int].fs.active()),
        *final(fgen) == (if mi < old(mounts)@.len() && !old(mounts)@[mi as int].fs.active()
            && final(mounts)@[mi as int].fs.active() {
            bumped(*old(fgen))
        } else {
            *old(fgen)
        }),
{
    if mi >= mounts.len() {
        return false;
    }
    if mounts[mi].is_active() {
        return true;
    }
    let src: Source = match Source::parse(&mounts[mi].source) {
        Some(s) => s,
        None => {
            return false;
        },
    };
    match negotiate(&src, disk) {
        Some((fstype, fs)) => {
            let ok: bool = fs.is_active();
            let id: u64 = mounts[mi].id;
            let target: Vec<u8> = copy_of(&mounts[mi].target);
            let source: Vec<u8> = copy_of(&mounts[mi].source);
            let opts: Vec<u8> = copy_of(&mounts[mi].opts);
            mounts.set(mi, FsMount { id, target, source, opts, fstype, fs });
            if ok {
                *fgen = fgen.wrapping_add(1);
            }
            ok
        },
        None => false,
    }
}

/// Brings the mount with an id back.
pub fn reactivate_mount_by_id<B: BlockSource>(
    mounts: &mut Vec<FsMount<B>>,
    id: u64,
    fgen: &mut u64,
    disk: Option<B>,
) -> (ok: bool)
    requires
        mounts_ready(old(mounts)@),
    ensures
        mounts_ready(final(mounts)@),
        revived(old(mounts)@, final(mounts)@, id_index(old(mounts)@, id), disk),
        ok == (id_index(old(mounts)@, id) < old(mounts)@.len() && final(mounts)@[id_index(
            old(mounts)@,
            id,
        )].fs.active()),
        *final(fgen) == (if ok && !old(mounts)@[id_index(old(mounts)@, id)].fs.active() {
            bumped(*old(fgen))
        } else {
            *old(fgen)
        }),
{
    proof {
        lemma_id_index(mounts@, id);
    }
    match by_id(mounts, id) {
        Some(mi) => reactivate_mount(mounts, mi, fgen, disk),
        None => false,
    }
}

/// The generation after a mount was brought back or not.
pub open spec fn gen_after(was: bool, is: bool, g: u64) -> u64 {
    if !was && is {
        bumped(g)
    } else {
        g
    }
}

/// The position of the active mount that a path leads to, and what is left of
/// it. A mount that was inactive is brought back first, with the disk that the
/// driver has for its key.
pub fn resolve_at<B: BlockSource>(
    mounts: &mut Vec<FsMount<B>>,
    path: &[u8],
    fgen: &mut u64,
    disk: Option<B>,
) -> (r: Option<(usize, Vec<u8>)>)
    requires
        mounts_ready(old(mounts)@),
    ensures
        mounts_ready(final(mounts)@),
        targets(final(mounts)@) == targets(old(mounts)@),
        match mount_legacy::longest(ramfs::rel_key(path@), targets(old(mounts)@)) {
            Some((i, rel)) => {
                &&& 0 <= i < old(mounts)@.len()
                &&& final(mounts)@.len() == old(mounts)@.len()
                &&& revived(old(mounts)@, final(mounts)@, i, disk)
                &&& if final(mounts)@[i].fs.active() {
                    r matches Some((j, x)) && j == i && x@ == rel
                } else {
                    r is None
                }
                &&& *final(fgen) == gen_after(
                    old(mounts)@[i].fs.active(),
                    final(mounts)@[i].fs.active(),
                    *old(fgen),
                )
            },
            None => r is None && final(mounts)@ == old(mounts)@ && *final(fgen) == *old(fgen),
        },
{
    match find_mount(mounts, path) {
        Some((i, rel)) => {
            let ok: bool = reactivate_mount(mounts, i, fgen, disk);
            assert(targets(mounts@) =~= targets(old(mounts)@));
            if ok {
                Some((i, rel))
            } else {
                None
            }
        },
        None => None,
    }
}

/// The id of the active mount that a path leads to, and what is left of it.
pub fn resolve_fsmount<B: BlockSource>(
    mounts: &mut Vec<FsMount<B>>,
    path: &[u8],
    fgen: &mut u64,
    disk: Option<B>,
) -> (r: Option<(u64, Vec<u8>)>)
    requires
        mounts_ready(old(mounts)@),
    ensures
        mounts_ready(final(mounts)@),
        targets(final(mounts)@) == targets(old(mounts)@),
        match mount_legacy::longest(ramfs::rel_key(path@), targets(old(mounts)@)) {
            Some((i, rel)) => {
                &&& revived(old(mounts)@, final(mounts)@, i, disk)
                &&& if final(mounts)@[i].fs.active() {
                    r matches Some((id, x)) && id == old(mounts)@[i].id && x@ == rel
                } else {
                    r is None
                }
                &&& *final(fgen) == gen_after(
                    old(mounts)@[i].fs.active(),
                    final(mounts)@[i].fs.active(),
                    *old(fgen),
                )
            },
            None => r is None && final(mounts)@ == old(mounts)@ && *final(fgen) == *old(fgen),
        },
{
    match resolve_at(mounts, path, fgen, disk) {
        Some((i, rel)) => Some((mounts[i].id, rel)),
        None => None,
    }
}

/// The key to ask the driver for before a path can be served: that of the
/// mount it leads to, if it is inactive.
pub fn path_key<B: BlockSource>(mounts: &Vec<FsMount<B>>, path: &[u8]) -> (r: Option<Vec<u8>>)
    ensures
        match mount_legacy::longest(ramfs::rel_key(path@), targets(mounts@)) {
            Some((i, _)) => 0 <= i < mounts@.len() && match r {
                Some(k) => !mounts@[i].fs.active() && asked_key(mounts@[i].source@) == Some(k@),
                None => mounts@[i].fs.active() || asked_key(mounts@[i].source@) is None,
            },
            None => r is None,
        },
{
    match find_mount(mounts, path) {
        Some((i, _)) => pending_key(mounts, i),
        None => None,
    }
}

impl<B: BlockSource> FsMount<B> {
    /// The volume, if this is one and it is active.
    pub fn fat(&self) -> (r: Option<&Fat32<B>>)
        ensures
            match r {
                Some(f) => self.fs == MountedFs::Fat(Some(*f)),
                None => !(self.fs matches MountedFs::Fat(Some(_))),
            },
    {
        match &self.fs {
            MountedFs::Fat(Some(f)) => Some(f),
            _ => None,
        }
    }

    /// The volume, if this is one and it is active.
    pub fn fat_mut(&mut self) -> (r: Option<&mut Fat32<B>>)
        ensures
            *final(self) == (FsMount { fs: final(self).fs, ..*old(self) }),
            match r {
                Some(f) => old(self).fs == MountedFs::Fat(Some(*f)) && final(self).fs
                    == MountedFs::Fat(Some(*final(f))),
                None => !(old(self).fs matches MountedFs::Fat(Some(_))) && final(self).fs == old(
                    self,
                ).fs,
            },
    {
        match &mut self.fs {
            MountedFs::Fat(Some(f)) => Some(f),
            _ => None,
        }
    }

    /// The file system, if it is active.
    pub fn local_dyn(&mut self) -> (r: Option<&mut MountedFs<B>>)
        ensures
            *final(self) == (FsMount { fs: final(self).fs, ..*old(self) }),
            match r {
                Some(f) => old(self).fs.active() && *f == old(self).fs && final(self).fs
                    == *final(f),
                None => !old(self).fs.active() && final(self).fs == old(self).fs,
            },
    {
        if self.is_active() {
            Some(&mut self.fs)
        } else {
            None
        }
    }

    /// The peer of a channel is gone. If it was the one that the disk of this
    /// volume talks to, the volume becomes inactive. True if it did.
    pub fn note_peer_death(&mut self, disk_lost: bool) -> (dropped: bool)
        ensures
            *final(self) == (FsMount { fs: final(self).fs, ..*old(self) }),
            dropped == (disk_lost && (old(self).fs matches MountedFs::Fat(Some(_)))),
            final(self).fs == (if dropped {
                MountedFs::Fat(None)
            } else {
                old(self).fs
            }),
    {
        if disk_lost && self.fat().is_some() {
            self.fs = MountedFs::Fat(None);
            return true;
        }
        false
    }

    pub fn is_active(&self) -> (r: bool)
        ensures
            r == self.fs.active(),
    {
        self.fs.is_active()
    }

    pub fn is_local(&self) -> (r: bool)
        ensures
            r == (self.fs is Local),
    {
        match &self.fs {
            MountedFs::Local(_) => true,
            MountedFs::Fat(_) => false,
        }
    }
}

/// The value that goes into a reply: the result, or the code of the refusal.
pub fn to_reply_res(val: Result<u64, u64>) -> (r: u64)
    ensures
        r == (match val {
            Ok(v) => v,
            Err(e) => e,
        }),
{
    match val {
        Ok(v) => v,
        Err(e) => e,
    }
}

/// No two mounts share a target or an id, and the next id is new.
pub open spec fn table_ok<B: BlockSource>(mounts: Seq<FsMount<B>>, next_id: u64) -> bool {
    &&& forall|i: int, j: int|
        0 <= i < j < mounts.len() ==> (#[trigger] mounts[i]).target@ != (
        #[trigger] mounts[j]).target@ && mounts[i].id != mounts[j].id
    &&& forall|i: int| 0 <= i < mounts.len() ==> (#[trigger] mounts[i]).id < next_id
}

/// Mounting keeps targets and ids distinct, and every mount that was there
/// keeps its id.
pub proof fn law_mount_ids_are_stable<B: BlockSource>(
    before: Seq<FsMount<B>>,
    after: Seq<FsMount<B>>,
    target: Seq<u8>,
    source: Seq<u8>,
    opts: Seq<u8>,
    next_id: u64,
)
    requires
        table_ok(before, next_id),
        put(before, after, target, source, opts, next_id),
        next_id < u64::MAX,
    ensures
        table_ok(after, next_after(before, target, next_id)),
        forall|i: int|
            0 <= i < before.len() ==> (#[trigger] after[i]).id == before[i].id && after[i].target@
                == before[i].target@,
{
    let ts = targets(before);
    let x = target_index(ts, target);
    lemma_target_index(ts, target);
    assert forall|i: int| 0 <= i < before.len() implies (#[trigger] after[i]).id == before[i].id
        && after[i].target@ == before[i].target@ by {
        assert(ts[i] == before[i].target@);
    }
    assert forall|i: int, j: int| 0 <= i < j < after.len() implies (#[trigger] after[i]).target@
        != (#[trigger] after[j]).target@ && after[i].id != after[j].id by {
        if j < before.len() {
            assert(before[i].target@ != before[j].target@);
        } else {
            assert(ts[i] == before[i].target@);
        }
    }
}

} // verus!
