//! Nodes: whole disks and partitions, by name, serial number or label, and
//! what they hold, through the cache.
use vstd::prelude::*;
use vstd::slice::slice_subrange;

use super::cache;
use super::cache::{
    contains, insert_from, invalidate_run, lookup_into, note_misses, Cache, CacheView,
};
use super::part;
use super::part::{parse_mbr, PartInfo};
use crate::bytes;
use crate::bytes::{append_bytes, bytes_eq, concat, copy_of, has_byte, is_utf8};
use crate::fs::block;
use crate::fs::block::{BlockSource, Image};
use crate::fs::fat32::mount;
use crate::fs::fat32::mount::{decode_boot, fat_bpb_identity};
use crate::fs::mount as fs_mount;

verus! {

/// The longest name that can be asked for.
pub const DISK_MAX_NAME: usize = 16;

/// How many sectors a request can be about.
pub const DISK_MAX_SECTORS: usize = 7;

/// A node: its name, its handle, and the serial number and the label of the
/// volume on it.
pub struct Node {
    pub name: Vec<u8>,
    pub handle: u32,
    pub vol_uuid: Option<u32>,
    pub vol_label: Option<Vec<u8>>,
}

/// A node as a value.
#[verifier::ext_equal]
pub struct NodeView {
    pub name: Seq<u8>,
    pub handle: u32,
    pub vol_uuid: Option<u32>,
    pub vol_label: Option<Seq<u8>>,
}

impl View for Node {
    type V = NodeView;

    open spec fn view(&self) -> NodeView {
        NodeView {
            name: self.name@,
            handle: self.handle,
            vol_uuid: self.vol_uuid,
            vol_label: match self.vol_label {
                Some(l) => Some(l@),
                None => None,
            },
        }
    }
}

pub open spec fn node_views(n: Seq<Node>) -> Seq<NodeView> {
    Seq::new(n.len(), |i: int| n[i]@)
}

/// Where a partition lies.
#[derive(Clone, Copy, PartialEq, Eq, Debug, Structural)]
pub struct PartLoc {
    pub start: u32,
    pub sectors: u32,
}

// ── Identity ──

/// A label that can be a name: it has a byte, is a text and has no slash.
pub open spec fn usable_label(l: Seq<u8>) -> Option<Seq<u8>> {
    let t = mount::trimmed(l);
    if t.len() > 0 && vstd::utf8::valid_utf8(t) && !t.contains(47u8) {
        Some(t)
    } else {
        None
    }
}

/// The serial number and the label of the volume that a boot sector describes.
pub open spec fn identity_of(boot: Seq<u8>) -> (Option<u32>, Option<Seq<u8>>) {
    if mount::boot_geometry(boot) is Some {
        (mount::boot_serial(boot), usable_label(mount::boot_label(boot)))
    } else {
        (None, None)
    }
}

pub open spec fn label_view(l: Option<Vec<u8>>) -> Option<Seq<u8>> {
    match l {
        Some(x) => Some(x@),
        None => None,
    }
}

/// The serial number and the label of the volume that a boot sector describes.
pub fn identity(boot: &[u8; 512]) -> (r: (Option<u32>, Option<Vec<u8>>))
    ensures
        (r.0, label_view(r.1)) == identity_of(boot@),
{
    if decode_boot(boot.as_slice()).is_none() {
        return (None, None);
    }
    let (serial, raw): (Option<u32>, Vec<u8>) = fat_bpb_identity(boot.as_slice());
    let mut n: usize = raw.len();
    assert(raw@.take(n as int) =~= raw@);
    while n > 0 && raw[n - 1] == 32
        invariant
            n <= raw@.len(),
            mount::trimmed(raw@) == mount::trimmed(raw@.take(n as int)),
        decreases n,
    {
        assert(raw@.take(n as int).drop_last() =~= raw@.take(n - 1));
        n -= 1;
    }
    let t: &[u8] = slice_subrange(&raw, 0, n);
    assert(t@ =~= raw@.take(n as int));
    let label: Option<Vec<u8>> = if n > 0 && is_utf8(t) && !has_byte(t, 47) {
        Some(copy_of(t))
    } else {
        None
    };
    (serial, label)
}

/// The serial number and the label of the volume at a sector of a device.
pub fn sniff_identity<D: BlockSource>(disk: &mut D, base: u64) -> (r: (
    Option<u32>,
    Option<Vec<u8>>,
))
    ensures
        final(disk).image() == old(disk).image(),
        final(disk).faults() >= old(disk).faults(),
        final(disk).faults() == old(disk).faults() ==> (r.0, label_view(r.1)) == identity_of(
            old(disk).image()[base],
        ),
        final(disk).faults() > old(disk).faults() ==> r.0 is None && r.1 is None,
{
    let mut sec: [u8; 512] = [0u8; 512];
    if !disk.read_sector(base, &mut sec) {
        return (None, None);
    }
    identity(&sec)
}

// ── Names ──

/// `sda` for the first disk, `sdb` for the second; with a number for a
/// partition, counted from 1.
pub open spec fn node_name(disk: int, sub: int) -> Seq<u8> {
    let d = seq![115u8, 100, (97 + disk) as u8];
    if sub == 0 {
        d
    } else {
        d + bytes::decimal(sub as nat)
    }
}

fn name_of(disk: usize, sub: usize) -> (r: Vec<u8>)
    requires
        disk < 26,
    ensures
        r@ == node_name(disk as int, sub as int),
{
    let mut n: Vec<u8> = Vec::new();
    n.push(115);
    n.push(100);
    n.push(97 + disk as u8);
    assert(n@ =~= seq![115u8, 100, (97 + disk) as u8]);
    if sub > 0 {
        bytes::push_u64(&mut n, sub as u64);
    }
    n
}

/// The node of a partition, or of the whole disk.
pub open spec fn node_at(disk: int, sub: int, boot: Seq<u8>) -> NodeView {
    let (uuid, label) = identity_of(boot);
    NodeView {
        name: node_name(disk, sub),
        handle: (disk * 65536 + sub) as u32,
        vol_uuid: uuid,
        vol_label: label,
    }
}

/// The nodes of the first `n` partitions.
pub open spec fn part_nodes(disk: int, img: Image, ps: Seq<PartInfo>, n: nat) -> Seq<NodeView>
    decreases n,
{
    if n == 0 {
        Seq::empty()
    } else {
        part_nodes(disk, img, ps, (n - 1) as nat).push(
            node_at(disk, n as int, img[ps[n - 1].start as u64]),
        )
    }
}

/// The nodes of a disk: the whole of it, and its partitions.
pub open spec fn disk_nodes(disk: int, img: Image) -> Seq<NodeView> {
    let ps = part::partitions(img[0]);
    seq![node_at(disk, 0, img[0])] + part_nodes(disk, img, ps, ps.len())
}

/// Where the partitions of a disk lie.
pub open spec fn part_locs(ps: Seq<PartInfo>) -> Seq<PartLoc> {
    Seq::new(ps.len(), |i: int| PartLoc { start: ps[i].start, sectors: ps[i].sectors })
}

/// A node whose first sector could not be read: nothing but its name is known.
pub open spec fn bare_node(disk: int, sub: int) -> NodeView {
    NodeView {
        name: node_name(disk, sub),
        handle: (disk * 65536 + sub) as u32,
        vol_uuid: None,
        vol_label: None,
    }
}

/// A node as it was found.
pub open spec fn node_found(v: NodeView, disk: int, sub: int, boot: Seq<u8>) -> bool {
    v == node_at(disk, sub, boot) || v == bare_node(disk, sub)
}

/// The nodes of a disk as they were found: the partitions are known or, if the
/// first sector could not be read, none of them.
pub open spec fn disk_found(
    disk: int,
    img: Image,
    added: Seq<NodeView>,
    locs: Seq<PartLoc>,
) -> bool {
    let ps = part::partitions(img[0]);
    &&& locs == part_locs(ps) || locs.len() == 0
    &&& added.len() == locs.len() + 1
    &&& node_found(added[0], disk, 0, img[0])
    &&& forall|k: int|
        1 <= k < added.len() ==> node_found(
            #[trigger] added[k],
            disk,
            k,
            img[ps[k - 1].start as u64],
        )
}

/// Adds the nodes of a disk, and tells where its partitions lie.
pub fn add_nodes<D: BlockSource>(nodes: &mut Vec<Node>, disk: &mut D, i: usize) -> (r: Vec<PartLoc>)
    requires
        i < 26,
    ensures
        final(disk).image() == old(disk).image(),
        final(disk).faults() >= old(disk).faults(),
        final(disk).faults() == old(disk).faults() ==> {
            &&& node_views(final(nodes)@) == node_views(old(nodes)@) + disk_nodes(
                i as int,
                old(disk).image(),
            )
            &&& r@ == part_locs(part::partitions(old(disk).image()[0]))
        },
        final(nodes)@.len() == old(nodes)@.len() + r@.len() + 1,
        node_views(final(nodes)@).take(old(nodes)@.len() as int) == node_views(old(nodes)@),
        disk_found(
            i as int,
            old(disk).image(),
            node_views(final(nodes)@).skip(old(nodes)@.len() as int),
            r@,
        ),
{
    let ghost before = node_views(nodes@);
    let ghost c0 = nodes@.len() as int;
    let ghost img = disk.image();
    let ghost f0 = disk.faults();
    let (uuid, label): (Option<u32>, Option<Vec<u8>>) = sniff_identity(disk, 0);
    nodes.push(
        Node {
            name: name_of(i, 0),
            handle: i as u32 * 65536,
            vol_uuid: uuid,
            vol_label: label,
        },
    );
    let mut locs: Vec<PartLoc> = Vec::new();
    let mut sec0: [u8; 512] = [0u8; 512];
    assert(node_found(nodes@[c0]@, i as int, 0, img[0]));
    assert(node_views(nodes@).take(c0) =~= before);
    if !disk.read_sector(0, &mut sec0) {
        return locs;
    }
    let mut parsed: Vec<PartInfo> = Vec::new();
    parse_mbr(&sec0, &mut parsed);
    let ghost ps = part::partitions(img[0]);
    assert(parsed@ =~= ps);
    let mut p: usize = 0;
    proof {
        if disk.faults() == f0 {
            assert(node_views(nodes@) =~= before + seq![node_at(i as int, 0, img[0])] + part_nodes(
                i as int,
                img,
                ps,
                0,
            ));
        }
    }
    while p < parsed.len()
        invariant
            p <= parsed@.len(),
            parsed@.len() <= 4,
            i < 26,
            parsed@ == ps,
            ps == part::partitions(img[0]),
            disk.image() == img,
            disk.faults() >= f0,
            locs@.len() == p,
            c0 == before.len(),
            nodes@.len() == c0 + 1 + p,
            node_views(nodes@).take(c0) == before,
            node_found(nodes@[c0]@, i as int, 0, img[0]),
            forall|k: int|
                1 <= k <= p ==> node_found(
                    (#[trigger] nodes@[c0 + k])@,
                    i as int,
                    k,
                    img[ps[k - 1].start as u64],
                ),
            forall|k: int|
                0 <= k < p ==> #[trigger] locs@[k] == (PartLoc {
                    start: ps[k].start,
                    sectors: ps[k].sectors,
                }),
            disk.faults() == f0 ==> node_views(nodes@) == before + seq![
                node_at(i as int, 0, img[0]),
            ] + part_nodes(i as int, img, ps, p as nat),
        decreases parsed@.len() - p,
    {
        let start: u32 = parsed[p].start;
        let ghost n0 = node_views(nodes@);
        let ghost f1 = disk.faults();
        let (uuid, label): (Option<u32>, Option<Vec<u8>>) = sniff_identity(disk, start as u64);
        nodes.push(
            Node {
                name: name_of(i, p + 1),
                handle: i as u32 * 65536 + (p as u32 + 1),
                vol_uuid: uuid,
                vol_label: label,
            },
        );
        locs.push(PartLoc { start, sectors: parsed[p].sectors });
        proof {
            assert(node_views(nodes@).take(c0) =~= n0.take(c0));
            assert(node_found(nodes@[c0 + p + 1]@, i as int, p + 1, img[start as u64]));
            if disk.faults() == f0 {
                assert(f1 == f0);
                assert(nodes@.last()@ == node_at(i as int, p + 1, img[start as u64]));
                assert(node_views(nodes@) =~= n0.push(nodes@.last()@));
                assert(node_views(nodes@) =~= before + seq![node_at(i as int, 0, img[0])]
                    + part_nodes(i as int, img, ps, (p + 1) as nat));
            }
        }
        p += 1;
    }
    proof {
        assert(locs@ =~= part_locs(ps));
        let added = node_views(nodes@).skip(c0);
        assert forall|k: int| 1 <= k < added.len() implies node_found(
            #[trigger] added[k],
            i as int,
            k,
            img[ps[k - 1].start as u64],
        ) by {
            assert(added[k] == nodes@[c0 + k]@);
        }
        if disk.faults() == f0 {
            assert(node_views(nodes@) =~= before + disk_nodes(i as int, img));
        }
    }
    locs
}

/// The eight hexadecimal digits of a number.
pub open spec fn hex8(n: u32) -> Seq<u8> {
    Seq::new(8, |i: int| hex_digit((n as int / pow16(7 - i)) % 16))
}

pub open spec fn pow16(k: int) -> int
    decreases k,
{
    if k <= 0 {
        1
    } else {
        16 * pow16(k - 1)
    }
}

pub open spec fn hex_digit(d: int) -> u8 {
    if d < 10 {
        (48 + d) as u8
    } else {
        (55 + d) as u8
    }
}

fn digit_of(d: u32) -> (r: u8)
    requires
        d < 16,
    ensures
        r == hex_digit(d as int),
{
    if d < 10 {
        48 + d as u8
    } else {
        55 + d as u8
    }
}

fn push_hex8(v: &mut Vec<u8>, n: u32)
    ensures
        final(v)@ == old(v)@ + hex8(n),
{
    proof {
        reveal_with_fuel(pow16, 9);
    }
    v.push(digit_of(n / 0x1000_0000 % 16));
    v.push(digit_of(n / 0x100_0000 % 16));
    v.push(digit_of(n / 0x10_0000 % 16));
    v.push(digit_of(n / 0x1_0000 % 16));
    v.push(digit_of(n / 0x1000 % 16));
    v.push(digit_of(n / 0x100 % 16));
    v.push(digit_of(n / 0x10 % 16));
    v.push(digit_of(n % 16));
    assert(pow16(0) == 1 && pow16(1) == 0x10 && pow16(2) == 0x100 && pow16(3) == 0x1000 && pow16(4)
        == 0x1_0000 && pow16(5) == 0x10_0000 && pow16(6) == 0x100_0000 && pow16(7) == 0x1000_0000);
    assert(v@ =~= old(v)@ + hex8(n));
}

/// The mount points of a node: its name, and its serial number and its label,
/// if it has them.
pub open spec fn node_prefixes(n: NodeView) -> Seq<Seq<u8>> {
    let a = seq![fs_mount::dev_prefix() + n.name];
    let b = match n.vol_uuid {
        Some(u) => a.push(fs_mount::dev_prefix() + fs_mount::by_uuid_prefix() + hex8(u)),
        None => a,
    };
    match n.vol_label {
        Some(l) => b.push(fs_mount::dev_prefix() + fs_mount::by_label_prefix() + l),
        None => b,
    }
}

/// The mount points of nodes, in order.
pub open spec fn all_prefixes(n: Seq<NodeView>) -> Seq<Seq<u8>>
    decreases n.len(),
{
    if n.len() == 0 {
        Seq::empty()
    } else {
        all_prefixes(n.drop_last()) + node_prefixes(n.last())
    }
}

fn push_name(v: &mut Vec<Vec<u8>>, x: Vec<u8>)
    ensures
        bytes::views(final(v)@) == bytes::views(old(v)@).push(x@),
{
    proof {
        bytes::lemma_views_push(v@, x);
    }
    v.push(x);
}

/// The mount points of nodes, in order.
pub fn prefixes_of(nodes: &Vec<Node>) -> (r: Vec<Vec<u8>>)
    ensures
        bytes::views(r@) == all_prefixes(node_views(nodes@)),
{
    let ghost ns = node_views(nodes@);
    let dev: [u8; 5] = [47, 100, 101, 118, 47];
    let by_uuid: [u8; 13] = [100, 105, 115, 107, 47, 98, 121, 45, 117, 117, 105, 100, 47];
    let by_label: [u8; 14] = [100, 105, 115, 107, 47, 98, 121, 45, 108, 97, 98, 101, 108, 47];
    assert(dev@ =~= fs_mount::dev_prefix());
    assert(by_uuid@ =~= fs_mount::by_uuid_prefix());
    assert(by_label@ =~= fs_mount::by_label_prefix());
    let mut out: Vec<Vec<u8>> = Vec::new();
    let mut i: usize = 0;
    assert(ns.take(0) =~= Seq::empty());
    assert(bytes::views(out@) =~= Seq::empty());
    while i < nodes.len()
        invariant
            i <= nodes@.len(),
            ns == node_views(nodes@),
            dev@ == fs_mount::dev_prefix(),
            by_uuid@ == fs_mount::by_uuid_prefix(),
            by_label@ == fs_mount::by_label_prefix(),
            bytes::views(out@) == all_prefixes(ns.take(i as int)),
        decreases nodes@.len() - i,
    {
        let ghost o0 = bytes::views(out@);
        proof {
            assert(ns.take(i + 1).drop_last() =~= ns.take(i as int));
            assert(ns.take(i + 1).last() == nodes@[i as int]@);
        }
        let n: &Node = &nodes[i];
        push_name(&mut out, concat(dev.as_slice(), &n.name));
        if let Some(u) = n.vol_uuid {
            let mut p: Vec<u8> = concat(dev.as_slice(), by_uuid.as_slice());
            push_hex8(&mut p, u);
            push_name(&mut out, p);
        }
        if let Some(l) = &n.vol_label {
            let mut p: Vec<u8> = concat(dev.as_slice(), by_label.as_slice());
            append_bytes(&mut p, l);
            push_name(&mut out, p);
        }
        assert(bytes::views(out@) =~= o0 + node_prefixes(n@));
        i += 1;
    }
    assert(ns.take(i as int) =~= ns);
    out
}

// ── Finding a node ──

/// The value of hexadecimal digits.
pub open spec fn hex_value(s: Seq<u8>) -> int
    decreases s.len(),
{
    if s.len() == 0 {
        0
    } else {
        hex_value(s.drop_last()) * 16 + hex_digit_value(s.last())
    }
}

pub open spec fn hex_digit_value(c: u8) -> int {
    if 48 <= c <= 57 {
        c - 48
    } else if 65 <= c <= 70 {
        c - 55
    } else {
        c - 87
    }
}

/// A key that is a serial number: eight hexadecimal digits.
pub open spec fn serial_of(key: Seq<u8>) -> Option<int> {
    if key.len() == 8 && forall|i: int| 0 <= i < 8 ==> fs_mount::hex_byte(#[trigger] key[i]) {
        Some(hex_value(key))
    } else {
        None
    }
}

fn parse_serial(key: &[u8]) -> (r: Option<u32>)
    ensures
        match r {
            Some(v) => serial_of(key@) == Some(v as int),
            None => serial_of(key@) is None,
        },
{
    if key.len() != 8 {
        return None;
    }
    let mut v: u64 = 0;
    let mut i: usize = 0;
    assert(key@.take(0) =~= Seq::empty());
    let ghost mut cap: int = 1;
    while i < 8
        invariant
            i <= 8,
            key@.len() == 8,
            forall|k: int| 0 <= k < i ==> fs_mount::hex_byte(#[trigger] key@[k]),
            v == hex_value(key@.take(i as int)),
            cap == pow16(i as int),
            v < cap,
            cap <= 0x1_0000_0000,
        decreases 8 - i,
    {
        let c: u8 = key[i];
        let d: u64 = if 48 <= c && c <= 57 {
            (c - 48) as u64
        } else if 65 <= c && c <= 70 {
            (c - 55) as u64
        } else if 97 <= c && c <= 102 {
            (c - 87) as u64
        } else {
            assert(!fs_mount::hex_byte(key@[i as int]));
            return None;
        };
        proof {
            assert(key@.take(i + 1).drop_last() =~= key@.take(i as int));
            assert(key@.take(i + 1).last() == c);
            reveal_with_fuel(pow16, 10);
            assert(pow16(i + 1) == 16 * pow16(i as int));
            assert(pow16(8) == 0x1_0000_0000);
            lemma_pow16_grows(i + 1, 8);
            cap = pow16(i + 1);
        }
        v = v * 16 + d;
        i += 1;
    }
    assert(key@.take(i as int) =~= key@);
    Some(v as u32)
}

proof fn lemma_pow16_grows(a: int, b: int)
    requires
        0 <= a <= b,
    ensures
        0 < pow16(a) <= pow16(b),
    decreases b,
{
    if a < b {
        lemma_pow16_grows(a, b - 1);
    } else if a > 0 {
        lemma_pow16_grows(a - 1, a - 1);
    }
}

/// The first node of a name.
pub open spec fn by_name(n: Seq<NodeView>, key: Seq<u8>) -> Option<u32>
    decreases n.len(),
{
    if n.len() == 0 {
        None
    } else if n[0].name == key {
        Some(n[0].handle)
    } else {
        by_name(n.skip(1), key)
    }
}

/// The first node with a serial number.
pub open spec fn by_serial(n: Seq<NodeView>, v: int) -> Option<u32>
    decreases n.len(),
{
    if n.len() == 0 {
        None
    } else if n[0].vol_uuid matches Some(u) && u == v {
        Some(n[0].handle)
    } else {
        by_serial(n.skip(1), v)
    }
}

/// The first node with a label.
pub open spec fn by_label(n: Seq<NodeView>, key: Seq<u8>) -> Option<u32>
    decreases n.len(),
{
    if n.len() == 0 {
        None
    } else if n[0].vol_label == Some(key) {
        Some(n[0].handle)
    } else {
        by_label(n.skip(1), key)
    }
}

/// The handle of the node that a key names: by its name, else its serial
/// number, else its label.
pub open spec fn resolved(n: Seq<NodeView>, key: Seq<u8>) -> Option<u32> {
    if by_name(n, key) is Some {
        by_name(n, key)
    } else if serial_of(key) is Some && by_serial(n, serial_of(key)->0) is Some {
        by_serial(n, serial_of(key)->0)
    } else {
        by_label(n, key)
    }
}

fn find_name(nodes: &Vec<Node>, key: &[u8]) -> (r: Option<u32>)
    ensures
        r == by_name(node_views(nodes@), key@),
{
    let ghost ns = node_views(nodes@);
    let mut i: usize = 0;
    assert(ns.skip(0) =~= ns);
    while i < nodes.len()
        invariant
            i <= nodes@.len(),
            ns == node_views(nodes@),
            by_name(ns, key@) == by_name(ns.skip(i as int), key@),
        decreases nodes@.len() - i,
    {
        assert(ns.skip(i as int).skip(1) =~= ns.skip(i + 1));
        assert(ns.skip(i as int)[0] == nodes@[i as int]@);
        if bytes_eq(&nodes[i].name, key) {
            return Some(nodes[i].handle);
        }
        i += 1;
    }
    None
}

fn find_serial(nodes: &Vec<Node>, v: u32) -> (r: Option<u32>)
    ensures
        r == by_serial(node_views(nodes@), v as int),
{
    let ghost ns = node_views(nodes@);
    let mut i: usize = 0;
    assert(ns.skip(0) =~= ns);
    while i < nodes.len()
        invariant
            i <= nodes@.len(),
            ns == node_views(nodes@),
            by_serial(ns, v as int) == by_serial(ns.skip(i as int), v as int),
        decreases nodes@.len() - i,
    {
        assert(ns.skip(i as int).skip(1) =~= ns.skip(i + 1));
        assert(ns.skip(i as int)[0] == nodes@[i as int]@);
        if let Some(u) = nodes[i].vol_uuid {
            if u == v {
                return Some(nodes[i].handle);
            }
        }
        i += 1;
    }
    None
}

fn find_label(nodes: &Vec<Node>, key: &[u8]) -> (r: Option<u32>)
    ensures
        r == by_label(node_views(nodes@), key@),
{
    let ghost ns = node_views(nodes@);
    let mut i: usize = 0;
    assert(ns.skip(0) =~= ns);
    while i < nodes.len()
        invariant
            i <= nodes@.len(),
            ns == node_views(nodes@),
            by_label(ns, key@) == by_label(ns.skip(i as int), key@),
        decreases nodes@.len() - i,
    {
        assert(ns.skip(i as int).skip(1) =~= ns.skip(i + 1));
        assert(ns.skip(i as int)[0] == nodes@[i as int]@);
        if let Some(l) = &nodes[i].vol_label {
            if bytes_eq(l, key) {
                return Some(nodes[i].handle);
            }
        }
        i += 1;
    }
    None
}

/// The handle of the node that a key names.
pub fn resolve_node(nodes: &Vec<Node>, key: &[u8]) -> (r: Option<u32>)
    ensures
        r == resolved(node_views(nodes@), key@),
{
    if let Some(h) = find_name(nodes, key) {
        return Some(h);
    }
    if let Some(v) = parse_serial(key) {
        if let Some(h) = find_serial(nodes, v) {
            return Some(h);
        }
    }
    find_label(nodes, key)
}

// ── Sectors of a node ──

/// Where the node of a handle lies: the disk, the first sector, and how many
/// there are.
pub open spec fn located(
    handle: u32,
    disk_sectors: Seq<u64>,
    parts: Seq<Vec<PartLoc>>,
) -> Option<(int, int, int)> {
    let disk = handle as int / 65536;
    let sub = handle as int % 65536;
    if disk >= disk_sectors.len() {
        None
    } else if sub == 0 {
        Some((disk, 0, disk_sectors[disk] as int))
    } else if sub - 1 < parts[disk]@.len() {
        let p = parts[disk]@[sub - 1];
        Some((disk, p.start as int, p.sectors as int))
    } else {
        None
    }
}

/// Where the node of a handle lies.
pub fn locate(handle: u32, disk_sectors: &[u64], parts: &[Vec<PartLoc>]) -> (r: Option<
    (usize, u64, u64),
>)
    requires
        parts@.len() >= disk_sectors@.len(),
    ensures
        match r {
            Some((d, b, n)) => d < disk_sectors@.len() && b + n <= u64::MAX && located(
                handle,
                disk_sectors@,
                parts@,
            ) == Some((d as int, b as int, n as int)),
            None => located(handle, disk_sectors@, parts@) is None,
        },
{
    let disk: usize = (handle / 65536) as usize;
    let sub: usize = (handle % 65536) as usize;
    if disk >= disk_sectors.len() {
        return None;
    }
    if sub == 0 {
        return Some((disk, 0, disk_sectors[disk]));
    }
    if sub - 1 >= parts[disk].len() {
        return None;
    }
    let p: PartLoc = parts[disk][sub - 1];
    Some((disk, p.start as u64, p.sectors as u64))
}

/// What the disks hold.
pub open spec fn images<D: BlockSource>(disks: Seq<D>) -> Seq<Image> {
    Seq::new(disks.len(), |i: int| disks[i].image())
}

/// The disk and the first sector of `n` sectors of a node; `None` if they are
/// not all there.
pub open spec fn run_at(
    handle: u32,
    lba: u64,
    n: int,
    disk_sectors: Seq<u64>,
    parts: Seq<Vec<PartLoc>>,
    disks: int,
) -> Option<(int, int)> {
    match located(handle, disk_sectors, parts) {
        Some((d, base, count)) => if lba + n <= count && d < disks {
            Some((d, base + lba))
        } else {
            None
        },
        None => None,
    }
}

fn find_run(
    handle: u32,
    lba: u64,
    n: usize,
    disk_sectors: &[u64],
    parts: &[Vec<PartLoc>],
    disks: usize,
) -> (r: Option<(usize, u64)>)
    requires
        parts@.len() >= disk_sectors@.len(),
    ensures
        match r {
            Some((d, p)) => d < disks && d < 65536 && p + n <= u64::MAX && run_at(
                handle,
                lba,
                n as int,
                disk_sectors@,
                parts@,
                disks as int,
            ) == Some((d as int, p as int)),
            None => run_at(handle, lba, n as int, disk_sectors@, parts@, disks as int) is None,
        },
{
    match locate(handle, disk_sectors, parts) {
        Some((d, base, count)) => match lba.checked_add(n as u64) {
            Some(end) => {
                if end > count || d >= disks {
                    None
                } else {
                    Some((d, base + lba))
                }
            },
            None => None,
        },
        None => None,
    }
}

/// Reading does nothing to the disks, and what is cached stays as they are.
pub open spec fn only_read<D: BlockSource>(
    before: Seq<D>,
    after: Seq<D>,
    c: Seq<cache::Slot>,
) -> bool {
    &&& after.len() == before.len()
    &&& images(after) == images(before)
    &&& cache::coherent(c, images(after))
    &&& forall|i: int|
        0 <= i < before.len() ==> (#[trigger] after[i]).faults() >= before[i].faults()
}

proof fn lemma_found_is_true(s: Seq<cache::Slot>, imgs: Seq<Image>, disk: int, lba: u64)
    requires
        cache::coherent(s, imgs),
        cache::cached(s, disk as u32, lba),
        0 <= disk < imgs.len(),
        disk < 65536,
    ensures
        imgs[disk].dom().contains(lba),
        imgs[disk][lba] == s[cache::slot_index(s, disk as u32, lba)].data,
{
    cache::lemma_slot_index(s, disk as u32, lba);
}

proof fn lemma_taken_in_coherent(
    s: Seq<cache::Slot>,
    h: int,
    imgs: Seq<Image>,
    disk: int,
    lba: u64,
    data: Seq<u8>,
)
    requires
        s.len() == cache::CACHE_SECTORS,
        0 <= h < cache::CACHE_SECTORS,
        cache::one_place_each(s),
        0 <= disk < imgs.len(),
        disk < 65536,
        imgs[disk].dom().contains(lba),
        imgs[disk][lba] == data,
        forall|i: int|
            0 <= i < s.len() && (#[trigger] s[i]).valid && s[i].disk < imgs.len() && !cache::holds(
                s[i],
                disk as u32,
                lba,
            ) ==> imgs[s[i].disk as int].dom().contains(s[i].lba) && imgs[s[i].disk as int][s[i].lba]
                == s[i].data,
    ensures
        cache::coherent(cache::taken_in(s, h, disk as u32, lba, data).0, imgs),
{
    cache::law_taken_in_is_found(s, h, disk as u32, lba, data);
    let t = cache::taken_in(s, h, disk as u32, lba, data).0;
    let p = cache::slot_index(t, disk as u32, lba);
    cache::lemma_slot_index(t, disk as u32, lba);
    assert forall|i: int|
        0 <= i < t.len() && (#[trigger] t[i]).valid && t[i].disk < imgs.len() implies imgs[t[i].disk as int].dom().contains(
    t[i].lba) && imgs[t[i].disk as int][t[i].lba] == t[i].data by {
        if cache::holds(t[i], disk as u32, lba) {
            if i < p {
                assert(t[i].disk != t[p].disk || t[i].lba != t[p].lba);
            } else if p < i {
                assert(t[p].disk != t[i].disk || t[p].lba != t[i].lba);
            }
        } else {
            assert(s[i].valid);
            assert(!cache::holds(s[i], disk as u32, lba));
        }
    }
}

/// The sectors of a run on a disk.
pub open spec fn sectors_at(img: Image, at: int, n: nat) -> Seq<Seq<u8>> {
    Seq::new(n, |j: int| img[(at + j) as u64])
}

/// The sectors that some data consists of.
pub open spec fn sectors_in(data: Seq<u8>, n: nat) -> Seq<Seq<u8>> {
    Seq::new(n, |j: int| data.subrange(j * 512, (j + 1) * 512))
}

/// The cache once a sector was read: taken in, if it was not there.
pub open spec fn read_cached(c: CacheView, img: Image, d: u32, at: int) -> CacheView {
    let l = cache::looked_up(c, d, at as u64);
    if cache::cached(c.slots, d, at as u64) {
        l
    } else {
        cache::inserted(l, d, at as u64, img[at as u64])
    }
}

/// How many of `n` sectors in a row are not in the cache, from the first on.
pub open spec fn misses_from(s: Seq<cache::Slot>, d: u32, at: int, n: nat) -> nat
    decreases n,
{
    if n == 0 || cache::cached(s, d, at as u64) {
        0
    } else {
        1 + misses_from(s, d, at + 1, (n - 1) as nat)
    }
}

/// The cache once a run that was not there was read from the disk.
pub open spec fn run_cached(c: CacheView, img: Image, d: u32, at: int, m: nat) -> CacheView {
    cache::run_inserted(cache::missed(c, m as u64), d, at, sectors_at(img, at, m))
}

/// The cache once `n` sectors in a row were read: those in the cache from there,
/// each run of others from the disk at once.
pub open spec fn multi_cached(c: CacheView, img: Image, d: u32, at: int, n: nat) -> CacheView
    decreases n,
{
    let m = misses_from(c.slots, d, at, n);
    if n == 0 {
        c
    } else if m == 0 || m > n {
        multi_cached(cache::looked_up(c, d, at as u64), img, d, at + 1, (n - 1) as nat)
    } else {
        multi_cached(run_cached(c, img, d, at, m), img, d, at + m, (n - m) as nat)
    }
}

/// The cache is `t` where the disk failed while `n` sectors in a row were read:
/// of the run that could not be read nothing was taken in.
pub open spec fn multi_broken(
    c: CacheView,
    img: Image,
    d: u32,
    at: int,
    n: nat,
    t: CacheView,
) -> bool
    decreases n,
{
    let m = misses_from(c.slots, d, at, n);
    if n == 0 {
        false
    } else if m == 0 || m > n {
        multi_broken(cache::looked_up(c, d, at as u64), img, d, at + 1, (n - 1) as nat, t)
    } else {
        t == c || multi_broken(run_cached(c, img, d, at, m), img, d, at + m, (n - m) as nat, t)
    }
}

/// No disk but `d` was asked.
pub open spec fn only_disk<D: BlockSource>(before: Seq<D>, after: Seq<D>, d: int) -> bool {
    forall|k: int| 0 <= k < before.len() && k != d ==> #[trigger] after[k] == before[k]
}

/// Reads a sector of a node: from the cache if it is there, else from the
/// disk.
pub fn node_read<D: BlockSource>(
    disks: &mut Vec<D>,
    cache: &mut Cache,
    disk_sectors: &[u64],
    parts: &[Vec<PartLoc>],
    handle: u32,
    lba: u64,
    out: &mut [u8; 512],
) -> (ok: bool)
    requires
        old(cache).wf(),
        parts@.len() >= disk_sectors@.len(),
        cache::coherent(old(cache)@, images(old(disks)@)),
    ensures
        final(cache).wf(),
        only_read(old(disks)@, final(disks)@, final(cache)@),
        match run_at(handle, lba, 1, disk_sectors@, parts@, old(disks)@.len() as int) {
            None => !ok && final(disks)@ == old(disks)@ && final(cache).state() == old(cache).state(),
            Some((d, phys)) => {
                let img = images(old(disks)@)[d];
                &&& only_disk(old(disks)@, final(disks)@, d)
                &&& ok ==> img.dom().contains(phys as u64) && final(out)@ == img[phys as u64]
                    && final(cache).state() == read_cached(
                    old(cache).state(),
                    img,
                    d as u32,
                    phys,
                )
                &&& !ok ==> final(disks)@[d].faults() > old(disks)@[d].faults() && final(cache).state() == cache::looked_up(old(cache).state(), d as u32, phys as u64)
                &&& cache::cached(old(cache)@, d as u32, phys as u64) ==> ok && final(disks)@
                    == old(disks)@
            },
        },
{
    let (d, phys): (usize, u64) = match find_run(handle, lba, 1, disk_sectors, parts, disks.len()) {
        Some(x) => x,
        None => {
            return false;
        },
    };
    let ghost imgs = images(disks@);
    if contains(cache, d as u32, phys) {
        let ghost s = cache@;
        proof {
            lemma_found_is_true(s, imgs, d as int, phys);
            cache::lemma_slot_index(s, d as u32, phys);
        }
        let mut buf: Vec<u8> = bytes::repeat_byte(0, 512);
        let hit: bool = lookup_into(cache, d as u32, phys, &mut buf);
        proof {
            assert(s[cache::slot_index(s, d as u32, phys)].data.len() == 512);
            assert(buf@ =~= imgs[d as int][phys]);
            assert forall|k: int|
                0 <= k < cache@.len() && (#[trigger] cache@[k]).valid && cache@[k].disk
                    < imgs.len() implies imgs[cache@[k].disk as int].dom().contains(cache@[k].lba)
                && imgs[cache@[k].disk as int][cache@[k].lba] == cache@[k].data by {
                assert(s[k].valid);
            }
        }
        *out = to_sector(&buf);
        return true;
    }
    note_misses(cache, 1);
    let ok: bool = disks[d].read_sector(phys, out);
    assert(images(disks@) =~= imgs);
    if ok {
        let ghost s = cache@;
        proof {
            lemma_taken_in_coherent(s, cache.hand_at(), imgs, d as int, phys, out@);
        }
        assert(out@.take(512) =~= out@);
        insert_from(cache, d as u32, phys, out.as_slice());
    }
    ok
}

fn to_sector(v: &[u8]) -> (r: [u8; 512])
    requires
        v.len() >= 512,
    ensures
        r@ == v@.take(512),
{
    let mut sec: [u8; 512] = [0u8; 512];
    let mut i: usize = 0;
    while i < 512
        invariant
            i <= 512,
            v@.len() >= 512,
            forall|x: int| 0 <= x < i ==> #[trigger] sec@[x] == v@[x],
        decreases 512 - i,
    {
        sec[i] = v[i];
        i += 1;
    }
    assert(sec@ =~= v@.take(512));
    sec
}

/// What a write does to the disks where it succeeds.
pub open spec fn written_to<D: BlockSource>(
    before: Seq<D>,
    after: Seq<D>,
    d: int,
    phys: int,
    n: nat,
    data: Seq<u8>,
) -> bool {
    &&& after.len() == before.len()
    &&& after[d].image() == block::with_run(before[d].image(), phys, n, data)
    &&& forall|k: int| 0 <= k < before.len() && k != d ==> #[trigger] after[k] == before[k]
}

/// What a write that failed leaves: nothing outside the run has changed.
pub open spec fn write_failed<D: BlockSource>(
    before: Seq<D>,
    after: Seq<D>,
    d: int,
    phys: int,
    n: nat,
) -> bool {
    &&& after.len() == before.len()
    &&& after[d].faults() > before[d].faults()
    &&& forall|l: u64|
        !(phys <= l < phys + n) ==> #[trigger] after[d].image()[l] == before[d].image()[l]
    &&& forall|k: int| 0 <= k < before.len() && k != d ==> #[trigger] after[k] == before[k]
}

/// The cache once sectors were written: they are taken in, or thrown out if the
/// disk failed.
pub open spec fn write_cached(
    c: CacheView,
    d: u32,
    phys: int,
    n: nat,
    data: Seq<u8>,
    ok: bool,
) -> CacheView {
    if ok {
        cache::run_inserted(c, d, phys, sectors_in(data, n))
    } else {
        CacheView { slots: cache::run_out(c.slots, d, phys, n), ..c }
    }
}

/// Writes sectors of a node to the disk, and then to the cache. Where the disk
/// fails, they are thrown out of the cache.
#[verifier::rlimit(40)]
pub fn node_write_multi<D: BlockSource>(
    disks: &mut Vec<D>,
    cache: &mut Cache,
    disk_sectors: &[u64],
    parts: &[Vec<PartLoc>],
    handle: u32,
    lba: u64,
    data: &[u8],
) -> (ok: bool)
    requires
        old(cache).wf(),
        parts@.len() >= disk_sectors@.len(),
        cache::coherent(old(cache)@, images(old(disks)@)),
    ensures
        final(cache).wf(),
        cache::coherent(final(cache)@, images(final(disks)@)),
        ({
            let n = data@.len() / 512;
            let at = run_at(
                handle,
                lba,
                n as int,
                disk_sectors@,
                parts@,
                old(disks)@.len() as int,
            );
            if n == 0 || n > DISK_MAX_SECTORS || data@.len() % 512 != 0 || at is None {
                !ok && final(disks)@ == old(disks)@ && final(cache).state() == old(cache).state()
            } else {
                let (d, phys) = at->0;
                &&& if ok {
                    written_to(old(disks)@, final(disks)@, d, phys, n, data@)
                } else {
                    write_failed(old(disks)@, final(disks)@, d, phys, n)
                }
                &&& final(cache).state() == write_cached(
                    old(cache).state(),
                    d as u32,
                    phys,
                    n,
                    data@,
                    ok,
                )
            }
        }),
{
    let n: usize = data.len() / 512;
    if n == 0 || n > DISK_MAX_SECTORS || data.len() % 512 != 0 {
        return false;
    }
    let (d, phys): (usize, u64) = match find_run(handle, lba, n, disk_sectors, parts, disks.len()) {
        Some(x) => x,
        None => {
            return false;
        },
    };
    let ghost before = disks@;
    let ghost imgs0 = images(before);
    let ok: bool = disks[d].write_sectors(phys, n, data);
    let ghost imgs = images(disks@);
    let ghost dd = d as int;
    proof {
        assert(imgs.len() == imgs0.len());
        assert forall|k: int| 0 <= k < imgs.len() && k != d implies imgs[k] == imgs0[k] by {
            assert(disks@[k] == before[k]);
        }
    }
    if !ok {
        let ghost s = cache@;
        proof {
            cache::lemma_run_out(s, d as u32, phys as int, n as nat);
        }
        invalidate_run(cache, d as u32, phys, n);
        proof {
            assert forall|i: int|
                0 <= i < cache@.len() && (#[trigger] cache@[i]).valid && cache@[i].disk
                    < imgs.len() implies imgs[cache@[i].disk as int].dom().contains(cache@[i].lba)
                && imgs[cache@[i].disk as int][cache@[i].lba] == cache@[i].data by {
                assert(s[i].valid && cache@[i] == s[i]);
                if s[i].disk == d {
                    assert(!(phys <= s[i].lba < phys + n));
                    assert(disks@[dd].image()[s[i].lba] == before[dd].image()[s[i].lba]);
                    assert(disks@[dd].image().dom().contains(s[i].lba)
                        == before[dd].image().dom().contains(s[i].lba));
                } else {
                    assert(imgs[s[i].disk as int] == imgs0[s[i].disk as int]);
                }
            }
        }
        return false;
    }
    proof {
        block::lemma_with_run(imgs0[dd], phys as int, n as nat, data@);
    }
    let ghost c0 = cache.state();
    let ghost secs = sectors_in(data@, n as nat);
    assert(secs.take(0) =~= Seq::empty());
    let mut j: usize = 0;
    while j < n
        invariant
            j <= n,
            n <= 7,
            n * 512 == data@.len(),
            secs == sectors_in(data@, n as nat),
            cache.state() == cache::run_inserted(c0, d as u32, phys as int, secs.take(j as int)),
            d < imgs.len(),
            d < 65536,
            dd == d,
            phys + n <= u64::MAX,
            cache.wf(),
            imgs.len() == imgs0.len(),
            forall|l: u64| #[trigger]
                imgs[dd].dom().contains(l) == (imgs0[dd].dom().contains(l) || phys <= l < phys + n),
            forall|l: u64| #[trigger]
                imgs[dd][l] == (if phys <= l < phys + n {
                    data@.subrange((l - phys) * 512, (l - phys + 1) * 512)
                } else {
                    imgs0[dd][l]
                }),
            forall|k: int| 0 <= k < imgs.len() && k != d ==> #[trigger] imgs[k] == imgs0[k],
            forall|i: int|
                0 <= i < cache@.len() && (#[trigger] cache@[i]).valid && cache@[i].disk < imgs.len()
                    && !(cache@[i].disk == d && phys + j <= cache@[i].lba < phys + n)
                    ==> imgs[cache@[i].disk as int].dom().contains(cache@[i].lba)
                    && imgs[cache@[i].disk as int][cache@[i].lba] == cache@[i].data,
        decreases n - j,
    {
        let lb: u64 = phys + j as u64;
        let part: &[u8] = slice_subrange(data, j * 512, (j + 1) * 512);
        let ghost s = cache@;
        let ghost h = cache.hand_at();
        assert(part@.take(512) =~= part@);
        assert(part@ =~= data@.subrange((lb - phys) * 512, (lb - phys + 1) * 512));
        proof {
            cache::law_taken_in_is_found(s, h, d as u32, lb, part@);
            assert(secs.take(j + 1).drop_last() =~= secs.take(j as int));
            assert(secs.take(j + 1).last() == part@);
        }
        insert_from(cache, d as u32, lb, part);
        proof {
            let t = cache@;
            let p = cache::slot_index(t, d as u32, lb);
            cache::lemma_slot_index(t, d as u32, lb);
            assert forall|i: int|
                0 <= i < t.len() && (#[trigger] t[i]).valid && t[i].disk < imgs.len() && !(t[i].disk
                    == d && phys + (j + 1) <= t[i].lba < phys + n) implies imgs[t[i].disk as int].dom().contains(
            t[i].lba) && imgs[t[i].disk as int][t[i].lba] == t[i].data by {
                if cache::holds(t[i], d as u32, lb) {
                    if i < p {
                        assert(t[i].disk != t[p].disk || t[i].lba != t[p].lba);
                    } else if p < i {
                        assert(t[p].disk != t[i].disk || t[p].lba != t[i].lba);
                    }
                } else {
                    assert(s[i].valid);
                }
            }
        }
        j += 1;
    }
    assert(secs.take(n as int) =~= secs);
    true
}

/// Writes a sector of a node.
pub fn node_write<D: BlockSource>(
    disks: &mut Vec<D>,
    cache: &mut Cache,
    disk_sectors: &[u64],
    parts: &[Vec<PartLoc>],
    handle: u32,
    lba: u64,
    data: &[u8; 512],
) -> (ok: bool)
    requires
        old(cache).wf(),
        parts@.len() >= disk_sectors@.len(),
        cache::coherent(old(cache)@, images(old(disks)@)),
    ensures
        final(cache).wf(),
        cache::coherent(final(cache)@, images(final(disks)@)),
        match run_at(handle, lba, 1, disk_sectors@, parts@, old(disks)@.len() as int) {
            None => !ok && final(disks)@ == old(disks)@ && final(cache).state() == old(cache).state(),
            Some((d, phys)) => {
                &&& if ok {
                    written_to(old(disks)@, final(disks)@, d, phys, 1, data@)
                } else {
                    write_failed(old(disks)@, final(disks)@, d, phys, 1)
                }
                &&& final(cache).state() == write_cached(
                    old(cache).state(),
                    d as u32,
                    phys,
                    1,
                    data@,
                    ok,
                )
            },
        },
{
    node_write_multi(disks, cache, disk_sectors, parts, handle, lba, data.as_slice())
}

/// What was read of a run so far is what the disk holds.
pub open spec fn run_read(img: Image, phys: int, n: int, out: Seq<u8>) -> bool {
    &&& forall|l: u64| phys <= l < phys + n ==> #[trigger] img.dom().contains(l)
    &&& forall|i: int| 0 <= i < n * 512 ==> #[trigger] out[i] == block::byte_at(img, phys * 512 + i)
}

proof fn lemma_run_sector(img: Image, phys: int, n: int, out: Seq<u8>, j: int)
    requires
        run_read(img, phys, n, out),
        0 <= j < n,
        0 <= phys,
        phys + n <= u64::MAX,
        n * 512 <= out.len(),
        img[(phys + j) as u64].len() == 512,
    ensures
        out.subrange(j * 512, (j + 1) * 512) == img[(phys + j) as u64],
{
    assert forall|x: int| 0 <= x < 512 implies #[trigger] out.subrange(
        j * 512,
        (j + 1) * 512,
    )[x] == img[(phys + j) as u64][x] by {
        let p = phys * 512 + (j * 512 + x);
        assert(p / 512 == phys + j);
        assert(p % 512 == x);
        assert(out[j * 512 + x] == block::byte_at(img, p));
    }
    assert(out.subrange(j * 512, (j + 1) * 512) =~= img[(phys + j) as u64]);
}

fn copy_at(out: &mut [u8], at: usize, src: &[u8])
    requires
        at + src@.len() <= old(out)@.len(),
    ensures
        final(out)@.len() == old(out)@.len(),
        forall|x: int|
            0 <= x < old(out)@.len() ==> #[trigger] final(out)@[x] == (if at <= x < at
                + src@.len() {
                src@[x - at]
            } else {
                old(out)@[x]
            }),
{
    let total: usize = out.len();
    let mut i: usize = 0;
    while i < src.len()
        invariant
            i <= src@.len(),
            at + src@.len() <= total,
            total == old(out)@.len(),
            out@.len() == old(out)@.len(),
            forall|x: int|
                0 <= x < out@.len() ==> #[trigger] out@[x] == (if at <= x < at + i {
                    src@[x - at]
                } else {
                    old(out)@[x]
                }),
        decreases src@.len() - i,
    {
        out[at + i] = src[i];
        i += 1;
    }
}

/// Reads sectors of a node: those in the cache from there, and each run of
/// others from the disk at once.
#[verifier::rlimit(60)]
pub fn node_read_multi<D: BlockSource>(
    disks: &mut Vec<D>,
    cache: &mut Cache,
    disk_sectors: &[u64],
    parts: &[Vec<PartLoc>],
    handle: u32,
    lba: u64,
    out: &mut [u8],
) -> (ok: bool)
    requires
        old(cache).wf(),
        parts@.len() >= disk_sectors@.len(),
        cache::coherent(old(cache)@, images(old(disks)@)),
    ensures
        final(cache).wf(),
        final(out)@.len() == old(out)@.len(),
        only_read(old(disks)@, final(disks)@, final(cache)@),
        ({
            let n = old(out)@.len() / 512;
            let at = run_at(
                handle,
                lba,
                n as int,
                disk_sectors@,
                parts@,
                old(disks)@.len() as int,
            );
            if n == 0 || n > DISK_MAX_SECTORS || old(out)@.len() % 512 != 0 || at is None {
                !ok && final(disks)@ == old(disks)@ && final(cache).state() == old(cache).state()
            } else {
                let (d, phys) = at->0;
                let img = images(old(disks)@)[d];
                &&& only_disk(old(disks)@, final(disks)@, d)
                &&& ok ==> run_read(img, phys, n as int, final(out)@) && final(cache).state()
                    == multi_cached(old(cache).state(), img, d as u32, phys, n as nat)
                &&& !ok ==> final(disks)@[d].faults() > old(disks)@[d].faults() && multi_broken(
                    old(cache).state(),
                    img,
                    d as u32,
                    phys,
                    n as nat,
                    final(cache).state(),
                )
                &&& (forall|l: u64|
                    phys <= l < phys + n ==> #[trigger] cache::cached(old(cache)@, d as u32, l))
                    ==> ok && final(disks)@ == old(disks)@
            }
        }),
{
    let total: usize = out.len();
    let n: usize = total / 512;
    if n == 0 || n > DISK_MAX_SECTORS || total % 512 != 0 {
        return false;
    }
    let (d, phys): (usize, u64) = match find_run(handle, lba, n, disk_sectors, parts, disks.len()) {
        Some(x) => x,
        None => {
            return false;
        },
    };
    let ghost imgs = images(disks@);
    let ghost img = imgs[d as int];
    let ghost f0 = disks@[d as int].faults();
    let ghost c0 = cache.state();
    let ghost du = d as u32;
    let ghost here = forall|l: u64|
        phys <= l < phys + n ==> #[trigger] cache::cached(old(cache)@, du, l);
    let mut k: usize = 0;
    while k < n
        invariant
            k <= n,
            1 <= n <= 7,
            n * 512 == total,
            out@.len() == total,
            old(out)@.len() == total,
            d < disks@.len(),
            d < 65536,
            disks@.len() == old(disks)@.len(),
            imgs == images(old(disks)@),
            images(disks@) == imgs,
            img == imgs[d as int],
            imgs.len() == disks@.len(),
            f0 == old(disks)@[d as int].faults(),
            disks@[d as int].faults() == f0,
            forall|i: int|
                0 <= i < disks@.len() ==> (#[trigger] disks@[i]).faults() >= old(disks)@[i].faults(),
            phys + n <= u64::MAX,
            cache.wf(),
            cache::coherent(cache@, imgs),
            run_at(handle, lba, n as int, disk_sectors@, parts@, old(disks)@.len() as int) == Some(
                (d as int, phys as int),
            ),
            run_read(img, phys as int, k as int, out@),
            du == d,
            c0 == old(cache).state(),
            only_disk(old(disks)@, disks@, d as int),
            multi_cached(c0, img, du, phys as int, n as nat) == multi_cached(
                cache.state(),
                img,
                du,
                phys + k,
                (n - k) as nat,
            ),
            forall|t: CacheView|
                multi_broken(cache.state(), img, du, phys + k, (n - k) as nat, t)
                    ==> #[trigger] multi_broken(c0, img, du, phys as int, n as nat, t),
            here == (forall|l: u64|
                phys <= l < phys + n ==> #[trigger] cache::cached(old(cache)@, du, l)),
            here ==> disks@ == old(disks)@ && forall|l: u64|
                phys <= l < phys + n ==> #[trigger] cache::cached(cache@, du, l),
        decreases n - k,
    {
        let at: u64 = phys + k as u64;
        let ghost cs = cache.state();
        if contains(cache, d as u32, at) {
            let ghost s = cache@;
            let ghost o0 = out@;
            proof {
                lemma_found_is_true(s, imgs, d as int, at);
                cache::lemma_slot_index(s, d as u32, at);
            }
            let mut buf: Vec<u8> = bytes::repeat_byte(0, 512);
            lookup_into(cache, d as u32, at, &mut buf);
            assert(buf@ =~= img[at]);
            proof {
                assert(misses_from(cs.slots, du, phys + k, (n - k) as nat) == 0);
                assert forall|l: u64|
                    cache::cached(cs.slots, du, l) implies #[trigger] cache::cached(
                    cache@,
                    du,
                    l,
                ) by {
                    cache::lemma_lookup_keeps(cs, du, at, du, l);
                }
            }
            copy_at(out, k * 512, &buf);
            proof {
                assert forall|i: int|
                    0 <= i < cache@.len() && (#[trigger] cache@[i]).valid && cache@[i].disk
                        < imgs.len() implies imgs[cache@[i].disk as int].dom().contains(
                cache@[i].lba) && imgs[cache@[i].disk as int][cache@[i].lba] == cache@[i].data by {
                    assert(s[i].valid);
                }
                lemma_run_grows(img, phys as int, k as int, 1, o0, out@, buf@);
            }
            k += 1;
        } else {
            let mut m: usize = 1;
            while k + m < n && !contains(cache, d as u32, phys + (k + m) as u64)
                invariant
                    1 <= m,
                    k + m <= n,
                    n <= 7,
                    phys + n <= u64::MAX,
                    du == d,
                    misses_from(cache@, du, phys + k, (n - k) as nat) == m + misses_from(
                        cache@,
                        du,
                        phys + k + m,
                        (n - k - m) as nat,
                    ),
                decreases n - k - m,
            {
                m += 1;
            }
            assert(misses_from(cache@, du, phys + k, (n - k) as nat) == m);
            assert(!here) by {
                assert(!cache::cached(cache@, du, at));
            }
            let mut tmp: Vec<u8> = bytes::repeat_byte(0, m * 512);
            let ghost dev = disks@[d as int];
            assert(images(disks@)[d as int] == dev.image());
            let ok: bool = disks[d].read_sectors(at, m, &mut tmp);
            assert(images(disks@) =~= imgs);
            if !ok {
                assert(multi_broken(cs, img, du, phys + k, (n - k) as nat, cs));
                assert(multi_broken(c0, img, du, phys as int, n as nat, cs));
                assert(disks@[d as int].faults() > old(disks)@[d as int].faults());
                assert(only_disk(old(disks)@, disks@, d as int));
                assert(cache.state() == cs);
                return false;
            }
            proof {
                assert forall|l: u64| at <= l < at + m implies #[trigger] img.dom().contains(l)
                    && img[l].len() == 512 by {
                    assert(dev.image().dom().contains(l));
                    assert(dev.image()[l].len() == 512);
                }
            }
            let ghost o0 = out@;
            copy_at(out, k * 512, &tmp);
            note_misses(cache, m as u64);
            proof {
                assert forall|x: int| 0 <= x < m * 512 implies #[trigger] tmp@[x] == block::byte_at(
                    img,
                    (phys + k) * 512 + x,
                ) by {
                    assert(tmp@[x] == block::byte_at(img, at * 512 + x));
                }
                lemma_run_grows(img, phys as int, k as int, m as int, o0, out@, tmp@);
            }
            let ghost secs = sectors_at(img, at as int, m as nat);
            assert(secs.take(0) =~= Seq::empty());
            let mut j: usize = 0;
            while j < m
                invariant
                    j <= m,
                    du == d,
                    secs == sectors_at(img, at as int, m as nat),
                    cache.state() == cache::run_inserted(
                        cache::missed(cs, m as u64),
                        du,
                        at as int,
                        secs.take(j as int),
                    ),
                    1 <= m,
                    k + m <= n,
                    n <= 7,
                    n * 512 == total,
                    tmp@.len() == m * 512,
                    at == phys + k,
                    phys + n <= u64::MAX,
                    d < imgs.len(),
                    d < 65536,
                    img == imgs[d as int],
                    cache.wf(),
                    cache::coherent(cache@, imgs),
                    run_read(img, at as int, m as int, tmp@),
                    forall|l: u64|
                        at <= l < at + m ==> #[trigger] img.dom().contains(l) && img[l].len()
                            == 512,
                decreases m - j,
            {
                let lb: u64 = at + j as u64;
                let part: &[u8] = slice_subrange(&tmp, j * 512, (j + 1) * 512);
                proof {
                    assert(img.dom().contains(lb));
                    lemma_run_sector(img, at as int, m as int, tmp@, j as int);
                    assert(part@.take(512) =~= part@);
                    assert(part@ == img[lb]);
                    lemma_taken_in_coherent(
                        cache@,
                        cache.hand_at(),
                        imgs,
                        d as int,
                        lb,
                        part@,
                    );
                }
                proof {
                    assert(secs.take(j + 1).drop_last() =~= secs.take(j as int));
                    assert(secs.take(j + 1).last() == part@);
                }
                insert_from(cache, d as u32, lb, part);
                j += 1;
            }
            assert(secs.take(m as int) =~= secs);
            assert(cache.state() == run_cached(cs, img, du, phys + k, m as nat));
            k += m;
        }
    }
    true
}

proof fn lemma_run_grows(
    img: Image,
    phys: int,
    k: int,
    m: int,
    before: Seq<u8>,
    after: Seq<u8>,
    part: Seq<u8>,
)
    requires
        0 <= phys,
        0 <= k,
        0 < m,
        phys + k + m <= u64::MAX,
        run_read(img, phys, k, before),
        before.len() == after.len(),
        (k + m) * 512 <= after.len(),
        part.len() == m * 512,
        forall|x: int|
            0 <= x < before.len() ==> #[trigger] after[x] == (if k * 512 <= x < k * 512
                + part.len() {
                part[x - k * 512]
            } else {
                before[x]
            }),
        forall|l: u64| phys + k <= l < phys + k + m ==> #[trigger] img.dom().contains(l),
        m == 1 && part == img[(phys + k) as u64] || forall|x: int|
            0 <= x < m * 512 ==> #[trigger] part[x] == block::byte_at(img, (phys + k) * 512 + x),
    ensures
        run_read(img, phys, k + m, after),
{
    assert forall|i: int| 0 <= i < (k + m) * 512 implies #[trigger] after[i] == block::byte_at(
        img,
        phys * 512 + i,
    ) by {
        if i >= k * 512 {
            let x = i - k * 512;
            if m == 1 && part == img[(phys + k) as u64] {
                let p = phys * 512 + i;
                assert(p / 512 == phys + k);
                assert(p % 512 == x);
            } else {
                assert(part[x] == block::byte_at(img, (phys + k) * 512 + x));
            }
        } else {
            assert(after[i] == before[i]);
        }
    }
}

/// What was written to a disk is read back from it, by whatever node the
/// sectors are reached.
pub proof fn law_written_is_read<D: BlockSource>(
    before: Seq<D>,
    after: Seq<D>,
    d: int,
    phys: int,
    n: nat,
    data: Seq<u8>,
    out: Seq<u8>,
)
    requires
        0 <= d < before.len(),
        0 <= phys,
        phys + n <= u64::MAX,
        data.len() == n * 512,
        out.len() == n * 512,
        written_to(before, after, d, phys, n, data),
        run_read(images(after)[d], phys, n as int, out),
    ensures
        out == data,
{
    block::lemma_with_run(before[d].image(), phys, n, data);
    let img = after[d].image();
    assert forall|i: int| 0 <= i < n * 512 implies #[trigger] out[i] == data[i] by {
        let p = phys * 512 + i;
        let l = (p / 512) as u64;
        let j = i / 512;
        assert(l == phys + j);
        assert(p % 512 == i % 512);
        assert(img[l] == data.subrange(j * 512, (j + 1) * 512));
        assert(out[i] == block::byte_at(images(after)[d], phys * 512 + i));
        assert(j * 512 + i % 512 == i);
    }
    assert(out =~= data);
}

/// A node is found by its name, whatever serial numbers and labels there are.
pub proof fn law_found_by_name(n: Seq<NodeView>, i: int)
    requires
        0 <= i < n.len(),
        forall|a: int, b: int|
            0 <= a < b < n.len() ==> (#[trigger] n[a]).name != (#[trigger] n[b]).name,
    ensures
        resolved(n, n[i].name) == Some(n[i].handle),
{
    lemma_by_name(n, i);
}

proof fn lemma_by_name(n: Seq<NodeView>, i: int)
    requires
        0 <= i < n.len(),
        forall|a: int, b: int|
            0 <= a < b < n.len() ==> (#[trigger] n[a]).name != (#[trigger] n[b]).name,
    ensures
        by_name(n, n[i].name) == Some(n[i].handle),
    decreases n.len(),
{
    if i > 0 {
        assert(n[0].name != n[i].name);
        let m = n.skip(1);
        assert forall|a: int, b: int| 0 <= a < b < m.len() implies (#[trigger] m[a]).name != (
        #[trigger] m[b]).name by {
            assert(n[a + 1].name != n[b + 1].name);
        }
        lemma_by_name(m, i - 1);
    }
}

} // verus!
