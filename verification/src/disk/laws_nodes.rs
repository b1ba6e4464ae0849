//! What the names and handles of nodes lead to, and what is read through them.
use vstd::prelude::*;

use super::fs_reg;
use super::fs_reg::FsReg;
use super::nodes;
use super::nodes::{NodeView, PartLoc};
use super::part;
use super::part::PartInfo;
use super::probe;
use super::probe::{ProbeAsk, ResetRun};
use super::server;
use super::server::DiskServer;
use crate::fs::block;
use crate::fs::block::{BlockSource, Image};
use crate::fs::mount as fs_mount;

verus! {

// ── Handles ──

/// The handle of a partition leads to where the table says that it lies, and the
/// handle of a disk to the whole of it.
pub proof fn law_handle_leads_to_its_place(
    disk: int,
    sub: int,
    boot: Seq<u8>,
    ps: Seq<PartInfo>,
    disk_sectors: Seq<u64>,
    parts: Seq<Vec<PartLoc>>,
)
    requires
        0 <= disk < disk_sectors.len(),
        disk < 26,
        0 <= sub <= ps.len(),
        sub < 65536,
        parts[disk]@ == nodes::part_locs(ps),
    ensures
        nodes::located(nodes::node_at(disk, sub, boot).handle, disk_sectors, parts) == Some(
            if sub == 0 {
                (disk, 0int, disk_sectors[disk] as int)
            } else {
                (disk, ps[sub - 1].start as int, ps[sub - 1].sectors as int)
            },
        ),
{
    let h = nodes::node_at(disk, sub, boot).handle;
    assert(h == disk * 65536 + sub);
    assert(h as int / 65536 == disk && h as int % 65536 == sub) by (nonlinear_arith)
        requires
            h == disk * 65536 + sub,
            0 <= sub < 65536,
    ;
}

/// Sectors of a partition are sectors of its disk, that many further on, and a
/// request never goes past the end of the partition.
pub proof fn law_partition_stays_within(
    handle: u32,
    lba: u64,
    n: int,
    disk_sectors: Seq<u64>,
    parts: Seq<Vec<PartLoc>>,
    disks: int,
)
    requires
        n >= 1,
        nodes::run_at(handle, lba, n, disk_sectors, parts, disks) is Some,
    ensures
        ({
            let (d, phys) = nodes::run_at(handle, lba, n, disk_sectors, parts, disks)->0;
            let (e, base, count) = nodes::located(handle, disk_sectors, parts)->0;
            &&& d == e
            &&& phys - base == lba
            &&& base <= phys
            &&& phys + n <= base + count
            &&& 0 <= d < disks
        }),
{
}

// ── Names ──

proof fn lemma_hex8(n: u32)
    ensures
        nodes::serial_of(nodes::hex8(n)) == Some(n as int),
{
    let s = nodes::hex8(n);
    reveal_with_fuel(nodes::pow16, 9);
    assert forall|i: int| 0 <= i < 8 implies fs_mount::hex_byte(#[trigger] s[i])
        && nodes::hex_digit_value(s[i]) == (n as int / nodes::pow16(7 - i)) % 16 by {}
    assert(nodes::pow16(0) == 1 && nodes::pow16(1) == 0x10 && nodes::pow16(2) == 0x100
        && nodes::pow16(3) == 0x1000 && nodes::pow16(4) == 0x1_0000 && nodes::pow16(5)
        == 0x10_0000 && nodes::pow16(6) == 0x100_0000 && nodes::pow16(7) == 0x1000_0000);
    let v = |i: int| nodes::hex_digit_value(s[i]);
    let s7 = s.drop_last();
    let s6 = s7.drop_last();
    let s5 = s6.drop_last();
    let s4 = s5.drop_last();
    let s3 = s4.drop_last();
    let s2 = s3.drop_last();
    let s1 = s2.drop_last();
    let s0 = s1.drop_last();
    assert(nodes::hex_value(s0) == 0);
    assert(nodes::hex_value(s1) == v(0));
    assert(nodes::hex_value(s2) == v(0) * 16 + v(1));
    assert(nodes::hex_value(s3) == (v(0) * 16 + v(1)) * 16 + v(2));
    assert(nodes::hex_value(s4) == ((v(0) * 16 + v(1)) * 16 + v(2)) * 16 + v(3));
    assert(nodes::hex_value(s5) == nodes::hex_value(s4) * 16 + v(4));
    assert(nodes::hex_value(s6) == nodes::hex_value(s5) * 16 + v(5));
    assert(nodes::hex_value(s7) == nodes::hex_value(s6) * 16 + v(6));
    assert(nodes::hex_value(s) == nodes::hex_value(s7) * 16 + v(7));
    let x = n as int;
    let x7 = x / 0x1000_0000;
    let x6 = x / 0x100_0000;
    let x5 = x / 0x10_0000;
    let x4 = x / 0x1_0000;
    let x3 = x / 0x1000;
    let x2 = x / 0x100;
    let x1 = x / 0x10;
    vstd::arithmetic::div_mod::lemma_div_denominator(x, 0x100_0000, 16);
    vstd::arithmetic::div_mod::lemma_div_denominator(x, 0x10_0000, 16);
    vstd::arithmetic::div_mod::lemma_div_denominator(x, 0x1_0000, 16);
    vstd::arithmetic::div_mod::lemma_div_denominator(x, 0x1000, 16);
    vstd::arithmetic::div_mod::lemma_div_denominator(x, 0x100, 16);
    vstd::arithmetic::div_mod::lemma_div_denominator(x, 0x10, 16);
    assert(x6 / 16 == x7 && x5 / 16 == x6 && x4 / 16 == x5 && x3 / 16 == x4 && x2 / 16 == x3 && x1
        / 16 == x2);
    assert(v(0) == x7 % 16 && v(1) == x6 % 16 && v(2) == x5 % 16 && v(3) == x4 % 16);
    assert(v(4) == x3 % 16 && v(5) == x2 % 16 && v(6) == x1 % 16 && v(7) == x % 16);
    assert(x7 < 16);
    assert(nodes::hex_value(s1) == x7);
    assert(nodes::hex_value(s2) == x6);
    assert(nodes::hex_value(s3) == x5);
    assert(nodes::hex_value(s4) == x4);
    assert(nodes::hex_value(s5) == x3);
    assert(nodes::hex_value(s6) == x2);
    assert(nodes::hex_value(s7) == x1);
}

proof fn lemma_by_serial(n: Seq<NodeView>, i: int, u: u32)
    requires
        0 <= i < n.len(),
        n[i].vol_uuid == Some(u),
        forall|a: int|
            0 <= a < n.len() && (#[trigger] n[a]).vol_uuid == Some(u) ==> n[a].handle
                == n[i].handle,
    ensures
        nodes::by_serial(n, u as int) == Some(n[i].handle),
    decreases n.len(),
{
    if n[0].vol_uuid == Some(u) {
        assert(n[0].handle == n[i].handle);
    } else {
        let r = n.skip(1);
        assert(r[i - 1] == n[i]);
        assert forall|a: int| 0 <= a < r.len() && (#[trigger] r[a]).vol_uuid == Some(u) implies
            r[a].handle == r[i - 1].handle by {
            assert(r[a] == n[a + 1]);
        }
        lemma_by_serial(r, i - 1, u);
    }
}

proof fn lemma_no_name(n: Seq<NodeView>, key: Seq<u8>)
    requires
        forall|a: int| 0 <= a < n.len() ==> (#[trigger] n[a]).name != key,
    ensures
        nodes::by_name(n, key) is None,
    decreases n.len(),
{
    if n.len() > 0 {
        let r = n.skip(1);
        assert(n[0].name != key);
        assert forall|a: int| 0 <= a < r.len() implies (#[trigger] r[a]).name != key by {
            assert(r[a] == n[a + 1]);
        }
        lemma_no_name(r, key);
    }
}

/// A volume is found by its serial number in the digits in which its mount point
/// shows it.
pub proof fn law_found_by_serial_number(n: Seq<NodeView>, i: int, u: u32)
    requires
        0 <= i < n.len(),
        n[i].vol_uuid == Some(u),
        forall|a: int|
            0 <= a < n.len() && (#[trigger] n[a]).vol_uuid == Some(u) ==> n[a].handle
                == n[i].handle,
        forall|a: int| 0 <= a < n.len() ==> (#[trigger] n[a]).name != nodes::hex8(u),
    ensures
        nodes::resolved(n, nodes::hex8(u)) == Some(n[i].handle),
        nodes::node_prefixes(n[i]).contains(
            fs_mount::dev_prefix() + fs_mount::by_uuid_prefix() + nodes::hex8(u),
        ),
{
    lemma_hex8(u);
    lemma_by_serial(n, i, u);
    lemma_no_name(n, nodes::hex8(u));
    let p = nodes::node_prefixes(n[i]);
    assert(p[1] == fs_mount::dev_prefix() + fs_mount::by_uuid_prefix() + nodes::hex8(u));
}

/// A volume is found by its label, unless that is also the name of a node or reads
/// as a serial number.
pub proof fn law_found_by_label(n: Seq<NodeView>, i: int, l: Seq<u8>)
    requires
        0 <= i < n.len(),
        n[i].vol_label == Some(l),
        forall|a: int|
            0 <= a < n.len() && (#[trigger] n[a]).vol_label == Some(l) ==> n[a].handle
                == n[i].handle,
        forall|a: int| 0 <= a < n.len() ==> (#[trigger] n[a]).name != l,
        nodes::serial_of(l) is None,
    ensures
        nodes::resolved(n, l) == Some(n[i].handle),
{
    lemma_no_name(n, l);
    lemma_by_label(n, i, l);
}

proof fn lemma_by_label(n: Seq<NodeView>, i: int, l: Seq<u8>)
    requires
        0 <= i < n.len(),
        n[i].vol_label == Some(l),
        forall|a: int|
            0 <= a < n.len() && (#[trigger] n[a]).vol_label == Some(l) ==> n[a].handle
                == n[i].handle,
    ensures
        nodes::by_label(n, l) == Some(n[i].handle),
    decreases n.len(),
{
    if n[0].vol_label == Some(l) {
        assert(n[0].handle == n[i].handle);
    } else {
        let r = n.skip(1);
        assert(r[i - 1] == n[i]);
        assert forall|a: int| 0 <= a < r.len() && (#[trigger] r[a]).vol_label == Some(l) implies
            r[a].handle == r[i - 1].handle by {
            assert(r[a] == n[a + 1]);
        }
        lemma_by_label(r, i - 1, l);
    }
}

/// A key that no node has leads nowhere.
pub proof fn law_unknown_key_leads_nowhere(n: Seq<NodeView>, key: Seq<u8>)
    requires
        forall|a: int|
            0 <= a < n.len() ==> (#[trigger] n[a]).name != key && n[a].vol_label != Some(key)
                && (n[a].vol_uuid matches Some(u) ==> nodes::serial_of(key) != Some(u as int)),
    ensures
        nodes::resolved(n, key) is None,
    decreases n.len(),
{
    if n.len() > 0 {
        let r = n.skip(1);
        assert(n[0].name != key && n[0].vol_label != Some(key));
        assert forall|a: int| 0 <= a < r.len() implies (#[trigger] r[a]).name != key
            && r[a].vol_label != Some(key) && (r[a].vol_uuid matches Some(u) ==> nodes::serial_of(
            key,
        ) != Some(u as int)) by {
            assert(r[a] == n[a + 1]);
        }
        law_unknown_key_leads_nowhere(r, key);
    }
}

/// Every node gets a mount point of its name below `/dev`.
pub proof fn law_every_node_has_its_mount_point(n: Seq<NodeView>, i: int)
    requires
        0 <= i < n.len(),
    ensures
        nodes::all_prefixes(n).contains(seq![47u8, 100, 101, 118, 47] + n[i].name),
        n[i].vol_label matches Some(l) ==> nodes::all_prefixes(n).contains(
            fs_mount::dev_prefix() + fs_mount::by_label_prefix() + l,
        ),
    decreases n.len(),
{
    let all = nodes::all_prefixes(n);
    let front = nodes::all_prefixes(n.drop_last());
    let own = nodes::node_prefixes(n.last());
    let k = front.len() as int;
    if i == n.len() - 1 {
        assert(all[k] == own[0]);
        assert(all[k + own.len() - 1] == own[own.len() - 1]);
    } else {
        law_every_node_has_its_mount_point(n.drop_last(), i);
        assert(n.drop_last()[i] == n[i]);
        let j = choose|j: int|
            0 <= j < front.len() && front[j] == seq![47u8, 100, 101, 118, 47] + n[i].name;
        assert(all[j] == front[j]);
        if n[i].vol_label is Some {
            let l = n[i].vol_label->0;
            let w = fs_mount::dev_prefix() + fs_mount::by_label_prefix() + l;
            let m = choose|m: int| 0 <= m < front.len() && front[m] == w;
            assert(all[m] == w);
        }
    }
}

// ── Devices ──

/// A read of a device gives the bytes of its node from the position on, which
/// then is behind them: reads go on where the last one ended.
pub proof fn law_device_is_read_in_order<D: BlockSource>(
    a: DiskServer<D>,
    b: DiskServer<D>,
    fd: u32,
    count: u64,
    r: u64,
    data: Option<Vec<u8>>,
    i: int,
)
    requires
        server::dev_read_done(a, b, fd, count, r, data),
        a.fds@.contains_key(fd),
        a.fds@[fd].1 % 512 == 0,
        a.fds@[fd].1 <= u64::MAX - 4096,
        nodes::located(a.fds@[fd].0, a.disk_sectors@, a.parts@) is Some,
        r != crate::fs::codes::ERR,
        0 <= i < r,
    ensures
        ({
            let (handle, pos) = a.fds@[fd];
            let (d, base, sectors) = nodes::located(handle, a.disk_sectors@, a.parts@)->0;
            &&& r <= count
            &&& data matches Some(x) && x@.len() == r && x@[i] == block::byte_at(
                a.held()[d],
                base * 512 + pos + i,
            )
            &&& b.fds@[fd] == (handle, (pos + r) as u64)
            &&& pos + r <= sectors * 512
        }),
{
    let (handle, pos) = a.fds@[fd];
    let (d, base, sectors) = nodes::located(handle, a.disk_sectors@, a.parts@)->0;
    let n = server::sectors_wanted(pos as int, sectors * 512, count as int);
    let m = choose|m: int|
        0 <= m <= n && (m < n ==> b.disks@[d].faults() > a.disks@[d].faults())
            && #[trigger] server::sectors_came(a, b, fd, m, r, data) && b.cache.state()
            == server::cache_after(a, d, base + pos as int / 512, m, n);
    assert(server::sectors_came(a, b, fd, m, r, data));
    assert(m > 0);
    assert((base + pos as int / 512) * 512 + i == base * 512 + pos + i);
}

// ── Registration ──

/// Mount points are had one after the other: the next one is asked for once the
/// server said that this one is had, else this one is asked for again.
pub proof fn law_mount_points_in_turn(r: FsReg, s: Seq<u8>)
    requires
        r.bufreg_done,
        s.len() >= 16,
        r.idx < usize::MAX,
    ensures
        fs_reg::collected(r, s).0.pending is None,
        (forall|i: int| 0 <= i < 8 ==> #[trigger] s[i] == 0) ==> fs_reg::collected(r, s).0.idx
            == r.idx + 1,
        (exists|i: int| 0 <= i < 8 && #[trigger] s[i] != 0) ==> fs_reg::collected(r, s).0.idx
            == r.idx,
        fs_reg::collected(r, s).0.chan == r.chan,
{
    reveal_with_fuel(crate::bytes::le_value, 9);
}

/// A server that was started anew is told all mount points again, with the
/// handshake first.
pub proof fn law_new_server_is_told_all(r: FsReg, total: int, prefix: Seq<u8>, fits: bool, chan: u64)
    requires
        total > 0,
    ensures
        ({
            let s = fs_reg::started_anew(r);
            let t = FsReg { chan: Some(chan), ..s };
            &&& s.idx == 0
            &&& fs_reg::next_action(s, total, prefix, fits) is Lookup
            &&& fs_reg::next_action(t, total, prefix, fits) == (fs_reg::RegAction::SendRings {
                chan,
            })
        }),
{
}

// ── Reset ──

/// A reset looks at both drives of its channel, bit 4 of the select register
/// telling them apart, and is over only when neither is busy, or when both were
/// looked at too often.
pub proof fn law_reset_waits_for_both(r: ResetRun, first: u8, second: u8, any: u8)
    requires
        r.stage is PickFirst,
        r.left > 1,
        r.ch.cmd <= 0xFFF0,
    ensures
        ({
            let (r1, a1) = probe::reset_next(r, any);
            let (r2, a2) = probe::reset_next(r1, first);
            let (r3, a3) = probe::reset_next(r2, any);
            let (r4, a4) = probe::reset_next(r3, second);
            &&& a1 == ProbeAsk::In((r.ch.cmd + 7) as u16)
            &&& (a2 matches ProbeAsk::Out(p, v) && p == r.ch.cmd + 6 && v & 0x10 != 0)
            &&& a3 == ProbeAsk::In((r.ch.cmd + 7) as u16)
            &&& (a4 is Over) == (first & 0x80 == 0 && second & 0x80 == 0)
            &&& a4 !is Over ==> (a4 matches ProbeAsk::Out(p, v) && p == r.ch.cmd + 6 && v & 0x10
                == 0) && r4.stage is PickFirst
        }),
{
    assert(0xB0u8 & 0x10 != 0 && 0xA0u8 & 0x10 == 0) by (bit_vector);
    assert((first >= 128) == (first & 0x80 != 0) && (second >= 128) == (second & 0x80 != 0))
        by (bit_vector);
}

// ── Nodes of disks ──

/// The nodes of a disk: first the whole of it, then its partitions in the order
/// of the table, each by its name and handle.
pub proof fn law_nodes_follow_the_table(disk: int, img: Image, k: int)
    requires
        0 <= disk < 16,
        0 <= k <= part::partitions(img[0]).len(),
        part::partitions(img[0]).len() <= 64,
    ensures
        ({
            let ns = nodes::disk_nodes(disk, img);
            &&& ns.len() == part::partitions(img[0]).len() + 1
            &&& ns[k].name == nodes::node_name(disk, k)
            &&& ns[k].handle == disk * 65536 + k
        }),
{
    let ps = part::partitions(img[0]);
    lemma_part_nodes(disk, img, ps, ps.len(), k);
}

proof fn lemma_part_nodes(disk: int, img: Image, ps: Seq<PartInfo>, n: nat, k: int)
    ensures
        nodes::part_nodes(disk, img, ps, n).len() == n,
        1 <= k <= n ==> nodes::part_nodes(disk, img, ps, n)[k - 1] == nodes::node_at(
            disk,
            k,
            img[ps[k - 1].start as u64],
        ),
    decreases n,
{
    if n > 0 {
        lemma_part_nodes(disk, img, ps, (n - 1) as nat, k);
    }
}

/// However a disk was read, its nodes bear their names and handles.
pub proof fn law_found_nodes_bear_their_names(
    disk: int,
    img: Image,
    added: Seq<NodeView>,
    locs: Seq<PartLoc>,
    k: int,
)
    requires
        0 <= disk < 16,
        nodes::disk_found(disk, img, added, locs),
        0 <= k < added.len(),
        added.len() <= 65,
    ensures
        added[k].name == nodes::node_name(disk, k),
        added[k].handle == disk * 65536 + k,
        added.len() == locs.len() + 1,
{
    assert(k >= 1 ==> nodes::node_found(
        added[k],
        disk,
        k,
        img[part::partitions(img[0])[k - 1].start as u64],
    ));
}

/// The nodes of a further disk come behind those of the disks before it.
pub proof fn law_disks_come_in_turn(imgs: Seq<Image>, img: Image)
    ensures
        server::all_nodes(imgs.push(img)) == server::all_nodes(imgs) + nodes::disk_nodes(
            imgs.len() as int,
            img,
        ),
        server::all_locs(imgs.push(img)) == server::all_locs(imgs).push(
            nodes::part_locs(part::partitions(img[0])),
        ),
{
    assert(imgs.push(img).drop_last() =~= imgs);
    assert(server::all_locs(imgs.push(img)) =~= server::all_locs(imgs).push(
        nodes::part_locs(part::partitions(img[0])),
    ));
}

} // verus!
