//! What drives tell of themselves, what a first sector names, and what the
//! controller for direct memory access is told.
use vstd::prelude::*;

use super::block;
use super::block::AtaDisk;
use super::detect;
use super::detect::{DiskInfo, Probe};
use super::dma;
use super::dma::DmaEngine;
use super::dma_ports;
use super::dma_ports::{PortAsk, Purpose, BM_CLEAR};
use super::part;
use super::part::PartInfo;
use crate::bytes;

verus! {

// ── Partitions ──

/// The place of an entry of the table.
pub open spec fn entry_at(i: int) -> int {
    446 + 16 * i
}

/// A first sector that was signed and holds a partition at place `i`: the type
/// in byte 4 of the entry, and from byte 8 on where it starts and how many
/// sectors it has, least significant byte first.
pub open spec fn holds_partition(s: Seq<u8>, i: int, p: PartInfo) -> bool {
    let at = entry_at(i);
    &&& s.len() == 512
    &&& s[510] == 0x55
    &&& s[511] == 0xAA
    &&& s[at + 4] == p.ptype
    &&& p.start == s[at + 8] + 256 * s[at + 9] + 65536 * s[at + 10] + 16777216 * s[at + 11]
    &&& p.sectors == s[at + 12] + 256 * s[at + 13] + 65536 * s[at + 14] + 16777216 * s[at + 15]
}

proof fn lemma_entry(s: Seq<u8>, i: int, p: PartInfo)
    requires
        0 <= i < 4,
        holds_partition(s, i, p),
    ensures
        part::entry(s, i) == p,
{
    reveal_with_fuel(bytes::le_value, 5);
}

proof fn lemma_in_use(s: Seq<u8>, n: nat, i: int)
    requires
        0 <= i < n,
        part::entry(s, i).ptype != 0,
        part::entry(s, i).sectors != 0,
    ensures
        part::entries_in_use(s, n).contains(part::entry(s, i)),
    decreases n,
{
    let r = part::entries_in_use(s, (n - 1) as nat);
    let all = part::entries_in_use(s, n);
    if i == n - 1 {
        assert(all[all.len() - 1] == part::entry(s, i));
    } else {
        lemma_in_use(s, (n - 1) as nat, i);
        let k = choose|k: int| 0 <= k < r.len() && r[k] == part::entry(s, i);
        assert(all[k] == part::entry(s, i));
    }
}

proof fn lemma_only_in_use(s: Seq<u8>, n: nat, k: int) -> (i: int)
    requires
        0 <= k < part::entries_in_use(s, n).len(),
    ensures
        0 <= i < n,
        part::entries_in_use(s, n)[k] == part::entry(s, i),
        part::entry(s, i).ptype != 0,
        part::entry(s, i).sectors != 0,
    decreases n,
{
    let r = part::entries_in_use(s, (n - 1) as nat);
    if k < r.len() {
        lemma_only_in_use(s, (n - 1) as nat, k)
    } else {
        n - 1
    }
}

/// A partition that was written into the table is found with what was written,
/// at each of the four places.
pub proof fn law_partition_is_found(s: Seq<u8>, i: int, p: PartInfo)
    requires
        0 <= i < 4,
        holds_partition(s, i, p),
        p.ptype != 0,
        p.sectors != 0,
    ensures
        part::partitions(s).contains(p),
{
    lemma_entry(s, i, p);
    lemma_in_use(s, 4, i);
}

/// Only what stands in the table is found, and nothing in a sector that is not
/// signed. `i` is the place that a partition was found at.
pub proof fn law_found_partition_is_there(s: Seq<u8>, k: int) -> (i: int)
    requires
        s.len() == 512,
        0 <= k < part::partitions(s).len(),
    ensures
        0 <= i < 4,
        holds_partition(s, i, part::partitions(s)[k]),
        part::partitions(s)[k].ptype != 0,
        part::partitions(s)[k].sectors != 0,
{
    let i = lemma_only_in_use(s, 4, k);
    reveal_with_fuel(bytes::le_value, 5);
    i
}

// ── Drives ──

/// A drive is described as it told: the count of sectors in two words, or in
/// four where bit 10 of word 83 says so; its names with the upper byte of each
/// word first.
pub proof fn law_drive_is_as_it_tells(d: DiskInfo, cmd: u16, drive: u8, w: Seq<u16>)
    requires
        detect::described(d, cmd, drive, w),
        w.len() == 256,
    ensures
        d.cmd == cmd,
        d.drive == drive,
        d.lba48 == (w[83] & 0x400 != 0),
        d.lba48 ==> d.sectors == w[100] + 65536 * (w[101] + 65536 * (w[102] + 65536 * w[103])),
        !d.lba48 ==> d.sectors == w[60] + 65536 * w[61],
        forall|i: int|
            0 <= i < 20 ==> #[trigger] w[27 + i] == 256 * d.model[2 * i] + d.model[2 * i + 1],
        forall|i: int|
            0 <= i < 10 ==> #[trigger] w[10 + i] == 256 * d.serial[2 * i] + d.serial[2 * i + 1],
        d.mdma_modes == w[63],
        d.udma_modes == w[88],
{
    let x = w[83];
    assert(((x / 1024) % 2 == 1) == (x & 0x400 != 0)) by (bit_vector);
    assert forall|i: int| 0 <= i < 20 implies #[trigger] w[27 + i] == 256 * d.model[2 * i]
        + d.model[2 * i + 1] by {
        let y = detect::swapped(w, 27, 20);
        assert((2 * i) % 2 == 0 && (2 * i) / 2 == i && (2 * i + 1) % 2 == 1 && (2 * i + 1) / 2 == i);
        assert(y[2 * i] == (w[27 + i] / 256) as u8);
        assert(y[2 * i + 1] == (w[27 + i] % 256) as u8);
        assert(d.model@[2 * i] == y[2 * i] && d.model@[2 * i + 1] == y[2 * i + 1]);
    }
    assert forall|i: int| 0 <= i < 10 implies #[trigger] w[10 + i] == 256 * d.serial[2 * i]
        + d.serial[2 * i + 1] by {
        let y = detect::swapped(w, 10, 10);
        assert((2 * i) % 2 == 0 && (2 * i) / 2 == i && (2 * i + 1) % 2 == 1 && (2 * i + 1) / 2 == i);
        assert(y[2 * i] == (w[10 + i] / 256) as u8);
        assert(y[2 * i + 1] == (w[10 + i] % 256) as u8);
        assert(d.serial@[2 * i] == y[2 * i] && d.serial@[2 * i + 1] == y[2 * i + 1]);
    }
}

/// The blanks behind a name do not count, and what is before them does.
pub proof fn law_blanks_behind_do_not_count(s: Seq<u8>)
    ensures
        0 <= detect::text_len(s) <= s.len(),
        forall|i: int| detect::text_len(s) <= i < s.len() ==> #[trigger] s[i] == 32,
        detect::text_len(s) > 0 ==> s[detect::text_len(s) - 1] != 32,
    decreases s.len(),
{
    if s.len() > 0 && s.last() == 32 {
        law_blanks_behind_do_not_count(s.drop_last());
        assert forall|i: int| detect::text_len(s) <= i < s.len() implies #[trigger] s[i] == 32 by {
            if i < s.len() - 1 {
                assert(s.drop_last()[i] == 32);
            }
        }
    }
}

/// Every drive that was found is kept, and nothing else is: drives that take
/// packets and empty places are left out.
pub proof fn law_drives_are_kept(p: Seq<Probe>, d: DiskInfo)
    ensures
        detect::drives_in(p).contains(d) == p.contains(Probe::Ata(d)),
    decreases p.len(),
{
    let all = detect::drives_in(p);
    if p.len() > 0 {
        let front = p.drop_last();
        let r = detect::drives_in(front);
        law_drives_are_kept(front, d);
        if p.contains(Probe::Ata(d)) {
            let k = choose|k: int| 0 <= k < p.len() && p[k] == Probe::Ata(d);
            if k < front.len() {
                assert(front[k] == Probe::Ata(d));
                let j = choose|j: int| 0 <= j < r.len() && r[j] == d;
                assert(all[j] == d);
            } else {
                assert(all[all.len() - 1] == d);
            }
        }
        if all.contains(d) {
            let j = choose|j: int| 0 <= j < all.len() && all[j] == d;
            if j < r.len() {
                assert(r[j] == d);
                let k = choose|k: int| 0 <= k < front.len() && front[k] == Probe::Ata(d);
                assert(p[k] == Probe::Ata(d));
            } else {
                assert(p[p.len() - 1] == Probe::Ata(d));
            }
        }
    }
}

// ── Direct memory access ──

proof fn lemma_table_len(ps: Seq<(int, int)>)
    ensures
        dma::table_of(ps).len() == 8 * ps.len(),
    decreases ps.len(),
{
    if ps.len() > 0 {
        bytes::lemma_le_bytes_len(ps[0].0 as nat, 4);
        bytes::lemma_le_bytes_len(ps[0].1 as nat, 2);
        lemma_table_len(ps.skip(1));
    }
}

/// Entry `k` of the table tells piece `k`: its address in four bytes and its
/// length in two, and its last bit is set in the last entry only.
pub proof fn law_table_tells_the_pieces(ps: Seq<(int, int)>, k: int)
    requires
        0 <= k < ps.len(),
        0 <= ps[k].0 < 0x1_0000_0000,
        0 <= ps[k].1 < 0x1_0000,
    ensures
        ({
            let t = dma::table_of(ps);
            let at = 8 * k;
            &&& t.len() == 8 * ps.len()
            &&& t[at] + 256 * t[at + 1] + 65536 * t[at + 2] + 16777216 * t[at + 3] == ps[k].0
            &&& t[at + 4] + 256 * t[at + 5] == ps[k].1
            &&& t[at + 6] == 0
            &&& t[at + 7] == (if k == ps.len() - 1 {
                0x80u8
            } else {
                0u8
            })
        }),
    decreases ps.len(),
{
    let t = dma::table_of(ps);
    let e = dma::table_entry(ps[0], ps.len() == 1);
    let rest = dma::table_of(ps.skip(1));
    lemma_table_len(ps);
    lemma_table_len(ps.skip(1));
    bytes::lemma_le_bytes_len(ps[0].0 as nat, 4);
    bytes::lemma_le_bytes_len(ps[0].1 as nat, 2);
    if k == 0 {
        let x = ps[0].0 as nat;
        let y = ps[0].1 as nat;
        reveal_with_fuel(bytes::le_bytes, 5);
        let a = bytes::le_bytes(x, 4);
        assert(a[0] == (x % 256) as u8 && a[1] == (x / 256 % 256) as u8 && a[2] == (x / 256 / 256
            % 256) as u8 && a[3] == (x / 256 / 256 / 256 % 256) as u8);
        let b = bytes::le_bytes(y, 2);
        assert(b[0] == (y % 256) as u8 && b[1] == (y / 256 % 256) as u8);
        assert forall|i: int| 0 <= i < 8 implies #[trigger] t[i] == e[i] by {}
        assert(e[0] == a[0] && e[1] == a[1] && e[2] == a[2] && e[3] == a[3]);
        assert(e[4] == b[0] && e[5] == b[1]);
    } else {
        law_table_tells_the_pieces(ps.skip(1), k - 1);
        assert forall|i: int| 8 <= i < t.len() implies #[trigger] t[i] == rest[i - 8] by {}
        let at = 8 * k;
        assert(t[at] == rest[at - 8] && t[at + 1] == rest[at - 7] && t[at + 2] == rest[at - 6]
            && t[at + 3] == rest[at - 5] && t[at + 4] == rest[at - 4] && t[at + 5] == rest[at - 3]
            && t[at + 6] == rest[at - 2] && t[at + 7] == rest[at - 1]);
    }
}

/// The command that starts a transfer has the start bit, and one from the drive
/// into memory has the direction bit; the other bits stay. The command that
/// stops one clears the start bit and leaves the others.
pub proof fn law_direction_is_told(command: u8, write: bool)
    ensures
        dma_ports::start_value(command, write) & 1 != 0,
        !write ==> dma_ports::start_value(command, write) & 8 != 0,
        write ==> dma_ports::start_value(command, write) & 8 == command & 8,
        dma_ports::start_value(command, write) & 0xF6 == command & 0xF6,
        dma_ports::stop_value(command) & 1 == 0,
        dma_ports::stop_value(command) & 0xFE == command & 0xFE,
{
    let stop = dma_ports::stop_value(command);
    let start = dma_ports::start_value(command, write);
    assert(stop == command - command % 2);
    assert(stop & 1 == 0 && stop & 0xFE == command & 0xFE) by (bit_vector)
        requires
            stop == command - command % 2,
    ;
    let set = (command / 8) % 2 == 1;
    assert((command - command % 2) + 1 <= 255) by (bit_vector);
    assert((command / 8) % 2 == 0 ==> (command - command % 2) + 9 <= 255) by (bit_vector);
    if write || set {
        assert(start == command - command % 2 + 1);
        assert(start & 1 != 0 && start & 8 == command & 8 && start & 0xF6 == command & 0xF6)
            by (bit_vector)
            requires
                start == command - command % 2 + 1,
        ;
        if set {
            assert(command & 8 != 0) by (bit_vector)
                requires
                    (command / 8) % 2 == 1,
            ;
        }
    } else {
        assert(start == command - command % 2 + 9);
        assert(start & 1 != 0 && start & 8 != 0 && start & 0xF6 == command & 0xF6) by (bit_vector)
            requires
                start == command - command % 2 + 9,
                (command / 8) % 2 == 0,
        ;
    }
}

/// A transfer is started in this order: once the controller is idle it is told
/// where the table is, its old status is cleared, the drive is given its command,
/// and only then the controller is started, in the direction that was asked for.
pub proof fn law_started_in_order(
    e: DmaEngine,
    disk: AtaDisk,
    chan: u16,
    write: bool,
    a: Seq<u8>,
)
    requires
        a.len() == 6,
        a[0] % 2 == 0,
        a[3] == 0,
        e.bmiba + chan <= 0xFFF0,
        e.staging_phys < 0x1_0000_0000,
    ensures
        ({
            let r = dma_ports::fresh(e, disk, chan, Purpose::Begin { write });
            let b = e.bmiba + chan;
            &&& dma_ports::asked(r, a.take(0)) == PortAsk::In((b + 2) as u16)
            &&& dma_ports::asked(r, a.take(1)) == PortAsk::Table(
                (b + 4) as u16,
                e.staging_phys as u32,
            )
            &&& dma_ports::asked(r, a.take(2)) == PortAsk::Out((b + 2) as u16, BM_CLEAR)
            &&& dma_ports::asked(r, a.take(3)) == PortAsk::Command
            &&& dma_ports::asked(r, a.take(4)) == PortAsk::In(b as u16)
            &&& dma_ports::asked(r, a.take(5)) == PortAsk::Out(
                b as u16,
                dma_ports::start_value(a[4], write),
            )
            &&& dma_ports::asked(r, a) == PortAsk::Started
        }),
{
    let r = dma_ports::fresh(e, disk, chan, Purpose::Begin { write });
    assert(a.take(0) =~= Seq::empty());
    assert(a.take(1).drop_last() =~= a.take(0));
    assert(a.take(2).drop_last() =~= a.take(1));
    assert(a.take(3).drop_last() =~= a.take(2));
    assert(a.take(4).drop_last() =~= a.take(3));
    assert(a.take(5).drop_last() =~= a.take(4));
    assert(a.drop_last() =~= a.take(5));
    assert(dma_ports::run_after(r, a.take(0)) == r);
    let r1 = dma_ports::run_after(r, a.take(1));
    assert(r1 == dma_ports::run_next(r, a[0]).0);
    let r2 = dma_ports::run_after(r, a.take(2));
    assert(r2 == dma_ports::run_next(r1, a[1]).0);
    let r3 = dma_ports::run_after(r, a.take(3));
    assert(r3 == dma_ports::run_next(r2, a[2]).0);
    let r4 = dma_ports::run_after(r, a.take(4));
    assert(r4 == dma_ports::run_next(r3, a[3]).0);
    let r5 = dma_ports::run_after(r, a.take(5));
    assert(r5 == dma_ports::run_next(r4, a[4]).0);
}

/// A drive that does not take its command keeps the controller from being
/// started.
pub proof fn law_refused_command_starts_nothing(r: dma_ports::PortRun, answer: u8)
    requires
        r.stage is Drive,
        answer != 0,
    ensures
        dma_ports::run_next(r, answer).1 is Refused,
        dma_ports::run_next(r, answer).0.stage is Over,
{
}

// ── Modes and places ──

/// The mode for direct memory access is the highest that the drive lists, and 2
/// for any above it; a drive that lists none has none.
pub proof fn law_highest_listed_mode_is_used(word: u16)
    ensures
        block::best_mode(word) is None <==> word % 128 == 0,
        block::best_mode(word) == Some(0u8) <==> word % 128 == 1,
        block::best_mode(word) == Some(1u8) <==> word % 128 == 2 || word % 128 == 3,
        block::best_mode(word) == Some(2u8) <==> word % 128 >= 4,
{
    let high = (word / 64) % 2 == 1 || (word / 32) % 2 == 1 || (word / 16) % 2 == 1 || (word / 8) % 2
        == 1 || (word / 4) % 2 == 1;
    assert(high == (word % 128 >= 4)) by (bit_vector)
        requires
            high == ((word / 64) % 2 == 1 || (word / 32) % 2 == 1 || (word / 16) % 2 == 1 || (word
                / 8) % 2 == 1 || (word / 4) % 2 == 1),
    ;
    assert(!high ==> ((word / 2) % 2 == 1) == (word % 128 >= 2)) by (bit_vector)
        requires
            high == (word % 128 >= 4),
    ;
    assert((word % 2 == 1) == (word % 128 % 2 == 1)) by (bit_vector);
    assert(block::mode_listed(word, 6) == ((word / 64) % 2 == 1));
    assert(block::mode_listed(word, 5) == ((word / 32) % 2 == 1));
    assert(block::mode_listed(word, 4) == ((word / 16) % 2 == 1));
    assert(block::mode_listed(word, 3) == ((word / 8) % 2 == 1));
    assert(block::mode_listed(word, 2) == ((word / 4) % 2 == 1));
    assert(block::mode_listed(word, 1) == ((word / 2) % 2 == 1));
    assert(block::mode_listed(word, 0) == (word % 2 == 1));
}

/// The mode is set on the drive that is meant, as a transfer mode, and by the
/// last write.
pub proof fn law_mode_is_set_on_its_drive(d: AtaDisk, m: u8)
    requires
        d.drive <= 1,
        d.cmd <= 0xFFF0,
        m < 64,
    ensures
        ({
            let w = block::mode_command(d, m);
            &&& w[0] == ((d.cmd + 6) as u16, (if d.drive == 0 {
                0xA0u8
            } else {
                0xB0u8
            }))
            &&& w.contains(((d.cmd + 1) as u16, 3u8))
            &&& w.contains(((d.cmd + 2) as u16, (64 + m) as u8))
            &&& w.last() == ((d.cmd + 7) as u16, 0xEFu8)
            &&& forall|i: int|
                0 <= i < w.len() - 1 ==> (#[trigger] w[i]).0 != d.cmd + 7
        }),
{
    let w = block::mode_command(d, m);
    assert(w[1] == ((d.cmd + 1) as u16, 3u8));
    assert(w[2] == ((d.cmd + 2) as u16, (64 + m) as u8));
}

/// A place where nothing answers holds nothing; a packet drive is told by its
/// two signature bytes and is not read as a disk; anything else is a disk on
/// that channel and at that place.
pub proof fn law_place_holds_what_answers(
    p: Probe,
    cmd: u16,
    drive: u8,
    first: u8,
    second: u8,
    mid: u8,
    hi: u8,
    words: Seq<u16>,
)
    ensures
        detect::found_at(p, cmd, drive, 0, true, second, mid, hi, words) ==> p is Absent,
        detect::found_at(p, cmd, drive, 255, true, second, mid, hi, words) ==> p is Absent,
        detect::found_at(p, cmd, drive, first, false, second, mid, hi, words) ==> p is Absent,
        detect::found_at(p, cmd, drive, first, true, second, 0x14, 0xEB, words) ==> !(p is Ata),
        0 < first < 255 && second % 2 == 0 && mid == 0 && hi == 0 && detect::found_at(
            p,
            cmd,
            drive,
            first,
            true,
            second,
            mid,
            hi,
            words,
        ) ==> (p matches Probe::Ata(d) && d.cmd == cmd && d.drive == drive),
{
}

} // verus!
