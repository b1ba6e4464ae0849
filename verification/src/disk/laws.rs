//! What the port writes of a transfer mean to a drive.
use vstd::prelude::*;

use super::block;
use super::block::{AtaDisk, PortWrite, Transfer};

verus! {

/// The last of the first `i` writes that went to a port; -1 if there is none.
pub open spec fn last_write(w: Seq<PortWrite>, port: int, i: int) -> int
    decreases i,
{
    if i <= 0 {
        -1
    } else if w[i - 1].0 == port {
        i - 1
    } else {
        last_write(w, port, i - 1)
    }
}

/// A port was written.
pub open spec fn was_written(w: Seq<PortWrite>, port: int) -> bool {
    last_write(w, port, w.len() as int) >= 0
}

/// A port was written at least twice.
pub open spec fn was_written_twice(w: Seq<PortWrite>, port: int) -> bool {
    was_written(w, port) && last_write(w, port, last_write(w, port, w.len() as int)) >= 0
}

/// What the register behind a port holds: the last byte written to it.
pub open spec fn holds_now(w: Seq<PortWrite>, port: int) -> int {
    w[last_write(w, port, w.len() as int)].1 as int
}

/// What the register behind a port held before the last byte was written to it.
pub open spec fn held_before(w: Seq<PortWrite>, port: int) -> int {
    w[last_write(w, port, last_write(w, port, w.len() as int))].1 as int
}

/// The sector that a drive takes from its registers. With 48-bit numbers each of
/// the three registers holds two bytes, the upper one written first; else the
/// uppermost four bits stand in the register that selects the drive.
pub open spec fn sector_selected(d: AtaDisk, w: Seq<PortWrite>) -> int {
    let c = d.cmd as int;
    let low = holds_now(w, c + 3) + 0x100 * holds_now(w, c + 4) + 0x1_0000 * holds_now(w, c + 5);
    if d.lba48 {
        low + 0x100_0000 * held_before(w, c + 3) + 0x1_0000_0000 * held_before(w, c + 4)
            + 0x100_0000_0000 * held_before(w, c + 5)
    } else {
        low + 0x100_0000 * (holds_now(w, c + 6) % 16)
    }
}

/// The number of sectors that a drive takes from its registers.
pub open spec fn count_selected(d: AtaDisk, w: Seq<PortWrite>) -> int {
    let c = d.cmd as int;
    if d.lba48 {
        holds_now(w, c + 2) + 0x100 * held_before(w, c + 2)
    } else {
        holds_now(w, c + 2)
    }
}

/// The drive that the registers select, and that they name a sector by its
/// number.
pub open spec fn drive_selected(d: AtaDisk, w: Seq<PortWrite>, drive: u8) -> bool {
    let v = holds_now(w, d.cmd + 6);
    (v / 16) % 2 == drive && (v / 64) % 2 == 1
}

proof fn lemma_bytes_of(lba: u64)
    ensures
        block::lba_byte(lba, 0) == lba % 0x100,
        block::lba_byte(lba, 1) == (lba / 0x100) % 0x100,
        block::lba_byte(lba, 2) == (lba / 0x1_0000) % 0x100,
        block::lba_byte(lba, 3) == (lba / 0x100_0000) % 0x100,
        block::lba_byte(lba, 4) == (lba / 0x1_0000_0000) % 0x100,
        block::lba_byte(lba, 5) == (lba / 0x100_0000_0000) % 0x100,
{
    reveal_with_fuel(block::pow256, 7);
}

proof fn lemma_bytes_sum(l: int)
    requires
        0 <= l <= 0xFFFF_FFFF_FFFF,
    ensures
        l == l % 0x100 + 0x100 * ((l / 0x100) % 0x100) + 0x1_0000 * ((l / 0x1_0000) % 0x100)
            + 0x100_0000 * ((l / 0x100_0000) % 0x100) + 0x1_0000_0000 * ((l / 0x1_0000_0000)
            % 0x100) + 0x100_0000_0000 * ((l / 0x100_0000_0000) % 0x100),
        l <= 0x0FFF_FFFF ==> (l / 0x100_0000) % 0x100 < 16 && (l / 0x1_0000_0000) % 0x100 == 0 && (l
            / 0x100_0000_0000) % 0x100 == 0,
{
    let q1 = l / 0x100;
    let q2 = q1 / 0x100;
    let q3 = q2 / 0x100;
    let q4 = q3 / 0x100;
    let q5 = q4 / 0x100;
    assert(l / 0x1_0000 == q2);
    assert(l / 0x100_0000 == q3);
    assert(l / 0x1_0000_0000 == q4);
    assert(l / 0x100_0000_0000 == q5);
    assert(l == l % 0x100 + 0x100 * q1);
    assert(q1 == q1 % 0x100 + 0x100 * q2);
    assert(q2 == q2 % 0x100 + 0x100 * q3);
    assert(q3 == q3 % 0x100 + 0x100 * q4);
    assert(q4 == q4 % 0x100 + 0x100 * q5);
    assert(q5 == q5 % 0x100);
}

proof fn lemma_long_command(d: AtaDisk, lba: u64, n: u8, op: u8)
    requires
        d.wf(),
        d.lba48,
        lba <= block::max_lba(d),
    ensures
        ({
            let w = block::command_for(d, lba, n, op);
            let c = d.cmd as int;
            &&& w.len() == 12
            &&& last_write(w, c + 2, 12) == 7 && last_write(w, c + 2, 7) == 2
            &&& last_write(w, c + 3, 12) == 8 && last_write(w, c + 3, 8) == 3
            &&& last_write(w, c + 4, 12) == 9 && last_write(w, c + 4, 9) == 4
            &&& last_write(w, c + 5, 12) == 10 && last_write(w, c + 5, 10) == 5
            &&& last_write(w, c + 6, 12) == 0
        }),
{
    let w = block::command_for(d, lba, n, op);
    assert(w.len() == 12);
    reveal_with_fuel(last_write, 13);
}

proof fn lemma_short_command(d: AtaDisk, lba: u64, n: u8, op: u8)
    requires
        d.wf(),
        !d.lba48,
        lba <= block::max_lba(d),
    ensures
        ({
            let w = block::command_for(d, lba, n, op);
            let c = d.cmd as int;
            &&& w.len() == 7
            &&& last_write(w, c + 2, 7) == 2
            &&& last_write(w, c + 3, 7) == 3
            &&& last_write(w, c + 4, 7) == 4
            &&& last_write(w, c + 5, 7) == 5
            &&& last_write(w, c + 6, 7) == 0
        }),
{
    let w = block::command_for(d, lba, n, op);
    assert(w.len() == 7);
    reveal_with_fuel(last_write, 8);
}

/// A drive does what it is asked to: the registers decode back to the sector,
/// the number of sectors and the drive, the command comes last, and nothing
/// goes anywhere but to the registers of the channel.
pub proof fn law_command_names_its_sector(d: AtaDisk, lba: u64, n: u8, op: u8)
    requires
        d.wf(),
        lba <= block::max_lba(d),
    ensures
        ({
            let w = block::command_for(d, lba, n, op);
            let c = d.cmd as int;
            &&& forall|p: int| c + 2 <= p <= c + 6 ==> #[trigger] was_written(w, p)
            &&& d.lba48 ==> forall|p: int|
                c + 2 <= p <= c + 5 ==> #[trigger] was_written_twice(w, p)
            &&& sector_selected(d, w) == lba
            &&& count_selected(d, w) == n
            &&& drive_selected(d, w, d.drive)
            &&& w.last() == (((c + 7) as u16), op)
            &&& forall|i: int|
                0 <= i < w.len() - 1 ==> c + 1 <= (#[trigger] w[i]).0 <= c + 6
        }),
{
    let w = block::command_for(d, lba, n, op);
    let c = d.cmd as int;
    lemma_bytes_of(lba);
    lemma_bytes_sum(lba as int);
    if d.lba48 {
        lemma_long_command(d, lba, n, op);
    } else {
        lemma_short_command(d, lba, n, op);
    }
    assert forall|p: int| c + 2 <= p <= c + 6 implies #[trigger] was_written(w, p) by {
        assert(p == c + 2 || p == c + 3 || p == c + 4 || p == c + 5 || p == c + 6);
    }
    if d.lba48 {
        assert forall|p: int| c + 2 <= p <= c + 5 implies #[trigger] was_written_twice(w, p) by {
            assert(p == c + 2 || p == c + 3 || p == c + 4 || p == c + 5);
        }
    }
}

/// Different sectors take different commands.
pub proof fn law_commands_tell_sectors_apart(d: AtaDisk, a: u64, b: u64, n: u8, op: u8)
    requires
        d.wf(),
        a <= block::max_lba(d),
        b <= block::max_lba(d),
        block::command_for(d, a, n, op) == block::command_for(d, b, n, op),
    ensures
        a == b,
{
    law_command_names_its_sector(d, a, n, op);
    law_command_names_its_sector(d, b, n, op);
}

/// The command says what is done: `READ SECTORS` is 0x20, one bit makes a write
/// of it, and another one tells that the number has 48 bits. A read never comes
/// out as a write.
pub proof fn law_command_tells_direction(d: AtaDisk, write: bool)
    ensures
        block::transfer_op(d, write) == 0x20 + (if write {
            0x10int
        } else {
            0
        }) + (if d.lba48 {
            0x04int
        } else {
            0
        }),
        block::transfer_op(d, false) != block::transfer_op(d, true),
{
}

/// A flush goes to the drive that was written to: it is selected, and then told
/// to put everything on its disk.
pub proof fn law_flush_goes_to_the_drive(d: AtaDisk)
    requires
        d.wf(),
    ensures
        ({
            let w = block::flush_for(d);
            &&& was_written(w, d.cmd + 6)
            &&& drive_selected(d, w, d.drive)
            &&& w.last() == (((d.cmd + 7) as u16), (0xE7 + (if d.lba48 {
                3int
            } else {
                0
            })) as u8)
        }),
{
    reveal_with_fuel(last_write, 3);
}

/// A transfer keeps to what it was begun with: whatever the drive answers, it is
/// about the same sectors of the same drive, in the same direction.
pub proof fn law_transfer_keeps_its_sectors(t: Transfer, st: u8)
    ensures
        block::stepped(t, st).0.disk == t.disk,
        block::stepped(t, st).0.lba == t.lba,
        block::stepped(t, st).0.n == t.n,
        block::stepped(t, st).0.write == t.write,
{
}

/// What a transfer is begun for is what was asked, and it is begun exactly if
/// there is a sector to move, room for all of them, and a number that the drive
/// takes.
pub proof fn law_transfer_is_as_asked(d: AtaDisk, lba: u64, n: u8, room: int, write: bool)
    ensures
        match block::begun(d, lba, n, room, write) {
            Some(t) => {
                &&& t.disk == d && t.lba == lba && t.n == n && t.write == write && t.moved == 0
                &&& 0 < n && n * 512 <= room
                &&& lba < (if d.lba48 {
                    0x1_0000_0000_0000int
                } else {
                    0x1000_0000
                })
            },
            None => n == 0 || room < n * 512 || lba >= (if d.lba48 {
                0x1_0000_0000_0000int
            } else {
                0x1000_0000
            }),
        },
{
}

/// A transfer does not go on while the drive is busy, and it never ends well
/// where the drive says that it failed.
pub proof fn law_drive_is_heeded(t: Transfer, st: u8)
    requires
        block::in_step(t),
    ensures
        st >= 128 && !(t.phase is Data) && !(t.phase is Check) && !(t.phase is Verify)
            && !(t.phase is Done) ==> block::stepped(t, st).0.moved == t.moved && (block::stepped(
            t,
            st,
        ).1 is Status || block::stepped(t, st).1 == block::Action::Finished(false)),
        st % 2 == 1 && (t.phase is Check || t.phase is Verify || (t.phase is Data && (st / 8) % 2
            == 0)) ==> block::stepped(t, st).1 == block::Action::Finished(false),
        block::stepped(t, st).1 is Sector ==> t.phase is Data && (st / 8) % 2 == 1,
        block::stepped(t, st).1 is Command ==> t.phase is Start && st < 128,
        t.write && block::stepped(t, st).0.phase == block::Phase::Done(true) && !(t.phase is Done)
            ==> t.phase is Verify && st % 2 == 0,
        block::stepped(t, st).0.phase is Verify && !(t.phase is Verify) ==> t.phase is Flush,
        block::stepped(t, st).0.phase is Flush && !(t.phase is Flush) ==> block::stepped(
            t,
            st,
        ).1 is Flush,
{
}

} // verus!
