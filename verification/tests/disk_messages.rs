use velordor::disk::block::{AtaDisk, TIMEOUT};
use velordor::disk::detect::{AtaChannel, Probe};
use velordor::disk::dispatch::{deal_with, Answer, Msg, Pages};
use velordor::disk::dma::DmaEngine;
use velordor::disk::dma_ports::{PortAsk, PortRun, BM_CLEAR};
use velordor::disk::fs_reg::FsReg;
use velordor::disk::probe::{ProbeAsk, ProbeRun, ResetRun, ResetStage};
use velordor::disk::server::DiskServer;
use velordor::fs::block::{BlockSource, RamDisk};
use velordor::fs::codes::{
    DEV_CLOSE, DEV_OPEN, DEV_READ, DEV_READDIR, DEV_WRITE, DISK_CLOSE, DISK_HELLO, DISK_OPEN,
    DISK_READ, DISK_RESOLVE, DISK_WRITE, ERR,
};
use velordor::ring::{response_frame, Ring};

struct Driver {
    server: DiskServer<RamDisk>,
    reg: FsReg,
    pages: Pages,
}

fn driver() -> Driver {
    let mut disk = RamDisk::new(64);
    let mut mbr = [0u8; 512];
    mbr[0x1BE + 4] = 0x0C;
    mbr[0x1BE + 8] = 10;
    mbr[0x1BE + 12] = 20;
    mbr[510] = 0x55;
    mbr[511] = 0xAA;
    assert!(disk.write_sector(0, &mbr));
    Driver {
        server: DiskServer::start(vec![disk], vec![64]),
        reg: FsReg::new(1, 2),
        pages: Pages {
            fs_req: Ring::new(),
            fs_resp: Ring::new(),
            disk_req: Ring::new(),
            disk_resp: Ring::new(),
            req_phys: 0x1000,
            resp_phys: 0x2000,
        },
    }
}

impl Driver {
    fn tell(&mut self, tag: u64, w0: u64, w1: u64) -> Answer {
        self.deal(Msg { tag, w0, w1, req_id: 0, exit: false })
    }

    fn deal(&mut self, m: Msg) -> Answer {
        deal_with(&mut self.server, &mut self.reg, &mut self.pages, m)
    }
}

#[test]
fn the_file_system_server_is_answered() {
    let mut d = driver();
    assert_eq!(d.tell(DISK_HELLO, 0, 0).reply, Some((0x1000, 0x2000)));
    assert_eq!(d.tell(DISK_OPEN, 1, 0).reply, Some((0, 0)));
    assert_eq!(d.tell(DISK_OPEN, 9, 0).reply, Some((ERR, 0)));
    // The handle is the low half of its word.
    assert_eq!(d.tell(DISK_OPEN, 0x7_0000_0001, 0).reply, Some((0, 0)));
    assert_eq!(d.tell(DISK_CLOSE, 9, 0).reply, Some((0, 0)));
    d.pages.disk_req.put(&4u64.to_le_bytes());
    d.pages.disk_req.put(b"sda1");
    assert_eq!(d.tell(DISK_RESOLVE, 0, 0).reply, Some((1, 0)));
    d.pages.disk_req.put(&1u64.to_le_bytes());
    d.pages.disk_req.put(&[9u8; 512]);
    assert_eq!(d.tell(DISK_WRITE, 1, 3).reply, Some((0, 0)));
    assert_eq!(d.pages.disk_req.available(), 0);
    d.pages.disk_req.put(&1u64.to_le_bytes());
    // Sector 3 of the partition is sector 13 of the disk.
    let a = d.tell(DISK_READ, 0, 13);
    assert_eq!((a.reply, a.frame, a.dropped), (Some((0, 0)), None, 0));
    assert_eq!(d.pages.disk_resp.peek(16, 512), vec![9u8; 512]);
}

#[test]
fn devices_are_read_and_never_written() {
    let mut d = driver();
    let (fd, _) = d.tell(DEV_OPEN, 1, 0).reply.unwrap();
    assert_eq!(d.tell(DEV_OPEN, 5, 0).reply, Some((ERR, 0)));
    let a = d.tell(DEV_READ, fd, 512);
    assert_eq!((a.reply, a.frame.unwrap().len()), (Some((512, 0)), 512));
    // What the client sent along is dropped.
    let a = d.tell(DEV_WRITE, fd, 77);
    assert_eq!((a.reply, a.frame, a.dropped), (Some((ERR, 0)), None, 77));
    let a = d.tell(DEV_READDIR, 0, 0);
    assert_eq!((a.reply, a.frame), (Some((0, 0)), Some(vec![])));
    assert_eq!(d.tell(DEV_CLOSE, fd, 0).reply, Some((0, 0)));
    let a = d.tell(DEV_READ, fd, 512);
    assert_eq!((a.reply, a.frame), (Some((ERR, 0)), None));
    // A request that nobody knows is refused too.
    assert_eq!(d.tell(0x99, 0, 0).reply, Some((ERR, 0)));
}

#[test]
fn replies_come_before_requests() {
    let mut d = driver();
    d.reg.looked_up(Some(8));
    d.reg.pending = Some(4);
    // With the number of another request it is a request of a client.
    let m = Msg { tag: DISK_HELLO, w0: 0, w1: 0, req_id: 5, exit: false };
    assert_eq!(d.deal(m).reply, Some((0x1000, 0x2000)));
    assert_eq!(d.reg.pending, Some(4));
    let a = d.deal(Msg { req_id: 4, ..m });
    assert_eq!((a.reply, a.frame, a.dropped), (None, None, 0));
    assert!(d.reg.bufreg_done);
    assert_eq!(d.reg.pending, None);
    // Now for a mount point.
    d.reg.pending = Some(6);
    d.pages.fs_resp.put(&response_frame(0, 0, b""));
    assert_eq!(d.deal(Msg { req_id: 6, ..m }).reply, None);
    assert_eq!(d.reg.idx, 1);
    assert_eq!(d.pages.fs_resp.available(), 0);
}

#[test]
fn the_end_of_the_server_starts_registration_anew() {
    let mut d = driver();
    d.reg.looked_up(Some(8));
    d.reg.idx = 3;
    d.pages.fs_req.put(b"left over");
    d.pages.disk_req.put(b"kept");
    let a = d.deal(Msg { tag: 0, w0: 0, w1: 0, req_id: 0, exit: true });
    assert!(a.reply.is_none());
    assert_eq!((d.reg.chan, d.reg.idx), (None, 0));
    assert_eq!(d.pages.fs_req.available(), 0);
    assert_eq!(d.pages.disk_req.available(), 4);
}

fn engine() -> DmaEngine {
    DmaEngine::init(Some(0xC000), &[None, Some(2)], Some(0x10_0000)).unwrap()
}

const DISK: AtaDisk = AtaDisk { cmd: 0x1F0, drive: 0, lba48: true };

fn asks(first: (PortRun, PortAsk), answers: &[u8]) -> Vec<PortAsk> {
    let (mut run, ask) = first;
    let mut all = vec![ask];
    for a in answers {
        all.push(run.step(*a));
    }
    all
}

#[test]
fn a_transfer_is_started() {
    let read = asks(engine().arm(&DISK, 8, false), &[1, 4, 0, 0, 0, 0, 0]);
    assert_eq!(
        read,
        [
            PortAsk::In(0xC00A),
            PortAsk::In(0xC00A),
            PortAsk::Table(0xC00C, 0x10_0000),
            PortAsk::Out(0xC00A, BM_CLEAR),
            PortAsk::Command,
            PortAsk::In(0xC008),
            PortAsk::Out(0xC008, 9),
            PortAsk::Started,
        ]
    );
    let write = asks(engine().arm(&DISK, 0, true), &[0, 0, 0, 0, 0x20]);
    assert_eq!(write.last(), Some(&PortAsk::Out(0xC000, 0x21)));
    // A drive that does not take the command.
    let no = asks(engine().arm(&DISK, 0, true), &[0, 0, 0, 1]);
    assert_eq!(no.last(), Some(&PortAsk::Refused));
}

#[test]
fn a_busy_controller_is_refused() {
    let (mut run, _) = engine().arm(&DISK, 0, false);
    run.left = 2;
    assert_eq!(run.step(1), PortAsk::In(0xC002));
    assert_eq!(run.step(1), PortAsk::Refused);
}

#[test]
fn a_transfer_is_closed_and_given_up() {
    let closed = asks(engine().finish(&DISK, 0), &[0x04, 0x09, 0, 0x50, 0]);
    assert_eq!(
        closed,
        [
            PortAsk::In(0xC002),
            PortAsk::In(0xC000),
            PortAsk::Out(0xC000, 0x08),
            PortAsk::In(0x1F7),
            PortAsk::Out(0xC002, BM_CLEAR),
            PortAsk::Closed(0x04, 0x50),
        ]
    );
    let given_up = asks(engine().abort(&DISK, 0), &[0x01, 0, 0]);
    assert_eq!(
        given_up,
        [
            PortAsk::In(0xC000),
            PortAsk::Out(0xC000, 0),
            PortAsk::Out(0xC002, BM_CLEAR),
            PortAsk::GivenUp,
        ]
    );
}

#[test]
fn transfers_are_prepared_and_counted() {
    let mut e = engine();
    let table = e.start_dma(&DISK, 2, 1024).unwrap();
    assert_eq!(table, [0x40, 0, 0x10, 0, 0, 4, 0, 0x80]);
    assert_eq!(e.dma_fb, 0);
    assert_eq!(e.start_dma(&DISK, 8, 8 * 512), None);
    assert_eq!(e.start_dma(&DISK, 2, 1023), None);
    assert_eq!(e.start_dma(&DISK, 0, 512), None);
    let old = AtaDisk { lba48: false, ..DISK };
    assert_eq!(e.start_dma(&old, 1, 512), None);
    assert_eq!(e.dma_fb, 4);
    assert!(e.is_done(4) && e.is_done(2) && !e.is_done(1));
    assert!(e.finish_dma(4, 0x50, false, false));
    assert!(e.finish_dma(4, 0x50, true, true));
    assert!(!e.finish_dma(4, 0x50, false, true));
    assert!(!e.finish_dma(6, 0x50, true, false));
    assert!(!e.finish_dma(4, 0x51, true, false));
    assert_eq!((e.dma_ok, e.dma_fb), (2, 7));
    e.note_irq_drained();
    e.note_ev_wait();
    e.note_ev_fast();
    e.note_ev_fast();
    e.note_ev_abort();
    assert_eq!((e.irq_drained, e.ev_wait, e.ev_fast, e.ev_abort), (1, 1, 2, 1));
}

#[test]
fn the_best_mode_that_both_have() {
    let (m, writes) = DISK.set_dma_mode(0x3F).unwrap();
    assert_eq!(m, 2);
    assert_eq!(writes[0], (0x1F6, 0xA0));
    assert_eq!(writes[2], (0x1F2, 0x42));
    assert_eq!(writes[6], (0x1F7, 0xEF));
    let second = AtaDisk { drive: 1, ..DISK };
    assert_eq!(second.set_dma_mode(0x3).unwrap().0, 1);
    assert_eq!(second.set_dma_mode(0x1).unwrap().1[0], (0x1F6, 0xB0));
    assert_eq!(DISK.set_dma_mode(0), None);
}

const PRIMARY: AtaChannel = AtaChannel { cmd: 0x1F0, ctl: 0x3F6 };

#[test]
fn a_channel_is_reset_before_its_drives_are_asked() {
    let (mut run, first) = ResetRun::software_reset(PRIMARY);
    assert_eq!(first, ProbeAsk::Out(0x3F6, 4));
    assert_eq!(run.step(0), ProbeAsk::Pause);
    assert_eq!(run.step(0), ProbeAsk::Out(0x3F6, 0));
    // Both drives are looked at, and once more if one is busy.
    for status in [0x80, 0x50] {
        assert_eq!(run.step(0), ProbeAsk::Out(0x1F6, 0xA0));
        assert_eq!(run.step(0), ProbeAsk::In(0x1F7));
        assert_eq!(run.step(status), ProbeAsk::Out(0x1F6, 0xB0));
        assert_eq!(run.step(0), ProbeAsk::In(0x1F7));
        if status == 0x80 {
            // The answer leads to the first drive again.
            assert_eq!(run.stage, ResetStage::SeeSecond);
            let mut again = run;
            assert_eq!(again.step(0x50), ProbeAsk::Out(0x1F6, 0xA0));
            run.stage = ResetStage::Off;
        }
    }
    assert_eq!(run.step(0x50), ProbeAsk::Over);
}

#[test]
fn a_drive_is_asked_what_it_is() {
    let (mut run, first) = ProbeRun::ask(PRIMARY, 1);
    assert_eq!(first, ProbeAsk::Out(0x1F6, 0xB0));
    for _ in 0..4 {
        assert_eq!(run.step(0), ProbeAsk::In(0x1F7));
    }
    assert_eq!(run.step(0), ProbeAsk::Out(0x1F7, 0xEC));
    assert_eq!(run.step(0), ProbeAsk::In(0x1F7));
    let asked = run;
    // Busy, then ready, without an error.
    assert_eq!(run.step(0xD0), ProbeAsk::In(0x1F7));
    assert_eq!(run.step(0xD0), ProbeAsk::In(0x1F7));
    assert_eq!(run.step(0x58), ProbeAsk::In(0x1F7));
    assert_eq!(run.step(0x58), ProbeAsk::In(0x1F4));
    let answered = run;
    assert_eq!(run.step(0), ProbeAsk::In(0x1F5));
    assert_eq!(run.step(0), ProbeAsk::Words(0x1F0));
    assert_eq!(run.step(0), ProbeAsk::Over);
    let mut words = vec![0u16; 256];
    words[60] = 100;
    match run.result(words) {
        Probe::Ata(d) => assert_eq!((d.cmd, d.drive, d.sectors, d.lba48), (0x1F0, 1, 100, false)),
        _ => panic!("no drive"),
    }
    // A packet drive is not read.
    let mut run = answered;
    run.step(0x14);
    assert_eq!(run.step(0xEB), ProbeAsk::Over);
    assert!(matches!(run.result(vec![0; 256]), Probe::Atapi));
    // Nobody there.
    let mut run = asked;
    assert_eq!(run.step(0xFF), ProbeAsk::Over);
    assert!(matches!(run.result(vec![0; 256]), Probe::Absent));
    // A drive that is busy for too long.
    let mut run = asked;
    run.step(0xD0);
    let mut n = 1;
    while run.step(0xD0) != ProbeAsk::Over {
        n += 1;
    }
    assert_eq!(n, TIMEOUT);
    assert!(matches!(run.result(vec![0; 256]), Probe::Absent));
}
