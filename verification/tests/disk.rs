use velordor::disk::block::{sector_bytes, sector_words, Action, AtaDisk, Phase, Transfer, TIMEOUT};
use velordor::disk::cache::{
    contains, insert_from, invalidate, invalidate_run, lookup_into, note_misses, stats, Cache,
    CACHE_SECTORS,
};
use velordor::disk::detect::{channels, detect, probe_drive, Probe, Seen};
use velordor::disk::dma::{build_prd, DmaEngine, STAT_EVERY};
use velordor::disk::fs_reg::{FsReg, RegAction};
use velordor::disk::nodes::{
    identity, locate, node_read, node_read_multi, node_write, node_write_multi, prefixes_of,
    resolve_node, Node, PartLoc,
};
use velordor::disk::part::{parse_mbr, PartInfo};
use velordor::disk::rings::{
    disk_req_read_count, disk_req_read_multi, disk_req_read_name, fs_req_rollback, fs_req_write,
    fs_resp_read,
};
use velordor::disk::server::DiskServer;
use velordor::fs::block::{BlockSource, RamDisk};
use velordor::fs::codes::ERR;
use velordor::ring::{response_frame, Ring};

fn mbr() -> [u8; 512] {
    let mut s = [0u8; 512];
    s[0x1BE + 4] = 0x0C;
    s[0x1BE + 8] = 10;
    s[0x1BE + 12] = 20;
    // The second entry is empty, the third has no sectors.
    s[0x1BE + 32 + 4] = 0x83;
    s[510] = 0x55;
    s[511] = 0xAA;
    s
}

fn disk() -> RamDisk {
    let mut d = RamDisk::new(64);
    assert!(d.write_sector(0, &mbr()));
    d
}

fn words() -> Vec<u16> {
    let mut w = vec![0u16; 256];
    for i in 0..20 {
        w[27 + i] = 0x2020;
    }
    for i in 0..10 {
        w[10 + i] = 0x2020;
    }
    w[27] = 0x4142;
    w[60] = 0x1000;
    w[61] = 1;
    w[63] = 7;
    w[88] = 0x3F;
    w
}

fn finished(t: &mut Transfer, st: u8) -> (Action, u32) {
    let mut n = 0;
    loop {
        let a = t.step(st);
        n += 1;
        if matches!(a, Action::Finished(_)) || n > 2 * TIMEOUT {
            return (a, n);
        }
    }
}

#[test]
fn partitions_of_a_disk() {
    let mut out = vec![];
    parse_mbr(&mbr(), &mut out);
    assert_eq!(out, [PartInfo { ptype: 0x0C, start: 10, sectors: 20 }]);
    let mut none = vec![];
    parse_mbr(&[0u8; 512], &mut none);
    assert!(none.is_empty());
}

#[test]
fn drives_answer_or_not() {
    let ch = channels()[0];
    assert_eq!((ch.cmd, ch.ctl), (0x1F0, 0x3F6));
    assert_eq!(channels()[1].cmd, 0x170);
    let seen = |first: u8, second: u8, mid: u8, hi: u8| Seen {
        first,
        ready: true,
        second,
        mid,
        hi,
        words: words(),
    };
    assert!(matches!(probe_drive(&ch, 0, &seen(0, 0, 0, 0)), Probe::Absent));
    assert!(matches!(probe_drive(&ch, 0, &seen(0xFF, 0, 0, 0)), Probe::Absent));
    assert!(matches!(probe_drive(&ch, 0, &seen(0x50, 0x50, 0x14, 0xEB)), Probe::Atapi));
    let d = match probe_drive(&ch, 1, &seen(0x50, 0x58, 0, 0)) {
        Probe::Ata(d) => d,
        _ => panic!("absent"),
    };
    assert_eq!((d.cmd, d.drive, d.lba48, d.sectors), (0x1F0, 1, false, 0x1_1000));
    assert_eq!(&d.model[..d.model_len], b"AB");
    assert_eq!((d.mdma_modes, d.udma_modes), (7, 0x3F));
    let mut found = vec![];
    let atapi = detect(&vec![Probe::Absent, Probe::Ata(d), Probe::Atapi], &mut found);
    assert_eq!((atapi, found.len()), (1, 1));
}

#[test]
fn a_read_goes_sector_by_sector() {
    let d = AtaDisk::open(0x1F0, 0, true);
    assert!(d.read_sectors(0, 0, 512).is_none());
    assert!(d.read_sectors(0, 2, 1000).is_none());
    assert!(AtaDisk::primary_master().read_sector(0x1000_0000).is_none());
    let mut t = d.read_sectors(7, 2, 1024).unwrap();
    assert_eq!(t.step(0x80), Action::Status);
    assert_eq!(t.step(0x50), Action::Command);
    assert!(!t.command().is_empty());
    assert_eq!(t.step(0x50), Action::Status);
    assert_eq!(t.step(0x50), Action::Status);
    assert_eq!(t.step(0x58), Action::Sector(0));
    t.step(0x58);
    t.step(0x58);
    assert_eq!(t.step(0x58), Action::Sector(1));
    assert_eq!(t.step(0x50), Action::Finished(true));
}

#[test]
fn a_write_is_flushed() {
    let mut t = AtaDisk::primary_master().write_sector(3).unwrap();
    assert_eq!(t.step(0x50), Action::Command);
    assert_eq!(t.step(0x58), Action::Sector(0));
    assert_eq!(t.step(0x80), Action::Status);
    assert_eq!(t.step(0x50), Action::Flush);
    assert_eq!(t.flush(), [(0x1F6, 0xE0), (0x1F7, 0xE7)]);
    assert_eq!(t.step(0x50), Action::Status);
    assert_eq!(t.step(0x50), Action::Finished(true));
    let mut e = AtaDisk::primary_master().write_sector(3).unwrap();
    e.step(0x50);
    assert_eq!(e.step(0x51), Action::Finished(false));
}

#[test]
fn a_write_of_the_most_sectors_ends() {
    let mut t = AtaDisk::open(0x1F0, 0, true).write_sectors(0, 255, 255 * 512).unwrap();
    assert_eq!(t.step(0x50), Action::Command);
    for k in 0..255u8 {
        assert_eq!(t.step(0x58), Action::Sector(k));
    }
    assert_eq!(t.moved, 255);
    assert_eq!(t.step(0x50), Action::Flush);
    assert_eq!(t.step(0x50), Action::Status);
    assert_eq!(t.step(0x50), Action::Finished(true));
}

#[test]
fn a_missing_drive_is_given_up() {
    let mut t = AtaDisk::primary_master().read_sector(0).unwrap();
    let (a, n) = finished(&mut t, 0xFF);
    assert_eq!(a, Action::Finished(false));
    assert!(n <= TIMEOUT);
    assert_eq!(t.phase, Phase::Done(false));
}

#[test]
fn bytes_through_the_data_port() {
    let b: Vec<u8> = (0..512u32).map(|i| (i % 256) as u8).collect();
    let w = sector_words(&b);
    assert_eq!(w.len(), 256);
    assert_eq!(w[1], 0x0302);
    assert_eq!(sector_bytes(&w), b);
}

#[test]
fn dma_in_pieces() {
    // A piece does not cross a boundary of 64 KiB.
    let p = build_prd(0x1_FF00, 0x200).unwrap();
    assert_eq!(p.len(), 16);
    assert_eq!(&p[..8], [0x00, 0xFF, 0x01, 0, 0x00, 0x01, 0, 0]);
    assert_eq!(&p[8..], [0x00, 0x00, 0x02, 0, 0x00, 0x01, 0, 0x80]);
    assert!(build_prd(0x1000, 0).is_none());
    let mut e = DmaEngine::init(Some(0xC000), &[None, Some(5)], Some(0x9000)).unwrap();
    assert!(DmaEngine::init(Some(0xC000), &[None], Some(0x9000)).is_none());
    assert!(DmaEngine::init(None, &[Some(5)], Some(0x9000)).is_none());
    let mut due = false;
    for _ in 0..STAT_EVERY {
        due = e.note(true);
    }
    assert!(due);
    assert_eq!(e.dma_ok, STAT_EVERY);
}

#[test]
fn the_cache_finds_what_it_took_in() {
    let mut c = Cache::new();
    let mut out = [0u8; 512];
    assert!(!lookup_into(&mut c, 0, 5, &mut out));
    insert_from(&mut c, 0, 5, &[9u8; 512]);
    assert!(contains(&c, 0, 5));
    assert!(lookup_into(&mut c, 0, 5, &mut out));
    assert_eq!(out, [9u8; 512]);
    // The same sector of another disk is another sector.
    assert!(!contains(&c, 1, 5));
    insert_from(&mut c, 0, 5, &[8u8; 512]);
    assert!(lookup_into(&mut c, 0, 5, &mut out));
    assert_eq!(out, [8u8; 512]);
    invalidate(&mut c, 0, 5);
    assert!(!contains(&c, 0, 5));
    insert_from(&mut c, 0, 6, &[1u8; 512]);
    insert_from(&mut c, 0, 7, &[1u8; 512]);
    invalidate_run(&mut c, 0, 5, 2);
    assert!(!contains(&c, 0, 6) && contains(&c, 0, 7));
    note_misses(&mut c, 3);
    assert!(stats(&c).1 >= 3);
}

#[test]
fn a_full_cache_makes_room() {
    let mut c = Cache::new();
    for i in 0..CACHE_SECTORS as u64 + 10 {
        insert_from(&mut c, 0, i, &[i as u8; 512]);
        assert!(contains(&c, 0, i));
    }
    let kept = (0..CACHE_SECTORS as u64 + 10).filter(|i| contains(&c, 0, *i)).count();
    assert_eq!(kept, CACHE_SECTORS);
}

#[test]
fn nodes_are_read_and_written_through_the_cache() {
    let mut disks = vec![disk()];
    let mut c = Cache::new();
    let sectors = [64u64];
    let parts = [vec![PartLoc { start: 10, sectors: 20 }]];
    // Written by the partition, read by the whole disk.
    assert!(node_write(&mut disks, &mut c, &sectors, &parts, 1, 2, &[7u8; 512]));
    let mut s = [0u8; 512];
    assert!(node_read(&mut disks, &mut c, &sectors, &parts, 0, 12, &mut s));
    assert_eq!(s, [7u8; 512]);
    assert!(disks[0].read_sector(12, &mut s));
    assert_eq!(s, [7u8; 512]);
    // Several at once, some of them cached.
    let data: Vec<u8> = (0..1536u32).map(|i| (i / 512) as u8 + 1).collect();
    assert!(node_write_multi(&mut disks, &mut c, &sectors, &parts, 1, 1, &data));
    let mut fresh = Cache::new();
    assert!(node_read(&mut disks, &mut fresh, &sectors, &parts, 1, 2, &mut s));
    let mut out = vec![0u8; 1536];
    assert!(node_read_multi(&mut disks, &mut fresh, &sectors, &parts, 1, 1, &mut out));
    assert_eq!(out, data);
    // One sector was there already: hits, misses and sectors taken in.
    assert_eq!(stats(&fresh), (1, 3, 3));
    // Not behind the end, not too many, not half a sector.
    assert!(!node_read(&mut disks, &mut c, &sectors, &parts, 1, 20, &mut s));
    assert!(!node_write_multi(&mut disks, &mut c, &sectors, &parts, 1, 18, &data));
    assert!(!node_write_multi(&mut disks, &mut c, &sectors, &parts, 0, 0, &[0u8; 8 * 512]));
    assert!(!node_write_multi(&mut disks, &mut c, &sectors, &parts, 0, 0, &[0u8; 100]));
    assert_eq!(locate(1, &sectors, &parts), Some((0, 10, 20)));
    assert_eq!(locate(0, &sectors, &parts), Some((0, 0, 64)));
    assert_eq!(locate(2, &sectors, &parts), None);
    assert_eq!(locate(0x1_0000, &sectors, &parts), None);
}

#[test]
fn a_failed_write_leaves_no_cached_sector() {
    // The table promises more than the disk has.
    let mut disks = vec![RamDisk::new(4)];
    let mut c = Cache::new();
    assert!(!node_write(&mut disks, &mut c, &[10], &[vec![]], 0, 6, &[7u8; 512]));
    assert!(!contains(&c, 0, 6));
    // Nothing is taken in of what could not be read.
    let mut out = vec![0u8; 1024];
    assert!(!node_read_multi(&mut disks, &mut c, &[10], &[vec![]], 0, 3, &mut out));
    assert!(!contains(&c, 0, 3) && !contains(&c, 0, 4));
    assert_eq!(stats(&c), (0, 0, 0));
}

#[test]
fn a_disk_that_cannot_be_read_has_a_bare_node() {
    let d = DiskServer::start(vec![RamDisk::new(0), disk()], vec![10, 64]);
    let names: Vec<&[u8]> = d.nodes.iter().map(|n| &n.name[..]).collect();
    assert_eq!(names, [&b"sda"[..], b"sdb", b"sdb1"]);
    assert_eq!((d.nodes[0].vol_uuid, d.nodes[0].vol_label.is_none()), (None, true));
    assert_eq!((d.parts[0].len(), d.parts[1].len()), (0, 1));
}

#[test]
fn nodes_by_name_serial_and_label() {
    let node = |name: &[u8], handle: u32, id: Option<u32>, label: Option<&[u8]>| Node {
        name: name.to_vec(),
        handle,
        vol_uuid: id,
        vol_label: label.map(|l| l.to_vec()),
    };
    let nodes = vec![
        node(b"sda", 0, None, Some(b"sda1")),
        node(b"sda1", 1, Some(0x4F4C_4556), Some(b"VELORDOR")),
    ];
    // A name comes before a label.
    assert_eq!(resolve_node(&nodes, b"sda1"), Some(1));
    assert_eq!(resolve_node(&nodes, b"4F4C4556"), Some(1));
    assert_eq!(resolve_node(&nodes, b"4f4c4556"), Some(1));
    assert_eq!(resolve_node(&nodes, b"VELORDOR"), Some(1));
    assert_eq!(resolve_node(&nodes, b"nobody"), None);
    let p = prefixes_of(&nodes);
    assert!(p.contains(&b"/dev/sda".to_vec()) && p.contains(&b"/dev/sda1".to_vec()));
    assert_eq!(identity(&[0u8; 512]), (None, None));
}

#[test]
fn requests_to_the_disk_driver() {
    let mut d = DiskServer::start(vec![disk()], vec![64]);
    assert_eq!(d.nodes.len(), 2);
    assert_eq!(d.nodes[1].name, b"sda1");
    assert_eq!(d.disk_open(1), 0);
    assert_eq!(d.disk_open(9), ERR);
    let mut req = Ring::new();
    let mut resp = Ring::new();
    req.put(&4u64.to_le_bytes());
    req.put(b"sda1");
    assert_eq!(d.disk_resolve(&mut req), 1);
    req.put(&1u64.to_le_bytes());
    req.put(&[5u8; 512]);
    assert_eq!(d.disk_write(1, 0, &mut req), 0);
    req.put(&1u64.to_le_bytes());
    assert_eq!(d.disk_read(0, 10, &mut req, &mut resp), 0);
    assert_eq!(resp.field64(0), 512);
    assert_eq!(resp.peek(16, 512), vec![5u8; 512]);
    req.put(&8u64.to_le_bytes());
    assert_eq!(d.disk_read(0, 10, &mut req, &mut resp), ERR);
}

#[test]
fn a_device_is_read_in_order() {
    let mut d = DiskServer::start(vec![disk()], vec![64]);
    let fd = d.dev_open(1);
    assert_ne!(fd, ERR);
    assert_eq!(d.dev_open(7), ERR);
    let (n, data) = d.dev_read(fd as u32, 512);
    assert_eq!((n, data.unwrap().len()), (512, 512));
    // Only whole sectors.
    assert_eq!(d.dev_read(fd as u32, 100), (0, Some(vec![])));
    assert_eq!(d.dev_read(99, 512), (ERR, None));
    let mut left = 0;
    loop {
        let (n, _) = d.dev_read(fd as u32, 512);
        if n == 0 || n == ERR {
            break;
        }
        left += n;
    }
    assert_eq!(left, 19 * 512);
    assert_eq!(d.dev_close(fd as u32), 0);
    assert_eq!(d.dev_close(fd as u32), ERR);
}

#[test]
fn names_counts_and_sectors_in_requests() {
    let mut r = Ring::new();
    r.put(&2u64.to_le_bytes());
    r.put(&[0xFF, 0xFE]);
    // No text.
    assert_eq!(disk_req_read_name(&mut r), None);
    assert_eq!(r.available(), 0);
    r.put(&99u64.to_le_bytes());
    assert_eq!(disk_req_read_name(&mut r), None);
    r.put(&3u64.to_le_bytes());
    assert_eq!(disk_req_read_count(&mut r), Some(3));
    r.put(&2u64.to_le_bytes());
    r.put(&[1u8; 1024]);
    assert_eq!(disk_req_read_multi(&mut r), Some(vec![1u8; 1024]));
    r.put(&2u64.to_le_bytes());
    assert_eq!(disk_req_read_multi(&mut r), None);
    assert_eq!(r.available(), 0);
}

#[test]
fn a_request_that_could_not_be_sent_is_taken_back() {
    let mut r = Ring::new();
    r.put(b"before");
    assert!(fs_req_write(&mut r, 18, 4, 0, b"/dev"));
    assert_eq!(r.available(), 6 + 24);
    fs_req_rollback(&mut r, 24);
    assert_eq!(r.available(), 6);
    assert_eq!(r.peek(0, 6), b"before");
    assert_eq!(fs_resp_read(&mut Ring::new()), None);
}

#[test]
fn mount_points_are_registered_one_by_one() {
    let mut req = Ring::new();
    let mut resp = Ring::new();
    let prefixes = vec![b"/dev/sda".to_vec(), b"/dev/sda1".to_vec()];
    let mut f = FsReg::new(1, 2);
    assert_eq!(f.step(&prefixes, &mut req), RegAction::Lookup);
    f.looked_up(Some(8));
    let a = f.step(&prefixes, &mut req);
    assert_eq!(a, RegAction::SendRings { chan: 8 });
    f.sent(a, Some(5), &mut req);
    // One request at a time.
    assert_eq!(f.step(&prefixes, &mut req), RegAction::Idle);
    assert!(!f.collect_if_mine(6, &mut resp));
    assert!(f.collect_if_mine(5, &mut resp));
    for id in [7, 8] {
        let a = f.step(&prefixes, &mut req);
        assert!(matches!(a, RegAction::SendRegister { chan: 8, .. }));
        f.sent(a, Some(id), &mut req);
        resp.put(&response_frame(0, 0, b""));
        assert!(f.collect_if_mine(id, &mut resp));
    }
    assert!(f.done(2));
    f.reset(&mut req, &mut resp);
    assert!(!f.done(2));
    assert_eq!(req.available(), 0);
}
