use velordor::fs::block::{BlockSource, RamDisk};
use velordor::fs::codes::{ERR, ERR_NOTFOUND, O_CREAT};
use velordor::fs::dup::Parties;
use velordor::fs::fat32::dir::normalize_component;
use velordor::fs::fat32::mount::{decode_boot, fat_bpb_identity};
use velordor::fs::fat32::types::{Fat32, FileInfo, EOC_VAL};
use velordor::fs::handlers::Answers;
use velordor::fs::mount::{
    apply_mount_spec, by_id, by_id_mut, reactivate_mount_by_id, resolve_fsmount, FsMount,
};
use velordor::fs::provider::{EntrySink, LocalFs, LocalFsDyn, Names};
use velordor::fs::server::{Outcome, Outside, Request, Server};

fn put(s: &mut [u8; 512], at: usize, b: &[u8]) {
    s[at..at + b.len()].copy_from_slice(b);
}

fn boot() -> [u8; 512] {
    let mut s = [0u8; 512];
    put(&mut s, 11, &512u16.to_le_bytes());
    s[13] = 1;
    put(&mut s, 14, &32u16.to_le_bytes());
    s[16] = 2;
    put(&mut s, 36, &1u32.to_le_bytes());
    put(&mut s, 44, &2u32.to_le_bytes());
    s[66] = 0x29;
    put(&mut s, 67, &0x4F4C_4556u32.to_le_bytes());
    put(&mut s, 71, b"VELORDOR   ");
    s[510] = 0x55;
    s[511] = 0xAA;
    s
}

/// A volume with clusters of one sector, two tables of one sector each, and an
/// empty root directory.
fn disk() -> RamDisk {
    let mut d = RamDisk::new(160);
    assert!(d.write_sector(0, &boot()));
    let mut info = [0u8; 512];
    put(&mut info, 0, &0x4161_5252u32.to_le_bytes());
    put(&mut info, 484, &0x6141_7272u32.to_le_bytes());
    put(&mut info, 488, &125u32.to_le_bytes());
    put(&mut info, 492, &3u32.to_le_bytes());
    info[510] = 0x55;
    info[511] = 0xAA;
    assert!(d.write_sector(1, &info));
    let mut table = [0u8; 512];
    put(&mut table, 0, &0x0FFF_FFF8u32.to_le_bytes());
    put(&mut table, 4, &0x0FFF_FFFFu32.to_le_bytes());
    put(&mut table, 8, &0x0FFF_FFFFu32.to_le_bytes());
    assert!(d.write_sector(32, &table));
    assert!(d.write_sector(33, &table));
    d
}

fn volume() -> Fat32<RamDisk> {
    Fat32::mount(disk()).unwrap()
}

fn created(v: &mut Fat32<RamDisk>, name: &[u8]) -> FileInfo {
    assert!(v.create_file(name));
    v.find(name).unwrap()
}

fn contents(v: &mut Fat32<RamDisk>, name: &[u8]) -> Vec<u8> {
    let info = v.find(name).unwrap();
    let mut out = vec![0xEEu8; info.size as usize];
    let n = v.read_file(&info, 0, out.len(), &mut out);
    assert_eq!(n, out.len());
    out
}

fn free_count(v: &mut Fat32<RamDisk>) -> u32 {
    let mut s = [0u8; 512];
    assert!(v.disk.read_sector(1, &mut s));
    u32::from_le_bytes([s[488], s[489], s[490], s[491]])
}

#[test]
fn boot_sectors() {
    let g = decode_boot(&boot()).unwrap();
    assert_eq!((g.spc, g.fat_start, g.num_fats, g.fat_size), (1, 32, 2, 1));
    assert_eq!((g.data_start, g.root_cluster), (34, 2));
    assert_eq!(fat_bpb_identity(&boot()), (Some(0x4F4C_4556), b"VELORDOR   ".to_vec()));
    let mut bad = boot();
    bad[510] = 0;
    assert!(decode_boot(&bad).is_none());
    let mut odd = boot();
    odd[13] = 3;
    assert!(decode_boot(&odd).is_none());
    let mut big = boot();
    big[12] = 4;
    assert!(decode_boot(&big).is_none());
    assert!(Fat32::mount(RamDisk::new(4)).is_none());
    assert!(Fat32::mount(RamDisk::new(0)).is_none());
}

#[test]
fn identity_of_a_volume() {
    let v = volume();
    assert_eq!(v.vol_serial(), Some(0x4F4C_4556));
    assert_eq!(v.vol_label_trimmed(), b"VELORDOR");
    assert_eq!(v.cluster_bytes(), 512);
}

#[test]
fn names_in_directories() {
    assert_eq!(normalize_component(b"hello.txt"), b"HELLO.TXT");
    // Not only the letters of ASCII have capitals.
    assert_eq!(normalize_component("\u{e8}.txt".as_bytes()), "\u{c8}.TXT".as_bytes());
    // Without an extension there is no point.
    assert_eq!(normalize_component(b"a."), b"A");
    assert_eq!(normalize_component(b"a.b"), b"A.B");
}

#[test]
fn a_created_file_is_found() {
    let mut v = volume();
    let info = created(&mut v, b"hello.txt");
    assert_eq!((info.size, info.first_cluster, info.is_dir), (0, 0, false));
    assert_eq!(info.dir_cluster, 2);
    assert!(v.find(b"HELLO.TXT").is_some());
    assert!(v.find(b"other.txt").is_none());
    // A point with nothing behind it names the same file.
    assert!(v.create_file(b"a"));
    assert!(v.find(b"a.").is_some());
    assert!(!v.create_file(b"a."));
    assert!(!v.create_file(b"b.."));
    let names: Vec<Vec<u8>> = v.list_dir(b"").into_iter().map(|e| e.name).collect();
    assert_eq!(names, [b"HELLO.TXT".to_vec(), b"A".to_vec()]);
}

#[test]
fn what_is_written_is_read() {
    let mut v = volume();
    let info = created(&mut v, b"a.txt");
    let data: Vec<u8> = (0..1300u32).map(|i| (i % 251) as u8).collect();
    assert_eq!(v.write_grow(&info, 0, &data), 1300);
    assert_eq!(contents(&mut v, b"a.txt"), data);
    let info = v.find(b"a.txt").unwrap();
    assert_eq!(info.size, 1300);
    // In the middle, across a cluster's end.
    assert_eq!(v.write_file(&info, 510, b"xyzw"), 4);
    let now = contents(&mut v, b"a.txt");
    assert_eq!(&now[510..514], b"xyzw");
    assert_eq!(now[..510], data[..510]);
    assert_eq!(now[514..], data[514..]);
    // Nothing is written behind the end without growing.
    assert_eq!(v.write_file(&info, 1300, b"no"), 0);
    assert_eq!(v.write_file(&info, 1299, b"no"), 1);
}

#[test]
fn a_gap_is_filled_with_zeros() {
    let mut v = volume();
    let info = created(&mut v, b"gap.bin");
    assert_eq!(v.write_grow(&info, 0, b"ab"), 2);
    let info = v.find(b"gap.bin").unwrap();
    assert_eq!(v.write_grow(&info, 600, b"cd"), 2);
    let all = contents(&mut v, b"gap.bin");
    assert_eq!(all.len(), 602);
    assert_eq!(&all[..2], b"ab");
    assert!(all[2..600].iter().all(|b| *b == 0));
    assert_eq!(&all[600..], b"cd");
}

#[test]
fn growth_links_the_lowest_free_clusters() {
    let mut v = volume();
    let a = created(&mut v, b"a");
    assert_eq!(v.write_grow(&a, 0, &[1u8; 512]), 512);
    let b = created(&mut v, b"b");
    assert_eq!(v.write_grow(&b, 0, &[2u8; 512]), 512);
    let a = v.find(b"a").unwrap();
    assert_eq!(a.first_cluster, 3);
    assert_eq!(v.write_grow(&a, 512, &[3u8; 512]), 512);
    assert_eq!(v.fat_entry(3), 5);
    assert_eq!(v.fat_entry(5), EOC_VAL);
    assert_eq!(v.next_cluster(3), Some(5));
    assert_eq!(v.next_cluster(5), None);
    assert_eq!(v.chain_tail(3), Some((2, 5)));
    assert_eq!(v.chain_tail(1), Some((0, 0)));
    // Both tables say the same.
    let mut first = [0u8; 512];
    let mut second = [0u8; 512];
    assert!(v.disk.read_sector(32, &mut first));
    assert!(v.disk.read_sector(33, &mut second));
    assert_eq!(first, second);
    // The other file is what it was.
    assert_eq!(contents(&mut v, b"b"), vec![2u8; 512]);
    assert_eq!(free_count(&mut v), 122);
}

#[test]
fn a_full_volume_writes_what_fits() {
    let mut v = volume();
    let info = created(&mut v, b"full");
    let data = vec![7u8; 200 * 512];
    // Clusters 3 to 127.
    assert_eq!(v.write_grow(&info, 0, &data), 125 * 512);
    assert_eq!(v.find(b"full").unwrap().size, 125 * 512);
    assert_eq!(v.alloc_one(), None);
    assert_eq!(free_count(&mut v), 0);
    let more = created(&mut v, b"more");
    assert_eq!(v.write_grow(&more, 0, b"x"), 0);
}

#[test]
fn directories_grow() {
    let mut v = volume();
    for i in 0..20u8 {
        let name = [b'f', b'0' + i / 10, b'0' + i % 10];
        assert!(v.create_file(&name));
    }
    assert_eq!(v.list_dir(b"").len(), 20);
    assert!(v.find(b"f19").is_some());
    assert_ne!(v.fat_entry(2), EOC_VAL);
}

#[test]
fn truncation_frees_the_chain() {
    let mut v = volume();
    let info = created(&mut v, b"t");
    v.write_grow(&info, 0, &[1u8; 1024]);
    let info = v.find(b"t").unwrap();
    assert!(v.truncate(&info));
    let info = v.find(b"t").unwrap();
    assert_eq!((info.size, info.first_cluster), (0, 0));
    assert_eq!(v.fat_entry(3), 0);
    assert_eq!(v.fat_entry(4), 0);
    assert_eq!(free_count(&mut v), 125);
}

#[test]
fn names_that_do_not_fit_are_refused() {
    let mut v = volume();
    assert!(!v.create_file(b"toolongname.txt"));
    assert!(!v.create_file(b"a.text"));
    assert!(!v.create_file(b""));
    assert!(!v.create_file(b"missing/x"));
}

#[test]
fn a_table_entry_reads_back() {
    let mut v = volume();
    assert!(v.set_fat_entry(9, 77));
    assert_eq!(v.read_entry(9), Some(77));
    assert_eq!(v.read_entry(8), Some(0));
    // The four high bits are not the entry's.
    assert!(v.set_fat_entry(9, 0xF000_0001));
    assert_eq!(v.fat_entry(9), 1);
}

#[test]
fn a_volume_behind_its_file_system() {
    let mut v = volume();
    assert!(v.open(b"new.txt", 0).is_err());
    let h = v.open(b"new.txt", 0x200).unwrap();
    assert_eq!(v.write(h, 0, b"data", false), Ok(4));
    let h = v.open(b"new.txt", 0).unwrap();
    let mut buf = [0u8; 8];
    assert_eq!(v.read(h, 1, &mut buf), Ok(3));
    assert_eq!(&buf[..3], b"ata");
    let m = v.stat(b"new.txt").unwrap();
    assert_eq!((m.size, m.readonly), (4, false));
    let mut names = Names::new();
    assert_eq!(v.list(b"", &mut names), Ok(1));
    names.emit(b"MORE");
    assert_eq!(names.list, [b"NEW.TXT".to_vec(), b"MORE".to_vec()]);
    assert!(v.make_dir(b"d").is_err());
    assert!(v.unlink(b"new.txt").is_err());
    // Emptied on opening.
    let h = v.open(b"new.txt", 0x400).unwrap();
    assert_eq!(v.read(h, 0, &mut buf), Ok(0));
}

#[test]
fn reads_that_fail_are_told() {
    // The disk ends before the data do.
    let mut small = RamDisk::new(35);
    let mut whole = disk();
    let mut s = [0u8; 512];
    for l in 0..35 {
        assert!(whole.read_sector(l, &mut s));
        assert!(small.write_sector(l, &s));
    }
    assert!(!small.read_sector(35, &mut s));
    assert!(!small.write_sector(35, &s));
    let mut v = Fat32::mount(small).unwrap();
    let info = created(&mut v, b"x");
    assert_eq!(v.write_grow(&info, 0, b"data"), 0);
}

#[test]
fn a_chain_into_a_bad_cluster_has_no_end() {
    let mut v = volume();
    assert!(v.set_fat_entry(10, 11));
    assert!(v.set_fat_entry(11, 0x0FFF_FFF7));
    assert_eq!(v.chain_tail(10), None);
    assert!(v.set_fat_entry(11, EOC_VAL));
    assert_eq!(v.chain_tail(10), Some((2, 11)));
}

/// A disk on which some transfers fail.
struct Flaky {
    disk: RamDisk,
    reads: bool,
    /// Sectors from here on cannot be written.
    writes_below: u64,
}

impl BlockSource for Flaky {
    fn read_sector(&mut self, lba: u64, buf: &mut [u8; 512]) -> bool {
        self.reads && self.disk.read_sector(lba, buf)
    }

    fn write_sector(&mut self, lba: u64, data: &[u8; 512]) -> bool {
        lba < self.writes_below && self.disk.write_sector(lba, data)
    }
}

#[test]
fn failed_transfers_are_told() {
    let mut v = volume();
    let info = created(&mut v, b"x");
    assert_eq!(v.write_grow(&info, 0, &[5u8; 700]), 700);
    let info = v.find(b"x").unwrap();
    let mut f = Fat32::mount(Flaky { disk: v.disk, reads: true, writes_below: 1000 }).unwrap();
    // Nothing can be written at all.
    f.disk.writes_below = 0;
    assert!(!f.create_file(b"y"));
    assert!(f.find(b"y").is_none());
    assert_eq!(f.write_grow(&info, 0, b"new"), 0);
    assert_eq!(f.write_grow(&info, 700, &[6u8; 600]), 0);
    assert!(!f.truncate(&info));
    let mut out = vec![0u8; 700];
    assert_eq!(f.read_file(&info, 0, 700, &mut out), 700);
    assert_eq!(out, vec![5u8; 700]);
    assert_eq!(f.find(b"x").unwrap().size, 700);
    // The second cluster of the file cannot be written: the first one is.
    f.disk.writes_below = 36;
    assert_eq!(f.write_grow(&info, 0, &[9u8; 700]), 512);
    assert_eq!(f.read_file(&info, 0, 700, &mut out), 700);
    assert_eq!(&out[..512], &[9u8; 512]);
    // Nothing can be read.
    f.disk.reads = false;
    assert!(f.find(b"x").is_none());
    assert!(f.list_dir(b"").is_empty());
    assert!(!f.create_file(b"z"));
    assert_eq!(f.chain_tail(3), Some((1, 3)));
    assert_eq!(f.read_file(&info, 0, 700, &mut out), 0);
    let mut names = Names::new();
    assert_eq!(f.list(b"", &mut names), Ok(0));
    assert!(f.stat(b"x").is_err());
    assert!(f.open(b"x", 0).is_err());
}

#[test]
fn mounts_keep_their_numbers() {
    let mut m: Vec<FsMount<RamDisk>> = vec![];
    let mut next = 1;
    let mut generation = 7;
    assert!(apply_mount_spec(&mut m, b"ramfs", b"/tmp/", b"", &mut next, None));
    assert!(apply_mount_spec(&mut m, b"UUID=4F4C4556", b"fat", b"", &mut next, Some(disk())));
    // Nothing that can be mounted, and no disk for it: nothing changes.
    assert!(!apply_mount_spec(&mut m, b"whatever", b"x", b"", &mut next, Some(disk())));
    assert!(!apply_mount_spec(&mut m, b"UUID=00000000", b"x", b"", &mut next, None));
    assert_eq!((m.len(), next), (2, 3));
    assert_eq!(
        resolve_fsmount(&mut m, b"/fat/a/b", &mut generation, None),
        Some((2, b"a/b".to_vec()))
    );
    assert_eq!(resolve_fsmount(&mut m, b"/tmp", &mut generation, None), Some((1, vec![])));
    assert_eq!(resolve_fsmount(&mut m, b"/fatter", &mut generation, None), None);
    assert_eq!(by_id_mut(&mut m, 2).unwrap().target, b"fat");
    assert!(by_id_mut(&mut m, 9).is_none());
    m.remove(0);
    assert_eq!(by_id(&m, 2), Some(0));
    assert_eq!(by_id(&m, 1), None);
    // Active already: nothing to be done.
    assert!(reactivate_mount_by_id(&mut m, 2, &mut generation, None));
    assert!(!reactivate_mount_by_id(&mut m, 1, &mut generation, None));
    assert_eq!(generation, 7);
}

fn ask(s: &mut Server<RamDisk>, r: Request, disk: Option<RamDisk>) -> Outcome {
    assert!(s.has_room(5, &r));
    let o = Outside {
        answers: Answers { disk, handle: None, reply: None },
        peer: None,
        parties: Parties { claimant: None, parent: None, holder: None },
    };
    s.serve(5, r, true, o)
}

#[test]
fn a_client_writes_and_reads_on_a_volume() {
    let mut s = Server::start(Some(disk()));
    let path = b"/fat/note.txt".to_vec();
    assert_eq!(
        ask(&mut s, Request::Open { path: path.clone(), flags: 0 }, None).result,
        Err(ERR_NOTFOUND)
    );
    let open = Request::Open { path: path.clone(), flags: O_CREAT as u64 };
    let fd = ask(&mut s, open, None).result.unwrap() as u32;
    let write = Request::Write { fd, count: 5, data: b"hello".to_vec() };
    assert_eq!(ask(&mut s, write, None).result, Ok(5));
    let fd = ask(&mut s, Request::Open { path, flags: 0 }, None).result.unwrap() as u32;
    let out = ask(&mut s, Request::Read { fd, count: 100 }, None);
    assert_eq!(out.result, Ok(5));
    assert_eq!(out.frame.unwrap().payload, b"hello");
    let out = ask(&mut s, Request::ReadDir { path: b"/fat".to_vec() }, None);
    assert_eq!(out.frame.unwrap().payload, b"NOTE.TXT\0\0");
    // The root shows where the volume is.
    let out = ask(&mut s, Request::ReadDir { path: b"/".to_vec() }, None);
    assert!(out.frame.unwrap().payload.windows(4).any(|w| w == b"fat\0"));
}

#[test]
fn a_lost_volume_is_brought_back() {
    let mut s = Server::start(Some(disk()));
    // The driver of the disk is gone.
    s.peer_died(8, &vec![true]);
    let list = || Request::ReadDir { path: b"/fat".to_vec() };
    let open = || Request::Open { path: b"/fat/x".to_vec(), flags: O_CREAT as u64 };
    assert_eq!(ask(&mut s, list(), None).result, Err(ERR_NOTFOUND));
    assert_eq!(ask(&mut s, open(), None).result, Err(ERR));
    // It is there again.
    assert_eq!(ask(&mut s, list(), Some(disk())).result, Ok(0));
    assert!(ask(&mut s, open(), None).result.is_ok());
}

#[test]
fn a_mounted_tree_in_memory_reads_back() {
    let mut m: Vec<FsMount<RamDisk>> = vec![];
    let mut next = 1;
    assert!(apply_mount_spec(&mut m, b"ramfs", b"tmp", b"", &mut next, None));
    let fs = &mut m[0].fs;
    let h = fs.open_dyn(b"a/b", O_CREAT).unwrap();
    assert_eq!(fs.write_dyn(h, 2, b"xyz", false), Ok(3));
    let other = fs.open_dyn(b"/a/b", 0).unwrap();
    let mut buf = [9u8; 3];
    assert_eq!(fs.read_dyn(other, 2, &mut buf), Ok(3));
    assert_eq!(&buf, b"xyz");
    assert_eq!(fs.read_dyn(other, 0, &mut buf), Ok(3));
    assert_eq!(&buf, &[0, 0, b'x']);
    // Appended data stand where the file ended.
    assert_eq!(fs.write_dyn(h, 0, b"!", true), Ok(1));
    assert_eq!(fs.read_dyn(other, 5, &mut buf), Ok(1));
    assert_eq!(buf[0], b'!');
}

#[test]
fn a_file_below_a_directory_reads_back() {
    let mut d = disk();
    let mut s = [0u8; 512];
    // A directory `SUB` in cluster 3, which holds nothing yet.
    let mut v = Fat32::mount(d).unwrap();
    assert!(v.create_file(b"sub"));
    let sub = v.find(b"sub").unwrap();
    assert_eq!(v.write_grow(&sub, 0, &[0u8; 512]), 512);
    let first = v.find(b"sub").unwrap().first_cluster;
    d = v.disk;
    let mut l = 0;
    let mut turned = false;
    while !turned && d.read_sector(l, &mut s) {
        if &s[..11] == b"SUB        " {
            s[11] = 0x10;
            put(&mut s, 28, &[0, 0, 0, 0]);
            assert!(d.write_sector(l, &s));
            turned = true;
        }
        l += 1;
    }
    assert!(turned);
    let mut v = Fat32::mount(d).unwrap();
    assert!(v.find(b"sub").unwrap().is_dir);
    let info = created(&mut v, b"sub/f");
    assert_eq!(info.dir_cluster, first);
    let data: Vec<u8> = (0..1500u32).map(|i| (i % 251) as u8).collect();
    assert_eq!(v.write_grow(&info, 0, &data), 1500);
    assert_eq!(contents(&mut v, b"sub/f"), data);
    // Within the file.
    let info = v.find(b"sub/f").unwrap();
    assert_eq!(v.write_grow(&info, 600, b"within"), 6);
    assert_eq!(&contents(&mut v, b"sub/f")[600..606], b"within");
    // Emptied: found, with nothing in it.
    let info = v.find(b"sub/f").unwrap();
    assert!(v.truncate(&info));
    let info = v.find(b"sub/f").unwrap();
    assert_eq!((info.size, info.first_cluster, info.is_dir), (0, 0, false));
    assert_eq!(v.find(b"sub").unwrap().first_cluster, first);
}
