use velordor::fs::asks::DriverAsk;
use velordor::fs::block::RamDisk;
use velordor::fs::codes::{
    ERR, ERR_BUSY, ERR_CLOSED, ERR_EMPTY, ERR_INVALID, ERR_ISDIR, ERR_NOTFOUND, O_APPEND, O_CREAT,
    O_TRUNC, RIGHTS_ALL, RIGHTS_OPEN, RIGHTS_PIPE, RIGHTS_READ, R_CLOSE, R_DELETE, R_DUP_CLAIM,
    R_DUP_GRANT, R_LSEEK, R_MKDIR, R_MOUNT, R_OPEN, R_PIPE_CREATE, R_READ, R_READDIR, R_RIGHTS_GET,
    R_STAT, R_UMOUNT, R_WRITE, SEEK_CUR, SEEK_END, SEEK_SET, STAT_DIR, STAT_FILE,
};
use velordor::fs::dup::Parties;
use velordor::fs::handlers::{open_route, pack_names, split_mount, Answers, DeviceRoute};
use velordor::fs::ipc_disk::{frame_read, Connect, IpcDisk, ReadAsk, TryRead};
use velordor::fs::mount::{normalize_source, normalize_target, resolve_key, resolve_mount_source};
use velordor::fs::mount_legacy::{dev_type, disk_handle, rel_under, resolve_mount, Mount, StrList};
use velordor::fs::policy::{ceiling_for, DEFAULT_UNKNOWN_OPS};
use velordor::fs::ramfs::{FsNode, RamFs};
use velordor::fs::rights::{
    handle_rights_drop, handle_rights_get, normalize_sub_view, op_bit, op_permitted, rights_ops,
    rights_subtree, within_subtree, RightsTable,
};
use velordor::fs::rings::{
    req_resync, req_ring_consume, req_ring_read, req_ring_read_payload, resp_ring_write,
};
use velordor::fs::server::{
    decode, driver_at, expected_len, finish, register_prefixes, subtree_ok, DriverFact, Outcome,
    Outside, Request, Server, Verdict,
};
use velordor::ring::{request_frame, Ring};

type Fs = Server<RamDisk>;

fn nothing() -> Outside<RamDisk> {
    Outside {
        answers: Answers { disk: None, handle: None, reply: None },
        peer: None,
        parties: Parties { claimant: None, parent: None, holder: None },
    }
}

fn server() -> Fs {
    Server::start(None)
}

fn ask(s: &mut Fs, chan: u64, r: Request) -> Outcome {
    ask_with(s, chan, r, nothing())
}

fn ask_with(s: &mut Fs, chan: u64, r: Request, o: Outside<RamDisk>) -> Outcome {
    assert!(s.has_room(chan, &r));
    s.serve(chan, r, true, o)
}

fn open(s: &mut Fs, path: &[u8], flags: u32) -> Result<u64, u64> {
    ask(s, 5, Request::Open { path: path.to_vec(), flags: flags as u64 }).result
}

fn read(s: &mut Fs, chan: u64, fd: u64, n: usize) -> Result<Vec<u8>, u64> {
    let out = ask(s, chan, Request::Read { fd: fd as u32, count: n });
    match out.result {
        Ok(_) => Ok(out.frame.unwrap().payload),
        Err(e) => Err(e),
    }
}

fn write(s: &mut Fs, fd: u64, data: &[u8]) -> Result<u64, u64> {
    let r = Request::Write { fd: fd as u32, count: data.len(), data: data.to_vec() };
    ask(s, 5, r).result
}

#[test]
fn the_first_files_are_there() {
    let mut s = server();
    let fd = open(&mut s, b"/hello.txt", 0).unwrap();
    assert_eq!(read(&mut s, 5, fd, 100), Ok(b"Hello from Velordor ramfs!\n".to_vec()));
    assert_eq!(open(&mut s, b"/none", 0), Err(ERR_NOTFOUND));
}

#[test]
fn written_files_read_back() {
    let mut s = server();
    let fd = open(&mut s, b"/new", O_CREAT).unwrap();
    assert_eq!(write(&mut s, fd, b"abcdef"), Ok(6));
    // The descriptor stands behind what was written.
    assert_eq!(read(&mut s, 5, fd, 10), Ok(vec![]));
    let seek = Request::Seek { fd: fd as u32, off: 2, whence: SEEK_SET };
    assert_eq!(ask(&mut s, 5, seek).result, Ok(2));
    assert_eq!(read(&mut s, 5, fd, 3), Ok(b"cde".to_vec()));
    let seek = Request::Seek { fd: fd as u32, off: -1, whence: SEEK_CUR };
    assert_eq!(ask(&mut s, 5, seek).result, Ok(4));
    let seek = Request::Seek { fd: fd as u32, off: -6, whence: SEEK_END };
    assert_eq!(ask(&mut s, 5, seek).result, Ok(0));
    let seek = Request::Seek { fd: fd as u32, off: -1, whence: SEEK_SET };
    assert_eq!(ask(&mut s, 5, seek).result, Err(ERR_INVALID));
    let app = open(&mut s, b"/new", O_APPEND).unwrap();
    assert_eq!(write(&mut s, app, b"gh"), Ok(2));
    let all = open(&mut s, b"/new", 0).unwrap();
    assert_eq!(read(&mut s, 5, all, 100), Ok(b"abcdefgh".to_vec()));
    let cut = open(&mut s, b"/new", O_TRUNC).unwrap();
    assert_eq!(read(&mut s, 5, cut, 100), Ok(vec![]));
    assert_eq!(ask(&mut s, 5, Request::Close { fd: fd as u32 }).result, Ok(0));
    assert!(write(&mut s, fd, b"x").is_err());
}

#[test]
fn writes_beyond_all_positions_are_refused() {
    let mut s = server();
    let fd = open(&mut s, b"/far", O_CREAT).unwrap();
    assert_eq!(write(&mut s, fd, b"ab"), Ok(2));
    let far = |fd: u64| Request::Seek { fd: fd as u32, off: i64::MAX, whence: SEEK_SET };
    assert_eq!(ask(&mut s, 5, far(fd)).result, Ok(i64::MAX as u64));
    assert_eq!(write(&mut s, fd, b"x"), Err(ERR_INVALID));
    // Where data are appended, the position says nothing.
    let app = open(&mut s, b"/far", O_APPEND).unwrap();
    assert_eq!(ask(&mut s, 5, far(app)).result, Ok(i64::MAX as u64));
    assert_eq!(write(&mut s, app, b"c"), Ok(1));
    let all = open(&mut s, b"/far", 0).unwrap();
    assert_eq!(read(&mut s, 5, all, 100), Ok(b"abc".to_vec()));
}

#[test]
fn descriptors_belong_to_their_channel() {
    let mut s = server();
    let fd = open(&mut s, b"/hello.txt", 0).unwrap();
    assert!(read(&mut s, 6, fd, 4).is_err());
    // Numbers count up and are not given twice.
    let again = open(&mut s, b"/hello.txt", 0).unwrap();
    assert_eq!(again, fd + 1);
    assert_eq!(ask(&mut s, 5, Request::Close { fd: again as u32 }).result, Ok(0));
    assert_eq!(open(&mut s, b"/hello.txt", 0), Ok(fd + 2));
}

#[test]
fn directories_in_memory() {
    let mut s = server();
    assert_eq!(ask(&mut s, 5, Request::MkDir { path: b"/d".to_vec() }).result, Ok(0));
    // Once more does no harm.
    assert_eq!(ask(&mut s, 5, Request::MkDir { path: b"/d".to_vec() }).result, Ok(0));
    open(&mut s, b"/d/f", O_CREAT).unwrap();
    let out = ask(&mut s, 5, Request::ReadDir { path: b"/d".to_vec() });
    assert!(out.result.is_ok());
    assert_eq!(out.frame.unwrap().payload, b"f\0\0");
    let st = ask(&mut s, 5, Request::Stat { path: b"/d".to_vec() });
    assert_eq!(st.frame.unwrap().w1 & 0xFF, STAT_DIR);
    let st = ask(&mut s, 5, Request::Stat { path: b"/hello.txt".to_vec() });
    let frame = st.frame.unwrap();
    assert_eq!((frame.result, frame.w1 & 0xFF), (27, STAT_FILE));
    assert_eq!(open(&mut s, b"/d", O_CREAT | O_TRUNC), Err(ERR_ISDIR));
    assert!(ask(&mut s, 5, Request::Delete { path: b"/d".to_vec() }).result.is_err());
    assert_eq!(ask(&mut s, 5, Request::Delete { path: b"/d/f".to_vec() }).result, Ok(0));
    assert_eq!(ask(&mut s, 5, Request::Delete { path: b"/d".to_vec() }).result, Ok(0));
    let gone = ask(&mut s, 5, Request::Stat { path: b"/d".to_vec() });
    assert_eq!(gone.result, Err(ERR_NOTFOUND));
}

#[test]
fn pipes_are_first_in_first_out() {
    let mut s = server();
    let out = ask(&mut s, 5, Request::PipeCreate { hint: 8 });
    let (r, w) = (out.result.unwrap(), out.w1);
    assert_eq!(read(&mut s, 5, r, 4), Err(ERR_EMPTY));
    assert_eq!(write(&mut s, w, b"abc"), Ok(3));
    assert_eq!(write(&mut s, w, b"de"), Ok(2));
    assert_eq!(read(&mut s, 5, r, 4), Ok(b"abcd".to_vec()));
    assert_eq!(ask(&mut s, 5, Request::Close { fd: w as u32 }).result, Ok(0));
    assert_eq!(read(&mut s, 5, r, 4), Ok(b"e".to_vec()));
    // No writer is left: the end.
    assert_eq!(read(&mut s, 5, r, 4), Ok(vec![]));
    let out = ask(&mut s, 5, Request::PipeCreate { hint: 8 });
    let (r, w) = (out.result.unwrap(), out.w1);
    assert_eq!(ask(&mut s, 5, Request::Close { fd: r as u32 }).result, Ok(0));
    assert_eq!(write(&mut s, w, b"x"), Err(ERR_CLOSED));
}

#[test]
fn grants_are_used_once() {
    let mut s = server();
    let fd = open(&mut s, b"/hello.txt", 0).unwrap();
    let o = Outside { peer: Some(40), ..nothing() };
    let nonce = ask_with(&mut s, 5, Request::Grant { fd: fd as u32 }, o).result.unwrap();
    // The counter, mixed with the process.
    assert_eq!(nonce, 1 ^ 40u64.wrapping_mul(0x9E37_79B9_7F4A_7C15));
    let family = || Outside {
        parties: Parties { claimant: Some(41), parent: Some(40), holder: Some(40) },
        ..nothing()
    };
    let stranger = Outside {
        parties: Parties { claimant: Some(42), parent: Some(9), holder: Some(40) },
        ..nothing()
    };
    let mine = ask_with(&mut s, 7, Request::Claim { nonce }, family()).result.unwrap();
    assert_eq!(read(&mut s, 7, mine, 5), Ok(b"Hello".to_vec()));
    assert!(ask_with(&mut s, 7, Request::Claim { nonce }, family()).result.is_err());
    // Only a child can claim, and trying uses the grant up.
    let o = Outside { peer: Some(40), ..nothing() };
    let nonce = ask_with(&mut s, 5, Request::Grant { fd: fd as u32 }, o).result.unwrap();
    assert_eq!(nonce, 2 ^ 40u64.wrapping_mul(0x9E37_79B9_7F4A_7C15));
    assert_eq!(
        ask_with(&mut s, 7, Request::Claim { nonce }, stranger).result,
        Err(ERR_INVALID)
    );
    assert!(ask_with(&mut s, 7, Request::Claim { nonce }, family()).result.is_err());
    // A grant that was taken back cannot be claimed.
    let o = Outside { peer: Some(40), ..nothing() };
    let nonce = ask_with(&mut s, 5, Request::Grant { fd: fd as u32 }, o).result.unwrap();
    assert_eq!(ask(&mut s, 5, Request::Cancel { nonce }).result, Ok(0));
    assert!(ask_with(&mut s, 7, Request::Claim { nonce }, family()).result.is_err());
}

#[test]
fn rights_only_shrink() {
    let mut s = server();
    s.register_rings(5, 1, 2, RIGHTS_ALL);
    assert_eq!(s.rings_of(5), Some((1, 2)));
    assert_eq!(s.ceiling(5), RIGHTS_ALL);
    assert_eq!(s.judge(5, R_OPEN, 4, 0, 4), Verdict::Serve(4));
    let drop = Request::RightsDrop { keep: RIGHTS_READ, subtree: b"/d".to_vec() };
    assert!(ask(&mut s, 5, drop).result.is_ok());
    assert_eq!(s.judge(5, R_OPEN, 4, 0, 4), Verdict::Denied(4));
    assert_eq!(s.judge(5, R_READ, 4, 0, 4), Verdict::Serve(0));
    let back = Request::RightsDrop { keep: RIGHTS_ALL, subtree: b"/".to_vec() };
    ask(&mut s, 5, back);
    assert_eq!(s.judge(5, R_OPEN, 4, 0, 4), Verdict::Denied(4));
    assert!(subtree_ok(&s.rights, 5, R_OPEN, b"/d/x"));
    assert!(!subtree_ok(&s.rights, 5, R_OPEN, b"/dx"));
}

#[test]
fn an_unknown_program_is_confined() {
    let mut s = server();
    s.register_rings(6, 1, 2, ceiling_for(Some(50), Some(7), &[(8, RIGHTS_ALL)], &[]));
    assert_eq!(s.ceiling(6), DEFAULT_UNKNOWN_OPS);
    assert_eq!(s.judge(6, R_PIPE_CREATE, 64, 0, 0), Verdict::Denied(0));
    assert_eq!(s.judge(6, R_DUP_GRANT, 1, 0, 0), Verdict::Denied(0));
    assert_eq!(s.judge(6, R_MOUNT, 4, 0, 4), Verdict::Denied(4));
    assert_eq!(s.judge(6, R_UMOUNT, 4, 0, 4), Verdict::Denied(4));
    // Files, seeking, and what others grant stay open to it.
    assert_eq!(s.judge(6, R_OPEN, 4, 0, 4), Verdict::Serve(4));
    assert_eq!(s.judge(6, R_LSEEK, 1, 0, 1), Verdict::Serve(1));
    assert_eq!(s.judge(6, R_DUP_CLAIM, 0, 0, 8), Verdict::Serve(8));
    // A known one may do all, until it gives rights up.
    s.register_rings(5, 1, 2, RIGHTS_ALL);
    assert_eq!(s.judge(5, R_PIPE_CREATE, 64, 0, 0), Verdict::Serve(0));
    assert_eq!(s.judge(5, R_DUP_GRANT, 1, 0, 0), Verdict::Serve(0));
    let drop = Request::RightsDrop { keep: RIGHTS_OPEN | RIGHTS_PIPE, subtree: vec![] };
    assert!(ask(&mut s, 5, drop).result.is_ok());
    assert_eq!(s.judge(5, R_PIPE_CREATE, 64, 0, 0), Verdict::Serve(0));
    assert_eq!(s.judge(5, R_DUP_GRANT, 1, 0, 0), Verdict::Denied(0));
    assert_eq!(s.judge(5, R_LSEEK, 1, 0, 1), Verdict::Denied(1));
    assert_eq!(s.judge(5, R_CLOSE, 1, 0, 0), Verdict::Serve(0));
    assert_eq!((op_bit(R_LSEEK), op_bit(R_DUP_GRANT)), (Some(0x100), Some(0x200)));
    assert_eq!((op_bit(R_PIPE_CREATE), op_bit(R_DUP_CLAIM)), (Some(0x400), None));
}

#[test]
fn drivers_are_asked_only_where_it_matters() {
    let mut s = server();
    s.mounts.push(Mount { prefix: b"/dev/null".to_vec(), driver_chan: 9 });
    s.mounts.push(Mount { prefix: b"/dev/disk/by-uuid/4F4C4556".to_vec(), driver_chan: 8 });
    let open = |p: &[u8]| Request::Open { path: p.to_vec(), flags: 0 };
    assert_eq!(s.driver_ask(5, &open(b"/dev/null"), None), Some(DriverAsk::Open { chan: 9, what: 0 }));
    assert_eq!(s.driver_ask(5, &open(b"/hello.txt"), None), None);
    // A path that is too long is refused without a question.
    let long = [&b"/dev/null"[..], &[b'/'; 300]].concat();
    assert_eq!(s.driver_ask(5, &open(&long), None), None);
    // A disk by its number has to be found first.
    let by = open(b"/dev/disk/by-uuid/4F4C4556");
    assert_eq!(s.handle_key(&by), Some(b"4F4C4556".to_vec()));
    assert_eq!(s.driver_ask(5, &by, None), None);
    assert_eq!(s.driver_ask(5, &by, Some(3)), Some(DriverAsk::Open { chan: 8, what: 3 }));
    assert_eq!(s.disk_key(5, &by), None);
    let o = Outside { answers: Answers { disk: None, handle: None, reply: Some(4) }, ..nothing() };
    let fd = ask_with(&mut s, 5, open(b"/dev/null"), o).result.unwrap() as u32;
    assert_eq!(
        s.driver_ask(5, &Request::Read { fd, count: 10 }, None),
        Some(DriverAsk::Read { chan: 9, remote: 4, count: 10 })
    );
    assert_eq!(s.driver_ask(5, &Request::Read { fd, count: 4097 }, None), None);
    let list = Request::ReadDir { path: b"/dev/null".to_vec() };
    assert_eq!(s.driver_ask(5, &list, None), Some(DriverAsk::List { chan: 9 }));
    let mount = Request::Mount { spec: b"UUID=4F4C4556\0fat\0".to_vec() };
    assert_eq!(s.disk_key(5, &mount), Some(b"4F4C4556".to_vec()));
}

#[test]
fn frames_that_are_too_short_or_unknown() {
    let s = server();
    assert_eq!(expected_len(R_OPEN, 9, 3), Some(9));
    assert_eq!(expected_len(R_WRITE, 9, 3), Some(3));
    assert_eq!(expected_len(R_LSEEK, 9, 3), Some(1));
    assert_eq!(expected_len(R_DUP_CLAIM, 9, 3), Some(8));
    assert_eq!(expected_len(99, 9, 3), None);
    assert_eq!(s.judge(5, 99, 0, 0, 0), Verdict::Resync);
    assert_eq!(s.judge(5, R_WRITE, 3, 10, 9), Verdict::Resync);
    assert_eq!(s.judge(5, R_WRITE, 3, 5000, 6000), Verdict::Resync);
}

#[test]
fn decoded_requests() {
    match decode(R_OPEN, 2, 0x200, b"/a".to_vec()) {
        Request::Open { path, flags } => assert_eq!((path, flags), (b"/a".to_vec(), 0x200)),
        _ => panic!("open"),
    }
    // A path has to be text.
    match decode(R_OPEN, 1, 0, vec![0xFF]) {
        Request::Invalid { code } => assert_eq!(code, ERR_INVALID),
        _ => panic!("text"),
    }
    match decode(R_READDIR, 0, 0, vec![]) {
        Request::ReadDir { path } => assert_eq!(path, b"/"),
        _ => panic!("root"),
    }
    match decode(R_LSEEK, 3, (-5i64) as u64, vec![2]) {
        Request::Seek { fd, off, whence } => assert_eq!((fd, off, whence), (3, -5, SEEK_END)),
        _ => panic!("seek"),
    }
    match decode(R_DUP_CLAIM, 0, 0, 258u64.to_le_bytes().to_vec()) {
        Request::Claim { nonce } => assert_eq!(nonce, 258),
        _ => panic!("claim"),
    }
    match decode(R_DUP_CLAIM, 0, 0, vec![1]) {
        Request::Invalid { code } => assert_eq!(code, ERR_INVALID),
        _ => panic!("short"),
    }
    assert!(matches!(decode(R_CLOSE, 3, 0, vec![]), Request::Close { fd: 3 }));
    assert!(matches!(decode(R_MKDIR, 3, 0, b"/d".to_vec()), Request::MkDir { .. }));
    assert!(matches!(decode(R_DELETE, 3, 0, b"/d".to_vec()), Request::Delete { .. }));
    assert!(matches!(decode(R_STAT, 3, 0, b"/d".to_vec()), Request::Stat { .. }));
    assert!(matches!(decode(R_PIPE_CREATE, 64, 0, vec![]), Request::PipeCreate { hint: 64 }));
    assert!(matches!(decode(R_RIGHTS_GET, 0, 0, vec![]), Request::RightsGet));
    assert!(matches!(decode(77, 0, 0, vec![]), Request::Invalid { code: ERR }));
}

#[test]
fn replies() {
    let out = Outcome { result: Err(ERR_BUSY), w1: 3, frame: None, told: None };
    let (v, f) = finish(R_CLOSE, out);
    assert_eq!(v, ERR_BUSY);
    let f = f.unwrap();
    assert_eq!((f.result, f.w1, f.payload.len()), (ERR_BUSY, 3, 0));
    let out = Outcome { result: Ok(2), w1: 0, frame: None, told: None };
    assert!(finish(R_READ, out).1.is_none());
}

#[test]
fn a_dead_peer_loses_everything() {
    let mut s = server();
    let fd = open(&mut s, b"/hello.txt", 0).unwrap();
    s.register_rings(5, 1, 2, RIGHTS_ALL);
    let told = s.peer_died(5, &vec![]);
    assert!(told.is_empty());
    assert!(read(&mut s, 5, fd, 4).is_err());
    assert_eq!(s.rings_of(5), None);
    // Grants of others stay, and the counter goes on.
    let of = |s: &mut Fs, chan: u64| {
        let open = Request::Open { path: b"/hello.txt".to_vec(), flags: 0 };
        let fd = ask(s, chan, open).result.unwrap() as u32;
        let o = Outside { peer: Some(40), ..nothing() };
        ask_with(s, chan, Request::Grant { fd }, o).result.unwrap()
    };
    let mine = of(&mut s, 5);
    let other = of(&mut s, 6);
    s.peer_died(5, &vec![]);
    assert_eq!((s.grants.registrant(mine), s.grants.registrant(other)), (None, Some(6)));
    assert_eq!(of(&mut s, 7), 3 ^ 40u64.wrapping_mul(0x9E37_79B9_7F4A_7C15));
    // The channel counts its descriptors anew.
    assert_eq!(open(&mut s, b"/hello.txt", 0), Ok(1));
}

#[test]
fn drivers_register_below_dev() {
    let mut m: Vec<Mount> = vec![];
    register_prefixes(&mut m, b"/dev/null\0/dev/zero\0/etc\0", 9, true, &[]);
    assert_eq!(driver_at(&m, b"dev/null").or(driver_at(&m, b"/dev/null")), Some(9));
    assert_eq!(m.len(), 2);
    // A living driver keeps its place; a dead one loses it.
    let live = [DriverFact { chan: 9, gone: false, same_image: false }];
    register_prefixes(&mut m, b"/dev/null\0", 10, false, &live);
    assert!(m.iter().all(|x| x.driver_chan == 9));
    let dead = [DriverFact { chan: 9, gone: true, same_image: false }];
    register_prefixes(&mut m, b"/dev/null\0", 10, false, &dead);
    assert!(m.iter().any(|x| x.driver_chan == 10));
}

#[test]
fn devices_are_asked_of_their_drivers() {
    let m = vec![Mount { prefix: b"/dev/null".to_vec(), driver_chan: 9 }];
    match open_route(b"/dev/null", &m, None) {
        DeviceRoute::Ask { chan, what, .. } => assert_eq!((chan, what), (9, 0)),
        _ => panic!("not asked"),
    }
    assert!(matches!(open_route(b"/hello.txt", &m, None), DeviceRoute::NotDevice));
    assert_eq!(dev_type(b"null"), Some(0));
    assert_eq!(dev_type(b"zero"), Some(1));
    assert_eq!(dev_type(b"what"), None);
    assert_eq!(disk_handle(b"sda"), Some(0));
    assert_eq!(disk_handle(b"sdb2"), Some(0x1_0002));
    assert_eq!(disk_handle(b"hda"), None);
    assert_eq!(disk_handle(b"sda+1"), None);
    assert_eq!(disk_handle(b"sda1x"), None);
}

#[test]
fn the_longest_prefix_wins() {
    let m = vec![
        Mount { prefix: b"/dev".to_vec(), driver_chan: 1 },
        Mount { prefix: b"/dev/input".to_vec(), driver_chan: 2 },
    ];
    assert_eq!(resolve_mount(b"/dev/input/keyboard", &m).map(|x| x.0), Some(2));
    assert_eq!(resolve_mount(b"/dev/inputs", &m).map(|x| x.0), Some(1));
    assert!(resolve_mount(b"/etc", &m).is_none());
    assert_eq!(rel_under(b"a/b", b"a"), Some(&b"b"[..]));
    assert_eq!(rel_under(b"ab", b"a"), None);
}

#[test]
fn names_are_listed_once_and_in_order() {
    let mut l = StrList::with_capacity(3);
    assert!(l.is_empty());
    l.push(b"b");
    l.push(b"a");
    assert!(l.contains(b"a") && !l.contains(b"c"));
    l.sort();
    assert_eq!(l.items, [b"a".to_vec(), b"b".to_vec()]);
    assert_eq!(pack_names(&l.items), b"a\0b\0\0");
}

#[test]
fn sources_of_mounts() {
    assert!(normalize_source(b"/dev/sda1").is_some());
    assert!(normalize_source(b"").is_none());
    assert!(resolve_key(b"").is_none());
    assert!(normalize_target(b"/mnt").is_some());
    assert!(normalize_target(b"/").is_none());
    assert_eq!(resolve_mount_source(b"LABEL=X", Some(3)), Some(3));
    assert_eq!(resolve_mount_source(b"LABEL=X", None), None);
    assert_eq!(split_mount(b"src\0dst"), Some((&b"src"[..], &b"dst"[..])));
    assert_eq!(split_mount(b"src"), None);
}

#[test]
fn subtrees() {
    assert!(within_subtree(b"/a", b"/a/b"));
    assert!(!within_subtree(b"/a", b"/ab"));
    assert!(within_subtree(b"/a", b"/a"));
    assert_eq!(op_bit(R_OPEN), Some(RIGHTS_OPEN));
    assert_eq!(op_bit(R_CLOSE), None);
    let mut t = RightsTable::new();
    assert!(op_permitted(&t, 1, RIGHTS_ALL, R_OPEN));
    assert!(!op_permitted(&t, 1, RIGHTS_READ, R_OPEN));
    assert!(handle_rights_drop(&mut t, 1, RIGHTS_READ, b"/a", RIGHTS_ALL).is_some());
    assert_eq!(rights_ops(&t, 1), RIGHTS_READ);
    assert_eq!(rights_subtree(&t, 1), normalize_sub_view(b"/a"));
    assert_eq!(handle_rights_get(&t, 1, RIGHTS_ALL).0, RIGHTS_READ);
    t.forget(1);
    assert!(op_permitted(&t, 1, RIGHTS_ALL, R_OPEN));
}

#[test]
fn ceilings_by_image() {
    let services = [(11u64, 0x3u32)];
    let tests = [(12u64, 0x1u32)];
    assert_eq!(ceiling_for(Some(1), Some(11), &services, &tests), RIGHTS_ALL);
    assert_eq!(ceiling_for(Some(9), Some(11), &services, &tests), 0x3);
    assert_eq!(ceiling_for(Some(9), Some(12), &services, &tests), 0x1);
    assert_eq!(ceiling_for(None, Some(13), &services, &tests), DEFAULT_UNKNOWN_OPS);
    assert_eq!(ceiling_for(Some(9), None, &services, &tests), 0x19F);
}

#[test]
fn the_tree_in_memory() {
    let mut f = RamFs::new();
    f.create_file(b"a").unwrap().extend_from_slice(b"xy");
    match f.find(b"a") {
        Some(FsNode::File { data, .. }) => assert_eq!(data, b"xy"),
        _ => panic!("no file"),
    }
    assert!(f.mkdir(b"d").is_some());
    assert!(f.mkdir(b"d").is_some());
    assert!(f.mkdir(b"a/x").is_none());
    // A file stays a file.
    assert!(f.mkdir(b"a").is_none());
    assert!(matches!(f.find(b"a"), Some(FsNode::File { .. })));
    assert!(f.find_or_create(b"d/f"));
    assert_eq!(f.readdir(b"d"), Some(vec![b"f".to_vec()]));
    assert_eq!(f.readdir(b"a"), None);
    assert!(f.remove(b"d").is_none());
    assert!(f.remove(b"d/f").is_some());
    assert!(f.remove(b"d").is_some());
    assert!(f.find(b"d").is_none());
}

#[test]
fn request_and_response_rings() {
    let mut r = Ring::new();
    r.put(&request_frame(R_WRITE, 3, 2, b"hi"));
    let (tag, w0, w1, _) = req_ring_read(&r).unwrap();
    assert_eq!((tag, w0, w1), (R_WRITE, 3, 2));
    assert_eq!(req_ring_read_payload(&mut r, 2), b"hi");
    let left = r.available();
    req_ring_consume(&mut r, left);
    assert_eq!(r.available(), 0);
    r.put(b"junk");
    req_resync(&mut r);
    assert_eq!(r.available(), 0);
    assert!(req_ring_read(&r).is_none());
    let mut resp = Ring::new();
    resp_ring_write(&mut resp, 512, 7, &[9u8; 512]);
    assert!(resp.available() >= 512);
}

#[test]
fn a_disk_over_messages() {
    let mut d = IpcDisk::new(3);
    let at = d.ensure();
    assert_eq!(at, Connect::Lookup);
    let at = d.connect_step(at, Some((8, 0)), 0, 0);
    assert_eq!(at, Connect::Hello { chan: 8 });
    let at = d.connect_step(at, Some((1, 0x4000)), 0, 0);
    assert_eq!(at, Connect::MapPage { chan: 8, phys: 0x4000 });
    let at = d.connect_step(at, Some((0, 0)), 0, 0);
    assert_eq!(at, Connect::Open { chan: 8 });
    let at = d.connect_step(at, Some((0, 0)), 0, 0);
    assert_eq!(at, Connect::Connected { chan: 8 });
    assert_eq!(d.ensure(), Connect::Connected { chan: 8 });
    assert_eq!(d.try_read(Some(0)), TryRead::Frame);
    assert!(!d.note_peer_death(9));
    assert!(d.note_peer_death(8));
    assert_eq!(d.ensure(), Connect::Lookup);
    assert!(frame_read(&mut Ring::new()).is_none());
}

#[test]
fn a_lost_driver_is_asked_once_more() {
    let mut d = IpcDisk { handle: 3, chan: Some(8) };
    let mut r = d.read_sector();
    assert_eq!(r.ask, ReadAsk::Connect);
    d.read_step(&mut r, Some(8));
    assert_eq!(r.ask, ReadAsk::Send { chan: 8 });
    // The driver is gone.
    d.read_step(&mut r, None);
    assert_eq!((r.ask, d.chan), (ReadAsk::Connect, None));
    let mut twice = r;
    d.read_step(&mut r, Some(9));
    d.read_step(&mut r, Some(0));
    assert_eq!(r.ask, ReadAsk::TakeFrame);
    d.read_step(&mut r, Some(0));
    assert_eq!(r.ask, ReadAsk::Finished(true));
    // Gone again: that is all.
    d.read_step(&mut twice, Some(9));
    d.read_step(&mut twice, None);
    assert_eq!(twice.ask, ReadAsk::Finished(false));
    // A refusal is not asked again.
    let mut r = d.read_sector();
    d.read_step(&mut r, Some(9));
    d.read_step(&mut r, Some(ERR));
    assert_eq!(r.ask, ReadAsk::Finished(false));
}
