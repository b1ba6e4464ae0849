use velordor::fs::block::RamDisk;
use velordor::fs::codes::{
    RIGHTS_ALL, RIGHTS_OPEN, R_CLOSE, R_OPEN, R_READ, R_REGISTER, R_WRITE,
};
use velordor::fs::dup::Parties;
use velordor::fs::handlers::Answers;
use velordor::fs::mount_legacy::Mount;
use velordor::fs::notify::{Taken, Wanted, MAX_PREFIXES};
use velordor::fs::server::{Outside, Request, Server};
use velordor::ring::{request_frame, Ring};

type Fs = Server<RamDisk>;

fn server() -> Fs {
    let mut s: Fs = Server::start(None);
    s.register_rings(5, 1, 2, RIGHTS_ALL);
    s
}

fn outside(handle: Option<u32>, reply: Option<u64>) -> Outside<RamDisk> {
    Outside {
        answers: Answers { disk: None, handle, reply },
        peer: None,
        parties: Parties { claimant: None, parent: None, holder: None },
    }
}

#[test]
fn requests_are_taken_one_by_one() {
    let s = server();
    let mut r = Ring::new();
    r.put(&request_frame(R_OPEN, 4, 7, b"/abc"));
    r.put(&request_frame(R_CLOSE, 3, 0, b""));
    match s.take(5, &mut r) {
        Taken::Ask { op, req: Request::Open { path, flags } } => {
            assert_eq!((op, path, flags), (R_OPEN, b"/abc".to_vec(), 7));
        }
        _ => panic!("not an open"),
    }
    // Nothing of the second one was taken.
    assert_eq!(r.available(), 20);
    match s.take(5, &mut r) {
        Taken::Ask { op, req: Request::Close { fd } } => assert_eq!((op, fd), (R_CLOSE, 3)),
        _ => panic!("not a close"),
    }
    assert!(matches!(s.take(5, &mut r), Taken::Bad));
}

#[test]
fn an_unknown_client_has_to_say_hello() {
    let s = server();
    let mut r = Ring::new();
    r.put(&request_frame(R_CLOSE, 3, 0, b""));
    assert!(matches!(s.take(6, &mut r), Taken::NoHandshake));
    assert!(matches!(s.take_prefixes(6, &mut r), Wanted::NoHandshake));
    assert_eq!(r.available(), 20);
}

#[test]
fn a_request_that_cannot_be_one_empties_the_ring() {
    let s = server();
    let mut r = Ring::new();
    r.put(&request_frame(R_WRITE, 3, 10, b"only5"));
    assert!(matches!(s.take(5, &mut r), Taken::Bad));
    assert_eq!(r.available(), 0);
    r.put(&request_frame(99, 0, 0, b""));
    assert!(matches!(s.take(5, &mut r), Taken::Bad));
    assert_eq!(r.available(), 0);
    r.put(b"too short");
    assert!(matches!(s.take(5, &mut r), Taken::Bad));
}

#[test]
fn what_a_client_may_not_is_not_served() {
    let mut s = server();
    let drop = Request::RightsDrop { keep: RIGHTS_OPEN, subtree: b"/d".to_vec() };
    assert!(s.has_room(5, &drop));
    assert!(s.serve(5, drop, true, outside(None, None)).result.is_ok());
    let mut r = Ring::new();
    // Neither the operation nor the path; both are taken out of the ring.
    r.put(&request_frame(R_READ, 3, 8, b""));
    r.put(&request_frame(R_OPEN, 4, 0, b"/abc"));
    r.put(&request_frame(R_OPEN, 4, 0, b"/d/x"));
    assert!(matches!(s.take(5, &mut r), Taken::Denied));
    assert_eq!(r.available(), 48);
    assert!(matches!(s.take(5, &mut r), Taken::Denied));
    assert_eq!(r.available(), 24);
    assert!(matches!(s.take(5, &mut r), Taken::Ask { op: R_OPEN, .. }));
}

#[test]
fn a_write_to_a_device_stays_for_its_driver() {
    let mut s = server();
    s.mounts.push(Mount { prefix: b"/dev/console".to_vec(), driver_chan: 9 });
    let open = Request::Open { path: b"/dev/console".to_vec(), flags: 0 };
    assert!(s.has_room(5, &open));
    let fd = s.serve(5, open, true, outside(None, Some(3))).result.unwrap();
    let mut r = Ring::new();
    r.put(&request_frame(R_WRITE, fd, 2, b"hi"));
    match s.take(5, &mut r) {
        Taken::Forward { fd: f } => assert_eq!(f as u64, fd),
        _ => panic!("not forwarded"),
    }
    assert_eq!(r.available(), 22);
}

#[test]
fn drivers_ask_for_mount_points() {
    let s = server();
    let mut r = Ring::new();
    r.put(&request_frame(R_REGISTER, 19, 0, b"/dev/null\0/dev/zero"));
    match s.take_prefixes(5, &mut r) {
        Wanted::Prefixes(p) => assert_eq!(p, b"/dev/null\0/dev/zero"),
        _ => panic!("no prefixes"),
    }
    assert_eq!(r.available(), 0);
    assert!(matches!(s.take_prefixes(5, &mut r), Wanted::Bad));
    // Another request, and one that is too long, ask for nothing.
    r.put(&request_frame(R_OPEN, 4, 0, b"/dev"));
    assert!(matches!(s.take_prefixes(5, &mut r), Wanted::Prefixes(p) if p.is_empty()));
    r.put(&request_frame(R_REGISTER, 0, 0, &vec![b'a'; MAX_PREFIXES + 1]));
    assert!(matches!(s.take_prefixes(5, &mut r), Wanted::Prefixes(p) if p.is_empty()));
    assert_eq!(r.available(), 0);
}
