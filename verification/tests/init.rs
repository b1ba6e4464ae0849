use velordor::init::{
    boot_order, driver_name_of, expected_hash, meta_of, spawn_file, Death, ImageError, InitMsg,
    LoopMsg, LoopStep, Manifest, Supervisor, Svc, Waited, READY_BOUND, RESTART_LIMIT, STRAY_CAP,
    WINDOW,
};

fn manifest() -> Manifest {
    Manifest { disk: 1, console: 2, uptime: 3, devfs: 4, kbd: 5, tty: 6, shell: 7 }
}

fn index(s: &Supervisor, svc: Svc) -> usize {
    s.list.iter().position(|e| e.svc == svc).unwrap()
}

#[test]
fn the_order_of_the_start() {
    let o: Vec<Svc> = boot_order().iter().map(|b| b.svc).collect();
    assert_eq!(
        o,
        [
            Svc::Disk,
            Svc::Fs,
            Svc::Console,
            Svc::Uptime,
            Svc::Devfs,
            Svc::Kbd,
            Svc::Tty,
            Svc::Shell
        ]
    );
    assert!(boot_order()[0].wait && boot_order()[1].wait);
    assert_eq!(meta_of(Svc::Disk).path, None);
    assert_eq!(meta_of(Svc::Tty).path, Some(b"/fat/bin/tty.bin".to_vec()));
    assert_eq!(meta_of(Svc::Kbd).io, Some((0x60, 0x64)));
    assert_eq!(meta_of(Svc::Uptime).prio, 1);
}

#[test]
fn images_have_to_be_listed() {
    let m = manifest();
    assert_eq!(expected_hash(&m, b"usertty"), Some(6));
    assert_eq!(expected_hash(&m, b"other"), None);
    assert_eq!(driver_name_of(&m, Some(5)), b"userkbd");
    assert_eq!(spawn_file(&m, b"usertty", Some(100), 6), Ok(true));
    assert_eq!(spawn_file(&m, b"usertty", Some(100), 9), Err(ImageError::HashMismatch));
    assert_eq!(spawn_file(&m, b"usertty", None, 6), Err(ImageError::Unreadable));
}

#[test]
fn a_service_is_not_restarted_over_and_over() {
    let mut s = Supervisor::new();
    let i = index(&s, Svc::Tty);
    for _ in 0..RESTART_LIMIT {
        assert!(s.restart_service(i, 1000));
    }
    assert!(!s.restart_service(i, 1001));
    assert!(s.list[i].held);
    // Held stays held, also later.
    assert!(!s.restart_service(i, 1000 + 10 * WINDOW));
    // Another one, in two whiles.
    let k = index(&s, Svc::Kbd);
    for _ in 0..RESTART_LIMIT {
        assert!(s.restart_service(k, 1000));
    }
    assert!(s.restart_service(k, 1000 + WINDOW + 1));
    assert_eq!(s.list[k].restarts, 1);
}

#[test]
fn what_the_end_of_a_process_means() {
    let mut s = Supervisor::new();
    let i = index(&s, Svc::Console);
    s.set_pid(i, 33);
    s.set_chan(i, 4);
    assert_eq!(s.handle_child_death(33), Death::Restart(i));
    assert_eq!(s.handle_child_death(34), Death::Unknown);
    assert_eq!(s.handle_bounce(Svc::Console), Some(33));
    assert_eq!(s.run_test(LoopMsg::TestDone { chan: 8 }, Some(8)), LoopStep::TestOver);
    assert_eq!(s.run_test(LoopMsg::TestDone { chan: 8 }, Some(9)), LoopStep::Nothing);
    assert_eq!(s.run_test(LoopMsg::Bounce(Some(Svc::Console)), None), LoopStep::Kill(Some(33)));
    assert_eq!(s.run_test(LoopMsg::Exit { pid: 33 }, None), LoopStep::Ended(Death::Restart(i)));
    s.list[i].held = true;
    assert_eq!(s.handle_child_death(33), Death::Held);
}

#[test]
fn news_that_came_while_waiting_is_kept() {
    let mut s = Supervisor::new();
    let other = Some(InitMsg::Exit { chan: 9, pid: 50, code: 1 });
    assert_eq!(s.wait_ready(other, 4, 0, 0), Waited::Going);
    assert_eq!(s.wait_ready(Some(InitMsg::Ready { chan: 4 }), 4, 0, 1), Waited::Ready);
    assert_eq!(s.next_stray(), Some((50, 1)));
    assert_eq!(s.next_stray(), None);
    let own = Some(InitMsg::Exit { chan: 4, pid: 51, code: 1 });
    assert_eq!(s.wait_ready(own, 4, 0, 1), Waited::Failed);
    assert_eq!(s.wait_ready(None, 4, 0, READY_BOUND), Waited::Going);
    assert_eq!(s.wait_ready(None, 4, 0, READY_BOUND + 1), Waited::Failed);
    for i in 0..STRAY_CAP as i64 {
        assert!(s.stash_death(i, 0));
    }
    assert!(!s.stash_death(99, 0));
}
