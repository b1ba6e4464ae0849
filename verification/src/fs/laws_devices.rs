//! Which driver and which disk a request leads to, and what becomes of mounts
//! and mount points when drivers come and go.
use vstd::prelude::*;

use super::asks;
use super::asks::DriverAsk;
use super::block::BlockSource;
use super::codes::{DEV_KBD, R_READ, R_READDIR, R_RIGHTS_GET, R_STAT};
use super::ftable::EntryView;
use super::handlers;
use super::handlers::DeviceRoute;
use super::laws_requests;
use super::mount;
use super::mount::FsMount;
use super::mount_legacy;
use super::mount_legacy::{FsKind, Mount};
use super::pipes;
use super::pipes::PipeView;
use super::ramfs;
use super::server;
use super::server::{DriverFact, Outcome, Request, Server};
use crate::bytes;
use crate::disk::nodes;
use crate::text;
use crate::tty;
use crate::tty::server::OpKind;

verus! {

// ── Devices ──

proof fn lemma_device_key(name: Seq<u8>)
    ensures
        ramfs::rel_key(mount::dev_prefix() + name) == handlers::dev_dir() + name,
        bytes::has_prefix(handlers::dev_dir() + name, handlers::dev_dir()),
        (handlers::dev_dir() + name).skip(4) == name,
{
    let p = mount::dev_prefix() + name;
    let q = handlers::dev_dir() + name;
    assert(p.skip(1) =~= q);
    reveal_with_fuel(ramfs::rel_key, 3);
    assert(q.take(4) =~= handlers::dev_dir());
    assert(q.skip(4) =~= name);
}

/// A disk or a partition that is opened by its name is asked of its driver by
/// its handle.
pub proof fn law_disk_is_opened_by_its_handle(
    d: int,
    s: int,
    mounts: Seq<Mount>,
    chan: u64,
    handle: Option<u32>,
)
    requires
        0 <= d < 16,
        0 <= s <= 64,
        mount_legacy::driver_of(mount::dev_prefix() + nodes::node_name(d, s), mounts) == Some(
            (chan, Seq::<u8>::empty()),
        ),
    ensures
        handlers::route_of(mount::dev_prefix() + nodes::node_name(d, s), mounts, handle) == (
        DeviceRoute::Ask { chan, what: (d * 65536 + s) as u64, strict: true }),
{
    let name = nodes::node_name(d, s);
    lemma_device_key(name);
    laws_requests::law_disk_goes_by_its_name(d, s);
    assert(name[0] == 115);
    if bytes::has_prefix(name, handlers::by_prefix()) {
        assert(name.take(8)[0] == 115);
    }
}

/// A name under which a volume is found by its serial number or its label.
pub open spec fn named_by(name: Seq<u8>, key: Seq<u8>) -> bool {
    name == mount::by_label_prefix() + key || name == mount::by_uuid_prefix() + key
}

/// A disk that is opened by the serial number or the label of its volume is
/// looked for under that key, and asked of its driver by the handle that was
/// found.
pub proof fn law_volume_is_opened_by_its_key(
    name: Seq<u8>,
    key: Seq<u8>,
    mounts: Seq<Mount>,
    chan: u64,
    h: u32,
)
    requires
        0 < key.len() <= 16,
        !key.contains(47u8),
        named_by(name, key),
        mount_legacy::driver_of(mount::dev_prefix() + name, mounts) == Some(
            (chan, Seq::<u8>::empty()),
        ),
    ensures
        handlers::device_key_of(mount::dev_prefix() + name, mounts) == Some(key),
        handlers::route_of(mount::dev_prefix() + name, mounts, Some(h)) == (DeviceRoute::Ask {
            chan,
            what: h as u64,
            strict: true,
        }),
        handlers::route_of(mount::dev_prefix() + name, mounts, None) is Refused,
{
    lemma_device_key(name);
    lemma_named_by(name, key);
}

proof fn lemma_named_by(name: Seq<u8>, key: Seq<u8>)
    requires
        0 < key.len() <= 16,
        !key.contains(47u8),
        named_by(name, key),
    ensures
        mount::asked_key(mount::dev_prefix() + name) == Some(key),
        bytes::has_prefix(name, handlers::by_prefix()),
{
    laws_requests::law_forms_of_a_source_agree(key);
    if name == mount::by_label_prefix() + key {
        assert(mount::dev_prefix() + mount::by_label_prefix() + key =~= mount::dev_prefix() + name);
        assert(name.take(8) =~= handlers::by_prefix());
    } else {
        assert(mount::dev_prefix() + mount::by_uuid_prefix() + key =~= mount::dev_prefix() + name);
        assert(name.take(8) =~= handlers::by_prefix());
    }
}

/// The file that the terminal reads keys from is the keyboard of the driver that
/// holds its mount point.
pub proof fn law_terminal_opens_the_keyboard(m: Mount)
    requires
        m.prefix@ == bytes::lit("/dev/kbd"),
    ensures
        handlers::route_of(tty::server::path_for(OpKind::OpenKbd), seq![m], None) == (
        DeviceRoute::Ask { chan: m.driver_chan, what: DEV_KBD, strict: false }),
{
    reveal_strlit("/dev/kbd");
    reveal_strlit("/dev/kbd/kbd");
    vstd::utf8::is_ascii_chars_encode_utf8("/dev/kbd"@);
    vstd::utf8::is_ascii_chars_encode_utf8("/dev/kbd/kbd"@);
    let path = bytes::lit("/dev/kbd/kbd");
    let kbd = seq![107u8, 98, 100];
    assert(path =~= mount::dev_prefix() + seq![107u8, 98, 100, 47, 107, 98, 100]);
    assert(m.prefix@ =~= mount::dev_prefix() + kbd);
    lemma_device_key(seq![107u8, 98, 100, 47, 107, 98, 100]);
    lemma_device_key(kbd);
    let t = handlers::dev_dir() + seq![107u8, 98, 100, 47, 107, 98, 100];
    let p = handlers::dev_dir() + kbd;
    assert(t =~= p + seq![47u8] + kbd);
    laws_requests::law_under_is_by_components(p, kbd, 0);
    let ps = mount_legacy::driver_prefixes(seq![m]);
    assert(ps =~= seq![p]);
    assert(ps.drop_last() =~= Seq::<Seq<u8>>::empty());
    reveal_with_fuel(mount_legacy::longest, 3);
    assert(mount_legacy::longest(t, ps) == Some((0int, kbd)));
    assert(kbd.len() == 3);
    let null = seq![110u8, 117, 108, 108];
    let zero = seq![122u8, 101, 114, 111];
    assert(null.len() == 4 && zero.len() == 4);
}

/// A read of a file of a driver is passed to that driver, by the number that it
/// gave the file, with the count that was asked for.
pub proof fn law_read_is_passed_to_its_driver<B: BlockSource>(
    s: Server<B>,
    chan: u64,
    fd: u32,
    count: usize,
    handle: Option<u32>,
)
    requires
        count <= 4096,
        s.ftable@.contains_key((chan, fd)),
    ensures
        s.ftable@[(chan, fd)] matches EntryView::Remote { server_chan, remote_fd }
            ==> asks::driver_question(s, chan, Request::Read { fd, count }, handle) == Some(
            DriverAsk::Read { chan: server_chan, remote: remote_fd, count },
        ),
        !(s.ftable@[(chan, fd)] is Remote) ==> asks::driver_question(
            s,
            chan,
            Request::Read { fd, count },
            handle,
        ) is None,
{
}

// ── Disks behind mounts ──

/// Whoever uses a descriptor on a mount whose volume is gone has its disk asked
/// for, by the source that it was mounted from; while the volume is there no
/// disk is asked for.
pub proof fn law_own_disk_is_asked_for<B: BlockSource>(
    s: Server<B>,
    chan: u64,
    fd: u32,
    count: usize,
    off: i64,
    whence: u64,
    id: u64,
)
    requires
        count <= 4096,
        s.ftable@.contains_key((chan, fd)),
        s.ftable@[(chan, fd)] matches EntryView::Local { mnt, .. } && mnt == Some(id),
        mount::id_index(s.fat_mounts@, id) < s.fat_mounts@.len(),
    ensures
        ({
            let m = s.fat_mounts@[mount::id_index(s.fat_mounts@, id)];
            let key = if m.fs.active() {
                None
            } else {
                mount::asked_key(m.source@)
            };
            &&& asks::disk_question(s, chan, Request::Read { fd, count }) == key
            &&& asks::disk_question(s, chan, Request::Seek { fd, off, whence }) == key
            &&& m.id == id
        }),
{
    mount::lemma_id_index(s.fat_mounts@, id);
}

/// A path below a mount whose volume is gone has the disk of that mount asked
/// for.
pub proof fn law_disk_below_a_path_is_asked_for<B: BlockSource>(
    s: Server<B>,
    chan: u64,
    path: Vec<u8>,
    i: int,
    rel: Seq<u8>,
)
    requires
        !handlers::bad_path(path@),
        mount_legacy::driver_of(path@, s.mounts@) is None,
        mount_legacy::longest(ramfs::rel_key(path@), mount::targets(s.fat_mounts@)) == Some(
            (i, rel),
        ),
        0 <= i < s.fat_mounts@.len(),
        !s.fat_mounts@[i].fs.active(),
    ensures
        ({
            let key = mount::asked_key(s.fat_mounts@[i].source@);
            &&& asks::disk_question(s, chan, Request::Stat { path }) == key
            &&& asks::disk_question(s, chan, Request::Delete { path }) == key
            &&& asks::disk_question(s, chan, Request::MkDir { path }) == key
            &&& asks::disk_question(s, chan, Request::ReadDir { path }) == key
        }),
{
}

/// A mount by serial number has the disk with that number asked for.
pub proof fn law_mount_asks_for_its_disk<B: BlockSource>(
    s: Server<B>,
    chan: u64,
    spec: Vec<u8>,
    uuid: Seq<u8>,
    target: Seq<u8>,
)
    requires
        uuid.len() == 8,
        forall|i: int| 0 <= i < 8 ==> mount::hex_byte(#[trigger] uuid[i]),
        target.len() > 0,
        !target.contains(0u8),
        spec@ == mount::uuid_prefix() + uuid + seq![0u8] + target,
    ensures
        asks::disk_question(s, chan, Request::Mount { spec }) == Some(uuid),
{
    let u = mount::uuid_prefix() + uuid;
    assert(!u.contains(0u8)) by {
        if u.contains(0u8) {
            let i = choose|i: int| 0 <= i < u.len() && u[i] == 0;
            if i >= 5 {
                assert(mount::hex_byte(uuid[i - 5]));
            }
        }
    }
    laws_requests::law_mount_request_has_two_parts(u, target, Seq::empty());
    let label = seq![65u8];
    laws_requests::law_source_asks_for_its_disk(uuid, label, 32);
    assert forall|i: int| 0 <= i < u.len() implies #[trigger] u[i] < 128 && !text::ascii_blank(
        u[i],
    ) by {
        if i >= 5 {
            assert(mount::hex_byte(uuid[i - 5]));
        }
    }
    assert(text::trimmed_form(u) == u);
    assert(u.len() == 13 && mount::ramfs_name().len() == 5);
}

/// Which file system serves a path: that of the mount that it lies under, the
/// one in memory where it lies under none, and neither below `dev`.
pub proof fn law_path_is_served_by_its_mount<B: BlockSource>(
    mounts: Seq<FsMount<B>>,
    path: Seq<u8>,
    i: int,
    rel: Seq<u8>,
)
    ensures
        mount_legacy::device_path(path) ==> mount_legacy::local_kind(mounts, path) is None,
        !mount_legacy::device_path(path) && mount_legacy::longest(
            ramfs::rel_key(path),
            mount::targets(mounts),
        ) is None ==> mount_legacy::local_kind(mounts, path) == Some(FsKind::Ram),
        !mount_legacy::device_path(path) && mount_legacy::longest(
            ramfs::rel_key(path),
            mount::targets(mounts),
        ) == Some((i, rel)) ==> mount_legacy::local_kind(mounts, path) == Some(
            if mounts[i].fs is Fat {
                FsKind::Fat
            } else {
                FsKind::Local
            },
        ),
{
}

/// When disks are lost, their volumes are, and nothing else: every mount keeps
/// its place, its id, its target and its source.
pub proof fn law_only_lost_volumes_are_dropped<B: BlockSource>(
    before: Seq<FsMount<B>>,
    after: Seq<FsMount<B>>,
    lost: Seq<bool>,
    i: int,
)
    requires
        server::dropped_volumes(before, after, lost),
        0 <= i < before.len(),
    ensures
        after.len() == before.len(),
        after[i].id == before[i].id && after[i].target == before[i].target && after[i].source
            == before[i].source,
        before[i].fs is Fat && lost[i] ==> !after[i].fs.active(),
        !(before[i].fs is Fat) || !lost[i] ==> after[i] == before[i],
{
}

// ── Replies and mount points ──

/// The client gets the result, or the code of the refusal, and the second word.
pub proof fn law_result_goes_to_the_client(op: u32, out: Outcome)
    requires
        op != R_READ && op != R_READDIR && op != R_RIGHTS_GET && op != R_STAT,
    ensures
        server::response_to(op, out) matches Some(f) && f.w1 == out.w1 && f.payload.len() == 0 && (
        out.result matches Ok(v) ==> f.result == v) && (out.result matches Err(e) ==> f.result
            == e),
{
}

/// Mount points that are asked for together are registered one after the other.
pub proof fn law_mount_points_are_registered_in_turn(
    m: Seq<(Seq<u8>, u64)>,
    a: Seq<u8>,
    rest: Seq<u8>,
    chan: u64,
    init_child: bool,
    facts: Seq<DriverFact>,
)
    requires
        !a.contains(0u8),
    ensures
        server::all_registered(m, a, chan, init_child, facts) == server::registered(
            m,
            a,
            chan,
            init_child,
            facts,
        ),
        server::all_registered(m, a + seq![0u8] + rest, chan, init_child, facts)
            == server::all_registered(
            server::registered(m, a, chan, init_child, facts),
            rest,
            chan,
            init_child,
            facts,
        ),
{
    bytes::lemma_index_from(a, 0, 0);
    if bytes::index_from(a, 0, 0) < a.len() {
        assert(a.contains(a[bytes::index_from(a, 0, 0)]));
    }
    let b = a + seq![0u8] + rest;
    assert forall|k: int| 0 <= k < a.len() implies b[k] != 0 by {
        assert(a.contains(a[k]));
    }
    bytes::lemma_index_from_unique(b, 0, 0, a.len() as int);
    assert(b.take(a.len() as int) =~= a);
    assert(b.skip(a.len() as int + 1) =~= rest);
}

/// The ends of pipes that a client had open are closed one by one: the last
/// reader of a pipe that still has writers leaves it without readers.
pub proof fn law_ends_are_closed_one_by_one(
    p: Map<u32, PipeView>,
    ends: Seq<(u32, bool)>,
    id: u32,
    write: bool,
)
    ensures
        server::ends_closed(p, ends.push((id, write))) == pipes::after_close(
            server::ends_closed(p, ends),
            id,
            write,
        ),
        p.contains_key(id) && p[id].readers == 1 && p[id].writers > 0 ==> server::ends_closed(
            p,
            seq![(id, false)],
        ).contains_key(id) && server::ends_closed(p, seq![(id, false)])[id].readers == 0,
        p.contains_key(id) && p[id].readers == 1 && p[id].writers == 1 ==> !server::ends_closed(
            p,
            seq![(id, false), (id, true)],
        ).contains_key(id),
{
    assert(ends.push((id, write)).drop_last() =~= ends);
    let one = seq![(id, false)];
    let two = seq![(id, false), (id, true)];
    assert(one.drop_last() =~= Seq::<(u32, bool)>::empty());
    assert(two.drop_last() =~= one);
    reveal_with_fuel(server::ends_closed, 3);
}

} // verus!
