//! What the requests of the file system server come to.
use vstd::prelude::*;

use super::nodes;
use super::nodes::{DISK_MAX_NAME, DISK_MAX_SECTORS};
use super::rings;
use super::server;
use super::server::DiskServer;
use crate::bytes;
use crate::fs::block::BlockSource;
use crate::fs::codes::ERR;
use crate::ring;
use crate::ring::Ring;

verus! {

/// Sectors that were written to a node are what a read of the same sectors of
/// the same node puts into the response.
pub proof fn law_written_sectors_are_sent_back<D: BlockSource>(
    a: DiskServer<D>,
    b: DiskServer<D>,
    c: DiskServer<D>,
    handle: u32,
    lba: u64,
    n: nat,
    data: Seq<u8>,
    behind: Seq<u8>,
    ask: Seq<u8>,
    left: Seq<u8>,
    resp0: Ring,
    resp1: Ring,
)
    requires
        1 <= n <= DISK_MAX_SECTORS,
        data.len() == 512 * n,
        server::run_of(a, handle, lba, n) is Some,
        b.disk_sectors@ == a.disk_sectors@,
        b.parts@ == a.parts@,
        server::disk_write_done(a, b, handle, lba, bytes::le_bytes(n, 8) + data + behind, 0),
        server::disk_read_done(
            b,
            c,
            handle,
            lba,
            bytes::le_bytes(n, 8) + ask,
            left,
            resp0,
            resp1,
            0,
        ),
        resp0.fits((16 + n * 512) as int),
        ({
            let (d, phys) = server::run_of(a, handle, lba, n)->0;
            0 <= d < a.disks@.len() && 0 <= phys && phys + n <= u64::MAX
        }),
    ensures
        left == ask,
        resp1@ == resp0@ + ring::response((n * 512) as u64, 0, data),
{
    let s = bytes::le_bytes(n, 8) + data + behind;
    let name = seq![65u8];
    rings::law_names_and_sectors_are_taken_whole(name, data, n, behind);
    let t = bytes::le_bytes(n, 8) + ask;
    bytes::lemma_le_bytes_len(n, 8);
    ring::lemma_pow256();
    assert(t.subrange(0, 8) =~= bytes::le_bytes(n, 8));
    bytes::lemma_le_round_trip(t, 0, n, 8);
    assert(t.skip(8) =~= ask);
    let (d, phys) = server::run_of(a, handle, lba, n)->0;
    assert(server::run_of(b, handle, lba, n) == server::run_of(a, handle, lba, n));
    let img = b.held()[d];
    let out = choose|out: Seq<u8>|
        out.len() == n * 512 && #[trigger] nodes::run_read(img, phys, n as int, out)
            && ring::writer_moved(resp0, resp1, ring::response((n * 512) as u64, 0, out)) && (
        resp0.fits((16 + n * 512) as int) ==> resp1@ == resp0@ + ring::response(
            (n * 512) as u64,
            0,
            out,
        ));
    nodes::law_written_is_read(a.disks@, b.disks@, d, phys, n, data, out);
}

/// A node that is asked for by name, serial number or label is answered by its
/// handle, and one that there is not is refused.
pub proof fn law_name_is_answered_by_its_handle<D: BlockSource>(
    a: DiskServer<D>,
    key: Seq<u8>,
    rest: Seq<u8>,
)
    requires
        0 < key.len() <= DISK_MAX_NAME,
        vstd::utf8::valid_utf8(key),
    ensures
        server::resolve_reply(a, bytes::le_bytes(key.len(), 8) + key + rest) == (
        match nodes::resolved(nodes::node_views(a.nodes@), key) {
            Some(h) => h as u64,
            None => ERR,
        }),
{
    let data = bytes::filled(0, 512);
    rings::law_names_and_sectors_are_taken_whole(key, data, 1, rest);
    bytes::lemma_le_bytes_len(key.len(), 8);
}

/// A device that was opened stands at its start under the number that was
/// answered; once closed, that number is refused.
pub proof fn law_opened_device_stands_at_its_start<D: BlockSource>(
    a: DiskServer<D>,
    b: DiskServer<D>,
    c: DiskServer<D>,
    e: DiskServer<D>,
    handle: u32,
    fd: u32,
    count: u64,
    r: u64,
    data: Option<Vec<u8>>,
)
    requires
        server::dev_open_done(a, b, handle, fd as u64),
        fd as u64 != ERR,
    ensures
        b.fds@.contains_key(fd),
        b.fds@[fd] == (handle, 0u64),
        nodes::located(handle, a.disk_sectors@, a.parts@) is Some,
        server::dev_close_done(b, c, fd, r) ==> r == 0 && !c.fds@.contains_key(fd),
        server::dev_close_done(b, c, fd, 0) && server::dev_read_done(c, e, fd, count, r, data) ==> r
            == ERR && data is None,
{
}

} // verus!
