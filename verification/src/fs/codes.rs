//! The numbers of the protocol between clients and the file system server.
use vstd::prelude::*;

verus! {

/// A request failed.
pub const ERR: u64 = 0xFFFF_FFFF_FFFF_FFFF;

/// The client has not registered its rings.
pub const ERR_NOHANDSHAKE: u64 = 0xFFFF_FFFF_FFFF_FFFE;

pub const ERR_EXISTS: u64 = 0xFFFF_FFFF_FFFF_FFFD;

pub const ERR_NOTFOUND: u64 = 0xFFFF_FFFF_FFFF_FFFC;

pub const ERR_ISDIR: u64 = 0xFFFF_FFFF_FFFF_FFFB;

pub const ERR_NOTDIR: u64 = 0xFFFF_FFFF_FFFF_FFFA;

pub const ERR_READONLY: u64 = 0xFFFF_FFFF_FFFF_FFF9;

pub const ERR_INVALID: u64 = 0xFFFF_FFFF_FFFF_FFF8;

pub const ERR_BUSY: u64 = 0xFFFF_FFFF_FFFF_FFF7;

/// A pipe is empty and someone may still write into it.
pub const ERR_EMPTY: u64 = 0xFFFF_FFFF_FFFF_FFF6;

/// A pipe without readers.
pub const ERR_CLOSED: u64 = 0xFFFF_FFFF_FFFF_FFF5;

// Flags of an open request.
pub const O_APPEND: u32 = 0x8;

pub const O_CREAT: u32 = 0x200;

pub const O_TRUNC: u32 = 0x400;

// Requests.
pub const R_OPEN: u32 = 1;

pub const R_READ: u32 = 2;

pub const R_WRITE: u32 = 3;

pub const R_CLOSE: u32 = 4;

pub const R_READDIR: u32 = 5;

pub const R_MKDIR: u32 = 6;

pub const R_MOUNT: u32 = 7;

pub const R_UMOUNT: u32 = 8;

pub const R_RIGHTS_DROP: u32 = 9;

pub const R_RIGHTS_GET: u32 = 10;

pub const R_DELETE: u32 = 11;

pub const R_STAT: u32 = 12;

pub const R_LSEEK: u32 = 13;

pub const R_DUP_GRANT: u32 = 14;

pub const R_DUP_CLAIM: u32 = 15;

pub const R_DUP_CANCEL: u32 = 16;

pub const R_PIPE_CREATE: u32 = 17;

pub const R_REGISTER: u32 = 18;

/// The longest path of a request.
pub const MAX_PATH: usize = 256;

/// The most data bytes of a request or a reply.
pub const MAX_DATA: usize = 4096;

// Origins of a seek request.
pub const SEEK_SET: u64 = 0;

pub const SEEK_CUR: u64 = 1;

pub const SEEK_END: u64 = 2;

// What a stat reply says of a path.
pub const STAT_FILE: u64 = 0;

pub const STAT_DIR: u64 = 1;

pub const STAT_DEVICE: u64 = 2;

pub const STAT_READONLY: u64 = 0x100;

// Requests to a device driver.
pub const DEV_OPEN: u64 = 0x20;

pub const DEV_READ: u64 = 0x21;

pub const DEV_WRITE: u64 = 0x22;

pub const DEV_CLOSE: u64 = 0x23;

pub const DEV_READDIR: u64 = 0x24;

/// Requests to the disk driver: where its rings are.
pub const DISK_HELLO: u64 = 0x50;

/// Whether there is a node.
pub const DISK_OPEN: u64 = 0x51;

pub const DISK_READ: u64 = 0x52;

pub const DISK_CLOSE: u64 = 0x53;

pub const DISK_RESOLVE: u64 = 0x54;

pub const DISK_WRITE: u64 = 0x55;

// Kinds of devices.
pub const DEV_NULL: u64 = 0;

pub const DEV_ZERO: u64 = 1;

pub const DEV_KEYBOARD: u64 = 2;

pub const DEV_CONSOLE: u64 = 3;

pub const DEV_KBD: u64 = 4;

// Rights of a channel.
pub const RIGHTS_OPEN: u32 = 0x1;

pub const RIGHTS_READ: u32 = 0x2;

pub const RIGHTS_WRITE: u32 = 0x4;

pub const RIGHTS_READDIR: u32 = 0x8;

pub const RIGHTS_MKDIR: u32 = 0x10;

pub const RIGHTS_MOUNT: u32 = 0x20;

pub const RIGHTS_UMOUNT: u32 = 0x40;

pub const RIGHTS_DELETE: u32 = 0x80;

pub const RIGHTS_SEEK: u32 = 0x100;

pub const RIGHTS_GRANT: u32 = 0x200;

pub const RIGHTS_PIPE: u32 = 0x400;

pub const RIGHTS_ALL: u32 = 0x7FF;

} // verus!
