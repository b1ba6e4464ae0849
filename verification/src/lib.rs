//! Verified core of the Velordor userland: the file system server, the disk
//! driver, the shell, the terminal and the supervisor, without the system
//! calls around them.
//!
//! Paths, names, words of a command line and file contents are byte strings
//! (`&[u8]`, `Vec<u8>`).
use vstd::prelude::*;

pub mod bytes;
pub mod console;
pub mod devfs;
pub mod disk;
pub mod fs;
pub mod init;
pub mod kbd;
pub mod names;
pub mod programs;
pub mod ring;
pub mod shell;
pub mod tables;
pub mod text;
pub mod tty;

verus! {

} // verus!
