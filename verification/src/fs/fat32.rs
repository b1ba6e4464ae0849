//! FAT32 volumes on a source of sectors: lookup, reading, overwriting, growing
//! and creating files. Names are 8.3; long name entries are skipped;
//! directories are neither made nor removed.
pub mod create;
pub mod dir;
pub mod fat;
pub mod faults;
pub mod file;
pub mod laws;
pub mod laws_apart;
pub mod laws_create;
pub mod laws_faults;
pub mod laws_format;
pub mod laws_found;
pub mod laws_grow;
pub mod laws_list;
pub mod laws_names;
pub mod laws_trunc;
pub mod local;
pub mod mount;
pub mod types;
