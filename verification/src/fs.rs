//! The file system server: volumes, files, mounts, rights and pipes.
pub mod asks;
pub mod block;
pub mod codes;
pub mod dup;
pub mod fat32;
pub mod ftable;
pub mod handlers;
pub mod ipc_disk;
pub mod laws;
pub mod laws_devices;
pub mod laws_files;
pub mod laws_requests;
pub mod mount;
pub mod mount_legacy;
pub mod notify;
pub mod pipes;
pub mod policy;
pub mod provider;
pub mod ramfs;
pub mod rights;
pub mod rings;
pub mod server;
