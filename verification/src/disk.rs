//! The disk driver: drives, partitions, a cache of sectors, and the requests
//! that it serves.
pub mod block;
pub mod cache;
pub mod detect;
pub mod dispatch;
pub mod dma;
pub mod dma_ports;
pub mod fs_reg;
pub mod laws;
pub mod laws_nodes;
pub mod laws_requests;
pub mod laws_tables;
pub mod nodes;
pub mod part;
pub mod probe;
pub mod rings;
pub mod server;
