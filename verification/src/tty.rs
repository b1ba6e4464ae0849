//! The terminal server: scan codes from the keyboard become bytes for whoever
//! reads the terminal, and what is written to it goes to the console.
pub mod keys;
pub mod laws;
pub mod server;
