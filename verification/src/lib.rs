//! Synchronises large files to another machine by sending only the blocks that differ.
//!
//! A file is divided into blocks of a fixed size. The server, which receives the file,
//! sends the hash of each of its blocks; the client compares them with the hashes of its
//! own blocks, and sends those that diverge; the server writes them in their place.
//!
//! The library holds the rules of both sides: the messages on the wire, the handshake,
//! which block is hashed by which worker, in which order hashes are delivered, which
//! blocks are sent and where they are written. Connections, files and threads are in the
//! hands of the program around it, which tells the library what happened and does what
//! the library answers.

pub mod blocks;
pub mod cli;
pub mod client;
pub mod common;
pub mod delta;
pub mod endian;
pub mod hash_file;
pub mod remote_start;
pub mod server;
pub mod session;
pub mod stream;
pub mod sync;
pub mod text;
pub mod utils;

pub use hash_file::HashAlgorithm;
