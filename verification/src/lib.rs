//! SimpleFS: a fixed-capacity, inode-plus-bitmap file system that lives inside
//! one block-addressable container of 64 blocks.
//!
//! The crate is layered bottom-up:
//!
//! - `layout`: the fixed geometry of a volume;
//! - `codec`, `text`: little-endian integers, and text split at separators;
//! - `io`: the block device and an emulator of one;
//! - `sb`, `allocation`, `node`: the on-disk records and their state in
//!   memory;
//! - `dir`: directory payloads and paths;
//! - `volume`: the model of a mounted volume, and `theorems` about it;
//! - `fs`: the mounted volume itself.

pub mod allocation;
pub mod codec;
pub mod dir;
pub mod fs;
pub mod io;
pub mod layout;
pub mod node;
pub mod sb;
pub mod text;
pub mod theorems;
pub mod volume;

pub use fs::OpenMode;
pub use fs::SFS;
