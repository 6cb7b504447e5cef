//! Block storage: the device interface and an emulator of a device.

pub mod block;
pub mod emulator;

pub use block::{BlockError, BlockNumber, BlockStorage};
pub use emulator::{FileBlockEmulator, FileBlockEmulatorBuilder};
