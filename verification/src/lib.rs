//! A read-only floppy disk on macOS: the logic.

pub mod actor;
pub mod args;
pub mod binary64;
pub mod block_source;
pub mod bytes;
pub mod error;
pub mod fatfs_fs;
pub mod fs;
pub mod fuse_adapter;
pub mod greaseweazle_src;
pub mod gw;
pub mod image;
pub mod mac_mount;
pub mod mfm;
pub mod probe;
pub mod sorting;
pub mod text;
pub mod trdos_fs;
pub mod verify;
pub mod volume_io;
