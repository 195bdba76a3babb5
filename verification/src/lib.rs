//! A portable, safe implementation of the Apple File System (APFS) on-disk
//! format: checkpoints, object maps, B-trees, volumes, inodes and extents.
//!
//! Every parser here treats disk bytes as untrusted input: a corrupt image
//! produces an [`Error`], never a panic.

pub mod automount;
pub mod btree;
pub mod checksum;
pub mod cli;
pub mod decmpfs;
pub mod container;
pub mod device;
pub mod error;
pub mod fixture;
pub mod fs;
pub mod gpt;
pub mod hash;
pub mod mount;
pub mod obj;
pub mod omap;
pub mod raw;
pub mod release;
pub mod scan;
pub mod sector;
pub mod text;
pub mod types;
pub mod volume;

pub use container::Container;
pub use error::Error;
pub use volume::Volume;

use vstd::prelude::*;

verus! {

/// Result alias used throughout the crate.
pub type Result<T> = core::result::Result<T, Error>;

} // verus!
