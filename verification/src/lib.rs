//! A FAT32 filesystem driver for raw, sector-addressed storage devices
//! partitioned with a GUID Partition Table.
//!
//! The driver owns its own sector cache with a pluggable eviction policy and
//! issues sector reads and writes through a narrow storage port; every byte
//! of on-disk data flows through the cache.

use vstd::prelude::*;

pub mod bits;
pub mod codec;
pub mod bitmap;
pub mod storage;
pub mod gpt;
pub mod fat;

verus! {

/// Number of bytes in one logical sector. This driver only supports
/// 512-byte sectors.
pub const SECTOR_BYTES: usize = 512;

} // verus!
