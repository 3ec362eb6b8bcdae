//! Index newtypes for sectors and clusters.

use vstd::prelude::*;

verus! {

/// An absolute logical block address on the device.
#[derive(Clone, Copy, PartialEq, Eq, Structural, Debug)]
pub struct SectorIdx(pub u64);

impl SectorIdx {
    /// Wraps a raw logical block address.
    pub fn new(inner: u64) -> (r: Self)
        ensures
            r.0 == inner,
    {
        SectorIdx(inner)
    }

    /// The raw logical block address.
    pub fn inner(&self) -> (r: u64)
        ensures
            r == self.0,
    {
        self.0
    }

    /// The address as a `usize`, for indexing.
    pub fn idx(&self) -> (r: usize)
        requires
            self.0 <= usize::MAX,
        ensures
            r == self.0,
    {
        self.0 as usize
    }
}

/// A FAT32 cluster number; clusters 0 and 1 are reserved, data clusters
/// begin at 2.
#[derive(Clone, Copy, PartialEq, Eq, Structural, Debug)]
pub struct ClusterIdx(pub u32);

impl ClusterIdx {
    /// Wraps a raw cluster number.
    pub fn new(inner: u32) -> (r: Self)
        ensures
            r.0 == inner,
    {
        ClusterIdx(inner)
    }

    /// The raw cluster number.
    pub fn inner(&self) -> (r: u32)
        ensures
            r == self.0,
    {
        self.0
    }

    /// The first sector of this cluster, counted from the start of the data
    /// area, for `sectors_in_a_cluster` sectors per cluster.
    pub fn sector_offset(&self, sectors_in_a_cluster: u8) -> (r: SectorIdx)
        ensures
            r.0 == self.0 * sectors_in_a_cluster,
    {
        let a = self.0 as u64;
        let b = sectors_in_a_cluster as u64;
        proof {
            assert(a * b <= 0xFFFF_FFFFu64 * 0xFFu64) by (nonlinear_arith)
                requires a <= 0xFFFF_FFFF, b <= 0xFF;
        }
        SectorIdx::new(a * b)
    }
}

} // verus!
