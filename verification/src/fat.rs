//! The FAT32 filesystem proper: the mounted volume, its sector cache, the
//! FAT table engine and the directory machinery.

use vstd::prelude::*;

use crate::fat::cache::SectorCache;
use crate::storage::Storage;
use crate::fat::types::{ClusterIdx, SectorIdx};
use crate::fat::boot_sector::BootSector;
use crate::fat::dir::{cluster_of_halves, state_spec, DirEntry, DirIter, FileExt, FileName, State};
use crate::fat::cache::EvictionPolicy;
use crate::gpt::{microsoft_basic_data_spec, Guid, PartitionEntry};

pub mod types;
pub mod boot_sector;
pub mod cache;
pub mod dir;
pub mod table;
pub mod file;

verus! {

/// Why a filesystem operation failed.
#[derive(Clone, Copy, PartialEq, Eq, Structural, Debug)]
pub enum FsError {
    /// A sector or byte index fell outside the partition or device.
    OutOfRange,
    /// A path component was missing.
    NotFound,
    /// A path component that should have been a directory was not one.
    NotADirectory,
    /// The entry found was not a plain file.
    NotAFile,
    /// The storage device reported an error.
    StorageError,
    /// No entry could be evicted from the cache.
    EvictionImpossible,
    /// The chain tracer was asked to grow before it reached the chain's end.
    GrowWithoutEnd,
    /// The directory iterator was asked to add an entry before it reached
    /// the directory's end.
    AddWithoutEnd,
    /// The free-cluster scan swept the whole FAT without finding a free
    /// cluster.
    DiskFull,
    /// A directory or cluster chain did not end within the bounds the
    /// volume's own geometry allows.
    CorruptChain,
}

/// Number of FAT-table entries held by one 512-byte sector.
pub const FAT_ENTRIES_PER_SECTOR: u64 = 128;

/// A mounted FAT32 volume: the partition's geometry, decoded from its boot
/// sector, and the sector cache every read and write flows through.
pub struct FatFs {
    /// First sector of the partition on the device.
    pub starting_lba: SectorIdx,
    /// Last sector of the partition on the device, inclusive.
    pub ending_lba: SectorIdx,
    pub num_sectors: u64,
    /// Always 512 for this driver.
    pub sector_size_in_bytes: u16,
    pub fat_table_size_in_sectors: u32,
    /// Only the first FAT is read or updated.
    pub num_fat_tables: u8,
    pub cluster_size_in_sectors: u8,
    pub fat_starting_sector: SectorIdx,
    pub root_dir_cluster_num: ClusterIdx,
    /// A hint only; the truth is the FAT table.
    pub next_known_free_cluster: ClusterIdx,
    pub cache: SectorCache,
}

impl FatFs {
    /// The number of clusters the FAT table describes.
    pub open spec fn num_clusters_spec(self) -> u64 {
        (self.fat_table_size_in_sectors * FAT_ENTRIES_PER_SECTOR) as u64
    }

    /// The volume's internal consistency: 512-byte sectors, sane geometry
    /// that keeps all address math in bounds, a FAT lying inside the
    /// partition, and a well-formed cache serving exactly the partition.
    pub open spec fn wf(self) -> bool {
        &&& self.cache.wf()
        &&& self.cache.max_sector() == self.ending_lba
        &&& self.sector_size_in_bytes == 512
        &&& 1 <= self.cluster_size_in_sectors
        &&& 1 <= self.num_fat_tables
        &&& 1 <= self.fat_table_size_in_sectors
        &&& self.fat_table_size_in_sectors <= 0x200_0000
        &&& self.starting_lba.0 <= self.ending_lba.0
        &&& self.ending_lba.0 < 0x1_0000_0000_0000
        &&& self.starting_lba.0 <= self.fat_starting_sector.0
        &&& self.fat_starting_sector.0 + self.fat_table_size_in_sectors <= self.ending_lba.0 + 1
        &&& self.next_known_free_cluster.0 < self.num_clusters_spec()
    }

    /// Whether the volume agrees with the disk it was mounted on.
    pub open spec fn consistent(self, disk: Seq<Seq<u8>>) -> bool {
        self.cache.consistent(disk)
    }

    /// The volume's effective disk: the physical disk overlaid with the
    /// cache's dirty sectors.
    pub open spec fn edisk(self, disk: Seq<Seq<u8>>) -> Seq<Seq<u8>> {
        self.cache.edisk(disk)
    }

    /// Whether `b` keeps the geometry and policy of `a`: everything but
    /// the cached sectors and the free-cluster hint.
    pub open spec fn same_geometry(a: FatFs, b: FatFs) -> bool {
        &&& b.starting_lba == a.starting_lba
        &&& b.ending_lba == a.ending_lba
        &&& b.num_sectors == a.num_sectors
        &&& b.sector_size_in_bytes == a.sector_size_in_bytes
        &&& b.fat_table_size_in_sectors == a.fat_table_size_in_sectors
        &&& b.num_fat_tables == a.num_fat_tables
        &&& b.cluster_size_in_sectors == a.cluster_size_in_sectors
        &&& b.fat_starting_sector == a.fat_starting_sector
        &&& b.root_dir_cluster_num == a.root_dir_cluster_num
        &&& b.cache.max_sector() == a.cache.max_sector()
        &&& b.cache.policy_spec() == a.cache.policy_spec()
        &&& b.cache.cap_spec() == a.cache.cap_spec()
    }

    /// The number of bytes a cluster spans.
    pub open spec fn bytes_in_a_cluster_spec(self) -> u32 {
        (self.cluster_size_in_sectors * 512) as u32
    }

    /// The number of bytes a cluster spans.
    pub fn bytes_in_a_cluster(&self) -> (r: u32)
        requires
            self.wf(),
        ensures
            r == self.bytes_in_a_cluster_spec(),
    {
        (self.cluster_size_in_sectors as u32) * (self.sector_size_in_bytes as u32)
    }

    /// The device sector holding cluster `c`'s FAT entry.
    pub open spec fn table_pos_sector_spec(self, c: u32) -> int {
        self.fat_starting_sector.0 + c as int / 128
    }

    /// The byte offset of cluster `c`'s FAT entry within its sector.
    pub open spec fn table_pos_offset_spec(self, c: u32) -> int {
        (c as int % 128) * 4
    }

    /// Cluster index to the corresponding FAT table entry's sector and
    /// byte offset: FAT32 stores one 4-byte entry per cluster, 128 to a
    /// sector.
    pub fn cluster_to_table_pos(&self, idx: ClusterIdx) -> (r: (SectorIdx, u16))
        requires
            self.wf(),
        ensures
            r.0.0 == self.table_pos_sector_spec(idx.0),
            r.1 == self.table_pos_offset_spec(idx.0),
            r.1 < 512,
    {
        FatFs::cluster_to_table_pos_inner(
            self.sector_size_in_bytes,
            self.fat_starting_sector,
            idx,
        )
    }

    /// As [`FatFs::cluster_to_table_pos`], from the raw geometry.
    pub fn cluster_to_table_pos_inner(
        sector_size_in_bytes: u16,
        fat_starting_sector: SectorIdx,
        idx: ClusterIdx,
    ) -> (r: (SectorIdx, u16))
        requires
            sector_size_in_bytes == 512,
            fat_starting_sector.0 < 0x1_0000_0000_0000,
        ensures
            r.0.0 == fat_starting_sector.0 + idx.0 as int / 128,
            r.1 == (idx.0 as int % 128) * 4,
            r.1 < 512,
    {
        let cluster_entries_per_fat_sector: u64 = (sector_size_in_bytes as u64) / 4;
        let sector_idx = fat_starting_sector.inner() + (idx.inner() as u64)
            / cluster_entries_per_fat_sector;
        let byte_offset = (idx.inner() as u64) % cluster_entries_per_fat_sector;
        let byte_offset = byte_offset * 4;
        (SectorIdx::new(sector_idx), byte_offset as u16)
    }

    /// The first device sector of cluster `c`'s data.
    pub open spec fn cluster_start_sector_spec(self, c: u32) -> int {
        self.fat_starting_sector.0 + self.fat_table_size_in_sectors as int
            * self.num_fat_tables as int + c as int * self.cluster_size_in_sectors as int
    }

    /// The device sector and in-sector offset of byte `offset` of cluster
    /// `idx`'s data. The data area begins after every FAT copy.
    pub fn cluster_to_sector(&self, idx: ClusterIdx, offset: u32) -> (r: (SectorIdx, u16))
        requires
            self.wf(),
        ensures
            r.0.0 == self.cluster_start_sector_spec(idx.0) + offset as int / 512,
            r.1 == offset as int % 512,
            r.1 < 512,
    {
        let a = idx.inner() as u64;
        let b = self.cluster_size_in_sectors as u64;
        let c = self.fat_table_size_in_sectors as u64;
        let d = self.num_fat_tables as u64;
        proof {
            assert(a * b <= 0xFFFF_FFFFu64 * 0xFFu64) by (nonlinear_arith)
                requires a <= 0xFFFF_FFFF, b <= 0xFF;
            assert(c * d <= 0xFFFF_FFFFu64 * 0xFFu64) by (nonlinear_arith)
                requires c <= 0xFFFF_FFFF, d <= 0xFF;
        }
        let sector_idx = a * b;
        let sector_idx = sector_idx + (offset as u64) / (self.sector_size_in_bytes as u64);
        let sector_idx = sector_idx + self.fat_starting_sector.inner() + c * d;
        let sector_idx = SectorIdx::new(sector_idx);
        let off = offset % (self.sector_size_in_bytes as u32);
        (sector_idx, off as u16)
    }

    /// The sectors spanned by cluster `idx`: the half-open range from the
    /// first returned sector to the second.
    pub fn cluster_to_sector_range(&self, idx: ClusterIdx) -> (r: (SectorIdx, SectorIdx))
        requires
            self.wf(),
        ensures
            r.0.0 == self.cluster_start_sector_spec(idx.0),
            r.1.0 == self.cluster_start_sector_spec(idx.0) + self.cluster_size_in_sectors,
    {
        let (start, _) = self.cluster_to_sector(idx, 0);
        proof {
            let f = self.fat_starting_sector.0 as int;
            let c = self.fat_table_size_in_sectors as int;
            let d = self.num_fat_tables as int;
            let a = idx.0 as int;
            let b = self.cluster_size_in_sectors as int;
            assert(f + c * d + a * b + 0x100 < 0x4000_0000_0000_0000) by (nonlinear_arith)
                requires
                    0 <= f < 0x1_0000_0000_0000,
                    0 <= c <= 0xFFFF_FFFF,
                    0 <= d <= 0xFF,
                    0 <= a <= 0xFFFF_FFFF,
                    0 <= b <= 0xFF;
            assert(start.0 == self.cluster_start_sector_spec(idx.0));
            assert(start.0 == f + c * d + a * b);
            assert(start.0 + self.cluster_size_in_sectors < 0x4000_0000_0000_0000);
        }
        let csis = self.cluster_size_in_sectors as u64;
        let first = start.inner();
        proof {
            assert(first == start.0);
            assert(first + csis < 0x4000_0000_0000_0000);
        }
        let last = first + csis;
        (start, SectorIdx::new(last))
    }

    /// Whether a byte range starting at `offset` of `sector`, `len` bytes
    /// long, lies inside the partition: the offset must fall inside its
    /// sector and the last touched sector must not pass `ending_lba`.
    pub open spec fn range_ok_spec(self, sector: SectorIdx, offset: int, len: int) -> bool {
        &&& 0 <= offset < 512
        &&& self.starting_lba.0 <= sector.0
        &&& (if len > 0 {
            sector.0 + (offset + len - 1) / 512 <= self.ending_lba.0
        } else {
            sector.0 <= self.ending_lba.0
        })
    }

    /// Bounds-checks a byte range against the partition.
    fn range_chk(&self, sector: SectorIdx, offset: u16, len: usize) -> (r: Result<(), ()>)
        requires
            self.wf(),
        ensures
            r is Ok <==> self.range_ok_spec(sector, offset as int, len as int),
    {
        if offset >= self.sector_size_in_bytes {
            return Err(());
        }
        if (len as u64) >= 0x400_0000_0000_0000u64 {
            // A range this long cannot end inside any partition this
            // driver accepts.
            proof {
                vstd::arithmetic::div_mod::lemma_div_is_ordered(
                    len - 1,
                    offset + len - 1,
                    512,
                );
                vstd::arithmetic::div_mod::lemma_div_is_ordered(
                    0x400_0000_0000_0000 - 1,
                    len - 1,
                    512,
                );
                vstd::arithmetic::div_mod::lemma_fundamental_div_mod_converse(
                    0x400_0000_0000_0000 - 1,
                    512,
                    0x2_0000_0000_0000 - 1,
                    511,
                );
            }
            return Err(());
        }
        if sector.inner() < self.starting_lba.inner() {
            return Err(());
        }
        if len == 0 {
            if sector.inner() <= self.ending_lba.inner() {
                return Ok(());
            } else {
                return Err(());
            }
        }
        if sector.inner() > u64::MAX / 2 {
            proof {
                assert((offset + len - 1) as int / 512 >= 0) by (nonlinear_arith)
                    requires offset + len >= 1;
            }
            return Err(());
        }
        let last = sector.inner() + ((offset as u64) + (len as u64) - 1) / 512;
        if last <= self.ending_lba.inner() {
            Ok(())
        } else {
            Err(())
        }
    }
}

/// Whether every sector a byte-range walk touches is already cached.
pub open spec fn range_cached_spec(fs: FatFs, sector: SectorIdx, offset: int, len: int) -> bool {
    forall|j: int|
        sector.0 <= j <= sector.0 + (if len > 0 {
            (offset + len - 1) / 512
        } else {
            0int
        }) ==> #[trigger] fs.cache.has_sector(SectorIdx(j as u64))
}

/// The byte `i` positions after byte `offset` of `sector`, read off the
/// sector sequence `e` (sectors are 512 bytes; the walk runs into the
/// following sectors).
pub open spec fn edisk_byte(e: Seq<Seq<u8>>, sector: int, offset: int, i: int) -> u8 {
    e[sector + (offset + i) / 512][(offset + i) % 512]
}

/// Whether sector `j`, byte `k` lies inside the `len`-byte range starting
/// at byte `offset` of `sector`.
pub open spec fn range_covers(sector: int, offset: int, len: int, j: int, k: int) -> bool {
    0 <= j * 512 + k - (sector * 512 + offset) < len
}

/// The data byte that the range write lays down at sector `j`, byte `k`.
pub open spec fn range_byte(sector: int, offset: int, d: Seq<u8>, j: int, k: int) -> u8 {
    d[j * 512 + k - (sector * 512 + offset)]
}

/// Whether `e1` is `e0` with exactly the first `n` bytes of `d` laid down
/// starting at byte `offset` of `sector`.
pub open spec fn wrote_prefix(
    e0: Seq<Seq<u8>>,
    e1: Seq<Seq<u8>>,
    sector: int,
    offset: int,
    d: Seq<u8>,
    n: int,
) -> bool {
    forall|j: int, k: int|
        #![trigger e1[j][k]]
        0 <= j < e0.len() && 0 <= k < 512 ==> e1[j][k] == (if range_covers(
            sector,
            offset,
            n,
            j,
            k,
        ) {
            range_byte(sector, offset, d, j, k)
        } else {
            e0[j][k]
        })
}

/// A byte `i` positions into a freshly written range reads the written
/// data, expressed through the walking sector/offset pair.
pub proof fn lemma_byte_of_range(sector: int, offset: int, d: Seq<u8>, i: int)
    requires
        0 <= offset < 512,
        0 <= i < d.len(),
    ensures
        range_covers(sector, offset, d.len() as int, sector + (offset + i) / 512, (offset + i)
            % 512),
        range_byte(sector, offset, d, sector + (offset + i) / 512, (offset + i) % 512) == d[i],
{
    lemma_walk_pos(sector, offset, i, sector + (offset + i) / 512, (offset + i) % 512);
}

/// Splitting a walk at a sector boundary lands on the same byte: walking
/// `offset + i` bytes from a sector equals walking `i` bytes from the
/// sector and offset that `offset` alone reaches.
pub proof fn lemma_split_walk(base: int, offset: int, i: int)
    requires
        0 <= offset,
        0 <= i,
    ensures
        base + (offset + i) / 512 == (base + offset / 512) + (offset % 512 + i) / 512,
        (offset + i) % 512 == (offset % 512 + i) % 512,
{
    vstd::arithmetic::div_mod::lemma_fundamental_div_mod(offset, 512);
    vstd::arithmetic::div_mod::lemma_fundamental_div_mod(offset % 512 + i, 512);
    vstd::arithmetic::div_mod::lemma_fundamental_div_mod_converse(
        offset + i,
        512,
        offset / 512 + (offset % 512 + i) / 512,
        (offset % 512 + i) % 512,
    );
}

/// Walking one byte forward moves to the next sector exactly at a sector
/// boundary.
proof fn lemma_walk_step(p: int)
    requires
        p >= 0,
    ensures
        (p + 1) / 512 == (if p % 512 == 511 { p / 512 + 1 } else { p / 512 }),
        (p + 1) % 512 == (if p % 512 == 511 { 0int } else { p % 512 + 1 }),
{
    vstd::arithmetic::div_mod::lemma_fundamental_div_mod(p, 512);
    if p % 512 == 511 {
        vstd::arithmetic::div_mod::lemma_fundamental_div_mod_converse(p + 1, 512, p / 512 + 1, 0);
    } else {
        vstd::arithmetic::div_mod::lemma_fundamental_div_mod_converse(
            p + 1,
            512,
            p / 512,
            p % 512 + 1,
        );
    }
}

/// A byte's sector and in-sector offset determine its position in the
/// walked range, and conversely.
pub proof fn lemma_walk_pos(sector: int, offset: int, i: int, j: int, k: int)
    requires
        0 <= offset,
        0 <= i,
        0 <= k < 512,
        j == sector + (offset + i) / 512,
        k == (offset + i) % 512,
    ensures
        j * 512 + k - (sector * 512 + offset) == i,
{
    vstd::arithmetic::div_mod::lemma_fundamental_div_mod(offset + i, 512);
    assert((sector + (offset + i) / 512) * 512 == sector * 512 + ((offset + i) / 512) * 512)
        by (nonlinear_arith);
}

impl FatFs {
    /// Reads `buffer.len()` bytes of the effective disk, starting at byte
    /// `offset` of `sector` and walking into the following sectors, one
    /// cache access per byte.
    #[verifier::rlimit(100)]
    pub fn read<S: Storage>(
        &mut self,
        s: &mut S,
        sector: SectorIdx,
        offset: u16,
        buffer: &mut Vec<u8>,
    ) -> (r: Result<(), FsError>)
        requires
            old(self).wf(),
            old(self).consistent(old(s).disk()),
        ensures
            final(self).wf(),
            final(self).consistent(final(s).disk()),
            FatFs::same_geometry(*old(self), *final(self)),
            final(self).next_known_free_cluster == old(self).next_known_free_cluster,
            final(s).disk().len() == old(s).disk().len(),
            final(self).edisk(final(s).disk()) == old(self).edisk(old(s).disk()),
            final(buffer)@.len() == old(buffer)@.len(),
            forall|j: int|
                #![trigger final(s).disk()[j]]
                0 <= j < old(s).disk().len() && final(s).disk()[j] != old(s).disk()[j] ==> final(s).disk()[j] == old(self).edisk(old(s).disk())[j],
            r is Ok ==> forall|i: int|
                #![trigger final(buffer)@[i]]
                0 <= i < old(buffer)@.len() ==> final(buffer)@[i] == edisk_byte(
                    old(self).edisk(old(s).disk()),
                    sector.0 as int,
                    offset as int,
                    i,
                ),
            // A range whose sectors are all cached is served without any
            // device call, so the read cannot fail.
            old(self).range_ok_spec(sector, offset as int, old(buffer)@.len() as int)
                && range_cached_spec(*old(self), sector, offset as int, old(buffer)@.len() as int)
                ==> r is Ok,
            !old(self).range_ok_spec(sector, offset as int, old(buffer)@.len() as int) <==> r
                == Err::<(), FsError>(FsError::OutOfRange),
            r is Err ==> r == Err::<(), FsError>(FsError::OutOfRange) || r == Err::<(), FsError>(
                FsError::StorageError,
            ),
    {
        let ghost edisk0 = old(self).edisk(old(s).disk());
        let ghost disk0 = s.disk();
        let len = buffer.len();
        match self.range_chk(sector, offset, len) {
            Ok(()) => {},
            Err(()) => {
                return Err(FsError::OutOfRange);
            },
        }
        let _device_sectors = s.capacity();
        proof {
            self.cache.lemma_edisk_shape(disk0);
        }
        let ghost all_cached = range_cached_spec(*old(self), sector, offset as int,
            len as int);
        let mut cur_sector = sector;
        let mut cur_off: u16 = offset;
        let mut i: usize = 0;
        while i < len
            invariant
                self.wf(),
                self.consistent(s.disk()),
                FatFs::same_geometry(*old(self), *self),
                self.next_known_free_cluster == old(self).next_known_free_cluster,
                i <= len,
                buffer@.len() == len,
                len == old(buffer)@.len(),
                disk0 == old(s).disk(),
                edisk0 == old(self).edisk(disk0),
                s.disk().len() == disk0.len(),
                self.edisk(s.disk()) == edisk0,
                old(self).range_ok_spec(sector, offset as int, len as int),
                offset < 512,
                cur_sector.0 == sector.0 + (offset + i) as int / 512,
                cur_off == (offset + i) as int % 512,
                all_cached == range_cached_spec(*old(self), sector, offset as int, len as int),
                all_cached ==> range_cached_spec(*self, sector, offset as int, len as int),
                forall|j: int|
                    #![trigger s.disk()[j]]
                    0 <= j < disk0.len() && s.disk()[j] != disk0[j] ==> s.disk()[j] == edisk0[j],
                forall|k: int|
                    #![trigger buffer@[k]]
                    0 <= k < i ==> buffer@[k] == edisk_byte(
                        edisk0,
                        sector.0 as int,
                        offset as int,
                        k,
                    ),
            decreases len - i,
        {
            proof {
                vstd::arithmetic::div_mod::lemma_div_is_ordered(
                    offset + i,
                    offset + len - 1,
                    512,
                );
                assert(cur_sector.0 <= self.ending_lba.0);
            }
            let ghost selfp = *self;
            let ghost diskp = s.disk();
            proof {
                if all_cached {
                    let gj: int = cur_sector.0 as int;
                    assert(selfp.cache.has_sector(SectorIdx(gj as u64)));
                    assert(SectorIdx(gj as u64) == cur_sector);
                    assert(selfp.cache.has_sector(cur_sector));
                }
            }
            let b = match self.cache.get_byte(s, cur_sector, cur_off as usize) {
                Ok(b) => b,
                Err(_) => {
                    proof {
                        assert(!all_cached);
                        assert forall|j: int|
                            0 <= j < disk0.len() && s.disk()[j] != disk0[j] implies
                            #[trigger] s.disk()[j] == edisk0[j] by {
                            if s.disk()[j] != diskp[j] {
                                let x = SectorIdx(j as u64);
                                assert(s.disk()[j] == selfp.cache.contents(x));
                                assert(selfp.edisk(diskp)[j] == selfp.cache.contents(x));
                            }
                        }
                    }
                    return Err(FsError::StorageError);
                },
            };
            proof {
                if all_cached {
                    assert forall|j: int|
                        sector.0 <= j <= sector.0 + (if len > 0 {
                            (offset + len - 1) as int / 512
                        } else {
                            0int
                        }) implies #[trigger] self.cache.has_sector(SectorIdx(j as u64)) by {
                        assert(selfp.cache.has_sector(SectorIdx(j as u64)));
                    }
                    assert(range_cached_spec(*self, sector, offset as int, len as int));
                }
                assert forall|j: int|
                    0 <= j < disk0.len() && s.disk()[j] != disk0[j] implies #[trigger] s.disk()[j]
                    == edisk0[j] by {
                    if s.disk()[j] != diskp[j] {
                        let x = SectorIdx(j as u64);
                        assert(s.disk()[j] == selfp.cache.contents(x));
                        assert(selfp.edisk(diskp)[j] == selfp.cache.contents(x));
                    }
                }
            }
            buffer[i] = b;
            i = i + 1;
            cur_off = cur_off + 1;
            proof {
                lemma_walk_step((offset + i - 1) as int);
            }
            if cur_off == 512 {
                cur_off = 0;
                cur_sector = SectorIdx::new(cur_sector.inner() + 1);
            }
        }
        Ok(())
    }

    /// Writes `data` onto the effective disk, starting at byte `offset`
    /// of `sector` and walking into the following sectors; the physical
    /// disk changes only through eviction write-backs. On overrun nothing
    /// is written at all: the bounds are checked up front.
    #[verifier::rlimit(100)]
    pub fn write_iter<S: Storage>(
        &mut self,
        s: &mut S,
        sector: SectorIdx,
        offset: u16,
        data: &[u8],
    ) -> (r: Result<(), FsError>)
        requires
            old(self).wf(),
            old(self).consistent(old(s).disk()),
        ensures
            final(self).wf(),
            final(self).consistent(final(s).disk()),
            FatFs::same_geometry(*old(self), *final(self)),
            final(self).next_known_free_cluster == old(self).next_known_free_cluster,
            final(s).disk().len() == old(s).disk().len(),
            r is Ok ==> {
                let e0 = old(self).edisk(old(s).disk());
                let e1 = final(self).edisk(final(s).disk());
                &&& e1.len() == e0.len()
                &&& (forall|j: int| 0 <= j < e0.len() ==> (#[trigger] e1[j]).len() == e0[j].len())
                &&& (forall|j: int, k: int|
                    #![trigger e1[j][k]]
                    0 <= j < e0.len() && 0 <= k < 512 ==> e1[j][k] == (if range_covers(
                        sector.0 as int,
                        offset as int,
                        data@.len() as int,
                        j,
                        k,
                    ) {
                        range_byte(sector.0 as int, offset as int, data@, j, k)
                    } else {
                        e0[j][k]
                    }))
            },
            r == Err::<(), FsError>(FsError::OutOfRange) ==> final(self).edisk(final(s).disk())
                == old(self).edisk(old(s).disk()),
            // On a device failure the bytes already written remain: the
            // effective disk holds some prefix of the data.
            r == Err::<(), FsError>(FsError::StorageError) ==> (exists|n: int|
                #![trigger wrote_prefix(
                    old(self).edisk(old(s).disk()),
                    final(self).edisk(final(s).disk()),
                    sector.0 as int,
                    offset as int,
                    data@,
                    n,
                )]
                0 <= n <= data@.len() && wrote_prefix(
                    old(self).edisk(old(s).disk()),
                    final(self).edisk(final(s).disk()),
                    sector.0 as int,
                    offset as int,
                    data@,
                    n,
                )),
            !old(self).range_ok_spec(sector, offset as int, data@.len() as int) <==> r
                == Err::<(), FsError>(FsError::OutOfRange),
            r is Err ==> r == Err::<(), FsError>(FsError::OutOfRange) || r == Err::<(), FsError>(
                FsError::StorageError,
            ),
            // With the whole range already cached, nothing touches the
            // device, so the write cannot fail.
            old(self).range_ok_spec(sector, offset as int, data@.len() as int)
                && range_cached_spec(*old(self), sector, offset as int, data@.len() as int)
                ==> r is Ok,
            // Written sectors are dirtied: every touched sector still
            // cached afterwards is dirty, and the last one written is
            // still cached.
            r is Ok && data@.len() > 0 ==> (forall|j: int|
                sector.0 <= j <= sector.0 + (offset + data@.len() - 1) as int / 512
                    && (#[trigger] final(self).cache.has_sector(SectorIdx(j as u64)))
                    ==> final(self).cache.sector_dirty(SectorIdx(j as u64))),
            r is Ok && data@.len() > 0 ==> final(self).cache.has_sector(
                SectorIdx((sector.0 + (offset + data@.len() - 1) as int / 512) as u64),
            ) && final(self).cache.sector_dirty(
                SectorIdx((sector.0 + (offset + data@.len() - 1) as int / 512) as u64),
            ),
    {
        let ghost edisk0 = old(self).edisk(old(s).disk());
        let ghost disk0 = s.disk();
        let len = data.len();
        match self.range_chk(sector, offset, len) {
            Ok(()) => {},
            Err(()) => {
                return Err(FsError::OutOfRange);
            },
        }
        let _device_sectors = s.capacity();
        proof {
            self.cache.lemma_edisk_shape(disk0);
        }
        let ghost all_cached = range_cached_spec(*old(self), sector, offset as int,
            len as int);
        let mut cur_sector = sector;
        let mut cur_off: u16 = offset;
        let mut i: usize = 0;
        while i < len
            invariant
                self.wf(),
                self.consistent(s.disk()),
                FatFs::same_geometry(*old(self), *self),
                self.next_known_free_cluster == old(self).next_known_free_cluster,
                i <= len,
                data@.len() == len,
                disk0 == old(s).disk(),
                edisk0 == old(self).edisk(disk0),
                s.disk().len() == disk0.len(),
                old(self).range_ok_spec(sector, offset as int, len as int),
                all_cached == range_cached_spec(*old(self), sector, offset as int, len as int),
                all_cached ==> range_cached_spec(*self, sector, offset as int, len as int),
                i > 0 ==> (forall|j: int|
                    sector.0 <= j <= sector.0 + (offset + i - 1) as int / 512 && (
                    #[trigger] self.cache.has_sector(SectorIdx(j as u64)))
                        ==> self.cache.sector_dirty(SectorIdx(j as u64))),
                i > 0 ==> self.cache.has_sector(
                    SectorIdx((sector.0 + (offset + i - 1) as int / 512) as u64),
                ) && self.cache.sector_dirty(
                    SectorIdx((sector.0 + (offset + i - 1) as int / 512) as u64),
                ),
                offset < 512,
                cur_sector.0 == sector.0 + (offset + i) as int / 512,
                cur_off == (offset + i) as int % 512,
                self.edisk(s.disk()).len() == edisk0.len(),
                forall|j: int| 0 <= j < edisk0.len() ==> (#[trigger] edisk0[j]).len() == 512,
                forall|j: int|
                    0 <= j < edisk0.len() ==> (#[trigger] self.edisk(s.disk())[j]).len()
                        == edisk0[j].len(),
                forall|j: int, k: int|
                    #![trigger self.edisk(s.disk())[j][k]]
                    0 <= j < edisk0.len() && 0 <= k < 512 ==> self.edisk(s.disk())[j][k] == (
                    if range_covers(sector.0 as int, offset as int, i as int, j, k) {
                        range_byte(sector.0 as int, offset as int, data@, j, k)
                    } else {
                        edisk0[j][k]
                    }),
            decreases len - i,
        {
            proof {
                vstd::arithmetic::div_mod::lemma_div_is_ordered(
                    offset + i,
                    offset + len - 1,
                    512,
                );
                assert(cur_sector.0 <= self.ending_lba.0);
            }
            let ghost eprev = self.edisk(s.disk());
            let ghost selfp = *self;
            proof {
                if all_cached {
                    let gj: int = cur_sector.0 as int;
                    assert(selfp.cache.has_sector(SectorIdx(gj as u64)));
                    assert(SectorIdx(gj as u64) == cur_sector);
                    assert(selfp.cache.has_sector(cur_sector));
                }
            }
            let b = data[i];
            match self.cache.write_byte(s, cur_sector, cur_off as usize, b) {
                Ok(()) => {},
                Err(_) => {
                    proof {
                        assert(!all_cached);
                        assert(self.edisk(s.disk()) == eprev);
                        assert(wrote_prefix(
                            edisk0,
                            self.edisk(s.disk()),
                            sector.0 as int,
                            offset as int,
                            data@,
                            i as int,
                        ));
                    }
                    return Err(FsError::StorageError);
                },
            }
            proof {
                if all_cached {
                    assert forall|j: int|
                        sector.0 <= j <= sector.0 + (if len > 0 {
                            (offset + len - 1) as int / 512
                        } else {
                            0int
                        }) implies #[trigger] self.cache.has_sector(SectorIdx(j as u64)) by {
                        assert(selfp.cache.has_sector(SectorIdx(j as u64)));
                    }
                    assert(range_cached_spec(*self, sector, offset as int, len as int));
                }
                // The sector just written is cached and dirty; earlier
                // touched sectors that are still cached stay dirty.
                vstd::arithmetic::div_mod::lemma_div_is_ordered(
                    offset as int + i - 1,
                    offset as int + i,
                    512,
                );
                assert((offset + i) as int / 512 <= (offset as int + i - 1) / 512 + 1) by {
                    vstd::arithmetic::div_mod::lemma_fundamental_div_mod(
                        offset as int + i - 1,
                        512,
                    );
                    vstd::arithmetic::div_mod::lemma_fundamental_div_mod(
                        offset as int + i,
                        512,
                    );
                }
                assert forall|j: int|
                    sector.0 <= j <= sector.0 + (offset + i) as int / 512 && (
                    #[trigger] self.cache.has_sector(SectorIdx(j as u64))) implies
                    self.cache.sector_dirty(SectorIdx(j as u64)) by {
                    let x = SectorIdx(j as u64);
                    if j == cur_sector.0 as int {
                    } else {
                        assert(selfp.cache.has_sector(x));
                        assert(i > 0 ==> j <= sector.0 + (offset as int + i - 1) / 512);
                        assert(selfp.cache.sector_dirty(x));
                    }
                }
                assert(self.cache.has_sector(
                    SectorIdx((sector.0 + (offset + i) as int / 512) as u64),
                ) && self.cache.sector_dirty(
                    SectorIdx((sector.0 + (offset + i) as int / 512) as u64),
                )) by {
                    assert(cur_sector.0 as int == sector.0 + (offset + i) as int / 512);
                }
                lemma_walk_pos(sector.0 as int, offset as int, i as int, cur_sector.0 as int,
                    cur_off as int);
                let enow = self.edisk(s.disk());
                assert(enow == eprev.update(
                    cur_sector.0 as int,
                    eprev[cur_sector.0 as int].update(cur_off as int, b),
                ));
                assert forall|j: int, k: int|
                    #![trigger enow[j][k]]
                    0 <= j < edisk0.len() && 0 <= k < 512 implies enow[j][k] == (if range_covers(
                    sector.0 as int,
                    offset as int,
                    (i + 1) as int,
                    j,
                    k,
                ) {
                    range_byte(sector.0 as int, offset as int, data@, j, k)
                } else {
                    edisk0[j][k]
                }) by {
                    let p = j * 512 + k - (sector.0 as int * 512 + offset);
                    if j == cur_sector.0 as int && k == cur_off as int {
                        assert(p == i);
                    } else {
                        assert(enow[j][k] == eprev[j][k]);
                        if p == i as int {
                            lemma_walk_pos(sector.0 as int, offset as int, i as int, j, k)
                                ;
                            assert(false);
                        }
                    }
                }
            }
            i = i + 1;
            cur_off = cur_off + 1;
            proof {
                lemma_walk_step((offset + i - 1) as int);
            }
            if cur_off == 512 {
                cur_off = 0;
                cur_sector = SectorIdx::new(cur_sector.inner() + 1);
            }
        }
        Ok(())
    }

    /// Writes `buffer` onto the effective disk, starting at byte `offset`
    /// of `sector`.
    pub fn write<S: Storage>(
        &mut self,
        s: &mut S,
        sector: SectorIdx,
        offset: u16,
        buffer: &[u8],
    ) -> (r: Result<(), FsError>)
        requires
            old(self).wf(),
            old(self).consistent(old(s).disk()),
        ensures
            final(self).wf(),
            final(self).consistent(final(s).disk()),
            FatFs::same_geometry(*old(self), *final(self)),
            final(self).next_known_free_cluster == old(self).next_known_free_cluster,
            final(s).disk().len() == old(s).disk().len(),
            r is Ok ==> {
                let e0 = old(self).edisk(old(s).disk());
                let e1 = final(self).edisk(final(s).disk());
                &&& e1.len() == e0.len()
                &&& (forall|j: int| 0 <= j < e0.len() ==> (#[trigger] e1[j]).len() == e0[j].len())
                &&& (forall|j: int, k: int|
                    #![trigger e1[j][k]]
                    0 <= j < e0.len() && 0 <= k < 512 ==> e1[j][k] == (if range_covers(
                        sector.0 as int,
                        offset as int,
                        buffer@.len() as int,
                        j,
                        k,
                    ) {
                        range_byte(sector.0 as int, offset as int, buffer@, j, k)
                    } else {
                        e0[j][k]
                    }))
            },
            r == Err::<(), FsError>(FsError::OutOfRange) ==> final(self).edisk(final(s).disk())
                == old(self).edisk(old(s).disk()),
            !old(self).range_ok_spec(sector, offset as int, buffer@.len() as int) <==> r
                == Err::<(), FsError>(FsError::OutOfRange),
            r is Err ==> r == Err::<(), FsError>(FsError::OutOfRange) || r == Err::<(), FsError>(
                FsError::StorageError,
            ),
            // With the whole range already cached, the write cannot fail.
            old(self).range_ok_spec(sector, offset as int, buffer@.len() as int)
                && range_cached_spec(*old(self), sector, offset as int, buffer@.len() as int)
                ==> r is Ok,
            // Written sectors are dirtied: every touched sector still
            // cached afterwards is dirty, and the last one written is
            // still cached.
            r is Ok && buffer@.len() > 0 ==> (forall|j: int|
                sector.0 <= j <= sector.0 + (offset + buffer@.len() - 1) as int / 512
                    && (#[trigger] final(self).cache.has_sector(SectorIdx(j as u64)))
                    ==> final(self).cache.sector_dirty(SectorIdx(j as u64))),
            r is Ok && buffer@.len() > 0 ==> final(self).cache.has_sector(
                SectorIdx((sector.0 + (offset + buffer@.len() - 1) as int / 512) as u64),
            ) && final(self).cache.sector_dirty(
                SectorIdx((sector.0 + (offset + buffer@.len() - 1) as int / 512) as u64),
            ),
    {
        self.write_iter(s, sector, offset, buffer)
    }

    /// Writes every dirty cached sector back to the device; after a
    /// successful flush the physical disk equals the effective disk.
    pub fn flush<S: Storage>(&mut self, s: &mut S) -> (r: Result<(), FsError>)
        requires
            old(self).wf(),
            old(self).consistent(old(s).disk()),
        ensures
            final(self).wf(),
            final(self).consistent(final(s).disk()),
            FatFs::same_geometry(*old(self), *final(self)),
            final(self).next_known_free_cluster == old(self).next_known_free_cluster,
            final(s).disk().len() == old(s).disk().len(),
            final(self).edisk(final(s).disk()) == old(self).edisk(old(s).disk()),
            forall|j: int|
                #![trigger final(s).disk()[j]]
                0 <= j < old(s).disk().len() && final(s).disk()[j] != old(s).disk()[j] ==> old(self).cache.has_sector(SectorIdx(j as u64)) && old(self).cache.sector_dirty(
                    SectorIdx(j as u64),
                ) && final(s).disk()[j] == old(self).cache.contents(SectorIdx(j as u64)),
            r is Ok ==> final(s).disk() == old(self).edisk(old(s).disk()) && (forall|x: SectorIdx|
                final(self).cache.has_sector(x) ==> !(#[trigger] final(self).cache.sector_dirty(
                    x,
                ))),
            // Flushing only cleans, a clean cache flushes trivially, and
            // on failure the entry whose write failed is still dirty
            // while every dirty sector before it was written back.
            forall|x: SectorIdx|
                old(self).cache.has_sector(x) && #[trigger] final(self).cache.sector_dirty(x)
                    ==> old(self).cache.sector_dirty(x),
            (forall|x: SectorIdx|
                old(self).cache.has_sector(x) ==> !(#[trigger] old(self).cache.sector_dirty(x)))
                ==> r is Ok,
            r is Err ==> (exists|x: SectorIdx|
                #![auto]
                final(self).cache.has_sector(x) && final(self).cache.sector_dirty(x) && (forall|
                    y: SectorIdx,
                |
                    y.0 < x.0 && final(self).cache.has_sector(y) ==> !(#[trigger] final(self).cache.sector_dirty(y)))),
            r is Err ==> r == Err::<(), FsError>(FsError::StorageError),
    {
        self.cache.flush(s)
    }
}

impl FatFs {
    /// The FAT entry of cluster `c` as stored on the sector sequence `e`:
    /// a 32-bit little-endian successor pointer.
    pub open spec fn fat_entry_spec(self, e: Seq<Seq<u8>>, c: u32) -> u32 {
        crate::codec::u32_le_at_spec(
            e[self.table_pos_sector_spec(c)],
            self.table_pos_offset_spec(c),
        )
    }

    /// The FAT entry's position lies inside the FAT area of the partition.
    proof fn lemma_table_pos_in_fat(self, c: u32)
        requires
            self.wf(),
            c < self.num_clusters_spec(),
        ensures
            self.starting_lba.0 <= self.table_pos_sector_spec(c) <= self.ending_lba.0,
            0 <= self.table_pos_offset_spec(c) <= 508,
    {
        let nc = self.num_clusters_spec() as int;
        let fs = self.fat_table_size_in_sectors as int;
        vstd::arithmetic::div_mod::lemma_div_is_ordered(c as int, nc - 1, 128);
        vstd::arithmetic::div_mod::lemma_fundamental_div_mod_converse(nc - 1, 128, fs - 1, 127);
        vstd::arithmetic::div_mod::lemma_fundamental_div_mod(c as int, 128);
    }

    /// Reads cluster `c`'s FAT entry through the cache.
    fn read_fat_entry<S: Storage>(&mut self, s: &mut S, c: ClusterIdx) -> (r: Result<
        u32,
        FsError,
    >)
        requires
            old(self).wf(),
            old(self).consistent(old(s).disk()),
            c.0 < old(self).num_clusters_spec(),
        ensures
            final(self).wf(),
            final(self).consistent(final(s).disk()),
            FatFs::same_geometry(*old(self), *final(self)),
            final(self).next_known_free_cluster == old(self).next_known_free_cluster,
            final(s).disk().len() == old(s).disk().len(),
            final(self).edisk(final(s).disk()) == old(self).edisk(old(s).disk()),
            forall|j: int|
                #![trigger final(s).disk()[j]]
                0 <= j < old(s).disk().len() && final(s).disk()[j] != old(s).disk()[j]
                    ==> final(s).disk()[j] == old(self).edisk(old(s).disk())[j],
            r matches Ok(v) ==> v == old(self).fat_entry_spec(old(self).edisk(old(s).disk()), c.0),
            // With the entry's FAT sector cached, nothing touches the
            // device, so the read cannot fail.
            old(self).cache.has_sector(
                SectorIdx(old(self).table_pos_sector_spec(c.0) as u64),
            ) ==> r is Ok,
            r is Err ==> r == Err::<u32, FsError>(FsError::StorageError),
    {
        let ghost edisk0 = old(self).edisk(old(s).disk());
        let (tsec, toff) = self.cluster_to_table_pos(c);
        proof {
            self.lemma_table_pos_in_fat(c.0);
        }
        let mut buf: Vec<u8> = Vec::new();
        buf.push(0);
        buf.push(0);
        buf.push(0);
        buf.push(0);
        proof {
            if old(self).cache.has_sector(SectorIdx(old(self).table_pos_sector_spec(c.0)
                as u64)) {
                assert forall|j: int|
                    tsec.0 <= j <= tsec.0 + (toff + 3) as int / 512 implies
                    #[trigger] self.cache.has_sector(SectorIdx(j as u64)) by {
                    assert((toff + 3) as int / 512 == 0);
                    assert(j == old(self).table_pos_sector_spec(c.0));
                }
                assert(range_cached_spec(*self, tsec, toff as int, 4));
            }
        }
        match self.read(s, tsec, toff, &mut buf) {
            Ok(()) => {},
            Err(e) => {
                proof {
                    assert(self.range_ok_spec(tsec, toff as int, 4));
                }
                return Err(FsError::StorageError);
            },
        }
        let v = crate::codec::read_u32_le(buf.as_slice(), 0);
        proof {
            let ts = self.table_pos_sector_spec(c.0);
            let to = self.table_pos_offset_spec(c.0);
            assert forall|i: int| 0 <= i < 4 implies buf@[i] == edisk0[ts][to + i] by {
                assert(buf@[i] == edisk_byte(edisk0, ts, to, i));
                assert((to + i) / 512 == 0 && (to + i) % 512 == to + i);
            }
        }
        Ok(v)
    }

    /// Writes cluster `c`'s FAT entry through the cache: the entry's four
    /// bytes change on the effective disk and nothing else does.
    #[verifier::rlimit(100)]
    fn write_fat_entry<S: Storage>(&mut self, s: &mut S, c: ClusterIdx, v: u32) -> (r: Result<
        (),
        FsError,
    >)
        requires
            old(self).wf(),
            old(self).consistent(old(s).disk()),
            c.0 < old(self).num_clusters_spec(),
        ensures
            final(self).wf(),
            final(self).consistent(final(s).disk()),
            FatFs::same_geometry(*old(self), *final(self)),
            final(self).next_known_free_cluster == old(self).next_known_free_cluster,
            final(s).disk().len() == old(s).disk().len(),
            r is Ok ==> {
                let e0 = old(self).edisk(old(s).disk());
                let e1 = final(self).edisk(final(s).disk());
                let ts = old(self).table_pos_sector_spec(c.0);
                let to = old(self).table_pos_offset_spec(c.0);
                &&& e1.len() == e0.len()
                &&& (forall|j: int| 0 <= j < e0.len() ==> (#[trigger] e1[j]).len() == e0[j].len())
                &&& final(self).fat_entry_spec(e1, c.0) == v
                &&& (forall|j: int, k: int|
                    #![trigger e1[j][k]]
                    0 <= j < e0.len() && 0 <= k < 512 && !(j == ts && to <= k < to + 4)
                        ==> e1[j][k] == e0[j][k])
                &&& (forall|c2: u32|
                    c2 < old(self).num_clusters_spec() && c2 != c.0
                        ==> #[trigger] final(self).fat_entry_spec(e1, c2) == old(self).fat_entry_spec(e0, c2))
            },
            r is Err ==> r == Err::<(), FsError>(FsError::StorageError),
    {
        let ghost edisk0 = old(self).edisk(old(s).disk());
        let (tsec, toff) = self.cluster_to_table_pos(c);
        proof {
            self.lemma_table_pos_in_fat(c.0);
        }
        let mut buf: Vec<u8> = Vec::new();
        buf.push(crate::codec::u32_byte_of(v, 0));
        buf.push(crate::codec::u32_byte_of(v, 1));
        buf.push(crate::codec::u32_byte_of(v, 2));
        buf.push(crate::codec::u32_byte_of(v, 3));
        match self.write_iter(s, tsec, toff, buf.as_slice()) {
            Ok(()) => {},
            Err(e) => {
                proof {
                    assert(self.range_ok_spec(tsec, toff as int, 4));
                }
                return Err(FsError::StorageError);
            },
        }
        proof {
            let e1 = self.edisk(s.disk());
            let ts = self.table_pos_sector_spec(c.0);
            let to = self.table_pos_offset_spec(c.0);
            // The four written bytes land inside one sector, at the
            // entry's offset.
            assert forall|i: int| 0 <= i < 4 implies e1[ts][to + i] == buf@[i] by {
                lemma_walk_pos(ts, to, i, ts, to + i);
                assert(range_covers(ts, to, 4, ts, to + i));
                assert(e1[ts][to + i] == range_byte(ts, to, buf@, ts, to + i));
            }
            crate::codec::lemma_u32_le_roundtrip(v, 0, 0, 0, 0);
            assert(self.fat_entry_spec(e1, c.0) == v);
            assert forall|j: int, k: int|
                #![trigger e1[j][k]]
                0 <= j < edisk0.len() && 0 <= k < 512 && !(j == ts && to <= k < to + 4) implies
                e1[j][k] == edisk0[j][k] by {
                if range_covers(ts, to, 4, j, k) {
                    let p = j * 512 + k - (ts * 512 + to);
                    lemma_walk_pos(ts, to, p, j, k);
                    vstd::arithmetic::div_mod::lemma_fundamental_div_mod_converse(
                        to + p,
                        512,
                        0,
                        to + p,
                    );
                    assert(j == ts && k == to + p);
                    assert(false);
                }
            }
            // Entries of other clusters read the same bytes as before.
            assert forall|c2: u32|
                c2 < self.num_clusters_spec() && c2 != c.0 implies #[trigger] self.fat_entry_spec(
                e1,
                c2,
            ) == self.fat_entry_spec(edisk0, c2) by {
                self.lemma_table_pos_in_fat(c2);
                let ts2 = self.table_pos_sector_spec(c2);
                let to2 = self.table_pos_offset_spec(c2);
                vstd::arithmetic::div_mod::lemma_fundamental_div_mod(c2 as int, 128);
                vstd::arithmetic::div_mod::lemma_fundamental_div_mod(c.0 as int, 128);
                assert forall|i: int| 0 <= i < 4 implies #[trigger] e1[ts2][to2 + i]
                    == edisk0[ts2][to2 + i] by {
                    if ts2 == ts {
                        assert(c2 as int / 128 == c.0 as int / 128);
                        assert(c2 as int % 128 != c.0 as int % 128);
                        assert(to2 != to);
                        assert((c2 as int % 128) * 4 != (c.0 as int % 128) * 4)
                            by (nonlinear_arith)
                            requires c2 as int % 128 != c.0 as int % 128;
                        assert(to2 + 4 <= to || to + 4 <= to2) by (nonlinear_arith)
                            requires
                                to2 == (c2 as int % 128) * 4,
                                to == (c.0 as int % 128) * 4,
                                c2 as int % 128 != c.0 as int % 128;
                        assert(!(to <= to2 + i < to + 4));
                    }
                }
            }
        }
        Ok(())
    }

    /// Volumes with the same geometry decode the same FAT entries.
    pub(crate) proof fn lemma_fat_entry_same_geom(a: FatFs, b: FatFs, e: Seq<Seq<u8>>, c: u32)
        requires
            FatFs::same_geometry(a, b),
        ensures
            a.fat_entry_spec(e, c) == b.fat_entry_spec(e, c),
    {
    }

    /// The FAT entry value that marks a free cluster.
    pub open spec fn free_entry() -> u32 {
        0
    }

    /// The smallest FAT entry value that marks the end of a chain; every
    /// value from here up is treated as end-of-chain.
    pub open spec fn end_of_chain_entry() -> u32 {
        0x0FFF_FFF8
    }

    /// Scans the FAT from the free-cluster hint, wrapping once around the
    /// whole table; claims the first free cluster by marking it
    /// end-of-chain and returns it. Reports `DiskFull` exactly when the
    /// sweep finds no free entry.
    #[verifier::rlimit(100)]
    pub fn next_free_cluster<S: Storage>(&mut self, s: &mut S) -> (r: Result<ClusterIdx, FsError>)
        requires
            old(self).wf(),
            old(self).consistent(old(s).disk()),
        ensures
            final(self).wf(),
            final(self).consistent(final(s).disk()),
            FatFs::same_geometry(*old(self), *final(self)),
            final(s).disk().len() == old(s).disk().len(),
            r matches Ok(c) ==> {
                let e0 = old(self).edisk(old(s).disk());
                let e1 = final(self).edisk(final(s).disk());
                let nc = old(self).num_clusters_spec();
                let hint0 = old(self).next_known_free_cluster.0;
                &&& c.0 < old(self).num_clusters_spec()
                &&& old(self).fat_entry_spec(e0, c.0) == FatFs::free_entry()
                &&& final(self).fat_entry_spec(e1, c.0) == FatFs::end_of_chain_entry()
                &&& e1.len() == e0.len()
                &&& (forall|c2: u32|
                    c2 < old(self).num_clusters_spec() && c2 != c.0
                        ==> #[trigger] final(self).fat_entry_spec(e1, c2) == old(self).fat_entry_spec(e0, c2))
                // The cluster is the first free one scanning circularly
                // from the hint, and the hint moves just past it.
                &&& final(self).next_known_free_cluster.0 == ((c.0 + 1) as int % (nc as int)) as u32
                &&& (exists|t: u64|
                    #![trigger ((hint0 + t) as int % (nc as int))]
                    t < nc && c.0 == ((hint0 + t) as int % (nc as int)) as u32
                        && (forall|q: u64|
                        q < t ==> #[trigger] old(self).fat_entry_spec(
                            e0,
                            (((hint0 + q) as int % (nc as int)) as u32),
                        ) != FatFs::free_entry()))
            },
            r == Err::<ClusterIdx, FsError>(FsError::DiskFull) ==> (forall|k: u32|
                k < old(self).num_clusters_spec() ==> #[trigger] old(self).fat_entry_spec(
                    old(self).edisk(old(s).disk()),
                    k,
                ) != FatFs::free_entry()) && final(self).edisk(final(s).disk()) == old(self).edisk(old(s).disk()),
            r is Err ==> r == Err::<ClusterIdx, FsError>(FsError::DiskFull) || r == Err::<
                ClusterIdx,
                FsError,
            >(FsError::StorageError),
    {
        let ghost edisk0 = old(self).edisk(old(s).disk());
        let num_clusters: u64 = (self.fat_table_size_in_sectors as u64) * 128;
        let hint0: u64 = self.next_known_free_cluster.inner() as u64;
        let mut t: u64 = 0;
        while t < num_clusters
            invariant
                self.wf(),
                self.consistent(s.disk()),
                FatFs::same_geometry(*old(self), *self),
                s.disk().len() == old(s).disk().len(),
                edisk0 == old(self).edisk(old(s).disk()),
                self.edisk(s.disk()) == edisk0,
                num_clusters == self.num_clusters_spec(),
                hint0 < num_clusters,
                hint0 == old(self).next_known_free_cluster.0,
                t <= num_clusters,
                forall|q: u64|
                    q < t ==> #[trigger] old(self).fat_entry_spec(
                        edisk0,
                        (((hint0 + q) as int % (num_clusters as int)) as u32),
                    ) != FatFs::free_entry(),
            decreases num_clusters - t,
        {
            let cur: u64 = (hint0 + t) % num_clusters;
            let c = ClusterIdx::new(cur as u32);
            let v = match self.read_fat_entry(s, c) {
                Ok(v) => v,
                Err(_) => {
                    return Err(FsError::StorageError);
                },
            };
            proof {
                FatFs::lemma_fat_entry_same_geom(*old(self), *self, edisk0, cur as u32);
            }
            if v == 0 {
                proof {
                    FatFs::lemma_fat_entry_same_geom(*old(self), *self, edisk0, c.0);
                }
                match self.write_fat_entry(s, c, 0x0FFF_FFF8) {
                    Ok(()) => {},
                    Err(_) => {
                        return Err(FsError::StorageError);
                    },
                }
                let next_hint: u64 = (cur + 1) % num_clusters;
                self.next_known_free_cluster = ClusterIdx::new(next_hint as u32);
                proof {
                    let nc = old(self).num_clusters_spec();
                    let hint0g = old(self).next_known_free_cluster.0;
                    assert((hint0g + t) as int % (nc as int) == cur as int);
                    assert(c.0 == ((hint0g + t) as int % (nc as int)) as u32);
                }
                return Ok(c);
            }
            t = t + 1;
        }
        proof {
            assert forall|k: u32| k < self.num_clusters_spec() implies
                #[trigger] old(self).fat_entry_spec(edisk0, k) != FatFs::free_entry() by {
                let q: u64 = if k as u64 >= hint0 {
                    (k as u64 - hint0) as u64
                } else {
                    (k as u64 + num_clusters - hint0) as u64
                };
                assert(q < num_clusters);
                vstd::arithmetic::div_mod::lemma_fundamental_div_mod_converse(
                    (hint0 + q) as int,
                    num_clusters as int,
                    if k as u64 >= hint0 { 0int } else { 1int },
                    k as int,
                );
                assert(((hint0 + q) as int % (num_clusters as int)) as u32 == k);
            }
        }
        Err(FsError::DiskFull)
    }
}

/// The geometry a boot sector must present for [`FatFs::mount`] to accept
/// the partition `first..=last`: 512-byte sectors, at least one sector per
/// cluster and one FAT of sane size lying inside the partition, and a
/// root cluster the FAT covers.
pub open spec fn mount_geometry_ok(disk: Seq<Seq<u8>>, first: u64, last: u64) -> bool {
    let sec = disk[first as int];
    &&& first <= last
    &&& last < 0x1_0000_0000_0000
    &&& last < disk.len()
    &&& crate::codec::u16_le_at_spec(sec, 0x0B) == 512
    &&& sec[0x0D] >= 1
    &&& sec[0x10] >= 1
    &&& 1 <= crate::codec::u32_le_at_spec(sec, 0x24) <= 0x200_0000
    &&& first <= crate::codec::u16_le_at_spec(sec, 0x0E) + crate::codec::u32_le_at_spec(sec, 0x1C)
    &&& crate::codec::u16_le_at_spec(sec, 0x0E) + crate::codec::u32_le_at_spec(sec, 0x1C)
        + crate::codec::u32_le_at_spec(sec, 0x24) <= last + 1
    &&& crate::codec::u32_le_at_spec(sec, 0x2C) < crate::codec::u32_le_at_spec(sec, 0x24) * 128
}

impl FatFs {
    /// Mounts a FAT32 volume from the given partition: checks the
    /// partition type, decodes the boot sector through a fresh cache of
    /// `cache_capacity` sectors, validates the geometry, and returns the
    /// volume. Nothing is written; the device is only read.
    #[verifier::rlimit(100)]
    pub fn mount<S: Storage>(
        s: &mut S,
        partition: &PartitionEntry,
        ev: EvictionPolicy,
        cache_capacity: usize,
    ) -> (r: Result<FatFs, FsError>)
        requires
            1 <= cache_capacity <= 0x0010_0000,
        ensures
            final(s).disk() == old(s).disk(),
            // The wrong partition type is refused as such, and only that.
            r == Err::<FatFs, FsError>(FsError::NotFound) <==> partition.partition_type
                != microsoft_basic_data_spec(),
            // A basic-data partition with acceptable geometry mounts,
            // unless the device itself fails the boot-sector read.
            partition.partition_type == microsoft_basic_data_spec() && mount_geometry_ok(
                old(s).disk(),
                partition.first_lba,
                partition.last_lba,
            ) ==> (r is Ok || r == Err::<FatFs, FsError>(FsError::StorageError)),
            r matches Ok(f) ==> {
                let sec = old(s).disk()[partition.first_lba as int];
                &&& partition.partition_type == microsoft_basic_data_spec()
                &&& partition.first_lba < old(s).disk().len()
                &&& f.wf()
                &&& f.consistent(final(s).disk())
                &&& f.edisk(final(s).disk()) == final(s).disk()
                &&& f.starting_lba.0 == partition.first_lba
                &&& f.ending_lba.0 == partition.last_lba
                &&& f.num_sectors == partition.last_lba - partition.first_lba
                &&& f.sector_size_in_bytes == 512
                &&& crate::codec::u16_le_at_spec(sec, 0x0B) == 512
                &&& f.cluster_size_in_sectors == sec[0x0D]
                &&& f.num_fat_tables == sec[0x10]
                &&& f.fat_table_size_in_sectors == crate::codec::u32_le_at_spec(sec, 0x24)
                &&& f.root_dir_cluster_num.0 == crate::codec::u32_le_at_spec(sec, 0x2C)
                &&& f.next_known_free_cluster.0 == 2
                &&& f.fat_starting_sector.0 == crate::codec::u16_le_at_spec(sec, 0x0E)
                    + crate::codec::u32_le_at_spec(sec, 0x1C)
                &&& f.cache.policy_spec() == ev
                &&& f.cache.cap_spec() == cache_capacity
            },
    {
        let mt = Guid::microsoft_basic_data();
        let type_ok = partition.partition_type.first == mt.first
            && partition.partition_type.second == mt.second && partition.partition_type.third
            == mt.third && partition.partition_type.fourth == mt.fourth
            && partition.partition_type.fifth_p1 == mt.fifth_p1
            && partition.partition_type.fifth_p2 == mt.fifth_p2;
        if !type_ok {
            proof {
                assert(partition.partition_type != microsoft_basic_data_spec());
            }
            return Err(FsError::NotFound);
        }
        proof {
            assert(partition.partition_type == microsoft_basic_data_spec());
        }
        if partition.first_lba > partition.last_lba {
            return Err(FsError::OutOfRange);
        }
        if partition.last_lba >= 0x1_0000_0000_0000 {
            return Err(FsError::OutOfRange);
        }
        let device_sectors = s.capacity();
        if partition.last_lba >= device_sectors as u64 {
            return Err(FsError::OutOfRange);
        }
        let mut cache = SectorCache::new(
            SectorIdx::new(partition.last_lba),
            cache_capacity,
            ev,
        );
        let ghost disk0 = s.disk();
        proof {
            assert(cache.edisk(disk0) =~= disk0);
        }
        let sector = match cache.get(s, SectorIdx::new(partition.first_lba)) {
            Ok(v) => v,
            Err(_) => {
                proof {
                    assert(s.disk() =~= disk0);
                }
                return Err(FsError::StorageError);
            },
        };
        let _device_sectors = s.capacity();
        proof {
            assert(s.disk() =~= disk0);
        }
        let boot_sect = BootSector::read(&sector);
        if boot_sect.bpb.bytes_per_logical_sector != 512 {
            return Err(FsError::OutOfRange);
        }
        if boot_sect.bpb.logical_sectors_per_cluster < 1 {
            return Err(FsError::OutOfRange);
        }
        if boot_sect.bpb.num_file_alloc_tables < 1 {
            return Err(FsError::OutOfRange);
        }
        if boot_sect.bpb.logical_sectors_per_fat_extended < 1
            || boot_sect.bpb.logical_sectors_per_fat_extended > 0x200_0000 {
            return Err(FsError::OutOfRange);
        }
        let fat_start: u64 = (boot_sect.bpb.num_reserved_logical_sectors as u64) + (
        boot_sect.bpb.hidden_preceeding_sectors as u64);
        if fat_start < partition.first_lba {
            return Err(FsError::OutOfRange);
        }
        if fat_start + (boot_sect.bpb.logical_sectors_per_fat_extended as u64)
            > partition.last_lba + 1 {
            return Err(FsError::OutOfRange);
        }
        let num_clusters: u64 = (boot_sect.bpb.logical_sectors_per_fat_extended as u64) * 128;
        if (boot_sect.bpb.root_dir_cluster_num as u64) >= num_clusters {
            return Err(FsError::OutOfRange);
        }
        let f = FatFs {
            starting_lba: SectorIdx::new(partition.first_lba),
            ending_lba: SectorIdx::new(partition.last_lba),
            num_sectors: partition.last_lba - partition.first_lba,
            sector_size_in_bytes: boot_sect.bpb.bytes_per_logical_sector,
            fat_table_size_in_sectors: boot_sect.bpb.logical_sectors_per_fat_extended,
            num_fat_tables: boot_sect.bpb.num_file_alloc_tables,
            cluster_size_in_sectors: boot_sect.bpb.logical_sectors_per_cluster,
            fat_starting_sector: SectorIdx::new(fat_start),
            root_dir_cluster_num: ClusterIdx::new(boot_sect.bpb.root_dir_cluster_num),
            // The free-cluster hint starts at the first data cluster.
            next_known_free_cluster: ClusterIdx::new(2),
            cache,
        };
        proof {
            assert(f.edisk(s.disk()) =~= s.disk()) by {
                assert forall|j: int| 0 <= j < disk0.len() implies f.edisk(s.disk())[j]
                    == s.disk()[j] by {
                    let x = SectorIdx(j as u64);
                    if f.cache.has_sector(x) {
                        assert(f.cache.contents(x) == f.cache.edisk(disk0)[j]);
                    }
                }
            }
        }
        Ok(f)
    }

    /// Re-reads and decodes the volume's boot sector through the cache.
    pub fn get_boot_sect<S: Storage>(&mut self, s: &mut S) -> (r: Result<BootSector, FsError>)
        requires
            old(self).wf(),
            old(self).consistent(old(s).disk()),
        ensures
            final(self).wf(),
            final(self).consistent(final(s).disk()),
            FatFs::same_geometry(*old(self), *final(self)),
            final(self).next_known_free_cluster == old(self).next_known_free_cluster,
            final(s).disk().len() == old(s).disk().len(),
            final(self).edisk(final(s).disk()) == old(self).edisk(old(s).disk()),
            r matches Ok(b) ==> crate::fat::boot_sector::boot_sector_parse_ok(
                old(self).edisk(old(s).disk())[old(self).starting_lba.0 as int],
                b,
            ),
            r is Err ==> r == Err::<BootSector, FsError>(FsError::StorageError),
    {
        let ghost edisk0 = old(self).edisk(old(s).disk());
        let start = self.starting_lba;
        let sector = match self.cache.get(s, start) {
            Ok(v) => v,
            Err(_) => {
                return Err(FsError::StorageError);
            },
        };
        let _device_sectors = s.capacity();
        proof {
            self.cache.lemma_edisk_shape(s.disk());
        }
        Ok(BootSector::read(&sector))
    }
}

/// The index of the last dot of a component, or the component's length
/// when it has none.
pub open spec fn component_dot_spec(c: Seq<u8>) -> int
    decreases c.len(),
{
    if c.len() == 0 {
        0
    } else if c[c.len() - 1] == 0x2E {
        c.len() - 1
    } else {
        let d = component_dot_spec(c.take(c.len() - 1));
        if d == c.len() - 1 {
            c.len() as int
        } else {
            d
        }
    }
}

/// A component's 8-byte name: the bytes before its last dot, truncated to
/// eight and padded with spaces.
pub open spec fn component_name_spec(c: Seq<u8>) -> Seq<u8> {
    Seq::new(
        8nat,
        |i: int| if i < component_dot_spec(c) {
            c[i]
        } else {
            0x20u8
        },
    )
}

/// A component's 3-byte extension: the bytes after its last dot,
/// truncated to three and padded with spaces.
pub open spec fn component_ext_spec(c: Seq<u8>) -> Seq<u8> {
    Seq::new(
        3nat,
        |j: int| if component_dot_spec(c) < c.len() && component_dot_spec(c) + 1 + j < c.len() {
            c[component_dot_spec(c) + 1 + j]
        } else {
            0x20u8
        },
    )
}

/// Where the path's last component starts: one past the last slash, or
/// the start when the path has none.
pub open spec fn last_component_start(p: Seq<u8>) -> int
    decreases p.len(),
{
    if p.len() == 0 {
        0
    } else if p[p.len() - 1] == 0x2F {
        p.len() as int
    } else {
        last_component_start(p.take(p.len() - 1))
    }
}

/// The 8-byte name the path's last component resolves against.
pub open spec fn path_last_name_spec(p: Seq<u8>) -> Seq<u8> {
    component_name_spec(p.subrange(last_component_start(p), p.len() as int))
}

/// The 3-byte extension the path's last component resolves against.
pub open spec fn path_last_ext_spec(p: Seq<u8>) -> Seq<u8> {
    component_ext_spec(p.subrange(last_component_start(p), p.len() as int))
}

/// A stretch with no slash whose left edge sits at the path's start or
/// just after a slash is the path's last component when it runs to the
/// path's end.
proof fn lemma_last_component(p: Seq<u8>, pos: int)
    requires
        0 <= pos < p.len(),
        forall|i: int| pos <= i < p.len() ==> p[i] != 0x2F,
        pos == 0 || p[pos - 1] == 0x2F,
    ensures
        last_component_start(p) == pos,
    decreases p.len(),
{
    assert(p[p.len() - 1] != 0x2F);
    let q = p.take(p.len() - 1);
    assert(last_component_start(p) == last_component_start(q));
    if pos == p.len() - 1 {
        if pos == 0 {
            assert(q.len() == 0);
            assert(last_component_start(q) == 0);
        } else {
            assert(q[q.len() - 1] == 0x2F);
            assert(last_component_start(q) == q.len());
        }
    } else {
        lemma_last_component(q, pos);
    }
}

/// Where the path component starting at `pos` ends: the next slash's
/// index, or the path's end.
pub open spec fn component_stop(p: Seq<u8>, pos: int) -> int
    decreases p.len() - pos,
{
    if pos < 0 || pos >= p.len() {
        pos
    } else if p[pos] == 0x2F {
        pos
    } else {
        component_stop(p, pos + 1)
    }
}

/// Where path resolution begins: just after a leading slash.
pub open spec fn path_start_spec(p: Seq<u8>) -> int {
    if p.len() > 0 && p[0] == 0x2F {
        1int
    } else {
        0int
    }
}

/// How resolving a path against the directory tree ends.
#[derive(PartialEq, Eq, Structural)]
pub enum PathResolution {
    /// The parent directory's cluster, and the found entry's cluster and
    /// in-cluster byte offset within that directory.
    Found(u32, u32, u32),
    /// Some component has no live match in its directory, or the path
    /// holds an empty component.
    Missing,
    /// A component before the last resolved to a non-directory.
    NotDirectory,
}

/// Resolves `path` from byte `pos` inside the directory at cluster
/// `dcl`, component by component: each component is searched as an 8.3
/// name, and every component but the last must resolve to a directory.
/// `None` when a directory search gives no verdict or `fuel` runs dry.
pub open spec fn resolve_path_spec(
    fs: FatFs,
    e: Seq<Seq<u8>>,
    dcl: u32,
    path: Seq<u8>,
    pos: int,
    fuel: nat,
) -> Option<PathResolution>
    decreases fuel,
{
    if fuel == 0 {
        None
    } else if pos < 0 || pos >= path.len() {
        Some(PathResolution::Missing)
    } else {
        let stop = component_stop(path, pos);
        if stop == pos {
            Some(PathResolution::Missing)
        } else {
            let comp = path.subrange(pos, stop);
            match crate::fat::dir::dir_search_spec(
                fs,
                e,
                dcl,
                0,
                component_name_spec(comp),
                component_ext_spec(comp),
                0x1_0000nat,
            ) {
                Some(crate::fat::dir::SearchOutcome::Hit(hcl, hoff)) => {
                    if stop + 1 >= path.len() {
                        Some(PathResolution::Found(dcl, hcl, hoff))
                    } else if component_stop(path, stop + 1) == stop + 1 {
                        Some(PathResolution::Missing)
                    } else if !crate::fat::dir::entry_is_dir_at(fs, e, hcl, hoff) {
                        Some(PathResolution::NotDirectory)
                    } else {
                        resolve_path_spec(
                            fs,
                            e,
                            crate::fat::dir::entry_cluster_at(fs, e, hcl, hoff),
                            path,
                            stop + 1,
                            (fuel - 1) as nat,
                        )
                    }
                },
                Some(crate::fat::dir::SearchOutcome::Miss) => Some(PathResolution::Missing),
                None => None,
            }
        }
    }
}

/// Resolving `path` from the root directory, with fuel to spare for
/// every component the path can hold.
pub open spec fn resolve_path_full(fs: FatFs, e: Seq<Seq<u8>>, path: Seq<u8>) -> Option<
    PathResolution,
> {
    resolve_path_spec(
        fs,
        e,
        fs.root_dir_cluster_num.0,
        path,
        path_start_spec(path),
        (path.len() + 1) as nat,
    )
}

/// A slash-free stretch ending at the path's end or at a slash is what
/// the component scan finds.
proof fn lemma_component_stop(p: Seq<u8>, pos: int, stop: int)
    requires
        0 <= pos <= stop <= p.len(),
        forall|i: int| pos <= i < stop ==> p[i] != 0x2F,
        stop == p.len() || p[stop] == 0x2F,
    ensures
        component_stop(p, pos) == stop,
    decreases stop - pos,
{
    if pos < stop {
        lemma_component_stop(p, pos + 1, stop);
    }
}

impl FatFs {
    /// Splits one path component into its 8-byte name and 3-byte
    /// extension, space-padded, splitting at the last dot.
    fn component_name_ext(comp: &[u8]) -> (r: (FileName, FileExt))
        ensures
            r.0.0@ == component_name_spec(comp@),
            r.1.0@ == component_ext_spec(comp@),
    {
        let mut dot: usize = 0;
        let mut k: usize = 0;
        while k < comp.len()
            invariant
                k <= comp@.len(),
                dot <= k,
                dot as int == component_dot_spec(comp@.take(k as int)),
            decreases comp@.len() - k,
        {
            proof {
                assert(comp@.take(k + 1).take(k as int) =~= comp@.take(k as int));
            }
            if comp[k] == 0x2E {
                dot = k;
            } else if dot == k {
                dot = k + 1;
            }
            k = k + 1;
        }
        proof {
            assert(comp@.take(comp@.len() as int) =~= comp@);
        }
        let mut name: [u8; 8] = [0x20u8; 8];
        let mut i: usize = 0;
        while i < 8
            invariant
                i <= 8,
                dot <= comp@.len(),
                dot as int == component_dot_spec(comp@),
                forall|q: int| 0 <= q < i ==> name@[q] == component_name_spec(comp@)[q],
                forall|q: int| i <= q < 8 ==> name@[q] == 0x20u8,
            decreases 8 - i,
        {
            if i < dot {
                name[i] = comp[i];
            }
            i = i + 1;
        }
        let mut ext: [u8; 3] = [0x20u8; 3];
        let mut j: usize = 0;
        while j < 3
            invariant
                j <= 3,
                dot <= comp@.len(),
                dot as int == component_dot_spec(comp@),
                forall|q: int| 0 <= q < j ==> ext@[q] == component_ext_spec(comp@)[q],
                forall|q: int| j <= q < 3 ==> ext@[q] == 0x20u8,
            decreases 3 - j,
        {
            if dot < comp.len() && comp.len() - dot > 1 + j {
                ext[j] = comp[dot + 1 + j];
            }
            j = j + 1;
        }
        proof {
            assert(name@ =~= component_name_spec(comp@));
            assert(ext@ =~= component_ext_spec(comp@));
        }
        (FileName(name), FileExt(ext))
    }

    /// Scans the directory starting at `cluster` for the first live
    /// entry whose name and extension match; yields it, or `NotFound`
    /// once the directory's End entry comes.
    fn find_in_dir<S: Storage>(
        &mut self,
        s: &mut S,
        cluster: ClusterIdx,
        name: &FileName,
        ext: &FileExt,
    ) -> (r: Result<DirEntry, FsError>)
        requires
            old(self).wf(),
            old(self).consistent(old(s).disk()),
        ensures
            final(self).wf(),
            final(self).consistent(final(s).disk()),
            FatFs::same_geometry(*old(self), *final(self)),
            final(self).next_known_free_cluster == old(self).next_known_free_cluster,
            final(s).disk().len() == old(s).disk().len(),
            final(self).edisk(final(s).disk()) == old(self).edisk(old(s).disk()),
            r matches Ok(e) ==> crate::fat::dir::entry_matches(e, name.0@, ext.0@)
                && !e.attributes.is_lfn_spec(),
            // The yielded entry sits at the position the directory search
            // finds first; a miss means the search ends at the End entry.
            r matches Ok(e) ==> (exists|hcl: u32, hoff: u32|
                #![trigger crate::fat::dir::dir_entry_at_ok(
                    *old(self),
                    old(self).edisk(old(s).disk()),
                    hcl,
                    hoff,
                    e,
                )]
                crate::fat::dir::dir_search_spec(
                    *old(self),
                    old(self).edisk(old(s).disk()),
                    cluster.0,
                    0,
                    name.0@,
                    ext.0@,
                    0x1_0000nat,
                ) == Some(crate::fat::dir::SearchOutcome::Hit(hcl, hoff))
                    && crate::fat::dir::dir_entry_at_ok(
                    *old(self),
                    old(self).edisk(old(s).disk()),
                    hcl,
                    hoff,
                    e,
                ) && crate::fat::dir::entry_sector_at(
                    *old(self),
                    old(self).edisk(old(s).disk()),
                    hcl,
                    hoff,
                ).len() == 512 && hoff % 32 == 0 && hoff as int % 512 + 32 <= 512),
            r == Err::<DirEntry, FsError>(FsError::NotFound)
                ==> crate::fat::dir::dir_search_spec(
                *old(self),
                old(self).edisk(old(s).disk()),
                cluster.0,
                0,
                name.0@,
                ext.0@,
                0x1_0000nat,
            ) == Some(crate::fat::dir::SearchOutcome::Miss),
            r is Err ==> r == Err::<DirEntry, FsError>(FsError::NotFound) || r == Err::<
                DirEntry,
                FsError,
            >(FsError::CorruptChain) || r == Err::<DirEntry, FsError>(FsError::StorageError),
    {
        let ghost e0 = old(self).edisk(old(s).disk());
        let bpc = self.bytes_in_a_cluster();
        let mut cur_cl = cluster;
        let mut cur_off: u32 = 0;
        let mut budget: u32 = 0x1_0000;
        while budget > 0
            invariant
                self.wf(),
                self.consistent(s.disk()),
                FatFs::same_geometry(*old(self), *self),
                self.next_known_free_cluster == old(self).next_known_free_cluster,
                s.disk().len() == old(s).disk().len(),
                self.edisk(s.disk()) == e0,
                e0 == old(self).edisk(old(s).disk()),
                bpc == old(self).bytes_in_a_cluster_spec(),
                bpc >= 512,
                cur_off % 32 == 0,
                cur_off + 32 <= bpc,
                budget <= 0x1_0000,
                crate::fat::dir::dir_search_spec(
                    *old(self),
                    e0,
                    cluster.0,
                    0,
                    name.0@,
                    ext.0@,
                    0x1_0000nat,
                ) == crate::fat::dir::dir_search_spec(
                    *old(self),
                    e0,
                    cur_cl.0,
                    cur_off,
                    name.0@,
                    ext.0@,
                    budget as nat,
                ),
            decreases budget,
        {
            let probe = DirIter {
                current_cluster: cur_cl,
                current_offset: Some(cur_off),
                hit_end_offset: None,
            };
            let entry = match probe.read_raw(self, s, cur_off) {
                Ok(e) => e,
                Err(e) => {
                    return Err(e);
                },
            };
            proof {
                assert(old(self).cluster_start_sector_spec(cur_cl.0)
                    == self.cluster_start_sector_spec(cur_cl.0));
                assert(crate::fat::dir::dir_entry_at_ok(*old(self), e0, cur_cl.0, cur_off,
                    entry));
                assert(cur_off as int % 512 % 32 == cur_off as int % 32) by (nonlinear_arith)
                    requires cur_off as int >= 0;
                crate::fat::dir::lemma_entry_class(
                    *old(self),
                    e0,
                    cur_cl.0,
                    cur_off,
                    entry,
                    name.0@,
                    ext.0@,
                );
            }
            let is_end = match entry.state() {
                State::End => true,
                _ => false,
            };
            if is_end {
                return Err(FsError::NotFound);
            }
            let is_live = match entry.state() {
                State::Exists => true,
                _ => false,
            };
            if is_live && !entry.attributes.is_lfn() && crate::fat::dir::file_name_eq(
                &entry.file_name,
                name,
            ) && crate::fat::dir::file_ext_eq(&entry.file_ext, ext) {
                return Ok(entry);
            }
            // Advance to the next raw entry, stepping the chain at the
            // cluster's end.
            let ghost pcl = cur_cl;
            let ghost poff = cur_off;
            if cur_off + 32 < bpc {
                cur_off = cur_off + 32;
            } else {
                let num_clusters: u64 = (self.fat_table_size_in_sectors as u64) * 128;
                if (cur_cl.inner() as u64) >= num_clusters {
                    proof {
                        assert(crate::fat::dir::dir_step_spec(*old(self), e0, cur_cl.0,
                            cur_off) is None);
                    }
                    return Err(FsError::CorruptChain);
                }
                let v = match self.read_fat_entry(s, cur_cl) {
                    Ok(v) => v,
                    Err(_) => {
                        return Err(FsError::StorageError);
                    },
                };
                proof {
                    FatFs::lemma_fat_entry_same_geom(*old(self), *self, e0, pcl.0);
                }
                if v >= 0x0FFF_FFF8 {
                    proof {
                        assert(crate::fat::dir::dir_step_spec(*old(self), e0, cur_cl.0,
                            cur_off) is None);
                    }
                    return Err(FsError::CorruptChain);
                }
                cur_cl = ClusterIdx::new(v);
                cur_off = 0;
            }
            proof {
                assert(crate::fat::dir::dir_step_spec(*old(self), e0, pcl.0, poff) == Some((
                    cur_cl.0,
                    cur_off,
                )));
            }
            budget = budget - 1;
        }
        Err(FsError::CorruptChain)
    }

    /// Resolves a path of the form `/a/b/c`, component by component,
    /// matching names and extensions case-sensitively: every component
    /// but the last must be a directory. Yields the last component's
    /// entry and its parent directory's starting cluster.
    pub fn lookup_path<S: Storage>(&mut self, s: &mut S, path: &[u8]) -> (r: Result<
        (ClusterIdx, DirEntry),
        FsError,
    >)
        requires
            old(self).wf(),
            old(self).consistent(old(s).disk()),
        ensures
            final(self).wf(),
            final(self).consistent(final(s).disk()),
            FatFs::same_geometry(*old(self), *final(self)),
            final(self).next_known_free_cluster == old(self).next_known_free_cluster,
            final(s).disk().len() == old(s).disk().len(),
            final(self).edisk(final(s).disk()) == old(self).edisk(old(s).disk()),
            r matches Ok((parent, e)) ==> state_spec(e) == State::Exists,
            // The returned entry carries the path's last component as its
            // 8.3 name (paths ending in a slash resolve no entry).
            r matches Ok((parent, e)) ==> (path@.len() > 0 && path@[path@.len() - 1] != 0x2F
                ==> e.file_name.0@ == path_last_name_spec(path@) && e.file_ext.0@
                == path_last_ext_spec(path@)),
            path@.len() == 0 ==> r == Err::<(ClusterIdx, DirEntry), FsError>(FsError::NotFound),
            // The result follows the resolution of the path against the
            // directory tree: the entry sits where resolution finds it,
            // and each error names how resolution ends.
            r matches Ok((parent, e)) ==> (exists|hcl: u32, hoff: u32|
                #![trigger crate::fat::dir::dir_entry_at_ok(
                    *old(self),
                    old(self).edisk(old(s).disk()),
                    hcl,
                    hoff,
                    e,
                )]
                resolve_path_full(*old(self), old(self).edisk(old(s).disk()), path@) == Some(
                    PathResolution::Found(parent.0, hcl, hoff),
                ) && crate::fat::dir::dir_entry_at_ok(
                    *old(self),
                    old(self).edisk(old(s).disk()),
                    hcl,
                    hoff,
                    e,
                ) && crate::fat::dir::dir_search_spec(
                    *old(self),
                    old(self).edisk(old(s).disk()),
                    parent.0,
                    0,
                    e.file_name.0@,
                    e.file_ext.0@,
                    0x1_0000nat,
                ) == Some(crate::fat::dir::SearchOutcome::Hit(hcl, hoff))
                    && crate::fat::dir::entry_sector_at(
                    *old(self),
                    old(self).edisk(old(s).disk()),
                    hcl,
                    hoff,
                ).len() == 512 && hoff % 32 == 0 && hoff as int % 512 + 32 <= 512),
            r == Err::<(ClusterIdx, DirEntry), FsError>(FsError::NotFound) ==> resolve_path_full(
                *old(self),
                old(self).edisk(old(s).disk()),
                path@,
            ) == Some(PathResolution::Missing),
            r == Err::<(ClusterIdx, DirEntry), FsError>(FsError::NotADirectory)
                ==> resolve_path_full(*old(self), old(self).edisk(old(s).disk()), path@) == Some(
                PathResolution::NotDirectory,
            ),
            r is Err ==> r == Err::<(ClusterIdx, DirEntry), FsError>(FsError::NotFound) || r
                == Err::<(ClusterIdx, DirEntry), FsError>(FsError::NotADirectory) || r == Err::<
                (ClusterIdx, DirEntry),
                FsError,
            >(FsError::CorruptChain) || r == Err::<(ClusterIdx, DirEntry), FsError>(
                FsError::StorageError,
            ),
    {
        let ghost e0 = old(self).edisk(old(s).disk());
        let mut cluster = self.root_dir_cluster_num;
        let mut pos: usize = 0;
        if path.len() > 0 && path[0] == 0x2F {
            pos = 1;
        }
        let mut found: Option<(ClusterIdx, DirEntry)> = None;
        let ghost mut gpos: int = 0;
        let ghost mut gstop: int = 0;
        let ghost mut ghcl: u32 = 0;
        let ghost mut ghoff: u32 = 0;
        let ghost mut gfuel: nat = (path@.len() + 1) as nat;
        proof {
            assert(pos as int == path_start_spec(path@));
        }
        while pos < path.len()
            invariant
                self.wf(),
                self.consistent(s.disk()),
                FatFs::same_geometry(*old(self), *self),
                self.next_known_free_cluster == old(self).next_known_free_cluster,
                s.disk().len() == old(s).disk().len(),
                self.edisk(s.disk()) == e0,
                e0 == old(self).edisk(old(s).disk()),
                pos <= path@.len(),
                pos == 0 || pos == 1 || (found is Some),
                path@.len() == 0 ==> found is None,
                found matches Some((p, e)) ==> state_spec(e) == State::Exists,
                pos == 0 || path@[pos - 1] == 0x2F || (found is Some && gstop == pos),
                found matches Some((p, e)) ==> {
                    &&& 0 <= gpos < gstop <= path@.len()
                    &&& gstop <= pos
                    &&& (gpos == 0 || path@[gpos - 1] == 0x2F)
                    &&& (forall|i: int| gpos <= i < gstop ==> path@[i] != 0x2F)
                    &&& (gstop == path@.len() || path@[gstop] == 0x2F)
                    &&& (gstop < path@.len() ==> pos == gstop + 1)
                    &&& e.file_name.0@ == component_name_spec(path@.subrange(gpos, gstop))
                    &&& e.file_ext.0@ == component_ext_spec(path@.subrange(gpos, gstop))
                },
                gfuel >= path@.len() - pos + 1,
                found is None ==> resolve_path_full(*old(self), e0, path@) == resolve_path_spec(
                    *old(self),
                    e0,
                    cluster.0,
                    path@,
                    pos as int,
                    gfuel,
                ),
                found matches Some((p, e)) ==> {
                    &&& crate::fat::dir::dir_entry_at_ok(*old(self), e0, ghcl, ghoff, e)
                    &&& crate::fat::dir::entry_sector_at(*old(self), e0, ghcl, ghoff).len()
                        == 512
                    &&& ghoff % 32 == 0
                    &&& ghoff as int % 512 + 32 <= 512
                    &&& crate::fat::dir::dir_search_spec(
                        *old(self),
                        e0,
                        p.0,
                        0,
                        e.file_name.0@,
                        e.file_ext.0@,
                        0x1_0000nat,
                    ) == Some(crate::fat::dir::SearchOutcome::Hit(ghcl, ghoff))
                    &&& (pos >= path@.len() ==> resolve_path_full(*old(self), e0, path@)
                        == Some(PathResolution::Found(p.0, ghcl, ghoff)))
                    &&& (pos < path@.len() ==> resolve_path_full(*old(self), e0, path@) == (
                    if component_stop(path@, pos as int) == pos as int {
                        Some(PathResolution::Missing)
                    } else if !crate::fat::dir::entry_is_dir_at(*old(self), e0, ghcl, ghoff) {
                        Some(PathResolution::NotDirectory)
                    } else {
                        resolve_path_spec(
                            *old(self),
                            e0,
                            crate::fat::dir::entry_cluster_at(*old(self), e0, ghcl, ghoff),
                            path@,
                            pos as int,
                            gfuel,
                        )
                    }))
                },
            decreases path@.len() - pos,
        {
            // Slice out the next component.
            let mut stop: usize = pos;
            while stop < path.len() && path[stop] != 0x2F
                invariant
                    pos <= stop <= path@.len(),
                    forall|i: int| pos <= i < stop ==> path@[i] != 0x2F,
                decreases path@.len() - stop,
            {
                stop = stop + 1;
            }
            proof {
                lemma_component_stop(path@, pos as int, stop as int);
            }
            let mut comp: Vec<u8> = Vec::new();
            let mut q: usize = pos;
            while q < stop
                invariant
                    pos <= q <= stop,
                    stop <= path@.len(),
                    comp@.len() == q - pos,
                    forall|i: int| 0 <= i < q - pos ==> comp@[i] == path@[pos + i],
                decreases stop - q,
            {
                comp.push(path[q]);
                q = q + 1;
            }
            proof {
                assert(comp@ =~= path@.subrange(pos as int, stop as int));
            }
            if comp.len() == 0 {
                proof {
                    assert(resolve_path_full(*old(self), e0, path@) == Some(
                        PathResolution::Missing,
                    ));
                }
                return Err(FsError::NotFound);
            }
            // Descend into the directory found so far.
            match &found {
                None => {},
                Some((_, e)) => {
                    proof {
                        crate::fat::dir::lemma_entry_class(
                            *old(self),
                            e0,
                            ghcl,
                            ghoff,
                            *e,
                            e.file_name.0@,
                            e.file_ext.0@,
                        );
                    }
                    if !e.attributes.is_dir() {
                        proof {
                            assert(resolve_path_full(*old(self), e0, path@) == Some(
                                PathResolution::NotDirectory,
                            ));
                        }
                        return Err(FsError::NotADirectory);
                    }
                    cluster = e.cluster_idx();
                },
            }
            proof {
                assert(resolve_path_full(*old(self), e0, path@) == resolve_path_spec(
                    *old(self),
                    e0,
                    cluster.0,
                    path@,
                    pos as int,
                    gfuel,
                ));
            }
            let (name, ext) = FatFs::component_name_ext(comp.as_slice());
            let ghost fsc = *self;
            let entry = match self.find_in_dir(s, cluster, &name, &ext) {
                Ok(e) => e,
                Err(e) => {
                    proof {
                        crate::fat::dir::lemma_dir_search_same_geom(
                            fsc,
                            *old(self),
                            e0,
                            cluster.0,
                            0,
                            name.0@,
                            ext.0@,
                            0x1_0000nat,
                        );
                    }
                    return Err(e);
                },
            };
            proof {
                crate::fat::dir::lemma_dir_search_same_geom(
                    fsc,
                    *old(self),
                    e0,
                    cluster.0,
                    0,
                    name.0@,
                    ext.0@,
                    0x1_0000nat,
                );
                let (hcl, hoff) = choose|hcl: u32, hoff: u32|
                    #![trigger crate::fat::dir::dir_entry_at_ok(fsc, e0, hcl, hoff, entry)]
                    crate::fat::dir::dir_search_spec(
                        fsc,
                        e0,
                        cluster.0,
                        0,
                        name.0@,
                        ext.0@,
                        0x1_0000nat,
                    ) == Some(crate::fat::dir::SearchOutcome::Hit(hcl, hoff))
                        && crate::fat::dir::dir_entry_at_ok(fsc, e0, hcl, hoff, entry)
                        && crate::fat::dir::entry_sector_at(fsc, e0, hcl, hoff).len() == 512
                        && hoff % 32 == 0 && hoff as int % 512 + 32 <= 512;
                ghcl = hcl;
                ghoff = hoff;
                assert(fsc.cluster_start_sector_spec(hcl) == old(self).cluster_start_sector_spec(
                    hcl,
                ));
                assert(crate::fat::dir::dir_entry_at_ok(*old(self), e0, ghcl, ghoff, entry));
                assert(crate::fat::dir::entry_sector_at(*old(self), e0, ghcl, ghoff)
                    =~= crate::fat::dir::entry_sector_at(fsc, e0, ghcl, ghoff));
            }
            found = Some((cluster, entry));
            proof {
                gpos = pos as int;
                gstop = stop as int;
                if stop + 1 < path@.len() {
                    gfuel = (gfuel - 1) as nat;
                }
            }
            pos = if stop < path.len() {
                stop + 1
            } else {
                stop
            };
        }
        match found {
            Some(hit) => {
                proof {
                    if path@.len() > 0 && path@[path@.len() - 1] != 0x2F {
                        assert(gstop == path@.len()) by {
                            if gstop < path@.len() {
                                assert(path@[gstop] == 0x2F);
                                assert(pos == gstop + 1);
                                assert(gstop == path@.len() - 1);
                            }
                        }
                        lemma_last_component(path@, gpos);
                    }
                    assert(crate::fat::dir::dir_entry_at_ok(*old(self), e0, ghcl, ghoff, hit.1));
                }
                Ok(hit)
            },
            None => {
                proof {
                    assert(resolve_path_full(*old(self), e0, path@) == Some(
                        PathResolution::Missing,
                    ));
                }
                Err(FsError::NotFound)
            },
        }
    }

    /// Lists the live entries of the directory at `path`, in directory
    /// order with deleted entries and long-filename fragments left out;
    /// an empty path or `/` lists the root directory.
    #[verifier::rlimit(100)]
    pub fn dir_list<S: Storage>(&mut self, s: &mut S, path: &[u8]) -> (r: Result<
        Vec<DirEntry>,
        FsError,
    >)
        requires
            old(self).wf(),
            old(self).consistent(old(s).disk()),
        ensures
            final(self).wf(),
            final(self).consistent(final(s).disk()),
            FatFs::same_geometry(*old(self), *final(self)),
            final(self).next_known_free_cluster == old(self).next_known_free_cluster,
            final(s).disk().len() == old(s).disk().len(),
            final(self).edisk(final(s).disk()) == old(self).edisk(old(s).disk()),
            // The vector holds exactly the walked directory's live
            // non-fragment entries, in order.
            r matches Ok(v) ==> (exists|dcl: u32, raw: Seq<DirEntry>, fuel: nat|
                #![trigger crate::fat::dir::dir_raw_entries_spec(
                    *old(self),
                    old(self).edisk(old(s).disk()),
                    dcl,
                    0,
                    fuel,
                ), crate::fat::dir::live_entries(raw)]
                {
                    &&& fuel <= 0x1_0000
                    &&& ((path@.len() == 0 || (path@.len() == 1 && path@[0] == 0x2F))
                        ==> dcl == old(self).root_dir_cluster_num.0)
                    &&& (!(path@.len() == 0 || (path@.len() == 1 && path@[0] == 0x2F))
                        ==> (resolve_path_full(
                        *old(self),
                        old(self).edisk(old(s).disk()),
                        path@,
                    ) matches Some(PathResolution::Found(pcl, hcl, hoff))
                        && crate::fat::dir::entry_is_dir_at(
                        *old(self),
                        old(self).edisk(old(s).disk()),
                        hcl,
                        hoff,
                    ) && dcl == crate::fat::dir::entry_cluster_at(
                        *old(self),
                        old(self).edisk(old(s).disk()),
                        hcl,
                        hoff,
                    )))
                    &&& crate::fat::dir::dir_raw_entries_spec(
                        *old(self),
                        old(self).edisk(old(s).disk()),
                        dcl,
                        0,
                        fuel,
                    ) == Some(raw)
                    &&& v@ == crate::fat::dir::live_entries(raw)
                }),
            r matches Ok(v) ==> forall|i: int|
                0 <= i < v@.len() ==> state_spec(#[trigger] v@[i]) == State::Exists,
            // Each path error names how resolving the path ends.
            r == Err::<Vec<DirEntry>, FsError>(FsError::NotFound) ==> resolve_path_full(
                *old(self),
                old(self).edisk(old(s).disk()),
                path@,
            ) == Some(PathResolution::Missing),
            r == Err::<Vec<DirEntry>, FsError>(FsError::NotADirectory) ==> resolve_path_full(
                *old(self),
                old(self).edisk(old(s).disk()),
                path@,
            ) == Some(PathResolution::NotDirectory) || (resolve_path_full(
                *old(self),
                old(self).edisk(old(s).disk()),
                path@,
            ) matches Some(PathResolution::Found(pcl, hcl, hoff))
                && !crate::fat::dir::entry_is_dir_at(
                *old(self),
                old(self).edisk(old(s).disk()),
                hcl,
                hoff,
            )),
            r is Err ==> r == Err::<Vec<DirEntry>, FsError>(FsError::NotFound) || r == Err::<
                Vec<DirEntry>,
                FsError,
            >(FsError::NotADirectory) || r == Err::<Vec<DirEntry>, FsError>(
                FsError::CorruptChain,
            ) || r == Err::<Vec<DirEntry>, FsError>(FsError::StorageError),
    {
        let ghost e0 = old(self).edisk(old(s).disk());
        let ghost e00 = old(self).edisk(old(s).disk());
        let is_root = path.len() == 0 || (path.len() == 1 && path[0] == 0x2F);
        let cluster = if is_root {
            self.root_dir_cluster_num
        } else {
            let (parent, entry) = match self.lookup_path(s, path) {
                Ok(v) => v,
                Err(e) => {
                    return Err(e);
                },
            };
            proof {
                let (hcl, hoff) = choose|hcl: u32, hoff: u32|
                    #![trigger crate::fat::dir::dir_entry_at_ok(*old(self), e00, hcl, hoff, entry)]
                    resolve_path_full(*old(self), e00, path@) == Some(
                        PathResolution::Found(parent.0, hcl, hoff),
                    ) && crate::fat::dir::dir_entry_at_ok(*old(self), e00, hcl, hoff, entry)
                        && crate::fat::dir::dir_search_spec(
                        *old(self),
                        e00,
                        parent.0,
                        0,
                        entry.file_name.0@,
                        entry.file_ext.0@,
                        0x1_0000nat,
                    ) == Some(crate::fat::dir::SearchOutcome::Hit(hcl, hoff))
                        && crate::fat::dir::entry_sector_at(*old(self), e00, hcl, hoff).len()
                        == 512 && hoff % 32 == 0 && hoff as int % 512 + 32 <= 512;
                crate::fat::dir::lemma_entry_class(
                    *old(self),
                    e00,
                    hcl,
                    hoff,
                    entry,
                    entry.file_name.0@,
                    entry.file_ext.0@,
                );
            }
            if !entry.attributes.is_dir() {
                return Err(FsError::NotADirectory);
            }
            entry.cluster_idx()
        };
        let bpc = self.bytes_in_a_cluster();
        let mut cur_cl = cluster;
        let mut cur_off: u32 = 0;
        let mut out: Vec<DirEntry> = Vec::new();
        let ghost gprefix: Seq<DirEntry> = Seq::empty();
        let mut gprefix_holder = Ghost(gprefix);
        let mut budget: u32 = 0x1_0000;
        while budget > 0
            invariant
                self.wf(),
                self.consistent(s.disk()),
                FatFs::same_geometry(*old(self), *self),
                self.next_known_free_cluster == old(self).next_known_free_cluster,
                s.disk().len() == old(s).disk().len(),
                self.edisk(s.disk()) == e0,
                e0 == old(self).edisk(old(s).disk()),
                bpc == old(self).bytes_in_a_cluster_spec(),
                bpc >= 512,
                cur_off % 32 == 0,
                cur_off + 32 <= bpc,
                budget <= 0x1_0000,
                out@ == crate::fat::dir::live_entries(gprefix_holder@),
                is_root == (path@.len() == 0 || (path@.len() == 1 && path@[0] == 0x2F)),
                is_root ==> cluster.0 == old(self).root_dir_cluster_num.0,
                !is_root ==> (resolve_path_full(*old(self), e0, path@) matches Some(
                    PathResolution::Found(pcl, hcl, hoff),
                ) && crate::fat::dir::entry_is_dir_at(*old(self), e0, hcl, hoff) && cluster.0
                    == crate::fat::dir::entry_cluster_at(*old(self), e0, hcl, hoff)),
                forall|rest: Seq<DirEntry>|
                    #![trigger gprefix_holder@.add(rest)]
                    crate::fat::dir::dir_raw_entries_spec(
                        *old(self),
                        e0,
                        cur_cl.0,
                        cur_off,
                        budget as nat,
                    ) == Some(rest) ==> crate::fat::dir::dir_raw_entries_spec(
                        *old(self),
                        e0,
                        cluster.0,
                        0,
                        0x1_0000nat,
                    ) == Some(gprefix_holder@.add(rest)),
            decreases budget,
        {
            let probe = DirIter {
                current_cluster: cur_cl,
                current_offset: Some(cur_off),
                hit_end_offset: None,
            };
            let entry = match probe.read_raw(self, s, cur_off) {
                Ok(e) => e,
                Err(e) => {
                    return Err(e);
                },
            };
            proof {
                // The decode holds against the volume as it was mounted.
                assert(old(self).cluster_start_sector_spec(cur_cl.0)
                    == self.cluster_start_sector_spec(cur_cl.0));
                assert(crate::fat::dir::dir_entry_at_ok(*old(self), e0, cur_cl.0, cur_off,
                    entry));
            }
            let is_end = match entry.state() {
                State::End => true,
                _ => false,
            };
            if is_end {
                proof {
                    crate::fat::dir::lemma_dir_raw_end(
                        *old(self),
                        e0,
                        cur_cl.0,
                        cur_off,
                        budget as nat,
                        entry,
                    );
                    assert(gprefix_holder@.add(Seq::<DirEntry>::empty()) =~= gprefix_holder@);
                    assert(crate::fat::dir::dir_raw_entries_spec(
                        *old(self),
                        e0,
                        cluster.0,
                        0,
                        0x1_0000nat,
                    ) == Some(gprefix_holder@));
                }
                return Ok(out);
            }
            // Advance to the next raw entry, stepping the chain at the
            // cluster's end.
            let ghost pcl = cur_cl;
            let ghost poff = cur_off;
            if cur_off + 32 < bpc {
                cur_off = cur_off + 32;
            } else {
                let num_clusters: u64 = (self.fat_table_size_in_sectors as u64) * 128;
                if (cur_cl.inner() as u64) >= num_clusters {
                    return Err(FsError::CorruptChain);
                }
                let v = match self.read_fat_entry(s, cur_cl) {
                    Ok(v) => v,
                    Err(_) => {
                        return Err(FsError::StorageError);
                    },
                };
                if v >= 0x0FFF_FFF8 {
                    return Err(FsError::CorruptChain);
                }
                proof {
                    FatFs::lemma_fat_entry_same_geom(*old(self), *self, e0, pcl.0);
                }
                cur_cl = ClusterIdx::new(v);
                cur_off = 0;
            }
            let keep = match entry.state() {
                State::Exists => !entry.attributes.is_lfn(),
                _ => false,
            };
            if keep {
                out.push(entry);
            }
            proof {
                assert(crate::fat::dir::dir_step_spec(*old(self), e0, pcl.0, poff) == Some((
                    cur_cl.0,
                    cur_off,
                )));
                let newprefix = gprefix_holder@.push(entry);
                assert forall|rest: Seq<DirEntry>|
                    crate::fat::dir::dir_raw_entries_spec(
                        *old(self),
                        e0,
                        cur_cl.0,
                        cur_off,
                        (budget - 1) as nat,
                    ) == Some(rest) implies #[trigger] crate::fat::dir::dir_raw_entries_spec(
                    *old(self),
                    e0,
                    cluster.0,
                    0,
                    0x1_0000nat,
                ) == Some(newprefix.add(rest)) by {
                    crate::fat::dir::lemma_dir_raw_step(
                        *old(self),
                        e0,
                        pcl.0,
                        poff,
                        budget as nat,
                        entry,
                        rest,
                        cur_cl.0,
                        cur_off,
                    );
                    assert(gprefix_holder@.add(seq![entry].add(rest)) =~= newprefix.add(rest));
                }
                crate::fat::dir::lemma_live_push(gprefix_holder@, entry);
                gprefix_holder@ = newprefix;
            }
            budget = budget - 1;
        }
        Err(FsError::CorruptChain)
    }

    /// Marks the entry at `path` deleted: a live directory entry whose
    /// name and extension match the path's last component has the first
    /// byte of its name overwritten with `0xE5` on the effective disk,
    /// and nothing else changes. The file's clusters are not reclaimed.
    pub fn delete_path<S: Storage>(&mut self, s: &mut S, path: &[u8]) -> (r: Result<(), FsError>)
        requires
            old(self).wf(),
            old(self).consistent(old(s).disk()),
        ensures
            final(self).wf(),
            final(self).consistent(final(s).disk()),
            FatFs::same_geometry(*old(self), *final(self)),
            final(self).next_known_free_cluster == old(self).next_known_free_cluster,
            final(s).disk().len() == old(s).disk().len(),
            r is Ok ==> (exists|cl: u32, off: u32, found: DirEntry|
                #![trigger crate::fat::dir::dir_entry_at_ok(
                    *old(self),
                    old(self).edisk(old(s).disk()),
                    cl,
                    off,
                    found,
                )]
                {
                    let e0 = old(self).edisk(old(s).disk());
                    let e1 = final(self).edisk(final(s).disk());
                    let base = old(self).cluster_start_sector_spec(cl);
                    &&& crate::fat::dir::dir_entry_at_ok(*old(self), e0, cl, off, found)
                    &&& state_spec(found) == State::Exists
                    &&& (path@.len() > 0 && path@[path@.len() - 1] != 0x2F
                        ==> found.file_name.0@ == path_last_name_spec(path@)
                        && found.file_ext.0@ == path_last_ext_spec(path@))
                    &&& e1.len() == e0.len()
                    &&& e1[base + off as int / 512][off as int % 512] == 0xE5
                    &&& (forall|j: int, k: int|
                        #![trigger e1[j][k]]
                        0 <= j < e0.len() && 0 <= k < 512 && !(j == base + off as int / 512 && k
                            == off as int % 512) ==> e1[j][k] == e0[j][k])
                }),
            // Each path error names how resolving the path ends.
            r == Err::<(), FsError>(FsError::NotFound) ==> resolve_path_full(
                *old(self),
                old(self).edisk(old(s).disk()),
                path@,
            ) == Some(PathResolution::Missing),
            r == Err::<(), FsError>(FsError::NotADirectory) ==> resolve_path_full(
                *old(self),
                old(self).edisk(old(s).disk()),
                path@,
            ) == Some(PathResolution::NotDirectory),
            r is Err ==> r == Err::<(), FsError>(FsError::NotFound) || r == Err::<(), FsError>(
                FsError::NotADirectory,
            ) || r == Err::<(), FsError>(FsError::CorruptChain) || r == Err::<(), FsError>(
                FsError::StorageError,
            ),
    {
        let ghost e0 = old(self).edisk(old(s).disk());
        let (parent, entry) = match self.lookup_path(s, path) {
            Ok(v) => v,
            Err(e) => {
                return Err(e);
            },
        };
        let ghost fsmid = *self;
        let ghost diskmid = s.disk();
        let mut it = DirIter::from_cluster(parent);
        match it.delete(self, s, &entry) {
            Ok(()) => {
                proof {
                    let (cl, off, found) = choose|cl: u32, off: u32, found: DirEntry|
                        #![trigger crate::fat::dir::dir_entry_at_ok(
                            fsmid,
                            fsmid.edisk(diskmid),
                            cl,
                            off,
                            found,
                        )]
                        {
                            let em = fsmid.edisk(diskmid);
                            let e1 = self.edisk(s.disk());
                            let base = fsmid.cluster_start_sector_spec(cl);
                            &&& crate::fat::dir::dir_entry_at_ok(fsmid, em, cl, off, found)
                            &&& crate::fat::dir::entry_matches(
                                found,
                                entry.file_name.0@,
                                entry.file_ext.0@,
                            )
                            &&& e1.len() == em.len()
                            &&& e1[base + off as int / 512][off as int % 512] == 0xE5
                            &&& (forall|j: int, k: int|
                                #![trigger e1[j][k]]
                                0 <= j < em.len() && 0 <= k < 512 && !(j == base + off as int
                                    / 512 && k == off as int % 512) ==> e1[j][k] == em[j][k])
                        };
                    assert(old(self).cluster_start_sector_spec(cl)
                        == fsmid.cluster_start_sector_spec(cl));
                    assert(fsmid.edisk(diskmid) == e0);
                    assert(crate::fat::dir::dir_entry_at_ok(*old(self), e0, cl, off, found));
                }
                Ok(())
            },
            Err(e) => match e {
                FsError::NotFound => {
                    proof {
                        // The lookup has just found a live match in this
                        // directory; a miss on the same search cannot
                        // happen on the unchanged effective disk.
                        crate::fat::dir::lemma_dir_search_same_geom(
                            fsmid,
                            *old(self),
                            e0,
                            parent.0,
                            0,
                            entry.file_name.0@,
                            entry.file_ext.0@,
                            0x1_0000nat,
                        );
                        assert(fsmid.edisk(diskmid) == e0);
                        assert(false);
                    }
                    Err(FsError::NotFound)
                },
                FsError::CorruptChain => Err(FsError::CorruptChain),
                _ => Err(FsError::StorageError),
            },
        }
    }
}

impl FatFs {
    /// The cluster reached from `c` after following `skips` FAT links.
    pub open spec fn cluster_at_spec(self, e: Seq<Seq<u8>>, c: u32, skips: nat) -> u32
        decreases skips,
    {
        if skips == 0 {
            c
        } else {
            self.cluster_at_spec(e, self.fat_entry_spec(e, c), (skips - 1) as nat)
        }
    }

    /// Byte `pos` of the file whose data starts at cluster `start`:
    /// follow the chain to the right cluster, then index into its data.
    pub open spec fn file_byte_spec(self, e: Seq<Seq<u8>>, start: u32, pos: nat) -> u8 {
        let bpc = self.bytes_in_a_cluster_spec() as nat;
        let c = self.cluster_at_spec(e, start, pos / bpc);
        edisk_byte(e, self.cluster_start_sector_spec(c), 0, (pos % bpc) as int)
    }

    /// Reads `buffer.len()` bytes of the resolved file entry's data,
    /// starting at byte `offset`, following the file's cluster chain.
    #[verifier::rlimit(100)]
    fn read_file_at<S: Storage>(
        &mut self,
        s: &mut S,
        entry: &DirEntry,
        offset: u32,
        buffer: &mut Vec<u8>,
    ) -> (r: Result<(), FsError>)
        requires
            old(self).wf(),
            old(self).consistent(old(s).disk()),
            old(buffer)@.len() <= u32::MAX,
            offset + old(buffer)@.len() <= u32::MAX,
        ensures
            final(self).wf(),
            final(self).consistent(final(s).disk()),
            FatFs::same_geometry(*old(self), *final(self)),
            final(self).next_known_free_cluster == old(self).next_known_free_cluster,
            final(s).disk().len() == old(s).disk().len(),
            final(self).edisk(final(s).disk()) == old(self).edisk(old(s).disk()),
            final(buffer)@.len() == old(buffer)@.len(),
            r is Ok ==> (forall|i: int|
                0 <= i < old(buffer)@.len() ==> #[trigger] final(buffer)@[i] == old(
                    self,
                ).file_byte_spec(
                    old(self).edisk(old(s).disk()),
                    cluster_of_halves(entry.cluster_num_upper, entry.cluster_num_lower),
                    (offset + i) as nat,
                )),
            r is Err ==> r == Err::<(), FsError>(FsError::CorruptChain) || r == Err::<
                (),
                FsError,
            >(FsError::StorageError),
    {
        let ghost e0 = old(self).edisk(old(s).disk());
        let len = buffer.len();
        let start = entry.cluster_idx();
        let bpc = self.bytes_in_a_cluster();
        let mut cluster = start;
        let mut skips: u64 = 0;
        let mut cur: u32 = offset;
        let mut i: usize = 0;
        // Walk the chain up to the cluster holding `offset`, then read
        // byte by byte, stepping the chain at each cluster boundary.
        while i < len
            invariant
                self.wf(),
                self.consistent(s.disk()),
                FatFs::same_geometry(*old(self), *self),
                self.next_known_free_cluster == old(self).next_known_free_cluster,
                s.disk().len() == old(s).disk().len(),
                self.edisk(s.disk()) == e0,
                e0 == old(self).edisk(old(s).disk()),
                buffer@.len() == len,
                len == old(buffer)@.len(),
                i <= len,
                bpc == self.bytes_in_a_cluster_spec(),
                bpc >= 512,
                offset + len <= u32::MAX,
                cur as int + (skips as int) * (bpc as int) == offset + i,
                cluster.0 == old(self).cluster_at_spec(e0, start.0, skips as nat),
                forall|k: int|
                    0 <= k < i ==> #[trigger] buffer@[k] == old(self).file_byte_spec(
                        e0,
                        start.0,
                        (offset + k) as nat,
                    ),
            decreases len - i,
        {
            while cur >= bpc
                invariant
                    self.wf(),
                    self.consistent(s.disk()),
                    FatFs::same_geometry(*old(self), *self),
                    self.next_known_free_cluster == old(self).next_known_free_cluster,
                    s.disk().len() == old(s).disk().len(),
                    self.edisk(s.disk()) == e0,
                    e0 == old(self).edisk(old(s).disk()),
                    bpc == self.bytes_in_a_cluster_spec(),
                    bpc >= 512,
                    buffer@.len() == len,
                    len == old(buffer)@.len(),
                    i < len,
                    offset + len <= u32::MAX,
                    cur as int + (skips as int) * (bpc as int) == offset + i,
                    cluster.0 == old(self).cluster_at_spec(e0, start.0, skips as nat),
                decreases cur,
            {
                let num_clusters: u64 = (self.fat_table_size_in_sectors as u64) * 128;
                if (cluster.inner() as u64) >= num_clusters {
                    return Err(FsError::CorruptChain);
                }
                let nxt = match self.read_fat_entry(s, cluster) {
                    Ok(v) => v,
                    Err(_) => {
                        return Err(FsError::StorageError);
                    },
                };
                if nxt >= 0x0FFF_FFF8 {
                    return Err(FsError::CorruptChain);
                }
                proof {
                    FatFs::lemma_fat_entry_same_geom(*old(self), *self, e0, cluster.0);
                    old(self).lemma_cluster_at_tail(e0, start.0, skips as nat);
                    assert((skips as int + 1) * (bpc as int) == (skips as int) * (bpc as int)
                        + bpc as int) by (nonlinear_arith);
                }
                proof {
                    assert(skips < 0x1_0000_0000) by (nonlinear_arith)
                        requires
                            (skips as int) * (bpc as int) <= 0xFFFF_FFFF,
                            bpc >= 512;
                }
                cur = cur - bpc;
                skips = skips + 1;
                cluster = ClusterIdx::new(nxt);
            }
            let (sector, inoff) = self.cluster_to_sector(cluster, cur);
            let mut one: Vec<u8> = Vec::new();
            one.push(0);
            match self.read(s, sector, inoff, &mut one) {
                Ok(()) => {},
                Err(FsError::OutOfRange) => {
                    return Err(FsError::CorruptChain);
                },
                Err(_) => {
                    return Err(FsError::StorageError);
                },
            }
            let b = one[0];
            buffer[i] = b;
            proof {
                vstd::arithmetic::div_mod::lemma_fundamental_div_mod_converse(
                    (offset + i) as int,
                    bpc as int,
                    skips as int,
                    cur as int,
                );
                assert(b == edisk_byte(e0, sector.0 as int, inoff as int, 0));
                vstd::arithmetic::div_mod::lemma_fundamental_div_mod(cur as int, 512);
                assert(sector.0 as int + (inoff as int + 0) / 512 == self.cluster_start_sector_spec(
                    cluster.0,
                ) + cur as int / 512 && (inoff as int + 0) % 512 == cur as int % 512);
                assert(edisk_byte(e0, self.cluster_start_sector_spec(cluster.0), 0, cur as int)
                    == edisk_byte(e0, sector.0 as int, inoff as int, 0));
                assert(old(self).cluster_start_sector_spec(cluster.0)
                    == self.cluster_start_sector_spec(cluster.0));
                assert(buffer@[i as int] == old(self).file_byte_spec(
                    e0,
                    start.0,
                    (offset + i) as nat,
                ));
            }
            i = i + 1;
            cur = cur + 1;
        }
        proof {
            assert(old(self).cluster_at_spec(e0, start.0, 0) == start.0);
            assert(start.0 == cluster_of_halves(entry.cluster_num_upper, entry.cluster_num_lower));
        }
        Ok(())
    }

    /// Reads `buffer.len()` bytes of the file at `path`, starting at byte
    /// `offset` of its data, following the file's cluster chain.
    pub fn read_file<S: Storage>(
        &mut self,
        s: &mut S,
        path: &[u8],
        offset: u32,
        buffer: &mut Vec<u8>,
    ) -> (r: Result<(), FsError>)
        requires
            old(self).wf(),
            old(self).consistent(old(s).disk()),
            old(buffer)@.len() <= u32::MAX,
            offset + old(buffer)@.len() <= u32::MAX,
        ensures
            final(self).wf(),
            final(self).consistent(final(s).disk()),
            FatFs::same_geometry(*old(self), *final(self)),
            final(self).next_known_free_cluster == old(self).next_known_free_cluster,
            final(s).disk().len() == old(s).disk().len(),
            final(self).edisk(final(s).disk()) == old(self).edisk(old(s).disk()),
            final(buffer)@.len() == old(buffer)@.len(),
            // The bytes come from the file the path resolves to: a live
            // file entry carrying the path's last component, whose size
            // covers the requested range; the read follows its chain.
            r is Ok ==> (exists|entry: DirEntry|
                #![trigger state_spec(entry)]
                {
                    &&& state_spec(entry) == State::Exists
                    &&& entry.attributes.is_file_spec()
                    &&& (path@.len() > 0 && path@[path@.len() - 1] != 0x2F
                        ==> entry.file_name.0@ == path_last_name_spec(path@)
                        && entry.file_ext.0@ == path_last_ext_spec(path@))
                    &&& offset + old(buffer)@.len() <= entry.file_size
                    &&& (forall|i: int|
                        0 <= i < old(buffer)@.len() ==> #[trigger] final(buffer)@[i] == old(
                            self,
                        ).file_byte_spec(
                            old(self).edisk(old(s).disk()),
                            cluster_of_halves(entry.cluster_num_upper, entry.cluster_num_lower),
                            (offset + i) as nat,
                        ))
                }),
            // The range error comes exactly from the resolved file's size.
            r == Err::<(), FsError>(FsError::OutOfRange) ==> (exists|entry: DirEntry|
                #![trigger state_spec(entry)]
                {
                    &&& state_spec(entry) == State::Exists
                    &&& entry.attributes.is_file_spec()
                    &&& (path@.len() > 0 && path@[path@.len() - 1] != 0x2F
                        ==> entry.file_name.0@ == path_last_name_spec(path@)
                        && entry.file_ext.0@ == path_last_ext_spec(path@))
                    &&& offset + old(buffer)@.len() > entry.file_size
                }),
            // Each path error names how resolving the path ends.
            r == Err::<(), FsError>(FsError::NotFound) ==> resolve_path_full(*old(self), old(self).edisk(old(s).disk()), path@) == Some(
                PathResolution::Missing,
            ),
            r == Err::<(), FsError>(FsError::NotADirectory) ==> resolve_path_full(*old(self), old(self).edisk(old(s).disk()), path@) == Some(
                PathResolution::NotDirectory,
            ),
            r == Err::<(), FsError>(FsError::NotAFile) ==> (resolve_path_full(
                *old(self),
                old(self).edisk(old(s).disk()),
                path@,
            ) matches Some(PathResolution::Found(pcl, hcl, hoff))
                && !crate::fat::dir::entry_is_file_at(
                *old(self),
                old(self).edisk(old(s).disk()),
                hcl,
                hoff,
            )),
            r is Err ==> r == Err::<(), FsError>(FsError::NotFound) || r == Err::<(), FsError>(
                FsError::NotADirectory,
            ) || r == Err::<(), FsError>(FsError::NotAFile) || r == Err::<(), FsError>(
                FsError::OutOfRange,
            ) || r == Err::<(), FsError>(FsError::CorruptChain) || r == Err::<(), FsError>(
                FsError::StorageError,
            ),
    {
        let ghost e00 = old(self).edisk(old(s).disk());
        let len = buffer.len();
        let (parent, entry) = match self.lookup_path(s, path) {
            Ok(v) => v,
            Err(e) => {
                return Err(e);
            },
        };
        if !entry.attributes.is_file() {
            proof {
                let (hcl, hoff) = choose|hcl: u32, hoff: u32|
                    #![trigger crate::fat::dir::dir_entry_at_ok(*old(self), e00, hcl, hoff, entry)]
                    resolve_path_full(*old(self), e00, path@) == Some(
                        PathResolution::Found(parent.0, hcl, hoff),
                    ) && crate::fat::dir::dir_entry_at_ok(*old(self), e00, hcl, hoff, entry)
                        && crate::fat::dir::dir_search_spec(
                        *old(self),
                        e00,
                        parent.0,
                        0,
                        entry.file_name.0@,
                        entry.file_ext.0@,
                        0x1_0000nat,
                    ) == Some(crate::fat::dir::SearchOutcome::Hit(hcl, hoff))
                        && crate::fat::dir::entry_sector_at(*old(self), e00, hcl, hoff).len()
                        == 512 && hoff % 32 == 0 && hoff as int % 512 + 32 <= 512;
                crate::fat::dir::lemma_entry_class(
                    *old(self),
                    e00,
                    hcl,
                    hoff,
                    entry,
                    entry.file_name.0@,
                    entry.file_ext.0@,
                );
                assert(!crate::fat::dir::entry_is_file_at(*old(self), e00, hcl, hoff));
            }
            return Err(FsError::NotAFile);
        }
        if (offset as u64) + (len as u64) > (entry.file_size as u64) {
            proof {
                assert(state_spec(entry) == State::Exists);
            }
            return Err(FsError::OutOfRange);
        }
        let ghost fsmid = *self;
        let ghost e0 = old(self).edisk(old(s).disk());
        match self.read_file_at(s, &entry, offset, buffer) {
            Ok(()) => {
                proof {
                    assert(state_spec(entry) == State::Exists);
                    let start = cluster_of_halves(entry.cluster_num_upper, entry.cluster_num_lower);
                    assert forall|i: int| 0 <= i < old(buffer)@.len() implies
                        #[trigger] buffer@[i] == old(self).file_byte_spec(
                        e0,
                        start,
                        (offset + i) as nat,
                    ) by {
                        FatFs::lemma_file_byte_same_geom(
                            *old(self),
                            fsmid,
                            e0,
                            start,
                            (offset + i) as nat,
                        );
                    }
                }
                Ok(())
            },
            Err(e) => Err(e),
        }
    }

    /// Reads the whole file at `path` into a fresh byte vector: exactly
    /// `file_size` bytes of the file the path resolves to.
    pub fn read_file_all<S: Storage>(&mut self, s: &mut S, path: &[u8]) -> (r: Result<
        Vec<u8>,
        FsError,
    >)
        requires
            old(self).wf(),
            old(self).consistent(old(s).disk()),
        ensures
            final(self).wf(),
            final(self).consistent(final(s).disk()),
            FatFs::same_geometry(*old(self), *final(self)),
            final(self).next_known_free_cluster == old(self).next_known_free_cluster,
            final(s).disk().len() == old(s).disk().len(),
            final(self).edisk(final(s).disk()) == old(self).edisk(old(s).disk()),
            r matches Ok(v) ==> (exists|entry: DirEntry|
                #![trigger state_spec(entry)]
                {
                    &&& state_spec(entry) == State::Exists
                    &&& entry.attributes.is_file_spec()
                    &&& (path@.len() > 0 && path@[path@.len() - 1] != 0x2F
                        ==> entry.file_name.0@ == path_last_name_spec(path@)
                        && entry.file_ext.0@ == path_last_ext_spec(path@))
                    &&& v@.len() == entry.file_size
                    &&& (forall|i: int|
                        0 <= i < v@.len() ==> #[trigger] v@[i] == old(self).file_byte_spec(
                            old(self).edisk(old(s).disk()),
                            cluster_of_halves(entry.cluster_num_upper, entry.cluster_num_lower),
                            i as nat,
                        ))
                }),
            // Each path error names how resolving the path ends.
            r == Err::<Vec<u8>, FsError>(FsError::NotFound) ==> resolve_path_full(
                *old(self),
                old(self).edisk(old(s).disk()),
                path@,
            ) == Some(PathResolution::Missing),
            r == Err::<Vec<u8>, FsError>(FsError::NotADirectory) ==> resolve_path_full(
                *old(self),
                old(self).edisk(old(s).disk()),
                path@,
            ) == Some(PathResolution::NotDirectory),
            r == Err::<Vec<u8>, FsError>(FsError::NotAFile) ==> (resolve_path_full(
                *old(self),
                old(self).edisk(old(s).disk()),
                path@,
            ) matches Some(PathResolution::Found(pcl, hcl, hoff))
                && !crate::fat::dir::entry_is_file_at(
                *old(self),
                old(self).edisk(old(s).disk()),
                hcl,
                hoff,
            )),
            r is Err ==> r == Err::<Vec<u8>, FsError>(FsError::NotFound) || r == Err::<
                Vec<u8>,
                FsError,
            >(FsError::NotADirectory) || r == Err::<Vec<u8>, FsError>(FsError::NotAFile) || r
                == Err::<Vec<u8>, FsError>(FsError::OutOfRange) || r == Err::<Vec<u8>, FsError>(
                FsError::CorruptChain,
            ) || r == Err::<Vec<u8>, FsError>(FsError::StorageError),
    {
        let ghost e00 = old(self).edisk(old(s).disk());
        let (parent, entry) = match self.lookup_path(s, path) {
            Ok(v) => v,
            Err(e) => {
                return Err(e);
            },
        };
        if !entry.attributes.is_file() {
            proof {
                let (hcl, hoff) = choose|hcl: u32, hoff: u32|
                    #![trigger crate::fat::dir::dir_entry_at_ok(*old(self), e00, hcl, hoff, entry)]
                    resolve_path_full(*old(self), e00, path@) == Some(
                        PathResolution::Found(parent.0, hcl, hoff),
                    ) && crate::fat::dir::dir_entry_at_ok(*old(self), e00, hcl, hoff, entry)
                        && crate::fat::dir::dir_search_spec(
                        *old(self),
                        e00,
                        parent.0,
                        0,
                        entry.file_name.0@,
                        entry.file_ext.0@,
                        0x1_0000nat,
                    ) == Some(crate::fat::dir::SearchOutcome::Hit(hcl, hoff))
                        && crate::fat::dir::entry_sector_at(*old(self), e00, hcl, hoff).len()
                        == 512 && hoff % 32 == 0 && hoff as int % 512 + 32 <= 512;
                crate::fat::dir::lemma_entry_class(
                    *old(self),
                    e00,
                    hcl,
                    hoff,
                    entry,
                    entry.file_name.0@,
                    entry.file_ext.0@,
                );
                assert(!crate::fat::dir::entry_is_file_at(*old(self), e00, hcl, hoff));
            }
            return Err(FsError::NotAFile);
        }
        let size = entry.file_size;
        if size > 0x1000_0000 {
            return Err(FsError::OutOfRange);
        }
        let mut buffer: Vec<u8> = Vec::new();
        let mut z: u32 = 0;
        while z < size
            invariant
                buffer@.len() == z,
                z <= size,
            decreases size - z,
        {
            buffer.push(0);
            z = z + 1;
        }
        let ghost fsmid = *self;
        let ghost e0 = old(self).edisk(old(s).disk());
        match self.read_file_at(s, &entry, 0, &mut buffer) {
            Ok(()) => {
                proof {
                    assert(state_spec(entry) == State::Exists);
                    let start = cluster_of_halves(entry.cluster_num_upper, entry.cluster_num_lower);
                    assert forall|i: int| 0 <= i < buffer@.len() implies #[trigger] buffer@[i]
                        == old(self).file_byte_spec(e0, start, i as nat) by {
                        FatFs::lemma_file_byte_same_geom(*old(self), fsmid, e0, start, i as nat);
                    }
                }
                Ok(buffer)
            },
            Err(e) => Err(e),
        }
    }

    /// Volumes with the same geometry walk chains identically.
    proof fn lemma_cluster_at_same_geom(
        a: FatFs,
        b: FatFs,
        e: Seq<Seq<u8>>,
        c: u32,
        skips: nat,
    )
        requires
            FatFs::same_geometry(a, b),
        ensures
            a.cluster_at_spec(e, c, skips) == b.cluster_at_spec(e, c, skips),
        decreases skips,
    {
        if skips > 0 {
            FatFs::lemma_fat_entry_same_geom(a, b, e, c);
            FatFs::lemma_cluster_at_same_geom(
                a,
                b,
                e,
                a.fat_entry_spec(e, c),
                (skips - 1) as nat,
            );
        }
    }

    /// Volumes with the same geometry read files identically.
    proof fn lemma_file_byte_same_geom(a: FatFs, b: FatFs, e: Seq<Seq<u8>>, start: u32, pos: nat)
        requires
            FatFs::same_geometry(a, b),
        ensures
            a.file_byte_spec(e, start, pos) == b.file_byte_spec(e, start, pos),
    {
        let bpc = a.bytes_in_a_cluster_spec() as nat;
        FatFs::lemma_cluster_at_same_geom(a, b, e, start, pos / bpc);
    }

    /// Extending the walk by one step lands on the FAT successor of the
    /// walk's last cluster.
    proof fn lemma_cluster_at_tail(self, e: Seq<Seq<u8>>, c: u32, skips: nat)
        ensures
            self.cluster_at_spec(e, c, skips + 1) == self.fat_entry_spec(
                e,
                self.cluster_at_spec(e, c, skips),
            ),
        decreases skips,
    {
        if skips == 0 {
            assert(self.cluster_at_spec(e, c, 1) == self.cluster_at_spec(
                e,
                self.fat_entry_spec(e, c),
                0,
            ));
        } else {
            self.lemma_cluster_at_tail(e, self.fat_entry_spec(e, c), (skips - 1) as nat);
        }
    }
}

/// Law: writing a range onto the effective disk and reading the same
/// range back — flushing in between changes nothing, since a flush keeps
/// the effective disk — yields exactly the written bytes.
pub proof fn lemma_write_then_read(
    e0: Seq<Seq<u8>>,
    e1: Seq<Seq<u8>>,
    sector: int,
    offset: int,
    d: Seq<u8>,
    i: int,
)
    requires
        0 <= offset < 512,
        0 <= i < d.len(),
        0 <= sector,
        sector * 512 + offset + d.len() <= e0.len() * 512,
        e1.len() == e0.len(),
        forall|j: int, k: int|
            #![trigger e1[j][k]]
            0 <= j < e0.len() && 0 <= k < 512 ==> e1[j][k] == (if range_covers(
                sector,
                offset,
                d.len() as int,
                j,
                k,
            ) {
                range_byte(sector, offset, d, j, k)
            } else {
                e0[j][k]
            }),
    ensures
        edisk_byte(e1, sector, offset, i) == d[i],
{
    let j = sector + (offset + i) / 512;
    let k = (offset + i) % 512;
    lemma_byte_of_range(sector, offset, d, i);
    vstd::arithmetic::div_mod::lemma_fundamental_div_mod(offset + i, 512);
    assert(0 <= (offset + i) / 512) by (nonlinear_arith)
        requires offset + i >= 0;
    assert(j * 512 + k == sector * 512 + offset + i) by (nonlinear_arith)
        requires
            j == sector + (offset + i) / 512,
            k == (offset + i) % 512,
            offset + i == 512 * ((offset + i) / 512) + (offset + i) % 512;
    assert(j < e0.len()) by (nonlinear_arith)
        requires
            j * 512 + k == sector * 512 + offset + i,
            sector * 512 + offset + d.len() <= e0.len() * 512,
            i < d.len(),
            0 <= k < 512;
}

} // verus!
