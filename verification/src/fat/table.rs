//! The FAT table engine: cluster-chain iteration and growth.

use vstd::prelude::*;

use crate::fat::types::{ClusterIdx, SectorIdx};
use crate::fat::{FatFs, FsError};
use crate::storage::Storage;

verus! {

/// One entry of the FAT table: the successor pointer of a cluster.
#[derive(Clone, Copy, PartialEq, Eq, Structural, Debug)]
pub struct FatEntry {
    pub next: ClusterIdx,
}

impl FatEntry {
    /// Wraps a successor pointer.
    pub fn from(next: ClusterIdx) -> (r: Self)
        ensures
            r.next == next,
    {
        FatEntry { next }
    }

    /// Whether the entry marks a free cluster.
    pub open spec fn is_free_spec(self) -> bool {
        self.next.0 == FatFs::free_entry()
    }

    /// Whether the entry marks the end of a chain. Every value from
    /// `0x0FFF_FFF8` up is treated as end-of-chain.
    pub open spec fn is_end_spec(self) -> bool {
        self.next.0 >= FatFs::end_of_chain_entry()
    }

    /// Whether the entry marks a free cluster.
    pub fn is_free(&self) -> (r: bool)
        ensures
            r == self.is_free_spec(),
    {
        self.next.inner() == 0
    }

    /// Whether the entry marks the end of a chain.
    pub fn is_end_of_chain(&self) -> (r: bool)
        ensures
            r == self.is_end_spec(),
    {
        self.next.inner() >= 0x0FFF_FFF8
    }

    /// A tracer for the chain starting at this entry's cluster.
    pub fn trace(&self) -> (r: FatEntryTracer)
        ensures
            r.current_cluster_idx == Some(self.next),
            r.hit_end_spec() is None,
    {
        FatEntryTracer::starting_at(self.next)
    }
}

/// Walks a cluster chain through the FAT table: yields each cluster of
/// the chain in turn, remembers the last cluster once the chain ends, and
/// can then grow the chain by one cluster. The tracer holds only its
/// position; the volume and storage are handed to each step.
#[derive(Clone, PartialEq, Eq, Structural, Debug)]
pub struct FatEntryTracer {
    /// The cluster the next step will yield; `None` once the chain ended.
    pub current_cluster_idx: Option<ClusterIdx>,
    /// The chain's last cluster, once the walk has passed the end.
    pub hit_end: Option<ClusterIdx>,
}

impl FatEntryTracer {
    /// The last cluster of the chain, known once the walk has passed the
    /// end-of-chain entry.
    pub open spec fn hit_end_spec(self) -> Option<ClusterIdx> {
        self.hit_end
    }

    /// A tracer for the chain starting at the volume's root directory.
    pub fn root(fs: &FatFs) -> (r: Self)
        ensures
            r.current_cluster_idx == Some(fs.root_dir_cluster_num),
            r.hit_end_spec() is None,
    {
        FatEntryTracer::starting_at(fs.root_dir_cluster_num)
    }

    /// A tracer for the chain starting at `cluster_idx`.
    pub fn starting_at(cluster_idx: ClusterIdx) -> (r: Self)
        ensures
            r.current_cluster_idx == Some(cluster_idx),
            r.hit_end_spec() is None,
    {
        FatEntryTracer { current_cluster_idx: Some(cluster_idx), hit_end: None }
    }

    /// One step of the walk: yields the current cluster and advances to
    /// its FAT successor; on an end-of-chain entry the walk stops and the
    /// yielded cluster is remembered as the chain's last. A cluster
    /// beyond the FAT's own range reports `CorruptChain`.
    pub fn next<S: Storage>(&mut self, fs: &mut FatFs, s: &mut S) -> (r: Result<
        Option<FatEntry>,
        FsError,
    >)
        requires
            old(fs).wf(),
            old(fs).consistent(old(s).disk()),
        ensures
            final(fs).wf(),
            final(fs).consistent(final(s).disk()),
            FatFs::same_geometry(*old(fs), *final(fs)),
            final(fs).next_known_free_cluster == old(fs).next_known_free_cluster,
            final(s).disk().len() == old(s).disk().len(),
            final(fs).edisk(final(s).disk()) == old(fs).edisk(old(s).disk()),
            old(self).current_cluster_idx is None ==> r == Ok::<Option<FatEntry>, FsError>(None)
                && *final(self) == *old(self),
            old(self).current_cluster_idx matches Some(c) ==> r is Ok ==> {
                let v = old(fs).fat_entry_spec(old(fs).edisk(old(s).disk()), c.0);
                &&& c.0 < old(fs).num_clusters_spec()
                &&& r == Ok::<Option<FatEntry>, FsError>(Some(FatEntry { next: c }))
                &&& (v >= FatFs::end_of_chain_entry() ==> final(self).current_cluster_idx
                    is None && final(self).hit_end_spec() == Some(c))
                &&& (v < FatFs::end_of_chain_entry() ==> final(self).current_cluster_idx == Some(
                    ClusterIdx(v),
                ) && final(self).hit_end_spec() == old(self).hit_end_spec())
            },
            // The corrupt-chain report comes exactly from a current
            // cluster beyond the FAT's range.
            r == Err::<Option<FatEntry>, FsError>(FsError::CorruptChain) <==> (old(
                self,
            ).current_cluster_idx matches Some(c) && c.0 >= old(fs).num_clusters_spec()),
            // With the step's FAT sector cached, the step cannot fail.
            old(self).current_cluster_idx matches Some(c) ==> ((c.0 < old(
                fs,
            ).num_clusters_spec() && old(fs).cache.has_sector(
                SectorIdx(old(fs).table_pos_sector_spec(c.0) as u64),
            )) ==> r is Ok),
            r is Err ==> r == Err::<Option<FatEntry>, FsError>(FsError::CorruptChain) || r
                == Err::<Option<FatEntry>, FsError>(FsError::StorageError),
    {
        let idx = match self.current_cluster_idx {
            Some(idx) => idx,
            None => {
                return Ok(None);
            },
        };
        let num_clusters: u64 = (fs.fat_table_size_in_sectors as u64) * 128;
        if (idx.inner() as u64) >= num_clusters {
            return Err(FsError::CorruptChain);
        }
        let next = match fs.read_fat_entry(s, idx) {
            Ok(v) => v,
            Err(_) => {
                return Err(FsError::StorageError);
            },
        };
        let fat_entry = FatEntry::from(ClusterIdx::new(next));
        if fat_entry.is_end_of_chain() {
            self.current_cluster_idx = None;
            self.hit_end = Some(idx);
        } else {
            self.current_cluster_idx = Some(ClusterIdx::new(next));
        }
        Ok(Some(FatEntry::from(idx)))
    }

    /// Grows the chain by one cluster once the walk has ended: allocates
    /// a free cluster, links the chain's last cluster to it, and resumes
    /// iteration from the new cluster. Fails with `GrowWithoutEnd` when
    /// the walk has not ended.
    pub fn grow_file<S: Storage>(&mut self, fs: &mut FatFs, s: &mut S) -> (r: Result<
        (),
        FsError,
    >)
        requires
            old(fs).wf(),
            old(fs).consistent(old(s).disk()),
        ensures
            final(fs).wf(),
            final(fs).consistent(final(s).disk()),
            FatFs::same_geometry(*old(fs), *final(fs)),
            final(s).disk().len() == old(s).disk().len(),
            old(self).hit_end_spec() is None ==> r == Err::<(), FsError>(FsError::GrowWithoutEnd)
                && *final(self) == *old(self) && *final(fs) == *old(fs) && final(s).disk() == old(
                s,
            ).disk(),
            r is Ok ==> (old(self).hit_end_spec() matches Some(last) && (exists|given: u32|
                #![trigger final(fs).fat_entry_spec(final(fs).edisk(final(s).disk()), given)]
                {
                    let e0 = old(fs).edisk(old(s).disk());
                    let e1 = final(fs).edisk(final(s).disk());
                    &&& given < old(fs).num_clusters_spec()
                    &&& old(fs).fat_entry_spec(e0, given) == FatFs::free_entry()
                    &&& final(fs).fat_entry_spec(e1, given) == FatFs::end_of_chain_entry()
                    &&& final(fs).fat_entry_spec(e1, last.0) == given
                    &&& (forall|c2: u32|
                        c2 < old(fs).num_clusters_spec() && c2 != given && c2 != last.0
                            ==> #[trigger] final(fs).fat_entry_spec(e1, c2) == old(
                            fs,
                        ).fat_entry_spec(e0, c2))
                    &&& final(self).current_cluster_idx == Some(ClusterIdx(given))
                    &&& final(self).hit_end_spec() is None
                })),
            r == Err::<(), FsError>(FsError::GrowWithoutEnd) ==> old(self).hit_end_spec()
                is None,
            // Growth reports a full disk only when no FAT entry is free.
            r == Err::<(), FsError>(FsError::DiskFull) ==> (forall|k: u32|
                k < old(fs).num_clusters_spec() ==> #[trigger] old(fs).fat_entry_spec(
                    old(fs).edisk(old(s).disk()),
                    k,
                ) != FatFs::free_entry()),
            r is Err ==> r == Err::<(), FsError>(FsError::GrowWithoutEnd) || r == Err::<
                (),
                FsError,
            >(FsError::CorruptChain) || r == Err::<(), FsError>(FsError::StorageError) || r
                == Err::<(), FsError>(FsError::DiskFull),
    {
        let last_cluster = match self.hit_end {
            Some(c) => c,
            None => {
                return Err(FsError::GrowWithoutEnd);
            },
        };
        let num_clusters: u64 = (fs.fat_table_size_in_sectors as u64) * 128;
        if (last_cluster.inner() as u64) >= num_clusters {
            return Err(FsError::CorruptChain);
        }
        let ghost fs0 = *fs;
        let ghost disk0 = s.disk();
        let given = match fs.next_free_cluster(s) {
            Ok(c) => c,
            Err(e) => {
                return Err(e);
            },
        };
        if given.inner() == last_cluster.inner() {
            // A chain whose last cluster was still marked free is not a
            // chain at all.
            return Err(FsError::CorruptChain);
        }
        let ghost fs1 = *fs;
        let ghost disk1 = s.disk();
        // Link the chain's last cluster to the freshly claimed one.
        match fs.write_fat_entry(s, last_cluster, given.inner()) {
            Ok(()) => {},
            Err(e) => {
                return Err(e);
            },
        }
        self.hit_end = None;
        self.current_cluster_idx = Some(given);
        proof {
            let e0 = fs0.edisk(disk0);
            let e1 = fs1.edisk(disk1);
            let e2 = fs.edisk(s.disk());
            FatFs::lemma_fat_entry_same_geom(fs0, fs1, e0, given.0);
            FatFs::lemma_fat_entry_same_geom(fs0, fs1, e1, given.0);
            FatFs::lemma_fat_entry_same_geom(fs1, *fs, e1, given.0);
            FatFs::lemma_fat_entry_same_geom(fs1, *fs, e2, given.0);
            FatFs::lemma_fat_entry_same_geom(fs1, *fs, e1, last_cluster.0);
            FatFs::lemma_fat_entry_same_geom(fs0, fs1, e0, last_cluster.0);
            assert(fs.fat_entry_spec(e2, given.0) == fs1.fat_entry_spec(e1, given.0));
            assert forall|c2: u32|
                c2 < fs0.num_clusters_spec() && c2 != given.0 && c2 != last_cluster.0 implies
                #[trigger] fs.fat_entry_spec(e2, c2) == fs0.fat_entry_spec(e0, c2) by {
                FatFs::lemma_fat_entry_same_geom(fs0, fs1, e0, c2);
                FatFs::lemma_fat_entry_same_geom(fs0, fs1, e1, c2);
                FatFs::lemma_fat_entry_same_geom(fs1, *fs, e1, c2);
                FatFs::lemma_fat_entry_same_geom(fs1, *fs, e2, c2);
            }
        }
        Ok(())
    }
}

/// A cluster together with the volume operations that read and write its
/// data: offsets are cluster-relative and bounds-checked against the
/// cluster's size.
#[derive(Clone, Copy, PartialEq, Eq, Structural, Debug)]
pub struct FatEntryWrapper {
    /// The cluster whose data is addressed.
    pub inner: FatEntry,
}

impl FatEntry {
    /// The cluster's data, addressable by cluster-relative offsets.
    pub fn upgrade(&self) -> (r: FatEntryWrapper)
        ensures
            r.inner == *self,
    {
        FatEntryWrapper::from(*self)
    }
}

impl FatEntryWrapper {
    /// Wraps a cluster for intra-cluster reads and writes.
    pub fn from(inner: FatEntry) -> (r: Self)
        ensures
            r.inner == inner,
    {
        FatEntryWrapper { inner }
    }

    /// The sectors the cluster spans: the half-open range from the first
    /// returned sector to the second.
    pub fn range(&self, fs: &FatFs) -> (r: (SectorIdx, SectorIdx))
        requires
            fs.wf(),
        ensures
            r.0.0 == fs.cluster_start_sector_spec(self.inner.next.0),
            r.1.0 == fs.cluster_start_sector_spec(self.inner.next.0)
                + fs.cluster_size_in_sectors,
    {
        fs.cluster_to_sector_range(self.inner.next)
    }

    /// Whether `len` bytes at `offset` fit inside the cluster.
    pub open spec fn in_cluster_spec(fs: FatFs, offset: u32, len: int) -> bool {
        offset + len <= fs.bytes_in_a_cluster_spec()
    }

    /// Bounds-checks a cluster-relative byte range.
    fn range_chk(&self, fs: &FatFs, offset: u32, len: usize) -> (r: Result<(), FsError>)
        requires
            fs.wf(),
        ensures
            r is Ok <==> FatEntryWrapper::in_cluster_spec(*fs, offset, len as int),
            r is Err ==> r == Err::<(), FsError>(FsError::OutOfRange),
    {
        let bpc = fs.bytes_in_a_cluster();
        if (len as u64) > (bpc as u64) {
            return Err(FsError::OutOfRange);
        }
        if (offset as u64) + (len as u64) > (bpc as u64) {
            Err(FsError::OutOfRange)
        } else {
            Ok(())
        }
    }

    /// Reads `buf.len()` bytes of the cluster's data starting at the
    /// cluster-relative `offset`. Callers that need cross-cluster reads
    /// must step the tracer instead.
    pub fn read<S: Storage>(
        &self,
        fs: &mut FatFs,
        s: &mut S,
        offset: u32,
        buf: &mut Vec<u8>,
    ) -> (r: Result<(), FsError>)
        requires
            old(fs).wf(),
            old(fs).consistent(old(s).disk()),
        ensures
            final(fs).wf(),
            final(fs).consistent(final(s).disk()),
            FatFs::same_geometry(*old(fs), *final(fs)),
            final(fs).next_known_free_cluster == old(fs).next_known_free_cluster,
            final(s).disk().len() == old(s).disk().len(),
            final(fs).edisk(final(s).disk()) == old(fs).edisk(old(s).disk()),
            final(buf)@.len() == old(buf)@.len(),
            r is Ok ==> forall|i: int|
                #![trigger final(buf)@[i]]
                0 <= i < old(buf)@.len() ==> final(buf)@[i] == crate::fat::edisk_byte(
                    old(fs).edisk(old(s).disk()),
                    old(fs).cluster_start_sector_spec(self.inner.next.0),
                    offset as int,
                    i,
                ),
            // The range error comes exactly from a range leaving the
            // cluster or a cluster leaving the partition.
            r == Err::<(), FsError>(FsError::OutOfRange) <==> (!FatEntryWrapper::in_cluster_spec(
                *old(fs),
                offset,
                old(buf)@.len() as int,
            ) || !old(fs).range_ok_spec(
                SectorIdx((old(fs).cluster_start_sector_spec(self.inner.next.0) + offset as int
                    / 512) as u64),
                offset as int % 512,
                old(buf)@.len() as int,
            )),
            r is Err ==> r == Err::<(), FsError>(FsError::OutOfRange) || r == Err::<(), FsError>(
                FsError::StorageError,
            ),
    {
        match self.range_chk(fs, offset, buf.len()) {
            Ok(()) => {},
            Err(e) => {
                return Err(e);
            },
        }
        let (sector, inoff) = fs.cluster_to_sector(self.inner.next, offset);
        let r = fs.read(s, sector, inoff, buf);
        match r {
            Ok(()) => {
                proof {
                    let e0 = old(fs).edisk(old(s).disk());
                    let base = old(fs).cluster_start_sector_spec(self.inner.next.0);
                    assert forall|i: int| 0 <= i < old(buf)@.len() implies #[trigger] buf@[i]
                        == crate::fat::edisk_byte(e0, base, offset as int, i) by {
                        crate::fat::lemma_split_walk(base, offset as int, i);
                    }
                }
                Ok(())
            },
            Err(FsError::OutOfRange) => Err(FsError::OutOfRange),
            Err(_) => Err(FsError::StorageError),
        }
    }

    /// Writes `data` onto the cluster's data starting at the
    /// cluster-relative `offset`.
    pub fn write<S: Storage>(
        &self,
        fs: &mut FatFs,
        s: &mut S,
        offset: u32,
        data: &[u8],
    ) -> (r: Result<(), FsError>)
        requires
            old(fs).wf(),
            old(fs).consistent(old(s).disk()),
        ensures
            final(fs).wf(),
            final(fs).consistent(final(s).disk()),
            FatFs::same_geometry(*old(fs), *final(fs)),
            final(fs).next_known_free_cluster == old(fs).next_known_free_cluster,
            final(s).disk().len() == old(s).disk().len(),
            r is Ok ==> {
                let e0 = old(fs).edisk(old(s).disk());
                let e1 = final(fs).edisk(final(s).disk());
                let base = old(fs).cluster_start_sector_spec(self.inner.next.0);
                &&& e1.len() == e0.len()
                &&& (forall|j: int| 0 <= j < e0.len() ==> (#[trigger] e1[j]).len() == e0[j].len())
                &&& (forall|i: int|
                    #![trigger data@[i]]
                    0 <= i < data@.len() ==> crate::fat::edisk_byte(e1, base, offset as int, i)
                        == data@[i])
                &&& (forall|j: int, k: int|
                    #![trigger e1[j][k]]
                    0 <= j < e0.len() && 0 <= k < 512 && !crate::fat::range_covers(
                        base + offset as int / 512,
                        offset as int % 512,
                        data@.len() as int,
                        j,
                        k,
                    ) ==> e1[j][k] == e0[j][k])
            },
            // The range error comes exactly from a range leaving the
            // cluster or a cluster leaving the partition.
            r == Err::<(), FsError>(FsError::OutOfRange) <==> (!FatEntryWrapper::in_cluster_spec(
                *old(fs),
                offset,
                data@.len() as int,
            ) || !old(fs).range_ok_spec(
                SectorIdx((old(fs).cluster_start_sector_spec(self.inner.next.0) + offset as int
                    / 512) as u64),
                offset as int % 512,
                data@.len() as int,
            )),
            r is Err ==> r == Err::<(), FsError>(FsError::OutOfRange) || r == Err::<(), FsError>(
                FsError::StorageError,
            ),
    {
        match self.range_chk(fs, offset, data.len()) {
            Ok(()) => {},
            Err(e) => {
                return Err(e);
            },
        }
        let (sector, inoff) = fs.cluster_to_sector(self.inner.next, offset);
        let r = fs.write_iter(s, sector, inoff, data);
        match r {
            Ok(()) => {
                proof {
                    let e0 = old(fs).edisk(old(s).disk());
                    let e1 = fs.edisk(s.disk());
                    let base = old(fs).cluster_start_sector_spec(self.inner.next.0);
                    assert forall|i: int| 0 <= i < data@.len() implies crate::fat::edisk_byte(
                        e1,
                        base,
                        offset as int,
                        i,
                    ) == #[trigger] data@[i] by {
                        crate::fat::lemma_split_walk(base, offset as int, i);
                        crate::fat::lemma_byte_of_range(sector.0 as int, inoff as int, data@, i);
                    }
                }
                Ok(())
            },
            Err(FsError::OutOfRange) => Err(FsError::OutOfRange),
            Err(_) => Err(FsError::StorageError),
        }
    }
}

impl FatEntryTracer {
    /// Counts the chain's remaining clusters and returns their joint
    /// capacity in bytes, consuming the walk: the result is the length of
    /// the FAT chain from the current cluster to its end-of-chain entry,
    /// times the cluster size. A chain longer than the FAT itself is
    /// reported corrupt.
    #[verifier::rlimit(100)]
    pub fn capacity<S: Storage>(&mut self, fs: &mut FatFs, s: &mut S) -> (r: Result<u64, FsError>)
        requires
            old(fs).wf(),
            old(fs).consistent(old(s).disk()),
        ensures
            final(fs).wf(),
            final(fs).consistent(final(s).disk()),
            FatFs::same_geometry(*old(fs), *final(fs)),
            final(fs).next_known_free_cluster == old(fs).next_known_free_cluster,
            final(s).disk().len() == old(s).disk().len(),
            final(fs).edisk(final(s).disk()) == old(fs).edisk(old(s).disk()),
            old(self).current_cluster_idx is None ==> r == Ok::<u64, FsError>(0),
            old(self).current_cluster_idx matches Some(c0) ==> r matches Ok(v) ==> (exists|n: u64|
                #![trigger (n * old(fs).bytes_in_a_cluster_spec())]
                {
                    let e0 = old(fs).edisk(old(s).disk());
                    &&& 1 <= n <= old(fs).num_clusters_spec()
                    &&& v == n * old(fs).bytes_in_a_cluster_spec()
                    // Every cluster of the walk but the last points on;
                    // the last one's FAT entry marks the end of the chain.
                    &&& (forall|k: int|
                        0 <= k < n ==> #[trigger] old(fs).cluster_at_spec(e0, c0.0, k as nat)
                            < old(fs).num_clusters_spec())
                    &&& (forall|k: int|
                        0 <= k < n - 1 ==> #[trigger] old(fs).fat_entry_spec(
                            e0,
                            old(fs).cluster_at_spec(e0, c0.0, k as nat),
                        ) < FatFs::end_of_chain_entry())
                    &&& old(fs).fat_entry_spec(
                        e0,
                        old(fs).cluster_at_spec(e0, c0.0, (n - 1) as nat),
                    ) >= FatFs::end_of_chain_entry()
                    &&& final(self).hit_end_spec() == Some(
                        ClusterIdx(old(fs).cluster_at_spec(e0, c0.0, (n - 1) as nat)),
                    )
                }),
            r is Err ==> r == Err::<u64, FsError>(FsError::CorruptChain) || r == Err::<
                u64,
                FsError,
            >(FsError::StorageError),
    {
        let ghost e0 = old(fs).edisk(old(s).disk());
        let ghost c0: u32 = match old(self).current_cluster_idx {
            Some(c) => c.0,
            None => 0,
        };
        let ghost started = old(self).current_cluster_idx is Some;
        let num_clusters: u64 = (fs.fat_table_size_in_sectors as u64) * 128;
        let mut count: u64 = 0;
        let mut budget: u64 = num_clusters;
        while budget > 0
            invariant
                fs.wf(),
                fs.consistent(s.disk()),
                FatFs::same_geometry(*old(fs), *fs),
                fs.next_known_free_cluster == old(fs).next_known_free_cluster,
                s.disk().len() == old(s).disk().len(),
                fs.edisk(s.disk()) == e0,
                e0 == old(fs).edisk(old(s).disk()),
                num_clusters == old(fs).num_clusters_spec(),
                num_clusters >= 128,
                count + budget <= num_clusters,
                started == (old(self).current_cluster_idx is Some),
                !started ==> budget == num_clusters,
                started ==> c0 == old(self).current_cluster_idx.unwrap().0,
                !started ==> count == 0 && self.current_cluster_idx is None,
                started ==> (self.current_cluster_idx matches Some(cc) ==> cc.0 == old(
                    fs,
                ).cluster_at_spec(e0, c0, count as nat)),
                started ==> (forall|k: int|
                    0 <= k < count && (self.current_cluster_idx is Some || k < count - 1)
                        ==> #[trigger] old(fs).fat_entry_spec(
                        e0,
                        old(fs).cluster_at_spec(e0, c0, k as nat),
                    ) < FatFs::end_of_chain_entry()),
                started ==> (forall|k: int|
                    0 <= k < count ==> #[trigger] old(fs).cluster_at_spec(e0, c0, k as nat)
                        < old(fs).num_clusters_spec()),
                started && self.current_cluster_idx is None ==> count >= 1 && old(
                    fs,
                ).fat_entry_spec(e0, old(fs).cluster_at_spec(e0, c0, (count - 1) as nat))
                    >= FatFs::end_of_chain_entry() && self.hit_end_spec() == Some(
                    ClusterIdx(old(fs).cluster_at_spec(e0, c0, (count - 1) as nat)),
                ),
            decreases budget,
        {
            let ghost fsp = *fs;
            let step = match self.next(fs, s) {
                Ok(v) => v,
                Err(e) => {
                    return Err(e);
                },
            };
            if step.is_none() {
                let bpc = fs.bytes_in_a_cluster() as u64;
                proof {
                    assert(count * (bpc as int) <= 0x2_0000_0000 * 0x20000) by (nonlinear_arith)
                        requires
                            count <= 0x2_0000_0000,
                            bpc <= 0x20000;
                    if started {
                        assert(self.current_cluster_idx is None);
                        assert(count >= 1);
                        assert(count * (old(fs).bytes_in_a_cluster_spec() as int) == count * (
                        bpc as int));
                    }
                }
                return Ok(count * bpc);
            }
            proof {
                let cc = fsp.cluster_at_spec(e0, c0, count as nat);
                FatFs::lemma_fat_entry_same_geom(*old(fs), fsp, e0, cc as u32);
                FatFs::lemma_fat_entry_same_geom(fsp, *fs, e0, cc as u32);
                old(fs).lemma_cluster_at_tail(e0, c0, count as nat);
            }
            count = count + 1;
            budget = budget - 1;
        }
        Err(FsError::CorruptChain)
    }
}


/// Whether the chain from `start` on image `e` ends inside the FAT and
/// spans at least `size` bytes: what a well-formed image grants every
/// file's chain against the size its directory entry records.
pub open spec fn chain_covers_spec(fs: FatFs, e: Seq<Seq<u8>>, start: u32, size: nat) -> bool {
    exists|m: u64|
        #![trigger (m * fs.bytes_in_a_cluster_spec())]
        {
            &&& 1 <= m <= fs.num_clusters_spec()
            &&& (forall|k: int|
                0 <= k < m - 1 ==> #[trigger] fs.fat_entry_spec(
                    e,
                    fs.cluster_at_spec(e, start, k as nat),
                ) < FatFs::end_of_chain_entry())
            &&& fs.fat_entry_spec(e, fs.cluster_at_spec(e, start, (m - 1) as nat))
                >= FatFs::end_of_chain_entry()
            &&& m * fs.bytes_in_a_cluster_spec() >= size
        }
}

/// Law: a file's chain capacity covers its size. Any walk of the chain
/// from `start` that ends at an end-of-chain entry after `n` clusters
/// spans at least `size` bytes, whenever the image's chain from `start`
/// covers `size`: the FAT determines the chain's length, so the walked
/// length is the covering one. [`FatEntryTracer::capacity`]'s result is
/// such a walk's span.
pub proof fn lemma_capacity_covers_size(
    fs: FatFs,
    e: Seq<Seq<u8>>,
    start: u32,
    size: nat,
    n: u64,
)
    requires
        1 <= n,
        forall|k: int|
            0 <= k < n - 1 ==> #[trigger] fs.fat_entry_spec(
                e,
                fs.cluster_at_spec(e, start, k as nat),
            ) < FatFs::end_of_chain_entry(),
        fs.fat_entry_spec(e, fs.cluster_at_spec(e, start, (n - 1) as nat))
            >= FatFs::end_of_chain_entry(),
        chain_covers_spec(fs, e, start, size),
    ensures
        n * fs.bytes_in_a_cluster_spec() >= size,
{
    let m = choose|m: u64|
        #![trigger (m * fs.bytes_in_a_cluster_spec())]
        {
            &&& 1 <= m <= fs.num_clusters_spec()
            &&& (forall|k: int|
                0 <= k < m - 1 ==> #[trigger] fs.fat_entry_spec(
                    e,
                    fs.cluster_at_spec(e, start, k as nat),
                ) < FatFs::end_of_chain_entry())
            &&& fs.fat_entry_spec(e, fs.cluster_at_spec(e, start, (m - 1) as nat))
                >= FatFs::end_of_chain_entry()
            &&& m * fs.bytes_in_a_cluster_spec() >= size
        };
    if m < n {
        assert(fs.fat_entry_spec(e, fs.cluster_at_spec(e, start, (m - 1) as nat))
            < FatFs::end_of_chain_entry());
        assert(false);
    } else if m > n {
        assert(fs.fat_entry_spec(e, fs.cluster_at_spec(e, start, (n - 1) as nat))
            < FatFs::end_of_chain_entry());
        assert(false);
    }
}

} // verus!
