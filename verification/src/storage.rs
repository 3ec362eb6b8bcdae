//! The storage port: the sector-addressed device interface the driver
//! consumes, together with an in-memory implementation.

use vstd::prelude::*;
use vstd::hash_map::HashMapWithView;

use crate::SECTOR_BYTES;

verus! {

/// Failure of a sector read.
#[derive(Debug, Clone, Copy, PartialEq, Eq)]
pub enum ReadError<T> {
    /// The requested data has never been written. Implementations may choose
    /// to return zeroes instead of this error.
    Uninitialized { offset: usize },
    /// The request fell outside of the medium's space; `max` is the
    /// first offset past it.
    OutOfRange { requested_offset: usize, max: usize },
    /// The device's own error.
    Other(T),
}

/// Failure of a sector write.
#[derive(Debug, Clone, Copy, PartialEq, Eq)]
pub enum WriteError<T> {
    /// The request fell outside of the medium's space; `max` is the
    /// first offset past it.
    OutOfRange { requested_offset: usize, max: usize },
    /// The device's own error.
    Other(T),
}

/// Failure of a whole-device erase.
#[derive(Debug, Clone, Copy, PartialEq, Eq)]
pub enum EraseError<W, T> {
    /// One of the sector writes making up the erase failed.
    ErrorInIndividualErase(WriteError<W>),
    /// The device's own error.
    Other(T),
}

/// A sector of zeroes, the contents of an untouched sector.
pub open spec fn zero_sector() -> Seq<u8> {
    Seq::new(SECTOR_BYTES as nat, |i: int| 0u8)
}

/// Implementors of this trait provide access to a partition on some
/// sector-addressed storage medium with `SECTOR_BYTES`-byte sectors.
///
/// The device is modeled as the sequence [`Storage::disk`] of its sectors'
/// contents. A read or write out of range never succeeds and reports
/// `OutOfRange`; an in-range request may still fail with the device's own
/// error, in which case the disk is unchanged.
pub trait Storage: Sized {
    /// The device's error type for reads.
    type ReadErr;

    /// The device's error type for writes.
    type WriteErr;

    /// The contents of every sector of the device, in disk order: the
    /// model of the device. Verified implementors override this; an
    /// implementor that keeps the empty default models no sectors, and
    /// then `capacity`'s contract admits only the answer zero.
    open spec fn disk(&self) -> Seq<Seq<u8>> {
        Seq::empty()
    }

    /// The number of sectors in the partition. Its contract also carries
    /// the device's shape: every sector holds exactly `SECTOR_BYTES`
    /// bytes.
    fn capacity(&self) -> (r: usize)
        ensures
            r == self.disk().len(),
            forall|i: int| 0 <= i < self.disk().len() ==>
                (#[trigger] self.disk()[i]).len() == SECTOR_BYTES,
    ;

    /// Reads an entire sector into `buffer`.
    ///
    /// This function must not panic; out-of-range requests report
    /// `OutOfRange` instead.
    fn read_sector(&mut self, sector_idx: usize, buffer: &mut Vec<u8>) -> (r: Result<
        (),
        ReadError<Self::ReadErr>,
    >)
        ensures
            final(self).disk() == old(self).disk(),
            r is Ok ==> sector_idx < old(self).disk().len()
                && final(buffer)@ == old(self).disk()[sector_idx as int],
            sector_idx >= old(self).disk().len() ==> (r matches Err(
                ReadError::OutOfRange { requested_offset, max },
            ) && requested_offset == sector_idx && max == old(self).disk().len()),
    ;

    /// Writes an entire sector from `buffer`.
    ///
    /// This function must not panic; out-of-range requests report
    /// `OutOfRange` instead. A failed write leaves the disk unchanged: the
    /// single-sector write is the unit of atomicity.
    fn write_sector(&mut self, sector_idx: usize, buffer: &Vec<u8>) -> (r: Result<
        (),
        WriteError<Self::WriteErr>,
    >)
        requires
            buffer@.len() == SECTOR_BYTES,
        ensures
            final(self).disk().len() == old(self).disk().len(),
            r is Ok ==> sector_idx < old(self).disk().len()
                && final(self).disk() == old(self).disk().update(sector_idx as int, buffer@),
            !(r is Ok) ==> final(self).disk() == old(self).disk(),
            sector_idx >= old(self).disk().len() ==> (r matches Err(
                WriteError::OutOfRange { requested_offset, max },
            ) && requested_offset == sector_idx && max == old(self).disk().len()),
    ;
}

/// An in-memory sector device: sectors that were never written read as
/// zeroes, so even very large devices stay cheap. It also counts the
/// sector reads and writes issued to it.
pub struct MemStorage {
    sectors: HashMapWithView<u64, Vec<u8>>,
    sector_count: usize,
    reads: u64,
    writes: u64,
}

impl MemStorage {
    /// The device's sectors: what was written where, zeroes elsewhere.
    pub closed spec fn spec_disk(&self) -> Seq<Seq<u8>> {
        Seq::new(
            self.sector_count as nat,
            |i: int| if self.sectors@.contains_key(i as u64)
                && self.sectors@[i as u64]@.len() == SECTOR_BYTES {
                self.sectors@[i as u64]@
            } else {
                zero_sector()
            },
        )
    }

    /// A device of `sector_count` sectors, all zeroes.
    pub fn new(sector_count: usize) -> (r: Self)
        requires
            sector_count <= u64::MAX,
        ensures
            r.disk().len() == sector_count,
            forall|i: int| 0 <= i < sector_count ==> #[trigger] r.disk()[i] == zero_sector(),
    {
        MemStorage { sectors: HashMapWithView::new(), sector_count, reads: 0, writes: 0 }
    }

    /// How many sector reads the device has served.
    pub fn read_count(&self) -> (r: u64) {
        self.reads
    }

    /// How many sector writes the device has served.
    pub fn write_count(&self) -> (r: u64) {
        self.writes
    }

    /// Resets both counters.
    pub fn reset_counters(&mut self)
        ensures
            final(self).disk() == old(self).disk(),
    {
        self.reads = 0;
        self.writes = 0;
        proof {
            assert(self.spec_disk() =~= old(self).spec_disk());
        }
    }
}

impl Storage for MemStorage {
    type ReadErr = ();

    type WriteErr = ();

    closed spec fn disk(&self) -> Seq<Seq<u8>> {
        self.spec_disk()
    }

    fn capacity(&self) -> (r: usize) {
        proof {
            assert forall|i: int| 0 <= i < self.disk().len() implies
                (#[trigger] self.disk()[i]).len() == SECTOR_BYTES by {
                assert(zero_sector().len() == SECTOR_BYTES);
            }
        }
        self.sector_count
    }

    fn read_sector(&mut self, sector_idx: usize, buffer: &mut Vec<u8>) -> (r: Result<
        (),
        ReadError<()>,
    >) {
        if sector_idx >= self.sector_count {
            proof {
                assert(self.spec_disk() =~= old(self).spec_disk());
            }
            return Err(ReadError::OutOfRange { requested_offset: sector_idx, max: self.sector_count });
        }
        self.reads = self.reads.wrapping_add(1);
        let key = sector_idx as u64;
        let found: Option<Vec<u8>> = match self.sectors.get(&key) {
            Some(v) => if v.len() == SECTOR_BYTES {
                Some(v.clone())
            } else {
                None
            },
            None => None,
        };
        match found {
            Some(v) => {
                proof {
                    assert(v@ =~= self.spec_disk()[sector_idx as int]);
                }
                *buffer = v;
            },
            None => {
                let mut z: Vec<u8> = Vec::new();
                let mut k: usize = 0;
                while k < SECTOR_BYTES
                    invariant
                        z@.len() == k,
                        k <= SECTOR_BYTES,
                        forall|i: int| 0 <= i < k ==> z@[i] == 0u8,
                    decreases SECTOR_BYTES - k,
                {
                    z.push(0u8);
                    k = k + 1;
                }
                proof {
                    assert(z@ =~= zero_sector());
                    assert(self.spec_disk()[sector_idx as int] == zero_sector());
                }
                *buffer = z;
            },
        }
        proof {
            assert(self.spec_disk() =~= old(self).spec_disk());
        }
        Ok(())
    }

    fn write_sector(&mut self, sector_idx: usize, buffer: &Vec<u8>) -> (r: Result<
        (),
        WriteError<()>,
    >) {
        if sector_idx >= self.sector_count {
            proof {
                assert(self.spec_disk() =~= old(self).spec_disk());
            }
            return Err(WriteError::OutOfRange { requested_offset: sector_idx, max: self.sector_count });
        }
        self.writes = self.writes.wrapping_add(1);
        let key = sector_idx as u64;
        self.sectors.insert(key, buffer.clone());
        proof {
            assert(self.spec_disk() =~= old(self).spec_disk().update(
                sector_idx as int,
                buffer@,
            ));
        }
        Ok(())
    }
}

} // verus!
