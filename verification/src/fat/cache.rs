//! The sector cache: that which all reads and writes of on-disk bytes
//! flow through.

use vstd::prelude::*;

use core::cmp::Ordering;

use crate::bitmap::{count_set, BitMap};
use crate::fat::types::SectorIdx;
use crate::fat::FsError;
use crate::storage::Storage;
use crate::SECTOR_BYTES;

verus! {

/// One slot of the cache's entry table.
#[derive(Clone, Copy, PartialEq, Eq, Structural, Debug)]
pub enum CacheEntry {
    /// Present but unmodified; can be freely evicted.
    Resident { s: SectorIdx, arr_idx: usize, age: u64, last_accessed: u64 },
    /// Present and contains modifications that must be written back before
    /// eviction.
    Dirty { s: SectorIdx, arr_idx: usize, age: u64, last_accessed: u64 },
    /// Does not hold a sector.
    Free,
}

impl CacheEntry {
    /// Whether the slot holds no sector.
    pub open spec fn is_free(self) -> bool {
        self is Free
    }

    /// Whether the slot holds modified contents.
    pub open spec fn is_dirty_spec(self) -> bool {
        self is Dirty
    }

    /// The held sector (meaningful only when not free).
    pub open spec fn sec(self) -> u64 {
        match self {
            CacheEntry::Resident { s, .. } => s.0,
            CacheEntry::Dirty { s, .. } => s.0,
            CacheEntry::Free => 0,
        }
    }

    /// The buffer slot the entry owns (meaningful only when not free).
    pub open spec fn slot(self) -> int {
        match self {
            CacheEntry::Resident { arr_idx, .. } => arr_idx as int,
            CacheEntry::Dirty { arr_idx, .. } => arr_idx as int,
            CacheEntry::Free => 0,
        }
    }

    /// The entry's insertion age (meaningful only when not free).
    pub open spec fn age_spec(self) -> u64 {
        match self {
            CacheEntry::Resident { age, .. } => age,
            CacheEntry::Dirty { age, .. } => age,
            CacheEntry::Free => 0,
        }
    }

    /// When the entry was last accessed (meaningful only when not free).
    pub open spec fn last_accessed_spec(self) -> u64 {
        match self {
            CacheEntry::Resident { last_accessed, .. } => last_accessed,
            CacheEntry::Dirty { last_accessed, .. } => last_accessed,
            CacheEntry::Free => 0,
        }
    }

    /// A fresh resident entry for `sector` in buffer slot `idx`, aged with
    /// the cache's insertion counter.
    pub fn new(sector: SectorIdx, idx: usize, age: u64) -> (r: Self)
        ensures
            r == (CacheEntry::Resident { s: sector, arr_idx: idx, age, last_accessed: 0 }),
    {
        CacheEntry::Resident { s: sector, arr_idx: idx, age, last_accessed: 0 }
    }

    /// Marks the entry dirty; errors exactly when the entry is free,
    /// leaving it unchanged.
    pub fn mark_as_dirty(&mut self) -> (r: Result<(), ()>)
        ensures
            r is Ok <==> !old(self).is_free(),
            old(self).is_free() ==> *final(self) == *old(self),
            !old(self).is_free() ==> {
                &&& final(self).is_dirty_spec()
                &&& final(self).sec() == old(self).sec()
                &&& final(self).slot() == old(self).slot()
                &&& final(self).age_spec() == old(self).age_spec()
                &&& final(self).last_accessed_spec() == old(self).last_accessed_spec()
            },
    {
        match *self {
            CacheEntry::Resident { s, arr_idx, age, last_accessed } => {
                *self = CacheEntry::Dirty { s, arr_idx, age, last_accessed };
                Ok(())
            },
            CacheEntry::Dirty { .. } => Ok(()),
            CacheEntry::Free => Err(()),
        }
    }

    /// Marks a dirty entry clean; errors exactly when the entry is not
    /// dirty, leaving it unchanged.
    pub fn mark_as_clean(&mut self) -> (r: Result<(), ()>)
        ensures
            r is Ok <==> old(self).is_dirty_spec(),
            !old(self).is_dirty_spec() ==> *final(self) == *old(self),
            old(self).is_dirty_spec() ==> {
                &&& !final(self).is_dirty_spec()
                &&& !final(self).is_free()
                &&& final(self).sec() == old(self).sec()
                &&& final(self).slot() == old(self).slot()
                &&& final(self).age_spec() == old(self).age_spec()
                &&& final(self).last_accessed_spec() == old(self).last_accessed_spec()
            },
    {
        match *self {
            CacheEntry::Dirty { s, arr_idx, age, last_accessed } => {
                *self = CacheEntry::Resident { s, arr_idx, age, last_accessed };
                Ok(())
            },
            _ => Err(()),
        }
    }

    /// Whether the entry holds modified contents.
    pub fn is_dirty(&self) -> (r: bool)
        ensures
            r == self.is_dirty_spec(),
    {
        match self {
            CacheEntry::Dirty { .. } => true,
            _ => false,
        }
    }

    /// The held sector; `None` exactly when the entry is free.
    pub fn get_sector_idx(&self) -> (r: Option<SectorIdx>)
        ensures
            r is Some <==> !self.is_free(),
            r matches Some(s) ==> s.0 == self.sec(),
    {
        match self {
            CacheEntry::Resident { s, .. } => Some(*s),
            CacheEntry::Dirty { s, .. } => Some(*s),
            CacheEntry::Free => None,
        }
    }

    /// The owned buffer slot; `None` exactly when the entry is free.
    pub fn get_arr_idx(&self) -> (r: Option<usize>)
        ensures
            r is Some <==> !self.is_free(),
            r matches Some(i) ==> i == self.slot(),
    {
        match self {
            CacheEntry::Resident { arr_idx, .. } => Some(*arr_idx),
            CacheEntry::Dirty { arr_idx, .. } => Some(*arr_idx),
            CacheEntry::Free => None,
        }
    }

    /// Stamps the entry with a new last-access time and returns the
    /// previous one; errors exactly when the entry is free.
    pub fn accessed(&mut self, now: u64) -> (r: Result<u64, ()>)
        ensures
            r is Ok <==> !old(self).is_free(),
            old(self).is_free() ==> *final(self) == *old(self),
            final(self).is_free() == old(self).is_free(),
            !old(self).is_free() ==> {
                &&& final(self).is_dirty_spec() == old(self).is_dirty_spec()
                &&& final(self).sec() == old(self).sec()
                &&& final(self).slot() == old(self).slot()
                &&& final(self).age_spec() == old(self).age_spec()
                &&& final(self).last_accessed_spec() == now
                &&& r == Ok::<u64, ()>(old(self).last_accessed_spec())
            },
    {
        match *self {
            CacheEntry::Resident { s, arr_idx, age, last_accessed } => {
                *self = CacheEntry::Resident { s, arr_idx, age, last_accessed: now };
                Ok(last_accessed)
            },
            CacheEntry::Dirty { s, arr_idx, age, last_accessed } => {
                *self = CacheEntry::Dirty { s, arr_idx, age, last_accessed: now };
                Ok(last_accessed)
            },
            CacheEntry::Free => Err(()),
        }
    }
}

/// The orderings a policy can build its total order out of.
#[derive(Clone, Copy, PartialEq, Eq, Structural, Debug)]
pub enum BasePolicy {
    /// Larger insertion age is evicted first.
    Youngest,
    /// Smaller insertion age is evicted first.
    Oldest,
    /// Larger last-access time is evicted first.
    MostRecentlyAccessed,
    /// Smaller last-access time is evicted first.
    LeastRecentlyAccessed,
}

/// An eviction policy: a total order over cache entries; the greatest
/// entry under the order is evicted first.
///
/// Free entries always compare greater than occupied ones, but the cache
/// only consults the policy when no free slot is left.
#[derive(Clone, Copy, PartialEq, Eq, Structural, Debug)]
pub enum EvictionPolicy {
    /// One of the base orders alone.
    Base(BasePolicy),
    /// Resident entries are evicted before dirty ones; the base order
    /// breaks ties within a state.
    UnmodifiedFirst(BasePolicy),
    /// Dirty entries are evicted before resident ones; the base order
    /// breaks ties within a state.
    ModifiedFirst(BasePolicy),
}

/// The order on two 64-bit keys.
pub open spec fn cmp_u64_spec(a: u64, b: u64) -> Ordering {
    if a < b {
        Ordering::Less
    } else if a == b {
        Ordering::Equal
    } else {
        Ordering::Greater
    }
}

/// The base order applied to two occupied entries.
pub open spec fn base_cmp_spec(p: BasePolicy, a: CacheEntry, b: CacheEntry) -> Ordering {
    match p {
        BasePolicy::Youngest => cmp_u64_spec(a.age_spec(), b.age_spec()),
        BasePolicy::Oldest => cmp_u64_spec(b.age_spec(), a.age_spec()),
        BasePolicy::MostRecentlyAccessed => cmp_u64_spec(
            a.last_accessed_spec(),
            b.last_accessed_spec(),
        ),
        BasePolicy::LeastRecentlyAccessed => cmp_u64_spec(
            b.last_accessed_spec(),
            a.last_accessed_spec(),
        ),
    }
}

/// The policy's order on two entries: free entries sort greatest, and the
/// composed policies let the clean/dirty state dominate before the base
/// order breaks ties.
pub open spec fn policy_cmp_spec(p: EvictionPolicy, a: CacheEntry, b: CacheEntry) -> Ordering {
    if a.is_free() && b.is_free() {
        Ordering::Equal
    } else if a.is_free() {
        Ordering::Greater
    } else if b.is_free() {
        Ordering::Less
    } else {
        match p {
            EvictionPolicy::Base(bp) => base_cmp_spec(bp, a, b),
            EvictionPolicy::UnmodifiedFirst(bp) => if !a.is_dirty_spec() && b.is_dirty_spec() {
                Ordering::Greater
            } else if a.is_dirty_spec() && !b.is_dirty_spec() {
                Ordering::Less
            } else {
                base_cmp_spec(bp, a, b)
            },
            EvictionPolicy::ModifiedFirst(bp) => if a.is_dirty_spec() && !b.is_dirty_spec() {
                Ordering::Greater
            } else if !a.is_dirty_spec() && b.is_dirty_spec() {
                Ordering::Less
            } else {
                base_cmp_spec(bp, a, b)
            },
        }
    }
}

impl EvictionPolicy {
    /// Picks which of two entries should rather be evicted: the greater
    /// one under the policy's order.
    pub fn compare(&self, a: &CacheEntry, b: &CacheEntry) -> (r: Ordering)
        ensures
            r == policy_cmp_spec(*self, *a, *b),
    {
        let a_free = match a {
            CacheEntry::Free => true,
            _ => false,
        };
        let b_free = match b {
            CacheEntry::Free => true,
            _ => false,
        };
        if a_free && b_free {
            return Ordering::Equal;
        }
        if a_free {
            return Ordering::Greater;
        }
        if b_free {
            return Ordering::Less;
        }
        match self {
            EvictionPolicy::Base(bp) => bp.compare_base(a, b),
            EvictionPolicy::UnmodifiedFirst(bp) => {
                if !a.is_dirty() && b.is_dirty() {
                    Ordering::Greater
                } else if a.is_dirty() && !b.is_dirty() {
                    Ordering::Less
                } else {
                    bp.compare_base(a, b)
                }
            },
            EvictionPolicy::ModifiedFirst(bp) => {
                if a.is_dirty() && !b.is_dirty() {
                    Ordering::Greater
                } else if !a.is_dirty() && b.is_dirty() {
                    Ordering::Less
                } else {
                    bp.compare_base(a, b)
                }
            },
        }
    }
}

impl BasePolicy {
    /// The base order on two occupied entries.
    pub fn compare_base(&self, a: &CacheEntry, b: &CacheEntry) -> (r: Ordering)
        requires
            !a.is_free(),
            !b.is_free(),
        ensures
            r == base_cmp_spec(*self, *a, *b),
    {
        let (x, y) = match self {
            BasePolicy::Youngest => (a.age_exec(), b.age_exec()),
            BasePolicy::Oldest => (b.age_exec(), a.age_exec()),
            BasePolicy::MostRecentlyAccessed => (a.last_accessed_exec(), b.last_accessed_exec()),
            BasePolicy::LeastRecentlyAccessed => (b.last_accessed_exec(), a.last_accessed_exec()),
        };
        if x < y {
            Ordering::Less
        } else if x == y {
            Ordering::Equal
        } else {
            Ordering::Greater
        }
    }
}

impl CacheEntry {
    /// The entry's insertion age.
    pub fn age_exec(&self) -> (r: u64)
        requires
            !self.is_free(),
        ensures
            r == self.age_spec(),
    {
        match self {
            CacheEntry::Resident { age, .. } => *age,
            CacheEntry::Dirty { age, .. } => *age,
            CacheEntry::Free => 0,
        }
    }

    /// When the entry was last accessed.
    pub fn last_accessed_exec(&self) -> (r: u64)
        requires
            !self.is_free(),
        ensures
            r == self.last_accessed_spec(),
    {
        match self {
            CacheEntry::Resident { last_accessed, .. } => *last_accessed,
            CacheEntry::Dirty { last_accessed, .. } => *last_accessed,
            CacheEntry::Free => 0,
        }
    }
}

/// Whether the entries `e` form a well-formed table of `len` occupied
/// entries: the occupied entries come first, strictly sorted by sector,
/// and the rest are free.
pub open spec fn table_wf(e: Seq<CacheEntry>, len: int) -> bool {
    &&& 0 <= len <= e.len()
    &&& forall|i: int| 0 <= i < len ==> !(#[trigger] e[i]).is_free()
    &&& forall|i: int| len <= i < e.len() ==> (#[trigger] e[i]).is_free()
    &&& forall|i: int, j: int| 0 <= i < j < len ==> e[i].sec() < e[j].sec()
}

/// Whether some occupied entry of the table holds sector `s`.
pub open spec fn table_has(e: Seq<CacheEntry>, len: int, s: u64) -> bool {
    exists|i: int| 0 <= i < len && (#[trigger] e[i]).sec() == s
}

/// Whether some occupied entry of the table owns buffer slot `k`.
pub open spec fn slot_used(e: Seq<CacheEntry>, len: int, k: int) -> bool {
    exists|i: int| 0 <= i < len && (#[trigger] e[i]).slot() == k
}

/// The index of the occupied entry holding sector `s`.
pub open spec fn table_idx_of(e: Seq<CacheEntry>, len: int, s: u64) -> int {
    choose|i: int| 0 <= i < len && (#[trigger] e[i]).sec() == s
}

/// A fixed-capacity table of cache entries, kept sorted by sector so that
/// lookups can binary-search; free entries sort last.
#[derive(Clone, PartialEq, Eq, Debug)]
pub struct CacheTable {
    cache_entry_table: Vec<CacheEntry>,
    length: usize,
}

/// Why an insertion into the table was refused.
#[derive(Clone, Copy, PartialEq, Eq, Structural, Debug)]
pub enum InsertError {
    /// The table already holds an entry for the sector.
    AlreadyPresent,
    /// Every slot of the table is occupied.
    Full,
}

/// Why a removal from the table was refused.
#[derive(Clone, Copy, PartialEq, Eq, Structural, Debug)]
pub enum RemoveError {
    /// The entry is dirty and must be written back first.
    Dirty,
    /// The table holds no entry for the sector.
    NotPresent,
}

impl CacheTable {
    /// The table's entries, in order.
    pub closed spec fn entries(self) -> Seq<CacheEntry> {
        self.cache_entry_table@
    }

    /// How many entries are occupied.
    pub closed spec fn len_spec(self) -> int {
        self.length as int
    }

    /// The table's internal consistency.
    pub open spec fn wf(self) -> bool {
        table_wf(self.entries(), self.len_spec())
    }

    /// An empty table of `capacity` slots.
    pub fn new(capacity: usize) -> (r: Self)
        ensures
            r.wf(),
            r.entries().len() == capacity,
            r.len_spec() == 0,
    {
        let mut t: Vec<CacheEntry> = Vec::new();
        let mut k: usize = 0;
        while k < capacity
            invariant
                t@.len() == k,
                k <= capacity,
                forall|i: int| 0 <= i < k ==> (#[trigger] t@[i]).is_free(),
            decreases capacity - k,
        {
            t.push(CacheEntry::Free);
            k = k + 1;
        }
        CacheTable { cache_entry_table: t, length: 0 }
    }

    /// The number of slots.
    pub fn capacity(&self) -> (r: usize)
        ensures
            r == self.entries().len(),
    {
        self.cache_entry_table.len()
    }

    /// The number of occupied entries.
    pub fn len(&self) -> (r: usize)
        ensures
            r == self.len_spec(),
    {
        self.length
    }

    /// The number of free slots.
    pub fn free_entries(&self) -> (r: usize)
        requires
            self.wf(),
        ensures
            r == self.entries().len() - self.len_spec(),
    {
        self.cache_entry_table.len() - self.length
    }

    /// The entry at table index `i`.
    pub fn entry_at(&self, i: usize) -> (r: CacheEntry)
        requires
            i < self.entries().len(),
        ensures
            r == self.entries()[i as int],
    {
        self.cache_entry_table[i]
    }

    /// Binary-searches the occupied prefix for the entry holding sector
    /// `s`.
    pub fn find(&self, s: SectorIdx) -> (r: Option<usize>)
        requires
            self.wf(),
        ensures
            r matches Some(i) ==> 0 <= i < self.len_spec() && self.entries()[i as int].sec()
                == s.0,
            r is None ==> !table_has(self.entries(), self.len_spec(), s.0),
    {
        let mut lo: usize = 0;
        let mut hi: usize = self.length;
        while lo < hi
            invariant
                self.wf(),
                lo <= hi <= self.len_spec(),
                forall|i: int| 0 <= i < lo ==> (#[trigger] self.entries()[i]).sec() < s.0,
                forall|i: int| hi <= i < self.len_spec() ==> (#[trigger] self.entries()[i]).sec()
                    > s.0,
            decreases hi - lo,
        {
            let mid = lo + (hi - lo) / 2;
            let e = self.cache_entry_table[mid];
            let sec = match e {
                CacheEntry::Resident { s, .. } => s.0,
                CacheEntry::Dirty { s, .. } => s.0,
                CacheEntry::Free => 0,
            };
            if sec == s.0 {
                return Some(mid);
            } else if sec < s.0 {
                lo = mid + 1;
            } else {
                hi = mid;
            }
        }
        proof {
            assert forall|i: int| 0 <= i < self.len_spec() implies
                (#[trigger] self.entries()[i]).sec() != s.0 by {}
        }
        None
    }

    /// The entry holding sector `s`, if the table has one.
    pub fn get(&self, s: SectorIdx) -> (r: Option<CacheEntry>)
        requires
            self.wf(),
        ensures
            r is Some <==> table_has(self.entries(), self.len_spec(), s.0),
            r matches Some(e) ==> !e.is_free() && e.sec() == s.0 && e == self.entries()[table_idx_of(self.entries(), self.len_spec(), s.0)],
    {
        match self.find(s) {
            Some(i) => {
                let e = self.cache_entry_table[i];
                proof {
                    let j = table_idx_of(self.entries(), self.len_spec(), s.0);
                    assert(0 <= j < self.len_spec() && self.entries()[j].sec() == s.0);
                    if j != i as int {
                        if j < i as int {
                            assert(self.entries()[j].sec() < self.entries()[i as int].sec());
                        } else {
                            assert(self.entries()[i as int].sec() < self.entries()[j].sec());
                        }
                    }
                }
                Some(e)
            },
            None => None,
        }
    }

    /// Replaces the entry at index `i` with one holding the same sector
    /// and slot (a state or access-time change).
    pub fn replace_at(&mut self, i: usize, e: CacheEntry)
        requires
            old(self).wf(),
            0 <= i < old(self).len_spec(),
            !e.is_free(),
            e.sec() == old(self).entries()[i as int].sec(),
        ensures
            final(self).wf(),
            final(self).len_spec() == old(self).len_spec(),
            final(self).entries() == old(self).entries().update(i as int, e),
    {
        self.cache_entry_table[i] = e;
        proof {
            assert(self.entries() =~= old(self).entries().update(i as int, e));
        }
    }

    /// The sector held by the entry at index `i`.
    fn sector_at(&self, i: usize) -> (r: u64)
        requires
            i < self.entries().len(),
        ensures
            r == self.entries()[i as int].sec(),
    {
        match self.cache_entry_table[i] {
            CacheEntry::Resident { s, .. } => s.0,
            CacheEntry::Dirty { s, .. } => s.0,
            CacheEntry::Free => 0,
        }
    }

    /// Inserts a fresh resident entry for sector `s` in buffer slot `idx`
    /// at its sorted position, shifting later entries right. Fails when
    /// the sector is already present or the table is full, changing
    /// nothing.
    pub fn insert(&mut self, s: SectorIdx, idx: usize, age: u64) -> (r: Result<
        usize,
        InsertError,
    >)
        requires
            old(self).wf(),
        ensures
            final(self).wf(),
            final(self).entries().len() == old(self).entries().len(),
            r is Err ==> *final(self) == *old(self),
            r == Err::<usize, InsertError>(InsertError::AlreadyPresent) <==> table_has(
                old(self).entries(),
                old(self).len_spec(),
                s.0,
            ),
            !table_has(old(self).entries(), old(self).len_spec(), s.0) && old(self).len_spec()
                == old(self).entries().len() ==> r == Err::<usize, InsertError>(InsertError::Full),
            !table_has(old(self).entries(), old(self).len_spec(), s.0) && old(self).len_spec()
                < old(self).entries().len() ==> r is Ok,
            r matches Ok(pos) ==> {
                &&& 0 <= pos <= old(self).len_spec()
                &&& final(self).len_spec() == old(self).len_spec() + 1
                &&& final(self).entries()[pos as int] == (CacheEntry::Resident {
                    s,
                    arr_idx: idx,
                    age,
                    last_accessed: 0,
                })
                &&& forall|j: int| 0 <= j < pos ==> final(self).entries()[j] == old(self).entries()[j]
                &&& forall|j: int| pos <= j < old(self).len_spec() ==> final(self).entries()[j
                    + 1] == old(self).entries()[j]
            },
    {
        // Find the sorted position for `s`.
        let mut pos: usize = 0;
        while pos < self.length && self.sector_at(pos) < s.0
            invariant
                self.wf(),
                pos <= self.len_spec(),
                forall|i: int| 0 <= i < pos ==> (#[trigger] self.entries()[i]).sec() < s.0,
            decreases self.len_spec() - pos,
        {
            pos = pos + 1;
        }
        if pos < self.length && self.sector_at(pos) == s.0 {
            proof {
                assert(table_has(self.entries(), self.len_spec(), s.0));
            }
            return Err(InsertError::AlreadyPresent);
        }
        proof {
            if table_has(self.entries(), self.len_spec(), s.0) {
                let w = table_idx_of(self.entries(), self.len_spec(), s.0);
                assert(0 <= w < self.len_spec() && self.entries()[w].sec() == s.0);
                if w < pos as int {
                    assert(self.entries()[w].sec() < s.0);
                } else if w > pos as int {
                    assert(self.entries()[pos as int].sec() < self.entries()[w].sec());
                }
                assert(false);
            }
        }
        if self.length >= self.cache_entry_table.len() {
            return Err(InsertError::Full);
        }
        // Shift the entries at and after `pos` one place right.
        let ghost before = self.entries();
        let mut j: usize = self.length;
        while j > pos
            invariant
                pos <= j <= self.length,
                self.length == old(self).length,
                self.length < self.cache_entry_table.len(),
                self.entries().len() == before.len(),
                forall|i: int| 0 <= i <= j && i < before.len() ==> self.entries()[i] == before[i],
                forall|i: int| j < i <= self.length ==> self.entries()[i] == before[i - 1],
                forall|i: int| self.length < i < before.len() ==> self.entries()[i] == before[i],
            decreases j,
        {
            let moved = self.cache_entry_table[j - 1];
            self.cache_entry_table[j] = moved;
            j = j - 1;
        }
        let ghost shifted = self.entries();
        let fresh = CacheEntry::new(s, idx, age);
        self.cache_entry_table[pos] = fresh;
        self.length = self.length + 1;
        proof {
            let e2 = self.entries();
            let n = old(self).len_spec();
            assert(e2 =~= shifted.update(pos as int, fresh));
            assert forall|i: int| 0 <= i < pos implies e2[i] == before[i] by {
                assert(shifted[i] == before[i]);
            }
            assert forall|i: int| pos <= i < n implies e2[i + 1] == before[i] by {
                assert(shifted[i + 1] == before[i]);
            }
            // Well-formedness of the shifted table.
            assert forall|i: int| 0 <= i < n + 1 implies !(#[trigger] e2[i]).is_free() by {
                if i < pos {
                } else if i == pos as int {
                } else {
                    assert(e2[i] == before[i - 1]);
                }
            }
            assert forall|i: int| n + 1 <= i < e2.len() implies (#[trigger] e2[i]).is_free() by {
                assert(e2[i] == before[i]);
            }
            assert forall|a: int, b: int| 0 <= a < b < n + 1 implies e2[a].sec() < e2[b].sec() by {
                let pa = if a < pos { a } else { a - 1 };
                let pb = if b < pos { b } else { b - 1 };
                if a == pos as int {
                    assert(e2[b] == before[b - 1]);
                    assert(before[b - 1].sec() > s.0);
                } else if b == pos as int {
                    assert(e2[a] == before[a]);
                } else if pa < pb {
                    assert(before[pa].sec() < before[pb].sec());
                } else {
                }
            }
        }
        Ok(pos)
    }

    /// Removes the entry holding sector `s`, shifting later entries left,
    /// and returns its buffer slot. Fails when the entry is dirty or
    /// absent, changing nothing.
    pub fn remove(&mut self, s: SectorIdx) -> (r: Result<usize, RemoveError>)
        requires
            old(self).wf(),
        ensures
            final(self).wf(),
            final(self).entries().len() == old(self).entries().len(),
            r is Err ==> *final(self) == *old(self),
            r is Ok <==> table_has(old(self).entries(), old(self).len_spec(), s.0) && !old(self).entries()[table_idx_of(old(self).entries(), old(self).len_spec(), s.0)].is_dirty_spec(),
            r == Err::<usize, RemoveError>(RemoveError::NotPresent) <==> !table_has(
                old(self).entries(),
                old(self).len_spec(),
                s.0,
            ),
            r == Err::<usize, RemoveError>(RemoveError::Dirty) <==> table_has(
                old(self).entries(),
                old(self).len_spec(),
                s.0,
            ) && old(self).entries()[table_idx_of(
                old(self).entries(),
                old(self).len_spec(),
                s.0,
            )].is_dirty_spec(),
            r matches Ok(slot) ==> {
                let pos = table_idx_of(old(self).entries(), old(self).len_spec(), s.0);
                &&& slot == old(self).entries()[pos].slot()
                &&& final(self).len_spec() == old(self).len_spec() - 1
                &&& forall|j: int| 0 <= j < pos ==> final(self).entries()[j] == old(self).entries()[j]
                &&& forall|j: int| pos < j < old(self).len_spec() ==> final(self).entries()[j
                    - 1] == old(self).entries()[j]
            },
    {
        let found = self.find(s);
        let pos = match found {
            Some(i) => i,
            None => {
                return Err(RemoveError::NotPresent);
            },
        };
        let entry = self.cache_entry_table[pos];
        proof {
            let j = table_idx_of(self.entries(), self.len_spec(), s.0);
            assert(0 <= j < self.len_spec() && self.entries()[j].sec() == s.0);
            if j != pos as int {
                if j < pos as int {
                    assert(self.entries()[j].sec() < self.entries()[pos as int].sec());
                } else {
                    assert(self.entries()[pos as int].sec() < self.entries()[j].sec());
                }
            }
        }
        let slot = match entry {
            CacheEntry::Resident { arr_idx, .. } => arr_idx,
            CacheEntry::Dirty { .. } => {
                return Err(RemoveError::Dirty);
            },
            CacheEntry::Free => {
                proof {
                    assert(false);
                }
                0
            },
        };
        // Shift the entries after `pos` one place left.
        let ghost before = self.entries();
        let mut j: usize = pos;
        while j + 1 < self.length
            invariant
                pos <= j,
                j < self.length,
                self.length == old(self).length,
                self.length <= self.entries().len(),
                self.entries().len() == before.len(),
                forall|i: int| 0 <= i < pos ==> self.entries()[i] == before[i],
                forall|i: int| pos <= i < j ==> self.entries()[i] == before[i + 1],
                forall|i: int| j <= i < before.len() ==> self.entries()[i] == before[i],
            decreases self.length - j,
        {
            let moved = self.cache_entry_table[j + 1];
            self.cache_entry_table[j] = moved;
            j = j + 1;
        }
        let ghost shifted = self.entries();
        self.length = self.length - 1;
        self.cache_entry_table[self.length] = CacheEntry::Free;
        proof {
            let e2 = self.entries();
            let n = old(self).len_spec();
            assert(e2 =~= shifted.update(n - 1, CacheEntry::Free));
            assert forall|i: int| pos < i < n implies e2[i - 1] == before[i] by {
                if i - 1 < n - 1 {
                    assert(shifted[i - 1] == before[i]);
                } else {
                    assert(i == n - 1 + 1);
                }
            }
            assert forall|i: int| 0 <= i < n - 1 implies !(#[trigger] e2[i]).is_free() by {
                if i < pos {
                    assert(e2[i] == before[i]);
                } else {
                    assert(e2[i] == before[i + 1]);
                }
            }
            assert forall|i: int| n - 1 <= i < e2.len() implies (#[trigger] e2[i]).is_free() by {
                if i == n - 1 {
                } else {
                    assert(e2[i] == before[i]);
                }
            }
            assert forall|a: int, b: int| 0 <= a < b < n - 1 implies e2[a].sec() < e2[b].sec() by {
                let pa = if a < pos { a } else { a + 1 };
                let pb = if b < pos { b } else { b + 1 };
                assert(before[pa].sec() < before[pb].sec());
            }
        }
        Ok(slot)
    }
}

/// The index of the occupied entry holding sector `s` is unique in a
/// well-formed table.
pub proof fn lemma_idx_unique(e: Seq<CacheEntry>, len: int, s: u64)
    requires
        table_wf(e, len),
        table_has(e, len, s),
    ensures
        0 <= table_idx_of(e, len, s) < len,
        e[table_idx_of(e, len, s)].sec() == s,
        forall|i: int| 0 <= i < len && (#[trigger] e[i]).sec() == s ==> i == table_idx_of(
            e,
            len,
            s,
        ),
{
    let w = table_idx_of(e, len, s);
    assert(0 <= w < len && e[w].sec() == s);
    assert forall|i: int| 0 <= i < len && (#[trigger] e[i]).sec() == s implies i == w by {
        if i < w {
            assert(e[i].sec() < e[w].sec());
        } else if i > w {
            assert(e[w].sec() < e[i].sec());
        }
    }
}

/// The sector cache: an associative cache of whole sectors with a
/// pluggable eviction policy, dirty tracking and an explicit flush.
///
/// The cache's logical meaning against a disk is its *effective disk*
/// ([`SectorCache::edisk`]): the disk with every cached sector's bytes laid
/// over it. Reads return effective-disk bytes; writes update the effective
/// disk; eviction and flushing change the physical disk only by writing
/// cached bytes back, so the effective disk never changes behind the
/// caller's back.
/// The access clock's successor: the clock wraps at its maximum.
pub open spec fn clock_next(c: u64) -> u64 {
    if c == u64::MAX {
        0u64
    } else {
        (c + 1) as u64
    }
}

pub struct SectorCache {
    cached_sectors: Vec<Vec<u8>>,
    cache_table: CacheTable,
    cache_bitmap: BitMap,
    max_sector_idx: SectorIdx,
    eviction_policy: EvictionPolicy,
    counter: u64,
}

impl SectorCache {
    /// The number of slots.
    pub closed spec fn cap_spec(self) -> int {
        self.cache_table.entries().len() as int
    }

    /// The number of cached sectors.
    pub closed spec fn len_int(self) -> int {
        self.cache_table.len_spec()
    }

    /// Whether sector `s` is cached.
    pub closed spec fn has_sector(self, s: SectorIdx) -> bool {
        table_has(self.cache_table.entries(), self.cache_table.len_spec(), s.0)
    }

    /// The table entry for cached sector `s`.
    pub closed spec fn entry_of(self, s: SectorIdx) -> CacheEntry {
        self.cache_table.entries()[table_idx_of(
            self.cache_table.entries(),
            self.cache_table.len_spec(),
            s.0,
        )]
    }

    /// The cached bytes of sector `s`.
    pub closed spec fn contents(self, s: SectorIdx) -> Seq<u8> {
        self.cached_sectors@[self.entry_of(s).slot()]@
    }

    /// Whether cached sector `s` holds modifications not yet on disk.
    pub closed spec fn sector_dirty(self, s: SectorIdx) -> bool {
        self.entry_of(s).is_dirty_spec()
    }

    /// The largest sector the cache will serve.
    pub closed spec fn max_sector(self) -> SectorIdx {
        self.max_sector_idx
    }

    /// The eviction policy in force.
    pub closed spec fn policy_spec(self) -> EvictionPolicy {
        self.eviction_policy
    }

    /// The access clock: the stamp the next access will carry.
    pub closed spec fn clock_spec(self) -> u64 {
        self.counter
    }

    /// The bitmap of occupied buffer slots.
    pub closed spec fn slots(self) -> Seq<bool> {
        self.cache_bitmap.bits()
    }

    /// The cache's internal consistency: a well-formed sorted table whose
    /// entries own distinct in-range buffer slots, a bitmap marking
    /// exactly the owned slots, and full-sector buffers.
    pub closed spec fn wf(self) -> bool {
        let e = self.cache_table.entries();
        let len = self.cache_table.len_spec();
        let cap = self.cap_spec();
        &&& self.cache_table.wf()
        &&& 1 <= cap <= 0x0010_0000
        &&& self.cached_sectors@.len() == cap
        &&& self.cache_bitmap.wf()
        &&& self.cache_bitmap.bits().len() == cap
        &&& forall|i: int| 0 <= i < len ==> 0 <= (#[trigger] e[i]).slot() < cap
        &&& forall|i: int, j: int| 0 <= i < j < len ==> e[i].slot() != e[j].slot()
        &&& forall|k: int|
            0 <= k < cap ==> ((#[trigger] self.cache_bitmap.bits()[k]) <==> slot_used(e, len, k))
        &&& count_set(self.cache_bitmap.bits()) == len
        &&& forall|i: int|
            0 <= i < cap ==> (#[trigger] self.cached_sectors@[i])@.len() == SECTOR_BYTES
        &&& forall|i: int| 0 <= i < len ==> (#[trigger] e[i]).sec() <= self.max_sector_idx.0
    }

    /// Whether the cache agrees with the disk: every clean cached sector
    /// holds exactly the on-disk bytes, and the served sector range lies
    /// on the disk.
    pub open spec fn consistent(self, disk: Seq<Seq<u8>>) -> bool {
        &&& self.max_sector().0 < disk.len()
        &&& disk.len() <= 0x1_0000_0000_0000_0000
        &&& forall|s: SectorIdx|
            self.has_sector(s) && !self.sector_dirty(s) ==> (#[trigger] self.contents(s))
                == disk[s.0 as int]
    }

    /// The effective disk: the disk with every cached sector's bytes laid
    /// over it. All cache operations preserve it except writes, which
    /// update it at the written bytes.
    pub open spec fn edisk(self, disk: Seq<Seq<u8>>) -> Seq<Seq<u8>> {
        Seq::new(
            disk.len(),
            |j: int| if self.has_sector(SectorIdx(j as u64)) {
                self.contents(SectorIdx(j as u64))
            } else {
                disk[j]
            },
        )
    }

    /// Law: the set of sectors in the entry table and the set of occupied
    /// slots in the bitmap correspond exactly, and the bitmap's popcount
    /// equals the number of cached sectors.
    pub proof fn lemma_table_bitmap_agree(self)
        requires
            self.wf(),
        ensures
            forall|k: int|
                0 <= k < self.slots().len() ==> ((#[trigger] self.slots()[k]) <==> exists|
                    x: SectorIdx,
                |
                    self.has_sector(x) && (#[trigger] self.entry_of(x)).slot() == k),
            count_set(self.slots()) == self.len_int(),
    {
        let e = self.cache_table.entries();
        let len = self.cache_table.len_spec();
        assert forall|k: int| 0 <= k < self.slots().len() implies ((#[trigger] self.slots()[k])
            <==> exists|x: SectorIdx| self.has_sector(x) && (#[trigger] self.entry_of(x)).slot()
            == k) by {
            if self.slots()[k] {
                let i = choose|i: int| 0 <= i < len && (#[trigger] e[i]).slot() == k;
                let x = SectorIdx(e[i].sec());
                assert(self.has_sector(x));
                lemma_idx_unique(e, len, x.0);
                assert(self.entry_of(x) == e[i]);
            }
            if exists|x: SectorIdx| self.has_sector(x) && (#[trigger] self.entry_of(x)).slot()
                == k {
                let x = choose|x: SectorIdx|
                    self.has_sector(x) && (#[trigger] self.entry_of(x)).slot() == k;
                lemma_idx_unique(e, len, x.0);
                let i = table_idx_of(e, len, x.0);
                assert(0 <= i < len && e[i].slot() == k);
            }
        }
    }

    /// Every sector of the effective disk is a whole sector.
    pub proof fn lemma_edisk_shape(self, disk: Seq<Seq<u8>>)
        requires
            self.wf(),
            forall|i: int| 0 <= i < disk.len() ==> (#[trigger] disk[i]).len() == SECTOR_BYTES,
        ensures
            forall|j: int|
                0 <= j < disk.len() ==> (#[trigger] self.edisk(disk)[j]).len() == SECTOR_BYTES,
    {
        assert forall|j: int| 0 <= j < disk.len() implies (#[trigger] self.edisk(disk)[j]).len()
            == SECTOR_BYTES by {
            let x = SectorIdx(j as u64);
            if self.has_sector(x) {
                lemma_idx_unique(
                    self.cache_table.entries(),
                    self.cache_table.len_spec(),
                    x.0,
                );
            }
        }
    }

    /// Law: a cache with no dirty sector is transparent; its effective
    /// disk is the disk itself. In particular, right after a successful
    /// flush every cached sector's bytes match their on-disk value.
    pub proof fn lemma_clean_cache_matches_disk(self, disk: Seq<Seq<u8>>)
        requires
            self.wf(),
            self.consistent(disk),
            forall|s: SectorIdx| self.has_sector(s) ==> !(#[trigger] self.sector_dirty(s)),
        ensures
            self.edisk(disk) == disk,
    {
        assert forall|j: int| 0 <= j < disk.len() implies self.edisk(disk)[j] == disk[j] by {
            let x = SectorIdx(j as u64);
            if self.has_sector(x) {
                assert(!self.sector_dirty(x));
                assert(self.contents(x) == disk[j]);
            }
        }
        assert(self.edisk(disk) =~= disk);
    }

    /// A fresh cache of `capacity` slots, serving sectors up to and
    /// including `max_sector_idx`, evicting under `ev`.
    pub fn new(max_sector_idx: SectorIdx, capacity: usize, ev: EvictionPolicy) -> (r: Self)
        requires
            1 <= capacity <= 0x0010_0000,
        ensures
            r.wf(),
            forall|s: SectorIdx| !r.has_sector(s),
            r.len_int() == 0,
            r.cap_spec() == capacity,
            r.max_sector() == max_sector_idx,
            r.policy_spec() == ev,
            r.clock_spec() == 0,
    {
        let mut bufs: Vec<Vec<u8>> = Vec::new();
        let mut k: usize = 0;
        while k < capacity
            invariant
                bufs@.len() == k,
                k <= capacity,
                forall|i: int| 0 <= i < k ==> (#[trigger] bufs@[i])@.len() == SECTOR_BYTES,
            decreases capacity - k,
        {
            let mut sec: Vec<u8> = Vec::new();
            let mut b: usize = 0;
            while b < SECTOR_BYTES
                invariant
                    sec@.len() == b,
                    b <= SECTOR_BYTES,
                decreases SECTOR_BYTES - b,
            {
                sec.push(0u8);
                b = b + 1;
            }
            bufs.push(sec);
            k = k + 1;
        }
        let r = SectorCache {
            cached_sectors: bufs,
            cache_table: CacheTable::new(capacity),
            cache_bitmap: BitMap::new(capacity),
            max_sector_idx,
            eviction_policy: ev,
            counter: 0,
        };
        proof {
            crate::bitmap::lemma_count_set_le_len(r.cache_bitmap.bits());
            if count_set(r.cache_bitmap.bits()) != 0 {
                lemma_some_set_bit(r.cache_bitmap.bits());
            }
        }
        r
    }

    /// The cache's buffer footprint in bytes.
    pub fn cache_size_in_bytes(&self) -> (r: usize)
        requires
            self.wf(),
        ensures
            r == self.cap_spec() * SECTOR_BYTES,
    {
        self.cache_table.capacity() * SECTOR_BYTES
    }

    /// The number of cached sectors.
    pub fn len(&self) -> (r: usize)
        ensures
            r == self.len_int(),
    {
        self.cache_table.len()
    }

    /// The number of slots.
    pub fn capacity(&self) -> (r: usize)
        ensures
            r == self.cap_spec(),
    {
        self.cache_table.capacity()
    }

    /// Swaps the policy used on the next eviction. Nothing else changes.
    pub fn change_eviction_policy(&mut self, ev: EvictionPolicy)
        requires
            old(self).wf(),
        ensures
            final(self).wf(),
            final(self).policy_spec() == ev,
            final(self).max_sector() == old(self).max_sector(),
            final(self).cap_spec() == old(self).cap_spec(),
            final(self).len_int() == old(self).len_int(),
            forall|s: SectorIdx| final(self).has_sector(s) == old(self).has_sector(s),
            forall|s: SectorIdx| #[trigger] final(self).contents(s) == old(self).contents(s),
            forall|s: SectorIdx| #[trigger] final(self).sector_dirty(s) == old(self).sector_dirty(
                s,
            ),
            forall|d: Seq<Seq<u8>>| #[trigger] final(self).edisk(d) == old(self).edisk(d),
    {
        self.eviction_policy = ev;
        proof {
            assert forall|d: Seq<Seq<u8>>| #[trigger] final(self).edisk(d) == old(self).edisk(
                d,
            ) by {
                assert(final(self).edisk(d) =~= old(self).edisk(d));
            }
        }
    }

    /// The cache's record for sector `s`, if it is cached. This is a pure
    /// query: nothing is loaded or touched.
    pub fn get_sector_entry(&self, s: SectorIdx) -> (r: Option<CacheEntry>)
        requires
            self.wf(),
        ensures
            r is Some <==> self.has_sector(s),
            r matches Some(e) ==> e == self.entry_of(s),
    {
        self.cache_table.get(s)
    }
}

/// A bit sequence with a nonzero set-count has a set bit.
proof fn lemma_some_set_bit(s: Seq<bool>)
    requires
        count_set(s) > 0,
    ensures
        exists|i: int| 0 <= i < s.len() && s[i],
    decreases s.len(),
{
    if s.last() {
        assert(s[s.len() - 1]);
    } else {
        lemma_some_set_bit(s.drop_last());
        let i = choose|i: int| 0 <= i < s.drop_last().len() && s.drop_last()[i];
        assert(s[i]);
    }
}

/// Removing the entry at `pos` (shifting the rest left) preserves every
/// other sector's presence, entry and slot.
proof fn lemma_remove_shift(e: Seq<CacheEntry>, e2: Seq<CacheEntry>, len: int, pos: int)
    requires
        table_wf(e, len),
        table_wf(e2, len - 1),
        0 <= pos < len,
        e.len() == e2.len(),
        forall|j: int| 0 <= j < pos ==> e2[j] == e[j],
        forall|j: int| pos < j < len ==> e2[j - 1] == e[j],
    ensures
        forall|x: u64|
            x != e[pos].sec() ==> ((#[trigger] table_has(e2, len - 1, x)) <==> table_has(
                e,
                len,
                x,
            )),
        !table_has(e2, len - 1, e[pos].sec()),
        forall|x: u64|
            x != e[pos].sec() && table_has(e, len, x) ==> e2[table_idx_of(e2, len - 1, x)]
                == e[#[trigger] table_idx_of(e, len, x)],
        forall|k: int|
            (#[trigger] slot_used(e2, len - 1, k)) <==> (exists|i: int|
                0 <= i < len && i != pos && (#[trigger] e[i]).slot() == k),
{
    assert forall|x: u64| x != e[pos].sec() implies ((#[trigger] table_has(e2, len - 1, x))
        <==> table_has(e, len, x)) by {
        if table_has(e2, len - 1, x) {
            let i = table_idx_of(e2, len - 1, x);
            lemma_idx_unique(e2, len - 1, x);
            if i < pos {
                assert(e[i].sec() == x);
            } else {
                assert(e2[i] == e[i + 1]);
                assert(e[i + 1].sec() == x);
            }
            assert(table_has(e, len, x));
        }
        if table_has(e, len, x) {
            let i = table_idx_of(e, len, x);
            lemma_idx_unique(e, len, x);
            assert(i != pos);
            if i < pos {
                assert(e2[i].sec() == x);
            } else {
                assert(e2[i - 1] == e[i]);
                assert(e2[i - 1].sec() == x);
            }
            assert(table_has(e2, len - 1, x));
        }
    }
    assert(!table_has(e2, len - 1, e[pos].sec())) by {
        if table_has(e2, len - 1, e[pos].sec()) {
            let i = table_idx_of(e2, len - 1, e[pos].sec());
            lemma_idx_unique(e2, len - 1, e[pos].sec());
            if i < pos {
                assert(e[i].sec() == e[pos].sec());
                assert(e[i].sec() < e[pos].sec());
            } else {
                assert(e2[i] == e[i + 1]);
                assert(e[i + 1].sec() == e[pos].sec());
                assert(e[pos].sec() < e[i + 1].sec());
            }
        }
    }
    assert forall|x: u64| x != e[pos].sec() && table_has(e, len, x) implies e2[table_idx_of(
        e2,
        len - 1,
        x,
    )] == e[#[trigger] table_idx_of(e, len, x)] by {
        let i = table_idx_of(e, len, x);
        lemma_idx_unique(e, len, x);
        assert(i != pos);
        let i2 = if i < pos { i } else { i - 1 };
        assert(e2[i2] == e[i]);
        assert(table_has(e2, len - 1, x));
        lemma_idx_unique(e2, len - 1, x);
        assert(table_idx_of(e2, len - 1, x) == i2);
    }
    assert forall|k: int|
        (#[trigger] slot_used(e2, len - 1, k)) <==> (exists|i: int|
            0 <= i < len && i != pos && (#[trigger] e[i]).slot() == k) by {
        if slot_used(e2, len - 1, k) {
            let i = choose|i: int| 0 <= i < len - 1 && (#[trigger] e2[i]).slot() == k;
            if i < pos {
                assert(e[i].slot() == k && i != pos);
            } else {
                assert(e2[i] == e[i + 1]);
                assert(e[i + 1].slot() == k && i + 1 != pos);
            }
        }
        if exists|i: int| 0 <= i < len && i != pos && (#[trigger] e[i]).slot() == k {
            let i = choose|i: int| 0 <= i < len && i != pos && (#[trigger] e[i]).slot() == k;
            if i < pos {
                assert(e2[i].slot() == k);
            } else {
                assert(e2[i - 1] == e[i]);
                assert(e2[i - 1].slot() == k);
            }
            assert(slot_used(e2, len - 1, k));
        }
    }
}

/// Inserting an entry at `pos` (shifting the rest right) preserves every
/// other sector's presence, entry and slot.
proof fn lemma_insert_shift(e: Seq<CacheEntry>, e2: Seq<CacheEntry>, len: int, pos: int)
    requires
        table_wf(e, len),
        table_wf(e2, len + 1),
        0 <= pos <= len,
        e.len() == e2.len(),
        !e2[pos].is_free(),
        forall|j: int| 0 <= j < pos ==> e2[j] == e[j],
        forall|j: int| pos <= j < len ==> e2[j + 1] == e[j],
    ensures
        forall|x: u64|
            x != e2[pos].sec() ==> ((#[trigger] table_has(e2, len + 1, x)) <==> table_has(
                e,
                len,
                x,
            )),
        table_has(e2, len + 1, e2[pos].sec()),
        table_idx_of(e2, len + 1, e2[pos].sec()) == pos,
        !table_has(e, len, e2[pos].sec()),
        forall|x: u64|
            x != e2[pos].sec() && table_has(e, len, x) ==> e2[table_idx_of(e2, len + 1, x)]
                == e[#[trigger] table_idx_of(e, len, x)],
        forall|k: int|
            (#[trigger] slot_used(e2, len + 1, k)) <==> (slot_used(e, len, k) || e2[pos].slot()
                == k),
{
    lemma_idx_unique(e2, len + 1, e2[pos].sec());
    assert forall|x: u64| x != e2[pos].sec() implies ((#[trigger] table_has(e2, len + 1, x))
        <==> table_has(e, len, x)) by {
        if table_has(e2, len + 1, x) {
            let i = table_idx_of(e2, len + 1, x);
            lemma_idx_unique(e2, len + 1, x);
            assert(i != pos);
            if i < pos {
                assert(e[i].sec() == x);
            } else {
                assert(e2[i] == e[i - 1]);
                assert(e[i - 1].sec() == x);
            }
            assert(table_has(e, len, x));
        }
        if table_has(e, len, x) {
            let i = table_idx_of(e, len, x);
            lemma_idx_unique(e, len, x);
            if i < pos {
                assert(e2[i].sec() == x);
            } else {
                assert(e2[i + 1] == e[i]);
                assert(e2[i + 1].sec() == x);
            }
            assert(table_has(e2, len + 1, x));
        }
    }
    assert(!table_has(e, len, e2[pos].sec())) by {
        if table_has(e, len, e2[pos].sec()) {
            let i = table_idx_of(e, len, e2[pos].sec());
            lemma_idx_unique(e, len, e2[pos].sec());
            if i < pos {
                assert(e2[i] == e[i]);
                assert(e2[i].sec() < e2[pos].sec());
            } else {
                assert(e2[i + 1] == e[i]);
                assert(e2[pos].sec() < e2[i + 1].sec());
            }
        }
    }
    assert forall|x: u64| x != e2[pos].sec() && table_has(e, len, x) implies e2[table_idx_of(
        e2,
        len + 1,
        x,
    )] == e[#[trigger] table_idx_of(e, len, x)] by {
        let i = table_idx_of(e, len, x);
        lemma_idx_unique(e, len, x);
        let i2 = if i < pos { i } else { i + 1 };
        assert(e2[i2] == e[i]);
        assert(table_has(e2, len + 1, x));
        lemma_idx_unique(e2, len + 1, x);
        assert(table_idx_of(e2, len + 1, x) == i2);
    }
    assert forall|k: int|
        (#[trigger] slot_used(e2, len + 1, k)) <==> (slot_used(e, len, k) || e2[pos].slot()
            == k) by {
        if slot_used(e2, len + 1, k) {
            let i = choose|i: int| 0 <= i < len + 1 && (#[trigger] e2[i]).slot() == k;
            if i == pos {
            } else if i < pos {
                assert(e[i].slot() == k);
                assert(slot_used(e, len, k));
            } else {
                assert(e2[i] == e[i - 1]);
                assert(e[i - 1].slot() == k);
                assert(slot_used(e, len, k));
            }
        }
        if slot_used(e, len, k) {
            let i = choose|i: int| 0 <= i < len && (#[trigger] e[i]).slot() == k;
            if i < pos {
                assert(e2[i].slot() == k);
            } else {
                assert(e2[i + 1] == e[i]);
                assert(e2[i + 1].slot() == k);
            }
            assert(slot_used(e2, len + 1, k));
        }
        if e2[pos].slot() == k {
            assert(slot_used(e2, len + 1, k));
        }
    }
}

/// Replacing the entry at `pos` with one of the same sector preserves
/// every sector's presence and every other sector's entry.
proof fn lemma_update_same_sector(e: Seq<CacheEntry>, len: int, pos: int, ne: CacheEntry)
    requires
        table_wf(e, len),
        0 <= pos < len,
        !ne.is_free(),
        ne.sec() == e[pos].sec(),
        ne.slot() == e[pos].slot(),
    ensures
        table_wf(e.update(pos, ne), len),
        forall|x: u64| (#[trigger] table_has(e.update(pos, ne), len, x)) == table_has(e, len, x),
        forall|x: u64|
            table_has(e, len, x) ==> table_idx_of(e.update(pos, ne), len, x)
                == #[trigger] table_idx_of(e, len, x),
        forall|k: int|
            (#[trigger] slot_used(e.update(pos, ne), len, k)) == slot_used(e, len, k),
{
    let e2 = e.update(pos, ne);
    assert forall|x: u64| (#[trigger] table_has(e2, len, x)) == table_has(e, len, x) by {
        if table_has(e2, len, x) {
            let i = table_idx_of(e2, len, x);
            lemma_idx_unique(e2, len, x);
            assert(e[i].sec() == x);
        }
        if table_has(e, len, x) {
            let i = table_idx_of(e, len, x);
            lemma_idx_unique(e, len, x);
            assert(e2[i].sec() == x);
        }
    }
    assert forall|x: u64| table_has(e, len, x) implies table_idx_of(e2, len, x)
        == #[trigger] table_idx_of(e, len, x) by {
        let i = table_idx_of(e, len, x);
        lemma_idx_unique(e, len, x);
        assert(e2[i].sec() == x);
        lemma_idx_unique(e2, len, x);
    }
    assert forall|k: int| (#[trigger] slot_used(e2, len, k)) == slot_used(e, len, k) by {
        if slot_used(e2, len, k) {
            let i = choose|i: int| 0 <= i < len && (#[trigger] e2[i]).slot() == k;
            assert(e[i].slot() == k);
            assert(slot_used(e, len, k));
        }
        if slot_used(e, len, k) {
            let i = choose|i: int| 0 <= i < len && (#[trigger] e[i]).slot() == k;
            assert(e2[i].slot() == k);
            assert(slot_used(e2, len, k));
        }
    }
}

/// Swapping a comparison's sides reverses its outcome.
proof fn lemma_policy_flip(p: EvictionPolicy, a: CacheEntry, b: CacheEntry)
    ensures
        policy_cmp_spec(p, a, b) == Ordering::Greater <==> policy_cmp_spec(p, b, a)
            == Ordering::Less,
        policy_cmp_spec(p, a, b) == Ordering::Equal <==> policy_cmp_spec(p, b, a)
            == Ordering::Equal,
{
    match p {
        EvictionPolicy::Base(bp) => {},
        EvictionPolicy::UnmodifiedFirst(bp) => {},
        EvictionPolicy::ModifiedFirst(bp) => {},
    }
}

/// The policy order is transitive.
proof fn lemma_policy_trans(p: EvictionPolicy, x: CacheEntry, y: CacheEntry, z: CacheEntry)
    requires
        policy_cmp_spec(p, x, y) != Ordering::Greater,
        policy_cmp_spec(p, y, z) != Ordering::Greater,
    ensures
        policy_cmp_spec(p, x, z) != Ordering::Greater,
{
    match p {
        EvictionPolicy::Base(bp) => {},
        EvictionPolicy::UnmodifiedFirst(bp) => {},
        EvictionPolicy::ModifiedFirst(bp) => {},
    }
}

impl SectorCache {
    /// The table index of the entry the policy would rather evict: the
    /// greatest occupied entry under the policy's order, the last such
    /// entry on ties.
    fn find_victim(&self) -> (vi: usize)
        requires
            self.wf(),
            self.len_int() >= 1,
        ensures
            0 <= vi < self.len_int(),
            forall|i: int|
                0 <= i < self.len_int() ==> policy_cmp_spec(
                    self.policy_spec(),
                    #[trigger] self.cache_table.entries()[i],
                    self.cache_table.entries()[vi as int],
                ) != Ordering::Greater,
            forall|i: int|
                vi < i < self.len_int() ==> policy_cmp_spec(
                    self.policy_spec(),
                    #[trigger] self.cache_table.entries()[i],
                    self.cache_table.entries()[vi as int],
                ) == Ordering::Less,
    {
        let ghost e = self.cache_table.entries();
        let ghost p = self.eviction_policy;
        let len = self.cache_table.len();
        let mut best: usize = 0;
        let mut i: usize = 1;
        while i < len
            invariant
                self.wf(),
                len == self.len_int(),
                best < i,
                1 <= i <= len,
                e == self.cache_table.entries(),
                p == self.policy_spec(),
                forall|j: int|
                    0 <= j < i ==> policy_cmp_spec(p, #[trigger] e[j], e[best as int])
                        != Ordering::Greater,
                forall|j: int|
                    best < j < i ==> policy_cmp_spec(p, #[trigger] e[j], e[best as int])
                        == Ordering::Less,
            decreases len - i,
        {
            let ei = self.cache_table.entry_at(i);
            let eb = self.cache_table.entry_at(best);
            let c = self.eviction_policy.compare(&ei, &eb);
            let is_less = match c {
                Ordering::Less => true,
                _ => false,
            };
            if !is_less {
                proof {
                    lemma_policy_flip(p, e[i as int], e[best as int]);
                    assert forall|j: int| 0 <= j < i implies policy_cmp_spec(
                        p,
                        #[trigger] e[j],
                        e[i as int],
                    ) != Ordering::Greater by {
                        lemma_policy_trans(p, e[j], e[best as int], e[i as int]);
                    }
                }
                best = i;
            }
            i = i + 1;
        }
        best
    }

    /// Evicts the policy's chosen victim, writing it back first when it is
    /// dirty. A failed write-back leaves everything unchanged and the
    /// entry dirty, so a later flush can retry.
    #[verifier::rlimit(100)]
    fn evict_entry<S: Storage>(&mut self, storage: &mut S) -> (r: Result<(), FsError>)
        requires
            old(self).wf(),
            old(self).consistent(old(storage).disk()),
            old(self).len_int() >= 1,
        ensures
            final(self).wf(),
            final(self).consistent(final(storage).disk()),
            final(storage).disk().len() == old(storage).disk().len(),
            final(self).max_sector() == old(self).max_sector(),
            final(self).policy_spec() == old(self).policy_spec(),
            final(self).cap_spec() == old(self).cap_spec(),
            final(self).edisk(final(storage).disk()) == old(self).edisk(old(storage).disk()),
            forall|j: int|
                #![trigger final(storage).disk()[j]]
                0 <= j < old(storage).disk().len() && final(storage).disk()[j] != old(storage).disk()[j] ==> old(self).has_sector(SectorIdx(j as u64)) && old(self).sector_dirty(
                    SectorIdx(j as u64),
                ) && final(storage).disk()[j] == old(self).contents(SectorIdx(j as u64)),
            r is Err ==> *final(self) == *old(self) && final(storage).disk() == old(storage).disk() && r == Err::<(), FsError>(FsError::StorageError),
            r is Ok ==> final(self).len_int() == old(self).len_int() - 1,
            final(self).clock_spec() == old(self).clock_spec(),
            forall|x: SectorIdx|
                old(self).has_sector(x) && (#[trigger] final(self).has_sector(x))
                    ==> final(self).entry_of(x) == old(self).entry_of(x),
            forall|x: SectorIdx| #[trigger] final(self).has_sector(x) ==> old(self).has_sector(x),
            // Survivors keep their bytes and dirtiness; whatever leaves
            // is a policy-maximal victim, and at most one sector leaves.
            forall|x: SectorIdx|
                old(self).has_sector(x) && (#[trigger] final(self).has_sector(x))
                    ==> final(self).contents(x) == old(self).contents(x) && final(self).sector_dirty(x) == old(self).sector_dirty(x),
            forall|x: SectorIdx|
                old(self).has_sector(x) && !(#[trigger] final(self).has_sector(x)) ==> (forall|
                    y: SectorIdx,
                |
                    old(self).has_sector(y) ==> policy_cmp_spec(
                        old(self).policy_spec(),
                        old(self).entry_of(y),
                        old(self).entry_of(x),
                    ) != Ordering::Greater),
            forall|x: SectorIdx, y: SectorIdx|
                old(self).has_sector(x) && !(#[trigger] final(self).has_sector(x)) && old(self).has_sector(y) && !(#[trigger] final(self).has_sector(y)) ==> x == y,
            r is Ok ==> (exists|v: SectorIdx|
                #![auto]
                {
                    &&& old(self).has_sector(v)
                    &&& !final(self).has_sector(v)
                    &&& forall|x: SectorIdx|
                        #[trigger] old(self).has_sector(x) ==> policy_cmp_spec(
                            old(self).policy_spec(),
                            old(self).entry_of(x),
                            old(self).entry_of(v),
                        ) != Ordering::Greater
                    &&& forall|x: SectorIdx|
                        x != v ==> (#[trigger] final(self).has_sector(x)) == old(self).has_sector(x)
                    &&& forall|x: SectorIdx|
                        x != v && old(self).has_sector(x) ==> final(self).contents(x) == old(self).contents(x) && final(self).sector_dirty(x) == old(self).sector_dirty(x)
                }),
    {
        let ghost disk0 = storage.disk();
        let ghost e0 = self.cache_table.entries();
        let ghost len0 = self.cache_table.len_spec();
        let ghost p = self.eviction_policy;
        let vi = self.find_victim();
        let entry = self.cache_table.entry_at(vi);
        let (vs, slot, was_dirty) = match entry {
            CacheEntry::Resident { s, arr_idx, .. } => (s, arr_idx, false),
            CacheEntry::Dirty { s, arr_idx, .. } => (s, arr_idx, true),
            CacheEntry::Free => {
                proof {
                    assert(false);
                }
                (SectorIdx(0), 0, false)
            },
        };
        proof {
            lemma_idx_unique(e0, len0, vs.0);
            assert(table_idx_of(e0, len0, vs.0) == vi);
            assert(self.entry_of(vs) == entry);
        }
        let device_sectors = storage.capacity();
        proof {
            assert(vs.0 <= self.max_sector_idx.0);
            assert(vs.0 < device_sectors);
        }
        if was_dirty {
            match storage.write_sector(vs.idx(), &self.cached_sectors[slot]) {
                Ok(()) => {},
                Err(_) => {
                    proof {
                        assert(self.edisk(storage.disk()) =~= old(self).edisk(disk0));
                    }
                    return Err(FsError::StorageError);
                },
            }
        }
        let ghost disk1 = storage.disk();
        // The victim (now safely on disk when it was dirty) leaves the
        // table and frees its buffer slot.
        let cleaned = match entry {
            CacheEntry::Dirty { s, arr_idx, age, last_accessed } => CacheEntry::Resident {
                s,
                arr_idx,
                age,
                last_accessed,
            },
            other => other,
        };
        self.cache_table.replace_at(vi, cleaned);
        let ghost e1 = self.cache_table.entries();
        proof {
            lemma_update_same_sector(e0, len0, vi as int, cleaned);
            assert(e1 == e0.update(vi as int, cleaned));
        }
        let removed = self.cache_table.remove(vs);
        let slot2 = match removed {
            Ok(sl) => sl,
            Err(_) => {
                proof {
                    lemma_idx_unique(e1, len0, vs.0);
                    assert(table_idx_of(e1, len0, vs.0) == vi);
                    assert(false);
                }
                0
            },
        };
        proof {
            lemma_idx_unique(e1, len0, vs.0);
            assert(table_idx_of(e1, len0, vs.0) == vi);
            assert(slot2 == slot);
        }
        let ghost e2 = self.cache_table.entries();
        let _ = self.cache_bitmap.set(slot2, false);
        proof {
            let bits0 = old(self).cache_bitmap.bits();
            assert(slot_used(e0, len0, slot as int));
            assert(bits0[slot as int]);
            crate::bitmap::lemma_count_set_update(bits0, slot as int, false);
            lemma_remove_shift(e1, e2, len0, vi as int);
            // Slot bookkeeping: every other sector keeps its entry, and
            // the freed slot is owned by nobody.
            assert forall|k: int| 0 <= k < self.cap_spec() implies
                ((#[trigger] self.cache_bitmap.bits()[k]) <==> slot_used(
                    e2,
                    len0 - 1,
                    k,
                )) by {
                if k == slot as int {
                    if slot_used(e2, len0 - 1, k) {
                        let i = choose|i: int|
                            0 <= i < len0 && i != vi as int && (#[trigger] e1[i]).slot() == k;
                        assert(e1[i].slot() == e1[vi as int].slot());
                    }
                } else {
                    if slot_used(e2, len0 - 1, k) {
                        let i = choose|i: int|
                            0 <= i < len0 && i != vi as int && (#[trigger] e1[i]).slot() == k;
                        assert(slot_used(e0, len0, k));
                    }
                    if slot_used(e0, len0, k) {
                        let i = choose|i: int| 0 <= i < len0 && (#[trigger] e0[i]).slot() == k;
                        assert(i != vi as int);
                        assert(e1[i].slot() == k);
                        assert(slot_used(e2, len0 - 1, k));
                    }
                }
            }
            // Everything the contract promises about other sectors.
            assert forall|i: int| 0 <= i < len0 implies (#[trigger] e1[i]).slot() == e0[i].slot()
                && e1[i].sec() == e0[i].sec() by {}
            assert forall|i: int| 0 <= i < len0 - 1 implies 0 <= (#[trigger] e2[i]).slot()
                < self.cap_spec() && e2[i].sec() <= self.max_sector_idx.0 by {
                if i < vi as int {
                    assert(e2[i] == e1[i]);
                } else {
                    assert(e2[i] == e1[i + 1]);
                }
            }
            assert forall|i: int, j: int| 0 <= i < j < len0 - 1 implies e2[i].slot() != e2[j].slot() by {
                let pa = if i < vi as int { i } else { i + 1 };
                let pb = if j < vi as int { j } else { j + 1 };
                assert(e2[i] == e1[pa]);
                assert(e2[j] == e1[pb]);
                assert(e0[pa].slot() != e0[pb].slot());
            }
            assert forall|x: SectorIdx| x != vs implies (#[trigger] self.has_sector(x)) == old(self).has_sector(x) by {
                assert(table_has(e2, len0 - 1, x.0) <==> table_has(e1, len0, x.0));
            }
            assert forall|x: SectorIdx| x != vs && old(self).has_sector(x) implies self.contents(
                x,
            ) == old(self).contents(x) && self.sector_dirty(x) == old(self).sector_dirty(x) by {
                assert(e2[table_idx_of(e2, len0 - 1, x.0)] == e1[table_idx_of(e1, len0, x.0)]);
                assert(e1[table_idx_of(e1, len0, x.0)] == e0[table_idx_of(e0, len0, x.0)]);
            }
            assert forall|x: SectorIdx| #[trigger] old(self).has_sector(x) implies policy_cmp_spec(
                p,
                old(self).entry_of(x),
                old(self).entry_of(vs),
            ) != Ordering::Greater by {
                lemma_idx_unique(e0, len0, x.0);
            }
            assert(!self.has_sector(vs));
            assert forall|x: SectorIdx| #[trigger] self.has_sector(x) implies old(self).has_sector(x) by {
                if x != vs {
                    assert(self.has_sector(x) == old(self).has_sector(x));
                }
            }
            // The model: the effective disk is untouched and the physical
            // disk changed only by the write-back.
            assert forall|j: int| 0 <= j < disk0.len() implies self.edisk(storage.disk())[j]
                == old(self).edisk(disk0)[j] by {
                let x = SectorIdx(j as u64);
                if x == vs {
                    assert(!self.has_sector(x));
                    if was_dirty {
                        assert(storage.disk()[j] == old(self).contents(vs));
                    } else {
                        assert(old(self).contents(vs) == disk0[j]);
                    }
                } else {
                    assert(self.has_sector(x) == old(self).has_sector(x));
                    if self.has_sector(x) {
                        assert(self.contents(x) == old(self).contents(x));
                    } else {
                        assert(storage.disk()[j] == disk0[j]);
                    }
                }
            }
            assert(self.edisk(storage.disk()) =~= old(self).edisk(disk0));
            // Consistency against the new disk.
            assert forall|x: SectorIdx| self.has_sector(x) && !self.sector_dirty(x) implies
                (#[trigger] self.contents(x)) == storage.disk()[x.0 as int] by {
                assert(x != vs);
                if old(self).sector_dirty(x) {
                } else {
                    assert(old(self).contents(x) == disk0[x.0 as int]);
                    assert(storage.disk()[x.0 as int] == disk0[x.0 as int]);
                }
            }
        }
        Ok(())
    }
}

impl SectorCache {
    /// Loads the missing sector `s` into a free slot: the cache's miss
    /// path after any eviction has already happened.
    #[verifier::rlimit(100)]
    fn fault_in<S: Storage>(&mut self, storage: &mut S, s: SectorIdx) -> (r: Result<
        usize,
        FsError,
    >)
        requires
            old(self).wf(),
            old(self).consistent(old(storage).disk()),
            s.0 <= old(self).max_sector().0,
            !old(self).has_sector(s),
            old(self).len_int() < old(self).cap_spec(),
        ensures
            final(self).wf(),
            final(self).consistent(final(storage).disk()),
            final(storage).disk() == old(storage).disk(),
            final(self).max_sector() == old(self).max_sector(),
            final(self).policy_spec() == old(self).policy_spec(),
            final(self).cap_spec() == old(self).cap_spec(),
            final(self).edisk(final(storage).disk()) == old(self).edisk(old(storage).disk()),
            forall|x: SectorIdx|
                x != s ==> (#[trigger] final(self).has_sector(x)) == old(self).has_sector(x),
            forall|x: SectorIdx|
                x != s && old(self).has_sector(x) ==> (#[trigger] final(self).contents(x)) == old(self).contents(x) && final(self).sector_dirty(x) == old(self).sector_dirty(x),
            forall|x: SectorIdx|
                x != s && old(self).has_sector(x) && (#[trigger] final(self).has_sector(x))
                    ==> final(self).entry_of(x) == old(self).entry_of(x),
            r is Ok ==> final(self).len_int() == old(self).len_int() + 1
                && final(self).clock_spec() == clock_next(old(self).clock_spec()),
            r matches Ok(i) ==> {
                &&& final(self).has_sector(s)
                &&& 0 <= i < final(self).len_int()
                &&& final(self).cache_table.entries()[i as int] == final(self).entry_of(s)
                &&& final(self).contents(s) == old(self).edisk(old(storage).disk())[s.0 as int]
                &&& !final(self).sector_dirty(s)
                &&& final(self).entry_of(s).age_spec() == old(self).clock_spec()
                &&& final(self).entry_of(s).last_accessed_spec() == 0
            },
            r is Err ==> r == Err::<usize, FsError>(FsError::StorageError),
    {
        let ghost selfa = *self;
        let ghost diska = storage.disk();
        let ghost ea = self.cache_table.entries();
        let ghost lena = self.cache_table.len_spec();
        let slot = match self.cache_bitmap.next_empty_bit() {
            Ok(sl) => sl,
            Err(()) => {
                proof {
                    assert(count_set(self.cache_bitmap.bits()) == self.cap_spec());
                    assert(false);
                }
                return Err(FsError::StorageError);
            },
        };
        let device_sectors = storage.capacity();
        proof {
            assert(s.0 < device_sectors);
        }
        let mut buf: Vec<u8> = Vec::new();
        match storage.read_sector(s.idx(), &mut buf) {
            Ok(()) => {},
            Err(_) => {
                proof {
                    assert(self.edisk(storage.disk()) =~= selfa.edisk(diska));
                    assert forall|x: SectorIdx| self.has_sector(x) && !self.sector_dirty(x)
                        implies (#[trigger] self.contents(x)) == storage.disk()[x.0 as int] by {
                        assert(selfa.has_sector(x) && !selfa.sector_dirty(x));
                        assert(selfa.contents(x) == diska[x.0 as int]);
                    }
                }
                return Err(FsError::StorageError);
            },
        }
        let _device_sectors = storage.capacity();
        proof {
            assert(buf@.len() == SECTOR_BYTES);
        }
        let age = self.counter;
        self.counter = if self.counter == u64::MAX {
            0
        } else {
            self.counter + 1
        };
        self.cached_sectors[slot] = buf;
        let _ = self.cache_bitmap.set(slot, true);
        let ins = self.cache_table.insert(s, slot, age);
        let pos = match ins {
            Ok(p) => p,
            Err(_) => {
                proof {
                    assert(false);
                }
                return Err(FsError::StorageError);
            },
        };
        proof {
            let e2 = self.cache_table.entries();
            let bitsa = selfa.cache_bitmap.bits();
            assert(!bitsa[slot as int]);
            assert(!slot_used(ea, lena, slot as int));
            crate::bitmap::lemma_count_set_update(bitsa, slot as int, true);
            lemma_insert_shift(ea, e2, lena, pos as int);
            assert(e2[pos as int].sec() == s.0);
            assert forall|k: int| 0 <= k < self.cap_spec() implies
                ((#[trigger] self.cache_bitmap.bits()[k]) <==> slot_used(e2, lena + 1, k)) by {
                if k == slot as int {
                    assert(slot_used(e2, lena + 1, k));
                } else {
                    assert(self.cache_bitmap.bits()[k] == bitsa[k]);
                }
            }
            assert forall|i: int| 0 <= i < lena + 1 implies 0 <= (#[trigger] e2[i]).slot()
                < self.cap_spec() && e2[i].sec() <= self.max_sector_idx.0 by {
                if i < pos as int {
                    assert(e2[i] == ea[i]);
                } else if i == pos as int {
                } else {
                    assert(e2[i] == ea[i - 1]);
                }
            }
            assert forall|i: int, j: int| 0 <= i < j < lena + 1 implies e2[i].slot() != e2[
                j].slot() by {
                if i == pos as int {
                    let pj = j - 1;
                    assert(e2[j] == ea[pj]);
                    assert(slot_used(ea, lena, ea[pj].slot()));
                } else if j == pos as int {
                    let pi = i;
                    assert(e2[i] == ea[pi]);
                    assert(slot_used(ea, lena, ea[pi].slot()));
                } else {
                    let pi = if i < pos as int { i } else { i - 1 };
                    let pj = if j < pos as int { j } else { j - 1 };
                    assert(e2[i] == ea[pi]);
                    assert(e2[j] == ea[pj]);
                    assert(ea[pi].slot() != ea[pj].slot());
                }
            }
            assert forall|x: SectorIdx| x != s && selfa.has_sector(x) implies
                (#[trigger] self.has_sector(x)) && self.contents(x) == selfa.contents(x)
                && self.sector_dirty(x) == selfa.sector_dirty(x) by {
                assert(table_has(e2, lena + 1, x.0));
                assert(e2[table_idx_of(e2, lena + 1, x.0)] == ea[table_idx_of(ea, lena, x.0)]);
                lemma_idx_unique(ea, lena, x.0);
                assert(slot_used(ea, lena, ea[table_idx_of(ea, lena, x.0)].slot()));
                assert(ea[table_idx_of(ea, lena, x.0)].slot() != slot as int);
            }
            assert forall|x: SectorIdx| x != s && self.has_sector(x) implies
                (#[trigger] selfa.has_sector(x)) by {
                assert(table_has(ea, lena, x.0));
            }
            assert(table_idx_of(e2, lena + 1, s.0) == pos as int);
            assert(self.contents(s) == diska[s.0 as int]);
            assert(selfa.edisk(diska)[s.0 as int] == diska[s.0 as int]);
            assert forall|j: int| 0 <= j < diska.len() implies self.edisk(storage.disk())[j]
                == selfa.edisk(diska)[j] by {
                let x = SectorIdx(j as u64);
                if x == s {
                    assert(self.contents(s) == diska[j]);
                } else if selfa.has_sector(x) {
                    assert(self.contents(x) == selfa.contents(x));
                } else {
                    assert(!self.has_sector(x));
                }
            }
            assert(self.edisk(storage.disk()) =~= selfa.edisk(diska));
        }
        Ok(pos)
    }

    /// Makes sector `s` resident — loading it from disk on a miss, after
    /// evicting a victim if the cache is full — and stamps its last-access
    /// time. Returns the sector's table index.
    #[verifier::rlimit(100)]
    #[verifier::spinoff_prover]
    fn ensure_present<S: Storage>(&mut self, storage: &mut S, s: SectorIdx) -> (r: Result<
        usize,
        FsError,
    >)
        requires
            old(self).wf(),
            old(self).consistent(old(storage).disk()),
            s.0 <= old(self).max_sector().0,
        ensures
            final(self).wf(),
            final(self).consistent(final(storage).disk()),
            final(storage).disk().len() == old(storage).disk().len(),
            final(self).max_sector() == old(self).max_sector(),
            final(self).policy_spec() == old(self).policy_spec(),
            final(self).cap_spec() == old(self).cap_spec(),
            final(self).edisk(final(storage).disk()) == old(self).edisk(old(storage).disk()),
            forall|j: int|
                #![trigger final(storage).disk()[j]]
                0 <= j < old(storage).disk().len() && final(storage).disk()[j] != old(storage).disk()[j] ==> old(self).has_sector(SectorIdx(j as u64)) && old(self).sector_dirty(SectorIdx(j as u64)) && final(storage).disk()[j] == old(self).contents(SectorIdx(j as u64)),
            r matches Ok(i) ==> {
                &&& final(self).has_sector(s)
                &&& 0 <= i < final(self).len_int()
                &&& final(self).cache_table.entries()[i as int] == final(self).entry_of(s)
                &&& final(self).contents(s) == old(self).edisk(old(storage).disk())[s.0 as int]
                &&& final(self).sector_dirty(s) == (old(self).has_sector(s) && old(self).sector_dirty(s))
            },
            // A hit never touches the device, so it cannot fail, and no
            // sector is evicted for it.
            old(self).has_sector(s) ==> r is Ok,
            old(self).has_sector(s) ==> (forall|x: SectorIdx|
                (#[trigger] final(self).has_sector(x)) == old(self).has_sector(x)),
            // The cached count grows only on a miss with room; a full
            // cache swaps one sector out. Nothing leaves below capacity.
            r is Ok ==> final(self).len_int() == (if old(self).has_sector(s) {
                old(self).len_int()
            } else if old(self).len_int() < old(self).cap_spec() {
                old(self).len_int() + 1
            } else {
                old(self).cap_spec()
            }),
            old(self).len_int() < old(self).cap_spec() ==> (forall|x: SectorIdx|
                old(self).has_sector(x) ==> #[trigger] final(self).has_sector(x)),
            // Access bookkeeping: the touched sector takes the clock's
            // next stamp, every other cached sector keeps its entry, and
            // a fresh sector's age is its load time.
            forall|x: SectorIdx|
                x != s && old(self).has_sector(x) && (#[trigger] final(self).has_sector(x))
                    ==> final(self).entry_of(x) == old(self).entry_of(x),
            r is Ok ==> final(self).entry_of(s).last_accessed_spec() == (if old(
                self,
            ).has_sector(s) {
                old(self).clock_spec()
            } else {
                clock_next(old(self).clock_spec())
            }),
            r is Ok ==> final(self).entry_of(s).age_spec() == (if old(self).has_sector(s) {
                old(self).entry_of(s).age_spec()
            } else {
                old(self).clock_spec()
            }),
            r is Ok ==> final(self).clock_spec() == (if old(self).has_sector(s) {
                clock_next(old(self).clock_spec())
            } else {
                clock_next(clock_next(old(self).clock_spec()))
            }),
            // Membership never grows beyond the requested sector.
            forall|x: SectorIdx|
                #[trigger] final(self).has_sector(x) ==> old(self).has_sector(x) || x == s,
            // At most one cached sector leaves, and only a victim the
            // policy ranks greatest; every other sector keeps its bytes
            // and its dirtiness.
            forall|x: SectorIdx|
                old(self).has_sector(x) && !(#[trigger] final(self).has_sector(x)) ==> (forall|
                    y: SectorIdx,
                |
                    old(self).has_sector(y) ==> policy_cmp_spec(
                        old(self).policy_spec(),
                        old(self).entry_of(y),
                        old(self).entry_of(x),
                    ) != Ordering::Greater),
            forall|x: SectorIdx, y: SectorIdx|
                old(self).has_sector(x) && !(#[trigger] final(self).has_sector(x)) && old(self).has_sector(y) && !(#[trigger] final(self).has_sector(y)) ==> x == y,
            forall|x: SectorIdx|
                x != s && old(self).has_sector(x) && final(self).has_sector(x)
                    ==> (#[trigger] final(self).contents(x)) == old(self).contents(x),
            forall|x: SectorIdx|
                x != s && old(self).has_sector(x) && final(self).has_sector(x)
                    ==> (#[trigger] final(self).sector_dirty(x)) == old(self).sector_dirty(x),
            r is Err ==> r == Err::<usize, FsError>(FsError::StorageError),
    {
        let ghost disk0 = storage.disk();
        let ghost e0 = self.cache_table.entries();
        let ghost len0 = self.cache_table.len_spec();
        let found = self.cache_table.find(s);
        match found {
            Some(i) => {
                // Hit: stamp the entry's last-access time.
                proof {
                    lemma_idx_unique(e0, len0, s.0);
                    assert(table_idx_of(e0, len0, s.0) == i as int);
                }
                let mut e = self.cache_table.entry_at(i);
                let now = self.counter;
                self.counter = if self.counter == u64::MAX {
                    0
                } else {
                    self.counter + 1
                };
                let _ = e.accessed(now);
                proof {
                    lemma_update_same_sector(e0, len0, i as int, e);
                }
                self.cache_table.replace_at(i, e);
                proof {
                    let e1 = self.cache_table.entries();
                    assert forall|x: SectorIdx| #[trigger] self.has_sector(x) == old(self).has_sector(x) && (old(self).has_sector(x) ==> self.contents(x) == old(self).contents(x) && self.sector_dirty(x) == old(self).sector_dirty(x)) by {
                        if old(self).has_sector(x) {
                            if x.0 == s.0 {
                                assert(table_idx_of(e1, len0, x.0) == i as int);
                            } else {
                                lemma_idx_unique(e0, len0, x.0);
                                assert(e1[table_idx_of(e0, len0, x.0)] == e0[table_idx_of(
                                    e0,
                                    len0,
                                    x.0,
                                )]);
                            }
                        }
                    }
                    assert forall|x: SectorIdx|
                        x != s && old(self).has_sector(x) && self.has_sector(x) implies
                        (#[trigger] self.contents(x)) == old(self).contents(x)
                        && self.sector_dirty(x) == old(self).sector_dirty(x) by {
                        assert(self.has_sector(x) == old(self).has_sector(x));
                    }
                    assert forall|x: SectorIdx|
                        x != s && old(self).has_sector(x) && self.has_sector(x) implies
                        (#[trigger] self.sector_dirty(x)) == old(self).sector_dirty(x) by {
                        assert(self.contents(x) == old(self).contents(x));
                    }
                    assert(self.edisk(storage.disk()) =~= old(self).edisk(disk0));
                    assert(old(self).edisk(disk0)[s.0 as int] == old(self).contents(s));
                }
                Ok(i)
            },
            None => {
                // Miss: free a slot if none is left, then fault the
                // sector in.
                let full = self.cache_table.len() == self.cache_table.capacity();
                if full {
                    match self.evict_entry(storage) {
                        Ok(()) => {},
                        Err(er) => {
                            return Err(FsError::StorageError);
                        },
                    }
                    proof {
                        assert(!self.has_sector(s));
                        assert forall|j: int|
                            0 <= j < disk0.len() && storage.disk()[j] != disk0[j] implies old(self).has_sector(SectorIdx(j as u64)) by {}
                    }
                }
                let ghost self0m = *self;
                let ghost selfm = *self;
                let ghost diskm = storage.disk();
                let mut r = self.fault_in(storage, s);
                match r {
                    Ok(i) => {
                        // Stamp the freshly loaded sector's access time.
                        let ghost selfb = *self;
                        let ghost eb = self.cache_table.entries();
                        let ghost lenb = self.cache_table.len_spec();
                        let mut e = self.cache_table.entry_at(i);
                        let now = self.counter;
                        self.counter = if self.counter == u64::MAX {
                            0
                        } else {
                            self.counter + 1
                        };
                        let _ = e.accessed(now);
                        proof {
                            lemma_idx_unique(eb, lenb, s.0);
                            assert(table_idx_of(eb, lenb, s.0) == i as int);
                            lemma_update_same_sector(eb, lenb, i as int, e);
                        }
                        self.cache_table.replace_at(i, e);
                        proof {
                            let en = self.cache_table.entries();
                            assert(table_idx_of(en, lenb, s.0) == i as int);
                            assert forall|x: SectorIdx| #[trigger] self.has_sector(x)
                                == selfb.has_sector(x) && (selfb.has_sector(x)
                                ==> self.contents(x) == selfb.contents(x)
                                && self.sector_dirty(x) == selfb.sector_dirty(x)) by {
                                if selfb.has_sector(x) {
                                    lemma_idx_unique(eb, lenb, x.0);
                                    lemma_idx_unique(en, lenb, x.0);
                                    let xi = table_idx_of(eb, lenb, x.0);
                                    assert(table_idx_of(en, lenb, x.0) == xi);
                                    if xi != i as int {
                                        assert(en[xi] == eb[xi]);
                                    }
                                }
                            }
                            assert(self.edisk(storage.disk()) =~= selfb.edisk(storage.disk()));
                            assert forall|x: SectorIdx|
                                x != s && old(self).has_sector(x) && self.has_sector(x) implies
                                (#[trigger] self.contents(x)) == old(self).contents(x)
                                && self.sector_dirty(x) == old(self).sector_dirty(x) by {
                                assert(self.has_sector(x) == selfb.has_sector(x));
                                assert(selfb.has_sector(x) == selfm.has_sector(x));
                                assert(selfm.has_sector(x) && selfm.contents(x) == old(
                                    self,
                                ).contents(x) && selfm.sector_dirty(x) == old(
                                    self,
                                ).sector_dirty(x));
                                assert(selfb.contents(x) == selfm.contents(x)
                                    && selfb.sector_dirty(x) == selfm.sector_dirty(x));
                                assert(self.contents(x) == selfb.contents(x)
                                    && self.sector_dirty(x) == selfb.sector_dirty(x));
                            }
                    assert forall|x: SectorIdx|
                        x != s && old(self).has_sector(x) && self.has_sector(x) implies
                        (#[trigger] self.sector_dirty(x)) == old(self).sector_dirty(x) by {
                        assert(self.contents(x) == old(self).contents(x));
                    }
                        }
                        r = Ok(i);
                    },
                    Err(_) => {
                        proof {
                            assert forall|x: SectorIdx|
                                x != s && old(self).has_sector(x) && self.has_sector(x) implies
                                (#[trigger] self.contents(x)) == old(self).contents(x)
                                && self.sector_dirty(x) == old(self).sector_dirty(x) by {
                                assert(self.has_sector(x) == selfm.has_sector(x));
                                assert(selfm.has_sector(x) && selfm.contents(x) == old(
                                    self,
                                ).contents(x) && selfm.sector_dirty(x) == old(
                                    self,
                                ).sector_dirty(x));
                                assert(self.contents(x) == selfm.contents(x));
                                assert(self.sector_dirty(x) == selfm.sector_dirty(x));
                            }
                    assert forall|x: SectorIdx|
                        x != s && old(self).has_sector(x) && self.has_sector(x) implies
                        (#[trigger] self.sector_dirty(x)) == old(self).sector_dirty(x) by {
                        assert(self.contents(x) == old(self).contents(x));
                    }
                        }
                    },
                }
                proof {
                    assert(self.edisk(storage.disk()) == selfm.edisk(diskm));
                    assert(selfm.edisk(diskm) == old(self).edisk(disk0));
                    assert forall|j: int|
                        0 <= j < disk0.len() && storage.disk()[j] != disk0[j] implies old(self).has_sector(SectorIdx(j as u64)) && old(self).sector_dirty(SectorIdx(
                        j as u64,
                    )) && storage.disk()[j] == old(self).contents(SectorIdx(j as u64)) by {
                        assert(storage.disk() == diskm);
                        assert(diskm[j] != disk0[j]);
                        if !full {
                            assert(diskm == disk0);
                        }
                    }
                    if r is Ok {
                        assert(selfm.edisk(diskm)[s.0 as int] == old(self).edisk(disk0)[
                            s.0 as int]);
                    }
                }
                r
            },
        }
    }
}
impl SectorCache {
    /// A copy of sector `s`'s bytes out of the effective disk, faulting
    /// the sector in on a miss with at most one device read. Fails with
    /// `OutOfRange` exactly when `s` lies beyond the served range; an
    /// in-range request fails only when the device itself fails.
    pub fn get<S: Storage>(&mut self, storage: &mut S, s: SectorIdx) -> (r: Result<
        Vec<u8>,
        FsError,
    >)
        requires
            old(self).wf(),
            old(self).consistent(old(storage).disk()),
        ensures
            final(self).wf(),
            final(self).consistent(final(storage).disk()),
            final(storage).disk().len() == old(storage).disk().len(),
            final(self).max_sector() == old(self).max_sector(),
            final(self).policy_spec() == old(self).policy_spec(),
            final(self).cap_spec() == old(self).cap_spec(),
            final(self).edisk(final(storage).disk()) == old(self).edisk(old(storage).disk()),
            forall|j: int|
                #![trigger final(storage).disk()[j]]
                0 <= j < old(storage).disk().len() && final(storage).disk()[j] != old(storage).disk()[j] ==> old(self).has_sector(SectorIdx(j as u64)) && old(self).sector_dirty(SectorIdx(j as u64)) && final(storage).disk()[j] == old(self).contents(SectorIdx(j as u64)),
            r matches Ok(v) ==> s.0 <= old(self).max_sector().0 && v@ == old(self).edisk(
                old(storage).disk(),
            )[s.0 as int] && final(self).has_sector(s),
            s.0 > old(self).max_sector().0 <==> r == Err::<Vec<u8>, FsError>(FsError::OutOfRange),
            // A request for a cached, in-range sector never touches the
            // device, so it cannot fail, and no sector is evicted for it.
            old(self).has_sector(s) && s.0 <= old(self).max_sector().0 ==> r is Ok,
            old(self).has_sector(s) && s.0 <= old(self).max_sector().0 ==> (forall|x: SectorIdx|
                (#[trigger] final(self).has_sector(x)) == old(self).has_sector(x)),
            // Membership never grows beyond the requested sector.
            forall|x: SectorIdx|
                #[trigger] final(self).has_sector(x) ==> old(self).has_sector(x) || x == s,
            // At most one cached sector leaves, and only a victim the
            // policy ranks greatest; every other cached sector keeps its
            // bytes and its dirtiness.
            forall|x: SectorIdx|
                old(self).has_sector(x) && !(#[trigger] final(self).has_sector(x)) ==> (forall|
                    y: SectorIdx,
                |
                    old(self).has_sector(y) ==> policy_cmp_spec(
                        old(self).policy_spec(),
                        old(self).entry_of(y),
                        old(self).entry_of(x),
                    ) != Ordering::Greater),
            forall|x: SectorIdx, y: SectorIdx|
                old(self).has_sector(x) && !(#[trigger] final(self).has_sector(x)) && old(self).has_sector(y) && !(#[trigger] final(self).has_sector(y)) ==> x == y,
            forall|x: SectorIdx|
                x != s && old(self).has_sector(x) && final(self).has_sector(x)
                    ==> (#[trigger] final(self).contents(x)) == old(self).contents(x),
            forall|x: SectorIdx|
                x != s && old(self).has_sector(x) && final(self).has_sector(x)
                    ==> (#[trigger] final(self).sector_dirty(x)) == old(self).sector_dirty(x),
            // The cached count grows only on a miss with room; a full
            // cache swaps one sector out. Nothing leaves below capacity.
            r is Ok ==> final(self).len_int() == (if old(self).has_sector(s) {
                old(self).len_int()
            } else if old(self).len_int() < old(self).cap_spec() {
                old(self).len_int() + 1
            } else {
                old(self).cap_spec()
            }),
            old(self).len_int() < old(self).cap_spec() ==> (forall|x: SectorIdx|
                old(self).has_sector(x) ==> #[trigger] final(self).has_sector(x)),
            // Access bookkeeping: the touched sector takes the clock's
            // next stamp, every other cached sector keeps its entry's
            // stamp and age, and a fresh sector's age is its load time.
            forall|x: SectorIdx|
                x != s && old(self).has_sector(x) && (#[trigger] final(self).has_sector(x))
                    ==> final(self).entry_of(x).last_accessed_spec() == old(self).entry_of(
                    x,
                ).last_accessed_spec() && final(self).entry_of(x).age_spec() == old(
                    self,
                ).entry_of(x).age_spec(),
            r is Ok ==> final(self).entry_of(s).last_accessed_spec() == (if old(
                self,
            ).has_sector(s) {
                old(self).clock_spec()
            } else {
                clock_next(old(self).clock_spec())
            }),
            r is Ok ==> final(self).entry_of(s).age_spec() == (if old(self).has_sector(s) {
                old(self).entry_of(s).age_spec()
            } else {
                old(self).clock_spec()
            }),
            r is Ok ==> final(self).clock_spec() == (if old(self).has_sector(s) {
                clock_next(old(self).clock_spec())
            } else {
                clock_next(clock_next(old(self).clock_spec()))
            }),
            r is Err ==> r == Err::<Vec<u8>, FsError>(FsError::OutOfRange) || r == Err::<
                Vec<u8>,
                FsError,
            >(FsError::StorageError),
    {
        if s.inner() > self.max_sector_idx.inner() {
            proof {
                assert(self.edisk(storage.disk()) =~= old(self).edisk(old(storage).disk()));
            }
            return Err(FsError::OutOfRange);
        }
        let i = match self.ensure_present(storage, s) {
            Ok(i) => i,
            Err(e) => {
                return Err(e);
            },
        };
        let e = self.cache_table.entry_at(i);
        let slot = match e.get_arr_idx() {
            Some(sl) => sl,
            None => {
                proof {
                    assert(false);
                }
                0
            },
        };
        let v = self.cached_sectors[slot].clone();
        proof {
            assert(v@ =~= self.contents(s));
        }
        Ok(v)
    }

    /// The byte at `offset` of sector `s` on the effective disk, faulting
    /// the sector in on a miss.
    pub fn get_byte<S: Storage>(&mut self, storage: &mut S, s: SectorIdx, offset: usize) -> (r:
        Result<u8, FsError>)
        requires
            old(self).wf(),
            old(self).consistent(old(storage).disk()),
            offset < SECTOR_BYTES,
        ensures
            final(self).wf(),
            final(self).consistent(final(storage).disk()),
            final(storage).disk().len() == old(storage).disk().len(),
            final(self).max_sector() == old(self).max_sector(),
            final(self).policy_spec() == old(self).policy_spec(),
            final(self).cap_spec() == old(self).cap_spec(),
            final(self).edisk(final(storage).disk()) == old(self).edisk(old(storage).disk()),
            forall|j: int|
                #![trigger final(storage).disk()[j]]
                0 <= j < old(storage).disk().len() && final(storage).disk()[j] != old(storage).disk()[j] ==> old(self).has_sector(SectorIdx(j as u64)) && old(self).sector_dirty(SectorIdx(j as u64)) && final(storage).disk()[j] == old(self).contents(SectorIdx(j as u64)),
            r matches Ok(b) ==> s.0 <= old(self).max_sector().0 && b == old(self).edisk(
                old(storage).disk(),
            )[s.0 as int][offset as int],
            s.0 > old(self).max_sector().0 <==> r == Err::<u8, FsError>(FsError::OutOfRange),
            // A request for a cached, in-range sector never touches the
            // device, so it cannot fail, and no sector is evicted for it.
            old(self).has_sector(s) && s.0 <= old(self).max_sector().0 ==> r is Ok,
            old(self).has_sector(s) && s.0 <= old(self).max_sector().0 ==> (forall|x: SectorIdx|
                (#[trigger] final(self).has_sector(x)) == old(self).has_sector(x)),
            // Membership never grows beyond the requested sector.
            forall|x: SectorIdx|
                #[trigger] final(self).has_sector(x) ==> old(self).has_sector(x) || x == s,
            // At most one cached sector leaves, and only a victim the
            // policy ranks greatest; every other cached sector keeps its
            // bytes and its dirtiness.
            forall|x: SectorIdx|
                old(self).has_sector(x) && !(#[trigger] final(self).has_sector(x)) ==> (forall|
                    y: SectorIdx,
                |
                    old(self).has_sector(y) ==> policy_cmp_spec(
                        old(self).policy_spec(),
                        old(self).entry_of(y),
                        old(self).entry_of(x),
                    ) != Ordering::Greater),
            forall|x: SectorIdx, y: SectorIdx|
                old(self).has_sector(x) && !(#[trigger] final(self).has_sector(x)) && old(self).has_sector(y) && !(#[trigger] final(self).has_sector(y)) ==> x == y,
            forall|x: SectorIdx|
                x != s && old(self).has_sector(x) && final(self).has_sector(x)
                    ==> (#[trigger] final(self).contents(x)) == old(self).contents(x),
            forall|x: SectorIdx|
                x != s && old(self).has_sector(x) && final(self).has_sector(x)
                    ==> (#[trigger] final(self).sector_dirty(x)) == old(self).sector_dirty(x),
            // The cached count grows only on a miss with room; a full
            // cache swaps one sector out. Nothing leaves below capacity.
            r is Ok ==> final(self).len_int() == (if old(self).has_sector(s) {
                old(self).len_int()
            } else if old(self).len_int() < old(self).cap_spec() {
                old(self).len_int() + 1
            } else {
                old(self).cap_spec()
            }),
            old(self).len_int() < old(self).cap_spec() ==> (forall|x: SectorIdx|
                old(self).has_sector(x) ==> #[trigger] final(self).has_sector(x)),
            // Access bookkeeping: the touched sector takes the clock's
            // next stamp, every other cached sector keeps its entry's
            // stamp and age, and a fresh sector's age is its load time.
            forall|x: SectorIdx|
                x != s && old(self).has_sector(x) && (#[trigger] final(self).has_sector(x))
                    ==> final(self).entry_of(x).last_accessed_spec() == old(self).entry_of(
                    x,
                ).last_accessed_spec() && final(self).entry_of(x).age_spec() == old(
                    self,
                ).entry_of(x).age_spec(),
            r is Ok ==> final(self).entry_of(s).last_accessed_spec() == (if old(
                self,
            ).has_sector(s) {
                old(self).clock_spec()
            } else {
                clock_next(old(self).clock_spec())
            }),
            r is Ok ==> final(self).entry_of(s).age_spec() == (if old(self).has_sector(s) {
                old(self).entry_of(s).age_spec()
            } else {
                old(self).clock_spec()
            }),
            r is Ok ==> final(self).clock_spec() == (if old(self).has_sector(s) {
                clock_next(old(self).clock_spec())
            } else {
                clock_next(clock_next(old(self).clock_spec()))
            }),
            r is Err ==> r == Err::<u8, FsError>(FsError::OutOfRange) || r == Err::<u8, FsError>(
                FsError::StorageError,
            ),
    {
        if s.inner() > self.max_sector_idx.inner() {
            proof {
                assert(self.edisk(storage.disk()) =~= old(self).edisk(old(storage).disk()));
            }
            return Err(FsError::OutOfRange);
        }
        let i = match self.ensure_present(storage, s) {
            Ok(i) => i,
            Err(e) => {
                return Err(e);
            },
        };
        let e = self.cache_table.entry_at(i);
        let slot = match e.get_arr_idx() {
            Some(sl) => sl,
            None => {
                proof {
                    assert(false);
                }
                0
            },
        };
        Ok(self.cached_sectors[slot][offset])
    }

    /// Sets the byte at `offset` of sector `s` on the effective disk,
    /// faulting the sector in on a miss and marking it dirty. The physical
    /// disk is untouched except for a possible eviction write-back.
    #[verifier::rlimit(100)]
    pub fn write_byte<S: Storage>(
        &mut self,
        storage: &mut S,
        s: SectorIdx,
        offset: usize,
        val: u8,
    ) -> (r: Result<(), FsError>)
        requires
            old(self).wf(),
            old(self).consistent(old(storage).disk()),
            offset < SECTOR_BYTES,
        ensures
            final(self).wf(),
            final(self).consistent(final(storage).disk()),
            final(storage).disk().len() == old(storage).disk().len(),
            final(self).max_sector() == old(self).max_sector(),
            final(self).policy_spec() == old(self).policy_spec(),
            final(self).cap_spec() == old(self).cap_spec(),
            forall|j: int|
                #![trigger final(storage).disk()[j]]
                0 <= j < old(storage).disk().len() && final(storage).disk()[j] != old(storage).disk()[j] ==> old(self).has_sector(SectorIdx(j as u64)) && old(self).sector_dirty(SectorIdx(j as u64)) && final(storage).disk()[j] == old(self).contents(SectorIdx(j as u64)),
            r is Ok ==> s.0 <= old(self).max_sector().0 && final(self).edisk(
                final(storage).disk(),
            ) == old(self).edisk(old(storage).disk()).update(
                s.0 as int,
                old(self).edisk(old(storage).disk())[s.0 as int].update(offset as int, val),
            ) && final(self).has_sector(s) && final(self).sector_dirty(s),
            r is Err ==> final(self).edisk(final(storage).disk()) == old(self).edisk(
                old(storage).disk(),
            ),
            s.0 > old(self).max_sector().0 <==> r == Err::<(), FsError>(FsError::OutOfRange),
            // A request for a cached, in-range sector never touches the
            // device, so it cannot fail, and no sector is evicted for it.
            old(self).has_sector(s) && s.0 <= old(self).max_sector().0 ==> r is Ok,
            old(self).has_sector(s) && s.0 <= old(self).max_sector().0 ==> (forall|x: SectorIdx|
                (#[trigger] final(self).has_sector(x)) == old(self).has_sector(x)),
            // Membership never grows beyond the requested sector.
            forall|x: SectorIdx|
                #[trigger] final(self).has_sector(x) ==> old(self).has_sector(x) || x == s,
            // At most one cached sector leaves, and only a victim the
            // policy ranks greatest; every other cached sector keeps its
            // bytes and its dirtiness.
            forall|x: SectorIdx|
                old(self).has_sector(x) && !(#[trigger] final(self).has_sector(x)) ==> (forall|
                    y: SectorIdx,
                |
                    old(self).has_sector(y) ==> policy_cmp_spec(
                        old(self).policy_spec(),
                        old(self).entry_of(y),
                        old(self).entry_of(x),
                    ) != Ordering::Greater),
            forall|x: SectorIdx, y: SectorIdx|
                old(self).has_sector(x) && !(#[trigger] final(self).has_sector(x)) && old(self).has_sector(y) && !(#[trigger] final(self).has_sector(y)) ==> x == y,
            forall|x: SectorIdx|
                x != s && old(self).has_sector(x) && final(self).has_sector(x)
                    ==> (#[trigger] final(self).contents(x)) == old(self).contents(x),
            forall|x: SectorIdx|
                x != s && old(self).has_sector(x) && final(self).has_sector(x)
                    ==> (#[trigger] final(self).sector_dirty(x)) == old(self).sector_dirty(x),
            // The cached count grows only on a miss with room; a full
            // cache swaps one sector out. Nothing leaves below capacity.
            r is Ok ==> final(self).len_int() == (if old(self).has_sector(s) {
                old(self).len_int()
            } else if old(self).len_int() < old(self).cap_spec() {
                old(self).len_int() + 1
            } else {
                old(self).cap_spec()
            }),
            old(self).len_int() < old(self).cap_spec() ==> (forall|x: SectorIdx|
                old(self).has_sector(x) ==> #[trigger] final(self).has_sector(x)),
            // Access bookkeeping: the touched sector takes the clock's
            // next stamp, every other cached sector keeps its entry's
            // stamp and age, and a fresh sector's age is its load time.
            forall|x: SectorIdx|
                x != s && old(self).has_sector(x) && (#[trigger] final(self).has_sector(x))
                    ==> final(self).entry_of(x).last_accessed_spec() == old(self).entry_of(
                    x,
                ).last_accessed_spec() && final(self).entry_of(x).age_spec() == old(
                    self,
                ).entry_of(x).age_spec(),
            r is Ok ==> final(self).entry_of(s).last_accessed_spec() == (if old(
                self,
            ).has_sector(s) {
                old(self).clock_spec()
            } else {
                clock_next(old(self).clock_spec())
            }),
            r is Ok ==> final(self).entry_of(s).age_spec() == (if old(self).has_sector(s) {
                old(self).entry_of(s).age_spec()
            } else {
                old(self).clock_spec()
            }),
            r is Ok ==> final(self).clock_spec() == (if old(self).has_sector(s) {
                clock_next(old(self).clock_spec())
            } else {
                clock_next(clock_next(old(self).clock_spec()))
            }),
            r is Err ==> r == Err::<(), FsError>(FsError::OutOfRange) || r == Err::<(), FsError>(
                FsError::StorageError,
            ),
    {
        if s.inner() > self.max_sector_idx.inner() {
            proof {
                assert(self.edisk(storage.disk()) =~= old(self).edisk(old(storage).disk()));
            }
            return Err(FsError::OutOfRange);
        }
        let ghost disk0 = storage.disk();
        let i = match self.ensure_present(storage, s) {
            Ok(i) => i,
            Err(e) => {
                return Err(e);
            },
        };
        let ghost selfm = *self;
        let ghost diskm = storage.disk();
        let ghost em = self.cache_table.entries();
        let ghost lenm = self.cache_table.len_spec();
        let mut e = self.cache_table.entry_at(i);
        let slot = match e.get_arr_idx() {
            Some(sl) => sl,
            None => {
                proof {
                    assert(false);
                }
                0
            },
        };
        self.cached_sectors[slot][offset] = val;
        let _ = e.mark_as_dirty();
        proof {
            lemma_update_same_sector(em, lenm, i as int, e);
        }
        self.cache_table.replace_at(i, e);
        proof {
            let e2 = self.cache_table.entries();
            assert(table_idx_of(em, lenm, s.0) == i as int) by {
                lemma_idx_unique(em, lenm, s.0);
            }
            assert(table_idx_of(e2, lenm, s.0) == i as int);
            assert(self.contents(s) =~= selfm.contents(s).update(offset as int, val));
            assert forall|x: SectorIdx| x != s implies (#[trigger] self.has_sector(x))
                == selfm.has_sector(x) && (selfm.has_sector(x) ==> self.contents(x)
                == selfm.contents(x) && self.sector_dirty(x) == selfm.sector_dirty(x)) by {
                if selfm.has_sector(x) {
                    lemma_idx_unique(em, lenm, x.0);
                    let xi = table_idx_of(em, lenm, x.0);
                    assert(e2[xi] == em[xi]);
                    assert(em[xi].slot() != em[i as int].slot());
                }
            }
            let target = selfm.edisk(diskm).update(
                s.0 as int,
                selfm.edisk(diskm)[s.0 as int].update(offset as int, val),
            );
            assert forall|j: int| 0 <= j < diskm.len() implies self.edisk(storage.disk())[j]
                == target[j] by {
                let x = SectorIdx(j as u64);
                if j == s.0 as int {
                    assert(selfm.edisk(diskm)[j] == selfm.contents(s));
                } else {
                    if selfm.has_sector(x) {
                        assert(self.contents(x) == selfm.contents(x));
                    }
                }
            }
            assert(self.edisk(storage.disk()) =~= target);
            assert(selfm.edisk(diskm) == old(self).edisk(disk0));
            assert(selfm.edisk(diskm)[s.0 as int] == old(self).edisk(disk0)[s.0 as int]);
        }
        Ok(())
    }

    /// Writes every dirty sector back to the device and marks it clean,
    /// leaving the effective disk unchanged; after a successful flush the
    /// physical disk equals the effective disk. A failed write leaves its
    /// sector dirty, surfaces the error, and a later flush may retry.
    #[verifier::rlimit(100)]
    #[verifier::spinoff_prover]
    pub fn flush<S: Storage>(&mut self, storage: &mut S) -> (r: Result<(), FsError>)
        requires
            old(self).wf(),
            old(self).consistent(old(storage).disk()),
        ensures
            final(self).wf(),
            final(self).consistent(final(storage).disk()),
            final(storage).disk().len() == old(storage).disk().len(),
            final(self).max_sector() == old(self).max_sector(),
            final(self).policy_spec() == old(self).policy_spec(),
            final(self).cap_spec() == old(self).cap_spec(),
            final(self).len_int() == old(self).len_int(),
            final(self).edisk(final(storage).disk()) == old(self).edisk(old(storage).disk()),
            forall|x: SectorIdx| #[trigger] final(self).has_sector(x) == old(self).has_sector(x),
            forall|x: SectorIdx|
                old(self).has_sector(x) ==> (#[trigger] final(self).contents(x)) == old(self).contents(x),
            forall|j: int|
                #![trigger final(storage).disk()[j]]
                0 <= j < old(storage).disk().len() && final(storage).disk()[j] != old(storage).disk()[j] ==> old(self).has_sector(SectorIdx(j as u64)) && old(self).sector_dirty(SectorIdx(j as u64)) && final(storage).disk()[j] == old(self).contents(SectorIdx(j as u64)),
            r is Ok ==> (forall|x: SectorIdx|
                final(self).has_sector(x) ==> !(#[trigger] final(self).sector_dirty(x))) && final(storage).disk() == old(self).edisk(old(storage).disk()),
            // Flushing only cleans: no sector becomes dirty.
            forall|x: SectorIdx|
                old(self).has_sector(x) && #[trigger] final(self).sector_dirty(x) ==> old(self).sector_dirty(x),
            // A cache with nothing dirty has nothing to write, so the
            // flush cannot fail.
            (forall|x: SectorIdx|
                old(self).has_sector(x) ==> !(#[trigger] old(self).sector_dirty(x))) ==> r is Ok,
            // On failure the entry whose write failed is still dirty, and
            // every dirty entry before it (in sector order) was already
            // written back and marked clean.
            r is Err ==> (exists|x: SectorIdx|
                #![auto]
                final(self).has_sector(x) && final(self).sector_dirty(x) && (forall|y: SectorIdx|
                    y.0 < x.0 && final(self).has_sector(y) ==> !(#[trigger] final(self).sector_dirty(y)))),
            r is Err ==> r == Err::<(), FsError>(FsError::StorageError),
    {
        let ghost disk0 = storage.disk();
        let ghost e0 = self.cache_table.entries();
        let ghost len0 = self.cache_table.len_spec();
        let device_sectors = storage.capacity();
        let len = self.cache_table.len();
        let mut i: usize = 0;
        while i < len
            invariant
                self.wf(),
                self.consistent(storage.disk()),
                i <= len,
                len == self.len_int(),
                len0 == len,
                disk0 == old(storage).disk(),
                e0 == old(self).cache_table.entries(),
                len0 == old(self).len_int(),
                self.cached_sectors == old(self).cached_sectors,
                self.cache_bitmap == old(self).cache_bitmap,
                self.max_sector_idx == old(self).max_sector_idx,
                self.eviction_policy == old(self).eviction_policy,
                self.counter == old(self).counter,
                self.cap_spec() == old(self).cap_spec(),
                storage.disk().len() == disk0.len(),
                device_sectors == disk0.len(),
                forall|j: int|
                    0 <= j < len0 ==> (#[trigger] self.cache_table.entries()[j]).sec() == e0[j].sec() && self.cache_table.entries()[j].slot() == e0[j].slot(),
                forall|j: int|
                    0 <= j < i ==> !(#[trigger] self.cache_table.entries()[j]).is_dirty_spec(),
                forall|j: int|
                    0 <= j < len0 && (#[trigger] self.cache_table.entries()[j]).is_dirty_spec()
                        ==> e0[j].is_dirty_spec(),
                forall|x: SectorIdx| #[trigger] self.has_sector(x) == old(self).has_sector(x),
                forall|x: SectorIdx|
                    old(self).has_sector(x) ==> (#[trigger] self.contents(x)) == old(self).contents(x) && (self.sector_dirty(x) ==> old(self).sector_dirty(x)),
                forall|j: int|
                    #![trigger storage.disk()[j]]
                    0 <= j < disk0.len() && storage.disk()[j] != disk0[j] ==> old(self).has_sector(
                        SectorIdx(j as u64),
                    ) && old(self).sector_dirty(SectorIdx(j as u64)) && storage.disk()[j] == old(self).contents(SectorIdx(j as u64)),
                self.edisk(storage.disk()) == old(self).edisk(disk0),
                old(self).wf(),
                old(self).consistent(disk0),
                self.cache_table.entries().len() == e0.len(),
            decreases len - i,
        {
            let ghost selfp = *self;
            let e = self.cache_table.entry_at(i);
            let ghost em = self.cache_table.entries();
            if e.is_dirty() {
                let sec_idx = match e.get_sector_idx() {
                    Some(sx) => sx,
                    None => {
                        proof {
                            assert(false);
                        }
                        SectorIdx(0)
                    },
                };
                let slot = match e.get_arr_idx() {
                    Some(sl) => sl,
                    None => {
                        proof {
                            assert(false);
                        }
                        0
                    },
                };
                proof {
                    assert(sec_idx.0 <= self.max_sector_idx.0);
                    assert(sec_idx.0 < device_sectors);
                }
                let ghost diskb = storage.disk();
                match storage.write_sector(sec_idx.idx(), &self.cached_sectors[slot]) {
                    Ok(()) => {},
                    Err(_) => {
                        proof {
                            lemma_idx_unique(em, len0 as int, sec_idx.0);
                            assert(table_idx_of(em, len0 as int, sec_idx.0) == i as int);
                            assert(self.has_sector(sec_idx) && self.sector_dirty(sec_idx));
                            assert(old(self).has_sector(sec_idx));
                            assert(old(self).sector_dirty(sec_idx));
                            assert forall|y: SectorIdx|
                                y.0 < sec_idx.0 && self.has_sector(y) implies !(
                            #[trigger] self.sector_dirty(y)) by {
                                lemma_idx_unique(em, len0 as int, y.0);
                                let yi = table_idx_of(em, len0 as int, y.0);
                                assert(em[yi].sec() < em[i as int].sec());
                                assert(yi < i as int) by {
                                    if yi > i as int {
                                        assert(em[i as int].sec() < em[yi].sec());
                                    }
                                }
                                assert(!em[yi].is_dirty_spec());
                            }
                            assert forall|x: SectorIdx|
                                old(self).has_sector(x) && #[trigger] self.sector_dirty(x)
                                implies old(self).sector_dirty(x) by {
                                assert(self.contents(x) == old(self).contents(x));
                            }
                        }
                        return Err(FsError::StorageError);
                    },
                }
                let mut e2 = e;
                let _ = e2.mark_as_clean();
                proof {
                    lemma_update_same_sector(em, len0 as int, i as int, e2);
                }
                self.cache_table.replace_at(i, e2);
                proof {
                    let en = self.cache_table.entries();
                    lemma_idx_unique(em, len0 as int, sec_idx.0);
                    assert(table_idx_of(em, len0 as int, sec_idx.0) == i as int);
                    assert(table_idx_of(en, len0 as int, sec_idx.0) == i as int);
                    // The written sector was cached dirty with exactly
                    // these bytes all along.
                    assert(selfp.has_sector(sec_idx));
                    assert(selfp.sector_dirty(sec_idx));
                    assert(selfp.contents(sec_idx) == self.cached_sectors@[slot as int]@);
                    assert(old(self).has_sector(sec_idx));
                    assert(old(self).sector_dirty(sec_idx));
                    assert(old(self).contents(sec_idx) == self.cached_sectors@[slot as int]@);
                    // Presence, contents and cleanliness line up entry by
                    // entry between the step's start and end.
                    assert forall|x: SectorIdx|
                        #![trigger self.has_sector(x)]
                        #![trigger self.contents(x)]
                        #![trigger self.sector_dirty(x)]
                        self.has_sector(x) == selfp.has_sector(x) && (selfp.has_sector(x)
                        ==> self.contents(x) == selfp.contents(x) && (self.sector_dirty(x)
                        ==> selfp.sector_dirty(x))) by {
                        assert(table_has(en, len0 as int, x.0) == table_has(
                            em,
                            len0 as int,
                            x.0,
                        ));
                        if selfp.has_sector(x) {
                            lemma_idx_unique(em, len0 as int, x.0);
                            lemma_idx_unique(en, len0 as int, x.0);
                            let xi = table_idx_of(em, len0 as int, x.0);
                            assert(table_idx_of(en, len0 as int, x.0) == xi);
                            if xi != i as int {
                                assert(en[xi] == em[xi]);
                            }
                        }
                    }
                    assert(self.edisk(storage.disk()) =~= selfp.edisk(diskb)) by {
                        assert forall|j: int| 0 <= j < diskb.len() implies self.edisk(
                            storage.disk(),
                        )[j] == selfp.edisk(diskb)[j] by {
                            let x = SectorIdx(j as u64);
                            if selfp.has_sector(x) {
                                assert(self.contents(x) == selfp.contents(x));
                            } else {
                                assert(!self.has_sector(x));
                                if j != sec_idx.0 as int {
                                    assert(storage.disk()[j] == diskb[j]);
                                } else {
                                    assert(selfp.has_sector(sec_idx));
                                }
                            }
                        }
                    }
                    assert forall|x: SectorIdx| self.has_sector(x) && !self.sector_dirty(x)
                        implies (#[trigger] self.contents(x)) == storage.disk()[x.0 as int] by {
                        lemma_idx_unique(em, len0 as int, x.0);
                        lemma_idx_unique(en, len0 as int, x.0);
                        let xi = table_idx_of(em, len0 as int, x.0);
                        assert(table_idx_of(en, len0 as int, x.0) == xi);
                        if xi == i as int {
                            assert(x.0 == sec_idx.0);
                            assert(self.contents(x) == self.cached_sectors@[slot as int]@);
                            assert(storage.disk()[sec_idx.0 as int] == self.cached_sectors@[
                                slot as int]@);
                        } else {
                            assert(en[xi] == em[xi]);
                            assert(!em[xi].is_dirty_spec());
                            assert(selfp.contents(x) == diskb[x.0 as int]);
                            assert(x.0 != sec_idx.0);
                            assert(storage.disk()[x.0 as int] == diskb[x.0 as int]);
                        }
                    }
                    assert forall|x: SectorIdx| old(self).has_sector(x) implies
                        (#[trigger] self.contents(x)) == old(self).contents(x) && (
                    self.sector_dirty(x) ==> old(self).sector_dirty(x)) by {
                        assert(selfp.has_sector(x) == old(self).has_sector(x));
                        assert(selfp.contents(x) == old(self).contents(x));
                        assert(self.contents(x) == selfp.contents(x));
                    }
                }
            }
            i = i + 1;
        }
        proof {
            assert forall|x: SectorIdx| self.has_sector(x) implies !(
            #[trigger] self.sector_dirty(x)) by {
                lemma_idx_unique(self.cache_table.entries(), len0 as int, x.0);
            }
            assert(storage.disk() =~= old(self).edisk(disk0)) by {
                assert forall|j: int| 0 <= j < disk0.len() implies storage.disk()[j] == old(self).edisk(disk0)[j] by {
                    let x = SectorIdx(j as u64);
                    if self.has_sector(x) {
                        assert(self.contents(x) == storage.disk()[j]);
                        assert(self.edisk(storage.disk())[j] == self.contents(x));
                        assert(old(self).edisk(disk0)[j] == self.contents(x));
                    } else {
                        assert(self.edisk(storage.disk())[j] == storage.disk()[j]);
                        assert(old(self).edisk(disk0)[j] == storage.disk()[j]);
                    }
                }
            }
        }
        Ok(())
    }
}

} // verus!
