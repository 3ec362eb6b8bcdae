// Tests for the sector cache: misses, eviction order, dirty tracking and
// flushing.

use fat32::fat::cache::{BasePolicy, EvictionPolicy, SectorCache};
use fat32::fat::types::SectorIdx;
use fat32::storage::{MemStorage, Storage};

fn lru() -> EvictionPolicy {
    EvictionPolicy::Base(BasePolicy::LeastRecentlyAccessed)
}

// A cache of capacity 1 under back-to-back reads of a, b, a issues three
// device reads: every switch is a miss.
#[test]
fn capacity_one_read_count() {
    let mut s = MemStorage::new(100);
    let mut c = SectorCache::new(SectorIdx::new(99), 1, lru());
    c.get(&mut s, SectorIdx::new(3)).unwrap();
    c.get(&mut s, SectorIdx::new(7)).unwrap();
    c.get(&mut s, SectorIdx::new(3)).unwrap();
    assert_eq!(s.read_count(), 3);
}

// A cache of 4 sectors under least-recently-accessed eviction: reading
// sectors 10, 20, 30, 40, 10, 50 leaves {30, 40, 10, 50} resident; 20 is
// the evicted one.
#[test]
fn lru_resident_set() {
    let mut s = MemStorage::new(100);
    let mut c = SectorCache::new(SectorIdx::new(99), 4, lru());
    for sec in [10u64, 20, 30, 40, 10, 50] {
        c.get(&mut s, SectorIdx::new(sec)).unwrap();
    }
    assert!(c.get_sector_entry(SectorIdx::new(30)).is_some());
    assert!(c.get_sector_entry(SectorIdx::new(40)).is_some());
    assert!(c.get_sector_entry(SectorIdx::new(10)).is_some());
    assert!(c.get_sector_entry(SectorIdx::new(50)).is_some());
    assert!(c.get_sector_entry(SectorIdx::new(20)).is_none());
}

// A cache of 2 sectors preferring unmodified victims: after writing A and
// reading B, reading C evicts B (clean) and keeps A (dirty).
#[test]
fn unmodified_first_protects_dirty() {
    let mut s = MemStorage::new(100);
    let mut c = SectorCache::new(
        SectorIdx::new(99),
        2,
        EvictionPolicy::UnmodifiedFirst(BasePolicy::LeastRecentlyAccessed),
    );
    let a = SectorIdx::new(10);
    let b = SectorIdx::new(11);
    let cc = SectorIdx::new(12);
    c.write_byte(&mut s, a, 0, 0xAA).unwrap();
    c.get(&mut s, b).unwrap();
    c.get(&mut s, cc).unwrap();
    assert!(c.get_sector_entry(a).is_some());
    assert!(c.get_sector_entry(cc).is_some());
    assert!(c.get_sector_entry(b).is_none());
    // The dirty sector was not lost: its write-back carried the byte.
    c.flush(&mut s).unwrap();
    let mut buf = Vec::new();
    s.read_sector(10, &mut buf).unwrap();
    assert_eq!(buf[0], 0xAA);
}

// A read at the served range's last sector succeeds; one past it reports
// the out-of-range error.
#[test]
fn boundary_sector() {
    let mut s = MemStorage::new(100);
    let mut c = SectorCache::new(SectorIdx::new(99), 2, lru());
    assert!(c.get(&mut s, SectorIdx::new(99)).is_ok());
    assert_eq!(
        c.get(&mut s, SectorIdx::new(100)),
        Err(fat32::fat::FsError::OutOfRange)
    );
}

// A flush after writes to N distinct sectors issues exactly N device
// writes; a second flush with nothing dirty issues none.
#[test]
fn flush_write_counts() {
    let mut s = MemStorage::new(100);
    let mut c = SectorCache::new(SectorIdx::new(99), 8, lru());
    c.write_byte(&mut s, SectorIdx::new(5), 0, 1).unwrap();
    c.write_byte(&mut s, SectorIdx::new(6), 1, 2).unwrap();
    c.write_byte(&mut s, SectorIdx::new(7), 2, 3).unwrap();
    s.reset_counters();
    c.flush(&mut s).unwrap();
    assert_eq!(s.write_count(), 3);
    s.reset_counters();
    c.flush(&mut s).unwrap();
    assert_eq!(s.write_count(), 0);
}

// Writing a sector's byte, flushing, and reading the sector back through
// the cache yields the written value, which now also sits on the device.
#[test]
fn write_flush_read() {
    let mut s = MemStorage::new(64);
    let mut c = SectorCache::new(SectorIdx::new(63), 2, lru());
    c.write_byte(&mut s, SectorIdx::new(9), 100, 0x5C).unwrap();
    c.flush(&mut s).unwrap();
    let back = c.get(&mut s, SectorIdx::new(9)).unwrap();
    assert_eq!(back[100], 0x5C);
    let mut raw = Vec::new();
    s.read_sector(9, &mut raw).unwrap();
    assert_eq!(raw[100], 0x5C);
}

// After a flush, every cached sector's bytes match their on-disk value.
#[test]
fn clean_cache_matches_disk() {
    let mut s = MemStorage::new(64);
    let mut c = SectorCache::new(SectorIdx::new(63), 4, lru());
    c.write_byte(&mut s, SectorIdx::new(1), 0, 0x11).unwrap();
    c.write_byte(&mut s, SectorIdx::new(2), 0, 0x22).unwrap();
    c.flush(&mut s).unwrap();
    for sec in [1u64, 2] {
        let cached = c.get(&mut s, SectorIdx::new(sec)).unwrap();
        let mut raw = Vec::new();
        s.read_sector(sec as usize, &mut raw).unwrap();
        assert_eq!(cached, raw);
    }
}

// Age-based policies pick by insertion order: the oldest-first policy
// evicts the first-inserted sector, the youngest-first policy the
// last-inserted one.
#[test]
fn age_policies() {
    let mut s = MemStorage::new(100);
    let mut c = SectorCache::new(
        SectorIdx::new(99),
        2,
        EvictionPolicy::Base(BasePolicy::Oldest),
    );
    c.get(&mut s, SectorIdx::new(1)).unwrap();
    c.get(&mut s, SectorIdx::new(2)).unwrap();
    c.get(&mut s, SectorIdx::new(3)).unwrap();
    assert!(c.get_sector_entry(SectorIdx::new(1)).is_none());
    assert!(c.get_sector_entry(SectorIdx::new(2)).is_some());

    let mut c2 = SectorCache::new(
        SectorIdx::new(99),
        2,
        EvictionPolicy::Base(BasePolicy::Youngest),
    );
    c2.get(&mut s, SectorIdx::new(1)).unwrap();
    c2.get(&mut s, SectorIdx::new(2)).unwrap();
    c2.get(&mut s, SectorIdx::new(3)).unwrap();
    assert!(c2.get_sector_entry(SectorIdx::new(1)).is_some());
    assert!(c2.get_sector_entry(SectorIdx::new(2)).is_none());
}

// The modified-first composition sacrifices the dirty entry first.
#[test]
fn modified_first_evicts_dirty() {
    let mut s = MemStorage::new(100);
    let mut c = SectorCache::new(
        SectorIdx::new(99),
        2,
        EvictionPolicy::ModifiedFirst(BasePolicy::LeastRecentlyAccessed),
    );
    c.write_byte(&mut s, SectorIdx::new(10), 0, 0xAA).unwrap();
    c.get(&mut s, SectorIdx::new(11)).unwrap();
    c.get(&mut s, SectorIdx::new(12)).unwrap();
    assert!(c.get_sector_entry(SectorIdx::new(10)).is_none());
    assert!(c.get_sector_entry(SectorIdx::new(11)).is_some());
    // The evicted dirty sector reached the device on its way out.
    let mut raw = Vec::new();
    s.read_sector(10, &mut raw).unwrap();
    assert_eq!(raw[0], 0xAA);
}

// Swapping the eviction policy changes the next victim: most-recently-
// accessed eviction throws out the sector that was just touched.
#[test]
fn change_policy() {
    let mut s = MemStorage::new(100);
    let mut c = SectorCache::new(SectorIdx::new(99), 2, lru());
    c.get(&mut s, SectorIdx::new(1)).unwrap();
    c.get(&mut s, SectorIdx::new(2)).unwrap();
    c.change_eviction_policy(EvictionPolicy::Base(BasePolicy::MostRecentlyAccessed));
    c.get(&mut s, SectorIdx::new(3)).unwrap();
    // Sector 2 was the most recently accessed, so it went.
    assert!(c.get_sector_entry(SectorIdx::new(1)).is_some());
    assert!(c.get_sector_entry(SectorIdx::new(2)).is_none());
    assert!(c.get_sector_entry(SectorIdx::new(3)).is_some());
}
