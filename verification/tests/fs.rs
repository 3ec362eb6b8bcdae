// End-to-end tests for the mounted volume: boot-sector decoding, the
// directory machinery, path resolution and file reads.

use fat32::fat::boot_sector::BootSector;
use fat32::fat::cache::{BasePolicy, EvictionPolicy};
use fat32::fat::dir::{DirEntry, DirIter, FileExt, FileName, State};
use fat32::fat::table::FatEntryTracer;
use fat32::fat::types::ClusterIdx;
use fat32::fat::{FatFs, FsError};
use fat32::gpt::PartitionEntry;
use fat32::storage::{MemStorage, Storage};

const FIRST_LBA: u64 = 2048;
const LAST_LBA: u64 = 31_449_087;

fn mounted() -> (MemStorage, FatFs) {
    let mut s = MemStorage::new(31_449_088);
    let bs = BootSector::new(FIRST_LBA as u32, LAST_LBA as u32);
    let mut v = vec![0u8; 512];
    bs.write(&mut v);
    s.write_sector(FIRST_LBA as usize, &v).unwrap();
    let p = PartitionEntry::fat(FIRST_LBA, LAST_LBA);
    let fs = FatFs::mount(
        &mut s,
        &p,
        EvictionPolicy::UnmodifiedFirst(BasePolicy::LeastRecentlyAccessed),
        8,
    )
    .unwrap();
    (s, fs)
}

fn put_entry(fs: &mut FatFs, s: &mut MemStorage, cluster: u32, off: u32, e: &DirEntry) {
    let (sec, io) = fs.cluster_to_sector(ClusterIdx::new(cluster), off);
    let mut arr = [0u8; 32];
    e.into_arr(&mut arr);
    fs.write(s, sec, io, &arr).unwrap();
}

fn set_fat(fs: &mut FatFs, s: &mut MemStorage, c: u32, v: u32) {
    let (sec, off) = fs.cluster_to_table_pos(ClusterIdx::new(c));
    fs.write(s, sec, off, &v.to_le_bytes()).unwrap();
}

fn file_entry(name: &str, ext: &str, cluster: u32, size: u32) -> DirEntry {
    let mut e = DirEntry::new_file(FileName::new(name), FileExt::new(ext), ClusterIdx::new(cluster));
    e.file_size = size;
    e
}

// Mounting a 31,449,088-sector image decodes the BIOS Parameter Block:
// 512-byte sectors and the root directory at cluster 2.
#[test]
fn mount_large_image() {
    let (_s, fs) = mounted();
    assert_eq!(fs.sector_size_in_bytes, 512);
    assert_eq!(fs.root_dir_cluster_num.inner(), 2);
    assert_eq!(fs.starting_lba.inner(), FIRST_LBA);
    assert_eq!(fs.ending_lba.inner(), LAST_LBA);
}

// A partition of the wrong type does not mount.
#[test]
fn mount_wrong_partition_type() {
    let mut s = MemStorage::new(4096);
    let mut p = PartitionEntry::fat(64, 4095);
    p.partition_type.first = 0;
    assert!(FatFs::mount(
        &mut s,
        &p,
        EvictionPolicy::Base(BasePolicy::LeastRecentlyAccessed),
        4
    )
    .is_err());
}

// Deleting a file leaves the other entries listed and stamps the deleted
// entry's first on-disk byte with 0xE5.
#[test]
fn delete_file_and_list() {
    let (mut s, mut fs) = mounted();
    set_fat(&mut fs, &mut s, 2, 0x0FFF_FFF8);
    let foo = file_entry("foo", "txt", 5, 3);
    let bar = file_entry("bar", "bin", 6, 3);
    put_entry(&mut fs, &mut s, 2, 0, &foo);
    put_entry(&mut fs, &mut s, 2, 32, &bar);

    fs.delete_path(&mut s, b"/foo.txt").unwrap();

    let listed = fs.dir_list(&mut s, b"/").unwrap();
    assert_eq!(listed.len(), 1);
    assert_eq!(listed[0].file_name, FileName::new("bar"));

    // The deletion marker reached the on-disk bytes once flushed.
    fs.flush(&mut s).unwrap();
    let (sec, io) = fs.cluster_to_sector(ClusterIdx::new(2), 0);
    let mut raw = Vec::new();
    s.read_sector(sec.inner() as usize, &mut raw).unwrap();
    assert_eq!(raw[io as usize], 0xE5);

    assert_eq!(fs.lookup_path(&mut s, b"/foo.txt"), Err(FsError::NotFound));
}

// A path whose middle component is a plain file fails NotADirectory.
#[test]
fn file_as_directory_fails() {
    let (mut s, mut fs) = mounted();
    set_fat(&mut fs, &mut s, 2, 0x0FFF_FFF8);
    let a = file_entry("a", "", 5, 0);
    put_entry(&mut fs, &mut s, 2, 0, &a);
    assert_eq!(
        fs.lookup_path(&mut s, b"/a/b"),
        Err(FsError::NotADirectory)
    );
}

// A missing component fails NotFound.
#[test]
fn missing_path() {
    let (mut s, mut fs) = mounted();
    set_fat(&mut fs, &mut s, 2, 0x0FFF_FFF8);
    assert_eq!(fs.lookup_path(&mut s, b"/nope"), Err(FsError::NotFound));
}

// An empty path component (a doubled slash) resolves nothing, even when
// its left neighbour names a plain file.
#[test]
fn empty_component_not_found() {
    let (mut s, mut fs) = mounted();
    set_fat(&mut fs, &mut s, 2, 0x0FFF_FFF8);
    let a = file_entry("a", "", 5, 0);
    put_entry(&mut fs, &mut s, 2, 0, &a);
    assert_eq!(fs.lookup_path(&mut s, b"//a"), Err(FsError::NotFound));
    assert_eq!(fs.lookup_path(&mut s, b"/a//b"), Err(FsError::NotFound));
}

// An entry at the last slot of a cluster makes the iterator step into the
// directory's next cluster.
#[test]
fn iterator_crosses_cluster_boundary() {
    let (mut s, mut fs) = mounted();
    let bpc = fs.bytes_in_a_cluster();
    set_fat(&mut fs, &mut s, 2, 3);
    set_fat(&mut fs, &mut s, 3, 0x0FFF_FFF8);
    // Every slot of cluster 2 up to the last holds a deleted entry, so
    // the walk reaches the boundary slot.
    let mut off = 0;
    while off < bpc - 32 {
        let (sec, io) = fs.cluster_to_sector(ClusterIdx::new(2), off);
        fs.write(&mut s, sec, io, &[0xE5u8]).unwrap();
        off += 32;
    }
    let edge = file_entry("edge", "", 7, 0);
    put_entry(&mut fs, &mut s, 2, bpc - 32, &edge);

    let mut it = DirIter::from_cluster(ClusterIdx::new(2));
    loop {
        let e = it.next(&mut fs, &mut s).unwrap().unwrap();
        if e.state() == State::Exists {
            assert_eq!(e.file_name, FileName::new("edge"));
            break;
        }
    }
    // The boundary entry pushed the iterator into cluster 3.
    assert_eq!(it.current_cluster.inner(), 3);
    assert_eq!(it.current_offset, Some(0));
    // Cluster 3 is empty, so the walk ends there.
    let e = it.next(&mut fs, &mut s).unwrap().unwrap();
    assert_eq!(e.state(), State::End);
    assert_eq!(it.next(&mut fs, &mut s).unwrap(), None);
}

// An added entry is re-yielded by the iterator before the new End entry.
#[test]
fn add_entry_reyields() {
    let (mut s, mut fs) = mounted();
    set_fat(&mut fs, &mut s, 2, 0x0FFF_FFF8);
    let foo = file_entry("foo", "txt", 5, 3);
    put_entry(&mut fs, &mut s, 2, 0, &foo);

    let mut it = DirIter::from_cluster(ClusterIdx::new(2));
    let first = it.next(&mut fs, &mut s).unwrap().unwrap();
    assert_eq!(first.state(), State::Exists);
    let end = it.next(&mut fs, &mut s).unwrap().unwrap();
    assert_eq!(end.state(), State::End);

    // Adding before the walk ended is refused.
    let mut fresh = DirIter::from_cluster(ClusterIdx::new(2));
    let baz = file_entry("baz", "bin", 9, 0);
    assert_eq!(
        fresh.add_entry(&mut fs, &mut s, baz.clone()),
        Err(FsError::AddWithoutEnd)
    );

    it.add_entry(&mut fs, &mut s, baz.clone()).unwrap();
    let re = it.next(&mut fs, &mut s).unwrap().unwrap();
    assert_eq!(re, baz);
    let end2 = it.next(&mut fs, &mut s).unwrap().unwrap();
    assert_eq!(end2.state(), State::End);
}

// Adding at a full cluster grows the directory's chain by one cluster:
// the entry lands in the old cluster's last slot and the fresh End
// terminator opens the new cluster.
#[test]
fn add_entry_grows_chain() {
    let (mut s, mut fs) = mounted();
    let bpc = fs.bytes_in_a_cluster();
    set_fat(&mut fs, &mut s, 2, 0x0FFF_FFF8);
    // Fill every slot of the root cluster but the last with deleted
    // entries; the last slot holds the End entry.
    let mut off = 0;
    while off < bpc - 32 {
        let (sec, io) = fs.cluster_to_sector(ClusterIdx::new(2), off);
        fs.write(&mut s, sec, io, &[0xE5u8]).unwrap();
        off += 32;
    }
    let mut it = DirIter::from_cluster(ClusterIdx::new(2));
    loop {
        let e = it.next(&mut fs, &mut s).unwrap().unwrap();
        if e.state() == State::End {
            break;
        }
    }
    let fresh = file_entry("tail", "bin", 9, 0);
    it.add_entry(&mut fs, &mut s, fresh.clone()).unwrap();
    // The chain grew: the root cluster now links on, and the new cluster
    // starts with an End entry.
    let mut tracer = FatEntryTracer::starting_at(ClusterIdx::new(2));
    let mut clusters = Vec::new();
    while let Some(e) = tracer.next(&mut fs, &mut s).unwrap() {
        clusters.push(e.next);
    }
    assert_eq!(clusters.len(), 2);
    // The iterator resumes at the added entry, then walks into the new
    // cluster and finds its End.
    let re = it.next(&mut fs, &mut s).unwrap().unwrap();
    assert_eq!(re, fresh);
    let end = it.next(&mut fs, &mut s).unwrap().unwrap();
    assert_eq!(end.state(), State::End);
}

// The chain tracer yields every cluster of a chain and remembers the
// last; the chain is long enough to hold the file behind it.
#[test]
fn trace_covers_file() {
    let (mut s, mut fs) = mounted();
    set_fat(&mut fs, &mut s, 5, 6);
    set_fat(&mut fs, &mut s, 6, 0x0FFF_FFF8);
    let file_size: u32 = 9000;

    let mut tracer = FatEntryTracer::starting_at(ClusterIdx::new(5));
    let mut clusters = Vec::new();
    while let Some(e) = tracer.next(&mut fs, &mut s).unwrap() {
        clusters.push(e.next.inner());
    }
    assert_eq!(clusters, vec![5, 6]);
    assert_eq!(tracer.hit_end, Some(ClusterIdx::new(6)));
    assert!(clusters.len() as u32 * fs.bytes_in_a_cluster() >= file_size);
}

// Growing a chain allocates a free cluster, links it in and resumes the
// walk there; growing before the walk ended is refused.
#[test]
fn grow_chain() {
    let (mut s, mut fs) = mounted();
    set_fat(&mut fs, &mut s, 5, 0x0FFF_FFF8);

    let mut tracer = FatEntryTracer::starting_at(ClusterIdx::new(5));
    assert_eq!(tracer.grow_file(&mut fs, &mut s), Err(FsError::GrowWithoutEnd));
    while tracer.next(&mut fs, &mut s).unwrap().is_some() {}
    tracer.grow_file(&mut fs, &mut s).unwrap();
    let fresh = tracer.current_cluster_idx.unwrap();

    // The walk now continues over both clusters and ends on the new one.
    let mut again = FatEntryTracer::starting_at(ClusterIdx::new(5));
    let mut clusters = Vec::new();
    while let Some(e) = again.next(&mut fs, &mut s).unwrap() {
        clusters.push(e.next);
    }
    assert_eq!(clusters, vec![ClusterIdx::new(5), fresh]);
    assert_eq!(again.hit_end, Some(fresh));
}

// Reading a file follows its cluster chain, including across a cluster
// boundary.
#[test]
fn read_file_across_clusters() {
    let (mut s, mut fs) = mounted();
    let bpc = fs.bytes_in_a_cluster();
    set_fat(&mut fs, &mut s, 2, 0x0FFF_FFF8);
    set_fat(&mut fs, &mut s, 5, 6);
    set_fat(&mut fs, &mut s, 6, 0x0FFF_FFF8);
    let data = file_entry("data", "bin", 5, bpc + 8);
    put_entry(&mut fs, &mut s, 2, 0, &data);

    // Last four bytes of cluster 5, first four of cluster 6.
    let (sec_a, io_a) = fs.cluster_to_sector(ClusterIdx::new(5), bpc - 4);
    fs.write(&mut s, sec_a, io_a, &[1, 2, 3, 4]).unwrap();
    let (sec_b, io_b) = fs.cluster_to_sector(ClusterIdx::new(6), 0);
    fs.write(&mut s, sec_b, io_b, &[5, 6, 7, 8]).unwrap();

    let mut buf = vec![0u8; 8];
    fs.read_file(&mut s, b"/data.bin", bpc - 4, &mut buf).unwrap();
    assert_eq!(buf, vec![1, 2, 3, 4, 5, 6, 7, 8]);

    // A read past the file's size is refused.
    let mut big = vec![0u8; 16];
    assert_eq!(
        fs.read_file(&mut s, b"/data.bin", bpc + 1, &mut big),
        Err(FsError::OutOfRange)
    );

    // A directory is not a file.
    assert_eq!(
        fs.read_file(&mut s, b"/", 0, &mut buf),
        Err(FsError::NotFound)
    );
}

// The free-cluster scan claims a free cluster, marks it end-of-chain and
// advances the hint.
#[test]
fn free_cluster_scan() {
    let (mut s, mut fs) = mounted();
    // The hint starts at the root cluster; mark it used so the scan moves
    // on.
    set_fat(&mut fs, &mut s, 2, 0x0FFF_FFF8);
    let c = fs.next_free_cluster(&mut s).unwrap();
    assert_eq!(c.inner(), 3);
    // The claimed cluster now reads as end-of-chain, so claiming again
    // yields the next one.
    let c2 = fs.next_free_cluster(&mut s).unwrap();
    assert_eq!(c2.inner(), 4);
}

// An existing entry that is not a plain file cannot be read as one.
#[test]
fn directory_is_not_a_file() {
    let (mut s, mut fs) = mounted();
    set_fat(&mut fs, &mut s, 2, 0x0FFF_FFF8);
    let mut d = DirEntry::new_dir(FileName::new("d"), ClusterIdx::new(5));
    d.file_ext = FileExt::new("");
    put_entry(&mut fs, &mut s, 2, 0, &d);
    let mut buf = vec![0u8; 1];
    assert_eq!(
        fs.read_file(&mut s, b"/d", 0, &mut buf),
        Err(FsError::NotAFile)
    );
}

// A full FAT makes the free-cluster scan report DiskFull after one whole
// sweep.
#[test]
fn disk_full() {
    let mut s = MemStorage::new(31_449_088);
    let mut bs = BootSector::new(FIRST_LBA as u32, LAST_LBA as u32);
    // A one-sector FAT: 128 clusters in all.
    bs.bpb.logical_sectors_per_fat_extended = 1;
    let mut v = vec![0u8; 512];
    bs.write(&mut v);
    s.write_sector(FIRST_LBA as usize, &v).unwrap();
    let p = PartitionEntry::fat(FIRST_LBA, LAST_LBA);
    let mut fs = FatFs::mount(
        &mut s,
        &p,
        EvictionPolicy::Base(BasePolicy::LeastRecentlyAccessed),
        4,
    )
    .unwrap();
    // Mark every cluster used.
    let used = [1u8; 512];
    let (sec, _) = fs.cluster_to_table_pos(ClusterIdx::new(0));
    fs.write(&mut s, sec, 0, &used).unwrap();
    assert_eq!(fs.next_free_cluster(&mut s), Err(FsError::DiskFull));
}

// A cluster number beyond the FAT's own range is a corrupt chain.
#[test]
fn corrupt_chain() {
    let (mut s, mut fs) = mounted();
    let mut tracer = FatEntryTracer::starting_at(ClusterIdx::new(0xFFFF_0000));
    assert_eq!(tracer.next(&mut fs, &mut s), Err(FsError::CorruptChain));
}

// Intra-cluster reads and writes go through the cluster wrapper, which
// bounds-checks against the cluster's size.
#[test]
fn cluster_wrapper_read_write() {
    let (mut s, mut fs) = mounted();
    let bpc = fs.bytes_in_a_cluster();
    let w = fat32::fat::table::FatEntry::from(ClusterIdx::new(5)).upgrade();
    w.write(&mut fs, &mut s, 100, &[9, 8, 7]).unwrap();
    let mut buf = vec![0u8; 3];
    w.read(&mut fs, &mut s, 100, &mut buf).unwrap();
    assert_eq!(buf, vec![9, 8, 7]);
    // The cluster's final bytes are reachable; one byte past them is not.
    w.read(&mut fs, &mut s, bpc - 3, &mut buf).unwrap();
    assert_eq!(
        w.read(&mut fs, &mut s, bpc - 2, &mut buf),
        Err(FsError::OutOfRange)
    );
    let (lo, hi) = w.range(&fs);
    assert_eq!(hi.inner() - lo.inner(), fs.cluster_size_in_sectors as u64);
}

// A chain's capacity is its cluster count times the cluster size.
#[test]
fn tracer_capacity() {
    let (mut s, mut fs) = mounted();
    set_fat(&mut fs, &mut s, 5, 6);
    set_fat(&mut fs, &mut s, 6, 0x0FFF_FFF8);
    let mut tracer = FatEntryTracer::starting_at(ClusterIdx::new(5));
    let cap = tracer.capacity(&mut fs, &mut s).unwrap();
    assert_eq!(cap, 2 * fs.bytes_in_a_cluster() as u64);
}

// The whole file comes back through read_file_all.
#[test]
fn read_whole_file() {
    let (mut s, mut fs) = mounted();
    set_fat(&mut fs, &mut s, 2, 0x0FFF_FFF8);
    set_fat(&mut fs, &mut s, 5, 0x0FFF_FFF8);
    let hello = file_entry("hello", "txt", 5, 5);
    put_entry(&mut fs, &mut s, 2, 0, &hello);
    let (sec, io) = fs.cluster_to_sector(ClusterIdx::new(5), 0);
    fs.write(&mut s, sec, io, b"hello").unwrap();
    assert_eq!(fs.read_file_all(&mut s, b"/hello.txt").unwrap(), b"hello");
}
