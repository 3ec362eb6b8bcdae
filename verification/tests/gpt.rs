// Tests for the GUID codec and the on-disk structure round trips.

use fat32::fat::boot_sector::BootSector;
use fat32::gpt::Gpt;
use fat32::storage::{MemStorage, Storage};
use fat32::fat::dir::{AttributeSet, DirEntry, FileExt, FileName};
use fat32::fat::types::ClusterIdx;
use fat32::gpt::Guid;

// Test case comes from the mixed-endian GUID encoding that GPT uses on
// disk.
#[test]
fn guid_mixed_to_disk() {
    assert_eq!(
        Guid::from_mixed(0xC12A7328_F81F_11D2_BA4B_00A0C93EC93Bu128.to_le_bytes()).to_bytes(),
        [0x28, 0x73, 0x2a, 0xc1, 0x1f, 0xf8, 0xd2, 0x11, 0xba, 0x4b, 0x00, 0xa0, 0xc9, 0x3e, 0xc9,
            0x3b],
    )
}

#[test]
fn roundtrip() {
    let a = 0xC12A7328_F81F_11D2_BA4B_00A0C93EC93Bu128;
    let g = Guid::from_mixed_u128(a);
    assert_eq!(g, Guid::from_bytes(g.to_bytes()));
}

#[test]
fn boot_sector_roundtrip() {
    let bs = BootSector::new(2048, 31_449_087);
    let mut sector = vec![0u8; 512];
    bs.write(&mut sector);
    let back = BootSector::read(&sector);
    assert_eq!(bs, back);
    assert_eq!(back.bpb.bytes_per_logical_sector, 512);
    assert_eq!(back.bpb.root_dir_cluster_num, 2);
}

#[test]
fn dir_entry_roundtrip() {
    let mut e = DirEntry::new_file(
        FileName::new("foo"),
        FileExt::new("txt"),
        ClusterIdx::new(5),
    );
    e.file_size = 1234;
    e.creation_date = 0xABCD;
    let mut arr = [0u8; 32];
    e.into_arr(&mut arr);
    let back = DirEntry::from_arr(arr);
    assert_eq!(e, back);
}

#[test]
fn dir_entry_from_slice_length() {
    let short = [0u8; 16];
    assert!(DirEntry::from_slice(&short).is_err());
    let exact = [0u8; 32];
    assert!(DirEntry::from_slice(&exact).is_ok());
}

// Reading the partition table off a device: the header in LBA 1 points
// at the entries, and entry 0 carries the partition's type and bounds.
#[test]
fn read_gpt_and_partition() {
    let mut s = MemStorage::new(4096);
    // The header sector: signature, entry array at LBA 2, 128-byte
    // entries.
    let mut header = vec![0u8; 512];
    header[0..8].copy_from_slice(b"EFI PART");
    header[72..80].copy_from_slice(&2u64.to_le_bytes());
    header[80..84].copy_from_slice(&1u32.to_le_bytes());
    header[84..88].copy_from_slice(&128u32.to_le_bytes());
    s.write_sector(1, &header).unwrap();
    // Entry 0: a Microsoft Basic Data partition from sector 64 to 4095.
    let mut entries = vec![0u8; 512];
    let type_guid = fat32::gpt::Guid::microsoft_basic_data().to_bytes();
    entries[0..16].copy_from_slice(&type_guid);
    entries[32..40].copy_from_slice(&64u64.to_le_bytes());
    entries[40..48].copy_from_slice(&4095u64.to_le_bytes());
    s.write_sector(2, &entries).unwrap();

    let gpt = Gpt::read_gpt(&mut s).unwrap();
    assert_eq!(gpt.partition_entries_starting_lba, 2);
    assert_eq!(gpt.num_partition_entries, 1);
    assert_eq!(gpt.partition_entry_size, 128);
    let p = gpt.get_partition_entry(&mut s, 0).unwrap();
    assert_eq!(p.partition_type, fat32::gpt::Guid::microsoft_basic_data());
    assert_eq!(p.first_lba, 64);
    assert_eq!(p.last_lba, 4095);
    // Only entry 0 is supported.
    assert!(gpt.get_partition_entry(&mut s, 1).is_err());
}

// A sector without the signature is not a GPT header.
#[test]
fn read_gpt_bad_signature() {
    let mut s = MemStorage::new(16);
    assert!(Gpt::read_gpt(&mut s).is_err());
}

#[test]
fn lfn_attribute_mask() {
    assert_eq!(AttributeSet::lfn().inner, 0x0F);
    let built = AttributeSet::new()
        .apply(fat32::fat::dir::Attribute::ReadOnly)
        .apply(fat32::fat::dir::Attribute::Hidden)
        .apply(fat32::fat::dir::Attribute::System)
        .apply(fat32::fat::dir::Attribute::VolumeId);
    assert_eq!(built.inner, 0x0F);
}
