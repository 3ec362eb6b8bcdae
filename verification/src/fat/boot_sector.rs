//! The FAT boot sector and its BIOS Parameter Block.
//!
//! Only the FAT32 variant is supported: a DOS 3.31 BIOS Parameter Block
//! with the FAT32 extensions, decoded from the first sector of the
//! partition.

use vstd::prelude::*;

use crate::codec::{read_u16_le, read_u32_le, u16_byte, u16_le_at_spec, u32_byte, u32_le_at_spec,
    write_u16_le, write_u32_le};
use crate::SECTOR_BYTES;

verus! {

/// The FAT boot sector: the OEM name and the BIOS Parameter Block. The
/// remaining fields are ignored.
#[derive(Clone, PartialEq, Eq, Debug)]
#[verifier::ext_equal]
pub struct BootSector {
    // Offset: 0x003
    pub oem_name: [u8; 8],
    pub bpb: BiosParameterBlock,
}

/// A FAT32 Extended BIOS Parameter Block (which includes the DOS 3.31 BPB,
/// which includes the DOS 2.0 BPB).
#[derive(Clone, PartialEq, Eq, Debug)]
#[verifier::ext_equal]
pub struct BiosParameterBlock {
    /// Bytes per logical sector; this driver requires 512.
    // Offset: 0x00B
    pub bytes_per_logical_sector: u16,
    /// Logical sectors per cluster: 1, 2, 4, 8, 16, 32, 64, or 128.
    // Offset: 0x00D
    pub logical_sectors_per_cluster: u8,
    // Offset: 0x00E
    pub num_reserved_logical_sectors: u16,
    // Offset: 0x010
    pub num_file_alloc_tables: u8,
    /// Zero for FAT32.
    // Offset: 0x011
    pub max_root_dir_entries: u16,
    /// Zero for FAT32.
    // Offset: 0x013
    pub total_logical_sectors: u16,
    // Offset: 0x015
    pub media_descriptor: u8,
    /// Zero for FAT32 (offset 0x024 is used instead).
    // Offset: 0x016
    pub logical_sectors_per_fat: u16,
    /// Physical sectors per track for disks with CHS geometry; unused here.
    // Offset: 0x018
    pub phys_sectors_per_track: u16,
    /// Number of heads for disks with CHS geometry; unused here.
    // Offset: 0x01A
    pub num_heads: u16,
    /// Count of hidden sectors preceding the partition holding this volume.
    // Offset: 0x01C
    pub hidden_preceeding_sectors: u32,
    /// Total logical sectors when greater than 65535 (otherwise offset
    /// 0x013 holds the count).
    // Offset: 0x020
    pub total_logical_sectors_extended: u32,
    /// Logical sectors per file allocation table.
    // Offset: 0x024
    pub logical_sectors_per_fat_extended: u32,
    /// Drive description / mirroring flags.
    // Offset: 0x028
    pub drive_desc_mirroring_flags: u16,
    /// Version, defined as 0.0.
    // Offset: 0x02A
    pub version: u16,
    /// Cluster number of the root directory's start, typically 2.
    // Offset: 0x02C
    pub root_dir_cluster_num: u32,
    /// Logical sector number of the FS Information Sector, typically 1.
    // Offset: 0x030
    pub fs_info_logical_sector_num: u16,
    /// First logical sector of the copy of the three FAT32 boot sectors;
    /// zero when no backup is kept.
    // Offset: 0x032
    pub boot_sector_backup_logical_sector_start_num: u16,
    // Offset: 0x040
    pub phys_drive_number: u8,
    // Offset: 0x043
    pub volume_id: u32,
    // Offset: 0x047
    pub volume_label: [u8; 11],
    // Offset: 0x052
    pub file_system_type: [u8; 8],
}

/// Whether `b` holds exactly the fields stored in the sector contents `s`.
pub open spec fn bpb_parse_ok(s: Seq<u8>, b: BiosParameterBlock) -> bool {
    &&& b.bytes_per_logical_sector == u16_le_at_spec(s, 0x0B)
    &&& b.logical_sectors_per_cluster == s[0x0D]
    &&& b.num_reserved_logical_sectors == u16_le_at_spec(s, 0x0E)
    &&& b.num_file_alloc_tables == s[0x10]
    &&& b.max_root_dir_entries == u16_le_at_spec(s, 0x11)
    &&& b.total_logical_sectors == u16_le_at_spec(s, 0x13)
    &&& b.media_descriptor == s[0x15]
    &&& b.logical_sectors_per_fat == u16_le_at_spec(s, 0x16)
    &&& b.phys_sectors_per_track == u16_le_at_spec(s, 0x18)
    &&& b.num_heads == u16_le_at_spec(s, 0x1A)
    &&& b.hidden_preceeding_sectors == u32_le_at_spec(s, 0x1C)
    &&& b.total_logical_sectors_extended == u32_le_at_spec(s, 0x20)
    &&& b.logical_sectors_per_fat_extended == u32_le_at_spec(s, 0x24)
    &&& b.drive_desc_mirroring_flags == u16_le_at_spec(s, 0x28)
    &&& b.version == u16_le_at_spec(s, 0x2A)
    &&& b.root_dir_cluster_num == u32_le_at_spec(s, 0x2C)
    &&& b.fs_info_logical_sector_num == u16_le_at_spec(s, 0x30)
    &&& b.boot_sector_backup_logical_sector_start_num == u16_le_at_spec(s, 0x32)
    &&& b.phys_drive_number == s[0x40]
    &&& b.volume_id == u32_le_at_spec(s, 0x43)
    &&& b.volume_label@ == s.subrange(0x47, 0x52)
    &&& b.file_system_type@ == s.subrange(0x52, 0x5A)
}

/// Whether `b` holds exactly the boot-sector fields stored in `s`.
pub open spec fn boot_sector_parse_ok(s: Seq<u8>, b: BootSector) -> bool {
    &&& b.oem_name@ == s.subrange(3, 11)
    &&& bpb_parse_ok(s, b.bpb)
}

/// Whether byte `i` of a sector belongs to one of the fields the BIOS
/// Parameter Block stores.
pub open spec fn bpb_field_byte(i: int) -> bool {
    (0x0B <= i < 0x34) || i == 0x40 || (0x43 <= i < 0x5A)
}

/// The sector's contents decode to exactly one value: decoding the bytes
/// an encode produced gives back what was encoded.
pub proof fn lemma_boot_sector_roundtrip(s: Seq<u8>, a: BootSector, b: BootSector)
    requires
        boot_sector_parse_ok(s, a),
        boot_sector_parse_ok(s, b),
    ensures
        a == b,
{
    assert(a.oem_name =~= b.oem_name);
    assert(a.bpb.volume_label =~= b.bpb.volume_label);
    assert(a.bpb.file_system_type =~= b.bpb.file_system_type);
    assert(a.bpb =~= b.bpb);
    assert(a =~= b);
}

impl BootSector {
    /// A fresh FAT32 boot sector for a partition spanning the given LBAs.
    pub fn new(starting_lba: u32, ending_lba: u32) -> (r: BootSector)
        requires
            starting_lba <= ending_lba,
        ensures
            r.oem_name@ == seq![0x72u8, 0x33u8, 0x2Du8, 0x66u8, 0x61u8, 0x74u8, 0x66u8, 0x73u8],
            r.bpb.bytes_per_logical_sector == 512,
            r.bpb.logical_sectors_per_cluster == 16,
            r.bpb.num_reserved_logical_sectors == 0x20,
            r.bpb.num_file_alloc_tables == 1,
            r.bpb.hidden_preceeding_sectors == starting_lba,
            r.bpb.total_logical_sectors_extended == ending_lba - starting_lba,
            r.bpb.logical_sectors_per_fat_extended == ((ending_lba - starting_lba) as u32 / 16)
                / 128,
            r.bpb.root_dir_cluster_num == 2,
    {
        let oem_name: [u8; 8] = [0x72, 0x33, 0x2D, 0x66, 0x61, 0x74, 0x66, 0x73];
        let r = BootSector { oem_name, bpb: BiosParameterBlock::new(starting_lba, ending_lba) };
        proof {
            assert(r.oem_name@ =~= seq![
                0x72u8, 0x33u8, 0x2Du8, 0x66u8, 0x61u8, 0x74u8, 0x66u8, 0x73u8,
            ]);
        }
        r
    }

    /// Decodes the boot sector from the first sector of the partition.
    pub fn read(sector: &Vec<u8>) -> (r: BootSector)
        requires
            sector@.len() == SECTOR_BYTES,
        ensures
            boot_sector_parse_ok(sector@, r),
    {
        let mut oem_name: [u8; 8] = [0u8; 8];
        let mut k: usize = 0;
        while k < 8
            invariant
                k <= 8,
                sector@.len() == SECTOR_BYTES,
                forall|i: int| 0 <= i < k ==> oem_name@[i] == sector@[3 + i],
            decreases 8 - k,
        {
            oem_name[k] = sector[3 + k];
            k = k + 1;
        }
        proof {
            assert(oem_name@ =~= sector@.subrange(3, 11));
        }
        BootSector { oem_name, bpb: BiosParameterBlock::read(sector) }
    }

    /// Encodes the boot sector's fields into `sector`, leaving every byte
    /// outside those fields unchanged.
    pub fn write(&self, sector: &mut Vec<u8>)
        requires
            old(sector)@.len() == SECTOR_BYTES,
        ensures
            final(sector)@.len() == SECTOR_BYTES,
            boot_sector_parse_ok(final(sector)@, *self),
            forall|i: int| 0 <= i < SECTOR_BYTES && !bpb_field_byte(i) && !(3 <= i < 11) ==>
                final(sector)@[i] == old(sector)@[i],
    {
        let mut k: usize = 0;
        while k < 8
            invariant
                k <= 8,
                sector@.len() == SECTOR_BYTES,
                forall|i: int| 0 <= i < k ==> sector@[3 + i] == self.oem_name@[i],
                forall|i: int| 0 <= i < SECTOR_BYTES && !(3 <= i < 3 + k) ==> sector@[i] == old(
                    sector,
                )@[i],
            decreases 8 - k,
        {
            sector[3 + k] = self.oem_name[k];
            k = k + 1;
        }
        let ghost mid = sector@;
        self.bpb.write(sector);
        proof {
            assert forall|i: int| 0 <= i < 8 implies sector@[3 + i] == self.oem_name@[i] by {
                assert(!bpb_field_byte(3 + i));
                assert(mid[3 + i] == self.oem_name@[i]);
            }
            assert(sector@.subrange(3, 11) =~= self.oem_name@);
        }
    }

    /// The first sector of the FAT table, counted from the start of the
    /// device: the hidden sectors preceding the partition plus the
    /// partition's reserved sectors.
    pub fn starting_fat_sector(&self) -> (r: u32)
        requires
            self.bpb.num_reserved_logical_sectors + self.bpb.hidden_preceeding_sectors
                <= u32::MAX,
        ensures
            r == self.bpb.num_reserved_logical_sectors + self.bpb.hidden_preceeding_sectors,
    {
        (self.bpb.num_reserved_logical_sectors as u32) + self.bpb.hidden_preceeding_sectors
    }
}

impl BiosParameterBlock {
    /// A fresh FAT32 parameter block for a partition spanning the given
    /// LBAs, assuming 512-byte sectors and 16 sectors per cluster.
    pub fn new(starting_lba: u32, ending_lba: u32) -> (r: Self)
        requires
            starting_lba <= ending_lba,
        ensures
            r.bytes_per_logical_sector == 512,
            r.logical_sectors_per_cluster == 16,
            r.num_reserved_logical_sectors == 0x20,
            r.num_file_alloc_tables == 1,
            r.hidden_preceeding_sectors == starting_lba,
            r.total_logical_sectors_extended == ending_lba - starting_lba,
            r.logical_sectors_per_fat_extended == ((ending_lba - starting_lba) as u32 / 16) / 128,
            r.root_dir_cluster_num == 2,
    {
        let sectors_per_cluster: u8 = 16;
        let sector_size: u16 = 512;
        let sectors = ending_lba - starting_lba;
        let clusters = sectors / (sectors_per_cluster as u32);
        let fat_entries_per_sector = (sector_size as u32) / 4;
        let num_sectors_for_fat = clusters / fat_entries_per_sector;
        BiosParameterBlock {
            bytes_per_logical_sector: sector_size,
            logical_sectors_per_cluster: sectors_per_cluster,
            num_reserved_logical_sectors: 0x0020,
            num_file_alloc_tables: 1,
            max_root_dir_entries: 0,
            total_logical_sectors: 0,
            media_descriptor: 0xF8,
            logical_sectors_per_fat: 0,
            phys_sectors_per_track: 0x0010,
            num_heads: 0x0004,
            hidden_preceeding_sectors: starting_lba,
            total_logical_sectors_extended: sectors,
            logical_sectors_per_fat_extended: num_sectors_for_fat,
            drive_desc_mirroring_flags: 0,
            version: 0x0000,
            root_dir_cluster_num: 2,
            fs_info_logical_sector_num: 1,
            boot_sector_backup_logical_sector_start_num: 0,
            phys_drive_number: 0x80,
            volume_id: 0x00,
            // "RTOS_FSYS  "
            volume_label: [0x52, 0x54, 0x4F, 0x53, 0x5F, 0x46, 0x53, 0x59, 0x53, 0x20, 0x20],
            // "FAT32   "
            file_system_type: [0x46, 0x41, 0x54, 0x33, 0x32, 0x20, 0x20, 0x20],
        }
    }

    /// Decodes the parameter block from the first sector of the partition.
    pub fn read(sector: &Vec<u8>) -> (r: Self)
        requires
            sector@.len() == SECTOR_BYTES,
        ensures
            bpb_parse_ok(sector@, r),
    {
        let mut volume_label: [u8; 11] = [0u8; 11];
        let mut k: usize = 0;
        while k < 11
            invariant
                k <= 11,
                sector@.len() == SECTOR_BYTES,
                forall|i: int| 0 <= i < k ==> volume_label@[i] == sector@[0x47 + i],
            decreases 11 - k,
        {
            volume_label[k] = sector[0x47 + k];
            k = k + 1;
        }
        let mut file_system_type: [u8; 8] = [0u8; 8];
        let mut j: usize = 0;
        while j < 8
            invariant
                j <= 8,
                sector@.len() == SECTOR_BYTES,
                forall|i: int| 0 <= i < j ==> file_system_type@[i] == sector@[0x52 + i],
            decreases 8 - j,
        {
            file_system_type[j] = sector[0x52 + j];
            j = j + 1;
        }
        proof {
            assert(volume_label@ =~= sector@.subrange(0x47, 0x52));
            assert(file_system_type@ =~= sector@.subrange(0x52, 0x5A));
        }
        BiosParameterBlock {
            bytes_per_logical_sector: read_u16_le(sector.as_slice(), 0x0B),
            logical_sectors_per_cluster: sector[0x0D],
            num_reserved_logical_sectors: read_u16_le(sector.as_slice(), 0x0E),
            num_file_alloc_tables: sector[0x10],
            max_root_dir_entries: read_u16_le(sector.as_slice(), 0x11),
            total_logical_sectors: read_u16_le(sector.as_slice(), 0x13),
            media_descriptor: sector[0x15],
            logical_sectors_per_fat: read_u16_le(sector.as_slice(), 0x16),
            phys_sectors_per_track: read_u16_le(sector.as_slice(), 0x18),
            num_heads: read_u16_le(sector.as_slice(), 0x1A),
            hidden_preceeding_sectors: read_u32_le(sector.as_slice(), 0x1C),
            total_logical_sectors_extended: read_u32_le(sector.as_slice(), 0x20),
            logical_sectors_per_fat_extended: read_u32_le(sector.as_slice(), 0x24),
            drive_desc_mirroring_flags: read_u16_le(sector.as_slice(), 0x28),
            version: read_u16_le(sector.as_slice(), 0x2A),
            root_dir_cluster_num: read_u32_le(sector.as_slice(), 0x2C),
            fs_info_logical_sector_num: read_u16_le(sector.as_slice(), 0x30),
            boot_sector_backup_logical_sector_start_num: read_u16_le(sector.as_slice(), 0x32),
            phys_drive_number: sector[0x40],
            volume_id: read_u32_le(sector.as_slice(), 0x43),
            volume_label,
            file_system_type,
        }
    }

    /// Encodes the parameter block's fields into `sector`, leaving every
    /// byte outside those fields unchanged.
    #[verifier::rlimit(60)]
    pub fn write(&self, sector: &mut Vec<u8>)
        requires
            old(sector)@.len() == SECTOR_BYTES,
        ensures
            final(sector)@.len() == SECTOR_BYTES,
            bpb_parse_ok(final(sector)@, *self),
            forall|i: int| 0 <= i < SECTOR_BYTES && !bpb_field_byte(i) ==> final(sector)@[i]
                == old(sector)@[i],
    {
        write_u16_le(sector, 0x0B, self.bytes_per_logical_sector);
        sector[0x0D] = self.logical_sectors_per_cluster;
        write_u16_le(sector, 0x0E, self.num_reserved_logical_sectors);
        sector[0x10] = self.num_file_alloc_tables;
        write_u16_le(sector, 0x11, self.max_root_dir_entries);
        write_u16_le(sector, 0x13, self.total_logical_sectors);
        sector[0x15] = self.media_descriptor;
        write_u16_le(sector, 0x16, self.logical_sectors_per_fat);
        write_u16_le(sector, 0x18, self.phys_sectors_per_track);
        write_u16_le(sector, 0x1A, self.num_heads);
        proof {
            assert(sector@[0x0B] == u16_byte(self.bytes_per_logical_sector, 0));
            assert(sector@[0x0C] == u16_byte(self.bytes_per_logical_sector, 1));
            assert(sector@[0x0D] == self.logical_sectors_per_cluster);
            assert(sector@[0x0E] == u16_byte(self.num_reserved_logical_sectors, 0));
            assert(sector@[0x0F] == u16_byte(self.num_reserved_logical_sectors, 1));
            assert forall|i: int| 0 <= i < SECTOR_BYTES && !bpb_field_byte(i) implies sector@[i]
                == old(sector)@[i] by {}
        }
        write_u32_le(sector, 0x1C, self.hidden_preceeding_sectors);
        write_u32_le(sector, 0x20, self.total_logical_sectors_extended);
        write_u32_le(sector, 0x24, self.logical_sectors_per_fat_extended);
        write_u16_le(sector, 0x28, self.drive_desc_mirroring_flags);
        write_u16_le(sector, 0x2A, self.version);
        write_u32_le(sector, 0x2C, self.root_dir_cluster_num);
        write_u16_le(sector, 0x30, self.fs_info_logical_sector_num);
        write_u16_le(sector, 0x32, self.boot_sector_backup_logical_sector_start_num);
        sector[0x40] = self.phys_drive_number;
        write_u32_le(sector, 0x43, self.volume_id);
        proof {
            assert(sector@[0x0B] == u16_byte(self.bytes_per_logical_sector, 0));
            assert(sector@[0x0C] == u16_byte(self.bytes_per_logical_sector, 1));
            assert(sector@[0x0D] == self.logical_sectors_per_cluster);
            assert(sector@[0x0E] == u16_byte(self.num_reserved_logical_sectors, 0));
            assert(sector@[0x0F] == u16_byte(self.num_reserved_logical_sectors, 1));
            assert(sector@[0x10] == self.num_file_alloc_tables);
            assert(sector@[0x11] == u16_byte(self.max_root_dir_entries, 0));
            assert(sector@[0x12] == u16_byte(self.max_root_dir_entries, 1));
            assert(sector@[0x13] == u16_byte(self.total_logical_sectors, 0));
            assert(sector@[0x14] == u16_byte(self.total_logical_sectors, 1));
            assert(sector@[0x15] == self.media_descriptor);
            assert(sector@[0x16] == u16_byte(self.logical_sectors_per_fat, 0));
            assert(sector@[0x17] == u16_byte(self.logical_sectors_per_fat, 1));
            assert(sector@[0x18] == u16_byte(self.phys_sectors_per_track, 0));
            assert(sector@[0x19] == u16_byte(self.phys_sectors_per_track, 1));
            assert(sector@[0x1A] == u16_byte(self.num_heads, 0));
            assert(sector@[0x1B] == u16_byte(self.num_heads, 1));
            assert(sector@[0x1C] == u32_byte(self.hidden_preceeding_sectors, 0));
            assert(sector@[0x1D] == u32_byte(self.hidden_preceeding_sectors, 1));
            assert(sector@[0x1E] == u32_byte(self.hidden_preceeding_sectors, 2));
            assert(sector@[0x1F] == u32_byte(self.hidden_preceeding_sectors, 3));
            assert(sector@[0x20] == u32_byte(self.total_logical_sectors_extended, 0));
            assert(sector@[0x21] == u32_byte(self.total_logical_sectors_extended, 1));
            assert(sector@[0x22] == u32_byte(self.total_logical_sectors_extended, 2));
            assert(sector@[0x23] == u32_byte(self.total_logical_sectors_extended, 3));
            assert(sector@[0x24] == u32_byte(self.logical_sectors_per_fat_extended, 0));
            assert(sector@[0x25] == u32_byte(self.logical_sectors_per_fat_extended, 1));
            assert(sector@[0x26] == u32_byte(self.logical_sectors_per_fat_extended, 2));
            assert(sector@[0x27] == u32_byte(self.logical_sectors_per_fat_extended, 3));
            assert(sector@[0x28] == u16_byte(self.drive_desc_mirroring_flags, 0));
            assert(sector@[0x29] == u16_byte(self.drive_desc_mirroring_flags, 1));
            assert(sector@[0x2A] == u16_byte(self.version, 0));
            assert(sector@[0x2B] == u16_byte(self.version, 1));
            assert(sector@[0x2C] == u32_byte(self.root_dir_cluster_num, 0));
            assert(sector@[0x2D] == u32_byte(self.root_dir_cluster_num, 1));
            assert(sector@[0x2E] == u32_byte(self.root_dir_cluster_num, 2));
            assert(sector@[0x2F] == u32_byte(self.root_dir_cluster_num, 3));
            assert(sector@[0x30] == u16_byte(self.fs_info_logical_sector_num, 0));
            assert(sector@[0x31] == u16_byte(self.fs_info_logical_sector_num, 1));
            assert(sector@[0x32] == u16_byte(self.boot_sector_backup_logical_sector_start_num, 0));
            assert(sector@[0x33] == u16_byte(self.boot_sector_backup_logical_sector_start_num, 1));
            assert(sector@[0x40] == self.phys_drive_number);
            assert(sector@[0x43] == u32_byte(self.volume_id, 0));
            assert(sector@[0x44] == u32_byte(self.volume_id, 1));
            assert(sector@[0x45] == u32_byte(self.volume_id, 2));
            assert(sector@[0x46] == u32_byte(self.volume_id, 3));
            assert forall|i: int| 0 <= i < SECTOR_BYTES && !bpb_field_byte(i) implies sector@[i]
                == old(sector)@[i] by {}
        }
        let ghost before_label = sector@;
        let mut k: usize = 0;
        while k < 11
            invariant
                k <= 11,
                sector@.len() == SECTOR_BYTES,
                forall|i: int| 0 <= i < k ==> sector@[0x47 + i] == self.volume_label@[i],
                forall|i: int| 0 <= i < SECTOR_BYTES && !(0x47 <= i < 0x47 + k) ==> sector@[i]
                    == before_label[i],
            decreases 11 - k,
        {
            sector[0x47 + k] = self.volume_label[k];
            k = k + 1;
        }
        let ghost before_type = sector@;
        let mut j: usize = 0;
        while j < 8
            invariant
                j <= 8,
                sector@.len() == SECTOR_BYTES,
                forall|i: int| 0 <= i < j ==> sector@[0x52 + i] == self.file_system_type@[i],
                forall|i: int| 0 <= i < SECTOR_BYTES && !(0x52 <= i < 0x52 + j) ==> sector@[i]
                    == before_type[i],
            decreases 8 - j,
        {
            sector[0x52 + j] = self.file_system_type[j];
            j = j + 1;
        }
        proof {
            assert(sector@.subrange(0x47, 0x52) =~= self.volume_label@);
            assert(sector@.subrange(0x52, 0x5A) =~= self.file_system_type@);
            assert forall|i: int| 0 <= i < 0x47 implies sector@[i] == before_label[i] by {
                assert(before_type[i] == before_label[i]);
            }
            assert forall|i: int| 0 <= i < SECTOR_BYTES && !bpb_field_byte(i) implies sector@[i]
                == old(sector)@[i] by {
                assert(before_type[i] == before_label[i]);
                assert(sector@[i] == before_type[i]);
            }
            crate::codec::lemma_u16_le_roundtrip(self.bytes_per_logical_sector, 0, 0);
            crate::codec::lemma_u16_le_roundtrip(self.num_reserved_logical_sectors, 0, 0);
            crate::codec::lemma_u16_le_roundtrip(self.max_root_dir_entries, 0, 0);
            crate::codec::lemma_u16_le_roundtrip(self.total_logical_sectors, 0, 0);
            crate::codec::lemma_u16_le_roundtrip(self.logical_sectors_per_fat, 0, 0);
            crate::codec::lemma_u16_le_roundtrip(self.phys_sectors_per_track, 0, 0);
            crate::codec::lemma_u16_le_roundtrip(self.num_heads, 0, 0);
            crate::codec::lemma_u16_le_roundtrip(self.drive_desc_mirroring_flags, 0, 0);
            crate::codec::lemma_u16_le_roundtrip(self.version, 0, 0);
            crate::codec::lemma_u16_le_roundtrip(self.fs_info_logical_sector_num, 0, 0);
            crate::codec::lemma_u16_le_roundtrip(self.boot_sector_backup_logical_sector_start_num, 0, 0);
            crate::codec::lemma_u32_le_roundtrip(self.hidden_preceeding_sectors, 0, 0, 0, 0);
            crate::codec::lemma_u32_le_roundtrip(self.total_logical_sectors_extended, 0, 0, 0, 0);
            crate::codec::lemma_u32_le_roundtrip(self.logical_sectors_per_fat_extended, 0, 0, 0, 0);
            crate::codec::lemma_u32_le_roundtrip(self.root_dir_cluster_num, 0, 0, 0, 0);
            crate::codec::lemma_u32_le_roundtrip(self.volume_id, 0, 0, 0, 0);
        }
    }
}

} // verus!
