//! Reading GUID Partition Tables.
//!
//! Only what single-partition disks need is exposed: the header in LBA 1
//! and partition entry 0 with its type GUID and first/last LBA.

use vstd::prelude::*;

use crate::codec::{
    read_u16_le, read_u32_le, read_u64_le, u16_be_spec, u16_byte, u16_le_at_spec, u16_le_spec,
    u32_be_spec, u32_byte, u32_le_at_spec, u32_le_spec, u64_le_at_spec, lemma_u16_le_roundtrip,
    lemma_u32_le_roundtrip, u16_byte_of, u32_byte_of,
};
use crate::storage::{ReadError, Storage};
use crate::SECTOR_BYTES;

verus! {

/// The eight signature bytes `EFI PART` at the start of a GPT header.
pub open spec fn gpt_signature() -> Seq<u8> {
    seq![0x45u8, 0x46u8, 0x49u8, 0x20u8, 0x50u8, 0x41u8, 0x52u8, 0x54u8]
}

/// Represents a "middle-endian" 128 bit GUID (as used in GPT): the first
/// three groups are stored little-endian on disk, the rest big-endian.
#[derive(Clone, Copy, PartialEq, Eq, Structural, Debug)]
pub struct Guid {
    pub first: u32,
    pub second: u16,
    pub third: u16,
    pub fourth: u16,
    pub fifth_p1: u16,
    pub fifth_p2: u32,
}

/// The GUID whose on-disk representation is the 16 bytes starting at `off`
/// in `s`.
pub open spec fn guid_from_bytes_spec(s: Seq<u8>, off: int) -> Guid {
    Guid {
        first: u32_le_spec(s[off], s[off + 1], s[off + 2], s[off + 3]),
        second: u16_le_spec(s[off + 4], s[off + 5]),
        third: u16_le_spec(s[off + 6], s[off + 7]),
        fourth: u16_be_spec(s[off + 8], s[off + 9]),
        fifth_p1: u16_be_spec(s[off + 10], s[off + 11]),
        fifth_p2: u32_be_spec(s[off + 12], s[off + 13], s[off + 14], s[off + 15]),
    }
}

/// The on-disk representation of a GUID, 16 bytes.
pub open spec fn guid_to_bytes_spec(g: Guid) -> Seq<u8> {
    seq![
        u32_byte(g.first, 0), u32_byte(g.first, 1), u32_byte(g.first, 2), u32_byte(g.first, 3),
        u16_byte(g.second, 0), u16_byte(g.second, 1),
        u16_byte(g.third, 0), u16_byte(g.third, 1),
        u16_byte(g.fourth, 1), u16_byte(g.fourth, 0),
        u16_byte(g.fifth_p1, 1), u16_byte(g.fifth_p1, 0),
        u32_byte(g.fifth_p2, 3), u32_byte(g.fifth_p2, 2), u32_byte(g.fifth_p2, 1),
        u32_byte(g.fifth_p2, 0),
    ]
}

/// The GUID held by a mixed-endian 16-byte buffer, as produced by writing
/// a 128-bit literal's little-endian bytes.
pub open spec fn guid_from_mixed_spec(s: Seq<u8>) -> Guid {
    Guid {
        first: u32_le_spec(s[12], s[13], s[14], s[15]),
        second: u16_le_spec(s[10], s[11]),
        third: u16_le_spec(s[8], s[9]),
        fourth: u16_be_spec(s[7], s[6]),
        fifth_p1: u16_be_spec(s[5], s[4]),
        fifth_p2: u32_be_spec(s[3], s[2], s[1], s[0]),
    }
}

/// The partition-type GUID marking a Microsoft Basic Data partition.
pub open spec fn microsoft_basic_data_spec() -> Guid {
    Guid {
        first: 0xEBD0A0A2u32,
        second: 0xB9E5u16,
        third: 0x4433u16,
        fourth: 0x87C0u16,
        fifth_p1: 0x68B6u16,
        fifth_p2: 0xB72699C7u32,
    }
}

/// Decoding a GUID's on-disk bytes and encoding them again restores the
/// same bytes, and encoding any GUID and decoding the result restores the
/// same GUID: the codec is a bijection.
pub proof fn lemma_guid_roundtrip(g: Guid, s: Seq<u8>, off: int)
    requires
        0 <= off,
        off + 16 <= s.len(),
    ensures
        guid_from_bytes_spec(guid_to_bytes_spec(g), 0) == g,
        guid_to_bytes_spec(guid_from_bytes_spec(s, off)) =~= s.subrange(off, off + 16),
{
    lemma_u32_le_roundtrip(g.first, s[off], s[off + 1], s[off + 2], s[off + 3]);
    lemma_u16_le_roundtrip(g.second, s[off + 4], s[off + 5]);
    lemma_u16_le_roundtrip(g.third, s[off + 6], s[off + 7]);
    lemma_u16_le_roundtrip(g.fourth, s[off + 9], s[off + 8]);
    lemma_u16_le_roundtrip(g.fifth_p1, s[off + 11], s[off + 10]);
    lemma_u32_le_roundtrip(g.fifth_p2, s[off + 15], s[off + 14], s[off + 13], s[off + 12]);
}

impl Guid {
    /// The GUID written as a mixed-endian 128-bit literal.
    pub fn from_mixed_u128(u: u128) -> (r: Guid)
        ensures
            r == (Guid {
                first: ((u >> 96) & 0xFFFF_FFFF) as u32,
                second: ((u >> 80) & 0xFFFF) as u16,
                third: ((u >> 64) & 0xFFFF) as u16,
                fourth: ((u >> 48) & 0xFFFF) as u16,
                fifth_p1: ((u >> 32) & 0xFFFF) as u16,
                fifth_p2: (u & 0xFFFF_FFFF) as u32,
            }),
    {
        let r = Guid {
            first: ((u >> 96) & 0xFFFF_FFFF) as u32,
            second: ((u >> 80) & 0xFFFF) as u16,
            third: ((u >> 64) & 0xFFFF) as u16,
            fourth: ((u >> 48) & 0xFFFF) as u16,
            fifth_p1: ((u >> 32) & 0xFFFF) as u16,
            fifth_p2: (u & 0xFFFF_FFFF) as u32,
        };
        r
    }

    /// The partition-type GUID of a Microsoft Basic Data partition.
    pub fn microsoft_basic_data() -> (r: Guid)
        ensures
            r == microsoft_basic_data_spec(),
    {
        let u: u128 = 0xEBD0A0A2_B9E5_4433_87C0_68B6B72699C7u128;
        let r = Guid::from_mixed_u128(u);
        proof {
            assert(((u >> 96) & 0xFFFF_FFFF) as u32 == 0xEBD0A0A2u32 && ((u >> 80) & 0xFFFF) as u16
                == 0xB9E5u16 && ((u >> 64) & 0xFFFF) as u16 == 0x4433u16 && ((u >> 48)
                & 0xFFFF) as u16 == 0x87C0u16 && ((u >> 32) & 0xFFFF) as u16 == 0x68B6u16 && (u
                & 0xFFFF_FFFF) as u32 == 0xB72699C7u32) by (bit_vector)
                requires u == 0xEBD0A0A2_B9E5_4433_87C0_68B6B72699C7u128;
        }
        r
    }

    /// The GUID held by a mixed-endian byte buffer (a 128-bit literal's
    /// little-endian bytes).
    pub fn from_mixed(b: [u8; 16]) -> (r: Guid)
        ensures
            r == guid_from_mixed_spec(b@),
    {
        Guid {
            first: read_u32_le(b.as_slice(), 12),
            second: read_u16_le(b.as_slice(), 10),
            third: read_u16_le(b.as_slice(), 8),
            fourth: (b[6] as u16) | ((b[7] as u16) << 8u16),
            fifth_p1: (b[4] as u16) | ((b[5] as u16) << 8u16),
            fifth_p2: (b[0] as u32) | ((b[1] as u32) << 8u32) | ((b[2] as u32) << 16u32) | (
            (b[3] as u32) << 24u32),
        }
    }

    /// The GUID's on-disk representation.
    pub fn to_bytes(&self) -> (r: [u8; 16])
        ensures
            r@ == guid_to_bytes_spec(*self),
    {
        let r: [u8; 16] = [
            u32_byte_of(self.first, 0),
            u32_byte_of(self.first, 1),
            u32_byte_of(self.first, 2),
            u32_byte_of(self.first, 3),
            u16_byte_of(self.second, 0),
            u16_byte_of(self.second, 1),
            u16_byte_of(self.third, 0),
            u16_byte_of(self.third, 1),
            u16_byte_of(self.fourth, 1),
            u16_byte_of(self.fourth, 0),
            u16_byte_of(self.fifth_p1, 1),
            u16_byte_of(self.fifth_p1, 0),
            u32_byte_of(self.fifth_p2, 3),
            u32_byte_of(self.fifth_p2, 2),
            u32_byte_of(self.fifth_p2, 1),
            u32_byte_of(self.fifth_p2, 0),
        ];
        proof {
            assert(r@ =~= guid_to_bytes_spec(*self));
        }
        r
    }

    /// The GUID whose on-disk representation `b` is.
    pub fn from_bytes(b: [u8; 16]) -> (r: Guid)
        ensures
            r == guid_from_bytes_spec(b@, 0),
    {
        Guid {
            first: read_u32_le(b.as_slice(), 0),
            second: read_u16_le(b.as_slice(), 4),
            third: read_u16_le(b.as_slice(), 6),
            fourth: (b[9] as u16) | ((b[8] as u16) << 8u16),
            fifth_p1: (b[11] as u16) | ((b[10] as u16) << 8u16),
            fifth_p2: (b[15] as u32) | ((b[14] as u32) << 8u32) | ((b[13] as u32) << 16u32) | (
            (b[12] as u32) << 24u32),
        }
    }
}

/// A GPT header, from LBA 1 of the device.
#[derive(Clone, PartialEq, Eq, Structural, Debug)]
pub struct Gpt {
    pub revision: u32,
    /// Header size (usually 92 bytes).
    pub header_size: u32,
    /// CRC32 of the start of the header up to `header_size`.
    pub header_crc32: u32,
    pub current_lba: u64,
    pub backup_lba: u64,
    /// First usable LBA for partitions (primary partition table last LBA + 1).
    pub first_usable_lba: u64,
    /// Last usable LBA (secondary partition table first LBA - 1).
    pub last_usable_lba: u64,
    /// Disk GUID in mixed endian.
    pub disk_guid: Guid,
    /// Starting LBA of the array of partition entries (always 2 in the
    /// primary copy).
    pub partition_entries_starting_lba: u64,
    /// Number of partition entries in the array.
    pub num_partition_entries: u32,
    /// Size of a single partition entry (usually 128 bytes).
    pub partition_entry_size: u32,
    /// CRC32 of the partition entries array.
    pub partition_entries_crc32: u32,
}

/// Whether `sector` starts with the GPT signature.
pub open spec fn gpt_signature_ok(sector: Seq<u8>) -> bool {
    sector.subrange(0, 8) == gpt_signature()
}

/// The GPT header held by `sector`.
pub open spec fn gpt_parse_spec(sector: Seq<u8>) -> Gpt {
    Gpt {
        revision: u32_le_at_spec(sector, 8),
        header_size: u32_le_at_spec(sector, 12),
        header_crc32: u32_le_at_spec(sector, 16),
        current_lba: u64_le_at_spec(sector, 24),
        backup_lba: u64_le_at_spec(sector, 32),
        first_usable_lba: u64_le_at_spec(sector, 40),
        last_usable_lba: u64_le_at_spec(sector, 48),
        disk_guid: guid_from_bytes_spec(sector, 56),
        partition_entries_starting_lba: u64_le_at_spec(sector, 72),
        num_partition_entries: u32_le_at_spec(sector, 80),
        partition_entry_size: u32_le_at_spec(sector, 84),
        partition_entries_crc32: u32_le_at_spec(sector, 88),
    }
}

/// One partition's entry in the partition table.
#[derive(Clone, PartialEq, Eq, Structural, Debug)]
pub struct PartitionEntry {
    pub partition_type: Guid,
    pub unique_guid: Guid,
    pub first_lba: u64,
    /// Inclusive (usually odd).
    pub last_lba: u64,
    /// Bit 60 denotes read only.
    pub attribute_flags: u64,
}

/// The partition entry held by the bytes starting at `off`.
pub open spec fn partition_entry_parse_spec(s: Seq<u8>, off: int) -> PartitionEntry {
    PartitionEntry {
        partition_type: guid_from_bytes_spec(s, off),
        unique_guid: guid_from_bytes_spec(s, off + 16),
        first_lba: u64_le_at_spec(s, off + 32),
        last_lba: u64_le_at_spec(s, off + 40),
        attribute_flags: u64_le_at_spec(s, off + 48),
    }
}

impl PartitionEntry {
    /// A Microsoft Basic Data partition spanning sectors `beginning` to
    /// `end`, inclusive.
    pub fn fat(beginning: u64, end: u64) -> (r: Self)
        ensures
            r.partition_type == microsoft_basic_data_spec(),
            r.first_lba == beginning,
            r.last_lba == end,
            r.attribute_flags == 0,
    {
        PartitionEntry {
            partition_type: Guid::microsoft_basic_data(),
            unique_guid: Guid::from_mixed_u128(0x1234567890ABCDEF1234567890ABCDEFu128),
            first_lba: beginning,
            last_lba: end,
            attribute_flags: 0,
        }
    }
}

impl Gpt {
    /// Decodes the GPT header from the contents of device sector 1; fails
    /// exactly when the signature is missing.
    pub fn parse(sector: &Vec<u8>) -> (r: Result<Gpt, ()>)
        requires
            sector@.len() == SECTOR_BYTES,
        ensures
            r is Ok <==> gpt_signature_ok(sector@),
            r matches Ok(g) ==> g == gpt_parse_spec(sector@),
    {
        let sig_ok = sector[0] == 0x45 && sector[1] == 0x46 && sector[2] == 0x49 && sector[3]
            == 0x20 && sector[4] == 0x50 && sector[5] == 0x41 && sector[6] == 0x52 && sector[7]
            == 0x54;
        proof {
            if sig_ok {
                assert(sector@.subrange(0, 8) =~= gpt_signature());
            } else {
                assert(sector@.subrange(0, 8) != gpt_signature()) by {
                    if sector@.subrange(0, 8) == gpt_signature() {
                        assert(sector@[0] == gpt_signature()[0]);
                        assert(sector@[1] == gpt_signature()[1]);
                        assert(sector@[2] == gpt_signature()[2]);
                        assert(sector@[3] == gpt_signature()[3]);
                        assert(sector@[4] == gpt_signature()[4]);
                        assert(sector@[5] == gpt_signature()[5]);
                        assert(sector@[6] == gpt_signature()[6]);
                        assert(sector@[7] == gpt_signature()[7]);
                    }
                }
            }
        }
        if !sig_ok {
            return Err(());
        }
        let mut guid_bytes: [u8; 16] = [0u8; 16];
        let mut k: usize = 0;
        while k < 16
            invariant
                k <= 16,
                sector@.len() == SECTOR_BYTES,
                forall|i: int| 0 <= i < k ==> guid_bytes@[i] == sector@[56 + i],
            decreases 16 - k,
        {
            guid_bytes[k] = sector[56 + k];
            k = k + 1;
        }
        let disk_guid = Guid::from_bytes(guid_bytes);
        proof {
            assert(guid_from_bytes_spec(guid_bytes@, 0) == guid_from_bytes_spec(sector@, 56));
        }
        Ok(
            Gpt {
                revision: read_u32_le(sector.as_slice(), 8),
                header_size: read_u32_le(sector.as_slice(), 12),
                header_crc32: read_u32_le(sector.as_slice(), 16),
                current_lba: read_u64_le(sector.as_slice(), 24),
                backup_lba: read_u64_le(sector.as_slice(), 32),
                first_usable_lba: read_u64_le(sector.as_slice(), 40),
                last_usable_lba: read_u64_le(sector.as_slice(), 48),
                disk_guid,
                partition_entries_starting_lba: read_u64_le(sector.as_slice(), 72),
                num_partition_entries: read_u32_le(sector.as_slice(), 80),
                partition_entry_size: read_u32_le(sector.as_slice(), 84),
                partition_entries_crc32: read_u32_le(sector.as_slice(), 88),
            },
        )
    }

    /// Reads and decodes the GPT header from LBA 1 of `storage`.
    ///
    /// Succeeds exactly when the device serves the read and the sector
    /// carries the GPT signature.
    pub fn read_gpt<S: Storage>(storage: &mut S) -> (r: Result<Gpt, ()>)
        ensures
            final(storage).disk() == old(storage).disk(),
            r matches Ok(g) ==> {
                &&& old(storage).disk().len() > 1
                &&& gpt_signature_ok(old(storage).disk()[1])
                &&& g == gpt_parse_spec(old(storage).disk()[1])
            },
    {
        let mut sector: Vec<u8> = Vec::new();
        match storage.read_sector(1, &mut sector) {
            Ok(()) => {},
            Err(_) => {
                return Err(());
            },
        }
        let _device_sectors = storage.capacity();
        proof {
        }
        Gpt::parse(&sector)
    }

    /// Reads and decodes partition entry `idx` of the partition table.
    /// Only entry 0 is supported; the entry size recorded in the header
    /// must lie between 120 and 512 bytes.
    pub fn get_partition_entry<S: Storage>(&self, storage: &mut S, idx: u32) -> (r: Result<
        PartitionEntry,
        (),
    >)
        ensures
            final(storage).disk() == old(storage).disk(),
            // The library's own refusals: only entry 0 is supported, and
            // a header whose entry size or entry-array position is out of
            // range yields no entry.
            idx != 0 || self.partition_entry_size < 120 || self.partition_entry_size > 512
                || self.partition_entries_starting_lba > usize::MAX as u64 ==> r is Err,
            r matches Ok(p) ==> {
                &&& idx == 0
                &&& self.partition_entries_starting_lba < old(storage).disk().len()
                &&& p == partition_entry_parse_spec(
                    old(storage).disk()[self.partition_entries_starting_lba as int],
                    0,
                )
            },
    {
        if idx != 0 {
            return Err(());
        }
        if self.partition_entry_size < 120 || self.partition_entry_size > 512 {
            return Err(());
        }
        if self.partition_entries_starting_lba > usize::MAX as u64 {
            return Err(());
        }
        let lba = self.partition_entries_starting_lba as usize;
        let mut sector: Vec<u8> = Vec::new();
        match storage.read_sector(lba, &mut sector) {
            Ok(()) => {},
            Err(_) => {
                return Err(());
            },
        }
        let _device_sectors = storage.capacity();
        proof {
        }
        let mut tguid: [u8; 16] = [0u8; 16];
        let mut uguid: [u8; 16] = [0u8; 16];
        let mut k: usize = 0;
        while k < 16
            invariant
                k <= 16,
                sector@.len() == SECTOR_BYTES,
                forall|i: int| 0 <= i < k ==> tguid@[i] == sector@[i],
                forall|i: int| 0 <= i < k ==> uguid@[i] == sector@[16 + i],
            decreases 16 - k,
        {
            tguid[k] = sector[k];
            uguid[k] = sector[16 + k];
            k = k + 1;
        }
        let partition_type = Guid::from_bytes(tguid);
        let unique_guid = Guid::from_bytes(uguid);
        proof {
            assert(guid_from_bytes_spec(tguid@, 0) == guid_from_bytes_spec(sector@, 0));
            assert(guid_from_bytes_spec(uguid@, 0) == guid_from_bytes_spec(sector@, 16));
        }
        Ok(
            PartitionEntry {
                partition_type,
                unique_guid,
                first_lba: read_u64_le(sector.as_slice(), 32),
                last_lba: read_u64_le(sector.as_slice(), 40),
                attribute_flags: read_u64_le(sector.as_slice(), 48),
            },
        )
    }
}

} // verus!
