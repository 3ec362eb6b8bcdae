//! Directory entries: files or folders, 32 bytes each on disk.

use vstd::prelude::*;

use crate::codec::{read_u16_le, read_u32_le, u16_byte, u16_le_at_spec, u32_byte, u32_le_at_spec,
    write_u16_le, write_u32_le, lemma_u16_le_roundtrip, lemma_u32_le_roundtrip};
use crate::fat::types::ClusterIdx;
use crate::fat::{edisk_byte, range_covers, FatFs, FsError};
use crate::storage::Storage;
use vstd::string::StringSliceAdditionalSpecFns;

verus! {

/// One attribute bit of a directory entry.
#[derive(Clone, Copy, PartialEq, Eq, Structural, Debug)]
pub enum Attribute {
    ReadOnly,
    Hidden,
    System,
    VolumeId,
    Directory,
    Archive,
}

impl Attribute {
    /// The attribute's bit in the attribute byte.
    pub open spec fn mask_spec(self) -> u8 {
        match self {
            Attribute::ReadOnly => 0x01,
            Attribute::Hidden => 0x02,
            Attribute::System => 0x04,
            Attribute::VolumeId => 0x08,
            Attribute::Directory => 0x10,
            Attribute::Archive => 0x20,
        }
    }

    /// The attribute's bit in the attribute byte.
    pub fn mask(self) -> (r: u8)
        ensures
            r == self.mask_spec(),
    {
        match self {
            Attribute::ReadOnly => 0x01,
            Attribute::Hidden => 0x02,
            Attribute::System => 0x04,
            Attribute::VolumeId => 0x08,
            Attribute::Directory => 0x10,
            Attribute::Archive => 0x20,
        }
    }

    /// The attribute whose bit `u` is, if it is exactly one attribute's bit.
    pub fn from(u: u8) -> (r: Option<Attribute>)
        ensures
            r matches Some(a) ==> a.mask_spec() == u,
            r is None ==> (u != 0x01 && u != 0x02 && u != 0x04 && u != 0x08 && u != 0x10 && u
                != 0x20),
    {
        match u {
            0x01 => Some(Attribute::ReadOnly),
            0x02 => Some(Attribute::Hidden),
            0x04 => Some(Attribute::System),
            0x08 => Some(Attribute::VolumeId),
            0x10 => Some(Attribute::Directory),
            0x20 => Some(Attribute::Archive),
            _ => None,
        }
    }
}

/// The attribute byte that marks a long-filename fragment:
/// ReadOnly, Hidden, System and VolumeId together.
pub const LFN_ATTRIBUTES: u8 = 0x0F;

/// A set of [`Attribute`] bits, as stored in a directory entry's attribute
/// byte.
#[derive(Clone, Copy, PartialEq, Eq, Structural, Debug)]
pub struct AttributeSet {
    pub inner: u8,
}

impl AttributeSet {
    /// The empty attribute set.
    pub fn new() -> (r: Self)
        ensures
            r.inner == 0,
    {
        AttributeSet { inner: 0 }
    }

    /// The set with attribute `a` added.
    pub fn apply(self, a: Attribute) -> (r: Self)
        ensures
            r.inner == self.inner | a.mask_spec(),
    {
        AttributeSet { inner: self.inner | a.mask() }
    }

    /// The set marking a long-filename fragment.
    pub fn lfn() -> (r: Self)
        ensures
            r.inner == LFN_ATTRIBUTES,
    {
        AttributeSet { inner: LFN_ATTRIBUTES }
    }

    /// Whether the Directory bit is set.
    pub open spec fn is_dir_spec(self) -> bool {
        self.inner & 0x10 != 0
    }

    /// Whether the Archive bit is set, marking a plain file.
    pub open spec fn is_file_spec(self) -> bool {
        self.inner & 0x20 != 0
    }

    /// Whether this is exactly the long-filename marker.
    pub open spec fn is_lfn_spec(self) -> bool {
        self.inner == LFN_ATTRIBUTES
    }

    /// Whether the Directory bit is set.
    pub fn is_dir(&self) -> (r: bool)
        ensures
            r == self.is_dir_spec(),
    {
        (self.inner & 0x10) != 0
    }

    /// Whether the Archive bit is set, marking a plain file.
    pub fn is_file(&self) -> (r: bool)
        ensures
            r == self.is_file_spec(),
    {
        (self.inner & 0x20) != 0
    }

    /// Whether this is exactly the long-filename marker.
    pub fn is_lfn(&self) -> (r: bool)
        ensures
            r == self.is_lfn_spec(),
    {
        self.inner == LFN_ATTRIBUTES
    }
}

/// An 8-byte file name, space-padded on disk.
#[derive(Clone, PartialEq, Eq, Debug)]
#[verifier::ext_equal]
pub struct FileName(pub [u8; 8]);

/// What a name or extension buffer holds for the string bytes `b`: the
/// bytes themselves, truncated to `n` and padded with spaces.
pub open spec fn padded_bytes_spec(b: Seq<u8>, n: nat) -> Seq<u8> {
    Seq::new(n, |i: int| if i < b.len() { b[i] } else { 0x20u8 })
}

impl FileName {
    /// The name buffer for `s`: its first 8 bytes, space-padded; a name
    /// with non-ASCII characters is replaced by zeroes.
    pub fn new(s: &str) -> (r: Self)
        ensures
            s.is_ascii() ==> r.0@ == padded_bytes_spec(s.spec_bytes(), 8),
            !s.is_ascii() ==> r.0@ == Seq::new(8nat, |i: int| 0u8),
    {
        let mut buf: [u8; 8] = [0u8; 8];
        if !s.is_ascii() {
            proof {
                assert(buf@ =~= Seq::new(8nat, |i: int| 0u8));
            }
            return FileName(buf);
        }
        let bytes = s.as_bytes();
        let n = bytes.len();
        let mut k: usize = 0;
        while k < 8
            invariant
                k <= 8,
                n == bytes@.len(),
                bytes@ == s.spec_bytes(),
                forall|i: int| 0 <= i < k ==> buf@[i] == padded_bytes_spec(s.spec_bytes(), 8)[i],
            decreases 8 - k,
        {
            if k < n {
                buf[k] = bytes[k];
            } else {
                buf[k] = 0x20;
            }
            k = k + 1;
        }
        proof {
            assert(buf@ =~= padded_bytes_spec(s.spec_bytes(), 8));
        }
        FileName(buf)
    }
}

/// A 3-byte file extension, space-padded on disk.
#[derive(Clone, PartialEq, Eq, Debug)]
#[verifier::ext_equal]
pub struct FileExt(pub [u8; 3]);

impl FileExt {
    /// The extension buffer for `s`: its first 3 bytes, space-padded; an
    /// extension with non-ASCII characters is replaced by zeroes.
    pub fn new(s: &str) -> (r: Self)
        ensures
            s.is_ascii() ==> r.0@ == padded_bytes_spec(s.spec_bytes(), 3),
            !s.is_ascii() ==> r.0@ == Seq::new(3nat, |i: int| 0u8),
    {
        let mut buf: [u8; 3] = [0u8; 3];
        if !s.is_ascii() {
            proof {
                assert(buf@ =~= Seq::new(3nat, |i: int| 0u8));
            }
            return FileExt(buf);
        }
        let bytes = s.as_bytes();
        let n = bytes.len();
        let mut k: usize = 0;
        while k < 3
            invariant
                k <= 3,
                n == bytes@.len(),
                bytes@ == s.spec_bytes(),
                forall|i: int| 0 <= i < k ==> buf@[i] == padded_bytes_spec(s.spec_bytes(), 3)[i],
            decreases 3 - k,
        {
            if k < n {
                buf[k] = bytes[k];
            } else {
                buf[k] = 0x20;
            }
            k = k + 1;
        }
        proof {
            assert(buf@ =~= padded_bytes_spec(s.spec_bytes(), 3));
        }
        FileExt(buf)
    }
}

/// A 32-byte on-disk directory entry.
#[derive(Clone, PartialEq, Eq, Debug)]
#[verifier::ext_equal]
pub struct DirEntry {
    // Offset: 00
    pub file_name: FileName,
    // Offset: 08
    pub file_ext: FileExt,
    // Offset: 11
    pub attributes: AttributeSet,
    // Offset: 12
    pub win_nt: u8,
    // Offset: 13
    pub creation_time_tenth_secs: u8,
    // Offset: 14
    pub creation_time_double_secs: u16,
    // Offset: 16
    pub creation_date: u16,
    // Offset: 18
    pub last_access_date: u16,
    // Offset: 20
    pub cluster_num_upper: u16,
    // Offset: 22
    pub last_modif_time: u16,
    // Offset: 24
    pub last_modif_date: u16,
    // Offset: 26
    pub cluster_num_lower: u16,
    // Offset: 28
    pub file_size: u32,
}

/// What the first byte of an entry's name says about the entry.
#[derive(Clone, Copy, PartialEq, Eq, Structural, Debug)]
pub enum State {
    Exists,
    Deleted,
    End,
}

/// Whether `e` holds exactly the fields stored in the 32 bytes starting at
/// `off` in `s`.
pub open spec fn dir_entry_parse_ok(s: Seq<u8>, off: int, e: DirEntry) -> bool {
    &&& e.file_name.0@ == s.subrange(off, off + 8)
    &&& e.file_ext.0@ == s.subrange(off + 8, off + 11)
    &&& e.attributes.inner == s[off + 11]
    &&& e.win_nt == s[off + 12]
    &&& e.creation_time_tenth_secs == s[off + 13]
    &&& e.creation_time_double_secs == u16_le_at_spec(s, off + 14)
    &&& e.creation_date == u16_le_at_spec(s, off + 16)
    &&& e.last_access_date == u16_le_at_spec(s, off + 18)
    &&& e.cluster_num_upper == u16_le_at_spec(s, off + 20)
    &&& e.last_modif_time == u16_le_at_spec(s, off + 22)
    &&& e.last_modif_date == u16_le_at_spec(s, off + 24)
    &&& e.cluster_num_lower == u16_le_at_spec(s, off + 26)
    &&& e.file_size == u32_le_at_spec(s, off + 28)
}

/// The state encoded by an entry's first name byte.
pub open spec fn state_spec(e: DirEntry) -> State {
    if e.file_name.0@[0] == 0x00 {
        State::End
    } else if e.file_name.0@[0] == 0xE5 {
        State::Deleted
    } else {
        State::Exists
    }
}

/// The cluster index stored split across an entry's two 16-bit halves.
pub open spec fn cluster_of_halves(upper: u16, lower: u16) -> u32 {
    ((upper as u32) << 16u32) | (lower as u32)
}

/// A directory entry's bytes decode to exactly one value: decoding what an
/// encode produced gives back what was encoded.
pub proof fn lemma_dir_entry_roundtrip(s: Seq<u8>, off: int, a: DirEntry, b: DirEntry)
    requires
        dir_entry_parse_ok(s, off, a),
        dir_entry_parse_ok(s, off, b),
    ensures
        a == b,
{
    assert(a.file_name.0 =~= b.file_name.0);
    assert(a.file_ext.0 =~= b.file_ext.0);
    assert(a =~= b);
}

/// Splitting a cluster index into its on-disk halves and joining them is
/// the identity.
pub proof fn lemma_cluster_halves_roundtrip(c: u32, upper: u16, lower: u16)
    ensures
        cluster_of_halves(((c >> 16u32) & 0xFFFF) as u16, (c & 0xFFFF) as u16) == c,
        ((cluster_of_halves(upper, lower) >> 16u32) & 0xFFFF) as u16 == upper,
        (cluster_of_halves(upper, lower) & 0xFFFF) as u16 == lower,
{
    assert(((((c >> 16u32) & 0xFFFF) as u16 as u32) << 16u32) | ((c & 0xFFFF) as u16 as u32)
        == c) by (bit_vector);
    let y = ((upper as u32) << 16u32) | (lower as u32);
    assert(((y >> 16u32) & 0xFFFF) as u16 == upper && (y & 0xFFFF) as u16 == lower) by (bit_vector)
        requires y == ((upper as u32) << 16u32) | (lower as u32);
}

impl DirEntry {
    /// The entry's state, read off the first byte of its name.
    pub fn state(&self) -> (r: State)
        ensures
            r == state_spec(*self),
    {
        if self.file_name.0[0] == 0x00 {
            State::End
        } else if self.file_name.0[0] == 0xE5 {
            State::Deleted
        } else {
            State::Exists
        }
    }

    /// The all-zero entry: an End terminator.
    pub fn empty() -> (r: Self)
        ensures
            dir_entry_parse_ok(Seq::new(32nat, |i: int| 0u8), 0, r),
            state_spec(r) == State::End,
            r.attributes.inner == 0,
            r.cluster_num_upper == 0,
            r.cluster_num_lower == 0,
            r.file_size == 0,
    {
        let r = DirEntry {
            file_name: FileName([0u8; 8]),
            file_ext: FileExt([0u8; 3]),
            attributes: AttributeSet { inner: 0 },
            win_nt: 0,
            creation_time_tenth_secs: 0,
            creation_time_double_secs: 0,
            creation_date: 0,
            last_access_date: 0,
            cluster_num_upper: 0,
            last_modif_time: 0,
            last_modif_date: 0,
            cluster_num_lower: 0,
            file_size: 0,
        };
        proof {
            let z = Seq::new(32nat, |i: int| 0u8);
            assert(r.file_name.0@ =~= z.subrange(0, 8));
            assert(r.file_ext.0@ =~= z.subrange(8, 11));
            assert((0u8 as u16) | ((0u8 as u16) << 8u16) == 0u16) by (bit_vector);
            assert((0u8 as u32) | ((0u8 as u32) << 8u32) | ((0u8 as u32) << 16u32) | (
            (0u8 as u32) << 24u32) == 0u32) by (bit_vector);
            assert(u16_le_at_spec(z, 14) == 0);
            assert(u16_le_at_spec(z, 16) == 0);
            assert(u16_le_at_spec(z, 18) == 0);
            assert(u16_le_at_spec(z, 20) == 0);
            assert(u16_le_at_spec(z, 22) == 0);
            assert(u16_le_at_spec(z, 24) == 0);
            assert(u16_le_at_spec(z, 26) == 0);
            assert(u32_le_at_spec(z, 28) == 0);
        }
        r
    }

    /// A fresh file entry with the given name, extension and starting
    /// cluster, its other fields zero and the Archive bit set.
    pub fn new_file(name: FileName, ext: FileExt, cluster_idx: ClusterIdx) -> (r: Self)
        ensures
            r.file_name == name,
            r.file_ext == ext,
            r.attributes.inner == 0x20,
            cluster_of_halves(r.cluster_num_upper, r.cluster_num_lower) == cluster_idx.0,
            r.file_size == 0,
            r.win_nt == 0,
            r.creation_time_tenth_secs == 0,
            r.creation_time_double_secs == 0,
            r.creation_date == 0,
            r.last_access_date == 0,
            r.last_modif_time == 0,
            r.last_modif_date == 0,
    {
        let mut d = Self::empty();
        d.file_name = name;
        d.file_ext = ext;
        d.set_cluster_idx(cluster_idx);
        d.attributes = AttributeSet { inner: d.attributes.inner | 0x20 };
        proof {
            assert(0u8 | 0x20u8 == 0x20u8) by (bit_vector);
        }
        d
    }

    /// A fresh directory entry with the given name and starting cluster,
    /// its other fields zero and the Directory bit set.
    pub fn new_dir(name: FileName, cluster_idx: ClusterIdx) -> (r: Self)
        ensures
            r.file_name == name,
            r.file_ext.0@ == Seq::new(3nat, |i: int| 0u8),
            r.attributes.inner == 0x10,
            cluster_of_halves(r.cluster_num_upper, r.cluster_num_lower) == cluster_idx.0,
            r.file_size == 0,
            r.win_nt == 0,
            r.creation_time_tenth_secs == 0,
            r.creation_time_double_secs == 0,
            r.creation_date == 0,
            r.last_access_date == 0,
            r.last_modif_time == 0,
            r.last_modif_date == 0,
    {
        let mut d = Self::empty();
        d.file_name = name;
        d.set_cluster_idx(cluster_idx);
        d.attributes = AttributeSet { inner: d.attributes.inner | 0x10 };
        proof {
            assert(0u8 | 0x10u8 == 0x10u8) by (bit_vector);
        }
        d
    }

    /// Decodes an entry from 32 bytes.
    pub fn from_arr(arr: [u8; 32]) -> (r: Self)
        ensures
            dir_entry_parse_ok(arr@, 0, r),
    {
        let mut file_name: [u8; 8] = [0u8; 8];
        let mut k: usize = 0;
        while k < 8
            invariant
                k <= 8,
                forall|i: int| 0 <= i < k ==> file_name@[i] == arr@[i],
            decreases 8 - k,
        {
            file_name[k] = arr[k];
            k = k + 1;
        }
        let mut file_ext: [u8; 3] = [0u8; 3];
        let mut j: usize = 0;
        while j < 3
            invariant
                j <= 3,
                forall|i: int| 0 <= i < j ==> file_ext@[i] == arr@[8 + i],
            decreases 3 - j,
        {
            file_ext[j] = arr[8 + j];
            j = j + 1;
        }
        proof {
            assert(file_name@ =~= arr@.subrange(0, 8));
            assert(file_ext@ =~= arr@.subrange(8, 11));
        }
        DirEntry {
            file_name: FileName(file_name),
            file_ext: FileExt(file_ext),
            attributes: AttributeSet { inner: arr[11] },
            win_nt: arr[12],
            creation_time_tenth_secs: arr[13],
            creation_time_double_secs: read_u16_le(arr.as_slice(), 14),
            creation_date: read_u16_le(arr.as_slice(), 16),
            last_access_date: read_u16_le(arr.as_slice(), 18),
            cluster_num_upper: read_u16_le(arr.as_slice(), 20),
            last_modif_time: read_u16_le(arr.as_slice(), 22),
            last_modif_date: read_u16_le(arr.as_slice(), 24),
            cluster_num_lower: read_u16_le(arr.as_slice(), 26),
            file_size: read_u32_le(arr.as_slice(), 28),
        }
    }

    /// Decodes an entry from a slice; fails exactly when the slice is not
    /// 32 bytes long.
    pub fn from_slice(slice: &[u8]) -> (r: Result<Self, ()>)
        ensures
            r is Ok <==> slice@.len() == 32,
            r matches Ok(e) ==> dir_entry_parse_ok(slice@, 0, e),
    {
        if slice.len() != 32 {
            return Err(());
        }
        let mut arr: [u8; 32] = [0u8; 32];
        let mut k: usize = 0;
        while k < 32
            invariant
                k <= 32,
                slice@.len() == 32,
                forall|i: int| 0 <= i < k ==> arr@[i] == slice@[i],
            decreases 32 - k,
        {
            arr[k] = slice[k];
            k = k + 1;
        }
        let e = DirEntry::from_arr(arr);
        proof {
            assert(arr@ =~= slice@);
        }
        Ok(e)
    }

    /// Encodes the entry into 32 bytes.
    pub fn into_arr(&self, arr: &mut [u8; 32])
        ensures
            dir_entry_parse_ok(final(arr)@, 0, *self),
    {
        let mut k: usize = 0;
        while k < 8
            invariant
                k <= 8,
                forall|i: int| 0 <= i < k ==> arr@[i] == self.file_name.0@[i],
            decreases 8 - k,
        {
            arr[k] = self.file_name.0[k];
            k = k + 1;
        }
        let mut j: usize = 0;
        while j < 3
            invariant
                j <= 3,
                forall|i: int| 0 <= i < j ==> arr@[8 + i] == self.file_ext.0@[i],
                forall|i: int| 0 <= i < 8 ==> arr@[i] == self.file_name.0@[i],
            decreases 3 - j,
        {
            arr[8 + j] = self.file_ext.0[j];
            j = j + 1;
        }
        arr[11] = self.attributes.inner;
        arr[12] = self.win_nt;
        arr[13] = self.creation_time_tenth_secs;
        let mut tail: Vec<u8> = Vec::new();
        let mut t: usize = 0;
        while t < 18
            invariant
                tail@.len() == t,
                t <= 18,
            decreases 18 - t,
        {
            tail.push(0u8);
            t = t + 1;
        }
        write_u16_le(&mut tail, 0, self.creation_time_double_secs);
        write_u16_le(&mut tail, 2, self.creation_date);
        write_u16_le(&mut tail, 4, self.last_access_date);
        write_u16_le(&mut tail, 6, self.cluster_num_upper);
        write_u16_le(&mut tail, 8, self.last_modif_time);
        write_u16_le(&mut tail, 10, self.last_modif_date);
        write_u16_le(&mut tail, 12, self.cluster_num_lower);
        write_u32_le(&mut tail, 14, self.file_size);
        proof {
            assert(tail@[0] == u16_byte(self.creation_time_double_secs, 0));
            assert(tail@[1] == u16_byte(self.creation_time_double_secs, 1));
            assert(tail@[2] == u16_byte(self.creation_date, 0));
            assert(tail@[3] == u16_byte(self.creation_date, 1));
            assert(tail@[4] == u16_byte(self.last_access_date, 0));
            assert(tail@[5] == u16_byte(self.last_access_date, 1));
            assert(tail@[6] == u16_byte(self.cluster_num_upper, 0));
            assert(tail@[7] == u16_byte(self.cluster_num_upper, 1));
            assert(tail@[8] == u16_byte(self.last_modif_time, 0));
            assert(tail@[9] == u16_byte(self.last_modif_time, 1));
            assert(tail@[10] == u16_byte(self.last_modif_date, 0));
            assert(tail@[11] == u16_byte(self.last_modif_date, 1));
            assert(tail@[12] == u16_byte(self.cluster_num_lower, 0));
            assert(tail@[13] == u16_byte(self.cluster_num_lower, 1));
            assert(tail@[14] == u32_byte(self.file_size, 0));
            assert(tail@[15] == u32_byte(self.file_size, 1));
            assert(tail@[16] == u32_byte(self.file_size, 2));
            assert(tail@[17] == u32_byte(self.file_size, 3));
        }
        let mut m: usize = 0;
        while m < 18
            invariant
                m <= 18,
                tail@.len() == 18,
                forall|i: int| 0 <= i < m ==> arr@[14 + i] == tail@[i],
                forall|i: int| 0 <= i < 14 ==> arr@[i] == old_arr_prefix(self, i),
            decreases 18 - m,
        {
            arr[14 + m] = tail[m];
            m = m + 1;
        }
        proof {
            assert forall|i: int| 0 <= i < 11 implies arr@[i] == old_arr_prefix(self, i) by {}
            assert forall|i: int| 0 <= i < 8 implies arr@[i] == self.file_name.0@[i] by {
                assert(old_arr_prefix(self, i) == self.file_name.0@[i]);
            }
            assert forall|i: int| 8 <= i < 11 implies arr@[i] == self.file_ext.0@[i - 8] by {
                assert(old_arr_prefix(self, i) == self.file_ext.0@[i - 8]);
            }
            assert(arr@.subrange(0, 8) =~= self.file_name.0@);
            assert(arr@.subrange(8, 11) =~= self.file_ext.0@);
            lemma_u16_le_roundtrip(self.creation_time_double_secs, 0, 0);
            lemma_u16_le_roundtrip(self.creation_date, 0, 0);
            lemma_u16_le_roundtrip(self.last_access_date, 0, 0);
            lemma_u16_le_roundtrip(self.cluster_num_upper, 0, 0);
            lemma_u16_le_roundtrip(self.last_modif_time, 0, 0);
            lemma_u16_le_roundtrip(self.last_modif_date, 0, 0);
            lemma_u16_le_roundtrip(self.cluster_num_lower, 0, 0);
            lemma_u32_le_roundtrip(self.file_size, 0, 0, 0, 0);
            assert(old_arr_prefix(self, 11) == self.attributes.inner);
            assert(old_arr_prefix(self, 12) == self.win_nt);
            assert(old_arr_prefix(self, 13) == self.creation_time_tenth_secs);
            assert(arr@[11] == self.attributes.inner);
            assert(arr@[12] == self.win_nt);
            assert(arr@[13] == self.creation_time_tenth_secs);
            assert(arr@[14] == u16_byte(self.creation_time_double_secs, 0));
            assert(arr@[15] == u16_byte(self.creation_time_double_secs, 1));
            assert(u16_le_at_spec(arr@, 14) == self.creation_time_double_secs);
            assert(u16_le_at_spec(arr@, 16) == self.creation_date);
            assert(u16_le_at_spec(arr@, 18) == self.last_access_date);
            assert(u16_le_at_spec(arr@, 20) == self.cluster_num_upper);
            assert(u16_le_at_spec(arr@, 22) == self.last_modif_time);
            assert(u16_le_at_spec(arr@, 24) == self.last_modif_date);
            assert(u16_le_at_spec(arr@, 26) == self.cluster_num_lower);
            assert(u32_le_at_spec(arr@, 28) == self.file_size);
            assert(dir_entry_parse_ok(arr@, 0, *self));
        }
    }

    /// The entry's starting cluster, joined from its two on-disk halves.
    pub fn cluster_idx(&self) -> (r: ClusterIdx)
        ensures
            r.0 == cluster_of_halves(self.cluster_num_upper, self.cluster_num_lower),
    {
        ClusterIdx::new(((self.cluster_num_upper as u32) << 16u32) | (self.cluster_num_lower
            as u32))
    }

    /// Stores `c` into the entry's two cluster-index halves.
    pub fn set_cluster_idx(&mut self, c: ClusterIdx)
        ensures
            *final(self) == (DirEntry {
                cluster_num_upper: final(self).cluster_num_upper,
                cluster_num_lower: final(self).cluster_num_lower,
                ..*old(self)
            }),
            cluster_of_halves(final(self).cluster_num_upper, final(self).cluster_num_lower)
                == c.0,
    {
        let upper = ((c.0 >> 16u32) & 0xFFFF) as u16;
        let lower = (c.0 & 0xFFFF) as u16;
        self.cluster_num_upper = upper;
        self.cluster_num_lower = lower;
        proof {
            lemma_cluster_halves_roundtrip(c.0, upper, lower);
        }
    }
}

/// Helper naming what the prefix of the output buffer holds while
/// [`DirEntry::into_arr`] fills its tail.
pub open spec fn old_arr_prefix(e: &DirEntry, i: int) -> u8 {
    if 0 <= i < 8 {
        e.file_name.0@[i]
    } else if 8 <= i < 11 {
        e.file_ext.0@[i - 8]
    } else if i == 11 {
        e.attributes.inner
    } else if i == 12 {
        e.win_nt
    } else {
        e.creation_time_tenth_secs
    }
}

/// Whether `entry` is exactly what the 32 bytes at byte `off` of cluster
/// `cluster`'s data decode to, on the sector sequence `e`.
pub open spec fn dir_entry_at_ok(
    fs: FatFs,
    e: Seq<Seq<u8>>,
    cluster: u32,
    off: u32,
    entry: DirEntry,
) -> bool {
    dir_entry_parse_ok(
        e[fs.cluster_start_sector_spec(cluster) + off as int / 512],
        (off as int % 512),
        entry,
    )
}

/// Walks the 32-byte entries of a directory, one entry per step, stepping
/// through the directory's cluster chain and skipping long-filename
/// fragments. The iterator holds only its position; the volume and
/// storage are handed to each step.
#[derive(Clone, PartialEq, Eq, Structural, Debug)]
pub struct DirIter {
    /// The cluster the iterator currently reads.
    pub current_cluster: ClusterIdx,
    /// The byte offset of the next entry inside the current cluster;
    /// `None` once the End entry was yielded.
    pub current_offset: Option<u32>,
    /// Where the End entry sits, once it was reached.
    pub hit_end_offset: Option<u32>,
}

impl DirIter {
    /// Whether the iterator's position is a valid entry position for the
    /// volume: 32-byte aligned and inside a cluster.
    pub open spec fn pos_wf(self, fs: FatFs) -> bool {
        self.current_offset matches Some(o) ==> o % 32 == 0 && o + 32
            <= fs.bytes_in_a_cluster_spec()
    }

    /// An iterator over the directory starting at `cluster`.
    pub fn from_cluster(cluster: ClusterIdx) -> (r: Self)
        ensures
            r.current_cluster == cluster,
            r.current_offset == Some(0u32),
            r.hit_end_offset is None,
    {
        DirIter { current_cluster: cluster, current_offset: Some(0), hit_end_offset: None }
    }

    /// Reads and decodes the entry at the iterator's position.
    #[verifier::rlimit(100)]
    pub(crate) fn read_raw<S: Storage>(&self, fs: &mut FatFs, s: &mut S, off: u32) -> (r: Result<
        DirEntry,
        FsError,
    >)
        requires
            old(fs).wf(),
            old(fs).consistent(old(s).disk()),
            off % 32 == 0,
            off + 32 <= old(fs).bytes_in_a_cluster_spec(),
        ensures
            final(fs).wf(),
            final(fs).consistent(final(s).disk()),
            FatFs::same_geometry(*old(fs), *final(fs)),
            final(fs).next_known_free_cluster == old(fs).next_known_free_cluster,
            final(s).disk().len() == old(s).disk().len(),
            final(fs).edisk(final(s).disk()) == old(fs).edisk(old(s).disk()),
            r matches Ok(e) ==> dir_entry_at_ok(
                *old(fs),
                old(fs).edisk(old(s).disk()),
                self.current_cluster.0,
                off,
                e,
            ),
            r is Ok ==> entry_sector_at(
                *old(fs),
                old(fs).edisk(old(s).disk()),
                self.current_cluster.0,
                off,
            ).len() == 512,
            r is Err ==> r == Err::<DirEntry, FsError>(FsError::CorruptChain) || r == Err::<
                DirEntry,
                FsError,
            >(FsError::StorageError),
    {
        let ghost edisk0 = old(fs).edisk(old(s).disk());
        let _device_sectors = s.capacity();
        proof {
            fs.cache.lemma_edisk_shape(s.disk());
        }
        let (sector, inoff) = fs.cluster_to_sector(self.current_cluster, off);
        proof {
            vstd::arithmetic::div_mod::lemma_fundamental_div_mod(off as int, 512);
            assert(off as int % 512 % 32 == off as int % 32) by (nonlinear_arith)
                requires off as int >= 0;
            assert(inoff + 32 <= 512) by (nonlinear_arith)
                requires
                    inoff == off as int % 512,
                    off as int % 512 % 32 == 0,
                    0 <= off as int % 512 < 512;
        }
        let mut buf: Vec<u8> = Vec::new();
        let mut z: usize = 0;
        while z < 32
            invariant
                buf@.len() == z,
                z <= 32,
            decreases 32 - z,
        {
            buf.push(0u8);
            z = z + 1;
        }
        match fs.read(s, sector, inoff, &mut buf) {
            Ok(()) => {},
            Err(FsError::OutOfRange) => {
                return Err(FsError::CorruptChain);
            },
            Err(_) => {
                return Err(FsError::StorageError);
            },
        }
        let mut arr: [u8; 32] = [0u8; 32];
        let mut k: usize = 0;
        while k < 32
            invariant
                k <= 32,
                buf@.len() == 32,
                forall|i: int| 0 <= i < k ==> arr@[i] == buf@[i],
            decreases 32 - k,
        {
            arr[k] = buf[k];
            k = k + 1;
        }
        let e = DirEntry::from_arr(arr);
        proof {
            let sec = fs.cluster_start_sector_spec(self.current_cluster.0) + off as int / 512;
            let io = off as int % 512;
            assert forall|i: int| 0 <= i < 32 implies arr@[i] == edisk0[sec][io + i] by {
                assert(buf@[i] == edisk_byte(edisk0, sector.0 as int, inoff as int, i));
                assert((io + i) / 512 == 0 && (io + i) % 512 == io + i);
            }
            assert(arr@.subrange(0, 8) =~= edisk0[sec].subrange(io, io + 8));
            assert(arr@.subrange(8, 11) =~= edisk0[sec].subrange(io + 8, io + 11));
            assert(dir_entry_parse_ok(edisk0[sec], io, e));
            assert((io + 31) / 512 == 0);
            assert(sec == sector.0);
            assert(0 <= sec < edisk0.len());
            assert(edisk0[sec].len() == 512);
        }
        Ok(e)
    }

    /// One step of the walk with a bounded long-filename budget.
    #[verifier::rlimit(100)]
    fn next_fuel<S: Storage>(&mut self, fs: &mut FatFs, s: &mut S, fuel: u32) -> (r: Result<
        Option<DirEntry>,
        FsError,
    >)
        requires
            old(fs).wf(),
            old(fs).consistent(old(s).disk()),
            old(self).pos_wf(*old(fs)),
        ensures
            final(fs).wf(),
            final(fs).consistent(final(s).disk()),
            FatFs::same_geometry(*old(fs), *final(fs)),
            final(fs).next_known_free_cluster == old(fs).next_known_free_cluster,
            final(s).disk().len() == old(s).disk().len(),
            final(fs).edisk(final(s).disk()) == old(fs).edisk(old(s).disk()),
            final(self).pos_wf(*final(fs)),
            old(self).current_offset is None ==> r == Ok::<Option<DirEntry>, FsError>(None)
                && *final(self) == *old(self),
            r matches Ok(Some(e)) ==> (!e.attributes.is_lfn_spec() || state_spec(e)
                == State::End),
            old(self).current_offset matches Some(off) ==> r is Ok ==> (exists|e0: DirEntry|
                #![auto]
                dir_entry_at_ok(
                    *old(fs),
                    old(fs).edisk(old(s).disk()),
                    old(self).current_cluster.0,
                    off,
                    e0,
                ) && (!e0.attributes.is_lfn_spec() ==> {
                    &&& r == Ok::<Option<DirEntry>, FsError>(Some(e0))
                    &&& (state_spec(e0) == State::End ==> final(self).current_offset is None
                        && final(self).hit_end_offset == Some(off) && final(self).current_cluster
                        == old(self).current_cluster)
                    &&& (state_spec(e0) != State::End ==> final(self).hit_end_offset == old(self).hit_end_offset && (off + 32 < old(fs).bytes_in_a_cluster_spec()
                        ==> final(self).current_offset == Some((off + 32) as u32) && final(self).current_cluster == old(self).current_cluster) && (off + 32 == old(fs).bytes_in_a_cluster_spec() ==> final(self).current_offset == Some(0u32)
                        && final(self).current_cluster.0 == old(fs).fat_entry_spec(
                        old(fs).edisk(old(s).disk()),
                        old(self).current_cluster.0,
                    )))
                })),
            r is Err ==> r == Err::<Option<DirEntry>, FsError>(FsError::CorruptChain) || r
                == Err::<Option<DirEntry>, FsError>(FsError::StorageError),
        decreases fuel,
    {
        let off = match self.current_offset {
            Some(o) => o,
            None => {
                return Ok(None);
            },
        };
        let entry = match self.read_raw(fs, s, off) {
            Ok(e) => e,
            Err(e) => {
                return Err(e);
            },
        };
        let is_end = match entry.state() {
            State::End => true,
            _ => false,
        };
        if is_end {
            self.hit_end_offset = Some(off);
            self.current_offset = None;
            return Ok(Some(entry));
        }
        let bpc = fs.bytes_in_a_cluster();
        if off + 32 < bpc {
            self.current_offset = Some(off + 32);
        } else {
            // The next entry lies in the chain's next cluster.
            let mut tracer = crate::fat::table::FatEntryTracer::starting_at(
                self.current_cluster,
            );
            let step = match tracer.next(fs, s) {
                Ok(v) => v,
                Err(e) => {
                    return Err(e);
                },
            };
            proof {
                assert(step is Some);
            }
            match tracer.current_cluster_idx {
                Some(next_cluster) => {
                    self.current_cluster = next_cluster;
                    self.current_offset = Some(0);
                },
                None => {
                    // The chain ended although the directory's entries
                    // did not.
                    return Err(FsError::CorruptChain);
                },
            }
        }
        if entry.attributes.is_lfn() {
            if fuel == 0 {
                return Err(FsError::CorruptChain);
            }
            let ghost fsm = *fs;
            let ghost diskm = s.disk();
            let r = self.next_fuel(fs, s, fuel - 1);
            proof {
                assert(fs.edisk(s.disk()) == fsm.edisk(diskm));
            }
            r
        } else {
            Ok(Some(entry))
        }
    }

    /// Yields the next logical directory entry: the entry at the current
    /// position, with long-filename fragments skipped, advancing across
    /// cluster boundaries through the FAT. The End entry is yielded once
    /// and remembered; after that the iterator yields nothing.
    pub fn next<S: Storage>(&mut self, fs: &mut FatFs, s: &mut S) -> (r: Result<
        Option<DirEntry>,
        FsError,
    >)
        requires
            old(fs).wf(),
            old(fs).consistent(old(s).disk()),
            old(self).pos_wf(*old(fs)),
        ensures
            final(fs).wf(),
            final(fs).consistent(final(s).disk()),
            FatFs::same_geometry(*old(fs), *final(fs)),
            final(fs).next_known_free_cluster == old(fs).next_known_free_cluster,
            final(s).disk().len() == old(s).disk().len(),
            final(fs).edisk(final(s).disk()) == old(fs).edisk(old(s).disk()),
            final(self).pos_wf(*final(fs)),
            old(self).current_offset is None ==> r == Ok::<Option<DirEntry>, FsError>(None)
                && *final(self) == *old(self),
            r matches Ok(Some(e)) ==> (!e.attributes.is_lfn_spec() || state_spec(e)
                == State::End),
            old(self).current_offset matches Some(off) ==> r is Ok ==> (exists|e0: DirEntry|
                #![auto]
                dir_entry_at_ok(
                    *old(fs),
                    old(fs).edisk(old(s).disk()),
                    old(self).current_cluster.0,
                    off,
                    e0,
                ) && (!e0.attributes.is_lfn_spec() ==> {
                    &&& r == Ok::<Option<DirEntry>, FsError>(Some(e0))
                    &&& (state_spec(e0) == State::End ==> final(self).current_offset is None
                        && final(self).hit_end_offset == Some(off) && final(self).current_cluster
                        == old(self).current_cluster)
                    &&& (state_spec(e0) != State::End ==> final(self).hit_end_offset == old(self).hit_end_offset && (off + 32 < old(fs).bytes_in_a_cluster_spec()
                        ==> final(self).current_offset == Some((off + 32) as u32) && final(self).current_cluster == old(self).current_cluster) && (off + 32 == old(fs).bytes_in_a_cluster_spec() ==> final(self).current_offset == Some(0u32)
                        && final(self).current_cluster.0 == old(fs).fat_entry_spec(
                        old(fs).edisk(old(s).disk()),
                        old(self).current_cluster.0,
                    )))
                })),
            r is Err ==> r == Err::<Option<DirEntry>, FsError>(FsError::CorruptChain) || r
                == Err::<Option<DirEntry>, FsError>(FsError::StorageError),
    {
        self.next_fuel(fs, s, 4096)
    }
}

/// Law: an entry appended at the directory's End position is what the
/// iterator yields when it resumes there: the 32 bytes the append laid
/// down decode to exactly one value, so whatever a later step decodes at
/// that position is the appended entry itself.
pub proof fn lemma_added_entry_reyielded(
    fs: FatFs,
    e: Seq<Seq<u8>>,
    cluster: u32,
    off: u32,
    added: DirEntry,
    seen: DirEntry,
)
    requires
        dir_entry_at_ok(fs, e, cluster, off, added),
        dir_entry_at_ok(fs, e, cluster, off, seen),
    ensures
        seen == added,
{
    lemma_dir_entry_roundtrip(
        e[fs.cluster_start_sector_spec(cluster) + off as int / 512],
        (off as int % 512),
        added,
        seen,
    );
}

/// Whether the entry's name and extension equal the given buffers and the
/// entry is live.
pub open spec fn entry_matches(e: DirEntry, name: Seq<u8>, ext: Seq<u8>) -> bool {
    &&& e.file_name.0@ == name
    &&& e.file_ext.0@ == ext
    &&& state_spec(e) == State::Exists
}

/// Compares two file names byte for byte.
pub fn file_name_eq(a: &FileName, b: &FileName) -> (r: bool)
    ensures
        r == (a.0@ == b.0@),
{
    let mut k: usize = 0;
    let mut same = true;
    while k < 8
        invariant
            k <= 8,
            same <==> (forall|i: int| 0 <= i < k ==> a.0@[i] == b.0@[i]),
        decreases 8 - k,
    {
        if a.0[k] != b.0[k] {
            same = false;
        }
        k = k + 1;
    }
    proof {
        if same {
            assert(a.0@ =~= b.0@);
        }
    }
    same
}

/// Compares two file extensions byte for byte.
pub fn file_ext_eq(a: &FileExt, b: &FileExt) -> (r: bool)
    ensures
        r == (a.0@ == b.0@),
{
    let mut k: usize = 0;
    let mut same = true;
    while k < 3
        invariant
            k <= 3,
            same <==> (forall|i: int| 0 <= i < k ==> a.0@[i] == b.0@[i]),
        decreases 3 - k,
    {
        if a.0[k] != b.0[k] {
            same = false;
        }
        k = k + 1;
    }
    proof {
        if same {
            assert(a.0@ =~= b.0@);
        }
    }
    same
}

/// The two 32-byte entries of a freshly written 64-byte block sit at the
/// block's own offset and 32 bytes later, each inside one sector.
proof fn lemma_two_entries_bytes(
    e1: Seq<Seq<u8>>,
    base: int,
    end: int,
    both: Seq<u8>,
    sector: int,
    inoff: int,
)
    requires
        0 <= end,
        end % 32 == 0,
        both.len() == 64,
        sector == base + end / 512,
        inoff == end % 512,
        forall|i: int|
            0 <= i < 64 ==> #[trigger] e1[sector + (inoff + i) / 512][(inoff + i) % 512]
                == both[i],
    ensures
        forall|i: int|
            0 <= i < 32 ==> #[trigger] e1[base + end / 512][end % 512 + i] == both[i],
        forall|i: int|
            0 <= i < 32 ==> #[trigger] e1[base + (end + 32) / 512][(end + 32) % 512 + i]
                == both[32 + i],
{
    vstd::arithmetic::div_mod::lemma_fundamental_div_mod(end, 512);
    vstd::arithmetic::div_mod::lemma_fundamental_div_mod(end + 32, 512);
    assert(end % 512 % 32 == 0) by (nonlinear_arith)
        requires end >= 0, end % 32 == 0;
    assert forall|i: int| 0 <= i < 32 implies #[trigger] e1[base + end / 512][end % 512 + i]
        == both[i] by {
        assert((inoff + i) / 512 == 0 && (inoff + i) % 512 == inoff + i);
        assert(e1[sector + (inoff + i) / 512][(inoff + i) % 512] == both[i]);
    }
    let sec2 = base + (end + 32) / 512;
    let io2 = (end + 32) % 512;
    assert forall|i: int| 0 <= i < 32 implies #[trigger] e1[sec2][io2 + i] == both[32 + i] by {
        let p = 32 + i;
        assert(e1[sector + (inoff + p) / 512][(inoff + p) % 512] == both[p]);
        assert(sec2 * 512 + io2 + i == sector * 512 + inoff + p) by (nonlinear_arith)
            requires
                sec2 == base + (end + 32) / 512,
                io2 == (end + 32) % 512,
                sector == base + end / 512,
                inoff == end % 512,
                p == 32 + i,
                end + 32 == 512 * ((end + 32) / 512) + (end + 32) % 512,
                end == 512 * (end / 512) + end % 512;
        assert(sec2 + (io2 + i) / 512 == sector + (inoff + p) / 512 && (io2 + i) % 512 == (inoff
            + p) % 512) by {
            assert((io2 + i) / 512 == 0 && (io2 + i) % 512 == io2 + i);
            if inoff + p < 512 {
                vstd::arithmetic::div_mod::lemma_fundamental_div_mod_converse(
                    sector * 512 + inoff + p,
                    512,
                    sector,
                    inoff + p,
                );
                vstd::arithmetic::div_mod::lemma_fundamental_div_mod_converse(
                    sec2 * 512 + io2 + i,
                    512,
                    sec2,
                    io2 + i,
                );
            } else {
                vstd::arithmetic::div_mod::lemma_fundamental_div_mod_converse(
                    sector * 512 + inoff + p,
                    512,
                    sector + 1,
                    inoff + p - 512,
                );
                vstd::arithmetic::div_mod::lemma_fundamental_div_mod_converse(
                    sec2 * 512 + io2 + i,
                    512,
                    sec2,
                    io2 + i,
                );
            }
        }
    }
}

/// Thirty-two bytes placed at offset `io` of a sector decode to the same
/// entry they decoded to at the start of their own buffer.
proof fn lemma_entry_landed(sec: Seq<u8>, io: int, bytes: Seq<u8>, entry: DirEntry)
    requires
        0 <= io,
        io + 32 <= sec.len(),
        bytes.len() >= 32,
        forall|i: int| 0 <= i < 32 ==> #[trigger] sec[io + i] == bytes[i],
        dir_entry_parse_ok(bytes, 0, entry),
    ensures
        dir_entry_parse_ok(sec, io, entry),
{
    assert forall|m: int| 0 <= m < 8 implies sec.subrange(io, io + 8)[m] == bytes.subrange(
        0,
        8,
    )[m] by {
        assert(sec[io + m] == bytes[m]);
    }
    assert(sec.subrange(io, io + 8) =~= bytes.subrange(0, 8));
    assert forall|m: int| 0 <= m < 3 implies sec.subrange(io + 8, io + 11)[m] == bytes.subrange(
        8,
        11,
    )[m] by {
        let i = 8 + m;
        assert(sec[io + i] == bytes[i]);
        assert(sec.subrange(io + 8, io + 11)[m] == sec[io + i]);
        assert(bytes.subrange(8, 11)[m] == bytes[i]);
    }
    assert(sec.subrange(io + 8, io + 11) =~= bytes.subrange(8, 11));
    assert(sec[io + 11] == bytes[11]);
    assert(sec[io + 12] == bytes[12]);
    assert(sec[io + 13] == bytes[13]);
    assert(sec[io + 14] == bytes[14] && sec[io + 15] == bytes[15]);
    assert(sec[io + 16] == bytes[16] && sec[io + 17] == bytes[17]);
    assert(sec[io + 18] == bytes[18] && sec[io + 19] == bytes[19]);
    assert(sec[io + 20] == bytes[20] && sec[io + 21] == bytes[21]);
    assert(sec[io + 22] == bytes[22] && sec[io + 23] == bytes[23]);
    assert(sec[io + 24] == bytes[24] && sec[io + 25] == bytes[25]);
    assert(sec[io + 26] == bytes[26] && sec[io + 27] == bytes[27]);
    assert(sec[io + 28] == bytes[28] && sec[io + 29] == bytes[29]);
    assert(sec[io + 30] == bytes[30] && sec[io + 31] == bytes[31]);
}

impl DirIter {
    /// Whether the remembered End position is a valid entry position.
    pub open spec fn end_wf(self, fs: FatFs) -> bool {
        self.hit_end_offset matches Some(o) ==> o % 32 == 0 && o + 32
            <= fs.bytes_in_a_cluster_spec()
    }

    /// Appends `entry` at the directory's End position and writes a fresh
    /// End terminator after it; the iterator resumes at the added entry.
    /// Only valid once iteration has yielded the End entry; a directory
    /// whose last cluster has no room for both entries is refused.
    #[verifier::rlimit(100)]
    #[verifier::spinoff_prover]
    pub fn add_entry<S: Storage>(&mut self, fs: &mut FatFs, s: &mut S, entry: DirEntry) -> (r:
        Result<(), FsError>)
        requires
            old(fs).wf(),
            old(fs).consistent(old(s).disk()),
            old(self).end_wf(*old(fs)),
        ensures
            final(fs).wf(),
            final(fs).consistent(final(s).disk()),
            FatFs::same_geometry(*old(fs), *final(fs)),
            final(s).disk().len() == old(s).disk().len(),
            old(self).hit_end_offset is None ==> r == Err::<(), FsError>(FsError::AddWithoutEnd)
                && *final(self) == *old(self) && *final(fs) == *old(fs) && final(s).disk() == old(
                s,
            ).disk(),
            // In every successful case the iterator resumes at the added
            // entry, which sits decoded at the End position it replaced.
            old(self).hit_end_offset matches Some(end) ==> r is Ok ==> {
                let e1 = final(fs).edisk(final(s).disk());
                &&& dir_entry_at_ok(*final(fs), e1, old(self).current_cluster.0, end, entry)
                &&& final(self).current_offset == Some(end)
                &&& final(self).hit_end_offset is None
                &&& final(self).current_cluster == old(self).current_cluster
            },
            // When both fresh entries fit in the current cluster, the new
            // End terminator follows the added entry and nothing outside
            // the two entries changes.
            old(self).hit_end_offset matches Some(end) ==> r is Ok ==> (end + 64
                <= old(fs).bytes_in_a_cluster_spec() ==> {
                let e0 = old(fs).edisk(old(s).disk());
                let e1 = final(fs).edisk(final(s).disk());
                let base = old(fs).cluster_start_sector_spec(old(self).current_cluster.0);
                &&& (exists|t: DirEntry|
                    #![auto]
                    dir_entry_at_ok(
                        *final(fs),
                        e1,
                        old(self).current_cluster.0,
                        (end + 32) as u32,
                    t) && state_spec(t) == State::End)
                &&& e1.len() == e0.len()
                &&& (forall|j: int, k: int|
                    #![trigger e1[j][k]]
                    0 <= j < e0.len() && 0 <= k < 512 && !range_covers(base, end as int, 64, j, k)
                        ==> e1[j][k] == e0[j][k])
            }),
            // A full disk is reported only when no FAT entry is free.
            r == Err::<(), FsError>(FsError::DiskFull) ==> (forall|k: u32|
                k < old(fs).num_clusters_spec() ==> #[trigger] old(fs).fat_entry_spec(
                    old(fs).edisk(old(s).disk()),
                    k,
                ) != FatFs::free_entry()),
            r is Err ==> r == Err::<(), FsError>(FsError::AddWithoutEnd) || r == Err::<
                (),
                FsError,
            >(FsError::OutOfRange) || r == Err::<(), FsError>(FsError::CorruptChain) || r
                == Err::<(), FsError>(FsError::StorageError) || r == Err::<(), FsError>(
                FsError::DiskFull,
            ),
    {
        let bytes_in_a_cluster = fs.bytes_in_a_cluster();
        let end = match self.hit_end_offset {
            Some(e) => e,
            None => {
                return Err(FsError::AddWithoutEnd);
            },
        };
        if end + 64 > bytes_in_a_cluster {
            // The added entry still fits where the End entry sat, but the
            // fresh terminator needs the chain's next cluster; grow the
            // chain first when the walk ended at the current cluster.
            let _device_sectors = s.capacity();
            proof {
                fs.cache.lemma_edisk_shape(s.disk());
            }
            let num_clusters: u64 = (fs.fat_table_size_in_sectors as u64) * 128;
            if (self.current_cluster.inner() as u64) >= num_clusters {
                return Err(FsError::CorruptChain);
            }
            let v = match fs.read_fat_entry(s, self.current_cluster) {
                Ok(v) => v,
                Err(_) => {
                    return Err(FsError::StorageError);
                },
            };
            let next_cluster = if v >= 0x0FFF_FFF8 {
                let mut tracer = crate::fat::table::FatEntryTracer {
                    current_cluster_idx: None,
                    hit_end: Some(self.current_cluster),
                };
                let ghost fsg = *fs;
                let ghost e0g = fs.edisk(s.disk());
                match tracer.grow_file(fs, s) {
                    Ok(()) => {},
                    Err(e) => {
                        proof {
                            if e == FsError::DiskFull {
                                assert forall|k: u32|
                                    k < old(fs).num_clusters_spec() implies #[trigger] old(
                                    fs,
                                ).fat_entry_spec(
                                    old(fs).edisk(old(s).disk()),
                                    k,
                                ) != FatFs::free_entry() by {
                                    FatFs::lemma_fat_entry_same_geom(
                                        fsg,
                                        *old(fs),
                                        e0g,
                                        k,
                                    );
                                }
                            }
                        }
                        return Err(match e {
                            FsError::DiskFull => FsError::DiskFull,
                            FsError::CorruptChain => FsError::CorruptChain,
                            _ => FsError::StorageError,
                        });
                    },
                }
                match tracer.current_cluster_idx {
                    Some(c) => c,
                    None => {
                        return Err(FsError::CorruptChain);
                    },
                }
            } else if v < 2 {
                // A chain running into a reserved cluster is corrupt.
                return Err(FsError::CorruptChain);
            } else {
                ClusterIdx::new(v)
            };
            // Fresh End terminator at the start of the next cluster,
            // then the entry itself where the old End entry sat.
            let terminator = DirEntry::empty();
            let mut tbuf: [u8; 32] = [0u8; 32];
            terminator.into_arr(&mut tbuf);
            let mut tvec: Vec<u8> = Vec::new();
            let mut tk: usize = 0;
            while tk < 32
                invariant
                    tk <= 32,
                    tvec@.len() == tk,
                decreases 32 - tk,
            {
                tvec.push(tbuf[tk]);
                tk = tk + 1;
            }
            let (tsec, tio) = fs.cluster_to_sector(next_cluster, 0);
            match fs.write_iter(s, tsec, tio, tvec.as_slice()) {
                Ok(()) => {},
                Err(FsError::OutOfRange) => {
                    return Err(FsError::CorruptChain);
                },
                Err(_) => {
                    return Err(FsError::StorageError);
                },
            }
            let mut ebuf: [u8; 32] = [0u8; 32];
            entry.into_arr(&mut ebuf);
            let mut evec: Vec<u8> = Vec::new();
            let mut ek: usize = 0;
            while ek < 32
                invariant
                    ek <= 32,
                    evec@.len() == ek,
                    forall|i: int| 0 <= i < ek ==> evec@[i] == ebuf@[i],
                    dir_entry_parse_ok(ebuf@, 0, entry),
                decreases 32 - ek,
            {
                evec.push(ebuf[ek]);
                ek = ek + 1;
            }
            let (esec, eio) = fs.cluster_to_sector(self.current_cluster, end);
            proof {
                vstd::arithmetic::div_mod::lemma_fundamental_div_mod(end as int, 512);
                assert(end as int % 512 % 32 == end as int % 32) by (nonlinear_arith)
                    requires end as int >= 0;
                assert(eio + 32 <= 512) by (nonlinear_arith)
                    requires
                        eio == end as int % 512,
                        end as int % 512 % 32 == 0,
                        0 <= end as int % 512 < 512;
            }
            match fs.write_iter(s, esec, eio, evec.as_slice()) {
                Ok(()) => {},
                Err(FsError::OutOfRange) => {
                    return Err(FsError::CorruptChain);
                },
                Err(_) => {
                    return Err(FsError::StorageError);
                },
            }
            self.current_offset = Some(end);
            self.hit_end_offset = None;
            let _sectors_now = s.capacity();
            proof {
                fs.cache.lemma_edisk_shape(s.disk());
                let e1 = fs.edisk(s.disk());
                let base = fs.cluster_start_sector_spec(self.current_cluster.0);
                let sec1 = base + end as int / 512;
                let io1 = end as int % 512;
                assert(sec1 == esec.0 as int && io1 == eio as int);
                assert(0 <= sec1 < e1.len());
                assert(e1[sec1].len() == 512);
                assert(evec@ =~= ebuf@);
                assert forall|i: int| 0 <= i < 32 implies #[trigger] e1[sec1][io1 + i]
                    == ebuf@[i] by {
                    crate::fat::lemma_byte_of_range(esec.0 as int, eio as int, evec@, i);
                    assert((io1 + i) / 512 == 0 && (io1 + i) % 512 == io1 + i);
                }
                lemma_entry_landed(e1[sec1], io1, ebuf@, entry);
            }
            return Ok(());
        }
        let ghost e0 = old(fs).edisk(old(s).disk());
        let _device_sectors = s.capacity();
        proof {
            fs.cache.lemma_edisk_shape(s.disk());
        }
        let mut buf: [u8; 32] = [0u8; 32];
        entry.into_arr(&mut buf);
        let mut both: Vec<u8> = Vec::new();
        let mut k: usize = 0;
        while k < 32
            invariant
                k <= 32,
                both@.len() == k,
                forall|i: int| 0 <= i < k ==> both@[i] == buf@[i],
                dir_entry_parse_ok(buf@, 0, entry),
            decreases 32 - k,
        {
            both.push(buf[k]);
            k = k + 1;
        }
        let terminator = DirEntry::empty();
        let mut tbuf: [u8; 32] = [0u8; 32];
        terminator.into_arr(&mut tbuf);
        let mut k2: usize = 0;
        while k2 < 32
            invariant
                k2 <= 32,
                both@.len() == 32 + k2,
                forall|i: int| 0 <= i < 32 ==> both@[i] == buf@[i],
                forall|i: int| 0 <= i < k2 ==> both@[32 + i] == tbuf@[i],
                dir_entry_parse_ok(buf@, 0, entry),
                dir_entry_parse_ok(tbuf@, 0, terminator),
                state_spec(terminator) == State::End,
            decreases 32 - k2,
        {
            both.push(tbuf[k2]);
            k2 = k2 + 1;
        }
        let (sector, inoff) = fs.cluster_to_sector(self.current_cluster, end);
        proof {
            vstd::arithmetic::div_mod::lemma_fundamental_div_mod(end as int, 512);
            assert(end as int % 512 % 32 == end as int % 32) by (nonlinear_arith)
                requires end as int >= 0;
            assert(inoff + 64 <= 512 || inoff + 32 <= 512) by (nonlinear_arith)
                requires
                    inoff == end as int % 512,
                    end as int % 512 % 32 == 0,
                    0 <= end as int % 512 < 512;
        }
        match fs.write_iter(s, sector, inoff, both.as_slice()) {
            Ok(()) => {},
            Err(FsError::OutOfRange) => {
                return Err(FsError::CorruptChain);
            },
            Err(_) => {
                return Err(FsError::StorageError);
            },
        }
        self.current_offset = Some(end);
        self.hit_end_offset = None;
        proof {
            let e1 = fs.edisk(s.disk());
            let base = fs.cluster_start_sector_spec(self.current_cluster.0);
            let sec1 = base + end as int / 512;
            let io1 = end as int % 512;
            let sec2 = base + (end + 32) as int / 512;
            let io2 = (end + 32) as int % 512;
            assert forall|i: int| 0 <= i < 64 implies #[trigger] e1[sector.0 as int + (
            inoff as int + i) / 512][(inoff as int + i) % 512] == both@[i] by {
                crate::fat::lemma_byte_of_range(sector.0 as int, inoff as int, both@, i);
            }
            lemma_two_entries_bytes(e1, base, end as int, both@, sector.0 as int, inoff as int);
            assert forall|i: int| 0 <= i < 32 implies #[trigger] e1[sec1][io1 + i]
                == buf@[i] by {
                assert(e1[base + end as int / 512][end as int % 512 + i] == both@[i]);
            }
            lemma_entry_landed(e1[sec1], io1, buf@, entry);
            assert forall|i: int| 0 <= i < 32 implies #[trigger] e1[sec2][io2 + i]
                == tbuf@[i] by {
                assert(e1[base + (end + 32) as int / 512][(end + 32) as int % 512 + i] == both@[
                    32 + i]);
            }
            lemma_entry_landed(e1[sec2], io2, tbuf@, terminator);
            assert(dir_entry_at_ok(*fs, e1, self.current_cluster.0, (end + 32) as u32,
                terminator));
            // Bytes outside the two fresh entries are untouched.
            assert forall|j: int, k3: int|
                #![trigger e1[j][k3]]
                0 <= j < e0.len() && 0 <= k3 < 512 && !range_covers(base, end as int, 64, j, k3)
                implies e1[j][k3] == e0[j][k3] by {
                vstd::arithmetic::div_mod::lemma_fundamental_div_mod(end as int, 512);
                assert(sector.0 as int * 512 + inoff as int == base * 512 + end as int)
                    by (nonlinear_arith)
                    requires
                        sector.0 as int == base + end as int / 512,
                        inoff as int == end as int % 512,
                        end as int == 512 * (end as int / 512) + end as int % 512;
                assert(!range_covers(sector.0 as int, inoff as int, 64, j, k3));
            }
        }
        Ok(())
    }
}

impl DirIter {
    /// Scans the directory for the live entry with `target`'s name and
    /// extension and marks it deleted by overwriting the first byte of
    /// its name with `0xE5`. The entry's clusters and file size are not
    /// reclaimed. Fails with `NotFound` when the directory's End comes
    /// first.
    #[verifier::rlimit(100)]
    pub fn delete<S: Storage>(&mut self, fs: &mut FatFs, s: &mut S, target: &DirEntry) -> (r:
        Result<(), FsError>)
        requires
            old(fs).wf(),
            old(fs).consistent(old(s).disk()),
            old(self).pos_wf(*old(fs)),
        ensures
            final(fs).wf(),
            final(fs).consistent(final(s).disk()),
            FatFs::same_geometry(*old(fs), *final(fs)),
            final(fs).next_known_free_cluster == old(fs).next_known_free_cluster,
            final(s).disk().len() == old(s).disk().len(),
            r is Ok ==> (exists|cl: u32, off: u32, found: DirEntry|
                #![trigger dir_entry_at_ok(
                    *old(fs),
                    old(fs).edisk(old(s).disk()),
                    cl,
                    off,
                    found,
                )]
                {
                    let e0 = old(fs).edisk(old(s).disk());
                    let e1 = final(fs).edisk(final(s).disk());
                    let base = old(fs).cluster_start_sector_spec(cl);
                    &&& dir_entry_at_ok(*old(fs), e0, cl, off, found)
                    &&& entry_matches(found, target.file_name.0@, target.file_ext.0@)
                    &&& e1.len() == e0.len()
                    &&& e1[base + off as int / 512][off as int % 512] == 0xE5
                    &&& (forall|j: int, k: int|
                        #![trigger e1[j][k]]
                        0 <= j < e0.len() && 0 <= k < 512 && !(j == base + off as int / 512 && k
                            == off as int % 512) ==> e1[j][k] == e0[j][k])
                }),
            // A miss is reported only when the scan from the iterator's
            // position reaches the End entry without a live match.
            old(self).current_offset matches Some(o0) ==> (r == Err::<(), FsError>(
                FsError::NotFound,
            ) ==> dir_search_spec(
                *old(fs),
                old(fs).edisk(old(s).disk()),
                old(self).current_cluster.0,
                o0,
                target.file_name.0@,
                target.file_ext.0@,
                0x1_0000nat,
            ) == Some(SearchOutcome::Miss)),
            r is Err ==> r == Err::<(), FsError>(FsError::NotFound) || r == Err::<(), FsError>(
                FsError::CorruptChain,
            ) || r == Err::<(), FsError>(FsError::StorageError),
    {
        let ghost e0 = old(fs).edisk(old(s).disk());
        let bpc = fs.bytes_in_a_cluster();
        let mut budget: u32 = 0x1_0000;
        while budget > 0
            invariant
                fs.wf(),
                fs.consistent(s.disk()),
                FatFs::same_geometry(*old(fs), *fs),
                fs.next_known_free_cluster == old(fs).next_known_free_cluster,
                s.disk().len() == old(s).disk().len(),
                fs.edisk(s.disk()) == e0,
                e0 == old(fs).edisk(old(s).disk()),
                self.pos_wf(*fs),
                bpc == fs.bytes_in_a_cluster_spec(),
                budget <= 0x1_0000,
                old(self).current_offset matches Some(o0) ==> (self.current_offset matches Some(
                    o,
                ) && dir_search_spec(
                    *old(fs),
                    e0,
                    old(self).current_cluster.0,
                    o0,
                    target.file_name.0@,
                    target.file_ext.0@,
                    0x1_0000nat,
                ) == dir_search_spec(
                    *old(fs),
                    e0,
                    self.current_cluster.0,
                    o,
                    target.file_name.0@,
                    target.file_ext.0@,
                    budget as nat,
                )),
            decreases budget,
        {
            let off = match self.current_offset {
                Some(o) => o,
                None => {
                    return Err(FsError::NotFound);
                },
            };
            let cl = self.current_cluster;
            let entry = match self.read_raw(fs, s, off) {
                Ok(e) => e,
                Err(e) => {
                    return Err(e);
                },
            };
            proof {
                assert(old(fs).cluster_start_sector_spec(cl.0)
                    == fs.cluster_start_sector_spec(cl.0));
                assert(dir_entry_at_ok(*old(fs), e0, cl.0, off, entry));
                assert(off as int % 512 % 32 == off as int % 32) by (nonlinear_arith)
                    requires off as int >= 0;
                lemma_entry_class(
                    *old(fs),
                    e0,
                    cl.0,
                    off,
                    entry,
                    target.file_name.0@,
                    target.file_ext.0@,
                );
            }
            let is_end = match entry.state() {
                State::End => true,
                _ => false,
            };
            if is_end {
                self.hit_end_offset = Some(off);
                self.current_offset = None;
                return Err(FsError::NotFound);
            }
            let is_live = match entry.state() {
                State::Exists => true,
                _ => false,
            };
            if is_live && !entry.attributes.is_lfn() && file_name_eq(
                &entry.file_name,
                &target.file_name,
            ) && file_ext_eq(&entry.file_ext, &target.file_ext) {
                // Stamp the first name byte with the deletion marker.
                let (sector, inoff) = fs.cluster_to_sector(cl, off);
                let mut stamp: Vec<u8> = Vec::new();
                stamp.push(0xE5);
                match fs.write_iter(s, sector, inoff, stamp.as_slice()) {
                    Ok(()) => {},
                    Err(FsError::OutOfRange) => {
                        return Err(FsError::CorruptChain);
                    },
                    Err(_) => {
                        return Err(FsError::StorageError);
                    },
                }
                proof {
                    let e1 = fs.edisk(s.disk());
                    let base = fs.cluster_start_sector_spec(cl.0);
                    assert(old(fs).cluster_start_sector_spec(cl.0) == base);
                    assert(dir_entry_at_ok(*old(fs), e0, cl.0, off, entry));
                    vstd::arithmetic::div_mod::lemma_fundamental_div_mod(off as int, 512);
                    crate::fat::lemma_byte_of_range(sector.0 as int, inoff as int, stamp@, 0);
                    assert(e1[base + off as int / 512][off as int % 512] == 0xE5);
                    assert forall|j: int, k: int|
                        #![trigger e1[j][k]]
                        0 <= j < e0.len() && 0 <= k < 512 && !(j == base + off as int / 512 && k
                            == off as int % 512) implies e1[j][k] == e0[j][k] by {
                        assert(sector.0 as int * 512 + inoff as int == base * 512
                            + off as int) by (nonlinear_arith)
                            requires
                                sector.0 as int == base + off as int / 512,
                                inoff as int == off as int % 512,
                                off as int == 512 * (off as int / 512) + off as int % 512;
                        if range_covers(sector.0 as int, inoff as int, 1, j, k) {
                            crate::fat::lemma_walk_pos(sector.0 as int, inoff as int, 0, j, k);
                        }
                    }
                    assert(entry_matches(entry, target.file_name.0@, target.file_ext.0@));
                    assert(dir_entry_at_ok(
                        *old(fs),
                        old(fs).edisk(old(s).disk()),
                        cl.0,
                        off,
                        entry,
                    ));
                }
                return Ok(());
            }
            // Advance to the next raw entry.
            if off + 32 < bpc {
                self.current_offset = Some(off + 32);
            } else {
                let ghost fst = *fs;
                let mut tracer = crate::fat::table::FatEntryTracer::starting_at(cl);
                match tracer.next(fs, s) {
                    Ok(_) => {},
                    Err(e) => {
                        return Err(e);
                    },
                }
                match tracer.current_cluster_idx {
                    Some(next_cluster) => {
                        proof {
                            FatFs::lemma_fat_entry_same_geom(fst, *old(fs), e0, cl.0);
                        }
                        self.current_cluster = next_cluster;
                        self.current_offset = Some(0);
                    },
                    None => {
                        return Err(FsError::CorruptChain);
                    },
                }
            }
            proof {
                if let Some(o) = self.current_offset {
                    assert(dir_step_spec(*old(fs), e0, cl.0, off) == Some((
                        self.current_cluster.0,
                        o,
                    )));
                }
            }
            budget = budget - 1;
        }
        Err(FsError::CorruptChain)
    }
}

/// A directory entry known to carry the Archive attribute: a plain file.
impl DirEntry {
    /// An iterator over this entry's directory; `None` exactly when the
    /// entry is not a directory.
    pub fn into_dir_iter(&self) -> (r: Option<DirIter>)
        ensures
            r is Some <==> self.attributes.is_dir_spec(),
            r matches Some(it) ==> it.current_cluster.0 == cluster_of_halves(
                self.cluster_num_upper,
                self.cluster_num_lower,
            ) && it.current_offset == Some(0u32) && it.hit_end_offset is None,
    {
        if self.attributes.is_dir() {
            Some(DirIter::from_cluster(self.cluster_idx()))
        } else {
            None
        }
    }

    /// Wraps the entry as a file; gives the entry back unchanged exactly
    /// when it is not a plain file.
    pub fn into_file(self) -> (r: Result<crate::fat::file::File, DirEntry>)
        ensures
            self.attributes.is_file_spec() ==> (r matches Ok(f) && f.inner == self),
            !self.attributes.is_file_spec() ==> r == Err::<crate::fat::file::File, DirEntry>(
                self,
            ),
    {
        if self.attributes.is_file() {
            Ok(crate::fat::file::File::new(self))
        } else {
            Err(self)
        }
    }
}

/// Whether a raw directory walk can take one step at `(cluster, off)`:
/// the next entry position, following the FAT chain at a cluster's end.
pub open spec fn dir_step_spec(fs: FatFs, e: Seq<Seq<u8>>, cluster: u32, off: u32) -> Option<
    (u32, u32),
> {
    if off + 32 < fs.bytes_in_a_cluster_spec() {
        Some((cluster, (off + 32) as u32))
    } else {
        let v = fs.fat_entry_spec(e, cluster);
        if cluster < fs.num_clusters_spec() && v < FatFs::end_of_chain_entry() {
            Some((v, 0u32))
        } else {
            None
        }
    }
}

/// The raw 32-byte entries of a directory, walked from byte `off` of
/// `cluster` up to (and excluding) its End entry, following the FAT
/// chain; `None` when no End entry is reached within `fuel` entries or
/// the chain gives out first.
pub open spec fn dir_raw_entries_spec(
    fs: FatFs,
    e: Seq<Seq<u8>>,
    cluster: u32,
    off: u32,
    fuel: nat,
) -> Option<Seq<DirEntry>>
    decreases fuel,
{
    if fuel == 0 {
        None
    } else {
        let entry = choose|en: DirEntry| dir_entry_at_ok(fs, e, cluster, off, en);
        if state_spec(entry) == State::End {
            Some(Seq::empty())
        } else {
            match dir_step_spec(fs, e, cluster, off) {
                Some((ncl, noff)) => match dir_raw_entries_spec(
                    fs,
                    e,
                    ncl,
                    noff,
                    (fuel - 1) as nat,
                ) {
                    Some(rest) => Some(seq![entry].add(rest)),
                    None => None,
                },
                None => None,
            }
        }
    }
}

/// The live, non-fragment entries of a raw entry run, in order.
pub open spec fn live_entries(raw: Seq<DirEntry>) -> Seq<DirEntry> {
    raw.filter(
        |en: DirEntry| state_spec(en) == State::Exists && !en.attributes.is_lfn_spec(),
    )
}

/// Filtering a run of entries extended by one keeps the filtered run,
/// with the fresh entry appended exactly when it is live.
pub proof fn lemma_live_push(raw: Seq<DirEntry>, en: DirEntry)
    ensures
        live_entries(raw.push(en)) == (if state_spec(en) == State::Exists
            && !en.attributes.is_lfn_spec() {
            live_entries(raw).push(en)
        } else {
            live_entries(raw)
        }),
{
    reveal(Seq::filter);
    assert(raw.push(en).drop_last() =~= raw);
    assert(raw.push(en).last() == en);
}

/// Unfolds one step of the raw directory walk at a non-End entry.
pub proof fn lemma_dir_raw_step(
    fs: FatFs,
    e: Seq<Seq<u8>>,
    cluster: u32,
    off: u32,
    fuel: nat,
    en: DirEntry,
    rest: Seq<DirEntry>,
    ncl: u32,
    noff: u32,
)
    requires
        fuel > 0,
        dir_entry_at_ok(fs, e, cluster, off, en),
        state_spec(en) != State::End,
        dir_step_spec(fs, e, cluster, off) == Some((ncl, noff)),
        dir_raw_entries_spec(fs, e, ncl, noff, (fuel - 1) as nat) == Some(rest),
    ensures
        dir_raw_entries_spec(fs, e, cluster, off, fuel) == Some(seq![en].add(rest)),
{
    let picked = choose|x: DirEntry| dir_entry_at_ok(fs, e, cluster, off, x);
    assert(dir_entry_at_ok(fs, e, cluster, off, picked));
    lemma_dir_entry_roundtrip(
        e[fs.cluster_start_sector_spec(cluster) + off as int / 512],
        (off as int % 512),
        picked,
        en,
    );
}

/// Unfolds the raw directory walk at its End entry.
pub proof fn lemma_dir_raw_end(
    fs: FatFs,
    e: Seq<Seq<u8>>,
    cluster: u32,
    off: u32,
    fuel: nat,
    en: DirEntry,
)
    requires
        fuel > 0,
        dir_entry_at_ok(fs, e, cluster, off, en),
        state_spec(en) == State::End,
    ensures
        dir_raw_entries_spec(fs, e, cluster, off, fuel) == Some(Seq::<DirEntry>::empty()),
{
    let picked = choose|x: DirEntry| dir_entry_at_ok(fs, e, cluster, off, x);
    assert(dir_entry_at_ok(fs, e, cluster, off, picked));
    lemma_dir_entry_roundtrip(
        e[fs.cluster_start_sector_spec(cluster) + off as int / 512],
        (off as int % 512),
        picked,
        en,
    );
}


/// The sector bytes holding the entry at byte `off` of `cluster`'s data.
pub open spec fn entry_sector_at(fs: FatFs, e: Seq<Seq<u8>>, cluster: u32, off: u32) -> Seq<u8> {
    e[fs.cluster_start_sector_spec(cluster) + off as int / 512]
}

/// Whether the entry at byte `off` of `cluster` is the directory's End
/// entry: its first name byte is zero.
pub open spec fn entry_end_at(fs: FatFs, e: Seq<Seq<u8>>, cluster: u32, off: u32) -> bool {
    entry_sector_at(fs, e, cluster, off)[off as int % 512] == 0
}

/// Whether the entry at byte `off` of `cluster` is live, no long-filename
/// fragment, and carries exactly `name` and `ext`.
pub open spec fn entry_live_match_at(
    fs: FatFs,
    e: Seq<Seq<u8>>,
    cluster: u32,
    off: u32,
    name: Seq<u8>,
    ext: Seq<u8>,
) -> bool {
    let sec = entry_sector_at(fs, e, cluster, off);
    let io = off as int % 512;
    &&& sec[io] != 0
    &&& sec[io] != 0xE5
    &&& sec[io + 11] != LFN_ATTRIBUTES
    &&& sec.subrange(io, io + 8) == name
    &&& sec.subrange(io + 8, io + 11) == ext
}

/// Whether the Directory attribute bit of the entry at byte `off` of
/// `cluster` is set.
pub open spec fn entry_is_dir_at(fs: FatFs, e: Seq<Seq<u8>>, cluster: u32, off: u32) -> bool {
    entry_sector_at(fs, e, cluster, off)[off as int % 512 + 11] & 0x10 != 0
}

/// Whether the Archive attribute bit of the entry at byte `off` of
/// `cluster` is set, marking a plain file.
pub open spec fn entry_is_file_at(fs: FatFs, e: Seq<Seq<u8>>, cluster: u32, off: u32) -> bool {
    entry_sector_at(fs, e, cluster, off)[off as int % 512 + 11] & 0x20 != 0
}

/// The starting cluster stored in the entry at byte `off` of `cluster`,
/// joined from its two on-disk halves.
pub open spec fn entry_cluster_at(fs: FatFs, e: Seq<Seq<u8>>, cluster: u32, off: u32) -> u32 {
    let sec = entry_sector_at(fs, e, cluster, off);
    let io = off as int % 512;
    cluster_of_halves(
        crate::codec::u16_le_at_spec(sec, io + 20),
        crate::codec::u16_le_at_spec(sec, io + 26),
    )
}

/// How a directory search for one 8.3 name ends: at the first matching
/// live entry's position, or at the directory's End entry.
#[derive(PartialEq, Eq, Structural)]
pub enum SearchOutcome {
    /// The cluster and in-cluster byte offset of the first match.
    Hit(u32, u32),
    /// The End entry came first: no live entry matches.
    Miss,
}

/// The outcome of scanning the directory from byte `off` of `cluster`
/// for a live, non-fragment entry named `name` with extension `ext`:
/// the first match's position, a miss at the End entry, or `None` when
/// the chain gives out or `fuel` runs dry first.
pub open spec fn dir_search_spec(
    fs: FatFs,
    e: Seq<Seq<u8>>,
    cluster: u32,
    off: u32,
    name: Seq<u8>,
    ext: Seq<u8>,
    fuel: nat,
) -> Option<SearchOutcome>
    decreases fuel,
{
    if fuel == 0 {
        None
    } else if entry_end_at(fs, e, cluster, off) {
        Some(SearchOutcome::Miss)
    } else if entry_live_match_at(fs, e, cluster, off, name, ext) {
        Some(SearchOutcome::Hit(cluster, off))
    } else {
        match dir_step_spec(fs, e, cluster, off) {
            Some((ncl, noff)) => dir_search_spec(fs, e, ncl, noff, name, ext, (fuel - 1) as nat),
            None => None,
        }
    }
}

/// An entry decoded from a directory position classifies that position:
/// its state, attributes, name and starting cluster are the bytes there.
pub proof fn lemma_entry_class(
    fs: FatFs,
    e: Seq<Seq<u8>>,
    cluster: u32,
    off: u32,
    en: DirEntry,
    name: Seq<u8>,
    ext: Seq<u8>,
)
    requires
        dir_entry_at_ok(fs, e, cluster, off, en),
        entry_sector_at(fs, e, cluster, off).len() == 512,
        off % 32 == 0,
        off as int % 512 + 32 <= 512,
    ensures
        entry_end_at(fs, e, cluster, off) == (state_spec(en) == State::End),
        entry_live_match_at(fs, e, cluster, off, name, ext) == (state_spec(en) == State::Exists
            && !en.attributes.is_lfn_spec() && en.file_name.0@ == name && en.file_ext.0@ == ext),
        entry_is_dir_at(fs, e, cluster, off) == en.attributes.is_dir_spec(),
        entry_is_file_at(fs, e, cluster, off) == en.attributes.is_file_spec(),
        entry_cluster_at(fs, e, cluster, off) == cluster_of_halves(
            en.cluster_num_upper,
            en.cluster_num_lower,
        ),
{
    let sec = entry_sector_at(fs, e, cluster, off);
    let io = off as int % 512;
    assert(en.file_name.0@[0] == sec.subrange(io, io + 8)[0]);
    assert(sec.subrange(io, io + 8)[0] == sec[io]);
    assert(en.file_name.0@ == name ==> sec.subrange(io, io + 8) == name);
    assert(en.file_ext.0@ == ext ==> sec.subrange(io + 8, io + 11) == ext);
}

/// Volumes with the same geometry search a directory identically.
pub proof fn lemma_dir_search_same_geom(
    a: FatFs,
    b: FatFs,
    e: Seq<Seq<u8>>,
    cluster: u32,
    off: u32,
    name: Seq<u8>,
    ext: Seq<u8>,
    fuel: nat,
)
    requires
        FatFs::same_geometry(a, b),
    ensures
        dir_search_spec(a, e, cluster, off, name, ext, fuel) == dir_search_spec(
            b,
            e,
            cluster,
            off,
            name,
            ext,
            fuel,
        ),
    decreases fuel,
{
    if fuel > 0 {
        assert(a.cluster_start_sector_spec(cluster) == b.cluster_start_sector_spec(cluster));
        assert(a.fat_entry_spec(e, cluster) == b.fat_entry_spec(e, cluster));
        assert(a.num_clusters_spec() == b.num_clusters_spec());
        assert(a.bytes_in_a_cluster_spec() == b.bytes_in_a_cluster_spec());
        if !entry_end_at(a, e, cluster, off) && !entry_live_match_at(
            a,
            e,
            cluster,
            off,
            name,
            ext,
        ) {
            match dir_step_spec(a, e, cluster, off) {
                Some((ncl, noff)) => {
                    assert(dir_step_spec(b, e, cluster, off) == Some((ncl, noff)));
                    lemma_dir_search_same_geom(a, b, e, ncl, noff, name, ext, (fuel - 1) as nat);
                },
                None => {
                    assert(dir_step_spec(b, e, cluster, off) is None);
                },
            }
        }
    }
}

} // verus!
