use vstd::prelude::*;

verus! {

/// Size in bytes of the packed tags in the spare area of a chunk.
pub const PACKED_TAGS_SIZE: usize = 16;

/// The tags of a chunk, decoded.
#[derive(Copy, Clone, Debug, Default)]
pub struct Tags {
    pub sequence_number: u64,
    pub object_id: u64,
    pub chunk_id: u64,
    pub num_data_bytes: u64,
    pub is_header: bool,
}

/// The tags of a chunk as they lie in its spare area: four 32-bit words.
#[derive(Copy, Clone, Debug, Default)]
pub struct PackedTags {
    pub sequence_number: u32,
    pub object_id: u32,
    pub chunk_id: u32,
    pub num_data_bytes: u32,
}

/// The little-endian 32-bit word at `off` in `bytes`.
pub open spec fn u32_le(bytes: Seq<u8>, off: int) -> u32 {
    (bytes[off] + 256 * bytes[off + 1] + 65536 * bytes[off + 2] + 16777216 * bytes[off + 3]) as u32
}

/// The packed tags that start at `off` in `bytes`.
pub open spec fn spec_packed_tags_at(bytes: Seq<u8>, off: int) -> PackedTags {
    PackedTags {
        sequence_number: u32_le(bytes, off),
        object_id: u32_le(bytes, off + 4),
        chunk_id: u32_le(bytes, off + 8),
        num_data_bytes: u32_le(bytes, off + 12),
    }
}

/// Reads the little-endian 32-bit word at `off` in `bytes`.
pub fn read_u32_le(bytes: &[u8], off: usize) -> (w: u32)
    requires
        off + 4 <= bytes.len(),
    ensures
        w == u32_le(bytes@, off as int),
{
    let b0 = bytes[off] as u32;
    let b1 = bytes[off + 1] as u32;
    let b2 = bytes[off + 2] as u32;
    let b3 = bytes[off + 3] as u32;
    b0 + 256 * b1 + 65536 * b2 + 16777216 * b3
}

impl PackedTags {
    /// Reads the packed tags that start at `off` in `bytes`.
    pub fn read_at(bytes: &[u8], off: usize) -> (tags: PackedTags)
        requires
            off + PACKED_TAGS_SIZE <= bytes.len(),
        ensures
            tags == spec_packed_tags_at(bytes@, off as int),
    {
        PackedTags {
            sequence_number: read_u32_le(bytes, off),
            object_id: read_u32_le(bytes, off + 4),
            chunk_id: read_u32_le(bytes, off + 8),
            num_data_bytes: read_u32_le(bytes, off + 12),
        }
    }
}

/// Decodes packed tags: ids keep their low 28 bits, and the top bit of the
/// chunk word marks an object-header chunk.
pub open spec fn spec_tags_from_packed(p: PackedTags) -> Tags {
    Tags {
        sequence_number: p.sequence_number as u64,
        object_id: (p.object_id as u64) & 0x0FFFFFFF,
        chunk_id: (p.chunk_id as u64) & 0x0FFFFFFF,
        num_data_bytes: p.num_data_bytes as u64,
        is_header: (p.chunk_id & 0x80000000) != 0,
    }
}

impl From<PackedTags> for Tags {
    fn from(p: PackedTags) -> (tags: Tags) {
        Tags {
            sequence_number: p.sequence_number as u64,
            object_id: (p.object_id as u64) & 0x0FFFFFFF,
            chunk_id: (p.chunk_id as u64) & 0x0FFFFFFF,
            num_data_bytes: p.num_data_bytes as u64,
            is_header: (p.chunk_id & 0x80000000) != 0,
        }
    }
}

impl vstd::std_specs::convert::FromSpecImpl<PackedTags> for Tags {
    open spec fn obeys_from_spec() -> bool {
        true
    }

    open spec fn from_spec(p: PackedTags) -> Tags {
        spec_tags_from_packed(p)
    }
}

/// The tags that a scan accepts as those of a live chunk: a sequence number
/// and an object id that are neither zero nor all ones, and no more data
/// bytes than a page holds.
pub open spec fn spec_tags_valid(t: Tags, page_size: int) -> bool {
    &&& t.sequence_number != 0
    &&& t.sequence_number != 0xFFFFFFFF
    &&& t.object_id != 0
    &&& t.object_id != 0xFFFFFFFF
    &&& t.num_data_bytes <= page_size
}

impl Tags {
    /// Whether these tags are those of a live chunk of a device whose pages
    /// hold `page_size` bytes.
    pub fn is_valid(&self, page_size: usize) -> (valid: bool)
        ensures
            valid == spec_tags_valid(*self, page_size as int),
    {
        self.sequence_number != 0 && self.sequence_number != 0xFFFFFFFF && self.object_id != 0
            && self.object_id != 0xFFFFFFFF && self.num_data_bytes <= page_size as u64
    }
}

/// Decoded ids fit in 28 bits, so an object id never reaches the all-ones
/// word that marks an erased chunk.
pub proof fn lemma_decoded_ids_fit(p: PackedTags)
    ensures
        spec_tags_from_packed(p).object_id < 0x10000000,
        spec_tags_from_packed(p).chunk_id < 0x10000000,
        spec_tags_from_packed(p).sequence_number == p.sequence_number,
        spec_tags_from_packed(p).num_data_bytes == p.num_data_bytes,
{
    let o = p.object_id as u64;
    let c = p.chunk_id as u64;
    assert(o & 0x0FFFFFFF < 0x10000000) by (bit_vector);
    assert(c & 0x0FFFFFFF < 0x10000000) by (bit_vector);
}

} // verus!
