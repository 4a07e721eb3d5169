use vstd::prelude::*;
use crate::yaffs2::consts::{S_IFDIR, YAFFS_OBJECTID_ROOT};
use crate::yaffs2::object_type::{FileKind, ObjectType, spec_object_type_code};
use crate::yaffs2::tags::u32_le;

verus! {

/// Size in bytes of an object header as it lies at the start of a chunk.
pub const OBJECT_HEADER_SIZE: usize = 512;

/// The object header of a chunk, field by field as it lies on flash.
#[derive(Copy, Clone, Debug)]
pub struct ObjectHeader {
    pub object_type: u32,
    pub parent_obj_id: u32,
    pub sum_obsolete: u16,
    pub name: [u8; 256],
    pub _padding: u16,
    pub mode: u32,
    pub uid: u32,
    pub gid: u32,
    pub atime: u32,
    pub mtime: u32,
    pub ctime: u32,
    pub size: u32,
    pub equiv_obj_id: u32,
    pub alias: [u8; 160],
    pub rdev: u32,
    pub reserved: [u32; 6],
    pub inband_shadow_objects: u32,
    pub inband_is_shrink: u32,
    pub reserved2: [u32; 2],
    pub shadows_object: u32,
    pub is_shrink: u32,
}

/// The little-endian 16-bit word at `off` in `bytes`.
pub open spec fn u16_le(bytes: Seq<u8>, off: int) -> u16 {
    (bytes[off] + 256 * bytes[off + 1]) as u16
}

/// The little-endian 32-bit words at `off`, `off + 4`, ... in `bytes`.
pub open spec fn u32_words(bytes: Seq<u8>, off: int, n: nat) -> Seq<u32> {
    Seq::new(n, |i: int| u32_le(bytes, off + 4 * i))
}

/// `h` is the object header that the 512 bytes at the start of `bytes`
/// encode.
pub open spec fn header_encoded_by(h: ObjectHeader, bytes: Seq<u8>) -> bool {
    &&& h.object_type == u32_le(bytes, 0)
    &&& h.parent_obj_id == u32_le(bytes, 4)
    &&& h.sum_obsolete == u16_le(bytes, 8)
    &&& h.name@ == bytes.subrange(10, 266)
    &&& h._padding == u16_le(bytes, 266)
    &&& h.mode == u32_le(bytes, 268)
    &&& h.uid == u32_le(bytes, 272)
    &&& h.gid == u32_le(bytes, 276)
    &&& h.atime == u32_le(bytes, 280)
    &&& h.mtime == u32_le(bytes, 284)
    &&& h.ctime == u32_le(bytes, 288)
    &&& h.size == u32_le(bytes, 292)
    &&& h.equiv_obj_id == u32_le(bytes, 296)
    &&& h.alias@ == bytes.subrange(300, 460)
    &&& h.rdev == u32_le(bytes, 460)
    &&& h.reserved@ == u32_words(bytes, 464, 6)
    &&& h.inband_shadow_objects == u32_le(bytes, 488)
    &&& h.inband_is_shrink == u32_le(bytes, 492)
    &&& h.reserved2@ == u32_words(bytes, 496, 2)
    &&& h.shadows_object == u32_le(bytes, 504)
    &&& h.is_shrink == u32_le(bytes, 508)
}


/// Reads the little-endian 16-bit word at `off` in `bytes`.
fn read_u16_le(bytes: &[u8], off: usize) -> (w: u16)
    requires
        off + 2 <= bytes.len(),
    ensures
        w == u16_le(bytes@, off as int),
{
    let b0 = bytes[off] as u16;
    let b1 = bytes[off + 1] as u16;
    b0 + 256 * b1
}

impl ObjectHeader {
    /// Decodes the object header that the first 512 bytes of `bytes` hold.
    pub fn read(bytes: &[u8]) -> (h: ObjectHeader)
        requires
            OBJECT_HEADER_SIZE <= bytes.len(),
        ensures
            header_encoded_by(h, bytes@),
    {
        let mut name = [0u8; 256];
        let mut i: usize = 0;
        while i < 256
            invariant
                i <= 256,
                OBJECT_HEADER_SIZE <= bytes.len(),
                forall|j: int| 0 <= j < i ==> name@[j] == bytes@[10 + j],
            decreases 256 - i,
        {
            name[i] = bytes[10 + i];
            i += 1;
        }
        let mut alias = [0u8; 160];
        let mut i: usize = 0;
        while i < 160
            invariant
                i <= 160,
                OBJECT_HEADER_SIZE <= bytes.len(),
                forall|j: int| 0 <= j < i ==> alias@[j] == bytes@[300 + j],
            decreases 160 - i,
        {
            alias[i] = bytes[300 + i];
            i += 1;
        }
        let mut reserved = [0u32; 6];
        let mut i: usize = 0;
        while i < 6
            invariant
                i <= 6,
                OBJECT_HEADER_SIZE <= bytes.len(),
                forall|j: int| 0 <= j < i ==> reserved@[j] == u32_le(bytes@, 464 + 4 * j),
            decreases 6 - i,
        {
            reserved[i] = crate::yaffs2::tags::read_u32_le(bytes, 464 + 4 * i);
            i += 1;
        }
        let mut reserved2 = [0u32; 2];
        let mut i: usize = 0;
        while i < 2
            invariant
                i <= 2,
                OBJECT_HEADER_SIZE <= bytes.len(),
                forall|j: int| 0 <= j < i ==> reserved2@[j] == u32_le(bytes@, 496 + 4 * j),
            decreases 2 - i,
        {
            reserved2[i] = crate::yaffs2::tags::read_u32_le(bytes, 496 + 4 * i);
            i += 1;
        }
        assert(name@ =~= bytes@.subrange(10, 266));
        assert(alias@ =~= bytes@.subrange(300, 460));
        assert(reserved@ =~= u32_words(bytes@, 464, 6));
        assert(reserved2@ =~= u32_words(bytes@, 496, 2));
        ObjectHeader {
            object_type: crate::yaffs2::tags::read_u32_le(bytes, 0),
            parent_obj_id: crate::yaffs2::tags::read_u32_le(bytes, 4),
            sum_obsolete: read_u16_le(bytes, 8),
            name,
            _padding: read_u16_le(bytes, 266),
            mode: crate::yaffs2::tags::read_u32_le(bytes, 268),
            uid: crate::yaffs2::tags::read_u32_le(bytes, 272),
            gid: crate::yaffs2::tags::read_u32_le(bytes, 276),
            atime: crate::yaffs2::tags::read_u32_le(bytes, 280),
            mtime: crate::yaffs2::tags::read_u32_le(bytes, 284),
            ctime: crate::yaffs2::tags::read_u32_le(bytes, 288),
            size: crate::yaffs2::tags::read_u32_le(bytes, 292),
            equiv_obj_id: crate::yaffs2::tags::read_u32_le(bytes, 296),
            alias,
            rdev: crate::yaffs2::tags::read_u32_le(bytes, 460),
            reserved,
            inband_shadow_objects: crate::yaffs2::tags::read_u32_le(bytes, 488),
            inband_is_shrink: crate::yaffs2::tags::read_u32_le(bytes, 492),
            reserved2,
            shadows_object: crate::yaffs2::tags::read_u32_le(bytes, 504),
            is_shrink: crate::yaffs2::tags::read_u32_le(bytes, 508),
        }
    }
}

/// Every field of `h` is zero.
pub open spec fn is_zero_header(h: ObjectHeader) -> bool {
    &&& h.object_type == 0
    &&& h.parent_obj_id == 0
    &&& h.sum_obsolete == 0
    &&& (forall|j: int| 0 <= j < 256 ==> h.name@[j] == 0)
    &&& h._padding == 0
    &&& h.mode == 0
    &&& h.uid == 0
    &&& h.gid == 0
    &&& h.atime == 0
    &&& h.mtime == 0
    &&& h.ctime == 0
    &&& h.size == 0
    &&& h.equiv_obj_id == 0
    &&& (forall|j: int| 0 <= j < 160 ==> h.alias@[j] == 0)
    &&& h.rdev == 0
    &&& (forall|j: int| 0 <= j < 6 ==> h.reserved@[j] == 0)
    &&& h.inband_shadow_objects == 0
    &&& h.inband_is_shrink == 0
    &&& (forall|j: int| 0 <= j < 2 ==> h.reserved2@[j] == 0)
    &&& h.shadows_object == 0
    &&& h.is_shrink == 0
}

impl Default for ObjectHeader {
    fn default() -> (h: Self)
        ensures
            is_zero_header(h),
    {
        ObjectHeader {
            object_type: 0,
            parent_obj_id: 0,
            sum_obsolete: 0,
            name: [0u8; 256],
            _padding: 0,
            mode: 0,
            uid: 0,
            gid: 0,
            atime: 0,
            mtime: 0,
            ctime: 0,
            size: 0,
            equiv_obj_id: 0,
            alias: [0u8; 160],
            rdev: 0,
            reserved: [0u32; 6],
            inband_shadow_objects: 0,
            inband_is_shrink: 0,
            reserved2: [0u32; 2],
            shadows_object: 0,
            is_shrink: 0,
        }
    }
}

/// The attributes of an object as the filesystem presents them.
#[derive(Clone, Debug)]
pub struct Header {
    pub object_type: FileKind,
    pub parent_id: u64,
    pub name: String,
    pub mode: u32,
    pub uid: u32,
    pub gid: u32,
    pub atime: u32,
    pub mtime: u32,
    pub ctime: u32,
    pub size: u32,
    pub rdev: u32,
}

/// The abstract value of a `Header`: its fields, the name as characters.
pub struct HeaderView {
    pub object_type: FileKind,
    pub parent_id: u64,
    pub name: Seq<char>,
    pub mode: u32,
    pub uid: u32,
    pub gid: u32,
    pub atime: u32,
    pub mtime: u32,
    pub ctime: u32,
    pub size: u32,
    pub rdev: u32,
}

impl View for Header {
    type V = HeaderView;

    open spec fn view(&self) -> HeaderView {
        HeaderView {
            object_type: self.object_type,
            parent_id: self.parent_id,
            name: self.name@,
            mode: self.mode,
            uid: self.uid,
            gid: self.gid,
            atime: self.atime,
            mtime: self.mtime,
            ctime: self.ctime,
            size: self.size,
            rdev: self.rdev,
        }
    }
}

/// The header a fresh object starts with: a nameless directory under the
/// root, every number zero.
pub open spec fn default_header() -> HeaderView {
    HeaderView {
        object_type: FileKind::Directory,
        parent_id: YAFFS_OBJECTID_ROOT,
        name: Seq::empty(),
        mode: 0,
        uid: 0,
        gid: 0,
        atime: 0,
        mtime: 0,
        ctime: 0,
        size: 0,
        rdev: 0,
    }
}

impl Default for Header {
    fn default() -> (h: Self)
        ensures
            h@ == default_header(),
    {
        Header {
            object_type: FileKind::Directory,
            parent_id: YAFFS_OBJECTID_ROOT,
            name: String::new(),
            mode: 0,
            uid: 0,
            gid: 0,
            atime: 0,
            mtime: 0,
            ctime: 0,
            size: 0,
            rdev: 0,
        }
    }
}

/// Each byte read as the character of the same code (Latin-1).
pub open spec fn latin1(bytes: Seq<u8>) -> Seq<char> {
    Seq::new(bytes.len(), |i: int| bytes[i] as char)
}

/// `s` without its leading NUL characters.
pub open spec fn trim_leading_nul(s: Seq<char>) -> Seq<char>
    decreases s.len(),
{
    if s.len() > 0 && s[0] == '\0' {
        trim_leading_nul(s.drop_first())
    } else {
        s
    }
}

/// `s` without its trailing NUL characters.
pub open spec fn trim_trailing_nul(s: Seq<char>) -> Seq<char>
    decreases s.len(),
{
    if s.len() > 0 && s.last() == '\0' {
        trim_trailing_nul(s.drop_last())
    } else {
        s
    }
}

/// `s` without the NUL characters at either end.
pub open spec fn trim_nul(s: Seq<char>) -> Seq<char> {
    trim_trailing_nul(trim_leading_nul(s))
}

/// The mode every object is presented with: a directory readable, writable
/// and searchable by all.
pub open spec fn presented_mode() -> u32 {
    (S_IFDIR | 0o777) as u32
}

proof fn lemma_trim_leading_ends(s: Seq<char>)
    ensures
        trim_leading_nul(s).len() > 0 ==> trim_leading_nul(s)[0] != '\0',
        trim_leading_nul(s).len() <= s.len(),
        s.len() > 0 && s.last() != '\0' ==> trim_leading_nul(s).len() > 0 && trim_leading_nul(s).last() == s.last(),
    decreases s.len(),
{
    if s.len() > 0 && s[0] == '\0' {
        lemma_trim_leading_ends(s.drop_first());
    }
}

proof fn lemma_trim_trailing_ends(s: Seq<char>)
    ensures
        trim_trailing_nul(s).len() > 0 ==> trim_trailing_nul(s).last() != '\0',
        s.len() > 0 && s[0] != '\0' ==> trim_trailing_nul(s).len() > 0 && trim_trailing_nul(s)[0] == s[0],
    decreases s.len(),
{
    if s.len() > 0 && s.last() == '\0' {
        lemma_trim_trailing_ends(s.drop_last());
        if s.len() > 1 {
            assert(s.drop_last()[0] == s[0]);
        }
    }
}

/// Law: a name taken from an object header neither starts nor ends with a
/// NUL character.
pub proof fn lemma_trimmed_name_ends(s: Seq<char>)
    ensures
        trim_nul(s).len() > 0 ==> trim_nul(s)[0] != '\0' && trim_nul(s).last() != '\0',
{
    lemma_trim_leading_ends(s);
    lemma_trim_trailing_ends(trim_leading_nul(s));
}

/// The presented attributes of an on-flash object header.
pub open spec fn spec_header_of(h: ObjectHeader) -> HeaderView {
    HeaderView {
        object_type: if h.object_type == spec_object_type_code(ObjectType::YaffsObjectTypeDirectory) {
            FileKind::Directory
        } else {
            FileKind::RegularFile
        },
        parent_id: h.parent_obj_id as u64,
        name: trim_nul(latin1(h.name@)),
        mode: presented_mode(),
        uid: h.uid,
        gid: h.gid,
        atime: h.atime,
        mtime: h.mtime,
        ctime: h.ctime,
        size: h.size,
        rdev: h.rdev,
    }
}

/// Appends `c` to `s` (`String::push`).
#[verifier::external_body]
fn string_push(s: &mut String, c: char)
    ensures
        final(s)@ == old(s)@.push(c),
{
    s.push(c);
}

proof fn lemma_trim_leading(s: Seq<char>, lo: int)
    requires
        0 <= lo <= s.len(),
        forall|j: int| 0 <= j < lo ==> s[j] == '\0',
        lo < s.len() ==> s[lo] != '\0',
    ensures
        trim_leading_nul(s) == s.subrange(lo, s.len() as int),
    decreases lo,
{
    if lo == 0 {
        assert(s.subrange(0, s.len() as int) =~= s);
    } else {
        lemma_trim_leading(s.drop_first(), lo - 1);
        assert(s.drop_first().subrange(lo - 1, s.len() - 1) =~= s.subrange(lo, s.len() as int));
    }
}

proof fn lemma_trim_trailing(s: Seq<char>, hi: int)
    requires
        0 <= hi <= s.len(),
        forall|j: int| hi <= j < s.len() ==> s[j] == '\0',
        hi > 0 ==> s[hi - 1] != '\0',
    ensures
        trim_trailing_nul(s) == s.subrange(0, hi),
    decreases s.len() - hi,
{
    if hi == s.len() {
        assert(s.subrange(0, hi) =~= s);
    } else {
        lemma_trim_trailing(s.drop_last(), hi);
        assert(s.drop_last().subrange(0, hi) =~= s.subrange(0, hi));
    }
}

/// The characters of `name[lo..hi]`, read as Latin-1, as a `String`.
fn latin1_string(name: &[u8; 256], lo: usize, hi: usize) -> (s: String)
    requires
        lo <= hi <= 256,
    ensures
        s@ == latin1(name@.subrange(lo as int, hi as int)),
{
    let mut s = String::new();
    let mut i = lo;
    while i < hi
        invariant
            lo <= i <= hi <= 256,
            s@ == latin1(name@.subrange(lo as int, i as int)),
        decreases hi - i,
    {
        let c = name[i] as char;
        string_push(&mut s, c);
        i += 1;
        assert(s@ =~= latin1(name@.subrange(lo as int, i as int)));
    }
    s
}

/// The name an object header holds: its bytes read as Latin-1, without the
/// NUL characters at either end.
fn header_name(name: &[u8; 256]) -> (s: String)
    ensures
        s@ == trim_nul(latin1(name@)),
{
    let mut lo: usize = 0;
    while lo < 256 && name[lo] == 0
        invariant
            lo <= 256,
            forall|j: int| 0 <= j < lo ==> name@[j] == 0,
        decreases 256 - lo,
    {
        lo += 1;
    }
    let mut hi: usize = 256;
    while hi > lo && name[hi - 1] == 0
        invariant
            lo <= hi <= 256,
            forall|j: int| hi <= j < 256 ==> name@[j] == 0,
        decreases hi,
    {
        hi -= 1;
    }
    let s = latin1_string(name, lo, hi);
    proof {
        let all = latin1(name@);
        lemma_trim_leading(all, lo as int);
        let front = all.subrange(lo as int, 256);
        assert forall|j: int| (hi - lo) <= j < front.len() implies front[j] == '\0' by {
            assert(front[j] == all[j + lo]);
        }
        if hi > lo {
            assert(front[hi - lo - 1] == all[hi - 1]);
        }
        lemma_trim_trailing(front, hi - lo);
        assert(front.subrange(0, hi - lo) =~= latin1(name@.subrange(lo as int, hi as int)));
    }
    s
}

impl Header {
    /// The presented attributes of an on-flash object header: a directory
    /// when its type code is the directory code and a regular file
    /// otherwise; its name as Latin-1 without the NULs at either end; every
    /// object presented with mode `S_IFDIR | 0o777`.
    pub fn from_object_header(value: ObjectHeader) -> (h: Header)
        ensures
            h@ == spec_header_of(value),
    {
        let dir_code = ObjectType::YaffsObjectTypeDirectory.code();
        let object_type = if value.object_type == dir_code {
            FileKind::Directory
        } else {
            FileKind::RegularFile
        };
        Header {
            object_type,
            parent_id: value.parent_obj_id as u64,
            name: header_name(&value.name),
            mode: (S_IFDIR as u32 | 0o777),
            uid: value.uid,
            gid: value.gid,
            atime: value.atime,
            mtime: value.mtime,
            ctime: value.ctime,
            size: value.size,
            rdev: value.rdev,
        }
    }
}

} // verus!
