//! The filesystem of a YAFFS2 image: the scan that builds its objects and
//! directory tree, and the queries that the mount answers from them.

pub mod config;
pub mod consts;
pub mod file_data;
pub mod inode;
pub mod maps;
pub mod object;
pub mod object_header;
pub mod object_type;
pub mod scan;
pub mod tags;
pub mod tree;

use vstd::prelude::*;
use dashmap::DashMap;
use crate::yaffs2::config::{Config, geometry_computable, spec_config};
use crate::yaffs2::consts::{S_IFDIR, YAFFS_OBJECTID_DELETED, YAFFS_OBJECTID_ROOT, YAFFS_OBJECTID_UNLINKED};
use crate::yaffs2::file_data::{FileData, FileDataView, chunk_count_computable, spec_reconstruct};
use crate::yaffs2::inode::{INode, INodeView};
use crate::yaffs2::maps::{
    file_map, files_insert, files_keys, files_new, files_remove, hierarchy_get, hierarchy_insert,
    hierarchy_map, hierarchy_new, object_map, objects_contains, objects_get, objects_insert,
    objects_len, objects_new,
};
use crate::yaffs2::object_header::{Header, ObjectHeader, OBJECT_HEADER_SIZE};
use crate::yaffs2::object_type::FileKind;
use crate::yaffs2::scan::{
    ScanState, add_child, children_of, chunk_at, chunk_header, chunk_stride, file_or_new,
    header_chunk_readable, hierarchy_wf, lemma_bounded_unique_len,
    lemma_prefix_keeps_hierarchy_wf, lemma_header_of_bytes, objects_after_header,
    scan_all, scan_len, scan_prefix, scan_start, scan_step, scannable,
    spec_tags_of, tags_start,
};
use crate::yaffs2::tags::{PackedTags, Tags, PACKED_TAGS_SIZE, u32_le};

verus! {

/// A mounted YAFFS2 image: its bytes, the objects and directory tree built
/// from them, and its geometry.
pub struct Yaffs2 {
    image: Vec<u8>,
    objects: DashMap<u64, INode>,
    hierarchy: DashMap<u64, Vec<u64>>,
    config: Config,
}

/// The files being rebuilt are keyed by their own object id, and the size
/// in each header they hold leaves room to count its chunks.
pub open spec fn files_wf(files: Map<u64, FileDataView>, c: Config) -> bool {
    forall|k: u64|
        #[trigger] files.dom().contains(k) ==> files[k].object_id == k && chunk_count_computable(
            files[k],
            c.page_size as int,
        )
}

/// The objects, with the contents of the files among `done` that can be
/// rebuilt filled in.
pub open spec fn rebuilt_for(s: ScanState, done: Set<u64>, page_size: int) -> Map<u64, INodeView> {
    Map::new(
        |k: u64| s.objects.dom().contains(k),
        |k: u64|
            if done.contains(k) && s.files.dom().contains(k) && spec_reconstruct(
                s.files[k],
                page_size,
            ) is Some {
                INodeView { data: spec_reconstruct(s.files[k], page_size), ..s.objects[k] }
            } else {
                s.objects[k]
            },
    )
}

/// The objects once every file that can be rebuilt has its contents.
pub open spec fn with_rebuilt_data(s: ScanState, page_size: int) -> Map<u64, INodeView> {
    rebuilt_for(s, s.files.dom(), page_size)
}

proof fn lemma_step_keeps_files_wf(s: ScanState, chunk: Seq<u8>, c: Config)
    requires
        files_wf(s.files, c),
        header_chunk_readable(chunk, c),
        c.page_size > 0,
    ensures
        files_wf(scan_step(s, chunk, c).files, c),
{
    let s2 = scan_step(s, chunk, c);
    assert forall|k: u64| #[trigger] s2.files.dom().contains(k) implies s2.files[k].object_id == k
        && chunk_count_computable(s2.files[k], c.page_size as int) by {
        if s.files.dom().contains(k) {
        }
    }
}

proof fn lemma_chunk_in_image(idx: int, n: int, stride: int, len: int)
    requires
        0 <= idx < n,
        stride >= 1,
        n * stride <= len,
    ensures
        idx * stride + stride <= len,
        idx * stride >= 0,
        n <= len,
{
    assert(n <= n * stride) by (nonlinear_arith)
        requires
            n >= 0,
            stride >= 1,
    ;
    assert(idx * stride + stride <= n * stride) by (nonlinear_arith)
        requires
            0 <= idx < n,
            stride >= 0,
    ;
    assert(idx * stride >= 0) by (nonlinear_arith)
        requires
            0 <= idx,
            stride >= 0,
    ;
}

proof fn lemma_index_in_range(block: int, chunk: int, nblocks: int, cpb: int)
    requires
        0 <= block < nblocks,
        0 <= chunk < cpb,
    ensures
        block * cpb + chunk < nblocks * cpb,
{
    assert(block * cpb + chunk < nblocks * cpb) by (nonlinear_arith)
        requires
            0 <= block < nblocks,
            0 <= chunk < cpb,
    ;
}

proof fn lemma_next_block(block: int, cpb: int)
    ensures
        (block + 1) * cpb == block * cpb + cpb,
{
    assert((block + 1) * cpb == block * cpb + cpb) by (nonlinear_arith);
}

proof fn lemma_mul_exceeds(a: int, b: int, len: int)
    requires
        a > usize::MAX,
        b >= 1,
        len <= usize::MAX,
    ensures
        a * b > len,
{
    assert(a * b >= a) by (nonlinear_arith)
        requires
            a > 0,
            b >= 1,
    ;
}

/// The little-endian 32-bit word at `off` in `bytes`.
fn u32_from(bytes: &[u8], off: usize) -> (w: u32)
    requires
        off + 4 <= bytes.len(),
    ensures
        w == u32_le(bytes@, off as int),
{
    crate::yaffs2::tags::read_u32_le(bytes, off)
}

/// Whether `ids` holds `id`.
fn contains_id(ids: &Vec<u64>, id: u64) -> (found: bool)
    ensures
        found == ids@.contains(id),
{
    let mut i: usize = 0;
    while i < ids.len()
        invariant
            i <= ids.len(),
            forall|j: int| 0 <= j < i ==> ids@[j] != id,
        decreases ids.len() - i,
    {
        if ids[i] == id {
            return true;
        }
        i += 1;
    }
    false
}

/// A copy of a header.
fn copy_header(h: &Header) -> (c: Header)
    ensures
        c@ == h@,
{
    Header {
        object_type: h.object_type,
        parent_id: h.parent_id,
        name: h.name.clone(),
        mode: h.mode,
        uid: h.uid,
        gid: h.gid,
        atime: h.atime,
        mtime: h.mtime,
        ctime: h.ctime,
        size: h.size,
        rdev: h.rdev,
    }
}

/// The bytes of chunk `chunk` of the image: its page and its spare area.
fn chunk_bytes<'a>(image: &'a [u8], config: &Config, chunk: usize) -> (out: &'a [u8])
    requires
        chunk * chunk_stride(*config) + chunk_stride(*config) <= image.len(),
    ensures
        out@ == chunk_at(image@, *config, chunk as int),
{
    proof {
        assert(chunk * chunk_stride(*config) >= 0) by (nonlinear_arith)
            requires
                chunk >= 0,
                chunk_stride(*config) >= 0,
        ;
    }
    let stride = config.page_size + config.extra_size;
    let physical = chunk * stride;
    vstd::slice::slice_subrange(image, physical, physical + stride)
}

/// Applies one chunk of the image to the objects, the tree and the files
/// being rebuilt.
fn scan_chunk(
    image: &[u8],
    config: &Config,
    objects: &mut DashMap<u64, INode>,
    hierarchy: &mut DashMap<u64, Vec<u64>>,
    files: &mut DashMap<u64, FileData>,
    idx: usize,
)
    requires
        scannable(image@, *config),
        idx < scan_len(*config),
    ensures
        ({
            let before = ScanState {
                objects: object_map(*old(objects)),
                hierarchy: hierarchy_map(*old(hierarchy)),
                files: file_map(*old(files)),
            };
            let after = scan_step(before, chunk_at(image@, *config, idx as int), *config);
            &&& object_map(*final(objects)) == after.objects
            &&& hierarchy_map(*final(hierarchy)) == after.hierarchy
            &&& file_map(*final(files)) == after.files
        }),
{
    proof {
        lemma_chunk_in_image(idx as int, scan_len(*config), chunk_stride(*config), image@.len() as int);
    }
    let chunk_data = chunk_bytes(image, config, idx);
    let ghost chunk = chunk_data@;
    let ghost before = ScanState {
        objects: object_map(*objects),
        hierarchy: hierarchy_map(*hierarchy),
        files: file_map(*files),
    };
    assert(header_chunk_readable(chunk, *config));
    let tags_start = config.page_size + config.tags_offset;
    let tags_end = tags_start + PACKED_TAGS_SIZE;
    if tags_end <= chunk_data.len() {
        let packed = PackedTags::read_at(chunk_data, tags_start);
        let tags = Tags::from(packed);
        assert(spec_tags_of(chunk, *config) == Some(tags));
        if tags.is_valid(config.page_size) {
            let oid = tags.object_id;
            let mut file = match files_remove(files, oid) {
                Some(f) => f,
                None => FileData::new(oid),
            };
            assert(file@ == file_or_new(before.files, oid));
            if tags.is_header {
                let oh = ObjectHeader::read(chunk_data);
                proof {
                    lemma_header_of_bytes(oh, chunk);
                }
                let mut header = Header::from_object_header(oh);
                if oid == YAFFS_OBJECTID_ROOT {
                    header.parent_id = YAFFS_OBJECTID_ROOT;
                }
                assert(header@ == chunk_header(chunk, oid));
                let existing_seq: u64 = match objects_get(objects, oid) {
                    Some(existing) => existing.sequence_number,
                    None => {
                        let new_inode = INode {
                            header: copy_header(&header),
                            object_id: oid,
                            sequence_number: tags.sequence_number,
                            data: None,
                        };
                        objects_insert(objects, oid, new_inode);
                        tags.sequence_number
                    },
                };
                if tags.sequence_number > existing_seq {
                    match objects_get(objects, oid) {
                        Some(current) => {
                            let mut updated = current;
                            updated.header = copy_header(&header);
                            updated.sequence_number = tags.sequence_number;
                            objects_insert(objects, oid, updated);
                        },
                        None => {},
                    }
                }
                assert(object_map(*objects) =~= objects_after_header(
                    before.objects,
                    oid,
                    tags.sequence_number,
                    header@,
                ));
                let parent_id = header.parent_id;
                if oid != YAFFS_OBJECTID_ROOT && oid != YAFFS_OBJECTID_UNLINKED && oid
                    != YAFFS_OBJECTID_DELETED {
                    let mut children = match hierarchy_get(hierarchy, parent_id) {
                        Some(v) => v,
                        None => Vec::new(),
                    };
                    assert(children@ == children_of(before.hierarchy, parent_id));
                    if !contains_id(&children, oid) {
                        children.push(oid);
                    }
                    hierarchy_insert(hierarchy, parent_id, children);
                    assert(hierarchy_map(*hierarchy) =~= add_child(before.hierarchy, parent_id, oid));
                }
                file.size = header.size as usize;
                file.header = Some(header);
            } else {
                let len = tags.num_data_bytes as usize;
                let data_buf = vstd::slice::slice_to_vec(
                    vstd::slice::slice_subrange(chunk_data, 0, len),
                );
                file.add_chunk(tags.chunk_id as usize, &data_buf);
            }
            files_insert(files, oid, file);
            assert(file_map(*files) =~= scan_step(before, chunk, *config).files);
        }
    }
}


/// The attributes of an object as a mount reports them; times are seconds
/// since the Unix epoch.
#[derive(Copy, Clone, Debug, PartialEq, Eq, Structural)]
pub struct FileAttr {
    pub ino: u64,
    pub size: u64,
    pub blocks: u64,
    pub atime: u32,
    pub mtime: u32,
    pub ctime: u32,
    pub crtime: u32,
    pub kind: FileKind,
    pub perm: u16,
    pub nlink: u32,
    pub uid: u32,
    pub gid: u32,
    pub rdev: u32,
    pub blksize: u32,
    pub flags: u32,
}

/// The figures a mount reports for the whole filesystem.
#[derive(Copy, Clone, Debug, PartialEq, Eq, Structural)]
pub struct StatFs {
    pub blocks: u64,
    pub bfree: u64,
    pub bavail: u64,
    pub files: u64,
    pub ffree: u64,
    pub bsize: u32,
    pub namelen: u32,
    pub frsize: u32,
}

/// Why a request about an object is refused.
#[derive(Copy, Clone, Debug, PartialEq, Eq, Structural)]
pub enum FsError {
    /// No object has the id asked for.
    NotFound,
    /// The object is not a directory.
    NotADirectory,
}

/// The size an object is reported with: zero for a directory, the length of
/// its contents for a file (zero while they are not rebuilt).
pub open spec fn reported_size(inode: INodeView) -> u64 {
    if inode.header.object_type == FileKind::Directory {
        0
    } else {
        match inode.data {
            Some(d) => d.len() as u64,
            None => 0,
        }
    }
}

/// The attributes reported for object `ino`, when there is such an object.
pub open spec fn spec_stat(objects: Map<u64, INodeView>, c: Config, ino: u64) -> Option<FileAttr> {
    if objects.dom().contains(ino) {
        let inode = objects[ino];
        let size = reported_size(inode);
        Some(
            FileAttr {
                ino,
                size,
                blocks: ((size + 511) / 512) as u64,
                atime: inode.header.atime,
                mtime: inode.header.mtime,
                ctime: inode.header.ctime,
                crtime: inode.header.ctime,
                kind: inode.header.object_type,
                perm: (inode.header.mode & 0o777) as u16,
                nlink: if inode.header.object_type == FileKind::Directory {
                    2
                } else {
                    1
                },
                uid: inode.header.uid,
                gid: inode.header.gid,
                rdev: inode.header.rdev,
                blksize: c.page_size as u32,
                flags: 0,
            },
        )
    } else {
        None
    }
}

/// What a read of `size` bytes at `offset` of object `ino` gives: nothing
/// when there is no such object; otherwise the bytes of its contents from
/// `offset` up to `offset + size` or its end, none past its end or while it
/// has no contents.
pub open spec fn spec_read(objects: Map<u64, INodeView>, ino: u64, offset: u64, size: u32) -> Option<
    Seq<u8>,
> {
    if !objects.dom().contains(ino) {
        None
    } else {
        match objects[ino].data {
            Some(d) => {
                let start = offset as usize as int;
                let end = if start + size < d.len() {
                    start + size
                } else {
                    d.len() as int
                };
                if start >= d.len() {
                    Some(Seq::empty())
                } else {
                    Some(d.subrange(start, end))
                }
            },
            None => Some(Seq::empty()),
        }
    }
}

/// A read of object `ino` at `offset` can add the requested size to the
/// offset without overflow.
pub open spec fn read_computable(objects: Map<u64, INodeView>, ino: u64, offset: u64, size: u32) -> bool {
    objects.dom().contains(ino) && objects[ino].data is Some ==> offset as usize + size
        <= usize::MAX
}

/// The figures reported for a filesystem with the given geometry and
/// number of objects.
pub open spec fn spec_statfs(c: Config, object_count: nat) -> StatFs {
    StatFs {
        blocks: c.nblocks as u64,
        bfree: c.nblocks as u64,
        bavail: c.nblocks as u64,
        files: object_count as u64,
        ffree: u64::MAX,
        bsize: c.page_size as u32,
        namelen: 255,
        frsize: c.page_size as u32,
    }
}


/// One entry of a directory listing: the object, its position in the
/// listing, its kind and its name.
#[derive(Clone, Debug)]
pub struct DirEntry {
    pub ino: u64,
    pub offset: i64,
    pub kind: FileKind,
    pub name: String,
}

/// The abstract value of a `DirEntry`.
pub struct DirEntryView {
    pub ino: u64,
    pub offset: i64,
    pub kind: FileKind,
    pub name: Seq<char>,
}

impl View for DirEntry {
    type V = DirEntryView;

    open spec fn view(&self) -> DirEntryView {
        DirEntryView { ino: self.ino, offset: self.offset, kind: self.kind, name: self.name@ }
    }
}

/// The name of a directory itself.
pub open spec fn dot_name() -> Seq<char> {
    seq!['.']
}

/// The name of the parent of a directory.
pub open spec fn dotdot_name() -> Seq<char> {
    seq!['.', '.']
}

/// The first of `children` that is a known object named `name`.
pub open spec fn find_named_child(
    children: Seq<u64>,
    objects: Map<u64, INodeView>,
    name: Seq<char>,
) -> Option<u64>
    decreases children.len(),
{
    if children.len() == 0 {
        None
    } else if objects.dom().contains(children[0]) && objects[children[0]].header.name == name {
        Some(children[0])
    } else {
        find_named_child(children.drop_first(), objects, name)
    }
}

/// What looking up `name` in directory `parent` gives: `.` the directory
/// itself and `..` its parent, when those exist; otherwise the first child
/// of the directory with that name; nothing when there is none.
pub open spec fn spec_lookup(
    objects: Map<u64, INodeView>,
    hierarchy: Map<u64, Seq<u64>>,
    c: Config,
    parent: u64,
    name: Seq<char>,
) -> Option<FileAttr> {
    if name == dot_name() && spec_stat(objects, c, parent) is Some {
        spec_stat(objects, c, parent)
    } else if name == dotdot_name() && objects.dom().contains(parent) && spec_stat(
        objects,
        c,
        objects[parent].header.parent_id,
    ) is Some {
        spec_stat(objects, c, objects[parent].header.parent_id)
    } else if hierarchy.dom().contains(parent) {
        match find_named_child(hierarchy[parent], objects, name) {
            Some(child) => spec_stat(objects, c, child),
            None => None,
        }
    } else {
        None
    }
}

/// The listing entries of the children of a directory from position `i`
/// of its list on: each known child with its kind and name, at listing
/// position `i + 3`.
pub open spec fn child_entries(children: Seq<u64>, objects: Map<u64, INodeView>, i: int) -> Seq<
    DirEntryView,
>
    decreases children.len() - i,
{
    if i < 0 || i >= children.len() {
        Seq::empty()
    } else {
        let rest = child_entries(children, objects, i + 1);
        let child = children[i];
        if objects.dom().contains(child) {
            seq![
                DirEntryView {
                    ino: child,
                    offset: (i + 3) as i64,
                    kind: objects[child].header.object_type,
                    name: objects[child].header.name,
                },
            ] + rest
        } else {
            rest
        }
    }
}

/// The full listing of directory `ino`: `.` at position 1, `..` at 2 (the
/// root is its own parent), then its known children.
pub open spec fn dir_listing(
    objects: Map<u64, INodeView>,
    hierarchy: Map<u64, Seq<u64>>,
    ino: u64,
) -> Seq<DirEntryView> {
    let parent = if ino == YAFFS_OBJECTID_ROOT {
        YAFFS_OBJECTID_ROOT
    } else {
        objects[ino].header.parent_id
    };
    seq![
        DirEntryView { ino, offset: 1, kind: FileKind::Directory, name: dot_name() },
        DirEntryView { ino: parent, offset: 2, kind: FileKind::Directory, name: dotdot_name() },
    ] + child_entries(children_of(hierarchy, ino), objects, 0)
}

/// What listing directory `ino` from entry `offset` gives: the entries of
/// its listing from that one on, or why it is refused.
pub open spec fn spec_readdir(
    objects: Map<u64, INodeView>,
    hierarchy: Map<u64, Seq<u64>>,
    ino: u64,
    offset: u64,
) -> Result<Seq<DirEntryView>, FsError> {
    if !objects.dom().contains(ino) {
        Err(FsError::NotFound)
    } else if objects[ino].header.object_type != FileKind::Directory {
        Err(FsError::NotADirectory)
    } else {
        let full = dir_listing(objects, hierarchy, ino);
        let skip = offset as usize as int;
        Ok(
            if skip >= full.len() {
                Seq::empty()
            } else {
                full.subrange(skip, full.len() as int)
            },
        )
    }
}


proof fn lemma_find_named_child(children: Seq<u64>, objects: Map<u64, INodeView>, name: Seq<char>)
    ensures
        find_named_child(children, objects, name) matches Some(x) ==> {
            &&& children.contains(x)
            &&& objects.dom().contains(x)
            &&& objects[x].header.name == name
        },
    decreases children.len(),
{
    if children.len() > 0 {
        lemma_find_named_child(children.drop_first(), objects, name);
        if let Some(x) = find_named_child(children.drop_first(), objects, name) {
            if !(objects.dom().contains(children[0]) && objects[children[0]].header.name == name) {
                let j = choose|j: int| 0 <= j < children.drop_first().len() && children.drop_first()[j] == x;
                assert(children[j + 1] == x);
            }
        } else {
            if objects.dom().contains(children[0]) && objects[children[0]].header.name == name {
                assert(children[0] == children[0]);
            }
        }
        if objects.dom().contains(children[0]) && objects[children[0]].header.name == name {
            assert(children.contains(children[0]));
        }
    }
}

/// Law: looking up `.` in an existing directory gives the attributes of
/// that directory.
pub proof fn lemma_lookup_dot(
    objects: Map<u64, INodeView>,
    hierarchy: Map<u64, Seq<u64>>,
    c: Config,
    parent: u64,
)
    requires
        objects.dom().contains(parent),
    ensures
        spec_lookup(objects, hierarchy, c, parent, dot_name()) == spec_stat(objects, c, parent),
{
}

/// Law: a lookup of any other name than `.` or `..` that succeeds gives a
/// listed child of the directory that bears exactly that name.
pub proof fn lemma_lookup_finds_named_child(
    objects: Map<u64, INodeView>,
    hierarchy: Map<u64, Seq<u64>>,
    c: Config,
    parent: u64,
    name: Seq<char>,
)
    requires
        name != dot_name(),
        name != dotdot_name(),
    ensures
        spec_lookup(objects, hierarchy, c, parent, name) matches Some(attr) ==> {
            &&& hierarchy.dom().contains(parent)
            &&& hierarchy[parent].contains(attr.ino)
            &&& objects.dom().contains(attr.ino)
            &&& objects[attr.ino].header.name == name
        },
{
    if hierarchy.dom().contains(parent) {
        lemma_find_named_child(hierarchy[parent], objects, name);
    }
}

/// Law: the attributes of an object are reported under its own id, with
/// the number of 512-byte blocks its size takes, rounded up.
pub proof fn lemma_stat_blocks(objects: Map<u64, INodeView>, c: Config, ino: u64)
    ensures
        spec_stat(objects, c, ino) matches Some(a) ==> {
            &&& a.ino == ino
            &&& a.size <= a.blocks * 512
            &&& a.blocks * 512 < a.size + 512
        },
{
}

/// Law: a read never gives more bytes than were asked for, and what it
/// gives lies in the contents of the object at the offset asked for.
pub proof fn lemma_read_within_request(
    objects: Map<u64, INodeView>,
    ino: u64,
    offset: u64,
    size: u32,
)
    ensures
        spec_read(objects, ino, offset, size) matches Some(b) ==> {
            &&& b.len() <= size
            &&& b.len() > 0 ==> (objects[ino].data matches Some(d) && b =~= d.subrange(
                offset as usize as int,
                offset as usize + b.len(),
            ))
        },
{
}

/// Law: a listing of an existing directory from its start begins with the
/// directory itself as `.` and its parent as `..`.
pub proof fn lemma_listing_starts_with_dots(
    objects: Map<u64, INodeView>,
    hierarchy: Map<u64, Seq<u64>>,
    ino: u64,
)
    requires
        objects.dom().contains(ino),
        objects[ino].header.object_type == FileKind::Directory,
    ensures
        spec_readdir(objects, hierarchy, ino, 0) matches Ok(l) && l.len() >= 2 && l[0].ino == ino
            && l[0].name == dot_name() && l[1].name == dotdot_name() && l[0].offset == 1
            && l[1].offset == 2,
{
    let full = dir_listing(objects, hierarchy, ino);
    assert(full.subrange(0, full.len() as int) =~= full);
}


/// Law: once a scan has rebuilt a file, reading it whole from its start
/// gives back exactly the rebuilt contents.
pub proof fn lemma_read_gives_rebuilt_file(s: ScanState, page_size: int, k: u64, size: u32)
    requires
        s.objects.dom().contains(k),
        s.files.dom().contains(k),
        spec_reconstruct(s.files[k], page_size) matches Some(d) && d.len() <= size,
    ensures
        spec_read(with_rebuilt_data(s, page_size), k, 0, size) == spec_reconstruct(
            s.files[k],
            page_size,
        ),
{
    let d = spec_reconstruct(s.files[k], page_size).unwrap();
    let objs = with_rebuilt_data(s, page_size);
    assert(objs.dom().contains(k));
    assert(objs[k].data == Some(d));
    if d.len() > 0 {
        assert(d.subrange(0, d.len() as int) =~= d);
    } else {
        assert(d =~= Seq::<u8>::empty());
    }
}

proof fn lemma_find_named_child_exists(
    children: Seq<u64>,
    objects: Map<u64, INodeView>,
    name: Seq<char>,
    x: u64,
)
    requires
        children.contains(x),
        objects.dom().contains(x),
        objects[x].header.name == name,
    ensures
        find_named_child(children, objects, name) is Some,
    decreases children.len(),
{
    if !(objects.dom().contains(children[0]) && objects[children[0]].header.name == name) {
        let j = choose|j: int| 0 <= j < children.len() && children[j] == x;
        assert(j != 0);
        assert(children.drop_first()[j - 1] == x);
        lemma_find_named_child_exists(children.drop_first(), objects, name, x);
    }
}

/// Law: every known child listed under a directory can be looked up by its
/// name there (other than `.` and `..`).
pub proof fn lemma_listed_child_can_be_looked_up(
    objects: Map<u64, INodeView>,
    hierarchy: Map<u64, Seq<u64>>,
    c: Config,
    parent: u64,
    child: u64,
)
    requires
        hierarchy.dom().contains(parent),
        hierarchy[parent].contains(child),
        objects.dom().contains(child),
        objects[child].header.name != dot_name(),
        objects[child].header.name != dotdot_name(),
    ensures
        spec_lookup(objects, hierarchy, c, parent, objects[child].header.name) is Some,
{
    let name = objects[child].header.name;
    lemma_find_named_child_exists(hierarchy[parent], objects, name, child);
    lemma_find_named_child(hierarchy[parent], objects, name);
}

/// Law: an object can be opened exactly when it has attributes.
pub proof fn lemma_open_iff_stat(objects: Map<u64, INodeView>, c: Config, ino: u64)
    ensures
        objects.dom().contains(ino) <==> spec_stat(objects, c, ino) is Some,
{
}

/// `e` describes a known child of a directory whose children are
/// `children`: its id is among them and its kind and name are those in the
/// child's own header.
pub open spec fn describes_child(e: DirEntryView, children: Seq<u64>, objects: Map<u64, INodeView>) -> bool {
    &&& children.contains(e.ino)
    &&& objects.dom().contains(e.ino)
    &&& e.kind == objects[e.ino].header.object_type
    &&& e.name == objects[e.ino].header.name
}

/// `e` is listed at the position of its id in `children`, counted from 3.
pub open spec fn at_child_position(e: DirEntryView, children: Seq<u64>) -> bool {
    3 <= e.offset < children.len() + 3 && children[e.offset - 3] == e.ino
}

proof fn lemma_child_entries_describe(children: Seq<u64>, objects: Map<u64, INodeView>, i: int)
    requires
        0 <= i,
        children.len() + 3 <= i64::MAX,
    ensures
        forall|j: int|
            0 <= j < child_entries(children, objects, i).len() ==> describes_child(
                #[trigger] child_entries(children, objects, i)[j],
                children,
                objects,
            ) && at_child_position(child_entries(children, objects, i)[j], children)
                && child_entries(children, objects, i)[j].offset >= i + 3,
        forall|j1: int, j2: int|
            0 <= j1 < j2 < child_entries(children, objects, i).len() ==> (#[trigger] child_entries(
                children,
                objects,
                i,
            )[j1]).offset < (#[trigger] child_entries(children, objects, i)[j2]).offset,
    decreases children.len() - i,
{
    if i < children.len() {
        lemma_child_entries_describe(children, objects, i + 1);
        let rest = child_entries(children, objects, i + 1);
        let all = child_entries(children, objects, i);
        assert forall|j: int| 0 <= j < all.len() implies describes_child(
            #[trigger] all[j],
            children,
            objects,
        ) && at_child_position(all[j], children) && all[j].offset >= i + 3 by {
            if objects.dom().contains(children[i]) {
                if j == 0 {
                    assert(children.contains(children[i]));
                } else {
                    assert(all[j] == rest[j - 1]);
                }
            } else {
                assert(all[j] == rest[j]);
            }
        }
        assert forall|j1: int, j2: int| 0 <= j1 < j2 < all.len() implies (#[trigger] all[j1]).offset
            < (#[trigger] all[j2]).offset by {
            if objects.dom().contains(children[i]) {
                assert(all[j2] == rest[j2 - 1]);
                if j1 > 0 {
                    assert(all[j1] == rest[j1 - 1]);
                }
            } else {
                assert(all[j1] == rest[j1]);
                assert(all[j2] == rest[j2]);
            }
        }
    }
}

/// Law: every entry of a directory listing, from any offset, is `.` (the
/// directory itself), `..` (its parent, the root for the root), or a known
/// child of the directory listed with the kind and name in its own header
/// at the position of the child in the directory's list, counted from 3;
/// positions grow along the listing.
pub proof fn lemma_listing_entries_describe_children(
    objects: Map<u64, INodeView>,
    hierarchy: Map<u64, Seq<u64>>,
    ino: u64,
    offset: u64,
)
    requires
        hierarchy_wf(hierarchy),
    ensures
        spec_readdir(objects, hierarchy, ino, offset) matches Ok(l) ==> {
            &&& forall|j: int|
                0 <= j < l.len() ==> {
                    ||| (#[trigger] l[j]).ino == ino && l[j].name == dot_name() && l[j].kind
                        == FileKind::Directory && l[j].offset == 1
                    ||| l[j].name == dotdot_name() && l[j].kind == FileKind::Directory
                        && l[j].offset == 2 && l[j].ino == (if ino == YAFFS_OBJECTID_ROOT {
                        YAFFS_OBJECTID_ROOT
                    } else {
                        objects[ino].header.parent_id
                    })
                    ||| describes_child(l[j], children_of(hierarchy, ino), objects)
                        && at_child_position(l[j], children_of(hierarchy, ino))
                }
            &&& forall|j1: int, j2: int|
                0 <= j1 < j2 < l.len() ==> (#[trigger] l[j1]).offset < (#[trigger] l[j2]).offset
        },
{
    if let Ok(l) = spec_readdir(objects, hierarchy, ino, offset) {
        let kids = children_of(hierarchy, ino);
        if hierarchy.dom().contains(ino) {
            lemma_bounded_unique_len(kids, 0x10000000);
        }
        let full = dir_listing(objects, hierarchy, ino);
        let rest = child_entries(kids, objects, 0);
        lemma_child_entries_describe(kids, objects, 0);
        let skip = offset as usize as int;
        assert forall|j: int| 0 <= j < l.len() implies {
            ||| (#[trigger] l[j]).ino == ino && l[j].name == dot_name() && l[j].kind
                == FileKind::Directory && l[j].offset == 1
            ||| l[j].name == dotdot_name() && l[j].kind == FileKind::Directory && l[j].offset == 2
                && l[j].ino == (if ino == YAFFS_OBJECTID_ROOT {
                YAFFS_OBJECTID_ROOT
            } else {
                objects[ino].header.parent_id
            })
            ||| describes_child(l[j], kids, objects) && at_child_position(l[j], kids)
        } by {
            assert(l[j] == full[skip + j]);
            if skip + j >= 2 {
                assert(full[skip + j] == rest[skip + j - 2]);
            }
        }
        assert forall|j1: int, j2: int| 0 <= j1 < j2 < l.len() implies (#[trigger] l[j1]).offset
            < (#[trigger] l[j2]).offset by {
            assert(l[j1] == full[skip + j1]);
            assert(l[j2] == full[skip + j2]);
            if skip + j2 >= 2 {
                assert(full[skip + j2] == rest[skip + j2 - 2]);
                assert(rest[skip + j2 - 2].offset >= 3);
            }
            if skip + j1 >= 2 {
                assert(full[skip + j1] == rest[skip + j1 - 2]);
            }
        }
    }
}

/// Law: `..` of an existing directory whose parent exists gives the
/// attributes of that parent, the object its header names as parent.
pub proof fn lemma_lookup_dotdot_gives_parent(
    objects: Map<u64, INodeView>,
    hierarchy: Map<u64, Seq<u64>>,
    c: Config,
    d: u64,
)
    requires
        objects.dom().contains(d),
        objects.dom().contains(objects[d].header.parent_id),
    ensures
        ({
            let p = objects[d].header.parent_id;
            spec_lookup(objects, hierarchy, c, d, dotdot_name()) matches Some(a) && a.ino == p
                && a == spec_stat(objects, c, p).unwrap() && a.kind == objects[p].header.object_type
        }),
{
    assert(dotdot_name() != dot_name()) by {
        assert(dotdot_name().len() != dot_name().len());
    }
}

/// Law: a read at an offset inside the contents of an object gives the
/// bytes from that offset on: as many as were asked for, or up to the end
/// of the contents when fewer are left.
pub proof fn lemma_read_from_offset(objects: Map<u64, INodeView>, ino: u64, offset: u64, size: u32)
    requires
        objects.dom().contains(ino),
        objects[ino].data matches Some(d) && (offset as usize) < d.len(),
    ensures
        ({
            let d = objects[ino].data.unwrap();
            let o = offset as usize as int;
            spec_read(objects, ino, offset, size) matches Some(b) && b.len() == (if o + size
                <= d.len() {
                size as int
            } else {
                d.len() - o
            }) && forall|k: int| 0 <= k < b.len() ==> #[trigger] b[k] == d[o + k]
        }),
{
}

/// Law: a regular file is reported with the length of its rebuilt contents
/// (zero while it has none) and one link; a directory with size zero and
/// two links; both with the permission bits of their mode and their owner.
pub proof fn lemma_stat_reports_object(objects: Map<u64, INodeView>, c: Config, ino: u64)
    requires
        objects.dom().contains(ino),
    ensures
        ({
            let inode = objects[ino];
            spec_stat(objects, c, ino) matches Some(a) && a.ino == ino && a.kind
                == inode.header.object_type && a.uid == inode.header.uid && a.gid
                == inode.header.gid && a.perm as int == inode.header.mode % 512 && (if inode.header.object_type
                == FileKind::Directory {
                a.size == 0 && a.nlink == 2
            } else {
                a.nlink == 1 && a.size == (match inode.data {
                    Some(d) => d.len() as u64,
                    None => 0,
                })
            })
        }),
{
    let m = objects[ino].header.mode;
    assert(m & 0o777 == m % 512 && m & 0o777 < 512) by (bit_vector);
}

proof fn lemma_find_named_child_first(children: Seq<u64>, objects: Map<u64, INodeView>, name: Seq<char>)
    ensures
        find_named_child(children, objects, name) matches Some(x) ==> exists|k: int|
            0 <= k < children.len() && children[k] == x && forall|k2: int|
                0 <= k2 < k ==> !(objects.dom().contains(#[trigger] children[k2])
                    && objects[children[k2]].header.name == name),
    decreases children.len(),
{
    if children.len() > 0 {
        lemma_find_named_child_first(children.drop_first(), objects, name);
        if let Some(x) = find_named_child(children, objects, name) {
            if objects.dom().contains(children[0]) && objects[children[0]].header.name == name {
                assert(children[0] == x);
            } else {
                let rest = children.drop_first();
                let k = choose|k: int|
                    0 <= k < rest.len() && rest[k] == x && forall|k2: int|
                        0 <= k2 < k ==> !(objects.dom().contains(#[trigger] rest[k2])
                            && objects[rest[k2]].header.name == name);
                assert forall|k2: int| 0 <= k2 < k + 1 implies !(objects.dom().contains(
                    #[trigger] children[k2],
                ) && objects[children[k2]].header.name == name) by {
                    if k2 > 0 {
                        assert(children[k2] == rest[k2 - 1]);
                    }
                }
                assert(children[k + 1] == x);
            }
        }
    }
}

/// Law: a lookup of a name other than `.` and `..` that succeeds gives the
/// first known child in the directory's list that bears the name.
pub proof fn lemma_lookup_gives_first_match(
    objects: Map<u64, INodeView>,
    hierarchy: Map<u64, Seq<u64>>,
    c: Config,
    parent: u64,
    name: Seq<char>,
)
    requires
        name != dot_name(),
        name != dotdot_name(),
    ensures
        spec_lookup(objects, hierarchy, c, parent, name) matches Some(a) ==> exists|k: int|
            0 <= k < hierarchy[parent].len() && hierarchy[parent][k] == a.ino && forall|k2: int|
                0 <= k2 < k ==> !(objects.dom().contains(#[trigger] hierarchy[parent][k2])
                    && objects[hierarchy[parent][k2]].header.name == name),
{
    if hierarchy.dom().contains(parent) {
        lemma_find_named_child_first(hierarchy[parent], objects, name);
    }
}

/// Law: a read of an unknown object is refused; a read of a known object
/// with no contents, or from an offset at or past the end of its contents,
/// gives no bytes.
pub proof fn lemma_read_edges(objects: Map<u64, INodeView>, ino: u64, offset: u64, size: u32)
    ensures
        !objects.dom().contains(ino) ==> spec_read(objects, ino, offset, size) is None,
        objects.dom().contains(ino) && objects[ino].data is None ==> spec_read(
            objects,
            ino,
            offset,
            size,
        ) == Some(Seq::<u8>::empty()),
        objects.dom().contains(ino) && objects[ino].data is Some && offset as usize
            >= objects[ino].data.unwrap().len() ==> spec_read(objects, ino, offset, size) == Some(Seq::<u8>::empty()),
{
}

/// Law: listing an unknown object is refused as not found, listing an
/// object that is not a directory as not a directory, and listing a
/// directory succeeds.
pub proof fn lemma_readdir_refusals(
    objects: Map<u64, INodeView>,
    hierarchy: Map<u64, Seq<u64>>,
    ino: u64,
    offset: u64,
)
    ensures
        !objects.dom().contains(ino) ==> spec_readdir(objects, hierarchy, ino, offset) == Err::<
            Seq<DirEntryView>,
            FsError,
        >(FsError::NotFound),
        objects.dom().contains(ino) && objects[ino].header.object_type != FileKind::Directory
            ==> spec_readdir(objects, hierarchy, ino, offset) == Err::<Seq<DirEntryView>, FsError>(
            FsError::NotADirectory,
        ),
        objects.dom().contains(ino) && objects[ino].header.object_type == FileKind::Directory
            ==> spec_readdir(objects, hierarchy, ino, offset) is Ok,
{
}

impl Yaffs2 {
    /// The bytes of the image.
    pub closed spec fn image_view(&self) -> Seq<u8> {
        self.image@
    }

    /// The geometry of the image.
    pub closed spec fn config_view(&self) -> Config {
        self.config
    }

    /// The objects, by id.
    pub closed spec fn objects_view(&self) -> Map<u64, INodeView> {
        object_map(self.objects)
    }

    /// The children of each directory, by directory id.
    pub closed spec fn hierarchy_view(&self) -> Map<u64, Seq<u64>> {
        hierarchy_map(self.hierarchy)
    }

    /// No directory lists a child twice, and every child is an ordinary
    /// object whose id fits in 28 bits.
    pub closed spec fn wf(&self) -> bool {
        hierarchy_wf(hierarchy_map(self.hierarchy))
    }

    /// An image with the given geometry, not scanned yet: no objects, no
    /// directory tree.
    pub fn new(
        image: Vec<u8>,
        mtd_page_size: usize,
        mtd_extra_size: usize,
        mtd_erase: usize,
        offset: usize,
    ) -> (fs: Self)
        requires
            geometry_computable(
                image@.len() as int,
                mtd_page_size as int,
                mtd_extra_size as int,
                mtd_erase as int,
            ),
        ensures
            fs.image_view() == image@,
            fs.config_view() == spec_config(
                image@.len() as int,
                mtd_page_size as int,
                mtd_extra_size as int,
                mtd_erase as int,
                offset as int,
            ),
            fs.objects_view().dom().is_empty(),
            fs.hierarchy_view().dom().is_empty(),
            fs.wf(),
    {
        let config = Config::new(image.len(), mtd_page_size, mtd_extra_size, mtd_erase, offset);
        Yaffs2 { image, objects: objects_new(), hierarchy: hierarchy_new(), config }
    }

    /// Whether the image can be scanned with its geometry without reading
    /// past its end or overflowing (see `scannable`).
    pub closed spec fn can_be_scanned(&self) -> bool {
        scannable(self.image@, self.config)
    }

    /// Scans every chunk of the image in order, building the objects and
    /// the directory tree, then fills in the contents of every file that
    /// can be rebuilt.
    pub fn init(&mut self)
        requires
            old(self).wf(),
            old(self).can_be_scanned(),
        ensures
            final(self).wf(),
            ({
                let start = scan_start(old(self).objects_view(), old(self).hierarchy_view());
                let end = scan_all(start, old(self).image_view(), old(self).config_view());
                &&& final(self).image_view() == old(self).image_view()
                &&& final(self).config_view() == old(self).config_view()
                &&& final(self).objects_view() == with_rebuilt_data(
                    end,
                    old(self).config_view().page_size as int,
                )
                &&& final(self).hierarchy_view() == end.hierarchy
            }),
    {
        let mut root_dir = INode::default();
        root_dir.object_id = YAFFS_OBJECTID_ROOT;
        root_dir.header.mode = (S_IFDIR | 0o755) as u32;
        root_dir.header.object_type = FileKind::Directory;
        root_dir.header.parent_id = YAFFS_OBJECTID_ROOT;
        objects_insert(&mut self.objects, YAFFS_OBJECTID_ROOT, root_dir);
        hierarchy_insert(&mut self.hierarchy, YAFFS_OBJECTID_ROOT, Vec::new());
        let mut files = files_new();
        let ghost start = scan_start(old(self).objects_view(), old(self).hierarchy_view());
        assert(object_map(self.objects) =~= start.objects);
        assert(hierarchy_map(self.hierarchy) =~= start.hierarchy);
        assert(file_map(files) =~= start.files);
        let ghost image = self.image@;
        let ghost c = self.config;
        let nblocks = self.config.nblocks;
        let cpb = self.config.chunks_per_block;
        let mut block: usize = 0;
        while block < nblocks
            invariant
                self.image@ == image,
                self.config == c,
                c.nblocks == nblocks,
                c.chunks_per_block == cpb,
                scannable(image, c),
                block <= nblocks,
                ({
                    let s = scan_prefix(start, image, c, (block * cpb) as nat);
                    &&& object_map(self.objects) == s.objects
                    &&& hierarchy_map(self.hierarchy) == s.hierarchy
                    &&& file_map(files) == s.files
                    &&& files_wf(s.files, c)
                }),
            decreases nblocks - block,
        {
            let mut chunk: usize = 0;
            while chunk < cpb
                invariant
                    self.image@ == image,
                    self.config == c,
                    c.nblocks == nblocks,
                    c.chunks_per_block == cpb,
                    scannable(image, c),
                    block < nblocks,
                    chunk <= cpb,
                    ({
                        let s = scan_prefix(start, image, c, (block * cpb + chunk) as nat);
                        &&& object_map(self.objects) == s.objects
                        &&& hierarchy_map(self.hierarchy) == s.hierarchy
                        &&& file_map(files) == s.files
                        &&& files_wf(s.files, c)
                    }),
                decreases cpb - chunk,
            {
                proof {
                    lemma_index_in_range(block as int, chunk as int, nblocks as int, cpb as int);
                    lemma_chunk_in_image(
                        block * cpb + chunk,
                        scan_len(c),
                        chunk_stride(c),
                        self.image.len() as int,
                    );
                }
                let chunk_idx = block * cpb + chunk;
                let ghost prev = scan_prefix(start, image, c, chunk_idx as nat);
                proof {
                    assert(header_chunk_readable(chunk_at(image, c, chunk_idx as int), c));
                    lemma_step_keeps_files_wf(prev, chunk_at(image, c, chunk_idx as int), c);
                }
                scan_chunk(
                    self.image.as_slice(),
                    &self.config,
                    &mut self.objects,
                    &mut self.hierarchy,
                    &mut files,
                    chunk_idx,
                );
                chunk += 1;
            }
            proof {
                lemma_next_block(block as int, cpb as int);
            }
            block += 1;
        }
        let ghost end = scan_prefix(start, image, c, scan_len(c) as nat);
        proof {
            assert(hierarchy_wf(start.hierarchy));
            lemma_prefix_keeps_hierarchy_wf(start, image, c, scan_len(c) as nat);
        }
        assert(file_map(files) == end.files);
        let keys = files_keys(&files);
        let mut i: usize = 0;
        while i < keys.len()
            invariant
                self.image@ == image,
                self.config == c,
                c.page_size > 0,
                keys@.no_duplicates(),
                forall|k: u64| #[trigger] keys@.contains(k) <==> end.files.dom().contains(k),
                files_wf(end.files, c),
                i <= keys.len(),
                file_map(files) == end.files.remove_keys(keys@.subrange(0, i as int).to_set()),
                object_map(self.objects) == rebuilt_for(
                    end,
                    keys@.subrange(0, i as int).to_set(),
                    c.page_size as int,
                ),
                hierarchy_map(self.hierarchy) == end.hierarchy,
            decreases keys.len() - i,
        {
            let k = keys[i];
            let ghost done = keys@.subrange(0, i as int).to_set();
            let ghost done2 = keys@.subrange(0, i + 1).to_set();
            assert(!done.contains(k)) by {
                if done.contains(k) {
                    let j = choose|j: int| 0 <= j < i && keys@.subrange(0, i as int)[j] == k;
                    assert(keys@[j] == keys@[i as int]);
                }
            }
            assert(keys@.contains(k));
            assert forall|x: u64| #[trigger] done2.contains(x) == done.insert(k).contains(x) by {
                let sub1 = keys@.subrange(0, i as int);
                let sub2 = keys@.subrange(0, i + 1);
                if done2.contains(x) {
                    let j = choose|j: int| 0 <= j < sub2.len() && sub2[j] == x;
                    if j < i {
                        assert(sub1[j] == x);
                    }
                }
                if done.contains(x) {
                    let j = choose|j: int| 0 <= j < sub1.len() && sub1[j] == x;
                    assert(sub2[j] == x);
                }
                if x == k {
                    assert(sub2[i as int] == k);
                }
            }
            assert(done2 =~= done.insert(k));
            match files_remove(&mut files, k) {
                Some(file) => {
                    match file.reconstruct(self.config.page_size) {
                        Some(data) => {
                            match objects_get(&self.objects, file.object_id) {
                                Some(current) => {
                                    let mut updated = current;
                                    updated.data = Some(data);
                                    objects_insert(&mut self.objects, file.object_id, updated);
                                },
                                None => {},
                            }
                        },
                        None => {},
                    }
                },
                None => {},
            }
            assert(file_map(files) =~= end.files.remove_keys(done2));
            assert(object_map(self.objects) =~= rebuilt_for(end, done2, c.page_size as int));
            i += 1;
        }
        assert(keys@.subrange(0, keys@.len() as int) =~= keys@);
        assert(keys@.to_set() =~= end.files.dom());
    }

    /// The attributes of object `ino`, or `None` when there is no such
    /// object.
    pub fn stat(&self, ino: u64) -> (attr: Option<FileAttr>)
        ensures
            attr == spec_stat(self.objects_view(), self.config_view(), ino),
    {
        match objects_get(&self.objects, ino) {
            Some(inode) => {
                let is_dir = inode.header.object_type == FileKind::Directory;
                let size: u64 = if is_dir {
                    0
                } else {
                    match &inode.data {
                        Some(d) => d.len() as u64,
                        None => 0,
                    }
                };
                let blocks = size / 512 + if size % 512 != 0 {
                    1
                } else {
                    0
                };
                assert(blocks == (size + 511) / 512);
                Some(
                    FileAttr {
                        ino,
                        size,
                        blocks,
                        atime: inode.header.atime,
                        mtime: inode.header.mtime,
                        ctime: inode.header.ctime,
                        crtime: inode.header.ctime,
                        kind: inode.header.object_type,
                        perm: (inode.header.mode & 0o777) as u16,
                        nlink: if is_dir {
                            2
                        } else {
                            1
                        },
                        uid: inode.header.uid,
                        gid: inode.header.gid,
                        rdev: inode.header.rdev,
                        blksize: self.config.page_size as u32,
                        flags: 0,
                    },
                )
            },
            None => None,
        }
    }

    /// Whether object `ino` exists, which is all that opening it asks.
    pub fn open(&self, ino: u64) -> (found: bool)
        ensures
            found == self.objects_view().dom().contains(ino),
    {
        objects_contains(&self.objects, ino)
    }

    /// Up to `size` bytes of the contents of object `ino` from `offset`;
    /// `None` when there is no such object.
    pub fn read(&self, ino: u64, offset: u64, size: u32) -> (bytes: Option<Vec<u8>>)
        requires
            read_computable(self.objects_view(), ino, offset, size),
        ensures
            match bytes {
                Some(b) => spec_read(self.objects_view(), ino, offset, size) == Some(b@),
                None => spec_read(self.objects_view(), ino, offset, size) is None,
            },
    {
        match objects_get(&self.objects, ino) {
            Some(inode) => {
                match &inode.data {
                    Some(data) => {
                        let start = offset as usize;
                        let want = start + size as usize;
                        let end = if want < data.len() {
                            want
                        } else {
                            data.len()
                        };
                        if start >= data.len() {
                            Some(Vec::new())
                        } else {
                            let part = vstd::slice::slice_subrange(data.as_slice(), start, end);
                            Some(vstd::slice::slice_to_vec(part))
                        }
                    },
                    None => Some(Vec::new()),
                }
            },
            None => None,
        }
    }

    /// The figures of the whole filesystem: every block counted as total,
    /// free and available, the number of objects, no limit on new ones,
    /// the page size as block and fragment size, names up to 255 bytes.
    pub fn statfs(&self) -> (st: StatFs)
        ensures
            st == spec_statfs(self.config_view(), self.objects_view().dom().len()),
    {
        let count = objects_len(&self.objects);
        assert(!0u64 == u64::MAX) by (bit_vector);
        StatFs {
            blocks: self.config.nblocks as u64,
            bfree: self.config.nblocks as u64,
            bavail: self.config.nblocks as u64,
            files: count as u64,
            ffree: !0u64,
            bsize: self.config.page_size as u32,
            namelen: crate::yaffs2::consts::YAFFS_MAX_NAME_LENGTH as u32,
            frsize: self.config.page_size as u32,
        }
    }

    /// Looks up `name` in directory `parent`: `.` gives the directory and
    /// `..` its parent when those exist, any other name the first child of
    /// the directory so named; `None` when nothing matches.
    pub fn lookup(&self, parent: u64, name: &str) -> (attr: Option<FileAttr>)
        ensures
            attr == spec_lookup(
                self.objects_view(),
                self.hierarchy_view(),
                self.config_view(),
                parent,
                name@,
            ),
    {
        let target = name.to_owned();
        let dot = ".".to_owned();
        let dotdot = "..".to_owned();
        proof {
            reveal_strlit(".");
            reveal_strlit("..");
            assert(dot@ =~= dot_name());
            assert(dotdot@ =~= dotdot_name());
        }
        if target == dot {
            if let Some(attr) = self.stat(parent) {
                return Some(attr);
            }
        }
        if target == dotdot {
            if let Some(inode) = objects_get(&self.objects, parent) {
                let parent_id = inode.header.parent_id;
                if let Some(attr) = self.stat(parent_id) {
                    return Some(attr);
                }
            }
        }
        match hierarchy_get(&self.hierarchy, parent) {
            Some(children) => {
                let ghost all = children@;
                assert(all.subrange(0, all.len() as int) =~= all);
                let mut i: usize = 0;
                while i < children.len()
                    invariant
                        i <= children.len(),
                        all == children@,
                        hierarchy_map(self.hierarchy).dom().contains(parent),
                        all == hierarchy_map(self.hierarchy)[parent],
                        target@ == name@,
                        !(target@ == dot_name() && spec_stat(
                            object_map(self.objects),
                            self.config,
                            parent,
                        ) is Some),
                        !(target@ == dotdot_name() && object_map(self.objects).dom().contains(parent)
                            && spec_stat(
                            object_map(self.objects),
                            self.config,
                            object_map(self.objects)[parent].header.parent_id,
                        ) is Some),
                        find_named_child(all, object_map(self.objects), target@)
                            == find_named_child(
                            all.subrange(i as int, all.len() as int),
                            object_map(self.objects),
                            target@,
                        ),
                    decreases children.len() - i,
                {
                    let child_ino = children[i];
                    let ghost rest = all.subrange(i as int, all.len() as int);
                    assert(rest.drop_first() =~= all.subrange(i + 1, all.len() as int));
                    assert(rest[0] == child_ino);
                    if let Some(child) = objects_get(&self.objects, child_ino) {
                        if child.header.name == target {
                            assert(find_named_child(rest, object_map(self.objects), target@) == Some(
                                child_ino,
                            ));
                            if let Some(attr) = self.stat(child_ino) {
                                return Some(attr);
                            }
                        }
                    }
                    i += 1;
                }
                assert(all.subrange(i as int, all.len() as int).len() == 0);
                None
            },
            None => None,
        }
    }

    /// Lists directory `ino` from entry `offset` on: `.`, `..` and its
    /// known children, each with its position; `NotFound` when there is no
    /// such object and `NotADirectory` when it is not a directory.
    pub fn readdir(&self, ino: u64, offset: u64) -> (listing: Result<Vec<DirEntry>, FsError>)
        requires
            self.wf(),
        ensures
            match listing {
                Ok(entries) => spec_readdir(self.objects_view(), self.hierarchy_view(), ino, offset)
                    == Ok::<Seq<DirEntryView>, FsError>(entries@.map_values(|e: DirEntry| e@)),
                Err(e) => spec_readdir(self.objects_view(), self.hierarchy_view(), ino, offset)
                    == Err::<Seq<DirEntryView>, FsError>(e),
            },
    {
        let inode = match objects_get(&self.objects, ino) {
            Some(inode) => inode,
            None => {
                return Err(FsError::NotFound);
            },
        };
        if inode.header.object_type != FileKind::Directory {
            return Err(FsError::NotADirectory);
        }
        let children = match hierarchy_get(&self.hierarchy, ino) {
            Some(c) => c,
            None => Vec::new(),
        };
        let ghost objs = object_map(self.objects);
        let ghost kids = children_of(hierarchy_map(self.hierarchy), ino);
        assert(children@ == kids);
        proof {
            if hierarchy_map(self.hierarchy).dom().contains(ino) {
                lemma_bounded_unique_len(kids, 0x10000000);
            }
        }
        let mut entries: Vec<DirEntry> = Vec::new();
        let dot = ".".to_owned();
        let dotdot = "..".to_owned();
        proof {
            reveal_strlit(".");
            reveal_strlit("..");
            assert(dot@ =~= dot_name());
            assert(dotdot@ =~= dotdot_name());
        }
        entries.push(DirEntry { ino, offset: 1, kind: FileKind::Directory, name: dot });
        let parent_id = if ino == YAFFS_OBJECTID_ROOT {
            YAFFS_OBJECTID_ROOT
        } else {
            inode.header.parent_id
        };
        entries.push(DirEntry { ino: parent_id, offset: 2, kind: FileKind::Directory, name: dotdot });
        let ghost full = dir_listing(objs, hierarchy_map(self.hierarchy), ino);
        let ghost head = seq![
            DirEntryView { ino, offset: 1, kind: FileKind::Directory, name: dot_name() },
            DirEntryView { ino: parent_id, offset: 2, kind: FileKind::Directory, name: dotdot_name() },
        ];
        assert(entries@.map_values(|e: DirEntry| e@) =~= head);
        let mut i: usize = 0;
        while i < children.len()
            invariant
                i <= children.len(),
                children@ == kids,
                kids.len() <= 0x10000000,
                objs == object_map(self.objects),
                full == head + child_entries(kids, objs, 0),
                entries@.map_values(|e: DirEntry| e@) + child_entries(kids, objs, i as int) == full,
            decreases children.len() - i,
        {
            let child_ino = children[i];
            let ghost before = entries@.map_values(|e: DirEntry| e@);
            if let Some(child) = objects_get(&self.objects, child_ino) {
                let position = (i + 3) as i64;
                entries.push(
                    DirEntry {
                        ino: child_ino,
                        offset: position,
                        kind: child.header.object_type,
                        name: child.header.name.clone(),
                    },
                );
                assert(entries@.map_values(|e: DirEntry| e@) =~= before.push(
                    DirEntryView {
                        ino: child_ino,
                        offset: (i + 3) as i64,
                        kind: objs[child_ino].header.object_type,
                        name: objs[child_ino].header.name,
                    },
                ));
            }
            i += 1;
        }
        assert(entries@.map_values(|e: DirEntry| e@) =~= full);
        let skip = offset as usize;
        let mut listing: Vec<DirEntry> = Vec::new();
        let mut j = skip;
        while j < entries.len()
            invariant
                skip <= j,
                entries@.map_values(|e: DirEntry| e@) == full,
                skip < entries.len() ==> j <= entries.len(),
                skip < entries.len() ==> listing@.map_values(|e: DirEntry| e@) =~= full.subrange(
                    skip as int,
                    j as int,
                ),
                skip >= entries.len() ==> listing@.len() == 0,
            decreases entries.len() - j,
        {
            let e = DirEntry {
                ino: entries[j].ino,
                offset: entries[j].offset,
                kind: entries[j].kind,
                name: entries[j].name.clone(),
            };
            let ghost before = listing@.map_values(|e: DirEntry| e@);
            assert(e@ == full[j as int]);
            listing.push(e);
            assert(listing@.map_values(|e: DirEntry| e@) =~= before.push(full[j as int]));
            j += 1;
        }
        assert(listing@.map_values(|e: DirEntry| e@) =~= (if skip >= full.len() {
            Seq::empty()
        } else {
            full.subrange(skip as int, full.len() as int)
        }));
        Ok(listing)
    }

    /// The bytes of chunk `chunk` of the image: its page and its spare area.
    pub fn cread(&self, chunk: usize) -> (out: &[u8])
        requires
            chunk * chunk_stride(self.config_view()) + chunk_stride(self.config_view())
                <= self.image_view().len(),
        ensures
            out@ == chunk_at(self.image_view(), self.config_view(), chunk as int),
    {
        chunk_bytes(self.image.as_slice(), &self.config, chunk)
    }

    /// Whether a scan of the image with its geometry stays in bounds and
    /// free of overflow, which `init` needs.
    pub fn can_scan(&self) -> (ok: bool)
        ensures
            ok == self.can_be_scanned(),
    {
        let c = &self.config;
        if c.page_size == 0 {
            return false;
        }
        let tags_fit = match c.page_size.checked_add(c.tags_offset) {
            Some(start) => start.checked_add(PACKED_TAGS_SIZE).is_some(),
            None => false,
        };
        if !tags_fit {
            return false;
        }
        let n = match c.nblocks.checked_mul(c.chunks_per_block) {
            Some(n) => n,
            None => {
                proof {
                    lemma_mul_exceeds(scan_len(*c), chunk_stride(*c), self.image.len() as int);
                }
                return false;
            },
        };
        if n == 0 {
            assert(scan_len(*c) * chunk_stride(*c) == 0) by (nonlinear_arith)
                requires
                    scan_len(*c) == 0,
            ;
            return true;
        }
        let stride = match c.page_size.checked_add(c.extra_size) {
            Some(stride) => stride,
            None => {
                proof {
                    lemma_mul_exceeds(chunk_stride(*c), scan_len(*c), self.image.len() as int);
                    assert(scan_len(*c) * chunk_stride(*c) == chunk_stride(*c) * scan_len(*c)) by (nonlinear_arith);
                }
                return false;
            },
        };
        let total = match n.checked_mul(stride) {
            Some(total) => total,
            None => {
                assert(n * stride > self.image.len());
                return false;
            },
        };
        if total > self.image.len() {
            return false;
        }
        let mut i: usize = 0;
        while i < n
            invariant
                i <= n,
                n == scan_len(*c),
                c == &self.config,
                c.page_size > 0,
                stride == chunk_stride(*c),
                n * stride <= self.image@.len(),
                tags_start(*c) + PACKED_TAGS_SIZE <= usize::MAX,
                forall|j: int| 0 <= j < i ==> #[trigger] header_chunk_readable(
                    chunk_at(self.image@, *c, j),
                    *c,
                ),
            decreases n - i,
        {
            proof {
                lemma_chunk_in_image(i as int, n as int, stride as int, self.image.len() as int);
            }
            let chunk = self.cread(i);
            let ghost bytes = chunk@;
            let start = c.page_size + c.tags_offset;
            if start + PACKED_TAGS_SIZE <= chunk.len() {
                let tags = Tags::from(PackedTags::read_at(chunk, start));
                assert(spec_tags_of(bytes, *c) == Some(tags));
                if tags.is_valid(c.page_size) && tags.is_header {
                    if chunk.len() < OBJECT_HEADER_SIZE {
                        assert(!header_chunk_readable(chunk_at(self.image@, *c, i as int), *c));
                        return false;
                    }
                    let size_field = u32_from(chunk, 292);
                    if size_field as usize > usize::MAX - c.page_size {
                        assert(!header_chunk_readable(chunk_at(self.image@, *c, i as int), *c));
                        return false;
                    }
                }
            }
            i += 1;
        }
        true
    }

    /// Whether a read of `size` bytes at `offset` of object `ino` can be
    /// answered without overflow, which `read` needs.
    pub fn can_read(&self, ino: u64, offset: u64, size: u32) -> (ok: bool)
        ensures
            ok == read_computable(self.objects_view(), ino, offset, size),
    {
        match objects_get(&self.objects, ino) {
            Some(inode) => match &inode.data {
                Some(_) => (offset as usize).checked_add(size as usize).is_some(),
                None => true,
            },
            None => true,
        }
    }
}

} // verus!
