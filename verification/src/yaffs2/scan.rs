//! What a scan of an image builds, chunk after chunk: the objects, the
//! directory tree and the files being rebuilt.

use vstd::prelude::*;
use crate::yaffs2::config::Config;
use crate::yaffs2::consts::{S_IFDIR, YAFFS_OBJECTID_DELETED, YAFFS_OBJECTID_ROOT, YAFFS_OBJECTID_UNLINKED};
use crate::yaffs2::file_data::{FileDataView, empty_file};
use crate::yaffs2::inode::INodeView;
use crate::yaffs2::object_header::{
    HeaderView, ObjectHeader, default_header, header_encoded_by, latin1, presented_mode,
    spec_header_of, trim_nul,
};
use crate::yaffs2::object_type::FileKind;
use crate::yaffs2::tags::{lemma_decoded_ids_fit, Tags, PACKED_TAGS_SIZE, spec_packed_tags_at, spec_tags_from_packed, spec_tags_valid, u32_le};

verus! {

/// Where the scan stands: the objects by id, the children of each
/// directory in the order they were found, and the files being rebuilt.
pub struct ScanState {
    pub objects: Map<u64, INodeView>,
    pub hierarchy: Map<u64, Seq<u64>>,
    pub files: Map<u64, FileDataView>,
}

/// The distance in bytes from one chunk of the image to the next: a page
/// and its spare area.
pub open spec fn chunk_stride(c: Config) -> int {
    c.page_size + c.extra_size
}

/// The number of chunks a scan reads.
pub open spec fn scan_len(c: Config) -> int {
    c.nblocks * c.chunks_per_block
}

/// The bytes of chunk `i` of the image: its page and its spare area.
pub open spec fn chunk_at(image: Seq<u8>, c: Config, i: int) -> Seq<u8> {
    image.subrange(i * chunk_stride(c), i * chunk_stride(c) + chunk_stride(c))
}

/// Where the packed tags start in a chunk.
pub open spec fn tags_start(c: Config) -> int {
    c.page_size + c.tags_offset
}

/// The tags of a chunk, when the chunk is long enough to hold them.
pub open spec fn spec_tags_of(chunk: Seq<u8>, c: Config) -> Option<Tags> {
    if tags_start(c) + PACKED_TAGS_SIZE <= chunk.len() {
        Some(spec_tags_from_packed(spec_packed_tags_at(chunk, tags_start(c))))
    } else {
        None
    }
}

/// The tags of a chunk, when it holds tags that the scan accepts.
pub open spec fn spec_live_tags(chunk: Seq<u8>, c: Config) -> Option<Tags> {
    match spec_tags_of(chunk, c) {
        Some(t) => if spec_tags_valid(t, c.page_size as int) {
            Some(t)
        } else {
            None
        },
        None => None,
    }
}

/// The presented header that an object-header chunk holds.
pub open spec fn header_of_bytes(bytes: Seq<u8>) -> HeaderView {
    HeaderView {
        object_type: if u32_le(bytes, 0) == 3 {
            FileKind::Directory
        } else {
            FileKind::RegularFile
        },
        parent_id: u32_le(bytes, 4) as u64,
        name: trim_nul(latin1(bytes.subrange(10, 266))),
        mode: presented_mode(),
        uid: u32_le(bytes, 272),
        gid: u32_le(bytes, 276),
        atime: u32_le(bytes, 280),
        mtime: u32_le(bytes, 284),
        ctime: u32_le(bytes, 288),
        size: u32_le(bytes, 292),
        rdev: u32_le(bytes, 460),
    }
}

/// The header a header chunk gives its object: the one it holds, with the
/// root always its own parent.
pub open spec fn chunk_header(chunk: Seq<u8>, object_id: u64) -> HeaderView {
    let h = header_of_bytes(chunk);
    if object_id == YAFFS_OBJECTID_ROOT {
        HeaderView { parent_id: YAFFS_OBJECTID_ROOT, ..h }
    } else {
        h
    }
}

/// Objects that never appear among the children of a directory: the root
/// and the pseudo-directories of unlinked and deleted objects.
pub open spec fn is_special_object(id: u64) -> bool {
    id == YAFFS_OBJECTID_ROOT || id == YAFFS_OBJECTID_UNLINKED || id == YAFFS_OBJECTID_DELETED
}

/// The children of `parent`, none when it has no entry.
pub open spec fn children_of(hierarchy: Map<u64, Seq<u64>>, parent: u64) -> Seq<u64> {
    if hierarchy.dom().contains(parent) {
        hierarchy[parent]
    } else {
        Seq::empty()
    }
}

/// `child` added at the end of the children of `parent`, unless it is among
/// them already.
pub open spec fn add_child(hierarchy: Map<u64, Seq<u64>>, parent: u64, child: u64) -> Map<
    u64,
    Seq<u64>,
> {
    let children = children_of(hierarchy, parent);
    hierarchy.insert(
        parent,
        if children.contains(child) {
            children
        } else {
            children.push(child)
        },
    )
}

/// The file being rebuilt for `id`, a fresh one when there is none.
pub open spec fn file_or_new(files: Map<u64, FileDataView>, id: u64) -> FileDataView {
    if files.dom().contains(id) {
        files[id]
    } else {
        empty_file(id)
    }
}

/// What an object-header chunk of object `id` with sequence number `seq`
/// does to the objects: an unknown object is created with this header; the
/// header and sequence number of a known one are replaced only when the
/// chunk is newer.
pub open spec fn objects_after_header(
    objects: Map<u64, INodeView>,
    id: u64,
    seq: u64,
    h: HeaderView,
) -> Map<u64, INodeView> {
    if !objects.dom().contains(id) {
        objects.insert(
            id,
            INodeView { header: h, object_id: id, sequence_number: seq, data: None },
        )
    } else if seq > objects[id].sequence_number {
        objects.insert(id, INodeView { header: h, sequence_number: seq, ..objects[id] })
    } else {
        objects
    }
}

/// What one chunk does to the state of the scan. Chunks without accepted
/// tags change nothing. An object-header chunk updates its object, adds it
/// under its parent (unless it is a special object) and records the header
/// and size of its file; a data chunk stores its first `num_data_bytes`
/// bytes as chunk `chunk_id` of its file.
pub open spec fn scan_step(s: ScanState, chunk: Seq<u8>, c: Config) -> ScanState {
    match spec_live_tags(chunk, c) {
        Some(t) => {
            let id = t.object_id;
            let file = file_or_new(s.files, id);
            if t.is_header {
                let h = chunk_header(chunk, id);
                ScanState {
                    objects: objects_after_header(s.objects, id, t.sequence_number, h),
                    hierarchy: if is_special_object(id) {
                        s.hierarchy
                    } else {
                        add_child(s.hierarchy, h.parent_id, id)
                    },
                    files: s.files.insert(
                        id,
                        FileDataView { header: Some(h), size: h.size as usize, ..file },
                    ),
                }
            } else {
                let data = chunk.subrange(0, t.num_data_bytes as int);
                ScanState {
                    files: s.files.insert(
                        id,
                        FileDataView {
                            chunks: file.chunks.insert(t.chunk_id as usize, data),
                            ..file
                        },
                    ),
                    ..s
                }
            }
        },
        None => s,
    }
}

/// The root directory as a scan first creates it.
pub open spec fn root_inode() -> INodeView {
    INodeView {
        header: HeaderView {
            mode: (S_IFDIR | 0o755) as u32,
            object_type: FileKind::Directory,
            parent_id: YAFFS_OBJECTID_ROOT,
            ..default_header()
        },
        object_id: YAFFS_OBJECTID_ROOT,
        sequence_number: 0,
        data: None,
    }
}

/// The state a scan starts from: the objects and tree there were, with the
/// root directory (re)created and without children, and no files.
pub open spec fn scan_start(objects: Map<u64, INodeView>, hierarchy: Map<u64, Seq<u64>>) -> ScanState {
    ScanState {
        objects: objects.insert(YAFFS_OBJECTID_ROOT, root_inode()),
        hierarchy: hierarchy.insert(YAFFS_OBJECTID_ROOT, Seq::empty()),
        files: Map::empty(),
    }
}

/// The state after the first `n` chunks of the image.
pub open spec fn scan_prefix(start: ScanState, image: Seq<u8>, c: Config, n: nat) -> ScanState
    decreases n,
{
    if n == 0 {
        start
    } else {
        scan_step(scan_prefix(start, image, c, (n - 1) as nat), chunk_at(image, c, n - 1), c)
    }
}

/// The state after a whole scan.
pub open spec fn scan_all(start: ScanState, image: Seq<u8>, c: Config) -> ScanState {
    scan_prefix(start, image, c, scan_len(c) as nat)
}

/// A header chunk of an image can be read whole, and the chunk count of
/// the file it describes computed, without overflow.
pub open spec fn header_chunk_readable(chunk: Seq<u8>, c: Config) -> bool {
    match spec_live_tags(chunk, c) {
        Some(t) => t.is_header ==> {
            &&& 512 <= chunk.len()
            &&& u32_le(chunk, 292) + c.page_size <= usize::MAX
        },
        None => true,
    }
}

/// The images and geometries a scan reads without going out of bounds or
/// overflowing: every chunk lies inside the image, the tags offset can be
/// added to the page size, and every header chunk is readable.
pub open spec fn scannable(image: Seq<u8>, c: Config) -> bool {
    &&& c.page_size > 0
    &&& scan_len(c) * chunk_stride(c) <= image.len()
    &&& tags_start(c) + PACKED_TAGS_SIZE <= usize::MAX
    &&& forall|i: int| 0 <= i < scan_len(c) ==> #[trigger] header_chunk_readable(chunk_at(image, c, i), c)
}

/// No directory lists a child twice, and every child is an ordinary
/// object whose id fits in 28 bits.
pub open spec fn hierarchy_wf(h: Map<u64, Seq<u64>>) -> bool {
    forall|p: u64|
        #[trigger] h.dom().contains(p) ==> {
            &&& h[p].no_duplicates()
            &&& forall|j: int|
                0 <= j < h[p].len() ==> #[trigger] h[p][j] < 0x10000000 && !is_special_object(
                    h[p][j],
                )
        }
}

/// The ids that tags carry fit in 28 bits.
pub proof fn lemma_live_tags_ids_fit(chunk: Seq<u8>, c: Config)
    ensures
        spec_live_tags(chunk, c) matches Some(t) ==> t.object_id < 0x10000000 && t.chunk_id
            < 0x10000000,
{
    if tags_start(c) + PACKED_TAGS_SIZE <= chunk.len() {
        lemma_decoded_ids_fit(spec_packed_tags_at(chunk, tags_start(c)));
    }
}

/// Adding a child keeps every list free of repeats and of special or
/// oversized ids.
pub proof fn lemma_add_child_wf(h: Map<u64, Seq<u64>>, parent: u64, child: u64)
    requires
        hierarchy_wf(h),
        child < 0x10000000,
        !is_special_object(child),
    ensures
        hierarchy_wf(add_child(h, parent, child)),
{
    let h2 = add_child(h, parent, child);
    let old_children = children_of(h, parent);
    assert forall|p: u64| #[trigger] h2.dom().contains(p) implies {
        &&& h2[p].no_duplicates()
        &&& forall|j: int|
            0 <= j < h2[p].len() ==> #[trigger] h2[p][j] < 0x10000000 && !is_special_object(h2[p][j])
    } by {
        if p == parent && !old_children.contains(child) {
            let l = old_children.push(child);
            assert forall|i: int, j: int| 0 <= i < l.len() && 0 <= j < l.len() && i != j implies l[i]
                != l[j] by {
                if i == old_children.len() as int {
                    assert(old_children[j] == l[j]);
                } else if j == old_children.len() as int {
                    assert(old_children[i] == l[i]);
                }
            }
            assert forall|j: int| 0 <= j < l.len() implies #[trigger] l[j] < 0x10000000
                && !is_special_object(l[j]) by {
                if j < old_children.len() {
                    assert(l[j] == old_children[j]);
                }
            }
        }
    }
}

/// A scan step keeps the directory lists well formed.
pub proof fn lemma_step_keeps_hierarchy_wf(s: ScanState, chunk: Seq<u8>, c: Config)
    requires
        hierarchy_wf(s.hierarchy),
    ensures
        hierarchy_wf(scan_step(s, chunk, c).hierarchy),
{
    lemma_live_tags_ids_fit(chunk, c);
    if let Some(t) = spec_live_tags(chunk, c) {
        if t.is_header && !is_special_object(t.object_id) {
            lemma_add_child_wf(s.hierarchy, chunk_header(chunk, t.object_id).parent_id, t.object_id);
        }
    }
}

/// A scan keeps the directory lists well formed, chunk after chunk.
pub proof fn lemma_prefix_keeps_hierarchy_wf(start: ScanState, image: Seq<u8>, c: Config, n: nat)
    requires
        hierarchy_wf(start.hierarchy),
    ensures
        hierarchy_wf(scan_prefix(start, image, c, n).hierarchy),
    decreases n,
{
    if n > 0 {
        lemma_prefix_keeps_hierarchy_wf(start, image, c, (n - 1) as nat);
        lemma_step_keeps_hierarchy_wf(
            scan_prefix(start, image, c, (n - 1) as nat),
            chunk_at(image, c, n - 1),
            c,
        );
    }
}

/// A list without repeats of numbers below `bound` has at most `bound`
/// entries.
pub proof fn lemma_bounded_unique_len(s: Seq<u64>, bound: u64)
    requires
        s.no_duplicates(),
        forall|j: int| 0 <= j < s.len() ==> #[trigger] s[j] < bound,
    ensures
        s.len() <= bound,
{
    let f = |x: u64| x as int;
    let t = s.map_values(f);
    assert(vstd::relations::injective(f));
    s.lemma_no_duplicates_injective(f);
    t.unique_seq_to_set();
    vstd::set_lib::lemma_int_range(0, bound as int);
    assert forall|x: int| #[trigger] t.to_set().contains(x) implies vstd::set_lib::set_int_range(
        0,
        bound as int,
    ).contains(x) by {
        let j = choose|j: int| 0 <= j < t.len() && t[j] == x;
        assert(s[j] < bound);
    }
    vstd::set_lib::lemma_len_subset(t.to_set(), vstd::set_lib::set_int_range(0, bound as int));
}


/// A scan step never forgets an object and never lowers the sequence
/// number of the header an object holds.
pub proof fn lemma_step_monotone(s: ScanState, chunk: Seq<u8>, c: Config)
    ensures
        forall|o: u64|
            #[trigger] s.objects.dom().contains(o) ==> scan_step(s, chunk, c).objects.dom().contains(o)
                && s.objects[o].sequence_number <= scan_step(s, chunk, c).objects[o].sequence_number,
{
}

/// Law: a scan never forgets an object and never lowers the sequence
/// number of an object's header.
pub proof fn lemma_scan_monotone(start: ScanState, image: Seq<u8>, c: Config, n: nat, m: nat)
    requires
        n <= m,
    ensures
        forall|o: u64|
            #[trigger] scan_prefix(start, image, c, n).objects.dom().contains(o) ==> scan_prefix(
                start,
                image,
                c,
                m,
            ).objects.dom().contains(o) && scan_prefix(start, image, c, n).objects[o].sequence_number
                <= scan_prefix(start, image, c, m).objects[o].sequence_number,
    decreases m - n,
{
    if n < m {
        lemma_scan_monotone(start, image, c, n, (m - 1) as nat);
        lemma_step_monotone(
            scan_prefix(start, image, c, (m - 1) as nat),
            chunk_at(image, c, m - 1),
            c,
        );
    }
}

/// Law (only newer versions replace an object's header): after the first
/// `n` chunks, every object that one of them holds a live header chunk for
/// is known, with a sequence number at least that of the chunk.
pub proof fn lemma_newest_header_kept(start: ScanState, image: Seq<u8>, c: Config, n: nat, i: nat)
    requires
        i < n,
        spec_live_tags(chunk_at(image, c, i as int), c) matches Some(t) && t.is_header,
    ensures
        ({
            let t = spec_live_tags(chunk_at(image, c, i as int), c).unwrap();
            let objects = scan_prefix(start, image, c, n).objects;
            &&& objects.dom().contains(t.object_id)
            &&& objects[t.object_id].sequence_number >= t.sequence_number
        }),
{
    let t = spec_live_tags(chunk_at(image, c, i as int), c).unwrap();
    let after = scan_prefix(start, image, c, i + 1);
    assert(after.objects.dom().contains(t.object_id));
    assert(after.objects[t.object_id].sequence_number >= t.sequence_number);
    lemma_scan_monotone(start, image, c, i + 1, n);
}


/// Chunk `i` of the image is a live header chunk of object `o` that carries
/// the header and sequence number of `v`.
pub open spec fn version_from_chunk(image: Seq<u8>, c: Config, i: int, o: u64, v: INodeView) -> bool {
    spec_live_tags(chunk_at(image, c, i), c) matches Some(t) && t.is_header && t.object_id == o
        && t.sequence_number == v.sequence_number && chunk_header(chunk_at(image, c, i), o)
        == v.header
}

/// The header and sequence number of `v` are those object `o` started the
/// scan with, or those of one of the first `n` chunks.
pub open spec fn version_origin(
    start: ScanState,
    image: Seq<u8>,
    c: Config,
    n: nat,
    o: u64,
    v: INodeView,
) -> bool {
    ||| start.objects.dom().contains(o) && v.header == start.objects[o].header && v.sequence_number
        == start.objects[o].sequence_number
    ||| exists|i: int| 0 <= i < n && #[trigger] version_from_chunk(image, c, i, o, v)
}

/// Law (the header an object holds is a real version of it): after the
/// first `n` chunks, every object holds either the header and sequence
/// number it started with or those of a header chunk of its own among them.
/// With `lemma_newest_header_kept`, the header kept is one of the newest.
pub proof fn lemma_header_has_origin(start: ScanState, image: Seq<u8>, c: Config, n: nat)
    ensures
        forall|o: u64|
            #[trigger] scan_prefix(start, image, c, n).objects.dom().contains(o) ==> version_origin(
                start,
                image,
                c,
                n,
                o,
                scan_prefix(start, image, c, n).objects[o],
            ),
    decreases n,
{
    if n > 0 {
        let m = (n - 1) as nat;
        lemma_header_has_origin(start, image, c, m);
        let prev = scan_prefix(start, image, c, m);
        let chunk = chunk_at(image, c, m as int);
        let cur = scan_prefix(start, image, c, n);
        assert(cur == scan_step(prev, chunk, c));
        assert forall|o: u64| #[trigger] cur.objects.dom().contains(o) implies version_origin(
            start,
            image,
            c,
            n,
            o,
            cur.objects[o],
        ) by {
            let v = cur.objects[o];
            let changed = match spec_live_tags(chunk, c) {
                Some(t) => t.is_header && t.object_id == o && (!prev.objects.dom().contains(o)
                    || t.sequence_number > prev.objects[o].sequence_number),
                None => false,
            };
            if changed {
                assert(version_from_chunk(image, c, m as int, o, v));
            } else {
                assert(prev.objects.dom().contains(o));
                assert(v.header == prev.objects[o].header);
                assert(v.sequence_number == prev.objects[o].sequence_number);
                assert(version_origin(start, image, c, m, o, prev.objects[o]));
                if !(start.objects.dom().contains(o) && v.header == start.objects[o].header
                    && v.sequence_number == start.objects[o].sequence_number) {
                    let i = choose|i: int| 0 <= i < m && #[trigger] version_from_chunk(
                        image,
                        c,
                        i,
                        o,
                        prev.objects[o],
                    );
                    assert(version_from_chunk(image, c, i, o, v));
                }
            }
        }
    }
}


/// Chunk `i` of the image is a live data chunk of object `o`, numbered `j`
/// within its file, whose data bytes are `bytes`.
pub open spec fn data_from_chunk(image: Seq<u8>, c: Config, i: int, o: u64, j: usize, bytes: Seq<u8>) -> bool {
    spec_live_tags(chunk_at(image, c, i), c) matches Some(t) && !t.is_header && t.object_id == o
        && t.chunk_id as usize == j && bytes == chunk_at(image, c, i).subrange(
        0,
        t.num_data_bytes as int,
    )
}

/// Law (file contents come from the image): after the first `n` chunks of
/// a scan that started with no files, every data chunk a file holds is the
/// data of a live data chunk of that file, with that number, among them.
pub proof fn lemma_file_chunks_have_origin(start: ScanState, image: Seq<u8>, c: Config, n: nat)
    requires
        start.files.dom().is_empty(),
    ensures
        forall|o: u64, j: usize|
            #[trigger] scan_prefix(start, image, c, n).files.dom().contains(o)
                && #[trigger] scan_prefix(start, image, c, n).files[o].chunks.dom().contains(j)
                ==> exists|i: int|
                0 <= i < n && #[trigger] data_from_chunk(
                    image,
                    c,
                    i,
                    o,
                    j,
                    scan_prefix(start, image, c, n).files[o].chunks[j],
                ),
    decreases n,
{
    if n > 0 {
        let m = (n - 1) as nat;
        lemma_file_chunks_have_origin(start, image, c, m);
        let prev = scan_prefix(start, image, c, m);
        let chunk = chunk_at(image, c, m as int);
        let cur = scan_prefix(start, image, c, n);
        assert(cur == scan_step(prev, chunk, c));
        assert forall|o: u64, j: usize|
            #[trigger] cur.files.dom().contains(o) && #[trigger] cur.files[o].chunks.dom().contains(
                j,
            ) implies exists|i: int|
            0 <= i < n && #[trigger] data_from_chunk(image, c, i, o, j, cur.files[o].chunks[j]) by {
            let stored = match spec_live_tags(chunk, c) {
                Some(t) => !t.is_header && t.object_id == o && t.chunk_id as usize == j,
                None => false,
            };
            if stored {
                assert(data_from_chunk(image, c, m as int, o, j, cur.files[o].chunks[j]));
            } else {
                assert(prev.files.dom().contains(o));
                assert(prev.files[o].chunks.dom().contains(j));
                assert(cur.files[o].chunks[j] == prev.files[o].chunks[j]);
                let i = choose|i: int| 0 <= i < m && #[trigger] data_from_chunk(
                    image,
                    c,
                    i,
                    o,
                    j,
                    prev.files[o].chunks[j],
                );
                assert(data_from_chunk(image, c, i, o, j, cur.files[o].chunks[j]));
            }
        }
    }
}


/// Law: a header chunk leaves the data chunks of its file as they were,
/// so data chunks scanned before the header of their file are kept.
pub proof fn lemma_header_keeps_file_chunks(s: ScanState, chunk: Seq<u8>, c: Config)
    requires
        spec_live_tags(chunk, c) matches Some(t) && t.is_header,
    ensures
        ({
            let id = spec_live_tags(chunk, c).unwrap().object_id;
            let after = scan_step(s, chunk, c).files;
            &&& after.dom().contains(id)
            &&& s.files.dom().contains(id) ==> after[id].chunks == s.files[id].chunks
            &&& !s.files.dom().contains(id) ==> after[id].chunks.dom().is_empty()
        }),
{
}

/// Chunk `i` of the image is a live data chunk of object `o` numbered `j`.
pub open spec fn is_data_chunk_of(image: Seq<u8>, c: Config, i: int, o: u64, j: usize) -> bool {
    spec_live_tags(chunk_at(image, c, i), c) matches Some(t) && !t.is_header && t.object_id == o
        && t.chunk_id as usize == j
}

/// Law (data chunks are kept whatever the order of header and data
/// chunks): after the first `n` chunks, the last live data chunk of object
/// `o` numbered `j` among them is the chunk `j` of the file of `o`: its
/// first `num_data_bytes` bytes.
pub proof fn lemma_last_data_chunk_kept(
    start: ScanState,
    image: Seq<u8>,
    c: Config,
    n: nat,
    i: nat,
    o: u64,
    j: usize,
)
    requires
        i < n,
        is_data_chunk_of(image, c, i as int, o, j),
        forall|k: int| i < k < n ==> !#[trigger] is_data_chunk_of(image, c, k, o, j),
    ensures
        ({
            let files = scan_prefix(start, image, c, n).files;
            let t = spec_live_tags(chunk_at(image, c, i as int), c).unwrap();
            &&& files.dom().contains(o)
            &&& files[o].chunks.dom().contains(j)
            &&& files[o].chunks[j] == chunk_at(image, c, i as int).subrange(
                0,
                t.num_data_bytes as int,
            )
        }),
    decreases n,
{
    if i + 1 < n {
        let m = (n - 1) as nat;
        lemma_last_data_chunk_kept(start, image, c, m, i, o, j);
        assert(!is_data_chunk_of(image, c, m as int, o, j));
        let prev = scan_prefix(start, image, c, m);
        assert(scan_prefix(start, image, c, n) == scan_step(prev, chunk_at(image, c, m as int), c));
    }
}


/// Chunk `i` of the image is a live header chunk of `child` naming
/// `parent` as its parent.
pub open spec fn child_from_chunk(image: Seq<u8>, c: Config, i: int, parent: u64, child: u64) -> bool {
    spec_live_tags(chunk_at(image, c, i), c) matches Some(t) && t.is_header && t.object_id == child
        && chunk_header(chunk_at(image, c, i), child).parent_id == parent
}

/// Law (children sit under the parent their header names): after the
/// first `n` chunks, every child listed under a directory was listed there
/// when the scan started, or one of those chunks is a header chunk of the
/// child naming that directory as its parent.
pub proof fn lemma_child_has_origin(start: ScanState, image: Seq<u8>, c: Config, n: nat)
    ensures
        forall|p: u64, x: u64|
            #[trigger] scan_prefix(start, image, c, n).hierarchy.dom().contains(p)
                && #[trigger] scan_prefix(start, image, c, n).hierarchy[p].contains(x) ==> {
                ||| start.hierarchy.dom().contains(p) && start.hierarchy[p].contains(x)
                ||| exists|i: int| 0 <= i < n && #[trigger] child_from_chunk(image, c, i, p, x)
            },
    decreases n,
{
    if n > 0 {
        let m = (n - 1) as nat;
        lemma_child_has_origin(start, image, c, m);
        let prev = scan_prefix(start, image, c, m);
        let chunk = chunk_at(image, c, m as int);
        let cur = scan_prefix(start, image, c, n);
        assert(cur == scan_step(prev, chunk, c));
        assert forall|p: u64, x: u64|
            #[trigger] cur.hierarchy.dom().contains(p) && #[trigger] cur.hierarchy[p].contains(
                x,
            ) implies {
            ||| start.hierarchy.dom().contains(p) && start.hierarchy[p].contains(x)
            ||| exists|i: int| 0 <= i < n && #[trigger] child_from_chunk(image, c, i, p, x)
        } by {
            if child_from_chunk(image, c, m as int, p, x) {
            } else {
                let kept = prev.hierarchy.dom().contains(p) && prev.hierarchy[p].contains(x);
                if !kept {
                    // the step only adds its own object under the parent its header names
                    match spec_live_tags(chunk, c) {
                        Some(t) => {
                            if t.is_header && !is_special_object(t.object_id) {
                                let par = chunk_header(chunk, t.object_id).parent_id;
                                let old_kids = children_of(prev.hierarchy, par);
                                if p == par {
                                    if !old_kids.contains(t.object_id) {
                                        let j = choose|j: int|
                                            0 <= j < cur.hierarchy[p].len() && cur.hierarchy[p][j]
                                                == x;
                                        if j < old_kids.len() {
                                            assert(old_kids[j] == x);
                                        }
                                    }
                                }
                            }
                        },
                        None => {},
                    }
                    assert(false);
                } else {
                    if !(start.hierarchy.dom().contains(p) && start.hierarchy[p].contains(x)) {
                        let i = choose|i: int| 0 <= i < m && #[trigger] child_from_chunk(
                            image,
                            c,
                            i,
                            p,
                            x,
                        );
                        assert(child_from_chunk(image, c, i, p, x));
                    }
                }
            }
        }
    }
}


/// Law (only a strictly newer header replaces the one an object holds): a
/// header chunk of a known object with a sequence number no greater than
/// the object's leaves the object as it was; a strictly newer one replaces
/// its header and sequence number and keeps its id and contents; a header
/// chunk of an unknown object creates it with that header and sequence
/// number and no contents. No other object changes.
pub proof fn lemma_header_chunk_versions(s: ScanState, chunk: Seq<u8>, c: Config)
    requires
        spec_live_tags(chunk, c) matches Some(t) && t.is_header,
    ensures
        ({
            let t = spec_live_tags(chunk, c).unwrap();
            let id = t.object_id;
            let after = scan_step(s, chunk, c).objects;
            &&& after.dom() == s.objects.dom().insert(id)
            &&& forall|o: u64| #[trigger] s.objects.dom().contains(o) && o != id ==> after[o] == s.objects[o]
            &&& s.objects.dom().contains(id) && t.sequence_number <= s.objects[id].sequence_number
                ==> after[id] == s.objects[id]
            &&& s.objects.dom().contains(id) && t.sequence_number > s.objects[id].sequence_number ==> {
                &&& after[id].header == chunk_header(chunk, id)
                &&& after[id].sequence_number == t.sequence_number
                &&& after[id].object_id == s.objects[id].object_id
                &&& after[id].data == s.objects[id].data
            }
            &&& !s.objects.dom().contains(id) ==> {
                &&& after[id].header == chunk_header(chunk, id)
                &&& after[id].sequence_number == t.sequence_number
                &&& after[id].object_id == id
                &&& after[id].data is None
            }
        }),
{
    let id = spec_live_tags(chunk, c).unwrap().object_id;
    assert(scan_step(s, chunk, c).objects.dom() =~= s.objects.dom().insert(id));
}

/// Law: a data chunk stores its first `num_data_bytes` bytes as chunk
/// `chunk_id` of its file and changes nothing else: no object, no
/// directory, no other chunk of any file, and not the header of its file.
pub proof fn lemma_data_chunk_stores_bytes(s: ScanState, chunk: Seq<u8>, c: Config)
    requires
        spec_live_tags(chunk, c) matches Some(t) && !t.is_header,
    ensures
        ({
            let t = spec_live_tags(chunk, c).unwrap();
            let id = t.object_id;
            let after = scan_step(s, chunk, c);
            &&& after.objects == s.objects
            &&& after.hierarchy == s.hierarchy
            &&& after.files.dom() == s.files.dom().insert(id)
            &&& forall|o: u64| #[trigger] s.files.dom().contains(o) && o != id ==> after.files[o] == s.files[o]
            &&& after.files[id].chunks == file_or_new(s.files, id).chunks.insert(
                t.chunk_id as usize,
                chunk.subrange(0, t.num_data_bytes as int),
            )
            &&& s.files.dom().contains(id) ==> after.files[id].header == s.files[id].header
                && after.files[id].size == s.files[id].size
        }),
{
    let id = spec_live_tags(chunk, c).unwrap().object_id;
    assert(scan_step(s, chunk, c).files.dom() =~= s.files.dom().insert(id));
}

/// A scan step keeps the root in the objects with itself as its parent.
pub proof fn lemma_step_keeps_root(s: ScanState, chunk: Seq<u8>, c: Config)
    requires
        s.objects.dom().contains(YAFFS_OBJECTID_ROOT),
        s.objects[YAFFS_OBJECTID_ROOT].header.parent_id == YAFFS_OBJECTID_ROOT,
    ensures
        scan_step(s, chunk, c).objects.dom().contains(YAFFS_OBJECTID_ROOT),
        scan_step(s, chunk, c).objects[YAFFS_OBJECTID_ROOT].header.parent_id == YAFFS_OBJECTID_ROOT,
{
}

/// Law: throughout a scan the root directory exists and is its own
/// parent, whatever header chunks the image holds for it.
pub proof fn lemma_scan_keeps_root(
    objects: Map<u64, INodeView>,
    hierarchy: Map<u64, Seq<u64>>,
    image: Seq<u8>,
    c: Config,
    n: nat,
)
    ensures
        scan_prefix(scan_start(objects, hierarchy), image, c, n).objects.dom().contains(
            YAFFS_OBJECTID_ROOT,
        ),
        scan_prefix(scan_start(objects, hierarchy), image, c, n).objects[YAFFS_OBJECTID_ROOT].header.parent_id
            == YAFFS_OBJECTID_ROOT,
    decreases n,
{
    if n > 0 {
        lemma_scan_keeps_root(objects, hierarchy, image, c, (n - 1) as nat);
        lemma_step_keeps_root(
            scan_prefix(scan_start(objects, hierarchy), image, c, (n - 1) as nat),
            chunk_at(image, c, n - 1),
            c,
        );
    }
}

/// Law (avoid duplicates, skip special objects): after any part of a scan
/// from well-formed lists, no directory lists a child twice, and the root
/// and the unlinked and deleted pseudo-directories are nobody's children.
pub proof fn lemma_scan_hierarchy_wf(
    objects: Map<u64, INodeView>,
    hierarchy: Map<u64, Seq<u64>>,
    image: Seq<u8>,
    c: Config,
    n: nat,
)
    requires
        hierarchy_wf(hierarchy),
    ensures
        hierarchy_wf(scan_prefix(scan_start(objects, hierarchy), image, c, n).hierarchy),
{
    lemma_prefix_keeps_hierarchy_wf(scan_start(objects, hierarchy), image, c, n);
}

/// Law: chunks whose tags are not accepted change nothing.
pub proof fn lemma_dead_chunk_ignored(s: ScanState, chunk: Seq<u8>, c: Config)
    requires
        spec_live_tags(chunk, c) is None,
    ensures
        scan_step(s, chunk, c) == s,
{
}

/// An object header read from a chunk gives the header `header_of_bytes`
/// describes.
pub proof fn lemma_header_of_bytes(h: ObjectHeader, bytes: Seq<u8>)
    requires
        header_encoded_by(h, bytes),
    ensures
        spec_header_of(h) == header_of_bytes(bytes),
{
}

} // verus!
