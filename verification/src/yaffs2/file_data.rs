use vstd::prelude::*;
use dashmap::DashMap;
use crate::yaffs2::maps::{chunk_map, chunks_new, chunks_insert, chunks_len, chunks_get};
use crate::yaffs2::object_header::{Header, HeaderView};

verus! {

/// A file being rebuilt from the chunks of an image: its object id, its
/// header once one is found, its data chunks by chunk number, and its size.
pub struct FileData {
    pub object_id: u64,
    pub header: Option<Header>,
    pub chunks: DashMap<usize, Vec<u8>>,
    pub size: usize,
}

/// The abstract value of a `FileData`.
pub struct FileDataView {
    pub object_id: u64,
    pub header: Option<HeaderView>,
    pub chunks: Map<usize, Seq<u8>>,
    pub size: usize,
}

/// The abstract value of an optional header.
pub open spec fn header_option_view(h: Option<Header>) -> Option<HeaderView> {
    match h {
        Some(h) => Some(h@),
        None => None,
    }
}

impl View for FileData {
    type V = FileDataView;

    open spec fn view(&self) -> FileDataView {
        FileDataView {
            object_id: self.object_id,
            header: header_option_view(self.header),
            chunks: chunk_map(self.chunks),
            size: self.size,
        }
    }
}

/// A file with no header and no chunks yet.
pub open spec fn empty_file(object_id: u64) -> FileDataView {
    FileDataView { object_id, header: None, chunks: Map::empty(), size: 0 }
}

/// The number of chunks that hold `size` bytes, `page_size` to a chunk.
pub open spec fn expected_chunks(size: int, page_size: int) -> int {
    (size + page_size - 1) / page_size
}

/// A file is complete when it has a header and as many chunks as the size
/// in that header needs.
pub open spec fn spec_is_complete(f: FileDataView, page_size: int) -> bool {
    match f.header {
        Some(h) => f.chunks.dom().len() == expected_chunks(
            h.size as int,
            page_size,
        ),
        None => false,
    }
}

/// Chunks `1..=n` one after the other.
pub open spec fn concat_chunks(chunks: Map<usize, Seq<u8>>, n: nat) -> Seq<u8>
    decreases n,
{
    if n == 0 {
        Seq::empty()
    } else {
        concat_chunks(chunks, (n - 1) as nat) + chunks[n as usize]
    }
}

/// At most the first `k` bytes of `s`.
pub open spec fn truncate(s: Seq<u8>, k: int) -> Seq<u8> {
    if s.len() <= k {
        s
    } else {
        s.take(k)
    }
}

/// The contents of a file: when it is complete and holds each of chunks
/// `1..=n` (`n` the number its size needs), those chunks one after the
/// other, cut to its size; otherwise nothing.
pub open spec fn spec_reconstruct(f: FileDataView, page_size: int) -> Option<Seq<u8>> {
    if !spec_is_complete(f, page_size) {
        None
    } else {
        let size = f.header.unwrap().size as int;
        let n = expected_chunks(size, page_size);
        if forall|i: int| 1 <= i <= n ==> #[trigger] f.chunks.dom().contains(i as usize) {
            Some(truncate(concat_chunks(f.chunks, n as nat), size))
        } else {
            None
        }
    }
}

/// The sizes on which the chunk count can be computed without overflow.
pub open spec fn chunk_count_computable(f: FileDataView, page_size: int) -> bool {
    &&& page_size > 0
    &&& f.header matches Some(h) ==> h.size + page_size <= usize::MAX
}

/// Law: rebuilt contents are never longer than the size in the header of
/// the file.
pub proof fn lemma_reconstruct_within_size(f: FileDataView, page_size: int)
    ensures
        spec_reconstruct(f, page_size) matches Some(d) ==> d.len() <= f.header.unwrap().size,
{
}


proof fn lemma_ceiling(size: int, p: int, n: int)
    requires
        size >= 0,
        p > 0,
        n >= 0,
    ensures
        (n == (size + p - 1) / p) <==> (n * p >= size && (n == 0 || (n - 1) * p < size)),
{
    let q = (size + p - 1) / p;
    let r = (size + p - 1) % p;
    assert(size + p - 1 == q * p + r && 0 <= r < p) by (nonlinear_arith)
        requires
            p > 0,
            q == (size + p - 1) / p,
            r == (size + p - 1) % p,
    ;
    assert(q >= 0) by (nonlinear_arith)
        requires
            p > 0,
            size >= 0,
            q == (size + p - 1) / p,
    ;
    assert(q * p >= size);
    assert(q == 0 || (q - 1) * p < size) by (nonlinear_arith)
        requires
            size + p - 1 == q * p + r,
            0 <= r,
            p > 0,
    ;
    if n * p >= size && (n == 0 || (n - 1) * p < size) {
        assert(n == q) by (nonlinear_arith)
            requires
                n * p >= size,
                n == 0 || (n - 1) * p < size,
                q * p >= size,
                q == 0 || (q - 1) * p < size,
                p > 0,
                n >= 0,
                q >= 0,
                size >= 0,
        ;
    }
}

/// Law: a file with a header of size `s` is complete exactly when it holds
/// `ceil(s / page_size)` chunks: enough pages for its size, and not one
/// page more.
pub proof fn lemma_complete_is_ceiling(f: FileDataView, page_size: int)
    requires
        page_size > 0,
        f.header is Some,
    ensures
        ({
            let n = f.chunks.dom().len() as int;
            let size = f.header.unwrap().size as int;
            spec_is_complete(f, page_size) <==> (n * page_size >= size && (n == 0 || (n - 1)
                * page_size < size))
        }),
{
    lemma_ceiling(f.header.unwrap().size as int, page_size, f.chunks.dom().len() as int);
}

proof fn lemma_concat_len(chunks: Map<usize, Seq<u8>>, k: nat, p: int)
    requires
        forall|i: int| 1 <= i <= k ==> (#[trigger] chunks[i as usize]).len() == p,
    ensures
        concat_chunks(chunks, k).len() == k * p,
    decreases k,
{
    if k > 0 {
        lemma_concat_len(chunks, (k - 1) as nat, p);
        assert(chunks[k as usize].len() == p);
        assert(concat_chunks(chunks, k).len() == (k - 1) * p + p);
        assert((k - 1) * p + p == k * p) by (nonlinear_arith);
    } else {
        assert(k * p == 0) by (nonlinear_arith)
            requires
                k == 0,
        ;
    }
}

/// Law: a file whose size is `k` whole pages and that holds chunks `1..=k`
/// of a page each (and nothing else) is rebuilt as those chunks one after
/// the other.
pub proof fn lemma_whole_pages_rebuild(f: FileDataView, page_size: int, k: nat)
    requires
        page_size > 0,
        f.header matches Some(h) && h.size == k * page_size,
        f.chunks.dom().len() == k,
        forall|i: int| 1 <= i <= k ==> #[trigger] f.chunks.dom().contains(i as usize),
        forall|i: int| 1 <= i <= k ==> (#[trigger] f.chunks[i as usize]).len() == page_size,
    ensures
        spec_reconstruct(f, page_size) == Some(concat_chunks(f.chunks, k)),
{
    lemma_complete_is_ceiling(f, page_size);
    assert(k * page_size >= k * page_size);
    assert(k == 0 || (k - 1) * page_size < k * page_size) by (nonlinear_arith)
        requires
            page_size > 0,
    ;
    lemma_ceiling(k * page_size, page_size, k as int);
    lemma_concat_len(f.chunks, k, page_size);
}


proof fn lemma_concat_full_pages_index(chunks: Map<usize, Seq<u8>>, n: nat, p: int, k: int)
    requires
        p > 0,
        forall|i: int| 1 <= i <= n ==> (#[trigger] chunks[i as usize]).len() == p,
        0 <= k < n * p,
    ensures
        concat_chunks(chunks, n).len() == n * p,
        concat_chunks(chunks, n)[k] == chunks[(k / p + 1) as usize][k % p],
    decreases n,
{
    lemma_concat_len(chunks, n, p);
    if n > 0 {
        let m = (n - 1) as nat;
        lemma_concat_len(chunks, m, p);
        assert(n * p == m * p + p) by (nonlinear_arith)
            requires
                m == n - 1,
        ;
        if k < m * p {
            lemma_concat_full_pages_index(chunks, m, p, k);
        } else {
            vstd::arithmetic::div_mod::lemma_fundamental_div_mod_converse(k, p, m as int, k - m * p);
            assert(concat_chunks(chunks, n)[k] == chunks[n as usize][k - m * p]);
        }
    } else {
        assert(n * p == 0) by (nonlinear_arith)
            requires
                n == 0,
        ;
    }
}

/// Law: when the chunks of a rebuilt file are whole pages, byte `k` of its
/// contents is byte `k % page_size` of chunk `k / page_size + 1`: the
/// chunks lie in the order of their numbers, each at the offset of its page.
pub proof fn lemma_rebuilt_byte_from_its_page(f: FileDataView, page_size: int, k: int)
    requires
        page_size > 0,
        f.header is Some,
        forall|i: int|
            1 <= i <= expected_chunks(f.header.unwrap().size as int, page_size) ==> (
            #[trigger] f.chunks[i as usize]).len() == page_size,
        spec_reconstruct(f, page_size) matches Some(d) && 0 <= k < d.len(),
    ensures
        spec_reconstruct(f, page_size).unwrap()[k] == f.chunks[(k / page_size + 1) as usize][k
            % page_size],
{
    let size = f.header.unwrap().size as int;
    let n = expected_chunks(size, page_size);
    assert(n >= 0) by (nonlinear_arith)
        requires
            page_size > 0,
            size >= 0,
            n == (size + page_size - 1) / page_size,
    ;
    lemma_ceiling(size, page_size, n);
    lemma_concat_len(f.chunks, n as nat, page_size);
    lemma_concat_full_pages_index(f.chunks, n as nat, page_size, k);
}

proof fn lemma_truncate_step(prev: Seq<u8>, c: Seq<u8>, size: int)
    requires
        size >= 0,
    ensures
        ({
            let t = truncate(prev, size);
            let remaining = size - t.len();
            let take = if remaining < c.len() { remaining } else { c.len() as int };
            &&& 0 <= remaining
            &&& truncate(prev + c, size) == t + c.take(take)
        }),
{
    let t = truncate(prev, size);
    let remaining = size - t.len();
    let take = if remaining < c.len() { remaining } else { c.len() as int };
    if prev.len() <= size {
        if prev.len() + c.len() <= size {
            assert(c.take(take) =~= c);
        } else {
            assert((prev + c).take(size) =~= prev + c.take(take));
        }
    } else {
        assert(take == 0);
        assert((prev + c).take(size) =~= prev.take(size) + c.take(take));
    }
}

impl FileData {
    /// A file with no header and no chunks yet.
    pub fn new(object_id: u64) -> (f: Self)
        ensures
            f@ == empty_file(object_id),
    {
        let chunks = chunks_new();
        assert(chunk_map(chunks) =~= Map::empty());
        FileData { object_id, header: None, chunks, size: 0 }
    }

    /// Stores a copy of `data` as chunk `chunk_id`, in place of any chunk
    /// stored under that number before.
    pub fn add_chunk(&mut self, chunk_id: usize, data: &Vec<u8>)
        ensures
            final(self)@ == (FileDataView {
                chunks: old(self)@.chunks.insert(chunk_id, data@),
                ..old(self)@
            }),
    {
        let copy = data.clone();
        assert(copy@ =~= data@);
        chunks_insert(&mut self.chunks, chunk_id, copy);
    }

    /// Whether the file has a header and as many chunks as its size needs.
    pub fn is_complete(&self, page_size: usize) -> (complete: bool)
        requires
            chunk_count_computable(self@, page_size as int),
        ensures
            complete == spec_is_complete(self@, page_size as int),
    {
        match &self.header {
            Some(header) => {
                assert(self@.header == Some(header@));
                let expected = (header.size as usize + page_size - 1) / page_size;
                chunks_len(&self.chunks) == expected
            },
            None => false,
        }
    }

    /// The contents of the file: chunks `1..=n` one after the other, cut to
    /// the size in its header, when it is complete and none of them is
    /// missing; otherwise `None`.
    pub fn reconstruct(&self, page_size: usize) -> (data: Option<Vec<u8>>)
        requires
            chunk_count_computable(self@, page_size as int),
        ensures
            match data {
                Some(d) => spec_reconstruct(self@, page_size as int) == Some(d@),
                None => spec_reconstruct(self@, page_size as int) is None,
            },
    {
        if !self.is_complete(page_size) {
            return None;
        }
        match &self.header {
            Some(header) => {
                assert(self@.header == Some(header@));
                let size = header.size as usize;
                let mut file_data: Vec<u8> = Vec::with_capacity(size);
                let chunks_per_file = (size + page_size - 1) / page_size;
                let ghost chunks = chunk_map(self.chunks);
                let mut chunk_id: usize = 1;
                while chunk_id <= chunks_per_file
                    invariant
                        1 <= chunk_id <= chunks_per_file + 1,
                        chunks_per_file == expected_chunks(size as int, page_size as int),
                        chunks_per_file < usize::MAX,
                        chunks == chunk_map(self.chunks),
                        size == self@.header.unwrap().size,
                        spec_is_complete(self@, page_size as int),
                        forall|i: int| 1 <= i < chunk_id ==> #[trigger] chunks.dom().contains(i as usize),
                        file_data@ == truncate(concat_chunks(chunks, (chunk_id - 1) as nat), size as int),
                        file_data@.len() <= size,
                    decreases chunks_per_file + 1 - chunk_id,
                {
                    match chunks_get(&self.chunks, chunk_id) {
                        Some(chunk_data) => {
                            let remaining = size - file_data.len();
                            let take_bytes = if remaining < chunk_data.len() {
                                remaining
                            } else {
                                chunk_data.len()
                            };
                            proof {
                                lemma_truncate_step(
                                    concat_chunks(chunks, (chunk_id - 1) as nat),
                                    chunk_data@,
                                    size as int,
                                );
                            }
                            let part = vstd::slice::slice_subrange(chunk_data.as_slice(), 0, take_bytes);
                            file_data.extend_from_slice(part);
                            assert(file_data@ =~= truncate(concat_chunks(chunks, chunk_id as nat), size as int));
                        },
                        None => {
                            assert(!self@.chunks.dom().contains((chunk_id as int) as usize));
                            return None;
                        },
                    }
                    chunk_id += 1;
                }
                Some(file_data)
            },
            None => None,
        }
    }
}

} // verus!
