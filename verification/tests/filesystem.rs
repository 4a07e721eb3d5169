use yaffs2_fuse::yaffs2::config::Config;
use yaffs2_fuse::yaffs2::file_data::FileData;
use yaffs2_fuse::yaffs2::object_type::FileKind;
use yaffs2_fuse::yaffs2::{FsError, Yaffs2};

const PAGE: usize = 512;
const EXTRA: usize = 64;
const ERASE: usize = 2048;
const TAGS_OFFSET: usize = 2;
const STRIDE: usize = PAGE + EXTRA;

fn put_u32(buf: &mut [u8], off: usize, v: u32) {
    buf[off..off + 4].copy_from_slice(&v.to_le_bytes());
}

fn put_tags(image: &mut [u8], chunk: usize, seq: u32, obj: u32, chunk_word: u32, nbytes: u32) {
    let base = chunk * STRIDE + PAGE + TAGS_OFFSET;
    put_u32(image, base, seq);
    put_u32(image, base + 4, obj);
    put_u32(image, base + 8, chunk_word);
    put_u32(image, base + 12, nbytes);
}

fn put_header(image: &mut [u8], chunk: usize, obj_type: u32, parent: u32, name: &str, size: u32) {
    let base = chunk * STRIDE;
    for b in &mut image[base..base + PAGE] {
        *b = 0;
    }
    put_u32(image, base, obj_type);
    put_u32(image, base + 4, parent);
    image[base + 10..base + 10 + name.len()].copy_from_slice(name.as_bytes());
    put_u32(image, base + 268, 0o100644);
    put_u32(image, base + 272, 1000);
    put_u32(image, base + 276, 1001);
    put_u32(image, base + 280, 11);
    put_u32(image, base + 284, 22);
    put_u32(image, base + 288, 33);
    put_u32(image, base + 292, size);
    put_u32(image, base + 460, 7);
}

/// One erase-stride of image: four chunks are scanned, the rest is erased.
fn sample_image() -> Vec<u8> {
    let len = (ERASE / EXTRA) * STRIDE;
    let mut image = vec![0xFFu8; len];
    // chunk 0: header of file 257 "hello.txt" in the root, 5 bytes
    put_header(&mut image, 0, 1, 1, "hello.txt", 5);
    put_tags(&mut image, 0, 1, 257, 0x8000_0000, 0);
    // chunk 1: data chunk 1 of file 257
    image[STRIDE..STRIDE + 5].copy_from_slice(b"hello");
    put_tags(&mut image, 1, 1, 257, 1, 5);
    // chunk 2: header of directory 300 "docs" in the root
    put_header(&mut image, 2, 3, 1, "docs", 0);
    put_tags(&mut image, 2, 1, 300, 0x8000_0000, 0);
    // chunk 3: erased (tags all ones), ignored
    image
}

fn mounted() -> Yaffs2 {
    let mut fs = Yaffs2::new(sample_image(), PAGE, EXTRA, ERASE, TAGS_OFFSET);
    assert!(fs.can_scan());
    fs.init();
    fs
}

#[test]
fn config_new_computes_geometry() {
    let c = Config::new(18432, PAGE, EXTRA, ERASE, TAGS_OFFSET);
    assert_eq!(c.chunks_per_block, 4);
    assert_eq!(c.nblocks, 1);
    assert_eq!(c.nchunks, 32);
    assert_eq!(c.block_size, 576);
    assert_eq!(c.tags_offset, 2);
}

#[test]
fn config_default_matches_documented_defaults() {
    let c = Config::default();
    assert_eq!(c.page_size, 2048);
    assert_eq!(c.extra_size, 64);
    assert_eq!(c.erase, 131072);
    assert_eq!(c.chunks_per_block, 2048);
    assert_eq!(c.block_size, 2112);
    assert_eq!(c.tags_offset, 30);
    assert_eq!(c.nblocks, 0);
}

#[test]
fn config_computability_check() {
    assert!(Config::is_computable(100, 2048, 64, 131072));
    assert!(!Config::is_computable(100, 0, 64, 131072));
    assert!(!Config::is_computable(100, 2048, 0, 131072));
    assert!(!Config::is_computable(100, 2048, 64, 32));
    assert!(!Config::is_computable(100, usize::MAX, 64, 131072));
}

#[test]
fn scan_builds_root_and_children() {
    let fs = mounted();
    let root = fs.stat(1).unwrap();
    assert_eq!(root.kind, FileKind::Directory);
    assert_eq!(root.nlink, 2);
    assert_eq!(root.perm, 0o755);
    let listing = fs.readdir(1, 0).unwrap();
    let names: Vec<&str> = listing.iter().map(|e| e.name.as_str()).collect();
    assert_eq!(names, vec![".", "..", "hello.txt", "docs"]);
    assert_eq!(listing[2].ino, 257);
    assert_eq!(listing[2].offset, 3);
    assert_eq!(listing[3].offset, 4);
    assert_eq!(listing[3].kind, FileKind::Directory);
}

#[test]
fn scan_rebuilds_file_contents() {
    let fs = mounted();
    assert_eq!(fs.read(257, 0, 100).unwrap(), b"hello".to_vec());
    assert_eq!(fs.read(257, 1, 3).unwrap(), b"ell".to_vec());
    assert_eq!(fs.read(257, 5, 3).unwrap(), Vec::<u8>::new());
    assert_eq!(fs.read(300, 0, 10).unwrap(), Vec::<u8>::new());
    assert!(fs.read(999, 0, 10).is_none());
}

#[test]
fn stat_reports_header_fields() {
    let fs = mounted();
    let a = fs.stat(257).unwrap();
    assert_eq!(a.ino, 257);
    assert_eq!(a.size, 5);
    assert_eq!(a.blocks, 1);
    assert_eq!(a.kind, FileKind::RegularFile);
    assert_eq!(a.perm, 0o777);
    assert_eq!(a.nlink, 1);
    assert_eq!(a.uid, 1000);
    assert_eq!(a.gid, 1001);
    assert_eq!(a.atime, 11);
    assert_eq!(a.mtime, 22);
    assert_eq!(a.ctime, 33);
    assert_eq!(a.crtime, 33);
    assert_eq!(a.rdev, 7);
    assert_eq!(a.blksize, PAGE as u32);
    assert!(fs.stat(999).is_none());
}

#[test]
fn lookup_names_dot_and_dotdot() {
    let fs = mounted();
    assert_eq!(fs.lookup(1, "hello.txt").unwrap().ino, 257);
    assert_eq!(fs.lookup(1, "docs").unwrap().ino, 300);
    assert_eq!(fs.lookup(300, ".").unwrap().ino, 300);
    assert_eq!(fs.lookup(300, "..").unwrap().ino, 1);
    assert!(fs.lookup(1, "missing").is_none());
    assert!(fs.lookup(300, "hello.txt").is_none());
}

#[test]
fn readdir_errors_and_offsets() {
    let fs = mounted();
    assert_eq!(fs.readdir(999, 0).unwrap_err(), FsError::NotFound);
    assert_eq!(fs.readdir(257, 0).unwrap_err(), FsError::NotADirectory);
    let rest = fs.readdir(1, 2).unwrap();
    assert_eq!(rest.len(), 2);
    assert_eq!(rest[0].name, "hello.txt");
    assert!(fs.readdir(1, 10).unwrap().is_empty());
    let docs = fs.readdir(300, 0).unwrap();
    assert_eq!(docs.len(), 2);
    assert_eq!(docs[1].ino, 1);
}

#[test]
fn statfs_and_open() {
    let fs = mounted();
    let st = fs.statfs();
    assert_eq!(st.blocks, 1);
    assert_eq!(st.bfree, 1);
    assert_eq!(st.files, 3);
    assert_eq!(st.ffree, u64::MAX);
    assert_eq!(st.namelen, 255);
    assert_eq!(st.bsize, PAGE as u32);
    assert!(fs.open(257));
    assert!(!fs.open(12345));
}

#[test]
fn newer_header_replaces_older_one() {
    let mut image = sample_image();
    // chunk 3: a newer header of 257, renamed and moved under "docs"
    put_header(&mut image, 3, 1, 300, "renamed", 5);
    put_tags(&mut image, 3, 2, 257, 0x8000_0000, 0);
    let mut fs = Yaffs2::new(image, PAGE, EXTRA, ERASE, TAGS_OFFSET);
    fs.init();
    assert_eq!(fs.lookup(300, "renamed").unwrap().ino, 257);
    // the old listing under the root keeps the child, now under its new name
    let names: Vec<String> = fs.readdir(1, 0).unwrap().into_iter().map(|e| e.name).collect();
    assert_eq!(names, vec![".", "..", "renamed", "docs"]);
}

#[test]
fn older_header_does_not_replace_newer_one() {
    let mut image = sample_image();
    put_tags(&mut image, 0, 5, 257, 0x8000_0000, 0);
    put_header(&mut image, 3, 1, 1, "stale", 5);
    put_tags(&mut image, 3, 2, 257, 0x8000_0000, 0);
    let mut fs = Yaffs2::new(image, PAGE, EXTRA, ERASE, TAGS_OFFSET);
    fs.init();
    assert!(fs.lookup(1, "hello.txt").is_some());
    assert!(fs.lookup(1, "stale").is_none());
}

#[test]
fn incomplete_file_has_no_contents() {
    let mut image = sample_image();
    // the header claims 600 bytes: two chunks are needed, one is present
    put_u32(&mut image, 292, 600);
    let mut fs = Yaffs2::new(image, PAGE, EXTRA, ERASE, TAGS_OFFSET);
    fs.init();
    let a = fs.stat(257).unwrap();
    assert_eq!(a.size, 0);
    assert_eq!(fs.read(257, 0, 10).unwrap(), Vec::<u8>::new());
}

#[test]
fn root_header_keeps_root_as_its_own_parent() {
    let mut image = sample_image();
    put_header(&mut image, 3, 3, 42, "", 0);
    put_tags(&mut image, 3, 1, 1, 0x8000_0000, 0);
    let mut fs = Yaffs2::new(image, PAGE, EXTRA, ERASE, TAGS_OFFSET);
    fs.init();
    assert_eq!(fs.lookup(1, "..").unwrap().ino, 1);
    let listing = fs.readdir(1, 0).unwrap();
    assert_eq!(listing[1].ino, 1);
    // the root is never listed as a child of anything
    assert!(listing.iter().skip(2).all(|e| e.ino != 1));
}

#[test]
fn cannot_scan_short_header_chunks() {
    // a 256-byte page with a 64-byte spare area holds no whole object header
    let len = (1024 / 64) * (256 + 64);
    let mut image = vec![0xFFu8; len];
    let base = 256 + TAGS_OFFSET;
    image[base..base + 4].copy_from_slice(&1u32.to_le_bytes());
    image[base + 4..base + 8].copy_from_slice(&5u32.to_le_bytes());
    image[base + 8..base + 12].copy_from_slice(&0x8000_0000u32.to_le_bytes());
    image[base + 12..base + 16].copy_from_slice(&0u32.to_le_bytes());
    let fs = Yaffs2::new(image, 256, 64, 1024, TAGS_OFFSET);
    assert!(!fs.can_scan());
}

#[test]
fn file_data_reconstruct_cuts_to_size() {
    let mut f = FileData::new(9);
    assert!(!f.is_complete(4));
    assert!(f.reconstruct(4).is_none());
    let mut h = yaffs2_fuse::yaffs2::object_header::Header::default();
    h.size = 6;
    f.header = Some(h);
    f.add_chunk(1, &b"abcd".to_vec());
    assert!(!f.is_complete(4));
    f.add_chunk(2, &b"efgh".to_vec());
    assert!(f.is_complete(4));
    assert_eq!(f.reconstruct(4).unwrap(), b"abcdef".to_vec());
}

#[test]
fn file_data_missing_chunk_number_gives_nothing() {
    let mut f = FileData::new(9);
    let mut h = yaffs2_fuse::yaffs2::object_header::Header::default();
    h.size = 6;
    f.header = Some(h);
    f.add_chunk(1, &b"abcd".to_vec());
    f.add_chunk(5, &b"efgh".to_vec());
    assert!(f.is_complete(4));
    assert!(f.reconstruct(4).is_none());
}

#[test]
fn repeated_header_lists_child_once() {
    let mut image = sample_image();
    // chunk 3 repeats the header of 257 with the same sequence number
    put_header(&mut image, 3, 1, 1, "hello.txt", 5);
    put_tags(&mut image, 3, 1, 257, 0x8000_0000, 0);
    let mut fs = Yaffs2::new(image, PAGE, EXTRA, ERASE, TAGS_OFFSET);
    fs.init();
    let listing = fs.readdir(1, 0).unwrap();
    assert_eq!(listing.iter().filter(|e| e.ino == 257).count(), 1);
}

#[test]
fn file_spanning_two_chunks() {
    let mut image = sample_image();
    put_u32(&mut image, 292, 513);
    // chunk 1: a full page of 'a'
    for b in &mut image[STRIDE..STRIDE + PAGE] {
        *b = b'a';
    }
    put_tags(&mut image, 1, 1, 257, 1, PAGE as u32);
    // chunk 3: data chunk 2 holding one byte
    image[3 * STRIDE] = b'z';
    put_tags(&mut image, 3, 1, 257, 2, 1);
    let mut fs = Yaffs2::new(image, PAGE, EXTRA, ERASE, TAGS_OFFSET);
    fs.init();
    let a = fs.stat(257).unwrap();
    assert_eq!(a.size, 513);
    assert_eq!(a.blocks, 2);
    let data = fs.read(257, 0, 1000).unwrap();
    assert_eq!(data.len(), 513);
    assert_eq!(data[511], b'a');
    assert_eq!(data[512], b'z');
    assert_eq!(fs.read(257, 510, 2).unwrap(), b"aa".to_vec());
}

#[test]
fn can_read_checks_for_overflow() {
    let fs = mounted();
    assert!(fs.can_read(257, 0, 10));
    assert!(fs.can_read(999, u64::MAX, u32::MAX));
    assert!(!fs.can_read(257, u64::MAX, 10));
}

#[test]
fn cread_gives_page_and_spare_area() {
    let fs = Yaffs2::new(sample_image(), PAGE, EXTRA, ERASE, TAGS_OFFSET);
    let chunk = fs.cread(1);
    assert_eq!(chunk.len(), STRIDE);
    assert_eq!(&chunk[0..5], b"hello");
}
