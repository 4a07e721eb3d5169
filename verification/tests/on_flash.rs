use yaffs2_fuse::args::Args;
use yaffs2_fuse::yaffs2::consts::{S_IFDIR, YAFFS_MAX_ALIAS_LENGTH, YAFFS_MAX_NAME_LENGTH, YAFFS_OBJECTID_ROOT};
use yaffs2_fuse::yaffs2::inode::INode;
use yaffs2_fuse::yaffs2::object::Object;
use yaffs2_fuse::yaffs2::object_header::{Header, ObjectHeader};
use yaffs2_fuse::yaffs2::object_type::{FileKind, ObjectType};
use yaffs2_fuse::yaffs2::tags::{PackedTags, Tags};
use yaffs2_fuse::yaffs2::tree::Tree;

#[test]
fn packed_tags_decode_masks_ids() {
    let p = PackedTags { sequence_number: 7, object_id: 0xF000_0101, chunk_id: 0x8000_0003, num_data_bytes: 99 };
    let t: Tags = p.into();
    assert_eq!(t.sequence_number, 7);
    assert_eq!(t.object_id, 0x101);
    assert_eq!(t.chunk_id, 3);
    assert_eq!(t.num_data_bytes, 99);
    assert!(t.is_header);
    let d: Tags = PackedTags { chunk_id: 4, ..p }.into();
    assert!(!d.is_header);
}

#[test]
fn packed_tags_read_little_endian() {
    let bytes = [0u8, 0, 1, 0, 0, 0, 2, 0, 0, 0, 3, 0, 0, 0, 4, 0, 0, 0];
    let p = PackedTags::read_at(&bytes, 2);
    assert_eq!(p.sequence_number, 1);
    assert_eq!(p.object_id, 2);
    assert_eq!(p.chunk_id, 3);
    assert_eq!(p.num_data_bytes, 4);
}

#[test]
fn tags_validity() {
    let ok = Tags { sequence_number: 1, object_id: 2, chunk_id: 0, num_data_bytes: 10, is_header: false };
    assert!(ok.is_valid(10));
    assert!(!ok.is_valid(9));
    assert!(!Tags { sequence_number: 0, ..ok }.is_valid(10));
    assert!(!Tags { sequence_number: 0xFFFF_FFFF, ..ok }.is_valid(10));
    assert!(!Tags { object_id: 0, ..ok }.is_valid(10));
}

#[test]
fn object_header_read_and_present() {
    let mut bytes = vec![0u8; 512];
    bytes[0..4].copy_from_slice(&3u32.to_le_bytes());
    bytes[4..8].copy_from_slice(&9u32.to_le_bytes());
    bytes[11..14].copy_from_slice(b"abc");
    bytes[292..296].copy_from_slice(&1234u32.to_le_bytes());
    bytes[300] = b'x';
    bytes[508..512].copy_from_slice(&5u32.to_le_bytes());
    let oh = ObjectHeader::read(&bytes);
    assert_eq!(oh.object_type, 3);
    assert_eq!(oh.parent_obj_id, 9);
    assert_eq!(oh.size, 1234);
    assert_eq!(oh.alias[0], b'x');
    assert_eq!(oh.is_shrink, 5);
    let h = Header::from_object_header(oh);
    assert_eq!(h.object_type, FileKind::Directory);
    assert_eq!(h.parent_id, 9);
    assert_eq!(h.name, "abc");
    assert_eq!(h.mode, (S_IFDIR as u32) | 0o777);
    assert_eq!(h.size, 1234);
}

#[test]
fn header_name_keeps_inner_nul_and_latin1() {
    let mut oh = ObjectHeader::default();
    oh.object_type = 1;
    oh.name[0] = 0;
    oh.name[1] = b'a';
    oh.name[2] = 0;
    oh.name[3] = 0xE9;
    let h = Header::from_object_header(oh);
    assert_eq!(h.object_type, FileKind::RegularFile);
    assert_eq!(h.name, "a\0\u{e9}");
}

#[test]
fn defaults() {
    let oh = ObjectHeader::default();
    assert_eq!(oh.object_type, 0);
    assert!(oh.name.iter().all(|b| *b == 0));
    let h = Header::default();
    assert_eq!(h.object_type, FileKind::Directory);
    assert_eq!(h.parent_id, YAFFS_OBJECTID_ROOT);
    assert_eq!(h.name, "");
    let i = INode::default();
    assert_eq!(i.object_id, 0);
    assert!(i.data.is_none());
    match Tree::default() {
        Tree::Internal(children) => assert!(children.iter().all(|c| c.is_none())),
        Tree::Leaf(_) => panic!("default tree is a leaf"),
    }
    assert_eq!(YAFFS_MAX_NAME_LENGTH, 255);
    assert_eq!(YAFFS_MAX_ALIAS_LENGTH, 159);
}

#[test]
fn object_type_code_and_kind() {
    assert_eq!(ObjectType::YaffsObjectTypeDirectory.code(), 3);
    let k: FileKind = ObjectType::YaffsObjectTypeDirectory.into();
    assert_eq!(k, FileKind::Directory);
}

#[test]
fn object_and_args_hold_their_fields() {
    let o = Object { header: Header::default(), tags: Tags::default() };
    assert_eq!(o.tags.object_id, 0);
    let a = Args {
        image: "img".to_string(),
        mount_point: "/mnt".to_string(),
        page_size: 2048,
        oob_size: 64,
        erase_size: 131072,
        tags_offset: 30,
    };
    assert_eq!(a.clone().tags_offset, 30);
}
