use vstd::prelude::*;

verus! {

/// Longest object name an object header holds, without its terminator.
pub const YAFFS_MAX_NAME_LENGTH: u64 = 255;
/// Longest symbolic-link alias an object header holds, without its terminator.
pub const YAFFS_MAX_ALIAS_LENGTH: u64 = 159;
/// Object id of the root directory.
pub const YAFFS_OBJECTID_ROOT: u64 = 1;
/// Object id of the pseudo-directory of unlinked objects.
pub const YAFFS_OBJECTID_UNLINKED: u64 = 3;
/// Object id of the pseudo-directory of deleted objects.
pub const YAFFS_OBJECTID_DELETED: u64 = 4;
/// The directory bit of a POSIX file mode.
pub const S_IFDIR: u64 = 16384;

} // verus!
