use vstd::prelude::*;

verus! {

/// What the driver is started with: the image to mount, where to mount it,
/// and the geometry of the image.
#[derive(Clone, Debug)]
pub struct Args {
    pub image: String,
    pub mount_point: String,
    pub page_size: usize,
    pub oob_size: usize,
    pub erase_size: usize,
    pub tags_offset: usize,
}

} // verus!
