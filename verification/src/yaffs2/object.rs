use vstd::prelude::*;
use crate::yaffs2::object_header::Header;
use crate::yaffs2::tags::Tags;

verus! {

/// An object header together with the tags of the chunk that held it.
#[derive(Clone, Debug)]
pub struct Object {
    pub header: Header,
    pub tags: Tags,
}

} // verus!
