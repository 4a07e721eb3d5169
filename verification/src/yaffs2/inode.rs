use vstd::prelude::*;
use crate::yaffs2::object_header::{Header, HeaderView, default_header};

verus! {

/// An object of the filesystem: its attributes, id, the sequence number of
/// the header chunk they came from, and its contents once rebuilt.
#[derive(Clone, Debug)]
pub struct INode {
    pub header: Header,
    pub object_id: u64,
    pub sequence_number: u64,
    pub data: Option<Vec<u8>>,
}

/// The abstract value of an `INode`.
pub struct INodeView {
    pub header: HeaderView,
    pub object_id: u64,
    pub sequence_number: u64,
    pub data: Option<Seq<u8>>,
}

/// The abstract value of optional contents.
pub open spec fn data_view(d: Option<Vec<u8>>) -> Option<Seq<u8>> {
    match d {
        Some(v) => Some(v@),
        None => None,
    }
}

impl View for INode {
    type V = INodeView;

    open spec fn view(&self) -> INodeView {
        INodeView {
            header: self.header@,
            object_id: self.object_id,
            sequence_number: self.sequence_number,
            data: data_view(self.data),
        }
    }
}

/// The object a fresh `INode` describes: id and sequence number zero, the
/// default header, no contents.
pub open spec fn default_inode() -> INodeView {
    INodeView { header: default_header(), object_id: 0, sequence_number: 0, data: None }
}

impl Default for INode {
    fn default() -> (inode: Self)
        ensures
            inode@ == default_inode(),
    {
        INode { header: Header::default(), object_id: 0, sequence_number: 0, data: None }
    }
}

} // verus!
