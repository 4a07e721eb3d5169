use vstd::prelude::*;

verus! {

/// A tree of chunk numbers: internal nodes fan out eight ways, leaves hold
/// sixteen entries.
#[derive(Debug)]
pub enum Tree {
    Internal(Box<[Option<Tree>; 8]>),
    Leaf(Box<[u32; 16]>),
}

impl Default for Tree {
    /// An internal node without children.
    fn default() -> (t: Self)
        ensures
            t matches Tree::Internal(children) && forall|i: int| 0 <= i < 8 ==> children@[i] is None,
    {
        Tree::Internal(Box::new([None, None, None, None, None, None, None, None]))
    }
}

} // verus!
