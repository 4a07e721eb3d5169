use vstd::prelude::*;

verus! {

/// The kind of a file as the filesystem presents it.
#[derive(Copy, Clone, Debug, PartialEq, Eq, Structural)]
pub enum FileKind {
    Directory,
    RegularFile,
}

/// The object types of an object header that the driver tells apart.
#[derive(Copy, Clone, Debug, PartialEq, Eq, Structural)]
pub enum ObjectType {
    YaffsObjectTypeDirectory,
}

/// The on-flash code of an object type.
pub open spec fn spec_object_type_code(t: ObjectType) -> u32 {
    match t {
        ObjectType::YaffsObjectTypeDirectory => 3,
    }
}

impl ObjectType {
    /// The on-flash code of this object type.
    pub fn code(&self) -> (c: u32)
        ensures
            c == spec_object_type_code(*self),
    {
        match self {
            ObjectType::YaffsObjectTypeDirectory => 3,
        }
    }
}

impl From<ObjectType> for FileKind {
    fn from(value: ObjectType) -> (kind: FileKind) {
        match value {
            ObjectType::YaffsObjectTypeDirectory => FileKind::Directory,
        }
    }
}

impl vstd::std_specs::convert::FromSpecImpl<ObjectType> for FileKind {
    open spec fn obeys_from_spec() -> bool {
        true
    }

    open spec fn from_spec(value: ObjectType) -> FileKind {
        match value {
            ObjectType::YaffsObjectTypeDirectory => FileKind::Directory,
        }
    }
}

} // verus!
