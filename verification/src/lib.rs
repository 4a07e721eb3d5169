//! A read-only model of a YAFFS2 flash image: geometry, on-flash tags and
//! object headers, and the scan that rebuilds the object tree and file
//! contents from the chunks of an image.

pub mod args;
pub mod yaffs2;
