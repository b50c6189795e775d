//! Where object bodies come from: loose object files and pack files.
use vstd::prelude::*;

pub mod cache;
pub mod encoding;
pub mod index;
pub mod inflate;
pub mod lookup;
pub mod loose;
pub mod pack;

verus! {

/// The four kinds of git object.
#[derive(Debug, PartialEq, Eq, Clone, Copy)]
pub enum ObjectType {
    Commit,
    Tag,
    Blob,
    Tree,
}

/// The size in bytes of an object's body.
#[derive(Debug, Clone, Copy, PartialEq, Eq)]
pub struct ObjectSize(pub u64);

/// An object body together with its type, before parsing.
#[derive(Debug)]
pub struct RawObject {
    pub object_type: ObjectType,
    pub body: Vec<u8>,
}

} // verus!
