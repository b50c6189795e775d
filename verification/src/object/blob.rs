//! Blob objects: file contents.
use vstd::prelude::*;

use crate::object_id::ObjectId;

verus! {

/// The content of a file, as stored.
#[derive(Debug, Clone)]
pub struct Blob {
    id: ObjectId,
    data: Vec<u8>,
}

/// The content of a blob.
pub struct BlobView {
    pub id: Seq<u8>,
    pub data: Seq<u8>,
}

impl View for Blob {
    type V = BlobView;

    closed spec fn view(&self) -> BlobView {
        BlobView { id: self.id@, data: self.data@ }
    }
}

/// Blobs are the same when their ids are.
impl PartialEq for Blob {
    fn eq(&self, other: &Self) -> (r: bool) {
        self.id == other.id
    }
}

impl vstd::std_specs::cmp::PartialEqSpecImpl for Blob {
    open spec fn obeys_eq_spec() -> bool {
        true
    }

    open spec fn eq_spec(&self, other: &Self) -> bool {
        self@.id == other@.id
    }
}

impl Eq for Blob {
}

impl Blob {
    /// The blob `id` with content `data`; a blob's body is its content as
    /// it is.
    pub fn new(id: ObjectId, data: Vec<u8>) -> (r: Self)
        ensures
            r@.id == id@,
            r@.data == data@,
    {
        Blob { id, data }
    }

    /// A copy of the blob.
    pub fn clone_blob(&self) -> (r: Self)
        ensures
            r@ == self@,
    {
        Blob { id: self.id, data: self.data.clone() }
    }

    /// The blob's id.
    pub fn id(&self) -> (r: ObjectId)
        ensures
            r@ == self@.id,
    {
        self.id
    }

    /// The blob's content.
    pub fn data(&self) -> (r: &[u8])
        ensures
            r@ == self@.data,
    {
        self.data.as_slice()
    }

    /// The blob's content, taking the blob apart.
    pub fn data_owned(self) -> (r: Vec<u8>)
        ensures
            r@ == self@.data,
    {
        self.data
    }
}

} // verus!
