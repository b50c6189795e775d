//! The pack indexes of a repository, read once and kept for later lookups.
use vstd::prelude::*;

use crate::error::Error;
use crate::object_id::ObjectId;
use crate::object_store::index::{find_object_in_pack_index, index_lookup};
use crate::object_store::lookup::Pack;

verus! {

/// A pack and the content of its index file.
#[derive(Debug)]
pub struct PackIndex {
    pub pack: Pack,
    pub index: Vec<u8>,
}

/// The packs of a repository with their indexes, in the order the pack
/// directory lists them.
#[derive(Debug)]
pub struct PackCache {
    pub indexes: Vec<PackIndex>,
}

/// Where looking `id` up in the packs whose index contents are `idxs` may
/// lead: to the first index that lists it, each earlier one listing nothing;
/// to nothing, every index listing nothing; or to the first index whose
/// lookup fails, each earlier one listing nothing.
pub open spec fn packs_lookup(idxs: Seq<Seq<u8>>, id: Seq<u8>, r: Result<Option<(usize, u64)>, Error>) -> bool {
    match r {
        Ok(Some((i, off))) => i < idxs.len() && index_lookup(idxs[i as int], id, Ok(Some(off)))
            && forall|j: int| 0 <= j < i ==> #[trigger] index_lookup(idxs[j], id, Ok(None)),
        Ok(None) => forall|j: int| 0 <= j < idxs.len() ==> #[trigger] index_lookup(idxs[j], id, Ok(None)),
        Err(e) => exists|i: int|
            0 <= i < idxs.len() && index_lookup(idxs[i], id, Err(e)) && forall|j: int|
                0 <= j < i ==> #[trigger] index_lookup(idxs[j], id, Ok(None)),
    }
}

impl PackCache {
    /// The index contents, in order.
    pub open spec fn index_views(&self) -> Seq<Seq<u8>> {
        self.indexes@.map_values(|p: PackIndex| p.index@)
    }

    /// Finds the first pack whose index lists `id`: its position among the
    /// packs and the offset of the object in it. A failing index lookup
    /// stops the search.
    pub fn find(&self, id: ObjectId) -> (r: Result<Option<(usize, u64)>, Error>)
        ensures
            packs_lookup(self.index_views(), id@, r),
    {
        let ghost idxs = self.index_views();
        let mut i: usize = 0;
        while i < self.indexes.len()
            invariant
                i <= self.indexes@.len(),
                idxs == self.index_views(),
                idxs.len() == self.indexes@.len(),
                forall|j: int| 0 <= j < i ==> #[trigger] index_lookup(idxs[j], id@, Ok(None)),
            decreases self.indexes@.len() - i,
        {
            let r = find_object_in_pack_index(self.indexes[i].index.as_slice(), id);
            assert(idxs[i as int] == self.indexes@[i as int].index@);
            match r {
                Ok(Some(off)) => {
                    return Ok(Some((i, off)));
                },
                Ok(None) => {},
                Err(e) => {
                    assert(index_lookup(idxs[i as int], id@, Err(e)));
                    return Err(e);
                },
            }
            i = i + 1;
        }
        Ok(None)
    }
}

} // verus!
