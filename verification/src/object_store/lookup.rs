//! Finding an object: as a loose file, or in one of the pack files.
use vstd::prelude::*;

use crate::directory::DirEntry;
use crate::error::{annotate_with_object_id, annotated, Error};
use crate::object_id::ObjectId;
use crate::object_store::loose::{loose_object_result, read_loose_object};
use crate::object_store::pack::{object_size_type, size_type_result, unpack_object, unpack_result};
use crate::object_store::{ObjectSize, ObjectType, RawObject};
use crate::parsing::copy_range;

verus! {

/// A pack in the `objects/pack` directory: its index file and its pack
/// file, named alike.
#[derive(Debug, Clone, PartialEq, Eq)]
pub struct Pack {
    pub index_filename: Vec<u8>,
    pub pack_filename: Vec<u8>,
}

/// `.idx` in ASCII.
pub open spec fn idx_suffix() -> Seq<u8> {
    seq![46u8, 105u8, 100u8, 120u8]
}

/// `.pack` in ASCII.
pub open spec fn pack_suffix() -> Seq<u8> {
    seq![46u8, 112u8, 97u8, 99u8, 107u8]
}

/// The pack whose index file is called `name`: any name ending in `.idx`,
/// with the pack file named alike but ending in `.pack`.
pub open spec fn pack_for_index(name: Seq<u8>) -> Option<(Seq<u8>, Seq<u8>)> {
    if name.len() >= 4 && name.subrange(name.len() - 4, name.len() as int) == idx_suffix() {
        Some((name, name.subrange(0, name.len() - 4).add(pack_suffix())))
    } else {
        None
    }
}

impl Pack {
    /// The pack whose index file is called `filename` (see
    /// [`pack_for_index`]).
    pub fn new(filename: Vec<u8>) -> (r: Option<Self>)
        ensures
            match pack_for_index(filename@) {
                None => r is None,
                Some((i, p)) => r matches Some(x) && x.index_filename@ == i && x.pack_filename@ == p,
            },
    {
        let n = filename.len();
        if n < 4 {
            return None;
        }
        if !(filename[n - 4] == 46u8 && filename[n - 3] == 105u8 && filename[n - 2] == 100u8
            && filename[n - 1] == 120u8) {
            assert(filename@.subrange(n - 4, n as int) != idx_suffix()) by {
                let t = filename@.subrange(n - 4, n as int);
                assert(t[0] == filename@[n - 4]);
                assert(t[1] == filename@[n - 3]);
                assert(t[2] == filename@[n - 2]);
                assert(t[3] == filename@[n - 1]);
            }
            return None;
        }
        assert(filename@.subrange(n - 4, n as int) =~= idx_suffix());
        let mut pack_filename = copy_range(filename.as_slice(), 0, n - 4);
        let ghost stem = pack_filename@;
        pack_filename.push(46u8);
        pack_filename.push(112u8);
        pack_filename.push(97u8);
        pack_filename.push(99u8);
        pack_filename.push(107u8);
        assert(pack_filename@ =~= stem.add(pack_suffix()));
        Some(Pack { index_filename: filename, pack_filename })
    }
}

/// The packs whose index files are listed in `entries`, in listing order;
/// directories and other files are passed over.
pub open spec fn packs_listed(entries: Seq<DirEntry>) -> Seq<(Seq<u8>, Seq<u8>)>
    decreases entries.len(),
{
    if entries.len() == 0 {
        Seq::empty()
    } else {
        let rest = packs_listed(entries.drop_last());
        match entries.last() {
            DirEntry::File(n) => match pack_for_index(n@) {
                Some(p) => rest.push(p),
                None => rest,
            },
            DirEntry::Directory(_) => rest,
        }
    }
}

/// The values of a sequence of packs.
pub open spec fn pack_views(ps: Seq<Pack>) -> Seq<(Seq<u8>, Seq<u8>)> {
    ps.map_values(|p: Pack| (p.index_filename@, p.pack_filename@))
}

/// The packs whose index files a listing of the pack directory shows (see
/// [`packs_listed`]).
pub fn packs_in_listing(entries: &[DirEntry]) -> (r: Vec<Pack>)
    ensures
        pack_views(r@) == packs_listed(entries@),
{
    let mut out: Vec<Pack> = Vec::new();
    let mut k: usize = 0;
    while k < entries.len()
        invariant
            k <= entries@.len(),
            pack_views(out@) == packs_listed(entries@.subrange(0, k as int)),
        decreases entries@.len() - k,
    {
        let ghost before = pack_views(out@);
        proof {
            assert(entries@.subrange(0, k + 1).drop_last() =~= entries@.subrange(0, k as int));
            assert(entries@.subrange(0, k + 1).last() == entries@[k as int]);
        }
        match &entries[k] {
            DirEntry::File(name) => {
                match Pack::new(name.clone()) {
                    Some(p) => {
                        let ghost pv = (p.index_filename@, p.pack_filename@);
                        out.push(p);
                        assert(pack_views(out@) =~= before.push(pv));
                    },
                    None => {},
                }
            },
            DirEntry::Directory(_) => {},
        }
        k = k + 1;
    }
    assert(entries@.subrange(0, k as int) =~= entries@);
    out
}

/// Reads object `id` stored at `offset` of a whole pack file; a failure is
/// reported against `id`.
pub fn read_packed_object(id: ObjectId, pack: &[u8], offset: u64) -> (r: Result<RawObject, Error>)
    ensures
        match unpack_result(pack@, offset) {
            Ok((t, b)) => r matches Ok(o) && o.object_type == t && o.body@ == b,
            Err(e) => r == Err::<RawObject, Error>(annotated(id, e)),
        },
{
    match unpack_object(pack, offset) {
        Ok(o) => Ok(o),
        Err(e) => Err(annotate_with_object_id(id, e)),
    }
}

/// The size and type of object `id` stored at `offset` of a whole pack
/// file, without rebuilding it (see [`size_type_result`]); a failure is
/// reported against `id`.
pub fn packed_size_type(id: ObjectId, pack: &[u8], offset: u64) -> (r: Result<(ObjectSize, ObjectType), Error>)
    ensures
        match size_type_result(pack@, offset) {
            Ok((s, t)) => r == Ok::<(ObjectSize, ObjectType), Error>((ObjectSize(s), t)),
            Err(e) => r == Err::<(ObjectSize, ObjectType), Error>(annotated(id, e)),
        },
{
    match object_size_type(pack, offset) {
        Ok((s, t)) => Ok((ObjectSize(s), t)),
        Err(e) => Err(annotate_with_object_id(id, e)),
    }
}

/// The size and type of the loose object `id` whose file holds
/// `compressed`.
pub fn loose_size_type(id: ObjectId, compressed: &[u8]) -> (r: Result<(ObjectSize, ObjectType), Error>)
    ensures
        match loose_object_result(compressed@) {
            Ok((t, b)) => r matches Ok((s, t2)) && s.0 == b.len() && t2 == t,
            Err(Some(st)) => r == Err::<(ObjectSize, ObjectType), Error>(
                Error::LooseObjectDecompressError { id, status: st },
            ),
            Err(None) => r == Err::<(ObjectSize, ObjectType), Error>(Error::MalformedObject(id)),
        },
{
    match read_loose_object(id, compressed) {
        Ok(o) => Ok((ObjectSize(o.body.len() as u64), o.object_type)),
        Err(e) => Err(e),
    }
}

} // verus!
