//! A handle to a git repository.
use vstd::prelude::*;

use crate::object_store::cache::PackCache;
use crate::traits::AllGenerics;
use std::sync::{Arc, OnceLock};

verus! {

/// A cell of the standard library that is written at most once.
#[verifier::external_type_specification]
#[verifier::external_body]
#[verifier::reject_recursive_types(T)]
pub struct ExOnceLock<T>(OnceLock<T>);

/// An empty cell (`OnceLock::new`). Nothing is stated of its content, which
/// later writes through shared references change.
#[verifier::external_body]
fn empty_slot() -> (r: OnceLock<PackCache>) {
    OnceLock::new()
}

/// The content of the cell, if it has been written (`OnceLock::get`). What
/// it holds depends on which write came first, so nothing more is stated.
#[verifier::external_body]
fn slot_content(slot: &OnceLock<PackCache>) -> (r: Option<&PackCache>) {
    slot.get()
}

/// Writes the cell if it is still empty (`OnceLock::set`); when it was not,
/// the value is handed back unchanged. Whether it was empty depends on
/// earlier writes, so which of the two happens is not stated.
#[verifier::external_body]
fn fill_slot(slot: &OnceLock<PackCache>, value: PackCache) -> (r: Result<(), PackCache>)
    ensures
        r matches Err(v) ==> v == value,
{
    slot.set(value)
}

/// A handle to a git repository, generic over the filesystem through which
/// its `.git` directory is read. Clones share the cache of pack indexes,
/// which is read on the first lookup that needs it.
#[derive(Debug)]
pub struct Repo<G: AllGenerics> {
    pub git_dir: G::Directory,
    pub cache: Arc<OnceLock<PackCache>>,
}

impl<G: AllGenerics> Clone for Repo<G> {
    fn clone(&self) -> (r: Self)
        ensures
            cloned(self.git_dir, r.git_dir),
            r.cache == self.cache,
    {
        Repo { git_dir: self.git_dir.clone(), cache: self.cache.clone() }
    }
}

/// `b` is a copy of the optional handle `a`: both are absent, or both are
/// present and the directory of `b` is a clone of that of `a`.
pub open spec fn repo_copied<G: AllGenerics>(a: Option<Repo<G>>, b: Option<Repo<G>>) -> bool {
    match (a, b) {
        (Some(x), Some(y)) => cloned(x.git_dir, y.git_dir),
        (None, None) => true,
        _ => false,
    }
}

impl<G: AllGenerics> Repo<G> {
    /// Opens the repository whose `.git` directory is `git_dir`. Nothing is
    /// read until a lookup needs it; the cache starts empty.
    pub fn new(git_dir: G::Directory) -> (r: Self)
        ensures
            r.git_dir == git_dir,
    {
        Repo { git_dir, cache: Arc::new(empty_slot()) }
    }

    /// The cached pack indexes, once a lookup has read them.
    pub fn pack_cache(&self) -> Option<&PackCache> {
        slot_content(&self.cache)
    }

    /// Keeps `cache` for later lookups through this handle and its clones,
    /// unless a cache is kept already, in which case `cache` is given back.
    pub fn keep_pack_cache(&self, cache: PackCache) -> (r: Result<(), PackCache>)
        ensures
            r matches Err(c) ==> c == cache,
    {
        fill_slot(&self.cache, cache)
    }
}

} // verus!
