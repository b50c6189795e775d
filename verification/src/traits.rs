//! The types a repository is generic over.
use vstd::prelude::*;

verus! {

/// The filesystem types through which a repository is read.
pub trait AllGenerics {
    type File;
    type Directory: Clone + core::fmt::Debug;
}

/// A placeholder for objects that are not tied to any repository.
#[derive(Debug, Clone, Copy, PartialEq, Eq)]
pub struct Noop(pub ());

impl AllGenerics for Noop {
    type File = ();
    type Directory = Noop;
}

} // verus!
