//! Reading git repositories: object ids, object bodies, loose and packed
//! objects, refs, and differences between trees.
//!
//! Everything here works on bytes already read: the contents of object
//! files, pack and index files, ref files and directory listings. Reading
//! them, and walking a repository's directories, is left to the code that
//! drives the library.

pub mod diff;
pub mod directory;
pub mod error;
pub mod object;
pub mod object_id;
pub mod object_store;
pub mod parsing;
pub mod reference;
pub mod repo;
pub mod sync;
pub mod text_diff;
pub mod traits;
