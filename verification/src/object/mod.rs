//! Git objects: commits, trees, tags and blobs, and how their bodies parse.
use vstd::prelude::*;

pub mod blob;
pub mod commit;
pub mod header;
pub mod signature;
pub mod tag;
pub mod tree;

use crate::error::{annotate_with_object_id, Error, InternalObjectError, UnexpectedObjectType};
use crate::object::blob::Blob;
use crate::object::commit::{commit_parse, Commit};
use crate::object::tag::{tag_parse, Tag};
use crate::object::tree::{tree_parse, Tree};
use crate::object_id::ObjectId;
use crate::object_store::{ObjectType, RawObject};
use crate::parsing::ParseErrorView;
use crate::repo::Repo;
use crate::traits::AllGenerics;

verus! {

/// An object of any of the four kinds.
#[derive(Debug)]
pub enum Object<G: AllGenerics> {
    Commit(Commit<G>),
    Tree(Tree<G>),
    Tag(Tag),
    Blob(Blob),
}

/// One step of peeling an object down to the kind asked for: the object
/// itself when it has that kind, the id of the object to look at next, or
/// nothing when the object cannot lead to that kind.
#[derive(Debug)]
pub enum Peel<T> {
    Found(T),
    Follow(ObjectId),
    Absent,
}

/// Error `e` is what reading object `id` reports when its body fails to
/// parse with `v`.
pub open spec fn parse_failure(e: Error, id: ObjectId, v: ParseErrorView) -> bool {
    match v {
        ParseErrorView::Syntax(s) => e matches Error::ObjectParseError { id: i, snippet } && i
            == id && snippet@ == s,
        ParseErrorView::MissingFields => e == Error::ObjectMissingRequiredFields(id),
    }
}

impl<G: AllGenerics> Object<G> {
    /// The id of the object.
    pub open spec fn id_view(&self) -> Seq<u8> {
        match self {
            Object::Commit(c) => c@.id,
            Object::Tree(t) => t@.id,
            Object::Tag(t) => t@.id,
            Object::Blob(b) => b@.id,
        }
    }

    /// The kind of the object.
    pub open spec fn kind(&self) -> ObjectType {
        match self {
            Object::Commit(_) => ObjectType::Commit,
            Object::Tree(_) => ObjectType::Tree,
            Object::Tag(_) => ObjectType::Tag,
            Object::Blob(_) => ObjectType::Blob,
        }
    }

    /// The id of the object.
    pub fn id(&self) -> (r: ObjectId)
        ensures
            r@ == self.id_view(),
    {
        match self {
            Object::Commit(c) => c.id(),
            Object::Tree(t) => t.id(),
            Object::Tag(t) => t.id(),
            Object::Blob(b) => b.id(),
        }
    }

    /// The kind of the object.
    pub fn object_type(&self) -> (r: ObjectType)
        ensures
            r == self.kind(),
    {
        match self {
            Object::Commit(_) => ObjectType::Commit,
            Object::Tree(_) => ObjectType::Tree,
            Object::Tag(_) => ObjectType::Tag,
            Object::Blob(_) => ObjectType::Blob,
        }
    }

    /// The repository the object was read from, for the kinds that
    /// remember it (commits and trees).
    pub fn repo(&self) -> (r: Option<&Repo<G>>)
        ensures
            r is Some <==> match self {
                Object::Commit(c) => c.has_repo(),
                Object::Tree(t) => t.has_repo(),
                _ => false,
            },
            r matches Some(x) ==> match self {
                Object::Commit(c) => c.linked_repo() == Some(*x),
                Object::Tree(t) => t.linked_repo() == Some(*x),
                _ => false,
            },
    {
        match self {
            Object::Commit(c) => match c.repo() {
                Ok(x) => Some(x),
                Err(_) => None,
            },
            Object::Tree(t) => match t.repo() {
                Ok(x) => Some(x),
                Err(_) => None,
            },
            _ => None,
        }
    }

    /// A copy of the object.
    pub fn clone_object(&self) -> (r: Self)
        ensures
            match (*self, r) {
                (Object::Commit(a), Object::Commit(b)) => a@ == b@ && a.has_repo() == b.has_repo(),
                (Object::Tree(a), Object::Tree(b)) => a@ == b@ && a.has_repo() == b.has_repo(),
                (Object::Tag(a), Object::Tag(b)) => a@ == b@,
                (Object::Blob(a), Object::Blob(b)) => a@ == b@,
                _ => false,
            },
    {
        match self {
            Object::Commit(c) => Object::Commit(c.clone_commit()),
            Object::Tree(t) => Object::Tree(t.clone_tree()),
            Object::Tag(t) => Object::Tag(t.clone_tag()),
            Object::Blob(b) => Object::Blob(b.clone_blob()),
        }
    }

    /// The error for asking this object to be of kind `expected`.
    fn unexpected(&self, expected: ObjectType) -> (r: UnexpectedObjectType)
        ensures
            r.id@ == self.id_view(),
            r.expected == expected,
            r.received == self.kind(),
    {
        UnexpectedObjectType { id: self.id(), expected, received: self.object_type() }
    }

    /// The object as a commit.
    pub fn commit(self) -> (r: Result<Commit<G>, UnexpectedObjectType>)
        ensures
            match self {
                Object::Commit(c) => r == Ok::<Commit<G>, UnexpectedObjectType>(c),
                _ => r matches Err(e) && e.id@ == self.id_view() && e.expected
                    == ObjectType::Commit && e.received == self.kind(),
            },
    {
        match self {
            Object::Commit(c) => Ok(c),
            _ => Err(self.unexpected(ObjectType::Commit)),
        }
    }

    /// The object as a tag.
    pub fn tag(self) -> (r: Result<Tag, UnexpectedObjectType>)
        ensures
            match self {
                Object::Tag(t) => r == Ok::<Tag, UnexpectedObjectType>(t),
                _ => r matches Err(e) && e.id@ == self.id_view() && e.expected == ObjectType::Tag
                    && e.received == self.kind(),
            },
    {
        match self {
            Object::Tag(t) => Ok(t),
            _ => Err(self.unexpected(ObjectType::Tag)),
        }
    }

    /// The object as a tree.
    pub fn tree(self) -> (r: Result<Tree<G>, UnexpectedObjectType>)
        ensures
            match self {
                Object::Tree(t) => r == Ok::<Tree<G>, UnexpectedObjectType>(t),
                _ => r matches Err(e) && e.id@ == self.id_view() && e.expected == ObjectType::Tree
                    && e.received == self.kind(),
            },
    {
        match self {
            Object::Tree(t) => Ok(t),
            _ => Err(self.unexpected(ObjectType::Tree)),
        }
    }

    /// The object as a blob.
    pub fn blob(self) -> (r: Result<Blob, UnexpectedObjectType>)
        ensures
            match self {
                Object::Blob(b) => r == Ok::<Blob, UnexpectedObjectType>(b),
                _ => r matches Err(e) && e.id@ == self.id_view() && e.expected == ObjectType::Blob
                    && e.received == self.kind(),
            },
    {
        match self {
            Object::Blob(b) => Ok(b),
            _ => Err(self.unexpected(ObjectType::Blob)),
        }
    }

    /// One step of peeling towards a commit: a commit is found; a tag leads
    /// on to its target; a tree or a blob leads to no commit.
    pub fn peel_to_commit_step(self) -> (r: Peel<Commit<G>>)
        ensures
            match self {
                Object::Commit(c) => r == Peel::Found(c),
                Object::Tag(t) => r matches Peel::Follow(id) && id@ == t@.target,
                _ => r is Absent,
            },
    {
        match self {
            Object::Commit(c) => Peel::Found(c),
            Object::Tag(t) => Peel::Follow(t.target()),
            _ => Peel::Absent,
        }
    }

    /// One step of peeling towards a tree: a tree is found; a commit leads
    /// on to its tree and a tag to its target; a blob leads to no tree.
    pub fn peel_to_tree_step(self) -> (r: Peel<Tree<G>>)
        ensures
            match self {
                Object::Tree(t) => r == Peel::Found(t),
                Object::Commit(c) => r matches Peel::Follow(id) && id@ == c@.tree,
                Object::Tag(t) => r matches Peel::Follow(id) && id@ == t@.target,
                Object::Blob(_) => r is Absent,
            },
    {
        match self {
            Object::Tree(t) => Peel::Found(t),
            Object::Commit(c) => Peel::Follow(c.tree()),
            Object::Tag(t) => Peel::Follow(t.target()),
            Object::Blob(_) => Peel::Absent,
        }
    }

    /// Parses the body of object `id` according to its type, tying commits
    /// and trees to `repo`. A body that does not parse is reported against
    /// `id`.
    pub fn from_raw(id: ObjectId, raw: RawObject, repo: Option<Repo<G>>) -> (r: Result<Self, Error>)
        ensures
            raw.object_type == ObjectType::Blob ==> (r matches Ok(Object::Blob(b)) && b@.id == id@
                && b@.data == raw.body@),
            raw.object_type == ObjectType::Commit ==> match commit_parse(id@, raw.body@) {
                Ok(c) => r matches Ok(Object::Commit(x)) && x@ == c && x.linked_repo() == repo,
                Err(v) => r matches Err(e) && parse_failure(e, id, v),
            },
            raw.object_type == ObjectType::Tag ==> match tag_parse(id@, raw.body@) {
                Ok(t) => r matches Ok(Object::Tag(x)) && x@ == t,
                Err(v) => r matches Err(e) && parse_failure(e, id, v),
            },
            raw.object_type == ObjectType::Tree ==> match tree_parse(id@, raw.body@) {
                Ok(t) => r matches Ok(Object::Tree(x)) && x@ == t && x.linked_repo() == repo
                    && x.entries_have_repo(repo is Some),
                Err(v) => r matches Err(e) && parse_failure(e, id, v),
            },
    {
        match raw.object_type {
            ObjectType::Blob => Ok(Object::Blob(Blob::new(id, raw.body))),
            ObjectType::Commit => match Commit::parse(id, raw.body.as_slice(), repo) {
                Ok(c) => Ok(Object::Commit(c)),
                Err(pe) => Err(annotate_with_object_id(id, InternalObjectError::from_parse_error(pe))),
            },
            ObjectType::Tag => match Tag::parse(id, raw.body.as_slice()) {
                Ok(t) => Ok(Object::Tag(t)),
                Err(pe) => Err(annotate_with_object_id(id, InternalObjectError::from_parse_error(pe))),
            },
            ObjectType::Tree => match Tree::parse(id, raw.body.as_slice(), repo) {
                Ok(t) => Ok(Object::Tree(t)),
                Err(pe) => Err(annotate_with_object_id(id, InternalObjectError::from_parse_error(pe))),
            },
        }
    }
}

} // verus!
