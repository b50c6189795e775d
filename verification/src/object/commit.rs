//! Commit objects.
use vstd::prelude::*;

use crate::object::header::{header_views, object_headers, parse_object_headers, ObjectHeader};
use crate::object::signature::{parse_signature, signature_parse, GitDate};
use crate::object_id::{all_hex_digits, hex_decode, ObjectId};
use crate::parsing::{bytes_eq, copy_range, parse_error_view, snippet, snippet_at, ParseError, ParseErrorView};
use crate::error::Error;
use crate::repo::{repo_copied, Repo};
use crate::traits::{AllGenerics, Noop};

verus! {

/// A commit: its tree, parents, author, committer, message and any other
/// headers, and the repository it was read from, if any.
#[derive(Debug)]
pub struct Commit<G: AllGenerics> {
    id: ObjectId,
    tree: ObjectId,
    parents: Vec<ObjectId>,
    author_name: Vec<u8>,
    author_email: Vec<u8>,
    author_date: GitDate,
    committer_name: Vec<u8>,
    committer_email: Vec<u8>,
    commit_date: GitDate,
    message: Vec<u8>,
    additional_headers: Vec<ObjectHeader>,
    repo: Option<Repo<G>>,
}

/// The content of a commit.
pub struct CommitView {
    pub id: Seq<u8>,
    pub tree: Seq<u8>,
    pub parents: Seq<Seq<u8>>,
    pub author_name: Seq<u8>,
    pub author_email: Seq<u8>,
    pub author_date: GitDate,
    pub committer_name: Seq<u8>,
    pub committer_email: Seq<u8>,
    pub commit_date: GitDate,
    pub message: Seq<u8>,
    pub additional_headers: Seq<(Seq<u8>, Seq<u8>)>,
}

/// The views of a sequence of object ids.
pub open spec fn id_views(ids: Seq<ObjectId>) -> Seq<Seq<u8>> {
    ids.map_values(|o: ObjectId| o@)
}

impl<G: AllGenerics> View for Commit<G> {
    type V = CommitView;

    closed spec fn view(&self) -> CommitView {
        CommitView {
            id: self.id@,
            tree: self.tree@,
            parents: id_views(self.parents@),
            author_name: self.author_name@,
            author_email: self.author_email@,
            author_date: self.author_date,
            committer_name: self.committer_name@,
            committer_email: self.committer_email@,
            commit_date: self.commit_date,
            message: self.message@,
            additional_headers: header_views(self.additional_headers@),
        }
    }
}

/// What the headers of a commit have given so far.
pub struct CommitFields {
    pub tree: Option<Seq<u8>>,
    pub parents: Seq<Seq<u8>>,
    pub author: Option<(Seq<u8>, Seq<u8>, GitDate)>,
    pub committer: Option<(Seq<u8>, Seq<u8>, GitDate)>,
    pub additional: Seq<(Seq<u8>, Seq<u8>)>,
}

/// `tree` in ASCII.
pub open spec fn tree_word() -> Seq<u8> {
    seq![116u8, 114u8, 101u8, 101u8]
}

/// `parent` in ASCII.
pub open spec fn parent_word() -> Seq<u8> {
    seq![112u8, 97u8, 114u8, 101u8, 110u8, 116u8]
}

/// `author` in ASCII.
pub open spec fn author_word() -> Seq<u8> {
    seq![97u8, 117u8, 116u8, 104u8, 111u8, 114u8]
}

/// `committer` in ASCII.
pub open spec fn committer_word() -> Seq<u8> {
    seq![99u8, 111u8, 109u8, 109u8, 105u8, 116u8, 116u8, 101u8, 114u8]
}

/// The id written as a header value: exactly 40 hexadecimal digits.
pub open spec fn id_value(v: Seq<u8>) -> Option<Seq<u8>> {
    if v.len() == 40 && all_hex_digits(v) {
        Some(hex_decode(v))
    } else {
        None
    }
}

/// Takes one more commit header into account. A `tree`, `parent`, `author`
/// or `committer` header whose value does not parse is an error carrying
/// that value; a later `tree`, `author` or `committer` replaces an earlier
/// one; other headers are kept in order.
pub open spec fn commit_step(acc: CommitFields, h: (Seq<u8>, Seq<u8>)) -> Result<CommitFields, Seq<u8>> {
    let (name, value) = h;
    if name == tree_word() {
        match id_value(value) {
            None => Err(value),
            Some(t) => Ok(CommitFields { tree: Some(t), ..acc }),
        }
    } else if name == parent_word() {
        match id_value(value) {
            None => Err(value),
            Some(t) => Ok(CommitFields { parents: acc.parents.push(t), ..acc }),
        }
    } else if name == author_word() {
        match signature_parse(value) {
            None => Err(value),
            Some(sig) => Ok(CommitFields { author: Some(sig), ..acc }),
        }
    } else if name == committer_word() {
        match signature_parse(value) {
            None => Err(value),
            Some(sig) => Ok(CommitFields { committer: Some(sig), ..acc }),
        }
    } else {
        Ok(CommitFields { additional: acc.additional.push(h), ..acc })
    }
}

/// Nothing read yet.
pub open spec fn no_commit_fields() -> CommitFields {
    CommitFields {
        tree: None,
        parents: Seq::empty(),
        author: None,
        committer: None,
        additional: Seq::empty(),
    }
}

/// The commit headers `hs` taken into account in order; stops at the first
/// header whose value does not parse.
pub open spec fn commit_fold(hs: Seq<(Seq<u8>, Seq<u8>)>) -> Result<CommitFields, Seq<u8>>
    decreases hs.len(),
{
    if hs.len() == 0 {
        Ok(no_commit_fields())
    } else {
        match commit_fold(hs.drop_last()) {
            Err(e) => Err(e),
            Ok(acc) => commit_step(acc, hs.last()),
        }
    }
}

/// What parsing the body of commit `id` gives: the commit, or an error. A
/// grammar error carries up to 16 bytes of the input where parsing stopped:
/// where the empty line after the headers was expected, or the start of the
/// header value that does not parse. A commit without a tree, author or
/// committer is missing fields.
pub open spec fn commit_parse(id: Seq<u8>, body: Seq<u8>) -> Result<CommitView, ParseErrorView> {
    match object_headers(body) {
        Err(p) => Err(ParseErrorView::Syntax(snippet_at(body, p))),
        Ok((hs, m)) => match commit_fold(hs) {
            Err(v) => Err(ParseErrorView::Syntax(snippet_at(v, 0))),
            Ok(f) => match (f.tree, f.author, f.committer) {
                (Some(t), Some(a), Some(c)) => Ok(
                    CommitView {
                        id,
                        tree: t,
                        parents: f.parents,
                        author_name: a.0,
                        author_email: a.1,
                        author_date: a.2,
                        committer_name: c.0,
                        committer_email: c.1,
                        commit_date: c.2,
                        message: body.subrange(m, body.len() as int),
                        additional_headers: f.additional,
                    },
                ),
                _ => Err(ParseErrorView::MissingFields),
            },
        },
    }
}

/// Reads the id written as a header value.
pub fn parse_id_value(v: &[u8]) -> (r: Option<ObjectId>)
    ensures
        r is Some <==> id_value(v@) is Some,
        r matches Some(o) ==> id_value(v@) == Some(o@),
{
    ObjectId::from_hex(v)
}

fn word_tree() -> (r: Vec<u8>)
    ensures
        r@ == tree_word(),
{
    let r = vec![116u8, 114, 101, 101];
    assert(r@ =~= tree_word());
    r
}

fn word_parent() -> (r: Vec<u8>)
    ensures
        r@ == parent_word(),
{
    let r = vec![112u8, 97, 114, 101, 110, 116];
    assert(r@ =~= parent_word());
    r
}

fn word_author() -> (r: Vec<u8>)
    ensures
        r@ == author_word(),
{
    let r = vec![97u8, 117, 116, 104, 111, 114];
    assert(r@ =~= author_word());
    r
}

fn word_committer() -> (r: Vec<u8>)
    ensures
        r@ == committer_word(),
{
    let r = vec![99u8, 111, 109, 109, 105, 116, 116, 101, 114];
    assert(r@ =~= committer_word());
    r
}

/// Commits are the same when their ids are.
impl<G: AllGenerics> PartialEq for Commit<G> {
    fn eq(&self, other: &Self) -> (r: bool) {
        self.id == other.id
    }
}

impl<G: AllGenerics> vstd::std_specs::cmp::PartialEqSpecImpl for Commit<G> {
    open spec fn obeys_eq_spec() -> bool {
        true
    }

    open spec fn eq_spec(&self, other: &Self) -> bool {
        self@.id == other@.id
    }
}

impl<G: AllGenerics> Eq for Commit<G> {
}

impl<G: AllGenerics> Commit<G> {
    /// Parses the body of commit `id`, remembering `repo` for later lookups.
    pub fn parse(id: ObjectId, body: &[u8], repo: Option<Repo<G>>) -> (r: Result<Self, ParseError>)
        ensures
            commit_parse(id@, body@) matches Ok(c) ==> r matches Ok(x) && x@ == c && x.linked_repo()
                == repo,
            commit_parse(id@, body@) matches Err(e) ==> r matches Err(x) && parse_error_view(x) == e,
    {
        let (headers, m) = match parse_object_headers(body) {
            Err(p) => return Err(ParseError::ParseError { input_snippet: snippet(body, p) }),
            Ok(x) => x,
        };
        let ghost hs = header_views(headers@);
        let w_tree = word_tree();
        let w_parent = word_parent();
        let w_author = word_author();
        let w_committer = word_committer();
        let mut tree: Option<ObjectId> = None;
        let mut parents: Vec<ObjectId> = Vec::new();
        let mut author: Option<(Vec<u8>, Vec<u8>, GitDate)> = None;
        let mut committer: Option<(Vec<u8>, Vec<u8>, GitDate)> = None;
        let mut additional: Vec<ObjectHeader> = Vec::new();
        let mut i: usize = 0;
        while i < headers.len()
            invariant
                i <= headers.len(),
                hs == header_views(headers@),
                object_headers(body@) matches Ok((hs2, m2)) && hs2 == hs && m2 == m,
                w_tree@ == tree_word(),
                w_parent@ == parent_word(),
                w_author@ == author_word(),
                w_committer@ == committer_word(),
                commit_fold(hs.subrange(0, i as int)) matches Ok(f) && f.tree == (match tree {
                    Some(t) => Some(t@),
                    None => None,
                }) && f.parents == id_views(parents@) && f.author == (match author {
                    Some(a) => Some((a.0@, a.1@, a.2)),
                    None => None,
                }) && f.committer == (match committer {
                    Some(a) => Some((a.0@, a.1@, a.2)),
                    None => None,
                }) && f.additional == header_views(additional@),
            decreases headers.len() - i,
        {
            let h = &headers[i];
            let ghost prefix = hs.subrange(0, i as int);
            let ghost next = hs.subrange(0, i + 1);
            proof {
                assert(next.drop_last() =~= prefix);
                assert(next.last() == h@);
            }
            let name = h.name();
            let value = h.value();
            if bytes_eq(name, w_tree.as_slice()) {
                match parse_id_value(value) {
                    None => {
                        proof {
                            lemma_commit_fold_err(hs, i as int);
                        }
                        return Err(ParseError::ParseError { input_snippet: snippet(value, 0) });
                    },
                    Some(t) => {
                        tree = Some(t);
                    },
                }
            } else if bytes_eq(name, w_parent.as_slice()) {
                match parse_id_value(value) {
                    None => {
                        proof {
                            lemma_commit_fold_err(hs, i as int);
                        }
                        return Err(ParseError::ParseError { input_snippet: snippet(value, 0) });
                    },
                    Some(t) => {
                        let ghost old_p = id_views(parents@);
                        parents.push(t);
                        assert(id_views(parents@) =~= old_p.push(t@));
                    },
                }
            } else if bytes_eq(name, w_author.as_slice()) {
                match parse_signature(value) {
                    None => {
                        proof {
                            lemma_commit_fold_err(hs, i as int);
                        }
                        return Err(ParseError::ParseError { input_snippet: snippet(value, 0) });
                    },
                    Some(sig) => {
                        author = Some(sig);
                    },
                }
            } else if bytes_eq(name, w_committer.as_slice()) {
                match parse_signature(value) {
                    None => {
                        proof {
                            lemma_commit_fold_err(hs, i as int);
                        }
                        return Err(ParseError::ParseError { input_snippet: snippet(value, 0) });
                    },
                    Some(sig) => {
                        committer = Some(sig);
                    },
                }
            } else {
                let ghost old_a = header_views(additional@);
                additional.push(h.clone_header());
                assert(header_views(additional@) =~= old_a.push(h@));
            }
            i = i + 1;
        }
        proof {
            assert(hs.subrange(0, i as int) =~= hs);
        }
        let t = match tree {
            None => return Err(ParseError::MissingFields),
            Some(t) => t,
        };
        let (author_name, author_email, author_date) = match author {
            None => return Err(ParseError::MissingFields),
            Some(a) => a,
        };
        let (committer_name, committer_email, commit_date) = match committer {
            None => return Err(ParseError::MissingFields),
            Some(c) => c,
        };
        let message = copy_range(body, m, body.len());
        let r = Commit {
            id,
            tree: t,
            parents,
            author_name,
            author_email,
            author_date,
            committer_name,
            committer_email,
            commit_date,
            message,
            additional_headers: additional,
            repo,
        };
        Ok(r)
    }
}

impl<G: AllGenerics> Commit<G> {
    /// The repository the commit remembers, if any.
    pub closed spec fn linked_repo(&self) -> Option<Repo<G>> {
        self.repo
    }

    /// Whether the commit remembers the repository it was read from.
    pub open spec fn has_repo(&self) -> bool {
        self.linked_repo() is Some
    }

    /// The commit's id.
    pub fn id(&self) -> (r: ObjectId)
        ensures
            r@ == self@.id,
    {
        self.id
    }

    /// The id of the commit's tree.
    pub fn tree(&self) -> (r: ObjectId)
        ensures
            r@ == self@.tree,
    {
        self.tree
    }

    /// The ids of the commit's parents, in order.
    pub fn parents(&self) -> (r: &[ObjectId])
        ensures
            id_views(r@) == self@.parents,
    {
        self.parents.as_slice()
    }

    /// The author's name.
    pub fn author_name(&self) -> (r: &[u8])
        ensures
            r@ == self@.author_name,
    {
        self.author_name.as_slice()
    }

    /// The author's email address.
    pub fn author_email(&self) -> (r: &[u8])
        ensures
            r@ == self@.author_email,
    {
        self.author_email.as_slice()
    }

    /// When the commit was authored.
    pub fn author_date(&self) -> (r: GitDate)
        ensures
            r == self@.author_date,
    {
        self.author_date
    }

    /// The committer's name.
    pub fn committer_name(&self) -> (r: &[u8])
        ensures
            r@ == self@.committer_name,
    {
        self.committer_name.as_slice()
    }

    /// The committer's email address.
    pub fn committer_email(&self) -> (r: &[u8])
        ensures
            r@ == self@.committer_email,
    {
        self.committer_email.as_slice()
    }

    /// When the commit was made.
    pub fn commit_date(&self) -> (r: GitDate)
        ensures
            r == self@.commit_date,
    {
        self.commit_date
    }

    /// The commit message.
    pub fn message(&self) -> (r: &[u8])
        ensures
            r@ == self@.message,
    {
        self.message.as_slice()
    }

    /// The headers the commit gives no meaning to, in order.
    pub fn additional_headers(&self) -> (r: &[ObjectHeader])
        ensures
            header_views(r@) == self@.additional_headers,
    {
        self.additional_headers.as_slice()
    }

    /// The repository the commit was read from.
    pub fn repo(&self) -> (r: Result<&Repo<G>, Error>)
        ensures
            self.has_repo() <==> r is Ok,
            r matches Ok(x) ==> self.linked_repo() == Some(*x),
            r matches Err(e) ==> e == Error::NotAnnotatedWithRepo,
    {
        match &self.repo {
            Some(x) => Ok(x),
            None => Err(Error::NotAnnotatedWithRepo),
        }
    }

    /// The same commit, no longer tied to a repository.
    pub fn detach(self) -> (r: Commit<Noop>)
        ensures
            r@ == self@,
            !r.has_repo(),
    {
        Commit {
            id: self.id,
            tree: self.tree,
            parents: self.parents,
            author_name: self.author_name,
            author_email: self.author_email,
            author_date: self.author_date,
            committer_name: self.committer_name,
            committer_email: self.committer_email,
            commit_date: self.commit_date,
            message: self.message,
            additional_headers: self.additional_headers,
            repo: None,
        }
    }

    /// A copy of the commit.
    pub fn clone_commit(&self) -> (r: Self)
        ensures
            r@ == self@,
            r.has_repo() == self.has_repo(),
            repo_copied(self.linked_repo(), r.linked_repo()),
    {
        let mut additional: Vec<ObjectHeader> = Vec::new();
        let mut k: usize = 0;
        while k < self.additional_headers.len()
            invariant
                k <= self.additional_headers@.len(),
                header_views(additional@) =~= header_views(self.additional_headers@.subrange(0, k as int)),
            decreases self.additional_headers@.len() - k,
        {
            let ghost before = header_views(additional@);
            additional.push(self.additional_headers[k].clone_header());
            proof {
                assert(header_views(additional@) =~= before.push(self.additional_headers@[k as int]@));
                assert(self.additional_headers@.subrange(0, k + 1) =~= self.additional_headers@.subrange(0, k as int).push(self.additional_headers@[k as int]));
            }
            k = k + 1;
        }
        assert(self.additional_headers@.subrange(0, k as int) =~= self.additional_headers@);
        let mut parents: Vec<ObjectId> = Vec::new();
        let mut j: usize = 0;
        while j < self.parents.len()
            invariant
                j <= self.parents@.len(),
                parents@ =~= self.parents@.subrange(0, j as int),
            decreases self.parents@.len() - j,
        {
            parents.push(self.parents[j]);
            j = j + 1;
        }
        assert(self.parents@.subrange(0, j as int) =~= self.parents@);
        Commit {
            id: self.id,
            tree: self.tree,
            parents,
            author_name: self.author_name.clone(),
            author_email: self.author_email.clone(),
            author_date: self.author_date,
            committer_name: self.committer_name.clone(),
            committer_email: self.committer_email.clone(),
            commit_date: self.commit_date,
            message: self.message.clone(),
            additional_headers: additional,
            repo: match &self.repo {
                Some(x) => Some(x.clone()),
                None => None,
            },
        }
    }
}

proof fn lemma_commit_fold_err(hs: Seq<(Seq<u8>, Seq<u8>)>, i: int)
    requires
        0 <= i < hs.len(),
        commit_fold(hs.subrange(0, i + 1)) is Err,
    ensures
        commit_fold(hs) == commit_fold(hs.subrange(0, i + 1)),
    decreases hs.len() - i,
{
    if i + 1 < hs.len() {
        assert(hs.drop_last().subrange(0, i + 1) =~= hs.subrange(0, i + 1));
        lemma_commit_fold_err(hs.drop_last(), i);
    } else {
        assert(hs.subrange(0, i + 1) =~= hs);
    }
}

} // verus!
