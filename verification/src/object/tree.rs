//! Tree objects: the entries of one directory.
//!
//! A tree body is a run of entries, each `<mode> <name>\0<20-byte id>`,
//! with the mode one of `40000` (a tree), `100644` (a file), `100755` (an
//! executable), `120000` (a symlink) or `160000` (a commit of a submodule).
use vstd::prelude::*;

use crate::error::Error;
use crate::object_id::ObjectId;
use crate::parsing::{
    byte_stop, bytes_eq, copy_range, find_byte, has_prefix_at, lemma_byte_stop, lemma_byte_stop_at,
    prefix_at, snippet,
    snippet_at, ParseError, ParseErrorView,
};
use crate::repo::{repo_copied, Repo};
use crate::traits::{AllGenerics, Noop};

verus! {

/// What a tree entry points at.
#[derive(Debug, PartialEq, Eq, Structural, PartialOrd, Ord, Copy, Clone)]
pub enum TreeEntryType {
    File,
    Executable,
    Symlink,
    Tree,
    Commit,
}

/// One entry of a tree: a name, what it is, and the object it points at.
#[derive(Debug)]
pub struct TreeEntry<G: AllGenerics> {
    name: Vec<u8>,
    entry_type: TreeEntryType,
    id: ObjectId,
    repo: Option<Repo<G>>,
}

/// The content of a tree entry.
pub struct TreeEntryView {
    pub name: Seq<u8>,
    pub entry_type: TreeEntryType,
    pub id: Seq<u8>,
}

impl<G: AllGenerics> View for TreeEntry<G> {
    type V = TreeEntryView;

    closed spec fn view(&self) -> TreeEntryView {
        TreeEntryView { name: self.name@, entry_type: self.entry_type, id: self.id@ }
    }
}

/// A tree: its id, its entries in the order they are stored, and the
/// repository it was read from, if any.
#[derive(Debug)]
pub struct Tree<G: AllGenerics> {
    id: ObjectId,
    entries: Vec<TreeEntry<G>>,
    repo: Option<Repo<G>>,
}

/// The content of a tree.
pub struct TreeView {
    pub id: Seq<u8>,
    pub entries: Seq<TreeEntryView>,
}

/// The views of a sequence of tree entries.
pub open spec fn entry_views<G: AllGenerics>(es: Seq<TreeEntry<G>>) -> Seq<TreeEntryView> {
    es.map_values(|e: TreeEntry<G>| e@)
}

impl<G: AllGenerics> View for Tree<G> {
    type V = TreeView;

    closed spec fn view(&self) -> TreeView {
        TreeView { id: self.id@, entries: entry_views(self.entries@) }
    }
}

/// The mode that opens an entry at `i`, and its length.
pub open spec fn entry_mode_at(s: Seq<u8>, i: int) -> Option<(TreeEntryType, int)> {
    if has_prefix_at(s, i, seq![52u8, 48u8, 48u8, 48u8, 48u8]) {
        Some((TreeEntryType::Tree, 5))
    } else if has_prefix_at(s, i, seq![49u8, 48u8, 48u8, 54u8, 52u8, 52u8]) {
        Some((TreeEntryType::File, 6))
    } else if has_prefix_at(s, i, seq![49u8, 48u8, 48u8, 55u8, 53u8, 53u8]) {
        Some((TreeEntryType::Executable, 6))
    } else if has_prefix_at(s, i, seq![49u8, 50u8, 48u8, 48u8, 48u8, 48u8]) {
        Some((TreeEntryType::Symlink, 6))
    } else if has_prefix_at(s, i, seq![49u8, 54u8, 48u8, 48u8, 48u8, 48u8]) {
        Some((TreeEntryType::Commit, 6))
    } else {
        None
    }
}

/// The entry stored at `i`, and the position after it: a mode, a space, a
/// name running to the next NUL byte, the NUL, and 20 bytes of id.
pub open spec fn tree_entry_at(s: Seq<u8>, i: int) -> Option<(TreeEntryView, int)> {
    match entry_mode_at(s, i) {
        None => None,
        Some((t, n)) => {
            let j = i + n;
            if j < s.len() && s[j] == 32u8 {
                let k = byte_stop(s, j + 1, 0u8);
                if k + 21 <= s.len() {
                    Some(
                        (
                            TreeEntryView {
                                name: s.subrange(j + 1, k),
                                entry_type: t,
                                id: s.subrange(k + 1, k + 21),
                            },
                            k + 21,
                        ),
                    )
                } else {
                    None
                }
            } else {
                None
            }
        },
    }
}

/// The entries stored one after another from `i`, as many as parse, and
/// the position where the first one that does not parse would start.
pub open spec fn tree_entries_from(s: Seq<u8>, i: int) -> (Seq<TreeEntryView>, int)
    decreases s.len() - i,
{
    match tree_entry_at(s, i) {
        Some((e, n)) => if i < n <= s.len() {
            let (rest, p) = tree_entries_from(s, n);
            (seq![e].add(rest), p)
        } else {
            (Seq::empty(), i)
        },
        None => (Seq::empty(), i),
    }
}

/// What parsing the body of tree `id` gives: the entries, which must cover
/// the whole body, or a grammar error carrying up to 16 bytes from where
/// the first entry that does not parse starts.
pub open spec fn tree_parse(id: Seq<u8>, body: Seq<u8>) -> Result<TreeView, ParseErrorView> {
    let (es, p) = tree_entries_from(body, 0);
    if p == body.len() {
        Ok(TreeView { id, entries: es })
    } else {
        Err(ParseErrorView::Syntax(snippet_at(body, p)))
    }
}

proof fn lemma_tree_entry_at(s: Seq<u8>, i: int)
    requires
        0 <= i <= s.len(),
    ensures
        tree_entry_at(s, i) matches Some((e, n)) ==> i < n <= s.len(),
{
    if let Some((t, n)) = entry_mode_at(s, i) {
        let j = i + n;
        if j < s.len() && s[j] == 32u8 {
            lemma_byte_stop(s, j + 1, 0u8);
        }
    }
}

/// Reads the mode at `i`.
fn read_entry_mode(s: &[u8], i: usize) -> (r: Option<(TreeEntryType, usize)>)
    ensures
        match entry_mode_at(s@, i as int) {
            None => r is None,
            Some((t, n)) => r matches Some((t2, n2)) && t2 == t && n2 == n,
        },
{
    let tree_mode: [u8; 5] = [52, 48, 48, 48, 48];
    let file_mode: [u8; 6] = [49, 48, 48, 54, 52, 52];
    let exec_mode: [u8; 6] = [49, 48, 48, 55, 53, 53];
    let link_mode: [u8; 6] = [49, 50, 48, 48, 48, 48];
    let commit_mode: [u8; 6] = [49, 54, 48, 48, 48, 48];
    assert(tree_mode@ =~= seq![52u8, 48u8, 48u8, 48u8, 48u8]);
    assert(file_mode@ =~= seq![49u8, 48u8, 48u8, 54u8, 52u8, 52u8]);
    assert(exec_mode@ =~= seq![49u8, 48u8, 48u8, 55u8, 53u8, 53u8]);
    assert(link_mode@ =~= seq![49u8, 50u8, 48u8, 48u8, 48u8, 48u8]);
    assert(commit_mode@ =~= seq![49u8, 54u8, 48u8, 48u8, 48u8, 48u8]);
    if prefix_at(s, i, tree_mode.as_slice()) {
        Some((TreeEntryType::Tree, 5))
    } else if prefix_at(s, i, file_mode.as_slice()) {
        Some((TreeEntryType::File, 6))
    } else if prefix_at(s, i, exec_mode.as_slice()) {
        Some((TreeEntryType::Executable, 6))
    } else if prefix_at(s, i, link_mode.as_slice()) {
        Some((TreeEntryType::Symlink, 6))
    } else if prefix_at(s, i, commit_mode.as_slice()) {
        Some((TreeEntryType::Commit, 6))
    } else {
        None
    }
}

/// Copies 20 bytes of `s` from `i` into an id.
fn id_at(s: &[u8], i: usize) -> (r: ObjectId)
    requires
        i + 20 <= s.len(),
    ensures
        r@ == s@.subrange(i as int, i + 20),
{
    let mut id = [0u8; 20];
    let mut k: usize = 0;
    while k < 20
        invariant
            k <= 20,
            i + 20 <= s.len(),
            forall|j: int| 0 <= j < k ==> id@[j] == s@[i + j],
        decreases 20 - k,
    {
        id[k] = s[i + k];
        k = k + 1;
    }
    let r = ObjectId::new(id);
    assert(r@ =~= s@.subrange(i as int, i + 20));
    r
}

/// Reads the entry stored at `i`: its name, type and id, and the position
/// after it.
fn read_tree_entry(s: &[u8], i: usize) -> (r: Option<(Vec<u8>, TreeEntryType, ObjectId, usize)>)
    requires
        i <= s.len(),
    ensures
        match tree_entry_at(s@, i as int) {
            None => r is None,
            Some((e, n)) => r matches Some((name, t, id, n2)) && name@ == e.name && t
                == e.entry_type && id@ == e.id && n2 == n,
        },
{
    let (t, n) = match read_entry_mode(s, i) {
        None => return None,
        Some(x) => x,
    };
    let j = i + n;
    if !(j < s.len() && s[j] == 32u8) {
        return None;
    }
    let k = find_byte(s, j + 1, 0u8);
    if k >= s.len() || s.len() - k < 21 {
        return None;
    }
    let name = copy_range(s, j + 1, k);
    let id = id_at(s, k + 1);
    Some((name, t, id, k + 21))
}

/// A copy of an optional repository handle.
fn clone_repo<G: AllGenerics>(repo: &Option<Repo<G>>) -> (r: Option<Repo<G>>)
    ensures
        repo_copied(*repo, r),
{
    match repo {
        Some(x) => Some(x.clone()),
        None => None,
    }
}

/// Tree entries are the same when their names, types and ids are.
impl<G: AllGenerics> PartialEq for TreeEntry<G> {
    fn eq(&self, other: &Self) -> (r: bool) {
        bytes_eq(self.name.as_slice(), other.name.as_slice()) && self.entry_type == other.entry_type
            && self.id == other.id
    }
}

impl<G: AllGenerics> vstd::std_specs::cmp::PartialEqSpecImpl for TreeEntry<G> {
    open spec fn obeys_eq_spec() -> bool {
        true
    }

    open spec fn eq_spec(&self, other: &Self) -> bool {
        self@.name == other@.name && self@.entry_type == other@.entry_type && self@.id == other@.id
    }
}

impl<G: AllGenerics> Eq for TreeEntry<G> {
}

impl<G: AllGenerics> TreeEntry<G> {
    /// The repository the entry remembers, if any.
    pub closed spec fn linked_repo(&self) -> Option<Repo<G>> {
        self.repo
    }

    /// Whether the entry remembers the repository it was read from.
    pub open spec fn has_repo(&self) -> bool {
        self.linked_repo() is Some
    }

    /// The entry's name.
    pub fn name(&self) -> (r: &[u8])
        ensures
            r@ == self@.name,
    {
        self.name.as_slice()
    }

    /// What the entry points at.
    pub fn entry_type(&self) -> (r: TreeEntryType)
        ensures
            r == self@.entry_type,
    {
        self.entry_type
    }

    /// The id of the object the entry points at.
    pub fn id(&self) -> (r: ObjectId)
        ensures
            r@ == self@.id,
    {
        self.id
    }

    /// The repository the entry was read from.
    pub fn repo(&self) -> (r: Result<&Repo<G>, Error>)
        ensures
            self.has_repo() <==> r is Ok,
            r matches Ok(x) ==> self.linked_repo() == Some(*x),
            r matches Err(e) ==> e == Error::NotAnnotatedWithRepo,
    {
        match &self.repo {
            Some(x) => Ok(x),
            None => Err(Error::NotAnnotatedWithRepo),
        }
    }

    /// The same entry, no longer tied to a repository.
    pub fn detach(self) -> (r: TreeEntry<Noop>)
        ensures
            r@ == self@,
            !r.has_repo(),
    {
        TreeEntry { name: self.name, entry_type: self.entry_type, id: self.id, repo: None }
    }

    /// A copy of the entry.
    pub fn clone_entry(&self) -> (r: Self)
        ensures
            r@ == self@,
            r.has_repo() == self.has_repo(),
            repo_copied(self.linked_repo(), r.linked_repo()),
    {
        TreeEntry {
            name: self.name.clone(),
            entry_type: self.entry_type,
            id: self.id,
            repo: clone_repo(&self.repo),
        }
    }

    /// The id of the object to read when following the entry: none for a
    /// submodule commit, which lives in another repository; an error when
    /// the entry does not remember its repository.
    pub fn lookup_id(&self) -> (r: Result<Option<ObjectId>, Error>)
        ensures
            self@.entry_type == TreeEntryType::Commit ==> r == Ok::<Option<ObjectId>, Error>(None),
            self@.entry_type != TreeEntryType::Commit && !self.has_repo() ==> r
                == Err::<Option<ObjectId>, Error>(Error::NotAnnotatedWithRepo),
            self@.entry_type != TreeEntryType::Commit && self.has_repo() ==> (r matches Ok(Some(
                id,
            )) && id@ == self@.id),
    {
        if self.entry_type == TreeEntryType::Commit {
            return Ok(None);
        }
        match &self.repo {
            None => Err(Error::NotAnnotatedWithRepo),
            Some(_) => Ok(Some(self.id)),
        }
    }
}

/// Trees are the same when their ids are.
impl<G: AllGenerics> PartialEq for Tree<G> {
    fn eq(&self, other: &Self) -> (r: bool) {
        self.id == other.id
    }
}

impl<G: AllGenerics> vstd::std_specs::cmp::PartialEqSpecImpl for Tree<G> {
    open spec fn obeys_eq_spec() -> bool {
        true
    }

    open spec fn eq_spec(&self, other: &Self) -> bool {
        self@.id == other@.id
    }
}

impl<G: AllGenerics> Eq for Tree<G> {
}

impl<G: AllGenerics> Tree<G> {
    /// The repository the tree remembers, if any.
    pub closed spec fn linked_repo(&self) -> Option<Repo<G>> {
        self.repo
    }

    /// Whether the tree remembers the repository it was read from.
    pub open spec fn has_repo(&self) -> bool {
        self.linked_repo() is Some
    }

    /// Whether every entry remembers the repository it was read from.
    pub closed spec fn entries_have_repo(&self, b: bool) -> bool {
        forall|k: int| 0 <= k < self.entries@.len() ==> #[trigger] self.entries@[k].has_repo() == b
    }

    /// The tree's id.
    pub fn id(&self) -> (r: ObjectId)
        ensures
            r@ == self@.id,
    {
        self.id
    }

    /// The tree's entries, in the order they are stored.
    pub fn entries(&self) -> (r: &[TreeEntry<G>])
        ensures
            entry_views(r@) == self@.entries,
    {
        self.entries.as_slice()
    }

    /// The repository the tree was read from.
    pub fn repo(&self) -> (r: Result<&Repo<G>, Error>)
        ensures
            self.has_repo() <==> r is Ok,
            r matches Ok(x) ==> self.linked_repo() == Some(*x),
            r matches Err(e) ==> e == Error::NotAnnotatedWithRepo,
    {
        match &self.repo {
            Some(x) => Ok(x),
            None => Err(Error::NotAnnotatedWithRepo),
        }
    }

    /// The same tree, itself and its entries no longer tied to a repository.
    pub fn detach(self) -> (r: Tree<Noop>)
        ensures
            r@ == self@,
            !r.has_repo(),
            r.entries_have_repo(false),
    {
        let mut entries: Vec<TreeEntry<Noop>> = Vec::new();
        let old_entries = self.entries;
        let mut k: usize = 0;
        while k < old_entries.len()
            invariant
                k <= old_entries.len(),
                entries@.len() == k,
                forall|j: int| 0 <= j < k ==> #[trigger] entries@[j]@ == old_entries@[j]@,
                forall|j: int| 0 <= j < k ==> !(#[trigger] entries@[j]).has_repo(),
            decreases old_entries.len() - k,
        {
            let e = old_entries[k].clone_entry().detach();
            entries.push(e);
            k = k + 1;
        }
        let r = Tree { id: self.id, entries, repo: None };
        assert(entry_views(r.entries@) =~= entry_views(old_entries@));
        r
    }

    /// A copy of the tree.
    pub fn clone_tree(&self) -> (r: Self)
        ensures
            r@ == self@,
            r.has_repo() == self.has_repo(),
            repo_copied(self.linked_repo(), r.linked_repo()),
    {
        let mut entries: Vec<TreeEntry<G>> = Vec::new();
        let mut k: usize = 0;
        while k < self.entries.len()
            invariant
                k <= self.entries@.len(),
                entries@.len() == k,
                forall|j: int| 0 <= j < k ==> #[trigger] entries@[j]@ == self.entries@[j]@,
            decreases self.entries@.len() - k,
        {
            entries.push(self.entries[k].clone_entry());
            k = k + 1;
        }
        let r = Tree { id: self.id, entries, repo: clone_repo(&self.repo) };
        assert(entry_views(r.entries@) =~= entry_views(self.entries@));
        r
    }

    /// Parses the body of tree `id`, tying the tree and its entries to
    /// `repo`.
    pub fn parse(id: ObjectId, body: &[u8], repo: Option<Repo<G>>) -> (r: Result<Self, ParseError>)
        ensures
            tree_parse(id@, body@) matches Ok(t) ==> r matches Ok(x) && x@ == t && x.linked_repo()
                == repo && x.entries_have_repo(repo is Some),
            tree_parse(id@, body@) matches Err(e) ==> r matches Err(x)
                && crate::parsing::parse_error_view(x) == e,
    {
        let mut entries: Vec<TreeEntry<G>> = Vec::new();
        let mut i: usize = 0;
        while i < body.len()
            invariant_except_break
                i <= body.len(),
                tree_entries_from(body@, 0) == (
                    entry_views(entries@).add(tree_entries_from(body@, i as int).0),
                    tree_entries_from(body@, i as int).1,
                ),
                forall|k: int| 0 <= k < entries@.len() ==> (#[trigger] entries@[k]).has_repo()
                    == repo is Some,
            ensures
                i <= body.len(),
                tree_entries_from(body@, 0) == (entry_views(entries@), i as int),
                forall|k: int| 0 <= k < entries@.len() ==> (#[trigger] entries@[k]).has_repo()
                    == repo is Some,
            decreases body.len() - i,
        {
            proof {
                lemma_tree_entry_at(body@, i as int);
            }
            match read_tree_entry(body, i) {
                None => {
                    assert(entry_views(entries@).add(Seq::<TreeEntryView>::empty()) =~= entry_views(
                        entries@,
                    ));
                    break ;
                },
                Some((name, entry_type, eid, n)) => {
                    let e = TreeEntry { name, entry_type, id: eid, repo: clone_repo(&repo) };
                    let ghost before = entry_views(entries@);
                    let ghost rest = tree_entries_from(body@, n as int).0;
                    entries.push(e);
                    proof {
                        assert(entry_views(entries@) =~= before.push(e@));
                        assert(before.add(seq![e@].add(rest)) =~= before.push(e@).add(rest));
                    }
                    i = n;
                },
            }
        }
        if i < body.len() {
            return Err(ParseError::ParseError { input_snippet: snippet(body, i) });
        }
        Ok(Tree { id, entries, repo })
    }
}

/// The mode git writes for an entry of type `t`.
pub open spec fn mode_bytes(t: TreeEntryType) -> Seq<u8> {
    match t {
        TreeEntryType::Tree => seq![52u8, 48u8, 48u8, 48u8, 48u8],
        TreeEntryType::File => seq![49u8, 48u8, 48u8, 54u8, 52u8, 52u8],
        TreeEntryType::Executable => seq![49u8, 48u8, 48u8, 55u8, 53u8, 53u8],
        TreeEntryType::Symlink => seq![49u8, 50u8, 48u8, 48u8, 48u8, 48u8],
        TreeEntryType::Commit => seq![49u8, 54u8, 48u8, 48u8, 48u8, 48u8],
    }
}

/// How an entry is stored in a tree body: mode, space, name, NUL, id.
pub open spec fn entry_bytes(e: TreeEntryView) -> Seq<u8> {
    mode_bytes(e.entry_type).push(32u8).add(e.name).push(0u8).add(e.id)
}

/// A tree body storing `es` one after another.
pub open spec fn tree_body(es: Seq<TreeEntryView>) -> Seq<u8>
    decreases es.len(),
{
    if es.len() == 0 {
        Seq::empty()
    } else {
        entry_bytes(es[0]).add(tree_body(es.subrange(1, es.len() as int)))
    }
}

/// Every entry can be stored: its name has no NUL byte and its id is 20
/// bytes long.
pub open spec fn storable(es: Seq<TreeEntryView>) -> bool {
    forall|k: int| 0 <= k < es.len() ==> {
        &&& (#[trigger] es[k]).id.len() == 20
        &&& forall|j: int| 0 <= j < es[k].name.len() ==> es[k].name[j] != 0u8
    }
}

proof fn lemma_entry_at(p: Seq<u8>, e: TreeEntryView, rest: Seq<u8>)
    requires
        e.id.len() == 20,
        forall|j: int| 0 <= j < e.name.len() ==> e.name[j] != 0u8,
    ensures
        tree_entry_at(p.add(entry_bytes(e)).add(rest), p.len() as int) == Some(
            (e, p.len() + entry_bytes(e).len() as int),
        ),
{
    let s = p.add(entry_bytes(e)).add(rest);
    let i = p.len() as int;
    let m = mode_bytes(e.entry_type);
    let n = m.len() as int;
    let eb = entry_bytes(e);
    assert forall|j: int| 0 <= j < eb.len() implies s[i + j] == #[trigger] eb[j] by {
        assert(s[i + j] == p.add(eb)[i + j]);
    }
    assert forall|j: int| 0 <= j < n implies s[i + j] == #[trigger] m[j] by {
        assert(eb[j] == m[j]);
        assert(s[i + j] == eb[j]);
    }
    assert(s.subrange(i, i + n) =~= m);
    assert(eb[n] == 32u8);
    assert(s[i + n] == eb[n]);
    let k = i + n + 1 + e.name.len();
    assert forall|j: int| i + n + 1 <= j < k implies #[trigger] s[j] != 0u8 by {
        assert(s[j] == eb[j - i]);
        assert(eb[j - i] == e.name[j - i - n - 1]);
    }
    assert(eb[n + 1 + e.name.len()] == 0u8);
    assert(s[k] == eb[k - i]);
    lemma_byte_stop_at(s, i + n + 1, k, 0u8);
    assert(s.subrange(i + n + 1, k) =~= e.name) by {
        assert forall|j: int| 0 <= j < e.name.len() implies s.subrange(i + n + 1, k)[j] == e.name[j] by {
            assert(s[i + n + 1 + j] == eb[n + 1 + j]);
        }
    }
    assert(s.subrange(k + 1, k + 21) =~= e.id) by {
        assert forall|j: int| 0 <= j < 20 implies s.subrange(k + 1, k + 21)[j] == e.id[j] by {
            assert(s[k + 1 + j] == eb[k + 1 + j - i]);
        }
    }
    // The modes tried before the entry's own do not match its bytes.
    assert(s[i] == m[0]);
    assert(s[i + 1] == m[1]);
    assert(s[i + 3] == m[3]);
    if e.entry_type != TreeEntryType::Tree {
        assert(s.subrange(i, i + 5)[0] != seq![52u8, 48u8, 48u8, 48u8, 48u8][0]);
    }
    if e.entry_type == TreeEntryType::Executable || e.entry_type == TreeEntryType::Symlink
        || e.entry_type == TreeEntryType::Commit {
        assert(s.subrange(i, i + 6)[3] != seq![49u8, 48u8, 48u8, 54u8, 52u8, 52u8][3] || s.subrange(
            i,
            i + 6,
        )[1] != seq![49u8, 48u8, 48u8, 54u8, 52u8, 52u8][1]);
    }
    if e.entry_type == TreeEntryType::Symlink || e.entry_type == TreeEntryType::Commit {
        assert(s.subrange(i, i + 6)[1] != seq![49u8, 48u8, 48u8, 55u8, 53u8, 53u8][1]);
    }
    if e.entry_type == TreeEntryType::Commit {
        assert(s.subrange(i, i + 6)[1] != seq![49u8, 50u8, 48u8, 48u8, 48u8, 48u8][1]);
    }
}

proof fn lemma_entries_of_body(p: Seq<u8>, es: Seq<TreeEntryView>)
    requires
        storable(es),
    ensures
        tree_entries_from(p.add(tree_body(es)), p.len() as int) == (es, p.len() + tree_body(es).len() as int),
    decreases es.len(),
{
    let s = p.add(tree_body(es));
    if es.len() == 0 {
        assert(s =~= p);
        assert(!has_prefix_at(s, p.len() as int, seq![52u8, 48u8, 48u8, 48u8, 48u8]));
    } else {
        let e = es[0];
        let rest = es.subrange(1, es.len() as int);
        assert(tree_body(es) == entry_bytes(e).add(tree_body(rest)));
        assert(s =~= p.add(entry_bytes(e)).add(tree_body(rest)));
        lemma_entry_at(p, e, tree_body(rest));
        assert forall|k: int| 0 <= k < rest.len() implies {
            &&& (#[trigger] rest[k]).id.len() == 20
            &&& forall|j: int| 0 <= j < rest[k].name.len() ==> rest[k].name[j] != 0u8
        } by {
            assert(rest[k] == es[k + 1]);
        }
        lemma_entries_of_body(p.add(entry_bytes(e)), rest);
        assert(p.add(entry_bytes(e)).add(tree_body(rest)) =~= s);
        assert(seq![e].add(rest) =~= es);
    }
}

/// A tree body that stores entries one after another, each with a name
/// free of NUL bytes and a 20-byte id, parses into exactly those entries.
pub proof fn law_tree_body_roundtrip(id: Seq<u8>, es: Seq<TreeEntryView>)
    requires
        storable(es),
    ensures
        tree_parse(id, tree_body(es)) == Ok::<TreeView, ParseErrorView>(TreeView { id, entries: es }),
{
    lemma_entries_of_body(Seq::empty(), es);
    assert(Seq::<u8>::empty().add(tree_body(es)) =~= tree_body(es));
}

} // verus!
