//! Refs: names that point at objects or at other refs.
//!
//! A loose ref is a file under `refs/` (or `HEAD`) holding one line: 40
//! hexadecimal digits, or `ref: refs/` and the name of another ref. The
//! `packed-refs` file lists refs one per line as `<id> refs/<name>`, each
//! optionally followed by a `^<id>` line, with `#` comment lines between.
use vstd::prelude::*;

use crate::error::Error;
use crate::object_id::{
    all_hex_digits, hex_decode, hex_encode, is_hex_digit, law_hex_roundtrip, starts_with_object_id,
    ObjectId,
};
use crate::parsing::{
    blank_run_end, byte_stop, bytes_eq, copy_range, find_byte, has_prefix_at, lemma_byte_stop,
    lemma_byte_stop_at,
    lemma_line_stop, lemma_line_stop_at, line_stop, prefix_at, read_rest_of_line, rest_of_line, skip_blanks,
};

verus! {

/// The name of a ref.
#[derive(Debug, PartialEq, Eq, PartialOrd, Ord, Clone)]
pub enum RefName {
    /// `refs/heads/<name>`
    Branch(Vec<u8>),
    /// `refs/tags/<name>`
    Tag(Vec<u8>),
    /// `refs/remotes/<name>`
    Remote(Vec<u8>),
    /// Any other ref under `refs/`, such as `stash`.
    Other(Vec<u8>),
    /// `HEAD`
    Head,
}

/// The value of a ref name.
pub enum RefNameView {
    Branch(Seq<u8>),
    Tag(Seq<u8>),
    Remote(Seq<u8>),
    Other(Seq<u8>),
    Head,
}

impl View for RefName {
    type V = RefNameView;

    open spec fn view(&self) -> RefNameView {
        match self {
            RefName::Branch(n) => RefNameView::Branch(n@),
            RefName::Tag(n) => RefNameView::Tag(n@),
            RefName::Remote(n) => RefNameView::Remote(n@),
            RefName::Other(n) => RefNameView::Other(n@),
            RefName::Head => RefNameView::Head,
        }
    }
}

/// What a ref holds: an object id, or the name of another ref.
#[derive(Debug, PartialEq, Eq, Clone)]
pub enum Ref {
    Direct(ObjectId),
    Symbolic(RefName),
}

/// The value of a ref.
pub enum RefView {
    Direct(Seq<u8>),
    Symbolic(RefNameView),
}

impl View for Ref {
    type V = RefView;

    open spec fn view(&self) -> RefView {
        match self {
            Ref::Direct(id) => RefView::Direct(id@),
            Ref::Symbolic(n) => RefView::Symbolic(n@),
        }
    }
}

/// `ref: refs/` in ASCII.
pub open spec fn symbolic_prefix() -> Seq<u8> {
    seq![114u8, 101u8, 102u8, 58u8, 32u8, 114u8, 101u8, 102u8, 115u8, 47u8]
}

/// `refs/` in ASCII.
pub open spec fn refs_prefix() -> Seq<u8> {
    seq![114u8, 101u8, 102u8, 115u8, 47u8]
}

/// `heads/` in ASCII.
pub open spec fn heads_prefix() -> Seq<u8> {
    seq![104u8, 101u8, 97u8, 100u8, 115u8, 47u8]
}

/// `tags/` in ASCII.
pub open spec fn tags_prefix() -> Seq<u8> {
    seq![116u8, 97u8, 103u8, 115u8, 47u8]
}

/// `remotes/` in ASCII.
pub open spec fn remotes_prefix() -> Seq<u8> {
    seq![114u8, 101u8, 109u8, 111u8, 116u8, 101u8, 115u8, 47u8]
}

/// The ref a loose ref's line names, without its line feed: 40 hexadecimal
/// digits (anything after them is ignored), or `ref: refs/` followed by
/// `heads/`, `tags/` or `remotes/` and a name.
pub open spec fn ref_line(l: Seq<u8>) -> Option<RefView> {
    if starts_with_object_id(l) {
        Some(RefView::Direct(hex_decode(l.subrange(0, 40))))
    } else if has_prefix_at(l, 0, symbolic_prefix()) {
        if has_prefix_at(l, 10, heads_prefix()) {
            Some(RefView::Symbolic(RefNameView::Branch(l.subrange(16, l.len() as int))))
        } else if has_prefix_at(l, 10, tags_prefix()) {
            Some(RefView::Symbolic(RefNameView::Tag(l.subrange(15, l.len() as int))))
        } else if has_prefix_at(l, 10, remotes_prefix()) {
            Some(RefView::Symbolic(RefNameView::Remote(l.subrange(18, l.len() as int))))
        } else {
            None
        }
    } else {
        None
    }
}

/// What the content of a loose ref file holds: exactly one line, ended by a
/// line feed, as [`ref_line`] reads it.
pub open spec fn loose_ref_parse(s: Seq<u8>) -> Option<RefView> {
    match rest_of_line(s, 0) {
        None => None,
        Some(j) => if j < s.len() && s[j] == 10u8 && j + 1 == s.len() {
            ref_line(s.subrange(0, j))
        } else {
            None
        },
    }
}

/// A byte string with the same bytes.
fn copy_bytes(v: &[u8]) -> (r: Vec<u8>)
    ensures
        r@ == v@,
{
    let r = copy_range(v, 0, v.len());
    assert(v@.subrange(0, v@.len() as int) =~= v@);
    r
}

/// The words a ref line may use, as bytes.
fn ref_words() -> (r: (Vec<u8>, Vec<u8>, Vec<u8>, Vec<u8>, Vec<u8>))
    ensures
        r.0@ == symbolic_prefix(),
        r.1@ == refs_prefix(),
        r.2@ == heads_prefix(),
        r.3@ == tags_prefix(),
        r.4@ == remotes_prefix(),
{
    let a = vec![114u8, 101, 102, 58, 32, 114, 101, 102, 115, 47];
    let b = vec![114u8, 101, 102, 115, 47];
    let c = vec![104u8, 101, 97, 100, 115, 47];
    let d = vec![116u8, 97, 103, 115, 47];
    let e = vec![114u8, 101, 109, 111, 116, 101, 115, 47];
    assert(a@ =~= symbolic_prefix());
    assert(b@ =~= refs_prefix());
    assert(c@ =~= heads_prefix());
    assert(d@ =~= tags_prefix());
    assert(e@ =~= remotes_prefix());
    (a, b, c, d, e)
}

/// Reads the ref named by the line `l` (see [`ref_line`]).
fn parse_ref_line(l: &[u8]) -> (r: Option<Ref>)
    ensures
        match ref_line(l@) {
            None => r is None,
            Some(v) => r matches Some(x) && x@ == v,
        },
{
    if let Some(id) = ObjectId::parse_prefix(l) {
        return Some(Ref::Direct(id));
    }
    let (w_sym, _, w_heads, w_tags, w_remotes) = ref_words();
    if !prefix_at(l, 0, w_sym.as_slice()) {
        return None;
    }
    if prefix_at(l, 10, w_heads.as_slice()) {
        Some(Ref::Symbolic(RefName::Branch(copy_range(l, 16, l.len()))))
    } else if prefix_at(l, 10, w_tags.as_slice()) {
        Some(Ref::Symbolic(RefName::Tag(copy_range(l, 15, l.len()))))
    } else if prefix_at(l, 10, w_remotes.as_slice()) {
        Some(Ref::Symbolic(RefName::Remote(copy_range(l, 18, l.len()))))
    } else {
        None
    }
}

/// Whether two ref names are the same.
pub fn ref_name_eq(a: &RefName, b: &RefName) -> (r: bool)
    ensures
        r == (a@ == b@),
{
    match (a, b) {
        (RefName::Branch(x), RefName::Branch(y)) => bytes_eq(x.as_slice(), y.as_slice()),
        (RefName::Tag(x), RefName::Tag(y)) => bytes_eq(x.as_slice(), y.as_slice()),
        (RefName::Remote(x), RefName::Remote(y)) => bytes_eq(x.as_slice(), y.as_slice()),
        (RefName::Other(x), RefName::Other(y)) => bytes_eq(x.as_slice(), y.as_slice()),
        (RefName::Head, RefName::Head) => true,
        _ => false,
    }
}

/// `/` splits `s[i..]` into these parts, in order; a string without `/` is
/// one part, and an empty one is one empty part.
pub open spec fn split_slash_from(s: Seq<u8>, i: int) -> Seq<Seq<u8>>
    decreases s.len() - i,
{
    let k = byte_stop(s, i, 47u8);
    if i < 0 || i > s.len() || k >= s.len() || k < i {
        seq![s.subrange(i, s.len() as int)]
    } else {
        seq![s.subrange(i, k)].add(split_slash_from(s, k + 1))
    }
}

/// Splits `s` at every `/`.
pub fn split_slash(s: &[u8]) -> (r: Vec<Vec<u8>>)
    ensures
        r@.map_values(|p: Vec<u8>| p@) == split_slash_from(s@, 0),
{
    let mut out: Vec<Vec<u8>> = Vec::new();
    let mut i: usize = 0;
    loop
        invariant
            i <= s.len(),
            split_slash_from(s@, 0) == out@.map_values(|p: Vec<u8>| p@).add(
                split_slash_from(s@, i as int),
            ),
        decreases s.len() - i,
    {
        proof {
            lemma_byte_stop(s@, i as int, 47u8);
        }
        let k = find_byte(s, i, 47u8);
        let ghost before = out@.map_values(|p: Vec<u8>| p@);
        let part = copy_range(s, i, k);
        out.push(part);
        assert(out@.map_values(|p: Vec<u8>| p@) =~= before.push(part@));
        if k >= s.len() {
            assert(before.push(part@) =~= before.add(seq![part@]));
            return out;
        }
        assert(before.add(seq![part@].add(split_slash_from(s@, k + 1))) =~= before.push(part@).add(
            split_slash_from(s@, k + 1),
        ));
        i = k + 1;
    }
}

impl RefName {
    /// A copy of the name.
    pub fn clone_name(&self) -> (r: RefName)
        ensures
            r@ == self@,
    {
        match self {
            RefName::Branch(n) => RefName::Branch(copy_bytes(n.as_slice())),
            RefName::Tag(n) => RefName::Tag(copy_bytes(n.as_slice())),
            RefName::Remote(n) => RefName::Remote(copy_bytes(n.as_slice())),
            RefName::Other(n) => RefName::Other(copy_bytes(n.as_slice())),
            RefName::Head => RefName::Head,
        }
    }

    /// How much of the path of the ref's loose file must exist for the ref
    /// to be looked up at all: the number of leading directories (`refs/`
    /// and, for a branch, tag or remote, its kind's directory), and whether
    /// the file itself must (only `HEAD`'s). A missing part beyond these
    /// means the ref has no loose file.
    pub fn required_path(&self) -> (r: (usize, bool))
        ensures
            r == (match self@ {
                RefNameView::Head => (0usize, true),
                RefNameView::Other(_) => (1usize, false),
                _ => (2usize, false),
            }),
    {
        match self {
            RefName::Head => (0, true),
            RefName::Other(_) => (1, false),
            _ => (2, false),
        }
    }

    /// Where the loose file of the ref lives, relative to the `.git`
    /// directory: the directories to descend into, in order, and the file
    /// name. `HEAD` is a file of its own; other refs live under `refs/`, in
    /// `heads/`, `tags/` or `remotes/` for branches, tags and remotes, with
    /// each `/` of their name descending one more directory.
    pub fn file_path(&self) -> (r: (Vec<Vec<u8>>, Vec<u8>))
        ensures
            r.0@.map_values(|p: Vec<u8>| p@).push(r.1@) == ref_file_path(self@),
    {
        match self {
            RefName::Head => {
                let head = vec![72u8, 69, 65, 68];
                assert(head@ =~= seq![72u8, 69u8, 65u8, 68u8]);
                let dirs: Vec<Vec<u8>> = Vec::new();
                assert(dirs@.map_values(|p: Vec<u8>| p@).push(head@) =~= seq![head@]);
                (dirs, head)
            },
            RefName::Branch(n) => {
                let kind = vec![104u8, 101, 97, 100, 115];
                assert(kind@ =~= seq![104u8, 101u8, 97u8, 100u8, 115u8]);
                sub_path(kind, n.as_slice())
            },
            RefName::Tag(n) => {
                let kind = vec![116u8, 97, 103, 115];
                assert(kind@ =~= seq![116u8, 97u8, 103u8, 115u8]);
                sub_path(kind, n.as_slice())
            },
            RefName::Remote(n) => {
                let kind = vec![114u8, 101, 109, 111, 116, 101, 115];
                assert(kind@ =~= seq![114u8, 101u8, 109u8, 111u8, 116u8, 101u8, 115u8]);
                sub_path(kind, n.as_slice())
            },
            RefName::Other(n) => {
                let parts = split_slash(n.as_slice());
                proof {
                    lemma_split_nonempty(n@, 0);
                }
                let mut dirs: Vec<Vec<u8>> = Vec::new();
                let refs = vec![114u8, 101, 102, 115];
                assert(refs@ =~= seq![114u8, 101u8, 102u8, 115u8]);
                dirs.push(refs);
                assert(dirs@.map_values(|p: Vec<u8>| p@) =~= seq![seq![114u8, 101u8, 102u8, 115u8]]);
                split_last(dirs, parts)
            },
        }
    }
}

/// The path of a ref's loose file as a sequence of names, the last being
/// the file's.
pub open spec fn ref_file_path(n: RefNameView) -> Seq<Seq<u8>> {
    let refs = seq![114u8, 101u8, 102u8, 115u8];
    match n {
        RefNameView::Head => seq![seq![72u8, 69u8, 65u8, 68u8]],
        RefNameView::Branch(p) => seq![refs, seq![104u8, 101u8, 97u8, 100u8, 115u8]].add(
            split_slash_from(p, 0),
        ),
        RefNameView::Tag(p) => seq![refs, seq![116u8, 97u8, 103u8, 115u8]].add(
            split_slash_from(p, 0),
        ),
        RefNameView::Remote(p) => seq![refs, seq![114u8, 101u8, 109u8, 111u8, 116u8, 101u8, 115u8]].add(
            split_slash_from(p, 0),
        ),
        RefNameView::Other(p) => seq![refs].add(split_slash_from(p, 0)),
    }
}

proof fn lemma_split_nonempty(s: Seq<u8>, i: int)
    ensures
        split_slash_from(s, i).len() >= 1,
    decreases s.len() - i,
{
    let k = byte_stop(s, i, 47u8);
    if i < 0 || i > s.len() || k >= s.len() || k < i {
    } else {
        lemma_split_nonempty(s, k + 1);
    }
}

/// Appends all but the last of `parts` to `dirs`, and gives the last apart.
fn split_last(dirs: Vec<Vec<u8>>, parts: Vec<Vec<u8>>) -> (r: (Vec<Vec<u8>>, Vec<u8>))
    requires
        parts@.len() >= 1,
    ensures
        r.0@.map_values(|p: Vec<u8>| p@).push(r.1@) == dirs@.map_values(|p: Vec<u8>| p@).add(
            parts@.map_values(|p: Vec<u8>| p@),
        ),
{
    let mut out = dirs;
    let ghost start = out@.map_values(|p: Vec<u8>| p@);
    let ghost pv = parts@.map_values(|p: Vec<u8>| p@);
    let mut k: usize = 0;
    while k < parts.len() - 1
        invariant
            k + 1 <= parts@.len(),
            pv == parts@.map_values(|p: Vec<u8>| p@),
            out@.map_values(|p: Vec<u8>| p@) == start.add(pv.subrange(0, k as int)),
        decreases parts@.len() - k,
    {
        let ghost before = out@.map_values(|p: Vec<u8>| p@);
        let p = copy_bytes(parts[k].as_slice());
        out.push(p);
        proof {
            assert(out@.map_values(|p: Vec<u8>| p@) =~= before.push(p@));
            assert(pv.subrange(0, k + 1) =~= pv.subrange(0, k as int).push(pv[k as int]));
            assert(start.add(pv.subrange(0, k + 1)) =~= start.add(pv.subrange(0, k as int)).push(
                pv[k as int],
            ));
        }
        k = k + 1;
    }
    let last = copy_bytes(parts[k].as_slice());
    proof {
        assert(pv =~= pv.subrange(0, k as int).push(pv[k as int]));
        assert(start.add(pv) =~= start.add(pv.subrange(0, k as int)).push(pv[k as int]));
    }
    (out, last)
}

/// The path under `refs/<kind>/` of the ref named `name`.
fn sub_path(kind: Vec<u8>, name: &[u8]) -> (r: (Vec<Vec<u8>>, Vec<u8>))
    ensures
        r.0@.map_values(|p: Vec<u8>| p@).push(r.1@) == seq![
            seq![114u8, 101u8, 102u8, 115u8],
            kind@,
        ].add(split_slash_from(name@, 0)),
{
    let parts = split_slash(name);
    proof {
        lemma_split_nonempty(name@, 0);
    }
    let mut dirs: Vec<Vec<u8>> = Vec::new();
    let refs = vec![114u8, 101, 102, 115];
    assert(refs@ =~= seq![114u8, 101u8, 102u8, 115u8]);
    let ghost kv = kind@;
    dirs.push(refs);
    dirs.push(kind);
    assert(dirs@.map_values(|p: Vec<u8>| p@) =~= seq![seq![114u8, 101u8, 102u8, 115u8], kv]);
    split_last(dirs, parts)
}

impl Ref {
    /// Reads the content of a loose ref file (see [`loose_ref_parse`]).
    pub fn parse_loose_ref(content: &[u8]) -> (r: Option<Ref>)
        ensures
            match loose_ref_parse(content@) {
                None => r is None,
                Some(v) => r matches Some(x) && x@ == v,
            },
    {
        let j = match read_rest_of_line(content, 0) {
            None => return None,
            Some(j) => j,
        };
        if !(j < content.len() && content[j] == 10u8 && j + 1 == content.len()) {
            return None;
        }
        let line = vstd::slice::slice_subrange(content, 0, j);
        parse_ref_line(line)
    }

    /// The ref named `name`, from the content of its loose file; content
    /// that does not parse makes the ref malformed.
    pub fn from_loose(name: &RefName, content: &[u8]) -> (r: Result<Ref, Error>)
        ensures
            match loose_ref_parse(content@) {
                None => r matches Err(Error::MalformedRef(n)) && n@ == name@,
                Some(v) => r matches Ok(x) && x@ == v,
            },
    {
        match Ref::parse_loose_ref(content) {
            Some(x) => Ok(x),
            None => Err(Error::MalformedRef(name.clone_name())),
        }
    }

    /// The ref named `name`, from the content of the `packed-refs` file: the
    /// id of the first entry with that name, or not found.
    pub fn from_packed(name: &RefName, packed_refs: &[u8]) -> (r: Result<Ref, Error>)
        ensures
            match first_named(packed_refs_from(packed_refs@, 0), name@) {
                None => r matches Err(Error::RefNotFound(n)) && n@ == name@,
                Some(id) => r matches Ok(x) && x@ == RefView::Direct(id),
            },
    {
        let refs = read_packed_refs(packed_refs);
        match find_packed_ref(refs.as_slice(), name) {
            Some(id) => Ok(Ref::Direct(id)),
            None => Err(Error::RefNotFound(name.clone_name())),
        }
    }

    /// The id a direct ref holds, or the name a symbolic ref leads on to.
    pub fn target(&self) -> (r: Result<ObjectId, RefName>)
        ensures
            match self@ {
                RefView::Direct(id) => r matches Ok(x) && x@ == id,
                RefView::Symbolic(n) => r matches Err(x) && x@ == n,
            },
    {
        match self {
            Ref::Direct(id) => Ok(*id),
            Ref::Symbolic(n) => Err(n.clone_name()),
        }
    }
}

/// The entry of the packed refs file at `i`, and the position after it:
/// `<40 hex digits> refs/<name>` ended by a line feed, optionally followed
/// by a `^`-line ended by a line feed. The name is classified as for a
/// loose ref file (see [`classify_ref_path`]).
pub open spec fn packed_ref_at(s: Seq<u8>, i: int) -> Option<((Seq<u8>, RefNameView), int)> {
    if 0 <= i <= s.len() && starts_with_object_id(s.subrange(i, s.len() as int)) && i + 40
        < s.len() && s[i + 40] == 32u8 && has_prefix_at(s, i + 41, refs_prefix()) {
        let id = hex_decode(s.subrange(i, i + 40));
        let p = i + 46;
        match rest_of_line(s, p) {
            Some(j) => if j < s.len() && s[j] == 10u8 {
                let n = classify_ref_path(s.subrange(p, j));
                let after = j + 1;
                let end = if after < s.len() && s[after] == 94u8 {
                    match rest_of_line(s, after + 1) {
                        Some(k) => if k < s.len() && s[k] == 10u8 {
                            k + 1
                        } else {
                            after
                        },
                        None => after,
                    }
                } else {
                    after
                };
                Some(((id, n), end))
            } else {
                None
            },
            None => None,
        }
    } else {
        None
    }
}

/// The comment line at `i` and the position after it: spaces and tabs, a
/// `#`, the rest of the line, and its line feed if there is one.
pub open spec fn comment_at(s: Seq<u8>, i: int) -> Option<int> {
    let b = blank_run_end(s, i);
    if 0 <= i <= b < s.len() && s[b] == 35u8 {
        match rest_of_line(s, b + 1) {
            Some(j) => if j < s.len() && s[j] == 10u8 {
                Some(j + 1)
            } else {
                Some(j)
            },
            None => None,
        }
    } else {
        None
    }
}

/// The refs listed in a packed refs file from `i`, in order, skipping
/// comments; reading stops quietly at the first line that is neither.
pub open spec fn packed_refs_from(s: Seq<u8>, i: int) -> Seq<(Seq<u8>, RefNameView)>
    decreases s.len() - i,
{
    match packed_ref_at(s, i) {
        Some((e, n)) => if i < n <= s.len() {
            seq![e].add(packed_refs_from(s, n))
        } else {
            Seq::empty()
        },
        None => match comment_at(s, i) {
            Some(n) => if i < n <= s.len() {
                packed_refs_from(s, n)
            } else {
                Seq::empty()
            },
            None => Seq::empty(),
        },
    }
}

/// The id of the first listed ref named `n`.
pub open spec fn first_named(refs: Seq<(Seq<u8>, RefNameView)>, n: RefNameView) -> Option<Seq<u8>>
    decreases refs.len(),
{
    if refs.len() == 0 {
        None
    } else if refs[0].1 == n {
        Some(refs[0].0)
    } else {
        first_named(refs.subrange(1, refs.len() as int), n)
    }
}

/// The values of a list of packed refs.
pub open spec fn packed_views(refs: Seq<(ObjectId, RefName)>) -> Seq<(Seq<u8>, RefNameView)> {
    refs.map_values(|e: (ObjectId, RefName)| (e.0@, e.1@))
}

proof fn lemma_packed_steps(s: Seq<u8>, i: int)
    requires
        0 <= i <= s.len(),
    ensures
        packed_ref_at(s, i) matches Some((e, n)) ==> i < n <= s.len(),
        comment_at(s, i) matches Some(n) ==> i < n <= s.len(),
{
    if let Some((e, n)) = packed_ref_at(s, i) {
        let p = i + 46;
        lemma_line_stop(s, p);
        if let Some(j) = rest_of_line(s, p) {
            if j + 1 < s.len() && s[j + 1] == 94u8 {
                lemma_line_stop(s, j + 2);
            }
        }
    }
    let b = blank_run_end(s, i);
    if 0 <= i <= b < s.len() && s[b] == 35u8 {
        lemma_line_stop(s, b + 1);
    }
}

/// Reads the entry of a packed refs file at `i` (see [`packed_ref_at`]).
fn read_packed_ref(s: &[u8], i: usize) -> (r: Option<(ObjectId, RefName, usize)>)
    requires
        i <= s.len(),
    ensures
        match packed_ref_at(s@, i as int) {
            None => r is None,
            Some((e, n)) => r matches Some((id, name, n2)) && id@ == e.0 && name@ == e.1 && n2
                == n,
        },
{
    let rest = vstd::slice::slice_subrange(s, i, s.len());
    let id = match ObjectId::parse_prefix(rest) {
        None => return None,
        Some(id) => id,
    };
    proof {
        assert(rest@.subrange(0, 40) =~= s@.subrange(i as int, i + 40));
    }
    if !(s.len() - i > 40 && s[i + 40] == 32u8) {
        return None;
    }
    let (_, w_refs, _, _, _) = ref_words();
    if !prefix_at(s, i + 41, w_refs.as_slice()) {
        return None;
    }
    let p = i + 46;
    let j = match read_rest_of_line(s, p) {
        None => return None,
        Some(j) => j,
    };
    if !(j < s.len() && s[j] == 10u8) {
        return None;
    }
    let n = classify_name(copy_range(s, p, j));
    let after = j + 1;
    let mut end = after;
    if after < s.len() && s[after] == 94u8 {
        match read_rest_of_line(s, after + 1) {
            Some(k) => {
                if k < s.len() && s[k] == 10u8 {
                    end = k + 1;
                }
            },
            None => {},
        }
    }
    Some((id, n, end))
}

/// Reads the comment line at `i` (see [`comment_at`]).
fn read_comment(s: &[u8], i: usize) -> (r: Option<usize>)
    requires
        i <= s.len(),
    ensures
        r == (match comment_at(s@, i as int) {
            Some(n) => Some(n as usize),
            None => None::<usize>,
        }),
{
    let b = skip_blanks(s, i);
    if !(b < s.len() && s[b] == 35u8) {
        return None;
    }
    match read_rest_of_line(s, b + 1) {
        Some(j) => if j < s.len() && s[j] == 10u8 {
            Some(j + 1)
        } else {
            Some(j)
        },
        None => None,
    }
}

/// Reads the refs listed in the content of a packed refs file (see
/// [`packed_refs_from`]).
pub fn read_packed_refs(s: &[u8]) -> (r: Vec<(ObjectId, RefName)>)
    ensures
        packed_views(r@) == packed_refs_from(s@, 0),
{
    let mut out: Vec<(ObjectId, RefName)> = Vec::new();
    let mut i: usize = 0;
    loop
        invariant
            i <= s.len(),
            packed_refs_from(s@, 0) == packed_views(out@).add(packed_refs_from(s@, i as int)),
        decreases s.len() - i,
    {
        proof {
            lemma_packed_steps(s@, i as int);
        }
        match read_packed_ref(s, i) {
            Some((id, name, n)) => {
                let ghost before = packed_views(out@);
                let ghost e = (id@, name@);
                out.push((id, name));
                proof {
                    assert(packed_views(out@) =~= before.push(e));
                    assert(before.add(seq![e].add(packed_refs_from(s@, n as int))) =~= before.push(
                        e,
                    ).add(packed_refs_from(s@, n as int)));
                }
                i = n;
            },
            None => match read_comment(s, i) {
                Some(n) => {
                    i = n;
                },
                None => {
                    assert(packed_views(out@).add(Seq::empty()) =~= packed_views(out@));
                    return out;
                },
            },
        }
    }
}

/// The id of the first of `refs` named `name`.
pub fn find_packed_ref(refs: &[(ObjectId, RefName)], name: &RefName) -> (r: Option<ObjectId>)
    ensures
        match first_named(packed_views(refs@), name@) {
            None => r is None,
            Some(id) => r matches Some(x) && x@ == id,
        },
{
    let mut k: usize = 0;
    assert(packed_views(refs@).subrange(0, refs@.len() as int) =~= packed_views(refs@));
    while k < refs.len()
        invariant
            k <= refs@.len(),
            first_named(packed_views(refs@), name@) == first_named(
                packed_views(refs@).subrange(k as int, refs@.len() as int),
                name@,
            ),
        decreases refs@.len() - k,
    {
        let ghost rest = packed_views(refs@).subrange(k as int, refs@.len() as int);
        assert(rest[0] == (refs@[k as int].0@, refs@[k as int].1@));
        if ref_name_eq(&refs[k].1, name) {
            return Some(refs[k].0);
        }
        assert(rest.subrange(1, rest.len() as int) =~= packed_views(refs@).subrange(
            k + 1,
            refs@.len() as int,
        ));
        k = k + 1;
    }
    None
}

/// The components of a path joined with `/`; empty components before the
/// first non-empty one add nothing.
pub open spec fn join_path(cs: Seq<Seq<u8>>) -> Seq<u8>
    decreases cs.len(),
{
    if cs.len() == 0 {
        Seq::empty()
    } else {
        let acc = join_path(cs.drop_last());
        if acc.len() == 0 {
            cs.last()
        } else {
            acc.push(47u8).add(cs.last())
        }
    }
}

/// The ref named by its path under `refs/`: `heads/`, `tags/` and
/// `remotes/` name branches, tags and remotes; any other path is another
/// ref.
pub open spec fn classify_ref_path(name: Seq<u8>) -> RefNameView {
    if has_prefix_at(name, 0, heads_prefix()) {
        RefNameView::Branch(name.subrange(6, name.len() as int))
    } else if has_prefix_at(name, 0, tags_prefix()) {
        RefNameView::Tag(name.subrange(5, name.len() as int))
    } else if has_prefix_at(name, 0, remotes_prefix()) {
        RefNameView::Remote(name.subrange(8, name.len() as int))
    } else {
        RefNameView::Other(name)
    }
}

/// The values of a sequence of path components.
pub open spec fn component_views(cs: Seq<Vec<u8>>) -> Seq<Seq<u8>> {
    cs.map_values(|c: Vec<u8>| c@)
}

/// Joins path components with `/` (see [`join_path`]).
pub fn join_components(cs: &[Vec<u8>]) -> (r: Vec<u8>)
    ensures
        r@ == join_path(component_views(cs@)),
{
    let mut out: Vec<u8> = Vec::new();
    let mut k: usize = 0;
    while k < cs.len()
        invariant
            k <= cs@.len(),
            out@ == join_path(component_views(cs@).subrange(0, k as int)),
        decreases cs@.len() - k,
    {
        let ghost prev = component_views(cs@).subrange(0, k as int);
        let ghost next = component_views(cs@).subrange(0, k + 1);
        proof {
            assert(next.drop_last() =~= prev);
            assert(next.last() == cs@[k as int]@);
        }
        if out.len() > 0 {
            out.push(47u8);
        }
        let c = cs[k].as_slice();
        let mut j: usize = 0;
        let ghost base = out@;
        while j < c.len()
            invariant
                j <= c@.len(),
                out@ == base.add(c@.subrange(0, j as int)),
            decreases c@.len() - j,
        {
            out.push(c[j]);
            assert(c@.subrange(0, j + 1) =~= c@.subrange(0, j as int).push(c@[j as int]));
            j = j + 1;
        }
        proof {
            assert(c@.subrange(0, j as int) =~= c@);
            if prev.len() == 0 || join_path(prev).len() == 0 {
                assert(base.add(c@) =~= c@);
            }
        }
        k = k + 1;
    }
    assert(component_views(cs@).subrange(0, k as int) =~= component_views(cs@));
    out
}

/// The ref whose loose file is at path `cs` under `refs/` (see
/// [`classify_ref_path`]).
pub fn ref_name_from_path(cs: &[Vec<u8>]) -> (r: RefName)
    ensures
        r@ == classify_ref_path(join_path(component_views(cs@))),
{
    classify_name(join_components(cs))
}

/// The ref named `name` under `refs/` (see [`classify_ref_path`]).
fn classify_name(name: Vec<u8>) -> (r: RefName)
    ensures
        r@ == classify_ref_path(name@),
{
    let (_, _, w_heads, w_tags, w_remotes) = ref_words();
    if prefix_at(name.as_slice(), 0, w_heads.as_slice()) {
        RefName::Branch(copy_range(name.as_slice(), 6, name.len()))
    } else if prefix_at(name.as_slice(), 0, w_tags.as_slice()) {
        RefName::Tag(copy_range(name.as_slice(), 5, name.len()))
    } else if prefix_at(name.as_slice(), 0, w_remotes.as_slice()) {
        RefName::Remote(copy_range(name.as_slice(), 8, name.len()))
    } else {
        RefName::Other(name)
    }
}

/// Whether a ref named `n` is among `names`.
fn contains_name(names: &Vec<RefName>, n: &RefName) -> (r: bool)
    ensures
        r == exists|k: int| 0 <= k < names@.len() && (#[trigger] names@[k])@ == n@,
{
    let mut k: usize = 0;
    while k < names.len()
        invariant
            k <= names@.len(),
            forall|j: int| 0 <= j < k ==> (#[trigger] names@[j])@ != n@,
        decreases names@.len() - k,
    {
        if ref_name_eq(&names[k], n) {
            return true;
        }
        k = k + 1;
    }
    false
}

/// Adds `n` to `names` unless a ref of that name is there already.
fn insert_name(names: &mut Vec<RefName>, n: RefName)
    ensures
        forall|k: int| 0 <= k < old(names)@.len() ==> final(names)@[k] == old(names)@[k],
        (exists|k: int| 0 <= k < old(names)@.len() && (#[trigger] old(names)@[k])@ == n@)
            ==> final(names)@.len() == old(names)@.len(),
        !(exists|k: int| 0 <= k < old(names)@.len() && (#[trigger] old(names)@[k])@ == n@)
            ==> final(names)@ == old(names)@.push(n),
{
    if !contains_name(names, &n) {
        names.push(n);
    }
}

/// Every ref a repository has, each once: `HEAD`, those listed in its
/// packed refs, and those with a loose file at one of `paths` under
/// `refs/`.
pub fn collect_ref_names(packed: &[(ObjectId, RefName)], paths: &[Vec<Vec<u8>>]) -> (r: Vec<RefName>)
    ensures
        forall|i: int, j: int| 0 <= i < j < r@.len() ==> (#[trigger] r@[i])@ != (#[trigger] r@[j])@,
        exists|k: int| 0 <= k < r@.len() && (#[trigger] r@[k])@ == RefNameView::Head,
        forall|p: int| 0 <= p < packed@.len() ==> exists|k: int| 0 <= k < r@.len() && (#[trigger] r@[k])@ == (#[trigger] packed@[p]).1@,
        forall|p: int| 0 <= p < paths@.len() ==> exists|k: int| 0 <= k < r@.len() && (#[trigger] r@[k])@ == classify_ref_path(join_path(component_views((#[trigger] paths@[p])@))),
        forall|k: int| 0 <= k < r@.len() ==> {
            ||| (#[trigger] r@[k])@ == RefNameView::Head
            ||| exists|p: int| 0 <= p < packed@.len() && r@[k]@ == (#[trigger] packed@[p]).1@
            ||| exists|p: int| 0 <= p < paths@.len() && r@[k]@ == classify_ref_path(join_path(component_views((#[trigger] paths@[p])@)))
        },
{
    let mut out: Vec<RefName> = Vec::new();
    out.push(RefName::Head);
    assert(out@[0]@ == RefNameView::Head);
    let mut i: usize = 0;
    while i < packed.len()
        invariant
            i <= packed@.len(),
            forall|a: int, b: int| 0 <= a < b < out@.len() ==> (#[trigger] out@[a])@ != (#[trigger] out@[b])@,
            out@.len() >= 1,
            out@[0]@ == RefNameView::Head,
            forall|p: int| 0 <= p < i ==> exists|k: int| 0 <= k < out@.len() && (#[trigger] out@[k])@ == (#[trigger] packed@[p]).1@,
            forall|k: int| 0 <= k < out@.len() ==> {
                ||| (#[trigger] out@[k])@ == RefNameView::Head
                ||| exists|p: int| 0 <= p < packed@.len() && out@[k]@ == (#[trigger] packed@[p]).1@
            },
        decreases packed@.len() - i,
    {
        let n = packed[i].1.clone_name();
        let ghost before = out@;
        insert_name(&mut out, n);
        proof {
            assert forall|p: int| 0 <= p < i + 1 implies exists|k: int| 0 <= k < out@.len() && (#[trigger] out@[k])@ == (#[trigger] packed@[p]).1@ by {
                if p < i {
                    let k = choose|k: int| 0 <= k < before.len() && (#[trigger] before[k])@ == packed@[p].1@;
                    assert(out@[k] == before[k]);
                } else {
                    if exists|k: int| 0 <= k < before.len() && (#[trigger] before[k])@ == n@ {
                        let k = choose|k: int| 0 <= k < before.len() && (#[trigger] before[k])@ == n@;
                        assert(out@[k] == before[k]);
                    } else {
                        assert(out@[before.len() as int] == n);
                    }
                }
            }
            assert forall|k: int| 0 <= k < out@.len() implies {
                ||| (#[trigger] out@[k])@ == RefNameView::Head
                ||| exists|p: int| 0 <= p < packed@.len() && out@[k]@ == (#[trigger] packed@[p]).1@
            } by {
                if k < before.len() {
                    assert(out@[k] == before[k]);
                } else {
                    assert(out@[k] == n);
                    assert(out@[k]@ == packed@[i as int].1@);
                }
            }
        }
        i = i + 1;
    }
    let mut j: usize = 0;
    while j < paths.len()
        invariant
            j <= paths@.len(),
            forall|a: int, b: int| 0 <= a < b < out@.len() ==> (#[trigger] out@[a])@ != (#[trigger] out@[b])@,
            out@.len() >= 1,
            out@[0]@ == RefNameView::Head,
            forall|p: int| 0 <= p < packed@.len() ==> exists|k: int| 0 <= k < out@.len() && (#[trigger] out@[k])@ == (#[trigger] packed@[p]).1@,
            forall|p: int| 0 <= p < j ==> exists|k: int| 0 <= k < out@.len() && (#[trigger] out@[k])@ == classify_ref_path(join_path(component_views((#[trigger] paths@[p])@))),
            forall|k: int| 0 <= k < out@.len() ==> {
                ||| (#[trigger] out@[k])@ == RefNameView::Head
                ||| exists|p: int| 0 <= p < packed@.len() && out@[k]@ == (#[trigger] packed@[p]).1@
                ||| exists|p: int| 0 <= p < paths@.len() && out@[k]@ == classify_ref_path(join_path(component_views((#[trigger] paths@[p])@)))
            },
        decreases paths@.len() - j,
    {
        let n = ref_name_from_path(paths[j].as_slice());
        let ghost before = out@;
        insert_name(&mut out, n);
        proof {
            assert forall|p: int| 0 <= p < packed@.len() implies exists|k: int| 0 <= k < out@.len() && (#[trigger] out@[k])@ == (#[trigger] packed@[p]).1@ by {
                let k = choose|k: int| 0 <= k < before.len() && (#[trigger] before[k])@ == packed@[p].1@;
                assert(out@[k] == before[k]);
            }
            assert forall|p: int| 0 <= p < j + 1 implies exists|k: int| 0 <= k < out@.len() && (#[trigger] out@[k])@ == classify_ref_path(join_path(component_views((#[trigger] paths@[p])@))) by {
                if p < j {
                    let k = choose|k: int| 0 <= k < before.len() && (#[trigger] before[k])@ == classify_ref_path(join_path(component_views(paths@[p]@)));
                    assert(out@[k] == before[k]);
                } else {
                    if exists|k: int| 0 <= k < before.len() && (#[trigger] before[k])@ == n@ {
                        let k = choose|k: int| 0 <= k < before.len() && (#[trigger] before[k])@ == n@;
                        assert(out@[k] == before[k]);
                    } else {
                        assert(out@[before.len() as int] == n);
                    }
                }
            }
            assert forall|k: int| 0 <= k < out@.len() implies {
                ||| (#[trigger] out@[k])@ == RefNameView::Head
                ||| exists|p: int| 0 <= p < packed@.len() && out@[k]@ == (#[trigger] packed@[p]).1@
                ||| exists|p: int| 0 <= p < paths@.len() && out@[k]@ == classify_ref_path(join_path(component_views((#[trigger] paths@[p])@)))
            } by {
                if k < before.len() {
                    assert(out@[k] == before[k]);
                } else {
                    assert(out@[k] == n);
                    assert(out@[k]@ == classify_ref_path(join_path(component_views(paths@[j as int]@))));
                }
            }
        }
        j = j + 1;
    }
    assert(out@[0]@ == RefNameView::Head);
    out
}

/// No line feed or carriage return occurs in `s`.
pub open spec fn no_line_breaks(s: Seq<u8>) -> bool {
    forall|k: int| 0 <= k < s.len() ==> #[trigger] s[k] != 10u8 && s[k] != 13u8
}

/// The content of a loose ref file holding `id`: its hexadecimal form and
/// a line feed.
pub open spec fn direct_ref_text(id: Seq<u8>) -> Seq<u8> {
    hex_encode(id).push(10u8)
}

/// A loose ref file holding an id reads back as that id.
pub proof fn law_direct_ref_roundtrip(id: Seq<u8>)
    requires
        id.len() == 20,
    ensures
        loose_ref_parse(direct_ref_text(id)) == Some(RefView::Direct(id)),
{
    law_hex_roundtrip(id);
    let h = hex_encode(id);
    let s = direct_ref_text(id);
    assert forall|k: int| 0 <= k < 40 implies #[trigger] s[k] != 10u8 && s[k] != 13u8 by {
        assert(s[k] == h[k]);
        assert(is_hex_digit(h[k]));
    }
    lemma_line_stop_at(s, 0, 40);
    let l = s.subrange(0, 40);
    assert(l =~= h);
    assert(l.subrange(0, 40) =~= h);
}

/// The content of a loose ref file pointing at the branch, tag or remote
/// `n`: `ref: refs/`, the kind's directory, the name and a line feed.
pub open spec fn symbolic_ref_text(n: RefNameView) -> Seq<u8> {
    match n {
        RefNameView::Branch(x) => symbolic_prefix().add(heads_prefix()).add(x).push(10u8),
        RefNameView::Tag(x) => symbolic_prefix().add(tags_prefix()).add(x).push(10u8),
        RefNameView::Remote(x) => symbolic_prefix().add(remotes_prefix()).add(x).push(10u8),
        _ => Seq::empty(),
    }
}

/// The name carried by a branch, tag or remote.
pub open spec fn name_of(n: RefNameView) -> Seq<u8> {
    match n {
        RefNameView::Branch(x) => x,
        RefNameView::Tag(x) => x,
        RefNameView::Remote(x) => x,
        RefNameView::Other(x) => x,
        RefNameView::Head => Seq::empty(),
    }
}

/// A loose ref file pointing at a branch, tag or remote whose name has no
/// line break reads back as a pointer to that ref.
pub proof fn law_symbolic_ref_roundtrip(n: RefNameView)
    requires
        n is Branch || n is Tag || n is Remote,
        no_line_breaks(name_of(n)),
    ensures
        loose_ref_parse(symbolic_ref_text(n)) == Some(RefView::Symbolic(n)),
{
    let x = name_of(n);
    let kind = match n {
        RefNameView::Branch(_) => heads_prefix(),
        RefNameView::Tag(_) => tags_prefix(),
        _ => remotes_prefix(),
    };
    let l = symbolic_prefix().add(kind).add(x);
    let s = symbolic_ref_text(n);
    assert(s =~= l.push(10u8));
    let m: int = 10 + kind.len() as int;
    assert forall|k: int| 0 <= k < l.len() implies #[trigger] s[k] != 10u8 && s[k] != 13u8 by {
        assert(s[k] == l[k]);
        if k >= m {
            assert(l[k] == x[k - m]);
        }
    }
    lemma_line_stop_at(s, 0, l.len() as int);
    assert(s.subrange(0, l.len() as int) =~= l);
    assert(!is_hex_digit(l[0]));
    if l.len() >= 40 {
        assert(l.subrange(0, 40)[0] == l[0]);
    }
    assert(l.subrange(0, 10) =~= symbolic_prefix());
    assert(l.subrange(10, m) =~= kind);
    assert(l.subrange(m, l.len() as int) =~= x);
    assert(l[10] == kind[0]);
    if !(n is Branch) && l.len() >= 16 {
        assert(l.subrange(10, 16)[0] == l[10]);
    }
    if n is Remote && l.len() >= 15 {
        assert(l.subrange(10, 15)[0] == l[10]);
    }
}

/// Each of `cs` is a file or directory name: not empty, without `/`; and
/// there is at least one.
pub open spec fn plain_components(cs: Seq<Seq<u8>>) -> bool {
    &&& cs.len() >= 1
    &&& forall|k: int| 0 <= k < cs.len() ==> (#[trigger] cs[k]).len() > 0
    &&& forall|k: int, j: int| 0 <= k < cs.len() && 0 <= j < cs[k].len() ==> (#[trigger] cs[k][j]) != 47u8
}

proof fn lemma_byte_stop_shift(s: Seq<u8>, i: int, j: int, c: u8)
    requires
        0 <= i <= s.len(),
        0 <= j <= s.len() - i,
    ensures
        byte_stop(s, i + j, c) == i + byte_stop(s.subrange(i, s.len() as int), j, c),
    decreases s.len() - i - j,
{
    let t = s.subrange(i, s.len() as int);
    if j < t.len() {
        assert(t[j] == s[i + j]);
        lemma_byte_stop_shift(s, i, j + 1, c);
    }
}

proof fn lemma_split_shift(s: Seq<u8>, i: int, j: int)
    requires
        0 <= i <= s.len(),
        0 <= j <= s.len() - i,
    ensures
        split_slash_from(s, i + j) == split_slash_from(s.subrange(i, s.len() as int), j),
    decreases s.len() - i - j,
{
    let t = s.subrange(i, s.len() as int);
    lemma_byte_stop_shift(s, i, j, 47u8);
    lemma_byte_stop(t, j, 47u8);
    let kt = byte_stop(t, j, 47u8);
    if kt >= t.len() {
        assert(s.subrange(i + j, s.len() as int) =~= t.subrange(j, t.len() as int));
    } else {
        assert(s.subrange(i + j, i + kt) =~= t.subrange(j, kt));
        lemma_split_shift(s, i, kt + 1);
    }
}

proof fn lemma_split_concat(c: Seq<u8>, u: Seq<u8>)
    requires
        forall|j: int| 0 <= j < c.len() ==> #[trigger] c[j] != 47u8,
    ensures
        split_slash_from(c.push(47u8).add(u), 0) == seq![c].add(split_slash_from(u, 0)),
{
    let s = c.push(47u8).add(u);
    assert forall|k: int| 0 <= k < c.len() implies #[trigger] s[k] != 47u8 by {
        assert(s[k] == c[k]);
    }
    assert(s[c.len() as int] == 47u8);
    lemma_byte_stop_at(s, 0, c.len() as int, 47u8);
    assert(s.subrange(0, c.len() as int) =~= c);
    let m: int = c.len() as int + 1;
    assert(s.subrange(m, s.len() as int) =~= u);
    lemma_split_shift(s, m, 0);
}

proof fn lemma_join_single(cs: Seq<Seq<u8>>)
    requires
        cs.len() == 1,
    ensures
        join_path(cs) == cs[0],
{
    reveal_with_fuel(join_path, 2);
    assert(cs.drop_last() =~= Seq::<Seq<u8>>::empty());
}

proof fn lemma_join_nonempty(cs: Seq<Seq<u8>>)
    requires
        cs.len() >= 1,
        forall|k: int| 0 <= k < cs.len() ==> (#[trigger] cs[k]).len() > 0,
    ensures
        join_path(cs).len() > 0,
    decreases cs.len(),
{
    if cs.len() > 1 {
        lemma_join_nonempty(cs.drop_last());
    }
}

proof fn lemma_join_front(cs: Seq<Seq<u8>>)
    requires
        cs.len() >= 2,
        forall|k: int| 0 <= k < cs.len() ==> (#[trigger] cs[k]).len() > 0,
    ensures
        join_path(cs) == cs[0].push(47u8).add(join_path(cs.subrange(1, cs.len() as int))),
    decreases cs.len(),
{
    let rest = cs.subrange(1, cs.len() as int);
    if cs.len() == 2 {
        lemma_join_single(cs.drop_last());
        lemma_join_single(rest);
        assert(cs.drop_last()[0] == cs[0]);
        assert(rest[0] == cs[1]);
    } else {
        let d = cs.drop_last();
        lemma_join_front(d);
        assert(d.subrange(1, d.len() as int) =~= rest.drop_last());
        lemma_join_nonempty(rest.drop_last());
        lemma_join_nonempty(d);
        assert(rest.last() == cs.last());
        assert(join_path(cs) == join_path(d).push(47u8).add(cs.last()));
        assert(join_path(rest) == join_path(rest.drop_last()).push(47u8).add(cs.last()));
        assert(cs[0].push(47u8).add(join_path(rest.drop_last())).push(47u8).add(cs.last())
            =~= cs[0].push(47u8).add(join_path(rest.drop_last()).push(47u8).add(cs.last())));
    }
}

proof fn lemma_split_join(cs: Seq<Seq<u8>>)
    requires
        plain_components(cs),
    ensures
        split_slash_from(join_path(cs), 0) == cs,
    decreases cs.len(),
{
    if cs.len() == 1 {
        lemma_join_single(cs);
        let c = cs[0];
        assert forall|k: int| 0 <= k < c.len() implies #[trigger] c[k] != 47u8 by {
            assert(cs[0][k] != 47u8);
        }
        lemma_byte_stop_at(c, 0, c.len() as int, 47u8);
        assert(c.subrange(0, c.len() as int) =~= c);
        assert(seq![c] =~= cs);
    } else {
        let rest = cs.subrange(1, cs.len() as int);
        lemma_join_front(cs);
        assert forall|k: int| 0 <= k < rest.len() implies (#[trigger] rest[k]).len() > 0 by {
            assert(rest[k] == cs[k + 1]);
        }
        assert forall|k: int, j: int| 0 <= k < rest.len() && 0 <= j < rest[k].len() implies (
        #[trigger] rest[k][j]) != 47u8 by {
            assert(rest[k] == cs[k + 1]);
            assert(cs[k + 1][j] != 47u8);
        }
        lemma_split_join(rest);
        assert forall|j: int| 0 <= j < cs[0].len() implies #[trigger] cs[0][j] != 47u8 by {
            assert(cs[0][j] != 47u8);
        }
        lemma_split_concat(cs[0], join_path(rest));
        assert(seq![cs[0]].add(rest) =~= cs);
    }
}

/// How a path under `refs/` whose first component is `kind` continues.
proof fn lemma_kind_prefix(cs: Seq<Seq<u8>>, kind: Seq<u8>)
    requires
        plain_components(cs),
        kind.len() >= 2,
        kind.last() == 47u8,
        forall|j: int| 0 <= j < kind.len() - 1 ==> #[trigger] kind[j] != 47u8,
        has_prefix_at(join_path(cs), 0, kind),
    ensures
        cs.len() >= 2,
        cs[0] == kind.drop_last(),
        join_path(cs).subrange(kind.len() as int, join_path(cs).len() as int) == join_path(
            cs.subrange(1, cs.len() as int),
        ),
{
    let jn = join_path(cs);
    let n = kind.len() - 1;
    assert(jn.subrange(0, kind.len() as int)[n] == 47u8);
    assert(jn[n] == 47u8);
    if cs.len() == 1 {
        lemma_join_single(cs);
        assert(cs[0][n] != 47u8);
    } else {
        let c = cs[0];
        let rest = cs.subrange(1, cs.len() as int);
        lemma_join_front(cs);
        assert(jn == c.push(47u8).add(join_path(rest)));
        if c.len() < n {
            assert(jn[c.len() as int] == 47u8);
            assert(jn.subrange(0, kind.len() as int)[c.len() as int] == kind[c.len() as int]);
        } else if c.len() > n {
            assert(jn[n] == c[n]);
            assert(c[n] != 47u8);
        }
        assert(c.len() == n);
        assert forall|j: int| 0 <= j < n implies c[j] == kind.drop_last()[j] by {
            assert(jn[j] == c[j]);
            assert(jn.subrange(0, kind.len() as int)[j] == kind[j]);
        }
        assert(c =~= kind.drop_last());
        assert(jn.subrange(kind.len() as int, jn.len() as int) =~= join_path(rest));
    }
}

/// The ref found at a loose file's path under `refs/` has its loose file at
/// that very path.
pub proof fn law_ref_path_roundtrip(cs: Seq<Seq<u8>>)
    requires
        plain_components(cs),
    ensures
        ref_file_path(classify_ref_path(join_path(cs))) == seq![seq![114u8, 101u8, 102u8, 115u8]].add(cs),
{
    let jn = join_path(cs);
    let refs = seq![114u8, 101u8, 102u8, 115u8];
    lemma_split_join(cs);
    if has_prefix_at(jn, 0, heads_prefix()) || has_prefix_at(jn, 0, tags_prefix()) || has_prefix_at(
        jn,
        0,
        remotes_prefix(),
    ) {
        let kind = if has_prefix_at(jn, 0, heads_prefix()) {
            heads_prefix()
        } else if has_prefix_at(jn, 0, tags_prefix()) {
            tags_prefix()
        } else {
            remotes_prefix()
        };
        lemma_kind_prefix(cs, kind);
        let rest = cs.subrange(1, cs.len() as int);
        assert forall|k: int| 0 <= k < rest.len() implies (#[trigger] rest[k]).len() > 0 by {
            assert(rest[k] == cs[k + 1]);
        }
        assert forall|k: int, j: int| 0 <= k < rest.len() && 0 <= j < rest[k].len() implies (
        #[trigger] rest[k][j]) != 47u8 by {
            assert(rest[k] == cs[k + 1]);
            assert(cs[k + 1][j] != 47u8);
        }
        lemma_split_join(rest);
        assert(heads_prefix().drop_last() =~= seq![104u8, 101u8, 97u8, 100u8, 115u8]);
        assert(tags_prefix().drop_last() =~= seq![116u8, 97u8, 103u8, 115u8]);
        assert(remotes_prefix().drop_last() =~= seq![114u8, 101u8, 109u8, 111u8, 116u8, 101u8, 115u8]);
        assert(seq![refs, kind.drop_last()].add(rest) =~= seq![refs].add(cs));
    } else {
        assert(classify_ref_path(jn) == RefNameView::Other(jn));
    }
}

} // verus!
