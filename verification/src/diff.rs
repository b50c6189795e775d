//! Differences between two trees, entry by entry.
//!
//! Two trees are compared one directory level at a time. Entries present on
//! one side only are reported as such; entries present on both sides with
//! different ids are reported as changed. Subdirectories are not reported
//! themselves: they are descended into, and the caller loads the trees they
//! name and hands them back to the walk. One exception: below a directory
//! present on the left only, the subdirectories are descended into as if
//! they were on the right, so the files under them are reported as
//! right-only (see [`lone_left_action`]).
use vstd::prelude::*;

use crate::object::tree::{entry_views, Tree, TreeEntry, TreeEntryType, TreeEntryView, TreeView};
use crate::object_id::{hex_encode, ObjectId};
use crate::parsing::bytes_eq;
use crate::traits::AllGenerics;

verus! {

/// A path within a tree, its components joined with `/`.
#[derive(Debug, Clone, PartialEq, Eq, PartialOrd, Ord)]
pub struct Path(Vec<u8>);

impl View for Path {
    type V = Seq<u8>;

    closed spec fn view(&self) -> Seq<u8> {
        self.0@
    }
}

impl Path {
    /// The path with these bytes.
    pub fn new(bytes: Vec<u8>) -> (r: Self)
        ensures
            r@ == bytes@,
    {
        Path(bytes)
    }

    /// The bytes of the path.
    pub fn as_bytes(&self) -> (r: &[u8])
        ensures
            r@ == self@,
    {
        self.0.as_slice()
    }

    /// A copy of the path.
    pub fn clone_path(&self) -> (r: Self)
        ensures
            r@ == self@,
    {
        Path(self.0.clone())
    }
}

/// `name` below `parent`, or `name` alone at the top.
pub open spec fn joined(parent: Option<Seq<u8>>, name: Seq<u8>) -> Seq<u8> {
    match parent {
        Some(p) => p.push(47u8).add(name),
        None => name,
    }
}

/// The value of an optional path.
pub open spec fn opt_path_view(p: Option<&Path>) -> Option<Seq<u8>> {
    match p {
        Some(x) => Some(x@),
        None => None,
    }
}

/// The path of `component` below `path`, or of `component` at the top.
pub fn join(path: Option<&Path>, component: &[u8]) -> (r: Path)
    ensures
        r@ == joined(opt_path_view(path), component@),
{
    let mut out: Vec<u8> = Vec::new();
    match path {
        Some(p) => {
            let bytes = p.as_bytes();
            let mut k: usize = 0;
            while k < bytes.len()
                invariant
                    k <= bytes@.len(),
                    out@ == bytes@.subrange(0, k as int),
                decreases bytes@.len() - k,
            {
                out.push(bytes[k]);
                assert(bytes@.subrange(0, k + 1) =~= bytes@.subrange(0, k as int).push(bytes@[k as int]));
                k = k + 1;
            }
            assert(bytes@.subrange(0, k as int) =~= bytes@);
            out.push(47u8);
        },
        None => {},
    }
    let ghost base = out@;
    let mut j: usize = 0;
    while j < component.len()
        invariant
            j <= component@.len(),
            out@ == base.add(component@.subrange(0, j as int)),
        decreases component@.len() - j,
    {
        out.push(component[j]);
        assert(component@.subrange(0, j + 1) =~= component@.subrange(0, j as int).push(component@[j as int]));
        j = j + 1;
    }
    assert(component@.subrange(0, j as int) =~= component@);
    assert(base.add(component@) =~= joined(opt_path_view(path), component@));
    Path(out)
}

/// One difference between two trees, carrying some content about the
/// entries involved.
#[derive(Debug, PartialEq, Eq, PartialOrd, Ord, Clone)]
pub enum DiffEntry<Content> {
    /// The path exists on the left side only.
    LeftOnly { path: Path, entry_type: TreeEntryType, content: Content },
    /// The path exists on both sides, with different content.
    Both { path: Path, left_type: TreeEntryType, right_type: TreeEntryType, content: Content },
    /// The path exists on the right side only.
    RightOnly { path: Path, entry_type: TreeEntryType, content: Content },
}

impl<Content> DiffEntry<Content> {
    /// The content the entry carries.
    pub open spec fn content_of(&self) -> Content {
        match self {
            DiffEntry::LeftOnly { content, .. } => *content,
            DiffEntry::Both { content, .. } => *content,
            DiffEntry::RightOnly { content, .. } => *content,
        }
    }

    /// `other` is the same difference as this one, whatever its content.
    pub open spec fn same_place<T>(&self, other: DiffEntry<T>) -> bool {
        match (*self, other) {
            (
                DiffEntry::LeftOnly { path: p1, entry_type: t1, .. },
                DiffEntry::LeftOnly { path: p2, entry_type: t2, .. },
            ) => p1@ == p2@ && t1 == t2,
            (
                DiffEntry::Both { path: p1, left_type: l1, right_type: r1, .. },
                DiffEntry::Both { path: p2, left_type: l2, right_type: r2, .. },
            ) => p1@ == p2@ && l1 == l2 && r1 == r2,
            (
                DiffEntry::RightOnly { path: p1, entry_type: t1, .. },
                DiffEntry::RightOnly { path: p2, entry_type: t2, .. },
            ) => p1@ == p2@ && t1 == t2,
            _ => false,
        }
    }

    /// The same difference with its content replaced by what `fun` makes
    /// of it.
    pub fn map_content<T>(&self, fun: impl Fn(&Content) -> T) -> (r: DiffEntry<T>)
        requires
            fun.requires((&self.content_of(),)),
        ensures
            self.same_place(r),
            fun.ensures((&self.content_of(),), r.content_of()),
    {
        match self {
            DiffEntry::LeftOnly { path, entry_type, content } => DiffEntry::LeftOnly {
                path: path.clone_path(),
                entry_type: *entry_type,
                content: fun(content),
            },
            DiffEntry::Both { path, left_type, right_type, content } => DiffEntry::Both {
                path: path.clone_path(),
                left_type: *left_type,
                right_type: *right_type,
                content: fun(content),
            },
            DiffEntry::RightOnly { path, entry_type, content } => DiffEntry::RightOnly {
                path: path.clone_path(),
                entry_type: *entry_type,
                content: fun(content),
            },
        }
    }

    /// The same difference with its content replaced by what `fun` makes
    /// of it, or the error `fun` gives.
    pub fn map_content_res<T, E>(&self, fun: impl Fn(&Content) -> Result<T, E>) -> (r: Result<
        DiffEntry<T>,
        E,
    >)
        requires
            fun.requires((&self.content_of(),)),
        ensures
            match r {
                Ok(d) => self.same_place(d) && fun.ensures(
                    (&self.content_of(),),
                    Ok::<T, E>(d.content_of()),
                ),
                Err(e) => fun.ensures((&self.content_of(),), Err::<T, E>(e)),
            },
    {
        match self {
            DiffEntry::LeftOnly { path, entry_type, content } => {
                let c = fun(content)?;
                Ok(DiffEntry::LeftOnly { path: path.clone_path(), entry_type: *entry_type, content: c })
            },
            DiffEntry::Both { path, left_type, right_type, content } => {
                let c = fun(content)?;
                Ok(
                    DiffEntry::Both {
                        path: path.clone_path(),
                        left_type: *left_type,
                        right_type: *right_type,
                        content: c,
                    },
                )
            },
            DiffEntry::RightOnly { path, entry_type, content } => {
                let c = fun(content)?;
                Ok(DiffEntry::RightOnly { path: path.clone_path(), entry_type: *entry_type, content: c })
            },
        }
    }
}

/// Mapping the content of a difference never moves it. Every difference is
/// where it is (so mapping with the identity keeps the place, and
/// [`DiffEntry::map_content`] then gives back the same content); a mapped
/// difference can be mapped back to the same place; and mapping twice, with
/// [`DiffEntry::map_content`] or [`DiffEntry::map_content_res`], leaves the
/// difference where a single mapping with the composed function would.
pub proof fn law_map_content_keeps_place<A, B, C>(e: DiffEntry<A>, m: DiffEntry<B>, n: DiffEntry<C>)
    ensures
        e.same_place(e),
        e.same_place(m) ==> m.same_place(e),
        e.same_place(m) && m.same_place(n) ==> e.same_place(n),
{
}

/// Mapping with a function that gives back its argument unchanged gives
/// back the same difference: what [`DiffEntry::map_content`] returns for
/// such a function is in the same place and carries the same content.
pub proof fn law_map_content_identity<A, F: Fn(&A) -> A>(e: DiffEntry<A>, f: F, m: DiffEntry<A>)
    requires
        forall|c: A, r: A| #[trigger] f.ensures((&c,), r) ==> r == c,
        e.same_place(m),
        f.ensures((&e.content_of(),), m.content_of()),
    ensures
        m.same_place(e),
        m.content_of() == e.content_of(),
{
}

/// Mapping twice is mapping once with the composed function: where `m` is
/// what [`DiffEntry::map_content`] makes of `e` with `f`, and `n` what it
/// makes of `m` with `g`, `n` is what it may make of `e` with any `h` that
/// may give `g`'s result on `f`'s.
pub proof fn law_map_content_compose<A, B, C, F: Fn(&A) -> B, G: Fn(&B) -> C, H: Fn(&A) -> C>(
    e: DiffEntry<A>,
    f: F,
    m: DiffEntry<B>,
    g: G,
    n: DiffEntry<C>,
    h: H,
)
    requires
        forall|a: A, b: B, c: C|
            f.ensures((&a,), b) && #[trigger] g.ensures((&b,), c) ==> #[trigger] h.ensures(
                (&a,),
                c,
            ),
        e.same_place(m),
        f.ensures((&e.content_of(),), m.content_of()),
        m.same_place(n),
        g.ensures((&m.content_of(),), n.content_of()),
    ensures
        e.same_place(n),
        h.ensures((&e.content_of(),), n.content_of()),
{
}

/// [`DiffEntry::map_content_res`] with a function that succeeds with what
/// `f` gives agrees with [`DiffEntry::map_content`] with `f`: its result is
/// one that `map_content` may give.
pub proof fn law_map_content_res_agrees<A, B, E, F: Fn(&A) -> B, R: Fn(&A) -> Result<B, E>>(
    e: DiffEntry<A>,
    f: F,
    fr: R,
    d: DiffEntry<B>,
)
    requires
        forall|a: A, b: B| #[trigger] fr.ensures((&a,), Ok::<B, E>(b)) ==> f.ensures((&a,), b),
        e.same_place(d),
        fr.ensures((&e.content_of(),), Ok::<B, E>(d.content_of())),
    ensures
        e.same_place(d),
        f.ensures((&e.content_of(),), d.content_of()),
{
}

/// A subdirectory to compare next: its path, and the ids of the trees on
/// each side that has one.
#[derive(Debug)]
pub struct SubtreeDiff {
    pub path: Path,
    pub left: Option<ObjectId>,
    pub right: Option<ObjectId>,
}

/// A difference as values: its path, entry types, and the ids on the left
/// and right (all zero on the missing side).
pub enum DiffItem {
    LeftOnly(Seq<u8>, TreeEntryType, Seq<u8>, Seq<u8>),
    Both(Seq<u8>, TreeEntryType, TreeEntryType, Seq<u8>, Seq<u8>),
    RightOnly(Seq<u8>, TreeEntryType, Seq<u8>, Seq<u8>),
}

/// The value of a difference between ids.
pub open spec fn item_of(e: DiffEntry<(ObjectId, ObjectId)>) -> DiffItem {
    match e {
        DiffEntry::LeftOnly { path, entry_type, content } => DiffItem::LeftOnly(
            path@,
            entry_type,
            content.0@,
            content.1@,
        ),
        DiffEntry::Both { path, left_type, right_type, content } => DiffItem::Both(
            path@,
            left_type,
            right_type,
            content.0@,
            content.1@,
        ),
        DiffEntry::RightOnly { path, entry_type, content } => DiffItem::RightOnly(
            path@,
            entry_type,
            content.0@,
            content.1@,
        ),
    }
}

/// The values of a sequence of differences.
pub open spec fn items_of(es: Seq<DiffEntry<(ObjectId, ObjectId)>>) -> Seq<DiffItem> {
    es.map_values(|e: DiffEntry<(ObjectId, ObjectId)>| item_of(e))
}

/// The value of an optional id.
pub open spec fn opt_id_view(o: Option<ObjectId>) -> Option<Seq<u8>> {
    match o {
        Some(x) => Some(x@),
        None => None,
    }
}

/// The values of a sequence of subdirectories to compare.
pub open spec fn subtree_views(s: Seq<SubtreeDiff>) -> Seq<(Seq<u8>, Option<Seq<u8>>, Option<Seq<u8>>)> {
    s.map_values(|d: SubtreeDiff| (d.path@, opt_id_view(d.left), opt_id_view(d.right)))
}

/// What comparing one entry does: report a difference, or descend into a
/// subdirectory (its path and the tree ids on each side).
pub enum DiffAction {
    Emit(DiffItem),
    Descend(Seq<u8>, Option<Seq<u8>>, Option<Seq<u8>>),
}

/// The all-zero id that stands for the missing side of a difference.
pub open spec fn zero_id() -> Seq<u8> {
    Seq::new(20, |i: int| 0u8)
}

/// The first of `es` named `n`.
pub open spec fn first_with_name(es: Seq<TreeEntryView>, n: Seq<u8>) -> Option<TreeEntryView>
    decreases es.len(),
{
    if es.len() == 0 {
        None
    } else if es[0].name == n {
        Some(es[0])
    } else {
        first_with_name(es.subrange(1, es.len() as int), n)
    }
}

/// A left entry with no right entry of its name: a subdirectory is
/// descended into on the left side; anything else is reported as left-only.
pub open spec fn left_only_action(parent: Option<Seq<u8>>, e: TreeEntryView) -> Seq<DiffAction> {
    let p = joined(parent, e.name);
    if e.entry_type == TreeEntryType::Tree {
        seq![DiffAction::Descend(p, Some(e.id), None)]
    } else {
        seq![DiffAction::Emit(DiffItem::LeftOnly(p, e.entry_type, e.id, zero_id()))]
    }
}

/// A right entry with no left entry of its name: a subdirectory is
/// descended into on the right side; anything else is reported as
/// right-only.
pub open spec fn right_only_action(parent: Option<Seq<u8>>, e: TreeEntryView) -> Seq<DiffAction> {
    let p = joined(parent, e.name);
    if e.entry_type == TreeEntryType::Tree {
        seq![DiffAction::Descend(p, None, Some(e.id))]
    } else {
        seq![DiffAction::Emit(DiffItem::RightOnly(p, e.entry_type, zero_id(), e.id))]
    }
}

/// An entry of a directory that exists on the left only. Its files are
/// reported as left-only, but its subdirectories are descended into as if
/// they were on the right.
pub open spec fn lone_left_action(parent: Option<Seq<u8>>, e: TreeEntryView) -> Seq<DiffAction> {
    let p = joined(parent, e.name);
    if e.entry_type == TreeEntryType::Tree {
        seq![DiffAction::Descend(p, None, Some(e.id))]
    } else {
        seq![DiffAction::Emit(DiffItem::LeftOnly(p, e.entry_type, e.id, zero_id()))]
    }
}

/// A left and a right entry of the same name: nothing when their ids are
/// equal; two subdirectories are descended into together; a subdirectory
/// against anything else descends into the subdirectory alone and reports
/// the other side's entry as present on that side only; two non-directories
/// are reported as changed.
pub open spec fn both_action(parent: Option<Seq<u8>>, l: TreeEntryView, r: TreeEntryView) -> Seq<
    DiffAction,
> {
    let p = joined(parent, l.name);
    if l.id == r.id {
        Seq::empty()
    } else if l.entry_type == TreeEntryType::Tree && r.entry_type == TreeEntryType::Tree {
        seq![DiffAction::Descend(p, Some(l.id), Some(r.id))]
    } else if l.entry_type == TreeEntryType::Tree {
        seq![
            DiffAction::Emit(DiffItem::RightOnly(p, r.entry_type, zero_id(), r.id)),
            DiffAction::Descend(p, Some(l.id), None),
        ]
    } else if r.entry_type == TreeEntryType::Tree {
        seq![
            DiffAction::Emit(DiffItem::LeftOnly(p, l.entry_type, l.id, zero_id())),
            DiffAction::Descend(p, None, Some(r.id)),
        ]
    } else {
        seq![DiffAction::Emit(DiffItem::Both(p, l.entry_type, r.entry_type, l.id, r.id))]
    }
}

/// The actions for the left entries that have no right entry of their name,
/// in order.
pub open spec fn left_only_actions(
    parent: Option<Seq<u8>>,
    ls: Seq<TreeEntryView>,
    rs: Seq<TreeEntryView>,
) -> Seq<DiffAction>
    decreases ls.len(),
{
    if ls.len() == 0 {
        Seq::empty()
    } else {
        let e = ls.last();
        left_only_actions(parent, ls.drop_last(), rs).add(
            if first_with_name(rs, e.name) is Some {
                Seq::empty()
            } else {
                left_only_action(parent, e)
            },
        )
    }
}

/// The actions for the right entries that have no left entry of their name,
/// in order.
pub open spec fn right_only_actions(
    parent: Option<Seq<u8>>,
    ls: Seq<TreeEntryView>,
    rs: Seq<TreeEntryView>,
) -> Seq<DiffAction>
    decreases rs.len(),
{
    if rs.len() == 0 {
        Seq::empty()
    } else {
        let e = rs.last();
        right_only_actions(parent, ls, rs.drop_last()).add(
            if first_with_name(ls, e.name) is Some {
                Seq::empty()
            } else {
                right_only_action(parent, e)
            },
        )
    }
}

/// The actions for the left entries that have a right entry of their name,
/// each paired with the first such right entry, in the left order.
pub open spec fn both_actions(
    parent: Option<Seq<u8>>,
    ls: Seq<TreeEntryView>,
    rs: Seq<TreeEntryView>,
) -> Seq<DiffAction>
    decreases ls.len(),
{
    if ls.len() == 0 {
        Seq::empty()
    } else {
        let e = ls.last();
        both_actions(parent, ls.drop_last(), rs).add(
            match first_with_name(rs, e.name) {
                Some(r) => both_action(parent, e, r),
                None => Seq::empty(),
            },
        )
    }
}

/// The actions for the entries of a directory present on one side only.
pub open spec fn one_side_actions(parent: Option<Seq<u8>>, es: Seq<TreeEntryView>, left: bool) -> Seq<
    DiffAction,
>
    decreases es.len(),
{
    if es.len() == 0 {
        Seq::empty()
    } else {
        one_side_actions(parent, es.drop_last(), left).add(
            if left {
                lone_left_action(parent, es.last())
            } else {
                right_only_action(parent, es.last())
            },
        )
    }
}

/// Everything comparing the directory at `parent` does, given the entries
/// of the side or sides that have it: first the left-only entries, then the
/// right-only ones, then those on both sides.
pub open spec fn level_actions(
    parent: Option<Seq<u8>>,
    left: Option<Seq<TreeEntryView>>,
    right: Option<Seq<TreeEntryView>>,
) -> Seq<DiffAction> {
    match (left, right) {
        (Some(ls), Some(rs)) => left_only_actions(parent, ls, rs).add(
            right_only_actions(parent, ls, rs),
        ).add(both_actions(parent, ls, rs)),
        (Some(ls), None) => one_side_actions(parent, ls, true),
        (None, Some(rs)) => one_side_actions(parent, rs, false),
        (None, None) => Seq::empty(),
    }
}

/// The differences that `acts` report, in order.
pub open spec fn emits(acts: Seq<DiffAction>) -> Seq<DiffItem>
    decreases acts.len(),
{
    if acts.len() == 0 {
        Seq::empty()
    } else {
        let rest = emits(acts.drop_last());
        match acts.last() {
            DiffAction::Emit(i) => rest.push(i),
            DiffAction::Descend(..) => rest,
        }
    }
}

/// The subdirectories that `acts` descend into, in order.
pub open spec fn descends(acts: Seq<DiffAction>) -> Seq<(Seq<u8>, Option<Seq<u8>>, Option<Seq<u8>>)>
    decreases acts.len(),
{
    if acts.len() == 0 {
        Seq::empty()
    } else {
        let rest = descends(acts.drop_last());
        match acts.last() {
            DiffAction::Emit(_) => rest,
            DiffAction::Descend(p, l, r) => rest.push((p, l, r)),
        }
    }
}

/// Reporting and descending distribute over a sequence of actions.
pub proof fn lemma_emits_descends_add(a: Seq<DiffAction>, b: Seq<DiffAction>)
    ensures
        emits(a.add(b)) == emits(a).add(emits(b)),
        descends(a.add(b)) == descends(a).add(descends(b)),
    decreases b.len(),
{
    if b.len() == 0 {
        assert(a.add(b) =~= a);
        assert(emits(a).add(emits(b)) =~= emits(a));
        assert(descends(a).add(descends(b)) =~= descends(a));
    } else {
        lemma_emits_descends_add(a, b.drop_last());
        assert(a.add(b).drop_last() =~= a.add(b.drop_last()));
        assert(a.add(b).last() == b.last());
        match b.last() {
            DiffAction::Emit(i) => {
                assert(emits(a).add(emits(b.drop_last())).push(i) =~= emits(a).add(
                    emits(b.drop_last()).push(i),
                ));
            },
            DiffAction::Descend(p, l, r) => {
                assert(descends(a).add(descends(b.drop_last())).push((p, l, r)) =~= descends(a).add(
                    descends(b.drop_last()).push((p, l, r)),
                ));
            },
        }
    }
}

/// The entry found by name has that name and is one of the entries.
pub proof fn lemma_first_with_name(es: Seq<TreeEntryView>, n: Seq<u8>)
    ensures
        first_with_name(es, n) matches Some(e) ==> e.name == n && es.contains(e),
        first_with_name(es, n) is None ==> forall|k: int| 0 <= k < es.len() ==> (#[trigger] es[k]).name != n,
    decreases es.len(),
{
    if es.len() > 0 && es[0].name != n {
        let rest = es.subrange(1, es.len() as int);
        lemma_first_with_name(rest, n);
        if let Some(e) = first_with_name(rest, n) {
            let k = choose|k: int| 0 <= k < rest.len() && rest[k] == e;
            assert(es[k + 1] == e);
        } else {
            assert forall|k: int| 0 <= k < es.len() implies (#[trigger] es[k]).name != n by {
                if k > 0 {
                    assert(es[k] == rest[k - 1]);
                }
            }
        }
    } else if es.len() > 0 {
        assert(es[0] == es[0]);
    }
}

/// The first of `es` with name `name`, by position.
fn find_entry<G: AllGenerics>(es: &[TreeEntry<G>], name: &[u8]) -> (r: Option<usize>)
    ensures
        match first_with_name(entry_views(es@), name@) {
            None => r is None,
            Some(e) => r matches Some(k) && k < es@.len() && es@[k as int]@ == e,
        },
{
    let mut k: usize = 0;
    assert(entry_views(es@).subrange(0, es@.len() as int) =~= entry_views(es@));
    while k < es.len()
        invariant
            k <= es@.len(),
            first_with_name(entry_views(es@), name@) == first_with_name(
                entry_views(es@).subrange(k as int, es@.len() as int),
                name@,
            ),
        decreases es@.len() - k,
    {
        let ghost rest = entry_views(es@).subrange(k as int, es@.len() as int);
        assert(rest[0] == es@[k as int]@);
        if bytes_eq(es[k].name(), name) {
            return Some(k);
        }
        assert(rest.subrange(1, rest.len() as int) =~= entry_views(es@).subrange(
            k + 1,
            es@.len() as int,
        ));
        k = k + 1;
    }
    None
}

/// The all-zero id.
fn zero() -> (r: ObjectId)
    ensures
        r@ == zero_id(),
{
    ObjectId::zero()
}

/// Records a difference.
fn act_emit(
    outs: &mut Vec<DiffEntry<(ObjectId, ObjectId)>>,
    e: DiffEntry<(ObjectId, ObjectId)>,
)
    ensures
        items_of(final(outs)@) == items_of(old(outs)@).push(item_of(e)),
{
    let ghost before = items_of(outs@);
    outs.push(e);
    assert(items_of(outs@) =~= before.push(item_of(e)));
}

/// Records a subdirectory to compare.
fn act_descend(descs: &mut Vec<SubtreeDiff>, d: SubtreeDiff)
    ensures
        subtree_views(final(descs)@) == subtree_views(old(descs)@).push(
            (d.path@, opt_id_view(d.left), opt_id_view(d.right)),
        ),
{
    let ghost before = subtree_views(descs@);
    descs.push(d);
    assert(subtree_views(descs@) =~= before.push((d.path@, opt_id_view(d.left), opt_id_view(d.right))));
}

/// How a single entry, compared with nothing of its name, is handled.
#[derive(Clone, Copy)]
enum Side {
    LeftOnly,
    RightOnly,
    LoneLeft,
}

/// The actions for an entry handled as `side`.
spec fn side_action(side: Side, parent: Option<Seq<u8>>, e: TreeEntryView) -> Seq<DiffAction> {
    match side {
        Side::LeftOnly => left_only_action(parent, e),
        Side::RightOnly => right_only_action(parent, e),
        Side::LoneLeft => lone_left_action(parent, e),
    }
}

/// Carries out the actions for an entry handled as `side`.
fn apply_side<G: AllGenerics>(
    side: Side,
    parent: Option<&Path>,
    e: &TreeEntry<G>,
    outs: &mut Vec<DiffEntry<(ObjectId, ObjectId)>>,
    descs: &mut Vec<SubtreeDiff>,
)
    ensures
        items_of(final(outs)@) == items_of(old(outs)@).add(
            emits(side_action(side, opt_path_view(parent), e@)),
        ),
        subtree_views(final(descs)@) == subtree_views(old(descs)@).add(
            descends(side_action(side, opt_path_view(parent), e@)),
        ),
{
    let ghost acts = side_action(side, opt_path_view(parent), e@);
    let path = join(parent, e.name());
    let t = e.entry_type();
    if t == TreeEntryType::Tree {
        let d = match side {
            Side::LeftOnly => SubtreeDiff { path, left: Some(e.id()), right: None },
            _ => SubtreeDiff { path, left: None, right: Some(e.id()) },
        };
        act_descend(descs, d);
        proof {
            reveal_with_fuel(emits, 3);
            reveal_with_fuel(descends, 3);
            assert(acts.drop_last() =~= Seq::<DiffAction>::empty());
            assert(emits(acts) =~= Seq::<DiffItem>::empty());
            assert(items_of(old(outs)@).add(emits(acts)) =~= items_of(old(outs)@));
            assert(subtree_views(old(descs)@).add(descends(acts)) =~= subtree_views(old(descs)@).push(
                descends(acts)[0],
            ));
        }
    } else {
        let item = match side {
            Side::RightOnly => DiffEntry::RightOnly {
                path,
                entry_type: t,
                content: (zero(), e.id()),
            },
            _ => DiffEntry::LeftOnly { path, entry_type: t, content: (e.id(), zero()) },
        };
        act_emit(outs, item);
        proof {
            reveal_with_fuel(emits, 3);
            reveal_with_fuel(descends, 3);
            assert(acts.drop_last() =~= Seq::<DiffAction>::empty());
            assert(descends(acts) =~= Seq::<(Seq<u8>, Option<Seq<u8>>, Option<Seq<u8>>)>::empty());
            assert(subtree_views(old(descs)@).add(descends(acts)) =~= subtree_views(old(descs)@));
            assert(items_of(old(outs)@).add(emits(acts)) =~= items_of(old(outs)@).push(
                emits(acts)[0],
            ));
        }
    }
}

/// Carries out the actions for a left and a right entry of the same name.
fn apply_both<G: AllGenerics>(
    parent: Option<&Path>,
    l: &TreeEntry<G>,
    r: &TreeEntry<G>,
    outs: &mut Vec<DiffEntry<(ObjectId, ObjectId)>>,
    descs: &mut Vec<SubtreeDiff>,
)
    requires
        l@.name == r@.name,
    ensures
        items_of(final(outs)@) == items_of(old(outs)@).add(
            emits(both_action(opt_path_view(parent), l@, r@)),
        ),
        subtree_views(final(descs)@) == subtree_views(old(descs)@).add(
            descends(both_action(opt_path_view(parent), l@, r@)),
        ),
{
    let ghost acts = both_action(opt_path_view(parent), l@, r@);
    let ghost o0 = items_of(outs@);
    let ghost d0 = subtree_views(descs@);
    let lid = l.id();
    let rid = r.id();
    if lid == rid {
        reveal_with_fuel(emits, 3);
        reveal_with_fuel(descends, 3);
        assert(acts =~= Seq::<DiffAction>::empty());
        assert(o0.add(emits(acts)) =~= o0);
        assert(d0.add(descends(acts)) =~= d0);
        return ;
    }
    let lt = l.entry_type();
    let rt = r.entry_type();
    let path = join(parent, l.name());
    if lt == TreeEntryType::Tree && rt == TreeEntryType::Tree {
        act_descend(descs, SubtreeDiff { path, left: Some(lid), right: Some(rid) });
        proof {
            reveal_with_fuel(emits, 3);
            reveal_with_fuel(descends, 3);
            assert(acts.drop_last() =~= Seq::<DiffAction>::empty());
            assert(o0.add(emits(acts)) =~= o0);
            assert(d0.add(descends(acts)) =~= d0.push(descends(acts)[0]));
        }
    } else if lt == TreeEntryType::Tree {
        let p2 = path.clone_path();
        act_emit(outs, DiffEntry::RightOnly { path, entry_type: rt, content: (zero(), rid) });
        act_descend(descs, SubtreeDiff { path: p2, left: Some(lid), right: None });
        proof {
            reveal_with_fuel(emits, 3);
            reveal_with_fuel(descends, 3);
            assert(acts.drop_last().drop_last() =~= Seq::<DiffAction>::empty());
            assert(o0.add(emits(acts)) =~= o0.push(emits(acts)[0]));
            assert(d0.add(descends(acts)) =~= d0.push(descends(acts)[0]));
        }
    } else if rt == TreeEntryType::Tree {
        let p2 = path.clone_path();
        act_emit(outs, DiffEntry::LeftOnly { path, entry_type: lt, content: (lid, zero()) });
        act_descend(descs, SubtreeDiff { path: p2, left: None, right: Some(rid) });
        proof {
            reveal_with_fuel(emits, 3);
            reveal_with_fuel(descends, 3);
            assert(acts.drop_last().drop_last() =~= Seq::<DiffAction>::empty());
            assert(o0.add(emits(acts)) =~= o0.push(emits(acts)[0]));
            assert(d0.add(descends(acts)) =~= d0.push(descends(acts)[0]));
        }
    } else {
        act_emit(
            outs,
            DiffEntry::Both { path, left_type: lt, right_type: rt, content: (lid, rid) },
        );
        proof {
            reveal_with_fuel(emits, 3);
            reveal_with_fuel(descends, 3);
            assert(acts.drop_last() =~= Seq::<DiffAction>::empty());
            assert(o0.add(emits(acts)) =~= o0.push(emits(acts)[0]));
            assert(d0.add(descends(acts)) =~= d0);
        }
    }
}

/// The value of an optional tree's entries.
pub open spec fn opt_entries<G: AllGenerics>(t: Option<&Tree<G>>) -> Option<Seq<TreeEntryView>> {
    match t {
        Some(x) => Some(x@.entries),
        None => None,
    }
}

/// Compares the directory at `parent`, given the tree of each side that
/// has it (see [`level_actions`]). Gives the differences found at this
/// level and the subdirectories to compare next, both in order.
pub fn diff_level<G: AllGenerics>(
    parent: Option<&Path>,
    left: Option<&Tree<G>>,
    right: Option<&Tree<G>>,
) -> (r: (Vec<DiffEntry<(ObjectId, ObjectId)>>, Vec<SubtreeDiff>))
    ensures
        items_of(r.0@) == emits(level_actions(opt_path_view(parent), opt_entries(left), opt_entries(right))),
        subtree_views(r.1@) == descends(level_actions(opt_path_view(parent), opt_entries(left), opt_entries(right))),
{
    let ghost pv = opt_path_view(parent);
    let mut outs: Vec<DiffEntry<(ObjectId, ObjectId)>> = Vec::new();
    let mut descs: Vec<SubtreeDiff> = Vec::new();
    match (left, right) {
        (Some(lt), Some(rt)) => {
            let ls = lt.entries();
            let rs = rt.entries();
            let ghost lv = entry_views(ls@);
            let ghost rv = entry_views(rs@);
            let mut k: usize = 0;
            while k < ls.len()
                invariant
                    k <= ls@.len(),
                    lv == entry_views(ls@),
                    rv == entry_views(rs@),
                    pv == opt_path_view(parent),
                    items_of(outs@) == emits(left_only_actions(pv, lv.subrange(0, k as int), rv)),
                    subtree_views(descs@) == descends(left_only_actions(pv, lv.subrange(0, k as int), rv)),
                decreases ls@.len() - k,
            {
                let ghost prev = left_only_actions(pv, lv.subrange(0, k as int), rv);
                proof {
                    assert(lv.subrange(0, k + 1).drop_last() =~= lv.subrange(0, k as int));
                    assert(lv.subrange(0, k + 1).last() == ls@[k as int]@);
                }
                match find_entry(rs, ls[k].name()) {
                    Some(_) => {
                        proof {
                            assert(prev.add(Seq::<DiffAction>::empty()) =~= prev);
                            assert(left_only_actions(pv, lv.subrange(0, k + 1), rv) == prev);
                        }
                    },
                    None => {
                        apply_side(Side::LeftOnly, parent, &ls[k], &mut outs, &mut descs);
                        proof {
                            lemma_emits_descends_add(prev, left_only_action(pv, ls@[k as int]@));
                            assert(left_only_actions(pv, lv.subrange(0, k + 1), rv) == prev.add(
                                left_only_action(pv, ls@[k as int]@),
                            ));
                        }
                    },
                }
                k = k + 1;
            }
            let ghost part1 = left_only_actions(pv, lv, rv);
            proof {
                assert(lv.subrange(0, k as int) =~= lv);
                assert(rv.subrange(0, 0) =~= Seq::<TreeEntryView>::empty());
                assert(part1.add(right_only_actions(pv, lv, rv.subrange(0, 0))) =~= part1);
            }
            let mut j: usize = 0;
            while j < rs.len()
                invariant
                    j <= rs@.len(),
                    lv == entry_views(ls@),
                    rv == entry_views(rs@),
                    pv == opt_path_view(parent),
                    items_of(outs@) == emits(part1.add(right_only_actions(pv, lv, rv.subrange(0, j as int)))),
                    subtree_views(descs@) == descends(part1.add(right_only_actions(pv, lv, rv.subrange(0, j as int)))),
                decreases rs@.len() - j,
            {
                let ghost prev = right_only_actions(pv, lv, rv.subrange(0, j as int));
                proof {
                    assert(rv.subrange(0, j + 1).drop_last() =~= rv.subrange(0, j as int));
                    assert(rv.subrange(0, j + 1).last() == rs@[j as int]@);
                    lemma_emits_descends_add(part1, prev);
                }
                match find_entry(ls, rs[j].name()) {
                    Some(_) => {
                        proof {
                            assert(prev.add(Seq::<DiffAction>::empty()) =~= prev);
                            assert(right_only_actions(pv, lv, rv.subrange(0, j + 1)) == prev);
                        }
                    },
                    None => {
                        apply_side(Side::RightOnly, parent, &rs[j], &mut outs, &mut descs);
                        proof {
                            lemma_emits_descends_add(prev, right_only_action(pv, rs@[j as int]@));
                            lemma_emits_descends_add(part1, prev.add(right_only_action(pv, rs@[j as int]@)));
                            assert(right_only_actions(pv, lv, rv.subrange(0, j + 1)) == prev.add(
                                right_only_action(pv, rs@[j as int]@),
                            ));
                        }
                    },
                }
                j = j + 1;
            }
            let ghost part2 = part1.add(right_only_actions(pv, lv, rv));
            proof {
                assert(rv.subrange(0, j as int) =~= rv);
                assert(lv.subrange(0, 0) =~= Seq::<TreeEntryView>::empty());
                assert(part2.add(both_actions(pv, lv.subrange(0, 0), rv)) =~= part2);
            }
            let mut i: usize = 0;
            while i < ls.len()
                invariant
                    i <= ls@.len(),
                    lv == entry_views(ls@),
                    rv == entry_views(rs@),
                    pv == opt_path_view(parent),
                    items_of(outs@) == emits(part2.add(both_actions(pv, lv.subrange(0, i as int), rv))),
                    subtree_views(descs@) == descends(part2.add(both_actions(pv, lv.subrange(0, i as int), rv))),
                decreases ls@.len() - i,
            {
                let ghost prev = both_actions(pv, lv.subrange(0, i as int), rv);
                proof {
                    assert(lv.subrange(0, i + 1).drop_last() =~= lv.subrange(0, i as int));
                    assert(lv.subrange(0, i + 1).last() == ls@[i as int]@);
                    lemma_emits_descends_add(part2, prev);
                }
                proof {
                    lemma_first_with_name(rv, ls@[i as int]@.name);
                }
                match find_entry(rs, ls[i].name()) {
                    Some(m) => {
                        apply_both(parent, &ls[i], &rs[m], &mut outs, &mut descs);
                        proof {
                            lemma_emits_descends_add(prev, both_action(pv, ls@[i as int]@, rs@[m as int]@));
                            lemma_emits_descends_add(part2, prev.add(both_action(pv, ls@[i as int]@, rs@[m as int]@)));
                            assert(both_actions(pv, lv.subrange(0, i + 1), rv) == prev.add(
                                both_action(pv, ls@[i as int]@, rs@[m as int]@),
                            ));
                        }
                    },
                    None => {
                        proof {
                            assert(prev.add(Seq::<DiffAction>::empty()) =~= prev);
                            assert(both_actions(pv, lv.subrange(0, i + 1), rv) == prev);
                        }
                    },
                }
                i = i + 1;
            }
            proof {
                assert(lv.subrange(0, i as int) =~= lv);
            }
        },
        (Some(t), None) => {
            one_side(Side::LoneLeft, parent, t.entries(), &mut outs, &mut descs);
        },
        (None, Some(t)) => {
            one_side(Side::RightOnly, parent, t.entries(), &mut outs, &mut descs);
        },
        (None, None) => {},
    }
    (outs, descs)
}

/// Carries out the actions for every entry of a directory present on one
/// side only.
fn one_side<G: AllGenerics>(
    side: Side,
    parent: Option<&Path>,
    es: &[TreeEntry<G>],
    outs: &mut Vec<DiffEntry<(ObjectId, ObjectId)>>,
    descs: &mut Vec<SubtreeDiff>,
)
    requires
        side != Side::LeftOnly,
        old(outs)@.len() == 0,
        old(descs)@.len() == 0,
    ensures
        items_of(final(outs)@) == emits(one_side_actions(opt_path_view(parent), entry_views(es@), side == Side::LoneLeft)),
        subtree_views(final(descs)@) == descends(one_side_actions(opt_path_view(parent), entry_views(es@), side == Side::LoneLeft)),
{
    let ghost pv = opt_path_view(parent);
    let ghost ev = entry_views(es@);
    let ghost left = side == Side::LoneLeft;
    assert(items_of(outs@) =~= Seq::<DiffItem>::empty());
    assert(subtree_views(descs@) =~= Seq::<(Seq<u8>, Option<Seq<u8>>, Option<Seq<u8>>)>::empty());
    let mut k: usize = 0;
    while k < es.len()
        invariant
            k <= es@.len(),
            ev == entry_views(es@),
            pv == opt_path_view(parent),
            left == (side == Side::LoneLeft),
            side != Side::LeftOnly,
            items_of(outs@) == emits(one_side_actions(pv, ev.subrange(0, k as int), left)),
            subtree_views(descs@) == descends(one_side_actions(pv, ev.subrange(0, k as int), left)),
        decreases es@.len() - k,
    {
        let ghost prev = one_side_actions(pv, ev.subrange(0, k as int), left);
        proof {
            assert(ev.subrange(0, k + 1).drop_last() =~= ev.subrange(0, k as int));
            assert(ev.subrange(0, k + 1).last() == es@[k as int]@);
        }
        apply_side(side, parent, &es[k], outs, descs);
        proof {
            lemma_emits_descends_add(prev, side_action(side, pv, es@[k as int]@));
            assert(side_action(side, pv, es@[k as int]@) == (if left {
                lone_left_action(pv, es@[k as int]@)
            } else {
                right_only_action(pv, es@[k as int]@)
            }));
            assert(one_side_actions(pv, ev.subrange(0, k + 1), left) == prev.add(
                side_action(side, pv, es@[k as int]@),
            ));
        }
        k = k + 1;
    }
    assert(ev.subrange(0, k as int) =~= ev);
}

/// The differences between two trees, in the order they were found.
#[derive(Debug)]
pub struct TreeDiff {
    entries: Vec<DiffEntry<(ObjectId, ObjectId)>>,
}

impl View for TreeDiff {
    type V = Seq<DiffItem>;

    closed spec fn view(&self) -> Seq<DiffItem> {
        items_of(self.entries@)
    }
}

impl TreeDiff {
    /// The differences, in the order they were found.
    pub fn entries(&self) -> (r: &[DiffEntry<(ObjectId, ObjectId)>])
        ensures
            items_of(r@) == self@,
    {
        self.entries.as_slice()
    }
}

/// A directory still to compare: its path (none at the top) and the tree
/// on each side that has it.
#[derive(Debug)]
pub struct DiffFrame<G: AllGenerics> {
    pub path: Option<Path>,
    pub left: Option<Tree<G>>,
    pub right: Option<Tree<G>>,
}

/// The value of a directory still to compare: its path and the entries of
/// the tree on each side that has it.
pub type FrameView = (Option<Seq<u8>>, Option<Seq<TreeEntryView>>, Option<Seq<TreeEntryView>>);

/// The value of an optional tree's entries.
pub open spec fn tree_entries_view<G: AllGenerics>(t: Option<Tree<G>>) -> Option<Seq<TreeEntryView>> {
    match t {
        Some(x) => Some(x@.entries),
        None => None,
    }
}

/// The value of a directory still to compare.
pub open spec fn frame_view<G: AllGenerics>(f: DiffFrame<G>) -> FrameView {
    (
        match f.path {
            Some(p) => Some(p@),
            None => None,
        },
        tree_entries_view(f.left),
        tree_entries_view(f.right),
    )
}

/// Everything comparing a directory still to compare does.
pub open spec fn frame_actions(f: FrameView) -> Seq<DiffAction> {
    level_actions(f.0, f.1, f.2)
}

/// A comparison of two trees in progress: the differences found so far and
/// the directories still to compare, the next one last.
///
/// Each step takes the last directory off the stack, compares it, and
/// gives the subdirectories to compare next; the caller loads their trees
/// and pushes them in the order given.
#[derive(Debug)]
pub struct TreeDiffWalk<G: AllGenerics> {
    out: Vec<DiffEntry<(ObjectId, ObjectId)>>,
    stack: Vec<DiffFrame<G>>,
}

impl<G: AllGenerics> View for TreeDiffWalk<G> {
    type V = (Seq<DiffItem>, Seq<FrameView>);

    closed spec fn view(&self) -> (Seq<DiffItem>, Seq<FrameView>) {
        (items_of(self.out@), self.stack@.map_values(|f: DiffFrame<G>| frame_view(f)))
    }
}

impl<G: AllGenerics> TreeDiffWalk<G> {
    /// Starts comparing `left` with `right`: trees with the same id have no
    /// differences; otherwise the comparison starts at the top.
    pub fn new(left: &Tree<G>, right: &Tree<G>) -> (r: Self)
        ensures
            r@.0 == Seq::<DiffItem>::empty(),
            left@.id == right@.id ==> r@.1 == Seq::<FrameView>::empty(),
            left@.id != right@.id ==> r@.1 == seq![
                (None::<Seq<u8>>, Some(left@.entries), Some(right@.entries)),
            ],
    {
        let mut stack: Vec<DiffFrame<G>> = Vec::new();
        let lid = left.id();
        let rid = right.id();
        if lid != rid {
            stack.push(
                DiffFrame { path: None, left: Some(left.clone_tree()), right: Some(right.clone_tree()) },
            );
        }
        let r = TreeDiffWalk { out: Vec::new(), stack };
        assert(items_of(r.out@) =~= Seq::<DiffItem>::empty());
        assert(r@.1 =~= (if lid@ == rid@ {
            Seq::<FrameView>::empty()
        } else {
            seq![(None::<Seq<u8>>, Some(left@.entries), Some(right@.entries))]
        }));
        r
    }

    /// Compares the next directory: records the differences found at its
    /// level and gives the subdirectories to compare next, in order. Gives
    /// nothing when every directory has been compared.
    pub fn step(&mut self) -> (r: Option<Vec<SubtreeDiff>>)
        ensures
            old(self)@.1.len() == 0 ==> r is None && final(self)@ == old(self)@,
            old(self)@.1.len() > 0 ==> (r matches Some(v) && subtree_views(v@) == descends(
                frame_actions(old(self)@.1.last()),
            )),
            old(self)@.1.len() > 0 ==> final(self)@.1 == old(self)@.1.drop_last(),
            old(self)@.1.len() > 0 ==> final(self)@.0 == old(self)@.0.add(
                emits(frame_actions(old(self)@.1.last())),
            ),
    {
        let ghost frames = self.stack@;
        match self.stack.pop() {
            None => None,
            Some(frame) => {
                proof {
                    assert(self.stack@ =~= frames.drop_last());
                }
                let (outs, descs) = diff_level(
                    frame.path.as_ref(),
                    frame.left.as_ref(),
                    frame.right.as_ref(),
                );
                let ghost base = items_of(self.out@);
                let mut k: usize = 0;
                while k < outs.len()
                    invariant
                        k <= outs@.len(),
                        items_of(self.out@) == base.add(items_of(outs@).subrange(0, k as int)),
                        self.stack@ == frames.drop_last(),
                    decreases outs@.len() - k,
                {
                    let ghost before = items_of(self.out@);
                    self.out.push(outs[k].clone_entry());
                    proof {
                        assert(items_of(self.out@) =~= before.push(item_of(outs@[k as int])));
                        assert(items_of(outs@).subrange(0, k + 1) =~= items_of(outs@).subrange(
                            0,
                            k as int,
                        ).push(item_of(outs@[k as int])));
                    }
                    k = k + 1;
                }
                proof {
                    assert(items_of(outs@).subrange(0, k as int) =~= items_of(outs@));
                    assert(self@.1 =~= old(self)@.1.drop_last());
                }
                Some(descs)
            },
        }
    }

    /// Adds a directory to compare: its path and the tree on each side that
    /// has it.
    pub fn push(&mut self, path: Path, left: Option<Tree<G>>, right: Option<Tree<G>>)
        ensures
            final(self)@.0 == old(self)@.0,
            final(self)@.1 == old(self)@.1.push(
                (Some(path@), tree_entries_view(left), tree_entries_view(right)),
            ),
    {
        let f = DiffFrame { path: Some(path), left, right };
        let ghost before = self@.1;
        self.stack.push(f);
        assert(self@.1 =~= before.push(frame_view(f)));
    }

    /// The differences found.
    pub fn finish(self) -> (r: TreeDiff)
        ensures
            r@ == self@.0,
    {
        TreeDiff { entries: self.out }
    }
}

impl DiffEntry<(ObjectId, ObjectId)> {
    /// A copy of the difference.
    pub fn clone_entry(&self) -> (r: Self)
        ensures
            item_of(r) == item_of(*self),
    {
        match self {
            DiffEntry::LeftOnly { path, entry_type, content } => DiffEntry::LeftOnly {
                path: path.clone_path(),
                entry_type: *entry_type,
                content: *content,
            },
            DiffEntry::Both { path, left_type, right_type, content } => DiffEntry::Both {
                path: path.clone_path(),
                left_type: *left_type,
                right_type: *right_type,
                content: *content,
            },
            DiffEntry::RightOnly { path, entry_type, content } => DiffEntry::RightOnly {
                path: path.clone_path(),
                entry_type: *entry_type,
                content: *content,
            },
        }
    }
}

/// No two of `es` have the same name, as in any tree git writes.
pub open spec fn names_unique(es: Seq<TreeEntryView>) -> bool {
    forall|i: int, j: int| 0 <= i < j < es.len() ==> (#[trigger] es[i]).name != (#[trigger] es[j]).name
}

proof fn lemma_first_with_name_unique(es: Seq<TreeEntryView>, k: int)
    requires
        names_unique(es),
        0 <= k < es.len(),
    ensures
        first_with_name(es, es[k].name) == Some(es[k]),
    decreases es.len(),
{
    if k > 0 {
        assert(es[0].name != es[k].name);
        let rest = es.subrange(1, es.len() as int);
        assert(rest[k - 1] == es[k]);
        assert forall|i: int, j: int| 0 <= i < j < rest.len() implies (#[trigger] rest[i]).name
            != (#[trigger] rest[j]).name by {
            assert(rest[i] == es[i + 1]);
            assert(rest[j] == es[j + 1]);
        }
        lemma_first_with_name_unique(rest, k - 1);
    }
}

proof fn lemma_same_parts_empty(parent: Option<Seq<u8>>, es: Seq<TreeEntryView>, n: int)
    requires
        names_unique(es),
        0 <= n <= es.len(),
    ensures
        left_only_actions(parent, es.subrange(0, n), es) == Seq::<DiffAction>::empty(),
        right_only_actions(parent, es, es.subrange(0, n)) == Seq::<DiffAction>::empty(),
        both_actions(parent, es.subrange(0, n), es) == Seq::<DiffAction>::empty(),
    decreases n,
{
    if n > 0 {
        let pre = es.subrange(0, n);
        assert(pre.drop_last() =~= es.subrange(0, n - 1));
        assert(pre.last() == es[n - 1]);
        lemma_same_parts_empty(parent, es, n - 1);
        lemma_first_with_name_unique(es, n - 1);
        assert(both_action(parent, es[n - 1], es[n - 1]) =~= Seq::<DiffAction>::empty());
        assert(Seq::<DiffAction>::empty().add(Seq::<DiffAction>::empty()) =~= Seq::<DiffAction>::empty());
    }
}

/// Comparing a directory with one that has the same entries, no two of the
/// same name, reports no difference and descends into no subdirectory.
pub proof fn law_same_directory_no_difference(parent: Option<Seq<u8>>, es: Seq<TreeEntryView>)
    requires
        names_unique(es),
    ensures
        level_actions(parent, Some(es), Some(es)) == Seq::<DiffAction>::empty(),
{
    lemma_same_parts_empty(parent, es, es.len() as int);
    assert(es.subrange(0, es.len() as int) =~= es);
    assert(Seq::<DiffAction>::empty().add(Seq::<DiffAction>::empty()).add(Seq::<DiffAction>::empty())
        =~= Seq::<DiffAction>::empty());
}

/// The same difference seen from the other side.
pub open spec fn mirror_item(i: DiffItem) -> DiffItem {
    match i {
        DiffItem::LeftOnly(p, t, a, b) => DiffItem::RightOnly(p, t, b, a),
        DiffItem::RightOnly(p, t, a, b) => DiffItem::LeftOnly(p, t, b, a),
        DiffItem::Both(p, lt, rt, a, b) => DiffItem::Both(p, rt, lt, b, a),
    }
}

/// The same action seen from the other side.
pub open spec fn mirror_action(a: DiffAction) -> DiffAction {
    match a {
        DiffAction::Emit(i) => DiffAction::Emit(mirror_item(i)),
        DiffAction::Descend(p, l, r) => DiffAction::Descend(p, r, l),
    }
}

proof fn lemma_mirror_one_sided(parent: Option<Seq<u8>>, xs: Seq<TreeEntryView>, ys: Seq<TreeEntryView>)
    ensures
        left_only_actions(parent, ys, xs).map_values(|a: DiffAction| mirror_action(a))
            == right_only_actions(parent, xs, ys),
    decreases ys.len(),
{
    if ys.len() > 0 {
        lemma_mirror_one_sided(parent, xs, ys.drop_last());
        let e = ys.last();
        let prev = left_only_actions(parent, ys.drop_last(), xs);
        let step = if first_with_name(xs, e.name) is Some {
            Seq::<DiffAction>::empty()
        } else {
            left_only_action(parent, e)
        };
        assert(prev.add(step).map_values(|a: DiffAction| mirror_action(a)) =~= prev.map_values(
            |a: DiffAction| mirror_action(a),
        ).add(step.map_values(|a: DiffAction| mirror_action(a))));
        assert(step.map_values(|a: DiffAction| mirror_action(a)) =~= (if first_with_name(
            xs,
            e.name,
        ) is Some {
            Seq::<DiffAction>::empty()
        } else {
            right_only_action(parent, e)
        }));
    } else {
        assert(Seq::<DiffAction>::empty().map_values(|a: DiffAction| mirror_action(a))
            =~= Seq::<DiffAction>::empty());
    }
}

proof fn lemma_mirror_one_sided_back(parent: Option<Seq<u8>>, xs: Seq<TreeEntryView>, ys: Seq<TreeEntryView>)
    ensures
        right_only_actions(parent, xs, ys).map_values(|a: DiffAction| mirror_action(a))
            == left_only_actions(parent, ys, xs),
    decreases ys.len(),
{
    if ys.len() > 0 {
        lemma_mirror_one_sided_back(parent, xs, ys.drop_last());
        let e = ys.last();
        let prev = right_only_actions(parent, xs, ys.drop_last());
        let step = if first_with_name(xs, e.name) is Some {
            Seq::<DiffAction>::empty()
        } else {
            right_only_action(parent, e)
        };
        assert(prev.add(step).map_values(|a: DiffAction| mirror_action(a)) =~= prev.map_values(
            |a: DiffAction| mirror_action(a),
        ).add(step.map_values(|a: DiffAction| mirror_action(a))));
        assert(step.map_values(|a: DiffAction| mirror_action(a)) =~= (if first_with_name(
            xs,
            e.name,
        ) is Some {
            Seq::<DiffAction>::empty()
        } else {
            left_only_action(parent, e)
        }));
    } else {
        assert(Seq::<DiffAction>::empty().map_values(|a: DiffAction| mirror_action(a))
            =~= Seq::<DiffAction>::empty());
    }
}

proof fn lemma_both_member(parent: Option<Seq<u8>>, ls: Seq<TreeEntryView>, rs: Seq<TreeEntryView>, k: int)
    requires
        0 <= k < both_actions(parent, ls, rs).len(),
    ensures
        exists|i: int| #![trigger ls[i]] 0 <= i < ls.len() && (first_with_name(rs, ls[i].name) matches Some(r)
            && both_action(parent, ls[i], r).contains(both_actions(parent, ls, rs)[k])),
    decreases ls.len(),
{
    let prev = both_actions(parent, ls.drop_last(), rs);
    let e = ls.last();
    let step = match first_with_name(rs, e.name) {
        Some(r) => both_action(parent, e, r),
        None => Seq::empty(),
    };
    let a = both_actions(parent, ls, rs)[k];
    if k < prev.len() {
        assert(a == prev[k]);
        lemma_both_member(parent, ls.drop_last(), rs, k);
        let i = choose|i: int| #![trigger ls.drop_last()[i]] 0 <= i < ls.drop_last().len() && (first_with_name(
            rs,
            ls.drop_last()[i].name,
        ) matches Some(r) && both_action(parent, ls.drop_last()[i], r).contains(prev[k]));
        assert(ls[i] == ls.drop_last()[i]);
    } else {
        assert(a == step[k - prev.len()]);
        assert(ls[ls.len() - 1] == e);
    }
}

proof fn lemma_both_includes(
    parent: Option<Seq<u8>>,
    ls: Seq<TreeEntryView>,
    rs: Seq<TreeEntryView>,
    i: int,
    a: DiffAction,
)
    requires
        0 <= i < ls.len(),
        first_with_name(rs, ls[i].name) matches Some(r) && both_action(parent, ls[i], r).contains(a),
    ensures
        both_actions(parent, ls, rs).contains(a),
    decreases ls.len(),
{
    let prev = both_actions(parent, ls.drop_last(), rs);
    let e = ls.last();
    let step = match first_with_name(rs, e.name) {
        Some(r) => both_action(parent, e, r),
        None => Seq::empty(),
    };
    let all = both_actions(parent, ls, rs);
    assert(all == prev.add(step));
    if i < ls.len() - 1 {
        assert(ls.drop_last()[i] == ls[i]);
        lemma_both_includes(parent, ls.drop_last(), rs, i, a);
        let k = choose|k: int| 0 <= k < prev.len() && prev[k] == a;
        assert(all[k] == a);
    } else {
        let k = choose|k: int| 0 <= k < step.len() && step[k] == a;
        assert(all[prev.len() + k] == a);
    }
}

proof fn lemma_mirror_both_action(parent: Option<Seq<u8>>, l: TreeEntryView, r: TreeEntryView)
    requires
        l.name == r.name,
    ensures
        both_action(parent, l, r).map_values(|a: DiffAction| mirror_action(a)) == both_action(
            parent,
            r,
            l,
        ),
{
    assert(both_action(parent, l, r).map_values(|a: DiffAction| mirror_action(a)) =~= both_action(
        parent,
        r,
        l,
    ));
}

proof fn lemma_mirror_both(parent: Option<Seq<u8>>, ls: Seq<TreeEntryView>, rs: Seq<TreeEntryView>, k: int)
    requires
        names_unique(ls),
        names_unique(rs),
        0 <= k < both_actions(parent, ls, rs).len(),
    ensures
        both_actions(parent, rs, ls).contains(mirror_action(both_actions(parent, ls, rs)[k])),
{
    let a = both_actions(parent, ls, rs)[k];
    lemma_both_member(parent, ls, rs, k);
    let i = choose|i: int| #![trigger ls[i]] 0 <= i < ls.len() && (first_with_name(rs, ls[i].name) matches Some(r)
        && both_action(parent, ls[i], r).contains(a));
    let l = ls[i];
    lemma_first_with_name(rs, l.name);
    let r = first_with_name(rs, l.name).unwrap();
    let j = choose|j: int| 0 <= j < rs.len() && rs[j] == r;
    lemma_first_with_name_unique(ls, i);
    assert(first_with_name(ls, rs[j].name) == Some(l));
    lemma_mirror_both_action(parent, l, r);
    let m = choose|m: int| 0 <= m < both_action(parent, l, r).len() && both_action(parent, l, r)[m] == a;
    assert(both_action(parent, r, l)[m] == mirror_action(a));
    lemma_both_includes(parent, rs, ls, j, mirror_action(a));
}

/// Comparing two directories the other way round, each without two
/// entries of the same name, finds every difference seen from the other
/// side and descends into every subdirectory with its sides swapped.
pub proof fn law_mirror_directory(
    parent: Option<Seq<u8>>,
    ls: Seq<TreeEntryView>,
    rs: Seq<TreeEntryView>,
    k: int,
)
    requires
        names_unique(ls),
        names_unique(rs),
        0 <= k < level_actions(parent, Some(ls), Some(rs)).len(),
    ensures
        level_actions(parent, Some(rs), Some(ls)).contains(
            mirror_action(level_actions(parent, Some(ls), Some(rs))[k]),
        ),
{
    let lo = left_only_actions(parent, ls, rs);
    let ro = right_only_actions(parent, ls, rs);
    let bo = both_actions(parent, ls, rs);
    let lo2 = left_only_actions(parent, rs, ls);
    let ro2 = right_only_actions(parent, rs, ls);
    let bo2 = both_actions(parent, rs, ls);
    let all = level_actions(parent, Some(ls), Some(rs));
    let all2 = level_actions(parent, Some(rs), Some(ls));
    assert(all == lo.add(ro).add(bo));
    assert(all2 == lo2.add(ro2).add(bo2));
    let a = all[k];
    lemma_mirror_one_sided(parent, rs, ls);
    lemma_mirror_one_sided_back(parent, ls, rs);
    if k < lo.len() {
        assert(a == lo[k]);
        assert(ro2[k] == mirror_action(a));
        assert(all2[lo2.len() + k] == mirror_action(a));
    } else if k < lo.len() + ro.len() {
        assert(a == ro[k - lo.len()]);
        assert(lo2[k - lo.len()] == mirror_action(a));
        assert(all2[k - lo.len()] == mirror_action(a));
    } else {
        let kb = k - lo.len() - ro.len();
        assert(a == bo[kb]);
        lemma_mirror_both(parent, ls, rs, kb);
        let m = choose|m: int| 0 <= m < bo2.len() && bo2[m] == mirror_action(a);
        assert(all2[lo2.len() + ro2.len() + m] == mirror_action(a));
    }
}

/// Where the content of one side of a difference comes from, for a line
/// diff: a submodule commit stands for the text of its id; anything else is
/// the blob with that id.
#[derive(Debug, PartialEq, Eq)]
pub enum LeafSource {
    Text(Vec<u8>),
    Blob(ObjectId),
}

/// Where the content of an entry of type `entry_type` pointing at `id`
/// comes from: the 40 lowercase hexadecimal digits of `id` for a submodule
/// commit, the blob `id` otherwise.
pub fn leaf_source(entry_type: TreeEntryType, id: ObjectId) -> (r: LeafSource)
    ensures
        entry_type == TreeEntryType::Commit ==> (r matches LeafSource::Text(t) && t@ == hex_encode(id@)),
        entry_type != TreeEntryType::Commit ==> r == LeafSource::Blob(id),
{
    if entry_type == TreeEntryType::Commit {
        LeafSource::Text(id.to_hex())
    } else {
        LeafSource::Blob(id)
    }
}

/// The sides whose content a line diff of `e` compares: the left entry's
/// type and id, if the left side has the path, and the same of the right.
/// A missing side compares as empty.
pub fn leaf_sides(e: &DiffEntry<(ObjectId, ObjectId)>) -> (r: (
    Option<(TreeEntryType, ObjectId)>,
    Option<(TreeEntryType, ObjectId)>,
))
    ensures
        match *e {
            DiffEntry::LeftOnly { entry_type, content, .. } => r.0 == Some((entry_type, content.0))
                && r.1 is None,
            DiffEntry::RightOnly { entry_type, content, .. } => r.0 is None && r.1 == Some(
                (entry_type, content.1),
            ),
            DiffEntry::Both { left_type, right_type, content, .. } => r.0 == Some(
                (left_type, content.0),
            ) && r.1 == Some((right_type, content.1)),
        },
{
    match e {
        DiffEntry::LeftOnly { entry_type, content, .. } => (Some((*entry_type, content.0)), None),
        DiffEntry::RightOnly { entry_type, content, .. } => (None, Some((*entry_type, content.1))),
        DiffEntry::Both { left_type, right_type, content, .. } => (
            Some((*left_type, content.0)),
            Some((*right_type, content.1)),
        ),
    }
}

/// The path a difference is reported at.
pub open spec fn item_path(i: DiffItem) -> Seq<u8> {
    match i {
        DiffItem::LeftOnly(p, ..) => p,
        DiffItem::Both(p, ..) => p,
        DiffItem::RightOnly(p, ..) => p,
    }
}

/// No two of `items` are reported at the same path.
pub open spec fn paths_distinct(items: Seq<DiffItem>) -> bool {
    forall|i: int, j: int|
        0 <= i < j < items.len() ==> item_path(#[trigger] items[i]) != item_path(#[trigger] items[j])
}

/// No two of `ps` are the same.
pub open spec fn all_distinct(ps: Seq<Seq<u8>>) -> bool {
    forall|i: int, j: int| 0 <= i < j < ps.len() ==> #[trigger] ps[i] != #[trigger] ps[j]
}

/// The paths that `acts` report differences at (`descending` false) or
/// descend into (`descending` true), in order.
pub open spec fn acts_paths(acts: Seq<DiffAction>, descending: bool) -> Seq<Seq<u8>> {
    if descending {
        descends(acts).map_values(|d: (Seq<u8>, Option<Seq<u8>>, Option<Seq<u8>>)| d.0)
    } else {
        emits(acts).map_values(|i: DiffItem| item_path(i))
    }
}

/// The names of `es`, in order.
pub open spec fn entry_names(es: Seq<TreeEntryView>) -> Seq<Seq<u8>> {
    es.map_values(|e: TreeEntryView| e.name)
}

/// The name below `parent` that `path` was made from by [`joined`].
pub open spec fn name_below(parent: Option<Seq<u8>>, path: Seq<u8>) -> Seq<u8> {
    match parent {
        Some(p) => path.subrange(p.len() + 1int, path.len() as int),
        None => path,
    }
}

proof fn lemma_name_below(parent: Option<Seq<u8>>, n: Seq<u8>)
    ensures
        name_below(parent, joined(parent, n)) == n,
{
    if let Some(p) = parent {
        assert(p.push(47u8).add(n).subrange(p.len() + 1int, p.len() + 1int + n.len()) =~= n);
    }
}

/// `ps` are distinct paths, each made below `parent` from one of `names`
/// that `allowed` accepts.
pub open spec fn named_paths(
    ps: Seq<Seq<u8>>,
    parent: Option<Seq<u8>>,
    names: Seq<Seq<u8>>,
    allowed: spec_fn(Seq<u8>) -> bool,
) -> bool {
    &&& all_distinct(ps)
    &&& forall|i: int|
        0 <= i < ps.len() ==> {
            let n = name_below(parent, #[trigger] ps[i]);
            &&& ps[i] == joined(parent, n)
            &&& names.contains(n)
            &&& allowed(n)
        }
}

/// `ps` holds at most one path, `path`.
pub open spec fn at_most_one_at(ps: Seq<Seq<u8>>, path: Seq<u8>) -> bool {
    &&& ps.len() <= 1
    &&& forall|i: int| 0 <= i < ps.len() ==> #[trigger] ps[i] == path
}

proof fn lemma_acts_paths_add(a: Seq<DiffAction>, b: Seq<DiffAction>, d: bool)
    ensures
        acts_paths(a.add(b), d) == acts_paths(a, d).add(acts_paths(b, d)),
{
    lemma_emits_descends_add(a, b);
    assert(acts_paths(a.add(b), d) =~= acts_paths(a, d).add(acts_paths(b, d)));
}

proof fn lemma_acts_paths_empty(d: bool)
    ensures
        acts_paths(Seq::<DiffAction>::empty(), d) == Seq::<Seq<u8>>::empty(),
{
    assert(acts_paths(Seq::<DiffAction>::empty(), d) =~= Seq::<Seq<u8>>::empty());
}

proof fn lemma_entry_actions(parent: Option<Seq<u8>>, l: TreeEntryView, r: TreeEntryView, d: bool)
    requires
        l.name == r.name,
    ensures
        at_most_one_at(acts_paths(left_only_action(parent, l), d), joined(parent, l.name)),
        at_most_one_at(acts_paths(right_only_action(parent, l), d), joined(parent, l.name)),
        at_most_one_at(acts_paths(lone_left_action(parent, l), d), joined(parent, l.name)),
        at_most_one_at(acts_paths(both_action(parent, l, r), d), joined(parent, l.name)),
{
    reveal_with_fuel(emits, 3);
    reveal_with_fuel(descends, 3);
    let b = both_action(parent, l, r);
    if b.len() == 2 {
        assert(b.drop_last() =~= seq![b[0]]);
        assert(seq![b[0]].drop_last() =~= Seq::<DiffAction>::empty());
    }
}

proof fn lemma_path_step(
    ps: Seq<Seq<u8>>,
    qs: Seq<Seq<u8>>,
    parent: Option<Seq<u8>>,
    names: Seq<Seq<u8>>,
    n: Seq<u8>,
    allowed: spec_fn(Seq<u8>) -> bool,
)
    requires
        named_paths(ps, parent, names, allowed),
        !names.contains(n),
        at_most_one_at(qs, joined(parent, n)),
        qs.len() == 1 ==> allowed(n),
    ensures
        named_paths(ps.add(qs), parent, names.push(n), allowed),
{
    let all = ps.add(qs);
    lemma_name_below(parent, n);
    assert forall|i: int| 0 <= i < all.len() implies {
        let m = name_below(parent, #[trigger] all[i]);
        &&& all[i] == joined(parent, m)
        &&& names.push(n).contains(m)
        &&& allowed(m)
    } by {
        if i < ps.len() {
            assert(all[i] == ps[i]);
            let m = name_below(parent, ps[i]);
            let k = choose|k: int| 0 <= k < names.len() && names[k] == m;
            assert(names.push(n)[k] == m);
        } else {
            assert(all[i] == qs[i - ps.len()]);
            assert(names.push(n)[names.len() as int] == n);
        }
    }
    assert forall|i: int, j: int| 0 <= i < j < all.len() implies #[trigger] all[i] != #[trigger] all[j] by {
        if j < ps.len() {
            assert(all[i] == ps[i] && all[j] == ps[j]);
        } else if i < ps.len() {
            assert(all[i] == ps[i]);
            assert(all[j] == qs[j - ps.len()]);
            let m = name_below(parent, ps[i]);
            if all[i] == all[j] {
                assert(m == n);
            }
        }
    }
}

proof fn lemma_names_step(es: Seq<TreeEntryView>)
    requires
        es.len() > 0,
        names_unique(es),
    ensures
        entry_names(es.drop_last()).push(es.last().name) == entry_names(es),
        !entry_names(es.drop_last()).contains(es.last().name),
        names_unique(es.drop_last()),
{
    assert(entry_names(es.drop_last()).push(es.last().name) =~= entry_names(es));
    if entry_names(es.drop_last()).contains(es.last().name) {
        let k = choose|k: int| 0 <= k < es.len() - 1 && entry_names(es.drop_last())[k] == es.last().name;
        assert(es[k].name != es[es.len() - 1].name);
    }
    assert forall|i: int, j: int| 0 <= i < j < es.drop_last().len() implies (
    #[trigger] es.drop_last()[i]).name != (#[trigger] es.drop_last()[j]).name by {
        assert(es[i].name != es[j].name);
    }
}

proof fn lemma_left_only_paths(parent: Option<Seq<u8>>, ls: Seq<TreeEntryView>, rs: Seq<TreeEntryView>, d: bool)
    requires
        names_unique(ls),
    ensures
        named_paths(
            acts_paths(left_only_actions(parent, ls, rs), d),
            parent,
            entry_names(ls),
            |n: Seq<u8>| first_with_name(rs, n) is None,
        ),
    decreases ls.len(),
{
    let allowed = |n: Seq<u8>| first_with_name(rs, n) is None;
    lemma_acts_paths_empty(d);
    if ls.len() > 0 {
        let e = ls.last();
        lemma_names_step(ls);
        lemma_left_only_paths(parent, ls.drop_last(), rs, d);
        let x = if first_with_name(rs, e.name) is Some {
            Seq::empty()
        } else {
            left_only_action(parent, e)
        };
        lemma_entry_actions(parent, e, e, d);
        lemma_acts_paths_add(left_only_actions(parent, ls.drop_last(), rs), x, d);
        lemma_path_step(
            acts_paths(left_only_actions(parent, ls.drop_last(), rs), d),
            acts_paths(x, d),
            parent,
            entry_names(ls.drop_last()),
            e.name,
            allowed,
        );
    }
}

proof fn lemma_right_only_paths(parent: Option<Seq<u8>>, ls: Seq<TreeEntryView>, rs: Seq<TreeEntryView>, d: bool)
    requires
        names_unique(rs),
    ensures
        named_paths(
            acts_paths(right_only_actions(parent, ls, rs), d),
            parent,
            entry_names(rs),
            |n: Seq<u8>| first_with_name(ls, n) is None,
        ),
    decreases rs.len(),
{
    let allowed = |n: Seq<u8>| first_with_name(ls, n) is None;
    lemma_acts_paths_empty(d);
    if rs.len() > 0 {
        let e = rs.last();
        lemma_names_step(rs);
        lemma_right_only_paths(parent, ls, rs.drop_last(), d);
        let x = if first_with_name(ls, e.name) is Some {
            Seq::empty()
        } else {
            right_only_action(parent, e)
        };
        lemma_entry_actions(parent, e, e, d);
        lemma_acts_paths_add(right_only_actions(parent, ls, rs.drop_last()), x, d);
        lemma_path_step(
            acts_paths(right_only_actions(parent, ls, rs.drop_last()), d),
            acts_paths(x, d),
            parent,
            entry_names(rs.drop_last()),
            e.name,
            allowed,
        );
    }
}

proof fn lemma_both_paths(parent: Option<Seq<u8>>, ls: Seq<TreeEntryView>, rs: Seq<TreeEntryView>, d: bool)
    requires
        names_unique(ls),
    ensures
        named_paths(
            acts_paths(both_actions(parent, ls, rs), d),
            parent,
            entry_names(ls),
            |n: Seq<u8>| first_with_name(rs, n) is Some,
        ),
    decreases ls.len(),
{
    let allowed = |n: Seq<u8>| first_with_name(rs, n) is Some;
    lemma_acts_paths_empty(d);
    if ls.len() > 0 {
        let e = ls.last();
        lemma_names_step(ls);
        lemma_both_paths(parent, ls.drop_last(), rs, d);
        let x = match first_with_name(rs, e.name) {
            Some(r) => both_action(parent, e, r),
            None => Seq::empty(),
        };
        lemma_first_with_name(rs, e.name);
        if let Some(r) = first_with_name(rs, e.name) {
            lemma_entry_actions(parent, e, r, d);
        }
        lemma_acts_paths_add(both_actions(parent, ls.drop_last(), rs), x, d);
        lemma_path_step(
            acts_paths(both_actions(parent, ls.drop_last(), rs), d),
            acts_paths(x, d),
            parent,
            entry_names(ls.drop_last()),
            e.name,
            allowed,
        );
    }
}

proof fn lemma_one_side_paths(parent: Option<Seq<u8>>, es: Seq<TreeEntryView>, left: bool, d: bool)
    requires
        names_unique(es),
    ensures
        named_paths(acts_paths(one_side_actions(parent, es, left), d), parent, entry_names(es), |n: Seq<u8>| true),
    decreases es.len(),
{
    let allowed = |n: Seq<u8>| true;
    lemma_acts_paths_empty(d);
    if es.len() > 0 {
        let e = es.last();
        lemma_names_step(es);
        lemma_one_side_paths(parent, es.drop_last(), left, d);
        let x = if left {
            lone_left_action(parent, e)
        } else {
            right_only_action(parent, e)
        };
        lemma_entry_actions(parent, e, e, d);
        lemma_acts_paths_add(one_side_actions(parent, es.drop_last(), left), x, d);
        lemma_path_step(
            acts_paths(one_side_actions(parent, es.drop_last(), left), d),
            acts_paths(x, d),
            parent,
            entry_names(es.drop_last()),
            e.name,
            allowed,
        );
    }
}

proof fn lemma_name_listed(es: Seq<TreeEntryView>, n: Seq<u8>)
    requires
        entry_names(es).contains(n),
    ensures
        first_with_name(es, n) is Some,
{
    lemma_first_with_name(es, n);
    let k = choose|k: int| 0 <= k < entry_names(es).len() && entry_names(es)[k] == n;
    assert(es[k].name == n);
}

/// The names of the entries of the sides present, one side after the other.
pub open spec fn side_names(left: Option<Seq<TreeEntryView>>, right: Option<Seq<TreeEntryView>>) -> Seq<Seq<u8>> {
    let l = match left {
        Some(ls) => entry_names(ls),
        None => Seq::empty(),
    };
    let r = match right {
        Some(rs) => entry_names(rs),
        None => Seq::empty(),
    };
    l.add(r)
}

proof fn lemma_level_paths(
    parent: Option<Seq<u8>>,
    left: Option<Seq<TreeEntryView>>,
    right: Option<Seq<TreeEntryView>>,
    d: bool,
)
    requires
        left matches Some(ls) ==> names_unique(ls),
        right matches Some(rs) ==> names_unique(rs),
    ensures
        named_paths(acts_paths(level_actions(parent, left, right), d), parent, side_names(left, right), |n: Seq<u8>| true),
{
    let names = side_names(left, right);
    let t = |n: Seq<u8>| true;
    match (left, right) {
        (Some(ls), Some(rs)) => {
            let la = left_only_actions(parent, ls, rs);
            let ra = right_only_actions(parent, ls, rs);
            let ba = both_actions(parent, ls, rs);
            lemma_left_only_paths(parent, ls, rs, d);
            lemma_right_only_paths(parent, ls, rs, d);
            lemma_both_paths(parent, ls, rs, d);
            lemma_acts_paths_add(la, ra, d);
            lemma_acts_paths_add(la.add(ra), ba, d);
            let a = acts_paths(la, d);
            let b = acts_paths(ra, d);
            let c = acts_paths(ba, d);
            let all = a.add(b).add(c);
            assert forall|i: int| 0 <= i < all.len() implies {
                let n = name_below(parent, #[trigger] all[i]);
                &&& all[i] == joined(parent, n)
                &&& names.contains(n)
                &&& t(n)
            } by {
                let ln = entry_names(ls).len();
                if i < a.len() {
                    assert(all[i] == a[i]);
                    let n = name_below(parent, a[i]);
                    let k = choose|k: int| 0 <= k < ln && entry_names(ls)[k] == n;
                    assert(names[k] == n);
                } else if i < a.len() + b.len() {
                    assert(all[i] == b[i - a.len()]);
                    let n = name_below(parent, all[i]);
                    let k = choose|k: int| 0 <= k < entry_names(rs).len() && entry_names(rs)[k] == n;
                    assert(names[ln + k] == n);
                } else {
                    assert(all[i] == c[i - a.len() - b.len()]);
                    let n = name_below(parent, all[i]);
                    let k = choose|k: int| 0 <= k < ln && entry_names(ls)[k] == n;
                    assert(names[k] == n);
                }
            }
            assert forall|i: int, j: int| 0 <= i < j < all.len() implies #[trigger] all[i] != #[trigger] all[j] by {
                let ni = name_below(parent, all[i]);
                let nj = name_below(parent, all[j]);
                if j < a.len() {
                    assert(all[i] == a[i] && all[j] == a[j]);
                } else if j < a.len() + b.len() {
                    assert(all[j] == b[j - a.len()]);
                    if i < a.len() {
                        assert(all[i] == a[i]);
                        if all[i] == all[j] {
                            lemma_name_listed(ls, ni);
                        }
                    } else {
                        assert(all[i] == b[i - a.len()]);
                    }
                } else {
                    assert(all[j] == c[j - a.len() - b.len()]);
                    if i < a.len() {
                        assert(all[i] == a[i]);
                    } else if i < a.len() + b.len() {
                        assert(all[i] == b[i - a.len()]);
                        if all[i] == all[j] {
                            lemma_name_listed(ls, nj);
                        }
                    } else {
                        assert(all[i] == c[i - a.len() - b.len()]);
                    }
                }
            }
        },
        (Some(ls), None) => {
            lemma_one_side_paths(parent, ls, true, d);
            assert(names =~= entry_names(ls));
        },
        (None, Some(rs)) => {
            lemma_one_side_paths(parent, rs, false, d);
            assert(names =~= entry_names(rs));
        },
        (None, None) => {
            lemma_acts_paths_empty(d);
        },
    }
}

proof fn lemma_item_paths_distinct(items: Seq<DiffItem>)
    requires
        all_distinct(items.map_values(|i: DiffItem| item_path(i))),
    ensures
        paths_distinct(items),
{
    let ps = items.map_values(|i: DiffItem| item_path(i));
    assert forall|i: int, j: int| 0 <= i < j < items.len() implies item_path(#[trigger] items[i])
        != item_path(#[trigger] items[j]) by {
        assert(ps[i] != ps[j]);
    }
}

/// Comparing one directory level reports every path at most once, when no
/// two entries on a side share a name (as in any tree git writes): the
/// files present on one side only, and those present on both sides with
/// different content, each lie at their own path.
pub proof fn law_level_reports_each_path_once(
    parent: Option<Seq<u8>>,
    left: Option<Seq<TreeEntryView>>,
    right: Option<Seq<TreeEntryView>>,
)
    requires
        left matches Some(ls) ==> names_unique(ls),
        right matches Some(rs) ==> names_unique(rs),
    ensures
        paths_distinct(emits(level_actions(parent, left, right))),
{
    lemma_level_paths(parent, left, right, false);
    lemma_item_paths_distinct(emits(level_actions(parent, left, right)));
}

/// A name that can stand for one path component: not empty, with no `/`.
pub open spec fn plain_name(n: Seq<u8>) -> bool {
    n.len() > 0 && forall|i: int| 0 <= i < n.len() ==> n[i] != 47u8
}

/// Entries with distinct plain names, as in any tree git writes.
pub open spec fn plain_entries(es: Seq<TreeEntryView>) -> bool {
    names_unique(es) && forall|k: int| 0 <= k < es.len() ==> plain_name(#[trigger] es[k].name)
}

/// The entries of the trees of a repository, by tree id.
pub type TreeStore = Map<Seq<u8>, Seq<TreeEntryView>>;

/// Every tree of the store has plain entries.
pub open spec fn store_plain(store: TreeStore) -> bool {
    forall|id: Seq<u8>| #[trigger] store.contains_key(id) ==> plain_entries(store[id])
}

/// The entries of the tree `id`, if one is wanted: nothing is wanted where
/// there is no id, and the lookup fails where the store lacks the tree.
pub open spec fn load_tree(store: TreeStore, id: Option<Seq<u8>>) -> Option<Option<Seq<TreeEntryView>>> {
    match id {
        None => Some(None),
        Some(i) => if store.contains_key(i) {
            Some(Some(store[i]))
        } else {
            None
        },
    }
}

/// The directories to compare next, with their trees loaded from the store,
/// in the order they are to be pushed; nothing where a tree is missing.
pub open spec fn load_frames(store: TreeStore, ds: Seq<(Seq<u8>, Option<Seq<u8>>, Option<Seq<u8>>)>) -> Option<
    Seq<FrameView>,
>
    decreases ds.len(),
{
    if ds.len() == 0 {
        Some(Seq::empty())
    } else {
        match (load_frames(store, ds.drop_last()), load_tree(store, ds.last().1), load_tree(store, ds.last().2)) {
            (Some(fs), Some(l), Some(r)) => Some(fs.push((Some(ds.last().0), l, r))),
            _ => None,
        }
    }
}

/// What a complete comparison reports, from a stack of directories still to
/// compare: as [`TreeDiffWalk`] does it, the last directory is compared, its
/// differences reported, and the subdirectories it names are pushed with
/// their trees from the store; nothing where a tree is missing or `fuel`
/// steps do not suffice.
pub open spec fn walk_run(store: TreeStore, stack: Seq<FrameView>, fuel: nat) -> Option<Seq<DiffItem>>
    decreases fuel,
{
    if stack.len() == 0 {
        Some(Seq::empty())
    } else if fuel == 0 {
        None
    } else {
        let acts = frame_actions(stack.last());
        match load_frames(store, descends(acts)) {
            None => None,
            Some(fs) => match walk_run(store, stack.drop_last().add(fs), (fuel - 1) as nat) {
                Some(rest) => Some(emits(acts).add(rest)),
                None => None,
            },
        }
    }
}

/// `x` lies strictly below the directory `q`.
pub open spec fn below(q: Seq<u8>, x: Seq<u8>) -> bool {
    q.len() < x.len() && x.subrange(0, q.len() as int) == q && x[q.len() as int] == 47u8
}

/// Neither of two directory paths is the other or lies below it.
pub open spec fn apart(p: Seq<u8>, q: Seq<u8>) -> bool {
    p != q && !below(p, q) && !below(q, p)
}

/// The entries of a frame's sides are plain.
pub open spec fn frame_plain(f: FrameView) -> bool {
    &&& f.1 matches Some(ls) ==> plain_entries(ls)
    &&& f.2 matches Some(rs) ==> plain_entries(rs)
}

/// Every directory still to compare has a path, plain entries, and lies
/// apart from every other.
pub open spec fn stack_apart(stack: Seq<FrameView>) -> bool {
    &&& forall|k: int| 0 <= k < stack.len() ==> (#[trigger] stack[k]).0 is Some && frame_plain(stack[k])
    &&& forall|j: int, k: int|
        0 <= j < k < stack.len() ==> apart((#[trigger] stack[j]).0.unwrap(), (#[trigger] stack[k]).0.unwrap())
}

proof fn lemma_plain_not_below(q: Seq<u8>, n: Seq<u8>)
    requires
        plain_name(n),
    ensures
        !below(q, n),
{
    if q.len() < n.len() {
        assert(n[q.len() as int] != 47u8);
    }
}

proof fn lemma_below_child(p: Seq<u8>, n: Seq<u8>)
    requires
        plain_name(n),
    ensures
        below(p, joined(Some(p), n)),
{
    let x = p.push(47u8).add(n);
    assert(x.subrange(0, p.len() as int) =~= p);
}

proof fn lemma_below_trans(a: Seq<u8>, b: Seq<u8>, c: Seq<u8>)
    requires
        below(a, b),
        below(b, c),
    ensures
        below(a, c),
{
    assert(c.subrange(0, a.len() as int) =~= b.subrange(0, a.len() as int)) by {
        assert forall|i: int| 0 <= i < a.len() implies c.subrange(0, a.len() as int)[i] == b.subrange(
            0,
            a.len() as int,
        )[i] by {
            assert(c[i] == c.subrange(0, b.len() as int)[i]);
        }
    }
    assert(c[a.len() as int] == c.subrange(0, b.len() as int)[a.len() as int]);
}

proof fn lemma_below_child_inv(q: Seq<u8>, p: Seq<u8>, n: Seq<u8>)
    requires
        plain_name(n),
        below(q, joined(Some(p), n)),
    ensures
        q == p || below(q, p),
{
    let x = p.push(47u8).add(n);
    if q.len() > p.len() {
        assert(x[q.len() as int] == n[q.len() - p.len() - 1]);
    } else if q.len() == p.len() {
        assert(q =~= p) by {
            assert forall|i: int| 0 <= i < q.len() implies q[i] == p[i] by {
                assert(x.subrange(0, q.len() as int)[i] == x[i]);
            }
        }
    } else {
        assert(p.subrange(0, q.len() as int) =~= q) by {
            assert forall|i: int| 0 <= i < q.len() implies p.subrange(0, q.len() as int)[i] == q[i] by {
                assert(x.subrange(0, q.len() as int)[i] == x[i]);
            }
        }
        assert(x[q.len() as int] == p[q.len() as int]);
    }
}

proof fn lemma_children_apart(p: Seq<u8>, m1: Seq<u8>, m2: Seq<u8>)
    requires
        plain_name(m1),
        plain_name(m2),
        m1 != m2,
    ensures
        apart(joined(Some(p), m1), joined(Some(p), m2)),
{
    lemma_name_below(Some(p), m1);
    lemma_name_below(Some(p), m2);
    if below(joined(Some(p), m1), joined(Some(p), m2)) {
        lemma_below_child_inv(joined(Some(p), m1), p, m2);
    }
    if below(joined(Some(p), m2), joined(Some(p), m1)) {
        lemma_below_child_inv(joined(Some(p), m2), p, m1);
    }
}

proof fn lemma_child_apart(q: Seq<u8>, p: Seq<u8>, m: Seq<u8>)
    requires
        plain_name(m),
        apart(q, p),
    ensures
        apart(q, joined(Some(p), m)),
{
    let c = joined(Some(p), m);
    lemma_below_child(p, m);
    if q == c {
        assert(below(p, q));
    }
    if below(q, c) {
        lemma_below_child_inv(q, p, m);
    }
    if below(c, q) {
        lemma_below_trans(p, c, q);
    }
}

proof fn lemma_load_frames(store: TreeStore, ds: Seq<(Seq<u8>, Option<Seq<u8>>, Option<Seq<u8>>)>)
    requires
        store_plain(store),
        load_frames(store, ds) is Some,
    ensures
        load_frames(store, ds).unwrap().len() == ds.len(),
        forall|i: int|
            0 <= i < ds.len() ==> (#[trigger] load_frames(store, ds).unwrap()[i]).0 == Some(ds[i].0)
                && frame_plain(load_frames(store, ds).unwrap()[i]),
    decreases ds.len(),
{
    if ds.len() > 0 {
        lemma_load_frames(store, ds.drop_last());
        let fs = load_frames(store, ds.drop_last()).unwrap();
        let l = ds.last().1;
        let r = ds.last().2;
        assert forall|i: int| 0 <= i < ds.len() implies (#[trigger] load_frames(store, ds).unwrap()[i]).0
            == Some(ds[i].0) && frame_plain(load_frames(store, ds).unwrap()[i]) by {
            if i < ds.len() - 1 {
                assert(load_frames(store, ds).unwrap()[i] == fs[i]);
                assert(ds.drop_last()[i] == ds[i]);
            } else {
                if let Some(id) = l {
                    assert(store.contains_key(id));
                }
                if let Some(id) = r {
                    assert(store.contains_key(id));
                }
            }
        }
    }
}

/// The path of every plain directory or file name below `parent`: the name
/// itself at the top, or below the parent's path.
proof fn lemma_level_facts(parent: Option<Seq<u8>>, f: FrameView, d: bool)
    requires
        frame_plain(f),
        f.0 == parent,
    ensures
        all_distinct(acts_paths(frame_actions(f), d)),
        forall|i: int|
            0 <= i < acts_paths(frame_actions(f), d).len() ==> {
                let x = #[trigger] acts_paths(frame_actions(f), d)[i];
                let n = name_below(parent, x);
                x == joined(parent, n) && plain_name(n)
            },
{
    lemma_level_paths(parent, f.1, f.2, d);
    let names = side_names(f.1, f.2);
    let ps = acts_paths(frame_actions(f), d);
    assert forall|i: int| 0 <= i < ps.len() implies {
        let x = #[trigger] ps[i];
        let n = name_below(parent, x);
        x == joined(parent, n) && plain_name(n)
    } by {
        let n = name_below(parent, ps[i]);
        let k = choose|k: int| 0 <= k < names.len() && names[k] == n;
        let l = match f.1 {
            Some(ls) => entry_names(ls),
            None => Seq::empty(),
        };
        if k < l.len() {
            let ls = f.1.unwrap();
            assert(ls[k].name == n);
        } else {
            let rs = f.2.unwrap();
            assert(rs[k - l.len()].name == n);
        }
    }
}

proof fn lemma_item_paths(acts: Seq<DiffAction>, i: int)
    requires
        0 <= i < emits(acts).len(),
    ensures
        acts_paths(acts, false)[i] == item_path(emits(acts)[i]),
        acts_paths(acts, false).len() == emits(acts).len(),
{
}

proof fn lemma_descend_paths(acts: Seq<DiffAction>, i: int)
    requires
        0 <= i < descends(acts).len(),
    ensures
        acts_paths(acts, true)[i] == descends(acts)[i].0,
        acts_paths(acts, true).len() == descends(acts).len(),
{
}

#[verifier::rlimit(60)]
proof fn lemma_walk_below(store: TreeStore, stack: Seq<FrameView>, fuel: nat)
    requires
        store_plain(store),
        stack_apart(stack),
        walk_run(store, stack, fuel) is Some,
    ensures
        paths_distinct(walk_run(store, stack, fuel).unwrap()),
        forall|i: int|
            0 <= i < walk_run(store, stack, fuel).unwrap().len() ==> exists|k: int|
                0 <= k < stack.len() && below(
                    stack[k].0.unwrap(),
                    item_path(#[trigger] walk_run(store, stack, fuel).unwrap()[i]),
                ),
    decreases fuel,
{
    if stack.len() > 0 {
        let f = stack.last();
        let p = f.0.unwrap();
        let acts = frame_actions(f);
        let ds = descends(acts);
        let fs = load_frames(store, ds).unwrap();
        let rest_stack = stack.drop_last().add(fs);
        let em = emits(acts);
        let items = walk_run(store, stack, fuel).unwrap();
        lemma_level_facts(f.0, f, false);
        lemma_level_facts(f.0, f, true);
        lemma_load_frames(store, ds);
        let dp = acts_paths(acts, true);
        let ep = acts_paths(acts, false);
        // The stack after the step stays apart.
        assert forall|k: int| 0 <= k < rest_stack.len() implies (#[trigger] rest_stack[k]).0 is Some
            && frame_plain(rest_stack[k]) by {
            if k >= stack.len() - 1 {
                assert(rest_stack[k] == fs[k - (stack.len() - 1)]);
            } else {
                assert(rest_stack[k] == stack[k]);
            }
        }
        assert forall|j: int, k: int| 0 <= j < k < rest_stack.len() implies apart(
            (#[trigger] rest_stack[j]).0.unwrap(),
            (#[trigger] rest_stack[k]).0.unwrap(),
        ) by {
            let n0 = stack.len() - 1;
            if k < n0 {
                assert(rest_stack[j] == stack[j] && rest_stack[k] == stack[k]);
            } else if j < n0 {
                assert(rest_stack[j] == stack[j]);
                assert(rest_stack[k] == fs[k - n0]);
                lemma_descend_paths(acts, k - n0);
                let m = name_below(f.0, dp[k - n0]);
                assert(apart(stack[j].0.unwrap(), stack[n0].0.unwrap()));
                lemma_child_apart(stack[j].0.unwrap(), p, m);
            } else {
                assert(rest_stack[j] == fs[j - n0]);
                assert(rest_stack[k] == fs[k - n0]);
                lemma_descend_paths(acts, j - n0);
                lemma_descend_paths(acts, k - n0);
                let m1 = name_below(f.0, dp[j - n0]);
                let m2 = name_below(f.0, dp[k - n0]);
                assert(dp[j - n0] != dp[k - n0]);
                lemma_children_apart(p, m1, m2);
            }
        }
        lemma_walk_below(store, rest_stack, (fuel - 1) as nat);
        let rest = walk_run(store, rest_stack, (fuel - 1) as nat).unwrap();
        assert(items == em.add(rest));
        // Each emitted path lies below `p`.
        assert forall|i: int| 0 <= i < em.len() implies below(p, item_path(#[trigger] em[i])) by {
            lemma_item_paths(acts, i);
            lemma_below_child(p, name_below(f.0, ep[i]));
        }
        // Each later path lies below a directory of the step's stack.
        assert forall|i: int| 0 <= i < rest.len() implies exists|k: int|
            0 <= k < stack.len() && below(stack[k].0.unwrap(), item_path(#[trigger] rest[i])) by {
            let x = item_path(rest[i]);
            let k = choose|k: int| 0 <= k < rest_stack.len() && below(rest_stack[k].0.unwrap(), x);
            let n0 = stack.len() - 1;
            if k < n0 {
                assert(rest_stack[k] == stack[k]);
            } else {
                assert(rest_stack[k] == fs[k - n0]);
                lemma_descend_paths(acts, k - n0);
                let m = name_below(f.0, dp[k - n0]);
                lemma_below_child(p, m);
                lemma_below_trans(p, rest_stack[k].0.unwrap(), x);
                assert(below(stack[n0].0.unwrap(), x));
            }
        }
        assert forall|i: int| 0 <= i < items.len() implies exists|k: int|
            0 <= k < stack.len() && below(stack[k].0.unwrap(), item_path(#[trigger] items[i])) by {
            if i < em.len() {
                assert(items[i] == em[i]);
                assert(below(stack[stack.len() - 1].0.unwrap(), item_path(items[i])));
            } else {
                assert(items[i] == rest[i - em.len()]);
            }
        }
        // No two paths are the same.
        assert forall|i: int, j: int| 0 <= i < j < items.len() implies item_path(#[trigger] items[i])
            != item_path(#[trigger] items[j]) by {
            if j < em.len() {
                assert(items[i] == em[i] && items[j] == em[j]);
                lemma_item_paths(acts, i);
                lemma_item_paths(acts, j);
            } else if i >= em.len() {
                assert(items[i] == rest[i - em.len()] && items[j] == rest[j - em.len()]);
            } else {
                assert(items[i] == em[i]);
                assert(items[j] == rest[j - em.len()]);
                let e = item_path(em[i]);
                lemma_item_paths(acts, i);
                let n = name_below(f.0, ep[i]);
                let x = item_path(rest[j - em.len()]);
                let k = choose|k: int| 0 <= k < rest_stack.len() && below(rest_stack[k].0.unwrap(), x);
                let n0 = stack.len() - 1;
                if e == x {
                    if k < n0 {
                        assert(rest_stack[k] == stack[k]);
                        assert(apart(stack[k].0.unwrap(), stack[n0].0.unwrap()));
                        lemma_below_child_inv(stack[k].0.unwrap(), p, n);
                    } else {
                        assert(rest_stack[k] == fs[k - n0]);
                        lemma_descend_paths(acts, k - n0);
                        let m = name_below(f.0, dp[k - n0]);
                        lemma_below_child_inv(rest_stack[k].0.unwrap(), p, n);
                    }
                }
            }
        }
    }
}

/// Comparing two trees whose entries, and those of every tree below them,
/// have distinct plain names reports every path at most once, over the
/// whole comparison: the walk, given the trees it asks for from `store`,
/// never reports two differences at the same path.
pub proof fn law_walk_reports_each_path_once(store: TreeStore, ls: Seq<TreeEntryView>, rs: Seq<TreeEntryView>, fuel: nat)
    requires
        store_plain(store),
        plain_entries(ls),
        plain_entries(rs),
        walk_run(store, seq![(None::<Seq<u8>>, Some(ls), Some(rs))], fuel) is Some,
    ensures
        paths_distinct(walk_run(store, seq![(None::<Seq<u8>>, Some(ls), Some(rs))], fuel).unwrap()),
{
    let top: FrameView = (None::<Seq<u8>>, Some(ls), Some(rs));
    let stack = seq![top];
    let acts = frame_actions(top);
    let ds = descends(acts);
    let fs = load_frames(store, ds).unwrap();
    assert(stack.drop_last().add(fs) =~= fs);
    lemma_level_facts(None, top, false);
    lemma_level_facts(None, top, true);
    lemma_load_frames(store, ds);
    let dp = acts_paths(acts, true);
    let ep = acts_paths(acts, false);
    assert forall|j: int, k: int| 0 <= j < k < fs.len() implies apart(
        (#[trigger] fs[j]).0.unwrap(),
        (#[trigger] fs[k]).0.unwrap(),
    ) by {
        lemma_descend_paths(acts, j);
        lemma_descend_paths(acts, k);
        assert(dp[j] != dp[k]);
        lemma_plain_not_below(dp[j], dp[k]);
        lemma_plain_not_below(dp[k], dp[j]);
    }
    lemma_walk_below(store, fs, (fuel - 1) as nat);
    let em = emits(acts);
    let rest = walk_run(store, fs, (fuel - 1) as nat).unwrap();
    let items = walk_run(store, stack, fuel).unwrap();
    assert(items == em.add(rest));
    assert forall|i: int, j: int| 0 <= i < j < items.len() implies item_path(#[trigger] items[i])
        != item_path(#[trigger] items[j]) by {
        if j < em.len() {
            assert(items[i] == em[i] && items[j] == em[j]);
            lemma_item_paths(acts, i);
            lemma_item_paths(acts, j);
        } else if i >= em.len() {
            assert(items[i] == rest[i - em.len()] && items[j] == rest[j - em.len()]);
        } else {
            assert(items[i] == em[i]);
            assert(items[j] == rest[j - em.len()]);
            lemma_item_paths(acts, i);
            let x = item_path(rest[j - em.len()]);
            let k = choose|k: int| 0 <= k < fs.len() && below(fs[k].0.unwrap(), x);
            lemma_plain_not_below(fs[k].0.unwrap(), ep[i]);
        }
    }
}

/// The directory compared with its sides swapped.
pub open spec fn mirror_frame(f: FrameView) -> FrameView {
    (f.0, f.2, f.1)
}

/// The subdirectory `d` asks to compare, with its trees from the store, if
/// the store has them.
pub open spec fn load_child(store: TreeStore, d: (Seq<u8>, Option<Seq<u8>>, Option<Seq<u8>>)) -> Option<FrameView> {
    match (load_tree(store, d.1), load_tree(store, d.2)) {
        (Some(l), Some(r)) => Some((Some(d.0), l, r)),
        _ => None,
    }
}

/// Comparing the directory `f` reports `i`, at its own level or, within `n`
/// levels below, in a subdirectory whose trees the store has.
pub open spec fn reports(store: TreeStore, f: FrameView, i: DiffItem, n: nat) -> bool
    decreases n,
{
    ||| emits(frame_actions(f)).contains(i)
    ||| n > 0 && exists|k: int|
        0 <= k < descends(frame_actions(f)).len() && match load_child(
            store,
            #[trigger] descends(frame_actions(f))[k],
        ) {
            Some(c) => reports(store, c, i, (n - 1) as nat),
            None => false,
        }
}

/// No entry of `es` is a subdirectory.
pub open spec fn no_subdirectories(es: Seq<TreeEntryView>) -> bool {
    forall|k: int| 0 <= k < es.len() ==> (#[trigger] es[k]).entry_type != TreeEntryType::Tree
}

/// Within `n` levels of the directory `f`: no side has two entries of the
/// same name, and a directory present on one side only has no
/// subdirectories.
pub open spec fn sides_flat(store: TreeStore, f: FrameView, n: nat) -> bool
    decreases n,
{
    &&& f.1 matches Some(ls) ==> names_unique(ls)
    &&& f.2 matches Some(rs) ==> names_unique(rs)
    &&& f.2 is None ==> (f.1 matches Some(ls) ==> no_subdirectories(ls))
    &&& f.1 is None ==> (f.2 matches Some(rs) ==> no_subdirectories(rs))
    &&& n > 0 ==> forall|k: int|
        0 <= k < descends(frame_actions(f)).len() ==> match load_child(
            store,
            #[trigger] descends(frame_actions(f))[k],
        ) {
            Some(c) => sides_flat(store, c, (n - 1) as nat),
            None => true,
        }
}

proof fn lemma_emits_member(acts: Seq<DiffAction>, x: DiffItem)
    ensures
        emits(acts).contains(x) <==> acts.contains(DiffAction::Emit(x)),
    decreases acts.len(),
{
    if acts.len() > 0 {
        lemma_emits_member(acts.drop_last(), x);
        if acts.drop_last().contains(DiffAction::Emit(x)) {
            let k = choose|k: int| 0 <= k < acts.drop_last().len() && acts.drop_last()[k] == DiffAction::Emit(x);
            assert(acts[k] == DiffAction::Emit(x));
        }
        if acts.contains(DiffAction::Emit(x)) {
            let k = choose|k: int| 0 <= k < acts.len() && acts[k] == DiffAction::Emit(x);
            if k < acts.len() - 1 {
                assert(acts.drop_last()[k] == DiffAction::Emit(x));
            }
        }
        let rest = emits(acts.drop_last());
        if let DiffAction::Emit(y) = acts.last() {
            if rest.push(y).contains(x) {
                let k = choose|k: int| 0 <= k < rest.push(y).len() && rest.push(y)[k] == x;
                if k < rest.len() {
                    assert(rest[k] == x);
                }
            }
            if rest.contains(x) {
                let k = choose|k: int| 0 <= k < rest.len() && rest[k] == x;
                assert(rest.push(y)[k] == x);
            }
            if y == x {
                assert(rest.push(y)[rest.len() as int] == x);
            }
        }
    }
}

proof fn lemma_descends_member(acts: Seq<DiffAction>, d: (Seq<u8>, Option<Seq<u8>>, Option<Seq<u8>>))
    ensures
        descends(acts).contains(d) <==> acts.contains(DiffAction::Descend(d.0, d.1, d.2)),
    decreases acts.len(),
{
    let a = DiffAction::Descend(d.0, d.1, d.2);
    if acts.len() > 0 {
        lemma_descends_member(acts.drop_last(), d);
        if acts.drop_last().contains(a) {
            let k = choose|k: int| 0 <= k < acts.drop_last().len() && acts.drop_last()[k] == a;
            assert(acts[k] == a);
        }
        if acts.contains(a) {
            let k = choose|k: int| 0 <= k < acts.len() && acts[k] == a;
            if k < acts.len() - 1 {
                assert(acts.drop_last()[k] == a);
            }
        }
        let rest = descends(acts.drop_last());
        if let DiffAction::Descend(p, l, r) = acts.last() {
            let y = (p, l, r);
            if rest.push(y).contains(d) {
                let k = choose|k: int| 0 <= k < rest.push(y).len() && rest.push(y)[k] == d;
                if k < rest.len() {
                    assert(rest[k] == d);
                }
            }
            if rest.contains(d) {
                let k = choose|k: int| 0 <= k < rest.len() && rest[k] == d;
                assert(rest.push(y)[k] == d);
            }
            if y == d {
                assert(rest.push(y)[rest.len() as int] == d);
            }
        }
    }
}

proof fn lemma_reports_more_fuel(store: TreeStore, f: FrameView, i: DiffItem, n: nat)
    requires
        reports(store, f, i, n),
    ensures
        reports(store, f, i, n + 1),
    decreases n,
{
    if !emits(frame_actions(f)).contains(i) {
        let ds = descends(frame_actions(f));
        let k = choose|k: int|
            0 <= k < ds.len() && match load_child(store, #[trigger] ds[k]) {
                Some(c) => reports(store, c, i, (n - 1) as nat),
                None => false,
            };
        let c = load_child(store, ds[k]).unwrap();
        lemma_reports_more_fuel(store, c, i, (n - 1) as nat);
        assert(match load_child(store, ds[k]) {
            Some(c) => reports(store, c, i, n),
            None => false,
        });
    }
}

proof fn lemma_reports_fuel(store: TreeStore, f: FrameView, i: DiffItem, n: nat, m: nat)
    requires
        reports(store, f, i, n),
        n <= m,
    ensures
        reports(store, f, i, m),
    decreases m - n,
{
    if n < m {
        lemma_reports_more_fuel(store, f, i, n);
        lemma_reports_fuel(store, f, i, n + 1, m);
    }
}

proof fn lemma_load_frames_at(store: TreeStore, ds: Seq<(Seq<u8>, Option<Seq<u8>>, Option<Seq<u8>>)>)
    requires
        load_frames(store, ds) is Some,
    ensures
        load_frames(store, ds).unwrap().len() == ds.len(),
        forall|k: int|
            0 <= k < ds.len() ==> load_child(store, #[trigger] ds[k]) == Some(load_frames(store, ds).unwrap()[k]),
    decreases ds.len(),
{
    if ds.len() > 0 {
        lemma_load_frames_at(store, ds.drop_last());
        let fs = load_frames(store, ds.drop_last()).unwrap();
        assert forall|k: int| 0 <= k < ds.len() implies load_child(store, #[trigger] ds[k]) == Some(
            load_frames(store, ds).unwrap()[k],
        ) by {
            if k < ds.len() - 1 {
                assert(ds.drop_last()[k] == ds[k]);
            }
        }
    }
}

proof fn lemma_run_reported(store: TreeStore, stack: Seq<FrameView>, fuel: nat, i: DiffItem)
    requires
        walk_run(store, stack, fuel) matches Some(items) && items.contains(i),
    ensures
        exists|k: int| 0 <= k < stack.len() && reports(store, #[trigger] stack[k], i, fuel),
    decreases fuel,
{
    let items = walk_run(store, stack, fuel).unwrap();
    let f = stack.last();
    let acts = frame_actions(f);
    let ds = descends(acts);
    let fs = load_frames(store, ds).unwrap();
    let n0 = stack.len() - 1;
    let rest_stack = stack.drop_last().add(fs);
    let em = emits(acts);
    let rest = walk_run(store, rest_stack, (fuel - 1) as nat).unwrap();
    assert(items == em.add(rest));
    let j = choose|j: int| 0 <= j < items.len() && items[j] == i;
    if j < em.len() {
        assert(em[j] == i);
        assert(em.contains(i));
        assert(reports(store, stack[n0], i, fuel));
    } else {
        assert(rest[j - em.len()] == i);
        assert(rest.contains(i));
        lemma_run_reported(store, rest_stack, (fuel - 1) as nat, i);
        let k = choose|k: int| 0 <= k < rest_stack.len() && reports(store, #[trigger] rest_stack[k], i, (fuel - 1) as nat);
        if k < n0 {
            assert(rest_stack[k] == stack[k]);
            lemma_reports_more_fuel(store, stack[k], i, (fuel - 1) as nat);
        } else {
            lemma_load_frames_at(store, ds);
            assert(rest_stack[k] == fs[k - n0]);
            assert(load_child(store, ds[k - n0]) == Some(fs[k - n0]));
            assert(reports(store, stack[n0], i, fuel));
        }
    }
}

proof fn lemma_reported_run(store: TreeStore, stack: Seq<FrameView>, fuel: nat, k: int, i: DiffItem, n: nat)
    requires
        walk_run(store, stack, fuel) is Some,
        0 <= k < stack.len(),
        reports(store, stack[k], i, n),
    ensures
        walk_run(store, stack, fuel).unwrap().contains(i),
    decreases fuel,
{
    let items = walk_run(store, stack, fuel).unwrap();
    let f = stack.last();
    let acts = frame_actions(f);
    let ds = descends(acts);
    let fs = load_frames(store, ds).unwrap();
    let n0 = stack.len() - 1;
    let rest_stack = stack.drop_last().add(fs);
    let em = emits(acts);
    let rest = walk_run(store, rest_stack, (fuel - 1) as nat).unwrap();
    assert(items == em.add(rest));
    if k < n0 {
        assert(rest_stack[k] == stack[k]);
        lemma_reported_run(store, rest_stack, (fuel - 1) as nat, k, i, n);
        let j = choose|j: int| 0 <= j < rest.len() && rest[j] == i;
        assert(items[em.len() + j] == i);
    } else if em.contains(i) {
        let j = choose|j: int| 0 <= j < em.len() && em[j] == i;
        assert(items[j] == i);
    } else {
        let j = choose|j: int|
            0 <= j < ds.len() && match load_child(store, #[trigger] ds[j]) {
                Some(c) => reports(store, c, i, (n - 1) as nat),
                None => false,
            };
        lemma_load_frames_at(store, ds);
        assert(rest_stack[n0 + j] == fs[j]);
        lemma_reported_run(store, rest_stack, (fuel - 1) as nat, n0 + j, i, (n - 1) as nat);
        let m = choose|m: int| 0 <= m < rest.len() && rest[m] == i;
        assert(items[em.len() + m] == i);
    }
}

proof fn lemma_one_side_mirror(parent: Option<Seq<u8>>, es: Seq<TreeEntryView>)
    requires
        no_subdirectories(es),
    ensures
        one_side_actions(parent, es, true).map_values(|a: DiffAction| mirror_action(a)) == one_side_actions(
            parent,
            es,
            false,
        ),
        one_side_actions(parent, es, false).map_values(|a: DiffAction| mirror_action(a)) == one_side_actions(
            parent,
            es,
            true,
        ),
        forall|k: int|
            0 <= k < one_side_actions(parent, es, true).len() ==> (#[trigger] one_side_actions(
                parent,
                es,
                true,
            )[k]) is Emit,
        forall|k: int|
            0 <= k < one_side_actions(parent, es, false).len() ==> (#[trigger] one_side_actions(
                parent,
                es,
                false,
            )[k]) is Emit,
    decreases es.len(),
{
    if es.len() > 0 {
        let e = es.last();
        assert(no_subdirectories(es.drop_last())) by {
            assert forall|k: int| 0 <= k < es.drop_last().len() implies (#[trigger] es.drop_last()[k]).entry_type
                != TreeEntryType::Tree by {
                assert(es.drop_last()[k] == es[k]);
            }
        }
        assert(es[es.len() - 1].entry_type != TreeEntryType::Tree);
        lemma_one_side_mirror(parent, es.drop_last());
        let l0 = one_side_actions(parent, es.drop_last(), true);
        let r0 = one_side_actions(parent, es.drop_last(), false);
        let l = one_side_actions(parent, es, true);
        let r = one_side_actions(parent, es, false);
        assert(l == l0.add(lone_left_action(parent, e)));
        assert(r == r0.add(right_only_action(parent, e)));
        assert(l.map_values(|a: DiffAction| mirror_action(a)) =~= r);
        assert(r.map_values(|a: DiffAction| mirror_action(a)) =~= l);
        assert forall|k: int| 0 <= k < l.len() implies (#[trigger] l[k]) is Emit by {
            if k < l0.len() {
                assert(l[k] == l0[k]);
            }
        }
        assert forall|k: int| 0 <= k < r.len() implies (#[trigger] r[k]) is Emit by {
            if k < r0.len() {
                assert(r[k] == r0[k]);
            }
        }
    }
}

proof fn lemma_mirror_actions(f: FrameView, a: DiffAction)
    requires
        f.1 matches Some(ls) ==> names_unique(ls),
        f.2 matches Some(rs) ==> names_unique(rs),
        f.2 is None ==> (f.1 matches Some(ls) ==> no_subdirectories(ls)),
        f.1 is None ==> (f.2 matches Some(rs) ==> no_subdirectories(rs)),
        frame_actions(f).contains(a),
    ensures
        frame_actions(mirror_frame(f)).contains(mirror_action(a)),
        (f.1 is None || f.2 is None) ==> a is Emit,
{
    let acts = frame_actions(f);
    let k = choose|k: int| 0 <= k < acts.len() && acts[k] == a;
    match (f.1, f.2) {
        (Some(ls), Some(rs)) => {
            law_mirror_directory(f.0, ls, rs, k);
        },
        (Some(ls), None) => {
            lemma_one_side_mirror(f.0, ls);
            let m = acts.map_values(|x: DiffAction| mirror_action(x));
            assert(m[k] == mirror_action(a));
        },
        (None, Some(rs)) => {
            lemma_one_side_mirror(f.0, rs);
            let m = acts.map_values(|x: DiffAction| mirror_action(x));
            assert(m[k] == mirror_action(a));
        },
        (None, None) => {},
    }
}

proof fn lemma_mirror_reports(store: TreeStore, f: FrameView, i: DiffItem, n: nat)
    requires
        sides_flat(store, f, n),
        reports(store, f, i, n),
    ensures
        reports(store, mirror_frame(f), mirror_item(i), n),
    decreases n,
{
    let acts = frame_actions(f);
    let acts2 = frame_actions(mirror_frame(f));
    if emits(acts).contains(i) {
        lemma_emits_member(acts, i);
        lemma_mirror_actions(f, DiffAction::Emit(i));
        lemma_emits_member(acts2, mirror_item(i));
    } else {
        let ds = descends(acts);
        let k = choose|k: int|
            0 <= k < ds.len() && match load_child(store, #[trigger] ds[k]) {
                Some(c) => reports(store, c, i, (n - 1) as nat),
                None => false,
            };
        let d = ds[k];
        let c = load_child(store, d).unwrap();
        assert(ds.contains(d));
        lemma_descends_member(acts, d);
        lemma_mirror_actions(f, DiffAction::Descend(d.0, d.1, d.2));
        let d2 = (d.0, d.2, d.1);
        lemma_descends_member(acts2, d2);
        let ds2 = descends(acts2);
        let k2 = choose|k2: int| 0 <= k2 < ds2.len() && ds2[k2] == d2;
        assert(load_child(store, d2) == Some(mirror_frame(c)));
        assert(sides_flat(store, c, (n - 1) as nat));
        lemma_mirror_reports(store, c, i, (n - 1) as nat);
        assert(match load_child(store, ds2[k2]) {
            Some(c2) => reports(store, c2, mirror_item(i), (n - 1) as nat),
            None => false,
        });
    }
}

/// Comparing two trees the other way round finds the same differences seen
/// from the other side, over the whole comparison: every difference that
/// comparing `ls` with `rs` reports is reported, mirrored, when comparing
/// `rs` with `ls`, and the other way. This holds where no side has two
/// entries of the same name and no directory present on one side only has
/// subdirectories; below such a directory the walk descends into the
/// subdirectories as if they were on the right, whichever side has them.
pub proof fn law_walk_mirror(store: TreeStore, ls: Seq<TreeEntryView>, rs: Seq<TreeEntryView>, fuel1: nat, fuel2: nat)
    requires
        sides_flat(store, (None::<Seq<u8>>, Some(ls), Some(rs)), fuel1),
        sides_flat(store, (None::<Seq<u8>>, Some(rs), Some(ls)), fuel2),
        walk_run(store, seq![(None::<Seq<u8>>, Some(ls), Some(rs))], fuel1) is Some,
        walk_run(store, seq![(None::<Seq<u8>>, Some(rs), Some(ls))], fuel2) is Some,
    ensures
        forall|i: DiffItem|
            walk_run(store, seq![(None::<Seq<u8>>, Some(ls), Some(rs))], fuel1).unwrap().contains(i)
                ==> walk_run(store, seq![(None::<Seq<u8>>, Some(rs), Some(ls))], fuel2).unwrap().contains(
                mirror_item(i),
            ),
        forall|i: DiffItem|
            walk_run(store, seq![(None::<Seq<u8>>, Some(rs), Some(ls))], fuel2).unwrap().contains(i)
                ==> walk_run(store, seq![(None::<Seq<u8>>, Some(ls), Some(rs))], fuel1).unwrap().contains(
                mirror_item(i),
            ),
{
    let f1: FrameView = (None::<Seq<u8>>, Some(ls), Some(rs));
    let f2: FrameView = (None::<Seq<u8>>, Some(rs), Some(ls));
    let s1 = seq![f1];
    let s2 = seq![f2];
    assert(mirror_frame(f1) == f2 && mirror_frame(f2) == f1);
    assert forall|i: DiffItem| walk_run(store, s1, fuel1).unwrap().contains(i) implies walk_run(
        store,
        s2,
        fuel2,
    ).unwrap().contains(mirror_item(i)) by {
        lemma_run_reported(store, s1, fuel1, i);
        let k = choose|k: int| 0 <= k < s1.len() && reports(store, #[trigger] s1[k], i, fuel1);
        lemma_mirror_reports(store, f1, i, fuel1);
        lemma_reported_run(store, s2, fuel2, 0, mirror_item(i), fuel1);
    }
    assert forall|i: DiffItem| walk_run(store, s2, fuel2).unwrap().contains(i) implies walk_run(
        store,
        s1,
        fuel1,
    ).unwrap().contains(mirror_item(i)) by {
        lemma_run_reported(store, s2, fuel2, i);
        let k = choose|k: int| 0 <= k < s2.len() && reports(store, #[trigger] s2[k], i, fuel2);
        lemma_mirror_reports(store, f2, i, fuel2);
        lemma_reported_run(store, s1, fuel1, 0, mirror_item(i), fuel2);
    }
}

} // verus!
