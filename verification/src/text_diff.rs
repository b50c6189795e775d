//! Line diffs of the content of the differences between two trees.
use vstd::prelude::*;

use crate::diff::DiffEntry;
use crate::object_id::ObjectId;
use similar::TextDiffConfig;

verus! {

/// How line diffs are computed (algorithm, deadline, whitespace handling).
#[verifier::external_type_specification]
#[verifier::external_body]
pub struct ExTextDiffConfig(TextDiffConfig);

/// The diff as `similar` keeps it: the lines of each side and the
/// operations that turn the old lines into the new ones. Its declaration
/// for verified code is refused (the type is bounded by a trait of
/// `similar`), so it is held in this opaque struct.
#[verifier::external_body]
pub struct TextDiffValue {
    pub text: similar::TextDiff<'static, 'static, [u8]>,
}

/// The line diff of two byte strings, with the texts it compares.
pub struct LineDiff {
    pub diff: TextDiffValue,
    old: Ghost<Seq<u8>>,
    new: Ghost<Seq<u8>>,
}

impl LineDiff {
    /// The text the diff starts from.
    pub closed spec fn old_text(&self) -> Seq<u8> {
        self.old@
    }

    /// The text the diff leads to.
    pub closed spec fn new_text(&self) -> Seq<u8> {
        self.new@
    }
}

/// The line diff of `old` against `new` (`TextDiffConfig::diff_lines`): it
/// compares exactly these two texts, in this direction. Where the
/// configuration has a deadline, which operations come out depends on the
/// time the computation takes, so nothing is stated of the operations.
#[verifier::external_body]
fn diff_lines(config: &TextDiffConfig, old: Vec<u8>, new: Vec<u8>) -> (r: LineDiff)
    ensures
        r.old_text() == old@,
        r.new_text() == new@,
{
    let (o, n) = (Ghost(old@), Ghost(new@));
    LineDiff { diff: TextDiffValue { text: config.diff_lines(old, new) }, old: o, new: n }
}

/// The same difference as `e`, carrying the line diff of `old` (the content
/// of its left side, empty when the left side lacks the path) against `new`
/// (the same of the right side).
pub fn resolve_with(
    e: &DiffEntry<(ObjectId, ObjectId)>,
    config: &TextDiffConfig,
    old: Vec<u8>,
    new: Vec<u8>,
) -> (r: DiffEntry<LineDiff>)
    ensures
        e.same_place(r),
        r.content_of().old_text() == old@,
        r.content_of().new_text() == new@,
{
    let content = diff_lines(config, old, new);
    match e {
        DiffEntry::LeftOnly { path, entry_type, .. } => DiffEntry::LeftOnly {
            path: path.clone_path(),
            entry_type: *entry_type,
            content,
        },
        DiffEntry::Both { path, left_type, right_type, .. } => DiffEntry::Both {
            path: path.clone_path(),
            left_type: *left_type,
            right_type: *right_type,
            content,
        },
        DiffEntry::RightOnly { path, entry_type, .. } => DiffEntry::RightOnly {
            path: path.clone_path(),
            entry_type: *entry_type,
            content,
        },
    }
}

/// The line diffs of the differences between two trees, in the order the
/// differences were found.
pub struct Diff {
    pub entries: Vec<DiffEntry<LineDiff>>,
}

impl Diff {
    /// The line diffs, in order.
    pub fn entries(&self) -> (r: &[DiffEntry<LineDiff>])
        ensures
            r@ == self.entries@,
    {
        self.entries.as_slice()
    }
}

} // verus!
