use git_future::text_diff::{resolve_with, Diff};
use similar::{ChangeTag, TextDiffConfig};
use git_future::diff::{diff_level, join, leaf_sides, leaf_source, DiffEntry, LeafSource, Path, TreeDiffWalk};
use git_future::object::tree::{Tree, TreeEntryType};
use git_future::object_id::ObjectId;
use git_future::traits::Noop;

fn oid(s: &str) -> ObjectId {
    ObjectId::from_hex(s.as_bytes()).unwrap()
}

const EMPTY: &str = "e69de29bb2d1d6434b8b29ae775ad8c2e48c5391";
const OTHER: &str = "7c0646bfd53c1f0ed45ffd81563f30017717ca58";

fn tree(id: &str, entries: &[(&str, &str, &str)]) -> Tree<Noop> {
    let mut data = Vec::new();
    for (mode, name, eid) in entries {
        data.extend_from_slice(mode.as_bytes());
        data.push(b' ');
        data.extend_from_slice(name.as_bytes());
        data.push(0);
        data.extend_from_slice(oid(eid).id());
    }
    Tree::parse(oid(id), &data, None).unwrap()
}

fn walk(left: &Tree<Noop>, right: &Tree<Noop>, lookup: &dyn Fn(ObjectId) -> Tree<Noop>) -> Vec<DiffEntry<(ObjectId, ObjectId)>> {
    let mut w = TreeDiffWalk::new(left, right);
    while let Some(requests) = w.step() {
        for r in requests {
            w.push(r.path, r.left.map(lookup), r.right.map(lookup));
        }
    }
    w.finish().entries().to_vec()
}

#[test]
fn same_tree_has_no_difference() {
    let t = tree("1111111111111111111111111111111111111111", &[("100644", "a", EMPTY)]);
    let entries = walk(&t, &t, &|_| panic!());
    assert!(entries.is_empty());
}

#[test]
fn root_level_differences_and_their_mirror() {
    let before = tree("1111111111111111111111111111111111111111", &[("100644", "a", EMPTY)]);
    let after = tree(
        "2222222222222222222222222222222222222222",
        &[("100644", "a", OTHER), ("100644", "b", "dfa37ec69ffae3abcf7efbb386226cb84b510fa8")],
    );
    let forward = walk(&before, &after, &|_| panic!());
    assert_eq!(
        forward,
        vec![
            DiffEntry::RightOnly {
                path: Path::new(b"b".to_vec()),
                entry_type: TreeEntryType::File,
                content: (ObjectId::zero(), oid("dfa37ec69ffae3abcf7efbb386226cb84b510fa8")),
            },
            DiffEntry::Both {
                path: Path::new(b"a".to_vec()),
                left_type: TreeEntryType::File,
                right_type: TreeEntryType::File,
                content: (oid(EMPTY), oid(OTHER)),
            },
        ]
    );
    let backward = walk(&after, &before, &|_| panic!());
    assert_eq!(
        backward,
        vec![
            DiffEntry::LeftOnly {
                path: Path::new(b"b".to_vec()),
                entry_type: TreeEntryType::File,
                content: (oid("dfa37ec69ffae3abcf7efbb386226cb84b510fa8"), ObjectId::zero()),
            },
            DiffEntry::Both {
                path: Path::new(b"a".to_vec()),
                left_type: TreeEntryType::File,
                right_type: TreeEntryType::File,
                content: (oid(OTHER), oid(EMPTY)),
            },
        ]
    );
}

#[test]
fn file_replaced_by_directory() {
    let before = tree("1111111111111111111111111111111111111111", &[("100644", "a", EMPTY)]);
    let sub = tree("3333333333333333333333333333333333333333", &[("100644", "b", EMPTY)]);
    let after = tree(
        "2222222222222222222222222222222222222222",
        &[("40000", "a", "3333333333333333333333333333333333333333")],
    );
    let lookup = |id: ObjectId| {
        assert_eq!(id, oid("3333333333333333333333333333333333333333"));
        tree("3333333333333333333333333333333333333333", &[("100644", "b", EMPTY)])
    };
    let _ = sub;
    let forward = walk(&before, &after, &lookup);
    assert_eq!(
        forward,
        vec![
            DiffEntry::LeftOnly {
                path: Path::new(b"a".to_vec()),
                entry_type: TreeEntryType::File,
                content: (oid(EMPTY), ObjectId::zero()),
            },
            DiffEntry::RightOnly {
                path: Path::new(b"a/b".to_vec()),
                entry_type: TreeEntryType::File,
                content: (ObjectId::zero(), oid(EMPTY)),
            },
        ]
    );
}

#[test]
fn one_level_with_subdirectories() {
    let left = tree("1111111111111111111111111111111111111111", &[("40000", "d", "4444444444444444444444444444444444444444")]);
    let right = tree("2222222222222222222222222222222222222222", &[("40000", "d", "5555555555555555555555555555555555555555")]);
    let parent = Path::new(b"top".to_vec());
    let (outs, descs) = diff_level(Some(&parent), Some(&left), Some(&right));
    assert!(outs.is_empty());
    assert_eq!(descs.len(), 1);
    assert_eq!(descs[0].path, Path::new(b"top/d".to_vec()));
    assert_eq!(descs[0].left, Some(oid("4444444444444444444444444444444444444444")));
    assert_eq!(descs[0].right, Some(oid("5555555555555555555555555555555555555555")));
}

#[test]
fn paths_join_with_slashes() {
    assert_eq!(join(None, b"a"), Path::new(b"a".to_vec()));
    let p = Path::new(b"a/b".to_vec());
    assert_eq!(join(Some(&p), b"c").as_bytes(), b"a/b/c");
}

#[test]
fn content_mapping() {
    let e = DiffEntry::Both {
        path: Path::new(b"x".to_vec()),
        left_type: TreeEntryType::File,
        right_type: TreeEntryType::Symlink,
        content: (1u32, 2u32),
    };
    let m = e.map_content(|c| c.0 + c.1);
    assert_eq!(
        m,
        DiffEntry::Both {
            path: Path::new(b"x".to_vec()),
            left_type: TreeEntryType::File,
            right_type: TreeEntryType::Symlink,
            content: 3u32,
        }
    );
    let r: Result<DiffEntry<u32>, &str> = e.map_content_res(|_| Err("no"));
    assert_eq!(r, Err("no"));
    let r: Result<DiffEntry<u32>, &str> = e.map_content_res(|c| Ok(c.1));
    assert!(matches!(r, Ok(DiffEntry::Both { content: 2, .. })));
}

#[test]
fn leaves_of_a_text_diff() {
    let id = oid(OTHER);
    assert_eq!(leaf_source(TreeEntryType::Commit, id), LeafSource::Text(OTHER.as_bytes().to_vec()));
    assert_eq!(leaf_source(TreeEntryType::File, id), LeafSource::Blob(id));
    let e = DiffEntry::RightOnly {
        path: Path::new(b"x".to_vec()),
        entry_type: TreeEntryType::File,
        content: (ObjectId::zero(), id),
    };
    assert_eq!(leaf_sides(&e), (None, Some((TreeEntryType::File, id))));
}

// Trees of a small repository: the root before and after, and subtrees.
const A_FILE: &str = "e69de29bb2d1d6434b8b29ae775ad8c2e48c5391";
const A_CHANGED: &str = "7c0646bfd53c1f0ed45ffd81563f30017717ca58";
const B_FILE: &str = "dfa37ec69ffae3abcf7efbb386226cb84b510fa8";

fn store() -> Vec<(&'static str, Vec<(&'static str, &'static str, &'static str)>)> {
    vec![
        ("1000000000000000000000000000000000000001", vec![("100644", "a", A_FILE)]),
        ("1000000000000000000000000000000000000002", vec![("100644", "a", A_CHANGED), ("100644", "b", B_FILE)]),
        ("2000000000000000000000000000000000000001", vec![("100644", "a", A_FILE)]),
        ("2000000000000000000000000000000000000002", vec![("100644", "a", A_CHANGED)]),
        ("3000000000000000000000000000000000000001", vec![("40000", "dir", "2000000000000000000000000000000000000001")]),
        ("3000000000000000000000000000000000000002", vec![("40000", "dir", "2000000000000000000000000000000000000002")]),
        ("4000000000000000000000000000000000000001", vec![("100644", "b", A_FILE)]),
        ("4000000000000000000000000000000000000002", vec![("100644", "c", A_FILE)]),
        (
            "4000000000000000000000000000000000000003",
            vec![
                ("40000", "a", "4000000000000000000000000000000000000001"),
                ("40000", "dir", "4000000000000000000000000000000000000002"),
            ],
        ),
    ]
}

fn load(id: ObjectId) -> Tree<Noop> {
    for (tid, entries) in store() {
        if oid(tid) == id {
            return tree(tid, &entries);
        }
    }
    panic!()
}

fn diff_set(left: &str, right: &str) -> std::collections::BTreeSet<DiffEntry<(ObjectId, ObjectId)>> {
    walk(&load(oid(left)), &load(oid(right)), &load).into_iter().collect()
}

#[test]
fn diff_same() {
    let t = load(oid("1000000000000000000000000000000000000001"));
    assert!(walk(&t, &t, &load).is_empty());
}

#[test]
fn basic_root_diff() {
    let before = "1000000000000000000000000000000000000001";
    let after = "1000000000000000000000000000000000000002";
    assert_eq!(
        diff_set(before, after),
        vec![
            DiffEntry::Both {
                path: Path::new(b"a".to_vec()),
                left_type: TreeEntryType::File,
                right_type: TreeEntryType::File,
                content: (oid(A_FILE), oid(A_CHANGED)),
            },
            DiffEntry::RightOnly {
                path: Path::new(b"b".to_vec()),
                entry_type: TreeEntryType::File,
                content: (ObjectId::zero(), oid(B_FILE)),
            },
        ]
        .into_iter()
        .collect()
    );
    assert_eq!(
        diff_set(after, before),
        vec![
            DiffEntry::Both {
                path: Path::new(b"a".to_vec()),
                left_type: TreeEntryType::File,
                right_type: TreeEntryType::File,
                content: (oid(A_CHANGED), oid(A_FILE)),
            },
            DiffEntry::LeftOnly {
                path: Path::new(b"b".to_vec()),
                entry_type: TreeEntryType::File,
                content: (oid(B_FILE), ObjectId::zero()),
            },
        ]
        .into_iter()
        .collect()
    );
}

#[test]
fn basic_subtree_diff() {
    let before = "3000000000000000000000000000000000000001";
    let after = "3000000000000000000000000000000000000002";
    assert_eq!(
        diff_set(before, after),
        vec![DiffEntry::Both {
            path: Path::new(b"dir/a".to_vec()),
            left_type: TreeEntryType::File,
            right_type: TreeEntryType::File,
            content: (oid(A_FILE), oid(A_CHANGED)),
        }]
        .into_iter()
        .collect()
    );
    assert_eq!(
        diff_set(after, before),
        vec![DiffEntry::Both {
            path: Path::new(b"dir/a".to_vec()),
            left_type: TreeEntryType::File,
            right_type: TreeEntryType::File,
            content: (oid(A_CHANGED), oid(A_FILE)),
        }]
        .into_iter()
        .collect()
    );
}

#[test]
fn complex_subtree_diff() {
    let before = "1000000000000000000000000000000000000001";
    let after = "4000000000000000000000000000000000000003";
    assert_eq!(
        diff_set(before, after),
        vec![
            DiffEntry::RightOnly {
                path: Path::new(b"a/b".to_vec()),
                entry_type: TreeEntryType::File,
                content: (ObjectId::zero(), oid(A_FILE)),
            },
            DiffEntry::LeftOnly {
                path: Path::new(b"a".to_vec()),
                entry_type: TreeEntryType::File,
                content: (oid(A_FILE), ObjectId::zero()),
            },
            DiffEntry::RightOnly {
                path: Path::new(b"dir/c".to_vec()),
                entry_type: TreeEntryType::File,
                content: (ObjectId::zero(), oid(A_FILE)),
            },
        ]
        .into_iter()
        .collect()
    );
    assert_eq!(
        diff_set(after, before),
        vec![
            DiffEntry::LeftOnly {
                path: Path::new(b"a/b".to_vec()),
                entry_type: TreeEntryType::File,
                content: (oid(A_FILE), ObjectId::zero()),
            },
            DiffEntry::RightOnly {
                path: Path::new(b"a".to_vec()),
                entry_type: TreeEntryType::File,
                content: (ObjectId::zero(), oid(A_FILE)),
            },
            DiffEntry::LeftOnly {
                path: Path::new(b"dir/c".to_vec()),
                entry_type: TreeEntryType::File,
                content: (oid(A_FILE), ObjectId::zero()),
            },
        ]
        .into_iter()
        .collect()
    );
}

#[test]
fn line_diffs_keep_the_difference_and_compare_its_sides() {
    let e = DiffEntry::Both {
        path: Path::new(b"dir/file".to_vec()),
        left_type: TreeEntryType::File,
        right_type: TreeEntryType::File,
        content: (oid(EMPTY), oid(OTHER)),
    };
    let config = TextDiffConfig::default();
    let r = resolve_with(&e, &config, b"a\nb\n".to_vec(), b"a\nc\n".to_vec());
    let DiffEntry::Both { path, left_type, right_type, content } = &r else { panic!() };
    assert_eq!(path.as_bytes(), b"dir/file");
    assert_eq!((*left_type, *right_type), (TreeEntryType::File, TreeEntryType::File));
    let changes: Vec<(ChangeTag, Vec<u8>)> =
        content.diff.text.iter_all_changes().map(|c| (c.tag(), c.value().to_vec())).collect();
    assert_eq!(
        changes,
        vec![
            (ChangeTag::Equal, b"a\n".to_vec()),
            (ChangeTag::Delete, b"b\n".to_vec()),
            (ChangeTag::Insert, b"c\n".to_vec()),
        ]
    );
    let left_only = DiffEntry::LeftOnly { path: Path::new(b"gone".to_vec()), entry_type: TreeEntryType::File, content: (oid(EMPTY), ObjectId::zero()) };
    let d = Diff { entries: vec![resolve_with(&left_only, &config, b"x\n".to_vec(), Vec::new())] };
    let DiffEntry::LeftOnly { content, .. } = &d.entries()[0] else { panic!() };
    let tags: Vec<ChangeTag> = content.diff.text.iter_all_changes().map(|c| c.tag()).collect();
    assert_eq!(tags, vec![ChangeTag::Delete]);
}

#[test]
fn mapping_content_by_identity_and_by_composition() {
    let e = DiffEntry::RightOnly { path: Path::new(b"a/b".to_vec()), entry_type: TreeEntryType::Executable, content: 5u32 };
    assert_eq!(e.map_content(|c| *c), e.clone());
    let f = |c: &u32| c * 3;
    let g = |c: &u32| c + 1;
    assert_eq!(e.map_content(f).map_content(g), e.map_content(|c| g(&f(c))));
    let via_res: Result<DiffEntry<u32>, ()> = e.map_content_res(|c| Ok(f(c)));
    assert_eq!(via_res, Ok(e.map_content(f)));
}

#[test]
fn one_level_reports_each_path_once() {
    let left = tree(EMPTY, &[("100644", "a", EMPTY), ("100644", "b", EMPTY), ("40000", "c", EMPTY), ("100644", "e", OTHER)]);
    let right = tree(OTHER, &[("100644", "b", OTHER), ("100644", "c", OTHER), ("100644", "d", EMPTY), ("100644", "e", OTHER)]);
    let (outs, _) = diff_level(None, Some(&left), Some(&right));
    let mut paths: Vec<Vec<u8>> = outs
        .iter()
        .map(|e| match e {
            DiffEntry::LeftOnly { path, .. } | DiffEntry::Both { path, .. } | DiffEntry::RightOnly { path, .. } => {
                path.as_bytes().to_vec()
            }
        })
        .collect();
    assert_eq!(paths.len(), 4);
    paths.sort();
    paths.dedup();
    assert_eq!(paths, vec![b"a".to_vec(), b"b".to_vec(), b"c".to_vec(), b"d".to_vec()]);
}

#[test]
fn whole_walk_reports_each_path_once() {
    let ids = [
        "1000000000000000000000000000000000000001",
        "1000000000000000000000000000000000000002",
        "4000000000000000000000000000000000000003",
    ];
    for l in ids {
        for r in ids {
            let entries = walk(&load(oid(l)), &load(oid(r)), &load);
            let mut paths: Vec<Vec<u8>> = entries
                .iter()
                .map(|e| match e {
                    DiffEntry::LeftOnly { path, .. } | DiffEntry::Both { path, .. } | DiffEntry::RightOnly { path, .. } => {
                        path.as_bytes().to_vec()
                    }
                })
                .collect();
            let n = paths.len();
            paths.sort();
            paths.dedup();
            assert_eq!(paths.len(), n);
        }
    }
}
