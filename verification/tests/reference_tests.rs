use git_future::reference::ref_name_from_path;
use git_future::error::Error;
use git_future::object_id::ObjectId;
use git_future::reference::{collect_ref_names, read_packed_refs, Ref, RefName};

fn oid(s: &str) -> ObjectId {
    ObjectId::from_hex(s.as_bytes()).unwrap()
}

#[test]
fn parse_direct_ref() {
    let content = b"6121d0b97779278fcc32cc8a02754e7c588d9c18\n";
    let parsed = Ref::parse_loose_ref(content).unwrap();
    assert_eq!(parsed, Ref::Direct(oid("6121d0b97779278fcc32cc8a02754e7c588d9c18")));
}

#[test]
fn parse_symbolic_ref() {
    let content = b"ref: refs/heads/main\n";
    let parsed = Ref::parse_loose_ref(content).unwrap();
    assert_eq!(parsed, Ref::Symbolic(RefName::Branch(b"main".to_vec())));
}

#[test]
fn loose_ref_needs_exactly_one_line() {
    assert!(Ref::parse_loose_ref(b"6121d0b97779278fcc32cc8a02754e7c588d9c18").is_none());
    assert!(Ref::parse_loose_ref(b"6121d0b97779278fcc32cc8a02754e7c588d9c18\n\n").is_none());
    assert!(Ref::parse_loose_ref(b"ref: refs/heads/main\r\n").is_none());
    assert!(Ref::parse_loose_ref(b"ref: refs/other/main\n").is_none());
    assert_eq!(
        Ref::parse_loose_ref(b"ref: refs/remotes/origin/main\n"),
        Some(Ref::Symbolic(RefName::Remote(b"origin/main".to_vec())))
    );
    let name = RefName::Branch(b"x".to_vec());
    assert_eq!(Ref::from_loose(&name, b"junk\n"), Err(Error::MalformedRef(name.clone())));
}

const PACKED: &[u8] = b"# pack-refs with: peeled fully-peeled sorted
6121d0b97779278fcc32cc8a02754e7c588d9c18 refs/heads/main
78dc5b70bd81aa46ec7dfce87a69826e354a916b refs/tags/a-fat-tag
^6121d0b97779278fcc32cc8a02754e7c588d9c18
e69de29bb2d1d6434b8b29ae775ad8c2e48c5391 refs/tags/thin-tag
";

#[test]
fn packed_refs_are_read_in_order() {
    let refs = read_packed_refs(PACKED);
    assert_eq!(
        refs,
        vec![
            (oid("6121d0b97779278fcc32cc8a02754e7c588d9c18"), RefName::Branch(b"main".to_vec())),
            (oid("78dc5b70bd81aa46ec7dfce87a69826e354a916b"), RefName::Tag(b"a-fat-tag".to_vec())),
            (oid("e69de29bb2d1d6434b8b29ae775ad8c2e48c5391"), RefName::Tag(b"thin-tag".to_vec())),
        ]
    );
    assert_eq!(
        Ref::from_packed(&RefName::Tag(b"a-fat-tag".to_vec()), PACKED),
        Ok(Ref::Direct(oid("78dc5b70bd81aa46ec7dfce87a69826e354a916b")))
    );
    let missing = RefName::Branch(b"nope".to_vec());
    assert_eq!(Ref::from_packed(&missing, PACKED), Err(Error::RefNotFound(missing.clone())));
}

#[test]
fn packed_refs_keep_remotes_and_other_refs() {
    let data = b"# pack-refs with: peeled fully-peeled sorted\n6121d0b97779278fcc32cc8a02754e7c588d9c18 refs/heads/main\n78dc5b70bd81aa46ec7dfce87a69826e354a916b refs/remotes/origin/main\ne69de29bb2d1d6434b8b29ae775ad8c2e48c5391 refs/tags/v1\n^4b825dc642cb6eb9a060e54bf8d69288fbee4904\n4b825dc642cb6eb9a060e54bf8d69288fbee4904 refs/stash\n";
    assert_eq!(
        read_packed_refs(data),
        vec![
            (oid("6121d0b97779278fcc32cc8a02754e7c588d9c18"), RefName::Branch(b"main".to_vec())),
            (oid("78dc5b70bd81aa46ec7dfce87a69826e354a916b"), RefName::Remote(b"origin/main".to_vec())),
            (oid("e69de29bb2d1d6434b8b29ae775ad8c2e48c5391"), RefName::Tag(b"v1".to_vec())),
            (oid("4b825dc642cb6eb9a060e54bf8d69288fbee4904"), RefName::Other(b"stash".to_vec())),
        ]
    );
}

#[test]
fn packed_refs_stop_at_an_unreadable_line() {
    let data = b"6121d0b97779278fcc32cc8a02754e7c588d9c18 refs/heads/main\nnot a ref\n78dc5b70bd81aa46ec7dfce87a69826e354a916b refs/heads/x\n";
    assert_eq!(read_packed_refs(data).len(), 1);
}

#[test]
fn ref_file_paths() {
    let (dirs, file) = RefName::Branch(b"foo/a-branch".to_vec()).file_path();
    assert_eq!(dirs, vec![b"refs".to_vec(), b"heads".to_vec(), b"foo".to_vec()]);
    assert_eq!(file, b"a-branch".to_vec());
    let (dirs, file) = RefName::Head.file_path();
    assert!(dirs.is_empty());
    assert_eq!(file, b"HEAD".to_vec());
    let (dirs, file) = RefName::Other(b"stash".to_vec()).file_path();
    assert_eq!(dirs, vec![b"refs".to_vec()]);
    assert_eq!(file, b"stash".to_vec());
}

#[test]
fn ref_names_are_collected_once_each() {
    let packed = read_packed_refs(PACKED);
    let paths = vec![
        vec![b"heads".to_vec(), b"main".to_vec()],
        vec![b"heads".to_vec(), b"foo".to_vec(), b"a-branch".to_vec()],
        vec![b"remotes".to_vec(), b"origin".to_vec(), b"main".to_vec()],
        vec![b"stash".to_vec()],
    ];
    let names = collect_ref_names(&packed, &paths);
    assert_eq!(
        names,
        vec![
            RefName::Head,
            RefName::Branch(b"main".to_vec()),
            RefName::Tag(b"a-fat-tag".to_vec()),
            RefName::Tag(b"thin-tag".to_vec()),
            RefName::Branch(b"foo/a-branch".to_vec()),
            RefName::Remote(b"origin/main".to_vec()),
            RefName::Other(b"stash".to_vec()),
        ]
    );
}

#[test]
fn ref_targets() {
    let r = Ref::Symbolic(RefName::Head);
    assert_eq!(r.target(), Err(RefName::Head));
    let id = oid("6121d0b97779278fcc32cc8a02754e7c588d9c18");
    assert_eq!(Ref::Direct(id).target(), Ok(id));
}

#[test]
fn ref_found_by_path_lives_at_that_path() {
    let cases: Vec<Vec<Vec<u8>>> = vec![
        vec![b"heads".to_vec(), b"foo".to_vec(), b"a-branch".to_vec()],
        vec![b"tags".to_vec(), b"v1".to_vec()],
        vec![b"remotes".to_vec(), b"origin".to_vec(), b"main".to_vec()],
        vec![b"stash".to_vec()],
        vec![b"heads".to_vec()],
    ];
    for cs in cases {
        let name = ref_name_from_path(&cs);
        let (dirs, file) = name.file_path();
        let mut path = dirs;
        path.push(file);
        let mut expected = vec![b"refs".to_vec()];
        expected.extend(cs.iter().cloned());
        assert_eq!(path, expected);
    }
}

#[test]
fn read_head() {
    let head = Ref::from_loose(&RefName::Head, b"ref: refs/heads/main\n").unwrap();
    assert_eq!(head, Ref::Symbolic(RefName::Branch(b"main".to_vec())));
}

#[test]
fn read_refs() {
    let packed = read_packed_refs(
        b"# pack-refs with: peeled fully-peeled sorted
78dc5b70bd81aa46ec7dfce87a69826e354a916b refs/tags/a-fat-tag
^6121d0b97779278fcc32cc8a02754e7c588d9c18
",
    );
    let paths: Vec<Vec<Vec<u8>>> = [
        "stash",
        "heads/main",
        "heads/a-branch",
        "heads/foo/a-branch",
        "tags/thin-tag",
        "tags/bar/thin-tag",
        "tags/fat-tag",
        "remotes/origin/main",
    ]
    .iter()
    .map(|p| p.split('/').map(|c| c.as_bytes().to_vec()).collect())
    .collect();
    let refs: std::collections::BTreeSet<RefName> = collect_ref_names(&packed, &paths).into_iter().collect();
    let expected: std::collections::BTreeSet<RefName> = vec![
        RefName::Head,
        RefName::Other(b"stash".to_vec()),
        RefName::Branch(b"main".to_vec()),
        RefName::Branch(b"a-branch".to_vec()),
        RefName::Branch(b"foo/a-branch".to_vec()),
        RefName::Tag(b"thin-tag".to_vec()),
        RefName::Tag(b"bar/thin-tag".to_vec()),
        RefName::Tag(b"fat-tag".to_vec()),
        RefName::Tag(b"a-fat-tag".to_vec()),
        RefName::Remote(b"origin/main".to_vec()),
    ]
    .into_iter()
    .collect();
    assert_eq!(&refs, &expected);
}
