use git_future::object::header::parse_object_headers;
use chrono::DateTime;
use git_future::object::blob::Blob;
use git_future::object::commit::Commit;
use git_future::object::header::ObjectHeader;
use git_future::object::signature::{parse_signature, GitDate};
use git_future::object::tag::{Tag, TagType};
use git_future::object::tree::{Tree, TreeEntryType};
use git_future::object::{Object, Peel};
use git_future::object_id::ObjectId;
use git_future::object_store::{ObjectType, RawObject};
use git_future::parsing::ParseError;
use git_future::error::Error;
use git_future::traits::Noop;

fn oid(s: &str) -> ObjectId {
    ObjectId::from_hex(s.as_bytes()).unwrap()
}

fn date(s: &str) -> GitDate {
    let d = DateTime::parse_from_rfc3339(s).unwrap();
    GitDate { timestamp: d.timestamp(), offset_seconds: d.offset().local_minus_utc() }
}

fn parse_object(t: ObjectType, data: &[u8]) -> Object<Noop> {
    Object::from_raw(ObjectId::zero(), RawObject { object_type: t, body: data.to_vec() }, None).unwrap()
}

const ROOT_COMMIT: &[u8] = b"tree 3a4df67dd7fd7cb3ca82d9896dbdd28053d39bdb
author a-user <an-email-address> 1774735018 +0530
committer another-user <another-email-address> 1774735019 -0800

a commit
";

const NORMAL_COMMIT: &[u8] = b"tree 4b825dc642cb6eb9a060e54bf8d69288fbee4904
parent 16dafd3d0ba5af72f035d641c076a4150eda548d
author a-user <an-email-address> 1774739676 +0000
committer a-user <an-email-address> 1774739676 +0000

another commit
";

const MERGE_COMMIT: &[u8] = b"tree bfb6d701e108f3be27395bd60c3417b47ffbe7d9
parent f625376d12f2edc71cff70bb42d387ddf2408460
parent 6904799d30a34bfcf6ca6a3526fc8b771ed6705c
author a-user <an-email-address> 1774740069 +0000
committer a-user <an-email-address> 1774740069 +0000

Merge branch 'branch'
";

const HEADERS_COMMIT: &[u8] = b"tree bfb6d701e108f3be27395bd60c3417b47ffbe7d9
parent f625376d12f2edc71cff70bb42d387ddf2408460
author a-user <an-email-address> 1774740069 +0000
committer a-user <an-email-address> 1774740069 +0000
some-header a value
some-other-header a long line-wrapped
  value

the commit message
";

const COMMIT_TAG: &[u8] = b"object eedeffb6da16ddc3fb61b2255a8259cacc045691
type commit
tag annotated-tag
tagger a-user <an-email-address> 1774822895 +0100

a message
";

const BLOB_TAG: &[u8] = b"object e69de29bb2d1d6434b8b29ae775ad8c2e48c5391
type blob
tag blob-tag
tagger a-user <an-email-address> 1774826002 +0100

a blob
";

const TREE_TAG: &[u8] = b"object 3a4df67dd7fd7cb3ca82d9896dbdd28053d39bdb
type tree
tag tree-tag
tagger a-user <an-email-address> 1774826187 +0100

a tree
";

const NESTED_TAG: &[u8] = b"object 1c8bf8368bc9b1fd14227c6c1a0b0f30a1812e70
type tag
tag tag-tag
tagger a-user <an-email-address> 1774826312 +0100

a tag
";

fn check_root_commit(commit: &Commit<Noop>) {
    assert!(commit.parents().is_empty());
    assert_eq!(commit.tree(), oid("3a4df67dd7fd7cb3ca82d9896dbdd28053d39bdb"));
    assert_eq!(std::str::from_utf8(commit.author_name()).unwrap(), "a-user");
    assert_eq!(std::str::from_utf8(commit.author_email()).unwrap(), "an-email-address");
    assert_eq!(commit.author_date(), date("2026-03-29T03:26:58+05:30"));
    assert_eq!(std::str::from_utf8(commit.committer_name()).unwrap(), "another-user");
    assert_eq!(std::str::from_utf8(commit.committer_email()).unwrap(), "another-email-address");
    assert_eq!(commit.commit_date(), date("2026-03-28T13:56:59-08:00"));
    assert_eq!(std::str::from_utf8(commit.message()).unwrap(), "a commit\n");
}

fn expected_headers() -> Vec<ObjectHeader> {
    vec![
        ObjectHeader::new(b"some-header".to_vec(), b"a value".to_vec()),
        ObjectHeader::new(b"some-other-header".to_vec(), b"a long line-wrapped value".to_vec()),
    ]
}

fn check_commit_tag(tag: &Tag) {
    assert_eq!(tag.target(), oid("eedeffb6da16ddc3fb61b2255a8259cacc045691"));
    assert_eq!(tag.tag_type(), TagType::Commit);
    assert_eq!(tag.name(), b"annotated-tag");
    assert_eq!(tag.tagger_name(), Some(b"a-user".as_slice()));
    assert_eq!(tag.tagger_email(), Some(b"an-email-address".as_slice()));
    assert_eq!(tag.tag_date(), Some(date("2026-03-29T23:21:35+01:00")));
    assert_eq!(tag.message(), b"a message\n");
}

fn tree_data() -> Vec<u8> {
    let mut data = Vec::new();
    data.extend_from_slice(b"40000 a-directory\0");
    data.extend_from_slice(oid("3a4df67dd7fd7cb3ca82d9896dbdd28053d39bdb").id());
    data.extend_from_slice(b"100644 a-file\0");
    data.extend_from_slice(oid("e69de29bb2d1d6434b8b29ae775ad8c2e48c5391").id());
    data.extend_from_slice(b"120000 a-symlink\0");
    data.extend_from_slice(oid("7c35e066a9001b24677ae572214d292cebc55979").id());
    data.extend_from_slice(b"100755 an-executable-file\0");
    data.extend_from_slice(oid("e69de29bb2d1d6434b8b29ae775ad8c2e48c5391").id());
    data.extend_from_slice(b"160000 a-commit\0");
    data.extend_from_slice(oid("91ca81cfccb6f88a34807e9810bb0be409f32d70").id());
    data
}

fn check_tree(tree: &Tree<Noop>) {
    let expected = [
        (TreeEntryType::Tree, "3a4df67dd7fd7cb3ca82d9896dbdd28053d39bdb", "a-directory"),
        (TreeEntryType::File, "e69de29bb2d1d6434b8b29ae775ad8c2e48c5391", "a-file"),
        (TreeEntryType::Symlink, "7c35e066a9001b24677ae572214d292cebc55979", "a-symlink"),
        (TreeEntryType::Executable, "e69de29bb2d1d6434b8b29ae775ad8c2e48c5391", "an-executable-file"),
        (TreeEntryType::Commit, "91ca81cfccb6f88a34807e9810bb0be409f32d70", "a-commit"),
    ];
    assert_eq!(tree.entries().len(), expected.len());
    for (entry, (t, id, name)) in tree.entries().iter().zip(expected.iter()) {
        assert_eq!(entry.entry_type(), *t);
        assert_eq!(entry.id(), oid(id));
        assert_eq!(entry.name(), name.as_bytes());
    }
}

#[test]
fn commit_parse_root_commit() {
    let commit = Commit::<Noop>::parse(ObjectId::zero(), ROOT_COMMIT, None).unwrap();
    check_root_commit(&commit);
}

#[test]
fn commit_parse_normal_commit() {
    let commit = Commit::<Noop>::parse(ObjectId::zero(), NORMAL_COMMIT, None).unwrap();
    assert_eq!(commit.parents(), &[oid("16dafd3d0ba5af72f035d641c076a4150eda548d")]);
}

#[test]
fn commit_parse_merge_commit() {
    let commit = Commit::<Noop>::parse(ObjectId::zero(), MERGE_COMMIT, None).unwrap();
    assert_eq!(commit.parents().len(), 2);
}

#[test]
fn commit_parse_commit_additional_headers() {
    let commit = Commit::<Noop>::parse(ObjectId::zero(), HEADERS_COMMIT, None).unwrap();
    assert_eq!(commit.additional_headers().len(), 2);
    assert_eq!(commit.additional_headers(), expected_headers().as_slice());
}

#[test]
fn object_parse_root_commit() {
    let Object::Commit(commit) = parse_object(ObjectType::Commit, ROOT_COMMIT) else { panic!() };
    check_root_commit(&commit);
}

#[test]
fn object_parse_normal_commit() {
    let Object::Commit(commit) = parse_object(ObjectType::Commit, NORMAL_COMMIT) else { panic!() };
    assert_eq!(commit.parents(), &[oid("16dafd3d0ba5af72f035d641c076a4150eda548d")]);
}

#[test]
fn object_parse_merge_commit() {
    let Object::Commit(commit) = parse_object(ObjectType::Commit, MERGE_COMMIT) else { panic!() };
    assert_eq!(commit.parents().len(), 2);
}

#[test]
fn object_parse_commit_additional_headers() {
    let Object::Commit(commit) = parse_object(ObjectType::Commit, HEADERS_COMMIT) else { panic!() };
    assert_eq!(commit.additional_headers().len(), 2);
    assert_eq!(commit.additional_headers(), expected_headers().as_slice());
}

#[test]
fn object_parse_author_committer_line() {
    let example = "an author <an-email-address> 0 +0000";
    parse_signature(example.as_bytes()).unwrap();
}

#[test]
fn mod_parse_author_committer_line() {
    let example = "an author <an-email-address> 0 +0000";
    parse_signature(example.as_bytes()).unwrap();
}

#[test]
fn tag_parse_commit_tag() {
    let tag = Tag::parse(ObjectId::zero(), COMMIT_TAG).unwrap();
    check_commit_tag(&tag);
}

#[test]
fn tag_parse_blob_tag() {
    let tag = Tag::parse(ObjectId::zero(), BLOB_TAG).unwrap();
    assert_eq!(tag.tag_type(), TagType::Blob);
}

#[test]
fn tag_parse_tree_tag() {
    let tag = Tag::parse(ObjectId::zero(), TREE_TAG).unwrap();
    assert_eq!(tag.tag_type(), TagType::Tree);
}

#[test]
fn tag_parse_nested_tag() {
    let tag = Tag::parse(ObjectId::zero(), NESTED_TAG).unwrap();
    assert_eq!(tag.tag_type(), TagType::Tag);
}

#[test]
fn object_parse_commit_tag() {
    let Object::Tag(tag) = parse_object(ObjectType::Tag, COMMIT_TAG) else { panic!() };
    check_commit_tag(&tag);
}

#[test]
fn object_parse_blob_tag() {
    let Object::Tag(tag) = parse_object(ObjectType::Tag, BLOB_TAG) else { panic!() };
    assert_eq!(tag.tag_type(), TagType::Blob);
}

#[test]
fn object_parse_tree_tag() {
    let Object::Tag(tag) = parse_object(ObjectType::Tag, TREE_TAG) else { panic!() };
    assert_eq!(tag.tag_type(), TagType::Tree);
}

#[test]
fn object_parse_nested_tag() {
    let Object::Tag(tag) = parse_object(ObjectType::Tag, NESTED_TAG) else { panic!() };
    assert_eq!(tag.tag_type(), TagType::Tag);
}

#[test]
fn tree_parse_tree() {
    let tree = Tree::<Noop>::parse(ObjectId::zero(), &tree_data(), None).unwrap();
    check_tree(&tree);
}

#[test]
fn object_parse_tree() {
    let Object::Tree(tree) = parse_object(ObjectType::Tree, &tree_data()) else { panic!() };
    check_tree(&tree);
}

#[test]
fn blob_parse_empty_blob() {
    let Object::Blob(blob) = parse_object(ObjectType::Blob, b"") else { panic!() };
    assert!(blob.data().is_empty());
}

#[test]
fn blob_parse_contentful_blob() {
    let Object::Blob(blob) = parse_object(ObjectType::Blob, b"hello world") else { panic!() };
    assert_eq!(blob.data(), b"hello world");
}

#[test]
fn object_parse_empty_blob() {
    let Object::Blob(blob) = parse_object(ObjectType::Blob, b"") else { panic!() };
    assert_eq!(blob.data(), &[] as &[u8]);
}

#[test]
fn object_parse_contentful_blob() {
    let Object::Blob(blob) = parse_object(ObjectType::Blob, b"hello world") else { panic!() };
    assert_eq!(blob.data(), b"hello world");
}

// Further cases of the object grammar.

#[test]
fn commit_without_author_is_missing_fields() {
    let data = b"tree 3a4df67dd7fd7cb3ca82d9896dbdd28053d39bdb
committer another-user <another-email-address> 1774735019 -0800

a commit
";
    let r = Commit::<Noop>::parse(ObjectId::zero(), data, None);
    assert_eq!(r.err(), Some(ParseError::MissingFields));
}

#[test]
fn commit_with_bad_tree_reports_its_value() {
    let data = b"tree 3a4df67dd7fd7cb3ca82d9896dbdd28053d39bxx
author a-user <an-email-address> 1774735018 +0530
committer another-user <another-email-address> 1774735019 -0800

a commit
";
    let r = Commit::<Noop>::parse(ObjectId::zero(), data, None);
    assert_eq!(
        r.err(),
        Some(ParseError::ParseError { input_snippet: b"3a4df67dd7fd7cb3".to_vec() })
    );
}

#[test]
fn commit_without_blank_line_is_a_parse_error() {
    let data = b"tree 3a4df67dd7fd7cb3ca82d9896dbdd28053d39bdb";
    let r = Commit::<Noop>::parse(ObjectId::zero(), data, None);
    assert!(matches!(r, Err(ParseError::ParseError { .. })));
}

#[test]
fn object_parse_failure_names_the_object() {
    let id = oid("0123456789abcdef0123456789abcdef01234567");
    let data = b"tree 3a4df67dd7fd7cb3ca82d9896dbdd28053d39bdb\n\nmsg";
    let r = Object::<Noop>::from_raw(id, RawObject { object_type: ObjectType::Commit, body: data.to_vec() }, None);
    match r {
        Err(Error::ObjectMissingRequiredFields(i)) => assert_eq!(i, id),
        _ => panic!(),
    }
}

#[test]
fn tag_with_unknown_type_is_missing_fields() {
    let data = b"object eedeffb6da16ddc3fb61b2255a8259cacc045691
type widget
tag annotated-tag

a message
";
    assert_eq!(Tag::parse(ObjectId::zero(), data).err(), Some(ParseError::MissingFields));
}

#[test]
fn tag_without_tagger_parses() {
    let data = b"object eedeffb6da16ddc3fb61b2255a8259cacc045691
type commit
tag annotated-tag
extra value

msg";
    let tag = Tag::parse(ObjectId::zero(), data).unwrap();
    assert_eq!(tag.tagger_name(), None);
    assert_eq!(tag.tag_date(), None);
    assert_eq!(tag.message(), b"msg");
    assert_eq!(tag.additional_headers(), &[ObjectHeader::new(b"extra".to_vec(), b"value".to_vec())]);
}

#[test]
fn tree_with_trailing_garbage_is_a_parse_error() {
    let mut data = tree_data();
    data.extend_from_slice(b"99999 x\0");
    let r = Tree::<Noop>::parse(ObjectId::zero(), &data, None);
    assert_eq!(r.err(), Some(ParseError::ParseError { input_snippet: b"99999 x\0".to_vec() }));
}

#[test]
fn empty_tree_parses() {
    let tree = Tree::<Noop>::parse(ObjectId::zero(), b"", None).unwrap();
    assert!(tree.entries().is_empty());
}

#[test]
fn signature_dates_at_chrono_limits() {
    let (_, _, d) = parse_signature(b"a <b> 8210266876799 +0000").unwrap();
    assert_eq!(d.timestamp(), 8210266876799);
    assert!(parse_signature(b"a <b> 8210266876800 +0000").is_none());
    let (_, _, d) = parse_signature(b"a <b> -8334601228800 +0000").unwrap();
    assert_eq!(d.timestamp(), -8334601228800);
    assert!(parse_signature(b"a <b> -8334601228801 +0000").is_none());
    let (_, _, d) = parse_signature(b"a <b> 0 -2359").unwrap();
    assert_eq!(d.offset_seconds(), -(23 * 3600 + 59 * 60));
}

#[test]
fn object_kind_conversions() {
    let obj = parse_object(ObjectType::Blob, b"x");
    assert_eq!(obj.object_type(), ObjectType::Blob);
    let err = obj.commit().err().unwrap();
    assert_eq!(err.expected(), ObjectType::Commit);
    assert_eq!(err.received(), ObjectType::Blob);
    assert_eq!(err.id(), ObjectId::zero());
    let tag = parse_object(ObjectType::Tag, COMMIT_TAG);
    match tag.peel_to_tree_step() {
        Peel::Follow(id) => assert_eq!(id, oid("eedeffb6da16ddc3fb61b2255a8259cacc045691")),
        _ => panic!(),
    }
    let commit = parse_object(ObjectType::Commit, ROOT_COMMIT);
    match commit.peel_to_tree_step() {
        Peel::Follow(id) => assert_eq!(id, oid("3a4df67dd7fd7cb3ca82d9896dbdd28053d39bdb")),
        _ => panic!(),
    }
    let blob = Blob::new(ObjectId::zero(), b"abc".to_vec());
    assert_eq!(blob.data_owned(), b"abc".to_vec());
}

#[test]
fn detach_keeps_content() {
    let tree = Tree::<Noop>::parse(ObjectId::zero(), &tree_data(), None).unwrap();
    let detached = tree.detach();
    check_tree(&detached);
    assert!(detached.repo().is_err());
    let commit = Commit::<Noop>::parse(ObjectId::zero(), ROOT_COMMIT, None).unwrap();
    check_root_commit(&commit.detach());
}

#[test]
fn headers_read_back_with_their_message() {
    let body = b"a 1\nb two words\n\nmessage\n";
    let (headers, m) = parse_object_headers(body).unwrap();
    assert_eq!(
        headers,
        vec![
            ObjectHeader::new(b"a".to_vec(), b"1".to_vec()),
            ObjectHeader::new(b"b".to_vec(), b"two words".to_vec()),
        ]
    );
    assert_eq!(&body[m..], b"message\n");
    assert_eq!(parse_object_headers(b"a 1\nb 2\n"), Err(8));
}
