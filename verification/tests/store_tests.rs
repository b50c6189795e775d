use git_future::repo::Repo;
use git_future::traits::Noop;
use git_future::directory::{DirEntry, FileSearch};
use git_future::error::{Error, InflateStatus};
use git_future::object_id::ObjectId;
use git_future::object_store::cache::{PackCache, PackIndex};
use git_future::object_store::index::{find_object_idx, find_object_in_pack_index, get_obj_packfile_offset};
use git_future::object_store::lookup::{loose_size_type, packs_in_listing, Pack};
use git_future::object_store::loose::{loose_object_path, read_loose_object};
use git_future::object_store::ObjectType;
use miniz_oxide::deflate::compress_to_vec_zlib;

fn oid(s: &str) -> ObjectId {
    ObjectId::from_hex(s.as_bytes()).unwrap()
}

/// A version 2 index listing `ids` (sorted) at the given pack offsets.
fn index(ids: &[(ObjectId, u64)]) -> Vec<u8> {
    let mut idx = vec![0xffu8, 0x74, 0x4f, 0x63, 0, 0, 0, 2];
    for b in 0..256usize {
        let count = ids.iter().filter(|(id, _)| (id.id()[0] as usize) <= b).count() as u32;
        idx.extend_from_slice(&count.to_be_bytes());
    }
    for (id, _) in ids {
        idx.extend_from_slice(id.id());
    }
    for _ in ids {
        idx.extend_from_slice(&[0, 0, 0, 0]);
    }
    let mut large = Vec::new();
    for (_, off) in ids {
        if *off >= 0x8000_0000 {
            let k = (large.len() / 8) as u32;
            idx.extend_from_slice(&(0x8000_0000u32 | k).to_be_bytes());
            large.extend_from_slice(&off.to_be_bytes());
        } else {
            idx.extend_from_slice(&(*off as u32).to_be_bytes());
        }
    }
    idx.extend_from_slice(&large);
    idx
}

#[test]
fn index_lookup() {
    let a = oid("0000000000000000000000000000000000000001");
    let b = oid("78dc5b70bd81aa46ec7dfce87a69826e354a916b");
    let c = oid("78ff000000000000000000000000000000000000");
    let idx = index(&[(a, 12), (b, 400), (c, 0x1_0000_0000)]);
    assert_eq!(find_object_in_pack_index(&idx, b), Ok(Some(400)));
    assert_eq!(find_object_in_pack_index(&idx, a), Ok(Some(12)));
    assert_eq!(find_object_in_pack_index(&idx, c), Ok(Some(0x1_0000_0000)));
    assert_eq!(find_object_in_pack_index(&idx, ObjectId::zero()), Ok(None));
    assert_eq!(find_object_in_pack_index(&idx, oid("7800000000000000000000000000000000000000")), Ok(None));
    assert_eq!(get_obj_packfile_offset(&idx, 1, 3), Ok(400));
    let mut bad = idx.clone();
    bad[4] = 9;
    assert_eq!(find_object_in_pack_index(&bad, b), Err(Error::UnsupportedIndexVersion));
    let short = idx[..1040].to_vec();
    assert_eq!(find_object_in_pack_index(&short, b), Err(Error::CorruptIndexFile));
}

#[test]
fn loose_objects() {
    let id = oid("e69de29bb2d1d6434b8b29ae775ad8c2e48c5391");
    let (dir, file) = loose_object_path(id);
    assert_eq!(dir, b"e6".to_vec());
    assert_eq!(file, b"9de29bb2d1d6434b8b29ae775ad8c2e48c5391".to_vec());

    let compressed = compress_to_vec_zlib(b"blob 11\0hello world", 6);
    let obj = read_loose_object(id, &compressed).unwrap();
    assert_eq!(obj.object_type, ObjectType::Blob);
    assert_eq!(obj.body, b"hello world".to_vec());
    let (size, t) = loose_size_type(id, &compressed).unwrap();
    assert_eq!((size.0, t), (11, ObjectType::Blob));

    let wrong_size = compress_to_vec_zlib(b"blob 12\0hello world", 6);
    assert_eq!(read_loose_object(id, &wrong_size).err(), Some(Error::MalformedObject(id)));
    match read_loose_object(id, b"not zlib at all") {
        Err(Error::LooseObjectDecompressError { id: i, status }) => {
            assert_eq!(i, id);
            assert_ne!(status, InflateStatus::Done);
        }
        _ => panic!(),
    }
}

#[test]
fn hex_forms_of_ids() {
    let id = oid("0123456789abcdef0123456789ABCDEF01234567");
    assert_eq!(id.to_hex(), b"0123456789abcdef0123456789abcdef01234567".to_vec());
    assert_eq!(ObjectId::from_hex(&id.to_hex()), Some(id));
    assert_eq!(ObjectId::from_hex(b"0123"), None);
    assert_eq!(ObjectId::from_hex(b"g123456789abcdef0123456789abcdef01234567"), None);
    assert_eq!(ObjectId::zero().id(), &[0u8; 20]);
    assert_eq!(ObjectId::new([1u8; 20]).id(), &[1u8; 20]);
}

#[test]
fn pack_cache_finds_the_first_pack_listing_an_id() {
    let a = oid("0000000000000000000000000000000000000001");
    let b = oid("78dc5b70bd81aa46ec7dfce87a69826e354a916b");
    let c = oid("78ff000000000000000000000000000000000000");
    let first = PackIndex { pack: Pack::new(b"p1.idx".to_vec()).unwrap(), index: index(&[(a, 12)]) };
    let second = PackIndex { pack: Pack::new(b"p2.idx".to_vec()).unwrap(), index: index(&[(a, 7), (b, 40)]) };
    let cache = PackCache { indexes: vec![first, second] };
    assert_eq!(cache.find(a), Ok(Some((0, 12))));
    assert_eq!(cache.find(b), Ok(Some((1, 40))));
    assert_eq!(cache.find(c), Ok(None));
    assert_eq!(PackCache { indexes: vec![] }.find(a), Ok(None));
    let broken = PackIndex { pack: Pack::new(b"p0.idx".to_vec()).unwrap(), index: vec![1, 2, 3] };
    let third = PackIndex { pack: Pack::new(b"p3.idx".to_vec()).unwrap(), index: index(&[(b, 40)]) };
    let cache = PackCache { indexes: vec![third, broken] };
    assert_eq!(cache.find(b), Ok(Some((0, 40))));
    assert_eq!(cache.find(a), Err(Error::UnsupportedIndexVersion));
}

#[test]
fn repo_pack_cache_is_shared_by_clones() {
    let repo: Repo<Noop> = Repo::new(Noop(()));
    assert!(repo.pack_cache().is_none());
    let copy = repo.clone();
    assert!(repo.keep_pack_cache(PackCache { indexes: vec![] }).is_ok());
    assert_eq!(copy.pack_cache().map(|c| c.indexes.len()), Some(0));
    assert!(copy.keep_pack_cache(PackCache { indexes: vec![] }).is_err());
}

#[test]
fn packs_are_named_by_their_index() {
    let p = Pack::new(b"pack-2692754bdea34cf95fac0765d24ef49e53188be3.idx".to_vec()).unwrap();
    assert_eq!(p.pack_filename, b"pack-2692754bdea34cf95fac0765d24ef49e53188be3.pack".to_vec());
    assert!(Pack::new(b"pack-x.pack".to_vec()).is_none());
    assert!(Pack::new(b"idx".to_vec()).is_none());
    let listing = vec![
        DirEntry::File(b"a.pack".to_vec()),
        DirEntry::File(b"a.idx".to_vec()),
        DirEntry::Directory(b"b.idx".to_vec()),
        DirEntry::File(b"c.idx".to_vec()),
    ];
    let packs = packs_in_listing(&listing);
    assert_eq!(packs.len(), 2);
    assert_eq!(packs[0].index_filename, b"a.idx".to_vec());
    assert_eq!(packs[1].pack_filename, b"c.pack".to_vec());
}

#[test]
fn test_search_for_files() {
    // root: file-a, file-b, dir-a/ { file-c, dir-b/ { file-d } }
    let mut search = FileSearch::new();
    let mut listed = 0;
    while let Some(dir) = search.next_dir() {
        listed += 1;
        let entries = match dir.len() {
            0 => vec![
                DirEntry::File(b"file-a".to_vec()),
                DirEntry::File(b"file-b".to_vec()),
                DirEntry::Directory(b"dir-a".to_vec()),
            ],
            1 => vec![DirEntry::File(b"file-c".to_vec()), DirEntry::Directory(b"dir-b".to_vec())],
            _ => vec![DirEntry::File(b"file-d".to_vec())],
        };
        search.expand(&dir, entries);
    }
    assert_eq!(listed, 3);
    let mut paths = search.finish();
    paths.sort();
    let mut expected: Vec<Vec<Vec<u8>>> = vec![
        vec![b"file-a".to_vec()],
        vec![b"file-b".to_vec()],
        vec![b"dir-a".to_vec(), b"file-c".to_vec()],
        vec![b"dir-a".to_vec(), b"dir-b".to_vec(), b"file-d".to_vec()],
    ];
    expected.sort();
    assert_eq!(paths, expected);
}

const IDX_ID: &str = "78dc5b70bd81aa46ec7dfce87a69826e354a916b";

fn sample_index() -> Vec<u8> {
    index(&[
        (oid("220ae2051dba7a9606c35293e9ff1493ff59869f"), 0x7a),
        (oid(IDX_ID), 0x0c),
        (oid("e69de29bb2d1d6434b8b29ae775ad8c2e48c5391"), 0x11e),
    ])
}

#[test]
fn index_test_find_object_idx() {
    let idx = sample_index();
    let obj_idx = find_object_idx(&idx, oid(IDX_ID)).unwrap();
    assert!(obj_idx.is_some());
    let null_obj_idx = find_object_idx(&idx, oid("0000000000000000000000000000000000000000")).unwrap();
    assert_eq!(null_obj_idx, None);
    let similar_obj_idx = find_object_idx(&idx, oid("7800000000000000000000000000000000000000")).unwrap();
    assert_eq!(similar_obj_idx, None);
}

#[test]
fn index_test_get_obj_packfile_offset_normal() {
    let idx = sample_index();
    let (object_idx, total_objects) = find_object_idx(&idx, oid(IDX_ID)).unwrap().unwrap();
    assert_eq!(get_obj_packfile_offset(&idx, object_idx, total_objects), Ok(0x0c));
}

#[test]
fn index_test_get_obj_packfile_offset_huge() {
    let blob = oid("ead5be8e71f3cb2e585e14436087fd84119dd354");
    let idx = index(&[(oid(IDX_ID), 0x0c), (blob, 0x1_0000_0000)]);
    let (object_offset, total_objects) = find_object_idx(&idx, blob).unwrap().unwrap();
    let pack_offset = get_obj_packfile_offset(&idx, object_offset, total_objects).unwrap();
    assert!(pack_offset >= 0x80000000);
}

#[test]
fn test_read_loose_object_existing() {
    let body: &[u8] = b"tree 3a4df67dd7fd7cb3ca82d9896dbdd28053d39bdb
author a user <an-email-address> 946684800 +0000
committer a user <an-email-address> 946684800 +0000

a commit
";
    let mut data = format!("commit {}\0", body.len()).into_bytes();
    data.extend_from_slice(body);
    let compressed = compress_to_vec_zlib(&data, 6);
    let commit_id = oid("78dc5b70bd81aa46ec7dfce87a69826e354a916b");
    let object = read_loose_object(commit_id, &compressed).unwrap();
    assert_eq!(object.object_type, ObjectType::Commit);
    assert_eq!(object.body, body);
}

#[test]
fn ids_order_by_their_bytes() {
    let a = oid("0000000000000000000000000000000000000001");
    let b = oid("78dc5b70bd81aa46ec7dfce87a69826e354a916b");
    let c = oid("78ff000000000000000000000000000000000000");
    assert!(ObjectId::zero() < a && a < b && b < c);
    assert_eq!(b.partial_cmp(&b), Some(std::cmp::Ordering::Equal));
    assert_eq!(c.partial_cmp(&b), Some(std::cmp::Ordering::Greater));
    assert_eq!(b.cmp(&c), b.partial_cmp(&c).unwrap());
    assert!(ObjectId::zero() <= ObjectId::new([0u8; 20]));
    assert_eq!(ObjectId::new(*b.id()), b);
}
