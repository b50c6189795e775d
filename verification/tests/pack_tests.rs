use git_future::error::Error;
use git_future::object_id::ObjectId;
use git_future::object_store::lookup::{packed_size_type, read_packed_object};
use git_future::object_store::pack::{
    apply_delta, form_deltified_chain, read_delta_expected_size, read_delta_offset_size, read_pack_object,
    reconstruct_deltified_object, reconstruct_deltified_object_from_chain, unpack_object,
    validate_packfile_version, PackObjectType,
};
use git_future::object_store::ObjectType;
use miniz_oxide::deflate::compress_to_vec_zlib;

#[test]
fn reconstruct_one_object() {
    let mut base_object = vec![0u8; 128 * 1024];
    for (i, item) in base_object.iter_mut().enumerate() {
        *item = (i % u8::MAX as usize) as u8;
    }

    let mut deltified_object = Vec::new();
    let base_object_size_encoded: [u8; 3] = [0b10000000, 0b10000000, 0b00001000]; // 128 * 1024
    assert_eq!(read_delta_expected_size(&base_object_size_encoded).1, 128 * 1024);
    let target_object_size_encoded: [u8; 3] = [0b10001101, 0b10000000, 0b00000100]; // 10 + 3 + 0x10000
    assert_eq!(read_delta_expected_size(&target_object_size_encoded).1, 10 + 3 + 0x10000);

    deltified_object.extend_from_slice(&base_object_size_encoded);
    deltified_object.extend_from_slice(&target_object_size_encoded);

    // Small copy
    let offset_1: u32 = 65;
    let size_1: u32 = 10;
    let instruction_1: [u8; 3] = [0b10010001, 65, 10];
    deltified_object.extend_from_slice(&instruction_1);

    // Append
    let instruction_2: [u8; 4] = [0b00000011, 0xc0, 0xff, 0xee];
    deltified_object.extend_from_slice(&instruction_2);

    // Copy with special case size = 0 (interpeted as size = 0b10000)
    let offset_3: u32 = 0x10000;
    let instruction_3: [u8; 2] = [0b10000100, 0x01];
    deltified_object.extend_from_slice(&instruction_3);

    let reconstructed = reconstruct_deltified_object(&deltified_object, &base_object);

    assert_eq!(reconstructed.len(), 10 + 3 + 0x10000);
    let mut expected = Vec::new();
    expected.extend_from_slice(&base_object[(offset_1 as usize)..((offset_1 + size_1) as usize)]);
    expected.extend_from_slice(&[0xc0, 0xff, 0xee]);
    expected.extend_from_slice(&base_object[offset_3 as usize..(offset_3 + 0x10000) as usize]);
    assert_eq!(expected.len(), 10 + 3 + 0x10000);
    assert!(reconstructed == expected);
}

#[test]
fn delta_with_wrong_target_size_is_refused() {
    let base = b"hello".to_vec();
    // base size 5, target size 4, but the instructions produce 5 bytes.
    let delta = vec![5u8, 4, 0b10010000, 5];
    assert_eq!(apply_delta(&delta, &base), None);
    // base size 5, target size 5: copy the whole base.
    let delta = vec![5u8, 5, 0b10010000, 5];
    assert_eq!(apply_delta(&delta, &base), Some(base.clone()));
}

#[test]
fn delta_offset_sizes() {
    assert_eq!(read_delta_offset_size(&[0x05]), (1, 5));
    // Two bytes: ((0x01 + 1) << 7) + 0x02 = 258.
    assert_eq!(read_delta_offset_size(&[0x81, 0x02]), (2, 258));
    assert_eq!(read_delta_expected_size(&[0x80, 0x01]), (2, 128));
}

/// A version 2 pack holding a blob at offset 12 and, after it, an offset
/// delta against that blob.
fn small_pack() -> (Vec<u8>, u64, u64) {
    let mut pack = vec![0x50u8, 0x41, 0x43, 0x4b, 0, 0, 0, 2, 0, 0, 0, 2];
    let base = b"hello world".to_vec();
    let blob_offset = pack.len() as u64;
    pack.push(0x30 | base.len() as u8);
    pack.extend_from_slice(&compress_to_vec_zlib(&base, 6));
    // delta: base size 11, target size 16: copy "hello " then append "there!!!!!".
    let delta = vec![11u8, 16, 0b10010000, 6, 10, b't', b'h', b'e', b'r', b'e', b'!', b'!', b'!', b'!', b'!'];
    let delta_offset = pack.len() as u64;
    pack.push(0x60 | delta.len() as u8);
    pack.push((delta_offset - blob_offset) as u8);
    pack.extend_from_slice(&compress_to_vec_zlib(&delta, 6));
    (pack, blob_offset, delta_offset)
}

#[test]
fn unpack_whole_and_deltified_objects() {
    let (pack, blob_offset, delta_offset) = small_pack();
    assert!(validate_packfile_version(&pack).is_ok());
    let blob = unpack_object(&pack, blob_offset).unwrap();
    assert_eq!(blob.object_type, ObjectType::Blob);
    assert_eq!(blob.body, b"hello world".to_vec());
    let obj = unpack_object(&pack, delta_offset).unwrap();
    assert_eq!(obj.object_type, ObjectType::Blob);
    assert_eq!(obj.body, b"hello there!!!!!".to_vec());

    let (chain, fin) = form_deltified_chain(&pack, delta_offset).unwrap();
    assert_eq!(chain.len(), 1);
    assert!(matches!(chain[0].object_type, PackObjectType::OffsetDelta { .. }));
    assert_eq!(fin.object_type, PackObjectType::Base(ObjectType::Blob));
    let rebuilt = reconstruct_deltified_object_from_chain(&chain, &fin);
    assert_eq!(rebuilt.body, b"hello there!!!!!".to_vec());

    let id = ObjectId::zero();
    let (size, t) = packed_size_type(id, &pack, delta_offset).unwrap();
    assert_eq!(size.0, 16);
    assert_eq!(t, ObjectType::Blob);
}

#[test]
fn pack_errors() {
    let (mut pack, blob_offset, _) = small_pack();
    let id = ObjectId::new([7u8; 20]);
    // An offset past the end of the pack.
    match read_packed_object(id, &pack, pack.len() as u64 + 1) {
        Err(Error::CorruptPackFile) => {}
        _ => panic!(),
    }
    // An unknown type code.
    pack[blob_offset as usize] = 0x50 | 11;
    match read_packed_object(id, &pack, blob_offset) {
        Err(Error::MalformedPackObject(i)) => assert_eq!(i, id),
        _ => panic!(),
    }
    // A wrong signature.
    pack[0] = 0;
    assert!(matches!(validate_packfile_version(&pack), Err(Error::UnsupportedPackVersion)));
}

/// Appends an object to a pack: its header (type code and size), for an
/// offset delta its base offset, then its zlib-compressed body. Gives the
/// object's offset.
fn push_object(pack: &mut Vec<u8>, type_code: u8, base_offset_neg: Option<u64>, body: &[u8]) -> u64 {
    let offset = pack.len() as u64;
    let mut size = body.len() as u64;
    let mut first = (type_code << 4) | (size & 0x0f) as u8;
    size >>= 4;
    if size > 0 {
        first |= 0x80;
    }
    pack.push(first);
    while size > 0 {
        let mut b = (size & 0x7f) as u8;
        size >>= 7;
        if size > 0 {
            b |= 0x80;
        }
        pack.push(b);
    }
    if let Some(mut n) = base_offset_neg {
        let mut bytes = vec![(n & 0x7f) as u8];
        n >>= 7;
        while n > 0 {
            n -= 1;
            bytes.push(0x80 | (n & 0x7f) as u8);
            n >>= 7;
        }
        bytes.reverse();
        pack.extend_from_slice(&bytes);
    }
    pack.extend_from_slice(&compress_to_vec_zlib(body, 6));
    offset
}

fn new_pack() -> Vec<u8> {
    vec![0x50u8, 0x41, 0x43, 0x4b, 0, 0, 0, 2, 0, 0, 0, 4]
}

const COMMIT_BODY: &[u8] = b"tree 3a4df67dd7fd7cb3ca82d9896dbdd28053d39bdb
author a user <an-email-address> 946684800 +0000
committer a user <an-email-address> 946684800 +0000

a commit
";

const TAG_BODY: &[u8] = b"object 78dc5b70bd81aa46ec7dfce87a69826e354a916b
type commit
tag a-fat-tag
tagger a user <an-email-address> 946684800 +0000

a tag
";

fn tree_body() -> Vec<u8> {
    let mut expected = Vec::new();
    expected.extend_from_slice(b"100644 a-file\0");
    expected.extend_from_slice(ObjectId::from_hex(b"e69de29bb2d1d6434b8b29ae775ad8c2e48c5391").unwrap().id());
    expected
}

/// A pack with a commit, a tag, a tree and an empty blob, and their offsets.
fn packfile() -> (Vec<u8>, [u64; 4]) {
    let mut pack = new_pack();
    let commit = push_object(&mut pack, 1, None, COMMIT_BODY);
    let tag = push_object(&mut pack, 4, None, TAG_BODY);
    let tree = push_object(&mut pack, 2, None, &tree_body());
    let blob = push_object(&mut pack, 3, None, b"");
    (pack, [commit, tag, tree, blob])
}

#[test]
fn pack_read_non_deltified_commit() {
    let (pack, offsets) = packfile();
    assert_eq!(offsets[0], 0x0c);
    let o = read_pack_object(&pack, offsets[0]).unwrap();
    assert_eq!(o.object_type, PackObjectType::Base(ObjectType::Commit));
    assert_eq!(o.body, COMMIT_BODY);
}

#[test]
fn pack_read_non_deltified_blob() {
    let (pack, offsets) = packfile();
    let o = read_pack_object(&pack, offsets[3]).unwrap();
    assert_eq!(o.object_type, PackObjectType::Base(ObjectType::Blob));
    assert_eq!(o.body, b"");
}

#[test]
fn pack_read_non_deltified_tree() {
    let (pack, offsets) = packfile();
    let o = read_pack_object(&pack, offsets[2]).unwrap();
    assert_eq!(o.object_type, PackObjectType::Base(ObjectType::Tree));
    assert_eq!(o.body, tree_body());
}

#[test]
fn pack_read_non_deltified_tag() {
    let (pack, offsets) = packfile();
    let o = read_pack_object(&pack, offsets[1]).unwrap();
    assert_eq!(o.object_type, PackObjectType::Base(ObjectType::Tag));
    assert_eq!(o.body, TAG_BODY);
}

#[test]
fn pack_read_deltified_offset_object() {
    let mut pack = new_pack();
    let base = push_object(&mut pack, 3, None, &vec![b'x'; 786]);
    // Fill up to 128 bytes after the base's start.
    while (pack.len() as u64) < base + 128 {
        pack.push(0);
    }
    let delta: Vec<u8> = vec![0x94, 0x06, 0xf7, 0x05, 0xb0, 0x85, 0x01, 0xb3, 0xa2, 0x01, 0x72, 0x01];
    let at = push_object(&mut pack, 6, Some(128), &delta);
    let o = read_pack_object(&pack, at).unwrap();
    assert_eq!(o.object_type, PackObjectType::OffsetDelta { base_offset_neg: 128 });
    assert_eq!(o.body, delta);
}

/// A tree stored as a whole object and two deltas over it, each copying
/// what it is applied to; gives the pack and the offset of the top delta.
fn chained_pack(body: &[u8]) -> (Vec<u8>, u64) {
    let mut pack = new_pack();
    let n = body.len();
    let mut copy_all = Vec::new();
    copy_all.push(0x80 | (n & 0x7f) as u8);
    copy_all.push((n >> 7) as u8);
    copy_all.push(0x80 | (n & 0x7f) as u8);
    copy_all.push((n >> 7) as u8);
    copy_all.extend_from_slice(&[0b10110000, (n & 0xff) as u8, (n >> 8) as u8]);
    let base = push_object(&mut pack, 2, None, body);
    let d1_at = pack.len() as u64;
    let d1 = push_object(&mut pack, 6, Some(d1_at - base), &copy_all);
    let d2_at = pack.len() as u64;
    let d2 = push_object(&mut pack, 6, Some(d2_at - d1), &copy_all);
    (pack, d2)
}

fn chained_tree_body() -> Vec<u8> {
    let empty = ObjectId::from_hex(b"e69de29bb2d1d6434b8b29ae775ad8c2e48c5391").unwrap();
    let mut expected = Vec::new();
    expected.extend_from_slice(b"100644 a\0");
    expected.extend_from_slice(empty.id());
    expected.extend_from_slice(b"100644 a-file\0");
    expected.extend_from_slice(empty.id());
    for c in b'b'..(b'z' + 1) {
        if c != b'm' && c != b't' {
            expected.extend_from_slice(b"100644 ");
            expected.push(c);
            expected.push(b'\0');
            expected.extend_from_slice(empty.id());
        }
    }
    expected
}

#[test]
fn form_deltified_object_chain() {
    let (pack, top) = chained_pack(&chained_tree_body());
    let (chain, final_object) = form_deltified_chain(&pack, top).unwrap();
    assert_eq!(chain.len(), 2);
    for object in &chain {
        assert!(matches!(object.object_type, PackObjectType::OffsetDelta { base_offset_neg: _ }));
    }
    if let PackObjectType::OffsetDelta { base_offset_neg: _ } = final_object.object_type {
        panic!()
    }
}

#[test]
fn reconstruct_chained_deltified_object() {
    let expected = chained_tree_body();
    let (pack, top) = chained_pack(&expected);
    let (chain, final_object) = form_deltified_chain(&pack, top).unwrap();
    let object = reconstruct_deltified_object_from_chain(&chain, &final_object);
    assert_eq!(object.object_type, PackObjectType::Base(ObjectType::Tree));
    assert_eq!(object.body, expected);
}
