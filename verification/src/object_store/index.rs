//! Looking objects up in a pack index (`.idx`, version 2).
//!
//! The index holds a 256-entry fan-out table of cumulative counts by first
//! id byte, then the sorted ids, their checksums, 31-bit offsets and, for
//! offsets that do not fit, a table of 64-bit offsets.
use vstd::prelude::*;

use crate::error::Error;
use crate::object_id::ObjectId;

verus! {

/// Big-endian value of a byte string.
pub open spec fn be_value(s: Seq<u8>) -> int
    decreases s.len(),
{
    if s.len() == 0 {
        0
    } else {
        be_value(s.drop_last()) * 256 + s.last()
    }
}

/// 256 to the power `n`.
pub open spec fn pow256(n: nat) -> int
    decreases n,
{
    if n == 0 {
        1
    } else {
        256 * pow256((n - 1) as nat)
    }
}

proof fn lemma_be_value_bound(s: Seq<u8>)
    ensures
        0 <= be_value(s) < pow256(s.len()),
    decreases s.len(),
{
    if s.len() > 0 {
        lemma_be_value_bound(s.drop_last());
    }
}

proof fn lemma_pow256_small()
    ensures
        pow256(4) == 0x1_0000_0000,
        pow256(8) == 0x1_0000_0000_0000_0000,
{
    reveal_with_fuel(pow256, 9);
}

/// Reads the big-endian number in `n` bytes of `data` at `start`.
pub fn read_be(data: &[u8], start: usize, n: usize) -> (r: u64)
    requires
        n <= 8,
        start + n <= data.len(),
    ensures
        r == be_value(data@.subrange(start as int, start + n)),
{
    let mut v: u64 = 0;
    let mut i: usize = 0;
    proof {
        lemma_pow256_small();
    }
    while i < n
        invariant
            i <= n <= 8,
            start + n <= data.len(),
            v == be_value(data@.subrange(start as int, start + i)),
            pow256(8) == 0x1_0000_0000_0000_0000,
        decreases n - i,
    {
        proof {
            lemma_be_value_bound(data@.subrange(start as int, start + i));
            lemma_pow256_mono(i as nat, 7);
            assert(data@.subrange(start as int, start + i + 1).drop_last() =~= data@.subrange(
                start as int,
                start + i,
            ));
        }
        v = v * 256 + data[start + i] as u64;
        i = i + 1;
    }
    v
}

proof fn lemma_pow256_mono(a: nat, b: nat)
    requires
        a <= b,
    ensures
        1 <= pow256(a) <= pow256(b),
    decreases b,
{
    if a < b {
        lemma_pow256_mono(a, (b - 1) as nat);
    } else if a > 0 {
        lemma_pow256_mono((a - 1) as nat, (a - 1) as nat);
    }
}

/// The index signature followed by version 2.
pub open spec fn index_signature() -> Seq<u8> {
    seq![0xffu8, 0x74u8, 0x4fu8, 0x63u8, 0u8, 0u8, 0u8, 2u8]
}

/// Offset of the fan-out table.
pub open spec fn fanout_offset() -> int {
    8
}

/// Offset of the sorted id table.
pub open spec fn ids_offset() -> int {
    1032int
}

/// Fan-out entry `k`: how many ids have a first byte of at most `k`.
pub open spec fn fanout_entry(idx: Seq<u8>, k: int) -> int {
    be_value(idx.subrange(fanout_offset() + 4 * k, fanout_offset() + 4 * k + 4))
}

/// Id number `j` of the id table.
pub open spec fn index_entry(idx: Seq<u8>, j: int) -> Seq<u8> {
    idx.subrange(ids_offset() + 20 * j, ids_offset() + 20 * j + 20)
}

/// `a` sorts strictly before `b`: they agree up to some byte where `a`'s is
/// smaller.
pub open spec fn id_lt(a: Seq<u8>, b: Seq<u8>) -> bool {
    exists|k: int|
        0 <= k < a.len() && k < b.len() && a.subrange(0, k) == b.subrange(0, k) && a[k] < b[k]
}

/// The ids numbered `lo` up to (not including) `hi` are strictly ascending.
pub open spec fn entries_sorted(idx: Seq<u8>, lo: int, hi: int) -> bool {
    forall|j: int, k: int|
        lo <= j < k < hi ==> id_lt(#[trigger] index_entry(idx, j), #[trigger] index_entry(idx, k))
}

/// The range of id numbers whose first byte is `b`, by the fan-out table.
pub open spec fn fanout_range(idx: Seq<u8>, b: u8) -> (int, int) {
    (if b == 0 { 0 } else { fanout_entry(idx, b - 1) }, fanout_entry(idx, b as int))
}

/// The index file is well formed enough to search for ids starting with `b`:
/// it has the signature, the whole fan-out table, and the whole part of the
/// id table that the fan-out range for `b` covers.
pub open spec fn index_searchable(idx: Seq<u8>, b: u8) -> bool {
    &&& idx.len() >= ids_offset()
    &&& idx.subrange(0, 8) == index_signature()
    &&& fanout_range(idx, b).0 > fanout_range(idx, b).1 || ids_offset() + 20 * fanout_range(idx, b).1 <= idx.len()
}

proof fn lemma_id_lt_trans(a: Seq<u8>, b: Seq<u8>, c: Seq<u8>)
    requires
        id_lt(a, b),
        id_lt(b, c),
    ensures
        id_lt(a, c),
{
    let k1 = choose|k: int|
        0 <= k < a.len() && k < b.len() && a.subrange(0, k) == b.subrange(0, k) && a[k] < b[k];
    let k2 = choose|k: int|
        0 <= k < b.len() && k < c.len() && b.subrange(0, k) == c.subrange(0, k) && b[k] < c[k];
    if k1 < k2 {
        assert(b.subrange(0, k1) =~= c.subrange(0, k2).subrange(0, k1));
        assert(b.subrange(0, k2)[k1] == c.subrange(0, k2)[k1]);
        assert(a.subrange(0, k1) =~= c.subrange(0, k1));
    } else if k2 < k1 {
        assert(a.subrange(0, k2) =~= a.subrange(0, k1).subrange(0, k2));
        assert(a.subrange(0, k1)[k2] == b.subrange(0, k1)[k2]);
        assert(a.subrange(0, k2) =~= c.subrange(0, k2));
    } else {
        assert(a.subrange(0, k1) =~= c.subrange(0, k1));
    }
}

proof fn lemma_id_lt_ne(a: Seq<u8>, b: Seq<u8>)
    requires
        id_lt(a, b),
    ensures
        a != b,
{
    let k = choose|k: int|
        0 <= k < a.len() && k < b.len() && a.subrange(0, k) == b.subrange(0, k) && a[k] < b[k];
    assert(a[k] != b[k]);
}

/// The result of comparing two ids.
#[derive(Debug, Clone, Copy, PartialEq, Eq)]
pub enum IdOrder {
    Less,
    Equal,
    Greater,
}

/// Compares the 20 bytes of `data` at `start` with `id`, byte by byte.
pub fn compare_id_at(data: &[u8], start: usize, id: &[u8; 20]) -> (r: IdOrder)
    requires
        start + 20 <= data.len(),
    ensures
        r == IdOrder::Equal <==> data@.subrange(start as int, start + 20) == id@,
        r == IdOrder::Less ==> id_lt(data@.subrange(start as int, start + 20), id@),
        r == IdOrder::Greater ==> id_lt(id@, data@.subrange(start as int, start + 20)),
{
    let ghost e = data@.subrange(start as int, start + 20);
    let mut k: usize = 0;
    while k < 20
        invariant
            k <= 20,
            start + 20 <= data.len(),
            e == data@.subrange(start as int, start + 20),
            id@.len() == 20,
            e.subrange(0, k as int) =~= id@.subrange(0, k as int),
        decreases 20 - k,
    {
        let x = data[start + k];
        let y = id[k];
        if x < y {
            assert(e[k as int] == x);
            assert(e[k as int] != id@[k as int]);
            return IdOrder::Less;
        }
        if x > y {
            assert(e[k as int] == x);
            assert(e[k as int] != id@[k as int]);
            return IdOrder::Greater;
        }
        proof {
            assert(e.subrange(0, k + 1) =~= e.subrange(0, k as int).push(x));
            assert(id@.subrange(0, k + 1) =~= id@.subrange(0, k as int).push(y));
        }
        k = k + 1;
    }
    assert(e =~= e.subrange(0, 20));
    assert(id@ =~= id@.subrange(0, 20));
    IdOrder::Equal
}

/// Searches the index for `id`. On success gives the id's number in the
/// index and the total number of objects.
///
/// The search is a binary search over the fan-out range of the id's first
/// byte, so it finds the id exactly when that range is sorted, as in every
/// index git writes.
pub fn find_object_idx(idx: &[u8], id: ObjectId) -> (r: Result<Option<(u32, u32)>, Error>)
    ensures
        !(idx.len() >= 8 && idx@.subrange(0, 8) == index_signature()) ==> r == Err::<
            Option<(u32, u32)>,
            Error,
        >(Error::UnsupportedIndexVersion),
        idx.len() >= 8 && idx@.subrange(0, 8) == index_signature() && !index_searchable(
            idx@,
            id@[0],
        ) ==> r == Err::<Option<(u32, u32)>, Error>(Error::CorruptIndexFile),
        index_searchable(idx@, id@[0]) ==> r is Ok,
        r matches Ok(Some((i, total))) ==> fanout_range(idx@, id@[0]).0 <= i < fanout_range(
            idx@,
            id@[0],
        ).1 && index_entry(idx@, i as int) == id@ && total == fanout_entry(idx@, 255),
        r matches Ok(None) ==> entries_sorted(
            idx@,
            fanout_range(idx@, id@[0]).0,
            fanout_range(idx@, id@[0]).1,
        ) ==> forall|j: int|
            fanout_range(idx@, id@[0]).0 <= j < fanout_range(idx@, id@[0]).1 ==> index_entry(
                idx@,
                j,
            ) != id@,
{
    if idx.len() < 8 {
        return Err(Error::UnsupportedIndexVersion);
    }
    let sig_ok = idx[0] == 0xff && idx[1] == 0x74 && idx[2] == 0x4f && idx[3] == 0x63 && idx[4]
        == 0 && idx[5] == 0 && idx[6] == 0 && idx[7] == 2;
    assert(sig_ok <==> idx@.subrange(0, 8) =~= index_signature());
    if !sig_ok {
        return Err(Error::UnsupportedIndexVersion);
    }
    if idx.len() < 8 + 4 * 256 {
        return Err(Error::CorruptIndexFile);
    }
    let total_objects = read_be(idx, 8 + 4 * 255, 4);
    let first = id.id[0];
    let prev_fanout_entry: u64 = if first == 0 {
        0
    } else {
        read_be(idx, 8 + 4 * (first as usize - 1), 4)
    };
    let fanout_entry_v: u64 = read_be(idx, 8 + 4 * first as usize, 4);
    proof {
        lemma_pow256_small();
        lemma_be_value_bound(idx@.subrange(1028int, 1032int));
        lemma_be_value_bound(idx@.subrange(8 + 4 * first, 8 + 4 * first + 4));
        if first > 0 {
            lemma_be_value_bound(idx@.subrange(8 + 4 * (first - 1), 8 + 4 * (first - 1) + 4));
        }
    }
    let ghost lo0 = prev_fanout_entry as int;
    let ghost hi0 = fanout_entry_v as int;
    if prev_fanout_entry <= fanout_entry_v && fanout_entry_v > ((idx.len() - (8 + 4 * 256)) / 20) as u64 {
        return Err(Error::CorruptIndexFile);
    }
    let mut lower_idx: u64 = prev_fanout_entry;
    let mut upper_idx: u64 = fanout_entry_v;
    while lower_idx < upper_idx
        invariant
            lo0 <= lower_idx,
            upper_idx <= hi0,
            idx.len() >= 1032,
            idx@.subrange(0, 8) == index_signature(),
            total_objects == fanout_entry(idx@, 255),
            total_objects < 0x1_0000_0000,
            hi0 < 0x1_0000_0000,
            lo0 == fanout_range(idx@, id@[0]).0,
            hi0 == fanout_range(idx@, id@[0]).1,
            lower_idx < upper_idx ==> ids_offset() + 20 * hi0 <= idx.len(),
            id@ == id.id@,
            entries_sorted(idx@, lo0, hi0) ==> forall|j: int|
                (lo0 <= j < lower_idx || upper_idx <= j < hi0) ==> index_entry(idx@, j) != id@,
        decreases upper_idx - lower_idx,
    {
        let mid_idx: u64 = (lower_idx + upper_idx) / 2;
        let mid_offset: usize = (8 + 4 * 256) + 20 * mid_idx as usize;
        match compare_id_at(idx, mid_offset, &id.id) {
            IdOrder::Equal => {
                return Ok(Some((mid_idx as u32, total_objects as u32)));
            },
            IdOrder::Less => {
                proof {
                    if entries_sorted(idx@, lo0, hi0) {
                        assert forall|j: int| lo0 <= j < mid_idx + 1 implies index_entry(idx@, j)
                            != id@ by {
                            if j < mid_idx {
                                assert(id_lt(index_entry(idx@, j), index_entry(idx@, mid_idx as int)));
                                lemma_id_lt_trans(
                                    index_entry(idx@, j),
                                    index_entry(idx@, mid_idx as int),
                                    id@,
                                );
                                lemma_id_lt_ne(index_entry(idx@, j), id@);
                            } else {
                                lemma_id_lt_ne(index_entry(idx@, j), id@);
                            }
                        }
                    }
                }
                lower_idx = mid_idx + 1;
            },
            IdOrder::Greater => {
                proof {
                    if entries_sorted(idx@, lo0, hi0) {
                        assert forall|j: int| mid_idx <= j < hi0 implies index_entry(idx@, j)
                            != id@ by {
                            if j > mid_idx {
                                assert(id_lt(index_entry(idx@, mid_idx as int), index_entry(idx@, j)));
                                lemma_id_lt_trans(
                                    id@,
                                    index_entry(idx@, mid_idx as int),
                                    index_entry(idx@, j),
                                );
                                lemma_id_lt_ne(id@, index_entry(idx@, j));
                            } else {
                                lemma_id_lt_ne(id@, index_entry(idx@, j));
                            }
                        }
                    }
                }
                upper_idx = mid_idx;
            },
        }
    }
    Ok(None)
}

/// Offset of the table of 31-bit pack offsets, for an index of `total` ids.
pub open spec fn short_table_offset(total: int) -> int {
    ids_offset() + 24 * total
}

/// The pack file offset recorded for id number `obj_idx` in an index of
/// `total` ids: the 31-bit entry, or, when its top bit is set, the 64-bit
/// entry it points to. Reading past the end of the index is an error.
pub open spec fn packfile_offset_result(idx: Seq<u8>, obj_idx: int, total: int) -> Result<u64, Error> {
    let se = short_table_offset(total) + 4 * obj_idx;
    if se + 4 > idx.len() {
        Err(Error::CorruptIndexFile)
    } else {
        let v = be_value(idx.subrange(se, se + 4));
        if v >= 0x8000_0000 {
            let le = short_table_offset(total) + 4 * total + 8 * (v - 0x8000_0000);
            if le + 8 > idx.len() {
                Err(Error::CorruptIndexFile)
            } else {
                Ok(be_value(idx.subrange(le, le + 8)) as u64)
            }
        } else {
            Ok(v as u64)
        }
    }
}

/// Reads the pack file offset of id number `obj_idx`.
pub fn get_obj_packfile_offset(idx: &[u8], obj_idx: u32, total_objects: u32) -> (r: Result<u64, Error>)
    ensures
        r matches Ok(v) ==> packfile_offset_result(idx@, obj_idx as int, total_objects as int) matches Ok(w) && w == v,
        r matches Err(e) ==> packfile_offset_result(idx@, obj_idx as int, total_objects as int) matches Err(f) && f == e,
        r is Ok <==> packfile_offset_result(idx@, obj_idx as int, total_objects as int) is Ok,
{
    let short_table: u64 = 1032 + 24 * total_objects as u64;
    let short_entry: u64 = short_table + 4 * obj_idx as u64;
    if short_entry + 4 > idx.len() as u64 {
        return Err(Error::CorruptIndexFile);
    }
    let v = read_be(idx, short_entry as usize, 4);
    proof {
        lemma_pow256_small();
        lemma_be_value_bound(idx@.subrange(short_entry as int, short_entry + 4));
    }
    if v >= 0x8000_0000 {
        let long_entry: u64 = short_table + 4 * total_objects as u64 + 8 * (v - 0x8000_0000);
        if long_entry + 8 > idx.len() as u64 {
            return Err(Error::CorruptIndexFile);
        }
        proof {
            lemma_be_value_bound(idx@.subrange(long_entry as int, long_entry + 8));
        }
        Ok(read_be(idx, long_entry as usize, 8))
    } else {
        Ok(v)
    }
}

/// What looking `id` (of at least one byte) up in the index `idx` may give:
/// - an unsupported version error when the signature is missing;
/// - a corrupt index error when the fan-out range of the id's first byte
///   cannot be searched, or when the id is listed but its pack offset cannot
///   be read;
/// - the offset recorded for an entry equal to the id;
/// - nothing, and then, where the range is sorted, no entry equals the id.
pub open spec fn index_lookup(idx: Seq<u8>, id: Seq<u8>, r: Result<Option<u64>, Error>) -> bool {
    let (lo, hi) = fanout_range(idx, id[0]);
    &&& !(idx.len() >= 8 && idx.subrange(0, 8) == index_signature()) ==> r == Err::<
        Option<u64>,
        Error,
    >(Error::UnsupportedIndexVersion)
    &&& idx.len() >= 8 && idx.subrange(0, 8) == index_signature() && !index_searchable(idx, id[0])
        ==> r == Err::<Option<u64>, Error>(Error::CorruptIndexFile)
    &&& r matches Ok(Some(off)) ==> exists|i: int|
        lo <= i < hi && index_entry(idx, i) == id && packfile_offset_result(
            idx,
            i,
            fanout_entry(idx, 255),
        ) == Ok::<u64, Error>(off)
    &&& r matches Ok(None) ==> entries_sorted(idx, lo, hi) ==> forall|j: int|
        lo <= j < hi ==> index_entry(idx, j) != id
    &&& r matches Err(e) ==> e == Error::UnsupportedIndexVersion || e == Error::CorruptIndexFile
    &&& index_searchable(idx, id[0]) && r is Err ==> exists|i: int|
        lo <= i < hi && index_entry(idx, i) == id && packfile_offset_result(
            idx,
            i,
            fanout_entry(idx, 255),
        ) is Err
}

/// Looks `id` up in the index and gives the offset of its object in the
/// pack file, or `None` when the index does not list it (see
/// [`index_lookup`]).
pub fn find_object_in_pack_index(idx: &[u8], id: ObjectId) -> (r: Result<Option<u64>, Error>)
    ensures
        index_lookup(idx@, id@, r),
{
    match find_object_idx(idx, id) {
        Err(e) => Err(e),
        Ok(None) => Ok(None),
        Ok(Some((obj_idx, total))) => {
            match get_obj_packfile_offset(idx, obj_idx, total) {
                Ok(off) => {
                    assert(packfile_offset_result(idx@, obj_idx as int, fanout_entry(idx@, 255))
                        == Ok::<u64, Error>(off));
                    Ok(Some(off))
                },
                Err(e) => {
                    assert(packfile_offset_result(idx@, obj_idx as int, fanout_entry(idx@, 255)) is Err);
                    Err(e)
                },
            }
        },
    }
}

} // verus!
