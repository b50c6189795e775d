//! Loose objects: one zlib-compressed file per object under `objects/`.
use vstd::prelude::*;

use crate::error::{Error, inflate_status_of, InflateStatus};
use crate::object_id::{encode_hex, hex_encode, ObjectId};
use crate::object_store::inflate::{inflate_zlib, zlib_inflate};
use crate::object_store::{ObjectType, RawObject};
use crate::parsing::{decimal_value, digit_run_end, has_prefix_at, is_digit, parse_unsigned, prefix_at, unsigned_at};

verus! {

/// The directory (first byte) and file (other 19 bytes) names, in lowercase
/// hexadecimal, under which the loose object `id` is stored.
pub fn loose_object_path(id: ObjectId) -> (r: (Vec<u8>, Vec<u8>))
    ensures
        r.0@ == hex_encode(id@.subrange(0, 1)),
        r.1@ == hex_encode(id@.subrange(1, 20)),
{
    let bytes = id.id.as_slice();
    let dir = encode_hex(vstd::slice::slice_subrange(bytes, 0, 1));
    let file = encode_hex(vstd::slice::slice_subrange(bytes, 1, 20));
    (dir, file)
}

/// The type word that starts a loose object and the position after the space
/// that follows it.
pub open spec fn loose_type_word(data: Seq<u8>) -> Option<(ObjectType, int)> {
    if has_prefix_at(data, 0, seq![99u8, 111u8, 109u8, 109u8, 105u8, 116u8, 32u8]) {
        Some((ObjectType::Commit, 7))
    } else if has_prefix_at(data, 0, seq![116u8, 97u8, 103u8, 32u8]) {
        Some((ObjectType::Tag, 4))
    } else if has_prefix_at(data, 0, seq![116u8, 114u8, 101u8, 101u8, 32u8]) {
        Some((ObjectType::Tree, 5))
    } else if has_prefix_at(data, 0, seq![98u8, 108u8, 111u8, 98u8, 32u8]) {
        Some((ObjectType::Blob, 5))
    } else {
        None
    }
}

/// A decompressed loose object: `<type> <size>\0<body>`, the size in decimal
/// fitting a `usize` and the body exactly that long. Gives type and body.
pub open spec fn loose_object_parse(data: Seq<u8>) -> Option<(ObjectType, Seq<u8>)> {
    match loose_type_word(data) {
        None => None,
        Some((t, p)) => match unsigned_at(data, p, usize::MAX as int) {
            None => None,
            Some((len, q)) => if q < data.len() && data[q] == 0 && q + 1 + len == data.len() {
                Some((t, data.subrange(q + 1, data.len() as int)))
            } else {
                None
            },
        },
    }
}

/// Splits a decompressed loose object into its type and body; a header that
/// does not match the body is reported as a malformed object.
pub fn parse_loose_object(id: ObjectId, data: &[u8]) -> (r: Result<RawObject, Error>)
    ensures
        loose_object_parse(data@) matches Some((t, b)) ==> r matches Ok(o) && o.object_type == t
            && o.body@ == b,
        loose_object_parse(data@) is None ==> (r matches Err(e) && e == Error::MalformedObject(id)),
{
    let commit_word: [u8; 7] = [99, 111, 109, 109, 105, 116, 32];
    let tag_word: [u8; 4] = [116, 97, 103, 32];
    let tree_word: [u8; 5] = [116, 114, 101, 101, 32];
    let blob_word: [u8; 5] = [98, 108, 111, 98, 32];
    assert(commit_word@ =~= seq![99u8, 111u8, 109u8, 109u8, 105u8, 116u8, 32u8]);
    assert(tag_word@ =~= seq![116u8, 97u8, 103u8, 32u8]);
    assert(tree_word@ =~= seq![116u8, 114u8, 101u8, 101u8, 32u8]);
    assert(blob_word@ =~= seq![98u8, 108u8, 111u8, 98u8, 32u8]);
    let (object_type, p): (ObjectType, usize) = if prefix_at(data, 0, commit_word.as_slice()) {
        (ObjectType::Commit, 7)
    } else if prefix_at(data, 0, tag_word.as_slice()) {
        (ObjectType::Tag, 4)
    } else if prefix_at(data, 0, tree_word.as_slice()) {
        (ObjectType::Tree, 5)
    } else if prefix_at(data, 0, blob_word.as_slice()) {
        (ObjectType::Blob, 5)
    } else {
        return Err(Error::MalformedObject(id));
    };
    let (len, q) = match parse_unsigned(data, p, usize::MAX as u64) {
        None => return Err(Error::MalformedObject(id)),
        Some(x) => x,
    };
    if q < data.len() && data[q] == 0 && len == (data.len() - q - 1) as u64 {
        let body = vstd::slice::slice_to_vec(vstd::slice::slice_subrange(data, q + 1, data.len()));
        Ok(RawObject { object_type, body })
    } else {
        Err(Error::MalformedObject(id))
    }
}

/// What reading a loose object file's content gives: decompression, then
/// splitting into type and body.
pub open spec fn loose_object_result(compressed: Seq<u8>) -> Result<
    (ObjectType, Seq<u8>),
    Option<InflateStatus>,
> {
    match zlib_inflate(compressed, usize::MAX) {
        Err((code, _)) => Err(Some(inflate_status_of(code))),
        Ok(data) => match loose_object_parse(data) {
            None => Err(None),
            Some(x) => Ok(x),
        },
    }
}

/// Decodes the content of the loose object file of `id`. A decompression
/// failure is reported with its status; a malformed header as a malformed
/// object.
pub fn read_loose_object(id: ObjectId, compressed: &[u8]) -> (r: Result<RawObject, Error>)
    ensures
        loose_object_result(compressed@) matches Ok((t, b)) ==> r matches Ok(o) && o.object_type
            == t && o.body@ == b,
        loose_object_result(compressed@) matches Err(Some(s)) ==> (r matches Err(e)
            && e == (Error::LooseObjectDecompressError { id, status: s })),
        loose_object_result(compressed@) matches Err(None) ==> (r matches Err(e)
            && e == Error::MalformedObject(id)),
{
    match inflate_zlib(compressed, usize::MAX) {
        Err((code, _)) => Err(Error::LooseObjectDecompressError { id, status: InflateStatus::from_code(code) }),
        Ok(data) => parse_loose_object(id, data.as_slice()),
    }
}

/// The word git writes for an object type in a loose object header.
pub open spec fn object_type_word(t: ObjectType) -> Seq<u8> {
    match t {
        ObjectType::Commit => seq![99u8, 111u8, 109u8, 109u8, 105u8, 116u8],
        ObjectType::Tree => seq![116u8, 114u8, 101u8, 101u8],
        ObjectType::Blob => seq![98u8, 108u8, 111u8, 98u8],
        ObjectType::Tag => seq![116u8, 97u8, 103u8],
    }
}

/// The decimal digits of `n`, most significant first, without leading zeros.
pub open spec fn decimal_digits(n: nat) -> Seq<u8>
    decreases n,
{
    if n < 10 {
        seq![(48 + n) as u8]
    } else {
        decimal_digits(n / 10).push((48 + n % 10) as u8)
    }
}

/// A loose object as git writes it before compressing it: the type's word,
/// a space, the body's length in decimal, a zero byte, then the body.
pub open spec fn loose_object_bytes(t: ObjectType, body: Seq<u8>) -> Seq<u8> {
    loose_bytes_claiming(t, body.len(), body)
}

/// A loose object whose header names type `t` and claims a body of `n`
/// bytes, followed by `body`.
pub open spec fn loose_bytes_claiming(t: ObjectType, n: nat, body: Seq<u8>) -> Seq<u8> {
    object_type_word(t) + seq![32u8] + decimal_digits(n) + seq![0u8] + body
}

proof fn lemma_decimal_digits(n: nat)
    ensures
        decimal_digits(n).len() >= 1,
        forall|j: int| 0 <= j < decimal_digits(n).len() ==> is_digit(#[trigger] decimal_digits(n)[j]),
        decimal_value(decimal_digits(n)) == n,
    decreases n,
{
    if n < 10 {
        assert(decimal_digits(n).drop_last() =~= Seq::<u8>::empty());
        assert(decimal_value(Seq::<u8>::empty()) == 0);
        assert(decimal_value(decimal_digits(n)) == decimal_value(decimal_digits(n).drop_last()) * 10 + (
        decimal_digits(n).last() - 48));
    } else {
        lemma_decimal_digits(n / 10);
        let d = decimal_digits(n);
        assert(d.drop_last() =~= decimal_digits(n / 10));
        assert(d.last() == (48 + n % 10) as u8);
        assert(decimal_value(d) == decimal_value(d.drop_last()) * 10 + (d.last() - 48));
        assert forall|j: int| 0 <= j < d.len() implies is_digit(#[trigger] d[j]) by {
            if j < d.len() - 1 {
                assert(d[j] == decimal_digits(n / 10)[j]);
            }
        }
    }
}

proof fn lemma_digit_run_to(s: Seq<u8>, i: int, j: int)
    requires
        0 <= i <= j < s.len(),
        forall|k: int| i <= k < j ==> is_digit(#[trigger] s[k]),
        !is_digit(s[j]),
    ensures
        digit_run_end(s, i) == j,
    decreases j - i,
{
    if i < j {
        lemma_digit_run_to(s, i + 1, j);
    }
}

proof fn lemma_no_prefix(s: Seq<u8>, x: Seq<u8>, k: int)
    requires
        0 <= k < x.len(),
        k < s.len(),
        s[k] != x[k],
    ensures
        !has_prefix_at(s, 0, x),
{
    if has_prefix_at(s, 0, x) {
        assert(s.subrange(0, x.len() as int)[k] == s[k]);
    }
}

proof fn lemma_loose_claiming(t: ObjectType, n: nat, body: Seq<u8>)
    requires
        n <= usize::MAX,
    ensures
        loose_object_parse(loose_bytes_claiming(t, n, body)) == if n == body.len() {
            Some((t, body))
        } else {
            None
        },
{
    let data = loose_bytes_claiming(t, n, body);
    let w = object_type_word(t);
    let digits = decimal_digits(n);
    lemma_decimal_digits(n);
    let p: int = w.len() + 1int;
    let q: int = p + digits.len();
    assert(data.len() == q + 1 + body.len());
    assert(data.subrange(0, p) =~= w + seq![32u8]);
    let cw = seq![99u8, 111u8, 109u8, 109u8, 105u8, 116u8, 32u8];
    let gw = seq![116u8, 97u8, 103u8, 32u8];
    let tw = seq![116u8, 114u8, 101u8, 101u8, 32u8];
    let bw = seq![98u8, 108u8, 111u8, 98u8, 32u8];
    assert(data[0] == w[0]);
    match t {
        ObjectType::Commit => {
            assert(data.subrange(0, 7) =~= cw);
        },
        ObjectType::Tag => {
            lemma_no_prefix(data, cw, 0);
            assert(data.subrange(0, 4) =~= gw);
        },
        ObjectType::Tree => {
            assert(data[1] == w[1]);
            lemma_no_prefix(data, cw, 0);
            lemma_no_prefix(data, gw, 1);
            assert(data.subrange(0, 5) =~= tw);
        },
        ObjectType::Blob => {
            lemma_no_prefix(data, cw, 0);
            lemma_no_prefix(data, gw, 0);
            lemma_no_prefix(data, tw, 0);
            assert(data.subrange(0, 5) =~= bw);
        },
    }
    assert forall|k: int| p <= k < q implies is_digit(#[trigger] data[k]) by {
        assert(data[k] == digits[k - p]);
    }
    assert(data[q] == 0u8);
    lemma_digit_run_to(data, p, q);
    assert(data.subrange(p, q) =~= digits);
    assert(data.subrange(q + 1, data.len() as int) =~= body);
}

/// Splitting a loose object git wrote gives back its type and body: for
/// every type and every body, the header names the type by its own word
/// and the body's length, and parsing gives exactly that type and body.
pub proof fn law_loose_object_roundtrip(t: ObjectType, body: Seq<u8>)
    requires
        body.len() <= usize::MAX,
    ensures
        loose_object_parse(loose_object_bytes(t, body)) == Some((t, body)),
{
    lemma_loose_claiming(t, body.len(), body);
}

/// A loose object whose header claims another length than its body has is
/// refused, whatever its type.
pub proof fn law_loose_object_length_mismatch(t: ObjectType, n: nat, body: Seq<u8>)
    requires
        n <= usize::MAX,
        n != body.len(),
    ensures
        loose_object_parse(loose_bytes_claiming(t, n, body)) is None,
{
    lemma_loose_claiming(t, n, body);
}

} // verus!
