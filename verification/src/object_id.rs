//! Object identifiers and their hexadecimal form.
use vstd::prelude::*;
use vstd::std_specs::cmp::PartialOrdSpec;

use crate::object_store::index::id_lt;

verus! {

/// Whether `c` is an ASCII hexadecimal digit (either case).
pub open spec fn is_hex_digit(c: u8) -> bool {
    (48 <= c && c <= 57) || (97 <= c && c <= 102) || (65 <= c && c <= 70)
}

/// The numeric value of a hexadecimal digit.
pub open spec fn hex_digit_value(c: u8) -> int {
    if 48 <= c && c <= 57 {
        c - 48
    } else if 97 <= c && c <= 102 {
        c - 97 + 10
    } else {
        c - 65 + 10
    }
}

/// All bytes of `s` are hexadecimal digits.
pub open spec fn all_hex_digits(s: Seq<u8>) -> bool {
    forall|i: int| 0 <= i < s.len() ==> is_hex_digit(#[trigger] s[i])
}

/// The bytes denoted by a string of hexadecimal digit pairs.
pub open spec fn hex_decode(s: Seq<u8>) -> Seq<u8> {
    Seq::new(
        s.len() / 2,
        |i: int| (hex_digit_value(s[2 * i]) * 16 + hex_digit_value(s[2 * i + 1])) as u8,
    )
}

/// The ASCII code of the lowercase hexadecimal digit for a value below 16.
pub open spec fn hex_char(v: int) -> u8 {
    if v < 10 {
        (48 + v) as u8
    } else {
        (97 + v - 10) as u8
    }
}

/// Lowercase hexadecimal encoding of `bytes` in ASCII, two digits per byte.
pub open spec fn hex_encode(bytes: Seq<u8>) -> Seq<u8> {
    Seq::new(
        2 * bytes.len(),
        |i: int|
            if i % 2 == 0 {
                hex_char((bytes[i / 2] / 16) as int)
            } else {
                hex_char((bytes[i / 2] % 16) as int)
            },
    )
}

/// Index of the first byte of `s` that is not a hexadecimal digit.
pub open spec fn first_non_hex(s: Seq<u8>) -> int
    recommends
        !all_hex_digits(s),
{
    choose|k: int|
        0 <= k < s.len() && !is_hex_digit(s[k]) && forall|j: int|
            0 <= j < k ==> is_hex_digit(#[trigger] s[j])
}

/// Why a hexadecimal string could not be decoded.
#[derive(Debug, Clone, Copy, PartialEq, Eq)]
pub enum HexError {
    InvalidHexCharacter { c: char, index: usize },
    OddLength,
    InvalidStringLength,
}

/// What decoding `s` into 20 bytes gives: length checks first (odd, then not
/// forty digits), then the first character that is not a hex digit.
pub open spec fn decode_20_result(s: Seq<u8>) -> Result<Seq<u8>, HexError> {
    if s.len() % 2 != 0 {
        Err(HexError::OddLength)
    } else if s.len() != 40 {
        Err(HexError::InvalidStringLength)
    } else if all_hex_digits(s) {
        Ok(hex_decode(s))
    } else {
        Err(HexError::InvalidHexCharacter { c: s[first_non_hex(s)] as char, index: first_non_hex(s) as usize })
    }
}

/// Decodes hexadecimal digits into 20 bytes with `hex::decode_to_slice`. That
/// function checks the length first (odd, then not twice the output), then
/// decodes digit pairs in order and stops at the first character that is not
/// a hex digit, reporting it and its index.
#[verifier::external_body]
fn decode_hex_20(s: &[u8]) -> (r: Result<[u8; 20], HexError>)
    ensures
        r is Ok <==> decode_20_result(s@) is Ok,
        r matches Ok(b) ==> decode_20_result(s@) matches Ok(v) && v == b@,
        r matches Err(e) ==> decode_20_result(s@) matches Err(e2) && e2 == e,
{
    let mut buf = [0u8; 20];
    match hex::decode_to_slice(s, &mut buf) {
        Ok(()) => Ok(buf),
        Err(hex::FromHexError::InvalidHexCharacter { c, index }) => Err(
            HexError::InvalidHexCharacter { c, index },
        ),
        Err(hex::FromHexError::OddLength) => Err(HexError::OddLength),
        Err(hex::FromHexError::InvalidStringLength) => Err(HexError::InvalidStringLength),
    }
}

/// Lowercase hexadecimal encoding of a byte string with `hex::encode`, which
/// writes each byte as its high then low nibble using `0-9a-f`; the string's
/// bytes are returned.
#[verifier::external_body]
pub(crate) fn encode_hex(bytes: &[u8]) -> (r: Vec<u8>)
    ensures
        r@ == hex_encode(bytes@),
{
    hex::encode(bytes).into_bytes()
}

/// The 20-byte SHA-1 name of a git object.
#[derive(Clone, Copy, Debug, Eq, Ord, Hash)]
pub struct ObjectId {
    pub id: [u8; 20],
}

impl View for ObjectId {
    type V = Seq<u8>;

    open spec fn view(&self) -> Seq<u8> {
        self.id@
    }
}

/// Ids are the same when their bytes are.
impl PartialEq for ObjectId {
    fn eq(&self, other: &Self) -> (r: bool) {
        let mut k: usize = 0;
        while k < 20
            invariant
                k <= 20,
                forall|j: int| 0 <= j < k ==> self.id@[j] == other.id@[j],
            decreases 20 - k,
        {
            if self.id[k] != other.id[k] {
                return false;
            }
            k = k + 1;
        }
        assert(self.id@ =~= other.id@);
        true
    }
}

impl vstd::std_specs::cmp::PartialEqSpecImpl for ObjectId {
    open spec fn obeys_eq_spec() -> bool {
        true
    }

    open spec fn eq_spec(&self, other: &Self) -> bool {
        self@ == other@
    }
}

/// How `a` and `b` compare byte by byte from position `k` on: by the first
/// byte where they differ, and where one ends first, the shorter first.
pub open spec fn byte_order_from(a: Seq<u8>, b: Seq<u8>, k: int) -> core::cmp::Ordering
    decreases a.len() - k,
{
    if k < 0 || k >= a.len() || k >= b.len() {
        if a.len() < b.len() {
            core::cmp::Ordering::Less
        } else if a.len() == b.len() {
            core::cmp::Ordering::Equal
        } else {
            core::cmp::Ordering::Greater
        }
    } else if a[k] < b[k] {
        core::cmp::Ordering::Less
    } else if a[k] > b[k] {
        core::cmp::Ordering::Greater
    } else {
        byte_order_from(a, b, k + 1)
    }
}

/// Ids are ordered by their bytes, the first differing byte deciding.
impl PartialOrd for ObjectId {
    fn partial_cmp(&self, other: &Self) -> (r: Option<core::cmp::Ordering>) {
        let mut k: usize = 0;
        let ghost mut pos: int = 0;
        while k < 20
            invariant
                k <= 20,
                pos == k,
                self@.len() == 20,
                other@.len() == 20,
                byte_order_from(self@, other@, 0) == byte_order_from(self@, other@, pos),
            decreases 20 - k,
        {
            if self.id[k] < other.id[k] {
                return Some(core::cmp::Ordering::Less);
            }
            if self.id[k] > other.id[k] {
                return Some(core::cmp::Ordering::Greater);
            }
            k = k + 1;
            proof {
                pos = pos + 1;
            }
        }
        Some(core::cmp::Ordering::Equal)
    }
}

impl vstd::std_specs::cmp::PartialOrdSpecImpl for ObjectId {
    open spec fn obeys_partial_cmp_spec() -> bool {
        true
    }

    open spec fn partial_cmp_spec(&self, other: &Self) -> Option<core::cmp::Ordering> {
        Some(byte_order_from(self@, other@, 0))
    }
}

/// `a` and `b` agree on positions `k` up to `j`.
pub open spec fn agree_between(a: Seq<u8>, b: Seq<u8>, k: int, j: int) -> bool {
    forall|i: int| k <= i < j ==> a[i] == b[i]
}

/// `a` and `b` agree from position `k` to the end of `a`.
pub open spec fn agree_to_end(a: Seq<u8>, b: Seq<u8>, k: int) -> bool {
    forall|i: int| k <= i < a.len() ==> a[i] == b[i]
}

/// Some position from `k` on holds a smaller byte in `a` than in `b`, the
/// two agreeing before it.
pub open spec fn first_diff_lt(a: Seq<u8>, b: Seq<u8>, k: int) -> bool {
    exists|j: int| k <= j < a.len() && agree_between(a, b, k, j) && #[trigger] a[j] < b[j]
}

proof fn lemma_first_diff_step(a: Seq<u8>, b: Seq<u8>, k: int)
    requires
        a.len() == b.len(),
        0 <= k < a.len(),
    ensures
        a[k] < b[k] ==> first_diff_lt(a, b, k) && !first_diff_lt(b, a, k),
        a[k] == b[k] ==> (first_diff_lt(a, b, k) <==> first_diff_lt(a, b, k + 1)),
        a[k] == b[k] ==> (agree_to_end(a, b, k) <==> agree_to_end(a, b, k + 1)),
        a[k] != b[k] ==> !agree_to_end(a, b, k),
{
    if a[k] < b[k] {
        assert(agree_between(a, b, k, k));
        if first_diff_lt(b, a, k) {
            let j = choose|j: int| k <= j < b.len() && agree_between(b, a, k, j) && #[trigger] b[j] < a[j];
            if j > k {
                assert(b[k] == a[k]);
            }
        }
    }
    if a[k] == b[k] {
        if first_diff_lt(a, b, k) {
            let j = choose|j: int| k <= j < a.len() && agree_between(a, b, k, j) && #[trigger] a[j] < b[j];
            assert(j != k);
            assert(agree_between(a, b, k + 1, j));
        }
        if first_diff_lt(a, b, k + 1) {
            let j = choose|j: int| k + 1 <= j < a.len() && agree_between(a, b, k + 1, j) && #[trigger] a[j] < b[j];
            assert(agree_between(a, b, k, j));
        }
    }
}

#[verifier::rlimit(30)]
proof fn lemma_byte_order_from(a: Seq<u8>, b: Seq<u8>, k: int)
    requires
        a.len() == b.len(),
        0 <= k <= a.len(),
    ensures
        (byte_order_from(a, b, k) == core::cmp::Ordering::Equal) <==> agree_to_end(a, b, k),
        (byte_order_from(a, b, k) == core::cmp::Ordering::Less) <==> first_diff_lt(a, b, k),
        (byte_order_from(a, b, k) == core::cmp::Ordering::Greater) <==> first_diff_lt(b, a, k),
    decreases a.len() - k,
{
    if k < a.len() {
        lemma_byte_order_from(a, b, k + 1);
        lemma_first_diff_step(a, b, k);
        lemma_first_diff_step(b, a, k);
    }
}

/// Ids are ordered by their first differing byte: two ids compare equal
/// exactly when they are the same id, `a` comes before `b` exactly when `b`
/// comes after `a`, and the all-zero id comes before or equals every id.
pub proof fn law_id_order(a: ObjectId, b: ObjectId, z: ObjectId)
    requires
        z@ == Seq::new(20, |i: int| 0u8),
    ensures
        (a.partial_cmp_spec(&b) == Some(core::cmp::Ordering::Equal)) <==> a@ == b@,
        (a.partial_cmp_spec(&b) == Some(core::cmp::Ordering::Less)) <==> (b.partial_cmp_spec(&a)
            == Some(core::cmp::Ordering::Greater)),
        a.partial_cmp_spec(&b) is Some,
        z.partial_cmp_spec(&a) != Some(core::cmp::Ordering::Greater),
{
    lemma_byte_order_from(a@, b@, 0);
    lemma_byte_order_from(b@, a@, 0);
    lemma_byte_order_from(z@, a@, 0);
    if agree_to_end(a@, b@, 0) {
        assert(a@ =~= b@);
    }
    if first_diff_lt(a@, z@, 0) {
        let j = choose|j: int| 0 <= j < 20 && agree_between(a@, z@, 0, j) && #[trigger] a@[j] < z@[j];
        assert(z@[j] == 0u8);
    }
}

/// The order of ids is the one pack indexes sort their ids by (see
/// [`id_lt`]): `a` comes before `b` exactly when the index order puts `a`
/// first.
pub proof fn law_id_order_is_index_order(a: ObjectId, b: ObjectId)
    ensures
        id_lt(a@, b@) <==> a.partial_cmp_spec(&b) == Some(core::cmp::Ordering::Less),
{
    lemma_byte_order_from(a@, b@, 0);
    if id_lt(a@, b@) {
        let k = choose|k: int|
            0 <= k < a@.len() && k < b@.len() && a@.subrange(0, k) == b@.subrange(0, k) && a@[k] < b@[k];
        assert forall|i: int| 0 <= i < k implies a@[i] == b@[i] by {
            assert(a@.subrange(0, k)[i] == b@.subrange(0, k)[i]);
        }
        assert(agree_between(a@, b@, 0, k));
    }
    if first_diff_lt(a@, b@, 0) {
        let j = choose|j: int| 0 <= j < a@.len() && agree_between(a@, b@, 0, j) && #[trigger] a@[j] < b@[j];
        assert(a@.subrange(0, j) =~= b@.subrange(0, j));
    }
}

/// An object id is written as 40 hexadecimal digits at the start of `s`.
pub open spec fn starts_with_object_id(s: Seq<u8>) -> bool {
    s.len() >= 40 && all_hex_digits(s.subrange(0, 40))
}

/// Checks that the first `n` bytes of `s` are hexadecimal digits.
pub fn check_hex_digits(s: &[u8], n: usize) -> (r: bool)
    requires
        n <= s.len(),
    ensures
        r == all_hex_digits(s@.subrange(0, n as int)),
{
    let mut i: usize = 0;
    while i < n
        invariant
            i <= n <= s.len(),
            all_hex_digits(s@.subrange(0, i as int)),
        decreases n - i,
    {
        let c = s[i];
        if !((48 <= c && c <= 57) || (97 <= c && c <= 102) || (65 <= c && c <= 70)) {
            assert(s@.subrange(0, n as int)[i as int] == c);
            return false;
        }
        assert(s@.subrange(0, i + 1) =~= s@.subrange(0, i as int).push(c));
        i = i + 1;
    }
    true
}

impl ObjectId {
    /// Wraps 20 raw bytes.
    pub fn new(id: [u8; 20]) -> (r: Self)
        ensures
            r@ == id@,
    {
        ObjectId { id }
    }

    /// The all-zero id, used for the missing side of a diff.
    pub fn zero() -> (r: Self)
        ensures
            r@ == Seq::new(20, |i: int| 0u8),
    {
        let r = ObjectId { id: [0u8; 20] };
        assert(r@ =~= Seq::new(20, |i: int| 0u8));
        r
    }

    /// The raw bytes of the id.
    pub fn id(&self) -> (r: &[u8; 20])
        ensures
            r@ == self@,
    {
        &self.id
    }

    /// Reads an id from the first 40 bytes of `input`, which must all be
    /// hexadecimal digits; whatever follows is left alone.
    pub fn parse_prefix(input: &[u8]) -> (r: Option<Self>)
        ensures
            r is Some <==> starts_with_object_id(input@),
            r matches Some(oid) ==> oid@ == hex_decode(input@.subrange(0, 40)),
    {
        if input.len() < 40 {
            return None;
        }
        if !check_hex_digits(input, 40) {
            return None;
        }
        let digits = slice_prefix(input, 40);
        match decode_hex_20(digits) {
            Ok(b) => Some(ObjectId { id: b }),
            Err(_) => None,
        }
    }

    /// Decodes an id written as exactly 40 hexadecimal digits.
    pub fn from_hex(s: &[u8]) -> (r: Option<Self>)
        ensures
            r is Some <==> (s.len() == 40 && all_hex_digits(s@)),
            r matches Some(oid) ==> oid@ == hex_decode(s@),
    {
        if s.len() != 40 {
            return None;
        }
        assert(s@.subrange(0, 40) =~= s@);
        Self::parse_prefix(s)
    }

    /// The id as 40 lowercase hexadecimal digits (ASCII bytes).
    pub fn to_hex(&self) -> (r: Vec<u8>)
        ensures
            r@ == hex_encode(self@),
    {
        encode_hex(self.id.as_slice())
    }
}

/// The first `n` bytes of `s`.
pub fn slice_prefix(s: &[u8], n: usize) -> (r: &[u8])
    requires
        n <= s.len(),
    ensures
        r@ == s@.subrange(0, n as int),
{
    vstd::slice::slice_subrange(s, 0, n)
}

proof fn lemma_hex_char_value(v: int)
    requires
        0 <= v < 16,
    ensures
        is_hex_digit(hex_char(v)),
        hex_digit_value(hex_char(v)) == v,
{
}

/// Decoding the hexadecimal form of any bytes gives those bytes back, and
/// that form is two hexadecimal digits per byte.
pub proof fn law_hex_roundtrip(b: Seq<u8>)
    ensures
        hex_encode(b).len() == 2 * b.len(),
        all_hex_digits(hex_encode(b)),
        hex_decode(hex_encode(b)) == b,
{
    let e = hex_encode(b);
    assert forall|i: int| 0 <= i < e.len() implies is_hex_digit(#[trigger] e[i]) by {
        if i % 2 == 0 {
            lemma_hex_char_value((b[i / 2] / 16) as int);
        } else {
            lemma_hex_char_value((b[i / 2] % 16) as int);
        }
    }
    assert forall|i: int| 0 <= i < b.len() implies #[trigger] hex_decode(e)[i] == b[i] by {
        let x = b[i];
        assert((2 * i) / 2 == i);
        assert((2 * i + 1) / 2 == i);
        assert((2 * i) % 2 == 0);
        assert((2 * i + 1) % 2 == 1);
        lemma_hex_char_value((x / 16) as int);
        lemma_hex_char_value((x % 16) as int);
        assert(e[2 * i] == hex_char((x / 16) as int));
        assert(e[2 * i + 1] == hex_char((x % 16) as int));
        assert((x / 16) * 16 + x % 16 == x);
    }
    assert(hex_decode(e) =~= b);
}

} // verus!
