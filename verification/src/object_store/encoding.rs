//! How git writes the numbers of a pack file, and that reading them back
//! gives the numbers written.
use vstd::prelude::*;

use crate::object_store::pack::{
    copy_operands, delta_ops, delta_result, gather, header_decodable, header_result, header_size, header_type, header_type_bits, leb_decodable, leb_result, leb_value, ofs_decodable, ofs_result, ofs_step, ofs_value,
    varint_end, PackObjectType,
};
use crate::object_store::ObjectType;

verus! {

/// Index of the end of a run of bytes with the high bit set.
proof fn lemma_varint_end_at(buf: Seq<u8>, i: int, t: int)
    requires
        0 <= i <= t < buf.len(),
        forall|j: int| i <= j < t ==> buf[j] & 0x80 != 0,
        buf[t] & 0x80 == 0,
    ensures
        varint_end(buf, i) == Some(t),
    decreases t - i,
{
    if i < t {
        lemma_varint_end_at(buf, i + 1, t);
    }
}

proof fn lemma_byte_bits(b: u8)
    by (bit_vector)
    ensures
        b < 128 ==> b & 0x80 == 0 && b & 0x7f == b,
        b >= 128 ==> b & 0x80 != 0,
        b < 128 ==> ((b + 128) as u8) & 0x7f == b,
{
}

proof fn lemma_shl7(x: u64)
    by (bit_vector)
    requires
        x < 0x200_0000_0000_0000,
    ensures
        (x << 7u64) == x * 128,
{
}

// ---------------------------------------------------------------------------
// The base offset of an offset delta.

/// The base offset `v` of an offset delta as git writes it: the last byte
/// holds the low seven bits; each byte before it, with the high bit set,
/// holds the seven bits above, of the number less one.
pub open spec fn ofs_encoding(v: nat) -> Seq<u8>
    decreases v,
{
    if v < 128 {
        seq![v as u8]
    } else {
        let hi = ofs_encoding((v / 128 - 1) as nat);
        hi.drop_last().push((hi.last() + 128) as u8).push((v % 128) as u8)
    }
}

proof fn lemma_ofs_encoding_shape(v: nat)
    ensures
        ofs_encoding(v).len() >= 1,
        ofs_encoding(v).last() < 128,
        forall|j: int| 0 <= j < ofs_encoding(v).len() - 1 ==> #[trigger] ofs_encoding(v)[j] >= 128,
    decreases v,
{
    if v >= 128 {
        let w = (v / 128 - 1) as nat;
        lemma_ofs_encoding_shape(w);
        let hi = ofs_encoding(w);
        let e = ofs_encoding(v);
        assert forall|j: int| 0 <= j < e.len() - 1 implies #[trigger] e[j] >= 128 by {
            if j < hi.len() - 1 {
                assert(e[j] == hi[j]);
            }
        }
    }
}

/// The base offset read from `a` depends only on the low seven bits of the
/// bytes it reads.
proof fn lemma_ofs_value_low_bits(a: Seq<u8>, b: Seq<u8>, n: int)
    requires
        1 <= n,
        n <= a.len(),
        n <= b.len(),
        forall|k: int| 0 <= k < n ==> #[trigger] a[k] & 0x7f == b[k] & 0x7f,
    ensures
        ofs_value(a, n) == ofs_value(b, n),
    decreases n,
{
    assert(a[n - 1] & 0x7f == b[n - 1] & 0x7f);
    if n > 1 {
        lemma_ofs_value_low_bits(a, b, n - 1);
    }
}

proof fn lemma_ofs_encoding_value(v: nat)
    requires
        v <= u64::MAX,
    ensures
        ofs_value(ofs_encoding(v), ofs_encoding(v).len() as int) == Some(v as u64),
    decreases v,
{
    lemma_ofs_encoding_shape(v);
    let e = ofs_encoding(v);
    if v < 128 {
        lemma_byte_bits(v as u8);
        assert(0u64 << 7u64 == 0u64) by (bit_vector);
    } else {
        let w = (v / 128 - 1) as nat;
        lemma_ofs_encoding_shape(w);
        lemma_ofs_encoding_value(w);
        let hi = ofs_encoding(w);
        assert forall|k: int| 0 <= k < hi.len() implies #[trigger] e[k] & 0x7f == hi[k] & 0x7f by {
            if k < hi.len() - 1 {
                assert(e[k] == hi[k]);
            } else {
                lemma_byte_bits(hi.last());
            }
        }
        lemma_ofs_value_low_bits(e, hi, hi.len() as int);
        assert(e.len() == hi.len() + 1);
        lemma_byte_bits((v % 128) as u8);
        lemma_shl7((w + 1) as u64);
        assert(ofs_step(w as u64, e[e.len() - 1], false) == Some(v as u64));
    }
}

/// Reading the base offset git writes for any offset `v` gives back `v`,
/// having read exactly the bytes written, whatever follows them: each byte
/// after the first adds one to the number above it before it is shifted.
pub proof fn law_offset_roundtrip(v: nat, rest: Seq<u8>)
    requires
        v <= u64::MAX,
    ensures
        ofs_decodable(ofs_encoding(v) + rest),
        ofs_result(ofs_encoding(v) + rest) == (ofs_encoding(v).len() as int, v as u64),
{
    let e = ofs_encoding(v);
    let buf = e + rest;
    lemma_ofs_encoding_shape(v);
    lemma_ofs_encoding_value(v);
    assert forall|j: int| 0 <= j < e.len() - 1 implies buf[j] & 0x80 != 0 by {
        assert(buf[j] == e[j]);
        lemma_byte_bits(e[j]);
    }
    assert(buf[e.len() - 1] == e.last());
    lemma_byte_bits(e.last());
    lemma_varint_end_at(buf, 0, e.len() - 1);
    assert forall|k: int| 0 <= k < e.len() implies #[trigger] buf[k] & 0x7f == e[k] & 0x7f by {
        assert(buf[k] == e[k]);
    }
    lemma_ofs_value_low_bits(buf, e, e.len() as int);
}

// ---------------------------------------------------------------------------
// The header of a packed object.

/// The rest of a packed object's header as git writes it, from the byte `c`
/// in progress and the size bits `size` not yet written: while bits remain,
/// `c` is written with the high bit set and the next seven bits start the
/// next byte.
pub open spec fn header_tail(c: u8, size: u64) -> Seq<u8>
    decreases size,
{
    if size == 0 {
        seq![c]
    } else {
        proof {
            lemma_shr7_smaller(size);
        }
        seq![c | 0x80u8].add(header_tail((size & 0x7f) as u8, size >> 7u64))
    }
}

/// The header git writes for an object of type code `code` and size `size`:
/// the type in bits 4 to 6 of the first byte and the size's low four bits
/// below them, then the remaining size bits, seven per byte, low first.
pub open spec fn pack_header_encoding(code: u8, size: u64) -> Seq<u8> {
    header_tail((code << 4u8) | ((size & 15) as u8), size >> 4u64)
}

/// The object type git means by a pack type code.
pub open spec fn type_of_code(code: u8) -> Option<PackObjectType> {
    if code == 1 {
        Some(PackObjectType::Base(ObjectType::Commit))
    } else if code == 2 {
        Some(PackObjectType::Base(ObjectType::Tree))
    } else if code == 3 {
        Some(PackObjectType::Base(ObjectType::Blob))
    } else if code == 4 {
        Some(PackObjectType::Base(ObjectType::Tag))
    } else if code == 6 {
        Some(PackObjectType::OffsetDelta { base_offset_neg: 0 })
    } else {
        None
    }
}

/// Shifting a nonzero size right by seven makes it smaller.
pub proof fn lemma_shr7_smaller(size: u64)
    by (bit_vector)
    requires
        size > 0,
    ensures
        size >> 7u64 < size,
{
}

proof fn lemma_tail_bits(c: u8, x: u64)
    by (bit_vector)
    requires
        c < 128,
    ensures
        (c | 0x80u8) & 0x80u8 != 0,
        (c | 0x80u8) & 0x7fu8 == c,
        c & 0x80u8 == 0,
        c & 0x7fu8 == c,
        ((x & 0x7f) as u8) < 128,
        (((x & 0x7f) as u8) & 0x7fu8) as u64 == x & 0x7f,
{
}

proof fn lemma_shr_shr(x: u64, a: u64, b: u64)
    requires
        a == 4 || a == 7,
        b % 7 == 0,
        b <= 56,
    ensures
        (x >> a) >> b == x >> (a + b),
{
    if a == 4 {
        if b == 0 {
            assert((x >> 4u64) >> 0u64 == x >> 4u64) by (bit_vector);
        } else if b == 7 {
            assert((x >> 4u64) >> 7u64 == x >> 11u64) by (bit_vector);
        } else if b == 14 {
            assert((x >> 4u64) >> 14u64 == x >> 18u64) by (bit_vector);
        } else if b == 21 {
            assert((x >> 4u64) >> 21u64 == x >> 25u64) by (bit_vector);
        } else if b == 28 {
            assert((x >> 4u64) >> 28u64 == x >> 32u64) by (bit_vector);
        } else if b == 35 {
            assert((x >> 4u64) >> 35u64 == x >> 39u64) by (bit_vector);
        } else if b == 42 {
            assert((x >> 4u64) >> 42u64 == x >> 46u64) by (bit_vector);
        } else if b == 49 {
            assert((x >> 4u64) >> 49u64 == x >> 53u64) by (bit_vector);
        } else {
            assert((x >> 4u64) >> 56u64 == x >> 60u64) by (bit_vector);
        }
    } else {
        if b == 0 {
            assert((x >> 7u64) >> 0u64 == x >> 7u64) by (bit_vector);
        } else if b == 7 {
            assert((x >> 7u64) >> 7u64 == x >> 14u64) by (bit_vector);
        } else if b == 14 {
            assert((x >> 7u64) >> 14u64 == x >> 21u64) by (bit_vector);
        } else if b == 21 {
            assert((x >> 7u64) >> 21u64 == x >> 28u64) by (bit_vector);
        } else if b == 28 {
            assert((x >> 7u64) >> 28u64 == x >> 35u64) by (bit_vector);
        } else if b == 35 {
            assert((x >> 7u64) >> 35u64 == x >> 42u64) by (bit_vector);
        } else if b == 42 {
            assert((x >> 7u64) >> 42u64 == x >> 49u64) by (bit_vector);
        } else if b == 49 {
            assert((x >> 7u64) >> 49u64 == x >> 56u64) by (bit_vector);
        } else {
            assert((x >> 7u64) >> 56u64 == x >> 63u64) by (bit_vector);
        }
    }
}

proof fn lemma_low_seven(b: u8, c: u8)
    by (bit_vector)
    requires
        b & 0x7fu8 == c,
    ensures
        b & 0x0fu8 == c & 0x0fu8,
        b & 0x70u8 == c & 0x70u8,
{
}

/// The shape of a header tail: its length, its continuation bits, and the
/// seven size bits each byte after the first holds.
proof fn lemma_header_tail(c: u8, x: u64, m: u64)
    requires
        c < 128,
        m <= 9,
        x >> ((7 * m) as u64) == 0,
    ensures
        1 <= header_tail(c, x).len() <= m + 1,
        forall|k: int|
            0 <= k < header_tail(c, x).len() - 1 ==> #[trigger] header_tail(c, x)[k] & 0x80u8 != 0,
        header_tail(c, x)[header_tail(c, x).len() - 1] & 0x80u8 == 0,
        header_tail(c, x)[0] & 0x7fu8 == c,
        forall|k: int|
            1 <= k < header_tail(c, x).len() ==> ((#[trigger] header_tail(c, x)[k] & 0x7fu8) as u64) == (x
                >> (7 * (k - 1)) as u64) & 0x7f,
        x >> (7 * (header_tail(c, x).len() - 1)) as u64 == 0,
    decreases x,
{
    let t = header_tail(c, x);
    lemma_tail_bits(c, x);
    if x == 0 {
        assert(0u64 >> 0u64 == 0) by (bit_vector);
    } else {
        if m == 0 {
            assert(x >> 0u64 == x) by (bit_vector);
        }
        lemma_shr7_smaller(x);
        lemma_shr_shr(x, 7, (7 * (m - 1)) as u64);
        let c2 = (x & 0x7f) as u8;
        let x2 = x >> 7u64;
        lemma_header_tail(c2, x2, (m - 1) as u64);
        let rest = header_tail(c2, x2);
        assert(t == seq![c | 0x80u8].add(rest));
        assert forall|k: int| 0 <= k < t.len() - 1 implies #[trigger] t[k] & 0x80u8 != 0 by {
            if k > 0 {
                assert(t[k] == rest[k - 1]);
            }
        }
        assert(t[t.len() - 1] == rest[rest.len() - 1]);
        assert forall|k: int| 1 <= k < t.len() implies ((#[trigger] t[k] & 0x7fu8) as u64) == (x >> (7 * (k
            - 1)) as u64) & 0x7f by {
            assert(t[k] == rest[k - 1]);
            if k == 1 {
                assert(x >> 0u64 == x) by (bit_vector);
            } else {
                lemma_shr_shr(x, 7, (7 * (k - 2)) as u64);
            }
        }
        lemma_shr_shr(x, 7, (7 * (rest.len() - 1)) as u64);
    }
}

proof fn lemma_first_byte(code: u8, s: u64)
    by (bit_vector)
    requires
        code < 8,
    ensures
        ((code << 4u8) | ((s & 15) as u8)) < 128,
        (((code << 4u8) | ((s & 15) as u8)) & 0x0fu8) as u64 == s & 15,
        ((code << 4u8) | ((s & 15) as u8)) & 0x70u8 == code << 4u8,
        (s >> 4u64) >> 63u64 == 0,
        s & 15 == s & (((1u64 << 4u64) - 1) as u64),
{
}

proof fn lemma_size_step(s: u64, sh: u64)
    by (bit_vector)
    requires
        sh <= 60,
    ensures
        (s & (((1u64 << sh) - 1) as u64)) + (((s >> sh) & 0x7f) << sh) <= u64::MAX,
        sh + 7 < 64 ==> (s & (((1u64 << sh) - 1) as u64)) + (((s >> sh) & 0x7f) << sh) == s & (((1u64 << ((sh + 7) as u64)) - 1) as u64),
        sh + 7 >= 64 ==> (s & (((1u64 << sh) - 1) as u64)) + (((s >> sh) & 0x7f) << sh) == s,
{
}

proof fn lemma_size_done(s: u64, m: u64)
    by (bit_vector)
    requires
        m < 64,
        s >> m == 0,
    ensures
        s & (((1u64 << m) - 1) as u64) == s,
{
}

/// The low `m` bits of `s` (all of `s` from 64 on).
pub open spec fn low_bits(s: u64, m: int) -> u64 {
    if m >= 64 {
        s
    } else {
        s & (((1u64 << (m as u64)) - 1) as u64)
    }
}

proof fn lemma_header_size_prefix(code: u8, s: u64, k: int)
    requires
        code < 8,
        1 <= k <= pack_header_encoding(code, s).len(),
    ensures
        header_size(pack_header_encoding(code, s), k) == low_bits(s, 4 + 7 * (k - 1)),
    decreases k,
{
    let c0 = (code << 4u8) | ((s & 15) as u8);
    let x = s >> 4u64;
    let buf = pack_header_encoding(code, s);
    lemma_first_byte(code, s);
    lemma_header_tail(c0, x, 9);
    if k == 1 {
        assert(buf[0] & 0x7fu8 == c0);
        lemma_low_seven(buf[0], c0);
    } else {
        lemma_header_size_prefix(code, s, k - 1);
        let sh = (4 + 7 * (k - 2)) as u64;
        assert(((buf[k - 1] & 0x7fu8) as u64) == (x >> (7 * (k - 2)) as u64) & 0x7f);
        lemma_shr_shr(s, 4, (7 * (k - 2)) as u64);
        lemma_size_step(s, sh);
    }
}

/// Reading the header git writes for an object of any known type and any
/// size gives back that type and size, having read exactly the bytes
/// written: every byte after the first adds seven more bits of the size,
/// above those read before.
pub proof fn law_pack_header_roundtrip(code: u8, size: u64, rest: Seq<u8>)
    requires
        type_of_code(code) is Some,
    ensures
        header_decodable(pack_header_encoding(code, size) + rest),
        header_result(pack_header_encoding(code, size) + rest) == Some(
            (pack_header_encoding(code, size).len() as int, type_of_code(code).unwrap(), size),
        ),
{
    let c0 = (code << 4u8) | ((size & 15) as u8);
    let x = size >> 4u64;
    let e = pack_header_encoding(code, size);
    let buf = e + rest;
    let n = e.len() as int;
    lemma_first_byte(code, size);
    lemma_header_tail(c0, x, 9);
    assert(buf[0] == e[0]);
    lemma_low_seven(e[0], c0);
    assert forall|j: int| 0 <= j < n - 1 implies buf[j] & 0x80u8 != 0 by {
        assert(buf[j] == e[j]);
    }
    assert(buf[n - 1] == e[n - 1]);
    lemma_varint_end_at(buf, 0, n - 1);
    lemma_header_size_prefix(code, size, n);
    lemma_header_size_same(buf, e, n);
    if 4 + 7 * (n - 1) < 64 {
        lemma_shr_shr(size, 4, (7 * (n - 1)) as u64);
        lemma_size_done(size, (4 + 7 * (n - 1)) as u64);
    }
    assert(header_size(buf, n) == size);
    assert(code << 4u8 == code * 16) by (bit_vector)
        requires
            code < 8,
    ;
    assert(header_type_bits(buf[0]) == code * 16);
    assert(header_type(buf[0]) == type_of_code(code));
    assert(varint_end(buf, 0) == Some(n - 1));
    assert(n - 1 <= 9);
}

/// A header whose type code names no object type (0, 5 and 7) is refused,
/// whatever size it carries.
pub proof fn law_pack_header_unknown_type(code: u8, size: u64, rest: Seq<u8>)
    requires
        code < 8,
        type_of_code(code) is None,
    ensures
        header_result(pack_header_encoding(code, size) + rest) is None,
{
    let c0 = (code << 4u8) | ((size & 15) as u8);
    let x = size >> 4u64;
    let e = pack_header_encoding(code, size);
    let buf = e + rest;
    lemma_first_byte(code, size);
    lemma_header_tail(c0, x, 9);
    assert(buf[0] == e[0]);
    lemma_low_seven(e[0], c0);
    assert(code << 4u8 == code * 16) by (bit_vector)
        requires
            code < 8,
    ;
    assert(header_type_bits(buf[0]) == code * 16);
}

/// The size read from a header depends only on the bytes it reads.
proof fn lemma_header_size_same(a: Seq<u8>, b: Seq<u8>, n: int)
    requires
        1 <= n <= b.len(),
        n <= a.len(),
        forall|k: int| 0 <= k < n ==> #[trigger] a[k] == b[k],
    ensures
        header_size(a, n) == header_size(b, n),
    decreases n,
{
    assert(a[n - 1] == b[n - 1]);
    assert(a[0] == b[0]);
    if n > 1 {
        lemma_header_size_same(a, b, n - 1);
    }
}

// ---------------------------------------------------------------------------
// Copy instructions of a delta.

/// The bytes of `vals` that are not zero, in order: the operand bytes git
/// writes, leaving out each zero byte.
pub open spec fn present_bytes(vals: Seq<u8>) -> Seq<u8>
    decreases vals.len(),
{
    if vals.len() == 0 {
        Seq::empty()
    } else {
        (if vals[0] != 0 {
            seq![vals[0]]
        } else {
            Seq::empty()
        }) + present_bytes(vals.drop_first())
    }
}

/// The flag bits saying which of `vals` are written: bit `k` for byte `k`.
pub open spec fn presence_flags(vals: Seq<u8>) -> nat
    decreases vals.len(),
{
    if vals.len() == 0 {
        0
    } else {
        (if vals[0] != 0 {
            1nat
        } else {
            0nat
        }) + 2 * presence_flags(vals.drop_first())
    }
}

/// The little-endian number of `vals`.
pub open spec fn le_number(vals: Seq<u8>) -> int
    decreases vals.len(),
{
    if vals.len() == 0 {
        0
    } else {
        vals[0] + 256 * le_number(vals.drop_first())
    }
}

/// The four bytes of an offset below 2^32, low first.
pub open spec fn offset_bytes(o: nat) -> Seq<u8> {
    seq![
        (o % 256) as u8,
        (o / 256 % 256) as u8,
        (o / 65536 % 256) as u8,
        (o / 16777216 % 256) as u8,
    ]
}

/// The three bytes of a copy size below 2^24, low first; 0x10000 is
/// written as zero, so that no size byte is needed for it.
pub open spec fn size_bytes(s: nat) -> Seq<u8> {
    let v = if s == 0x10000 {
        0
    } else {
        s
    };
    seq![(v % 256) as u8, (v / 256 % 256) as u8, (v / 65536 % 256) as u8]
}

/// The copy instruction git writes to copy `s` bytes of the base from
/// offset `o`: an opcode with the high bit set whose low four bits say which
/// offset bytes follow and whose next bits say which size bytes follow, then
/// the nonzero offset bytes and the nonzero size bytes, low first.
pub open spec fn copy_instruction(o: nat, s: nat) -> Seq<u8> {
    seq![(128 + presence_flags(offset_bytes(o)) + 16 * presence_flags(size_bytes(s))) as u8] + present_bytes(
        offset_bytes(o),
    ) + present_bytes(size_bytes(s))
}

proof fn lemma_flag_bits(f: u8)
    by (bit_vector)
    ensures
        (f & 1u8 != 0) <==> f % 2 == 1,
        f >> 1u8 == f / 2,
        f >> 4u8 == f / 16,
        f >= 128 ==> f & 0x80u8 != 0,
{
}

proof fn lemma_presence_flags_bound(vals: Seq<u8>)
    ensures
        presence_flags(vals) < pow2_nat(vals.len()),
    decreases vals.len(),
{
    if vals.len() > 0 {
        lemma_presence_flags_bound(vals.drop_first());
    }
}

/// 2 to the power `n`.
pub open spec fn pow2_nat(n: nat) -> nat
    decreases n,
{
    if n == 0 {
        1
    } else {
        2 * pow2_nat((n - 1) as nat)
    }
}

/// Gathering the operand bytes written for `vals` gives back their number
/// and ends after them.
proof fn lemma_gather_present(d: Seq<u8>, pos: int, f: u8, vals: Seq<u8>, extra: nat)
    requires
        0 <= pos,
        f as nat == presence_flags(vals) + pow2_nat(vals.len()) * extra,
        pos + present_bytes(vals).len() <= d.len(),
        d.subrange(pos, pos + present_bytes(vals).len()) == present_bytes(vals),
    ensures
        gather(d, pos, f, vals.len()) == Some((le_number(vals), pos + present_bytes(vals).len())),
    decreases vals.len(),
{
    if vals.len() > 0 {
        let rest = vals.drop_first();
        let pb = present_bytes(vals);
        let pr = present_bytes(rest);
        lemma_flag_bits(f);
        let first = if vals[0] != 0 { 1nat } else { 0nat };
        assert(f as nat == first + 2 * (presence_flags(rest) + pow2_nat(rest.len()) * extra)) by (nonlinear_arith)
            requires
                f as nat == presence_flags(vals) + pow2_nat(vals.len()) * extra,
                presence_flags(vals) == first + 2 * presence_flags(rest),
                pow2_nat(vals.len()) == 2 * pow2_nat(rest.len()),
        ;
        assert(f % 2 == first);
        assert((f >> 1u8) as nat == presence_flags(rest) + pow2_nat(rest.len()) * extra);
        let p2 = if vals[0] != 0 { pos + 1 } else { pos };
        if vals[0] != 0 {
            assert(pb == seq![vals[0]] + pr);
            assert(d[pos] == pb[0]);
            assert(d.subrange(p2, p2 + pr.len()) =~= pr) by {
                assert forall|i: int| 0 <= i < pr.len() implies d.subrange(p2, p2 + pr.len())[i] == pr[i] by {
                    assert(d.subrange(pos, pos + pb.len())[i + 1] == pb[i + 1]);
                }
            }
        } else {
            assert(pb =~= pr);
        }
        lemma_gather_present(d, p2, f >> 1u8, rest, extra);
    }
}

proof fn lemma_offset_bytes(o: nat)
    requires
        o < 0x1_0000_0000,
    ensures
        le_number(offset_bytes(o)) == o,
        offset_bytes(o).len() == 4,
{
    let b = offset_bytes(o);
    reveal_with_fuel(le_number, 5);
    assert(b.drop_first().drop_first().drop_first().drop_first() =~= Seq::<u8>::empty());
    assert(b.drop_first() =~= seq![b[1], b[2], b[3]]);
    assert(b.drop_first().drop_first() =~= seq![b[2], b[3]]);
    assert(b.drop_first().drop_first().drop_first() =~= seq![b[3]]);
}

proof fn lemma_size_bytes(s: nat)
    requires
        1 <= s < 0x100_0000,
    ensures
        size_bytes(s).len() == 3,
        le_number(size_bytes(s)) == if s == 0x10000 { 0 } else { s },
        presence_flags(size_bytes(s)) < 8,
{
    let b = size_bytes(s);
    reveal_with_fuel(le_number, 4);
    reveal_with_fuel(presence_flags, 4);
    assert(b.drop_first() =~= seq![b[1], b[2]]);
    assert(b.drop_first().drop_first() =~= seq![b[2]]);
    assert(b.drop_first().drop_first().drop_first() =~= Seq::<u8>::empty());
}

/// The instruction at `z` of `d` is the copy instruction git writes for `o`
/// and `s`: it gives those bytes of the base, then whatever the
/// instructions after it give.
proof fn lemma_copy_at(pre: Seq<u8>, o: nat, s: nat, post: Seq<u8>, base: Seq<u8>)
    requires
        o < 0x1_0000_0000,
        1 <= s < 0x100_0000,
        o + s <= base.len(),
    ensures
        delta_ops(pre + copy_instruction(o, s) + post, pre.len() as int, base) == match delta_ops(
            pre + copy_instruction(o, s) + post,
            pre.len() + copy_instruction(o, s).len() as int,
            base,
        ) {
            Some(r) => Some(base.subrange(o as int, (o + s) as int) + r),
            None => None,
        },
{
    let ob = offset_bytes(o);
    let sb = size_bytes(s);
    let of = presence_flags(ob);
    let sf = presence_flags(sb);
    lemma_offset_bytes(o);
    lemma_size_bytes(s);
    lemma_presence_flags_bound(ob);
    reveal_with_fuel(pow2_nat, 5);
    assert(pow2_nat(4) == 16 && pow2_nat(3) == 8);
    assert(of < 16);
    assert(128 + of + 16 * sf < 256);
    let instr = (128 + of + 16 * sf) as u8;
    let ci = copy_instruction(o, s);
    let d = pre + ci + post;
    let z: int = pre.len() as int;
    let po = present_bytes(ob);
    let ps = present_bytes(sb);
    assert(ci =~= seq![instr] + po + ps);
    assert(d =~= pre + seq![instr] + po + ps + post);
    assert(d[z] == instr);
    lemma_flag_bits(instr);
    assert(instr as nat == of + pow2_nat(4) * (8 + sf));
    assert(d.subrange(z + 1, z + 1 + po.len()) =~= po);
    lemma_gather_present(d, z + 1, instr, ob, 8 + sf);
    let p: int = z + 1 + po.len();
    assert(d.subrange(p, p + ps.len()) =~= ps);
    assert((instr >> 4u8) as nat == sf + pow2_nat(3) * 1);
    lemma_gather_present(d, p, instr >> 4u8, sb, 1);
    assert(copy_operands(d, z + 1, instr) == Some((o as int, s as int, z + ci.len())));
}

/// A copy instruction git writes, for any offset below 2^32 and any size
/// below 2^24 within the base, copies exactly the bytes of the base from
/// that offset: offset and size are the little-endian numbers of the bytes
/// present, each weighted by its own position, and a size written with no
/// byte is 0x10000.
pub proof fn law_copy_roundtrip(o: nat, s: nat, base: Seq<u8>)
    requires
        o < 0x1_0000_0000,
        1 <= s < 0x100_0000,
        o + s <= base.len(),
    ensures
        delta_ops(copy_instruction(o, s), 0, base) == Some(base.subrange(o as int, (o + s) as int)),
{
    let ci = copy_instruction(o, s);
    lemma_copy_at(Seq::empty(), o, s, Seq::empty(), base);
    assert(Seq::<u8>::empty() + ci + Seq::<u8>::empty() =~= ci);
    assert(delta_ops(ci, ci.len() as int, base) == Some(Seq::<u8>::empty()));
    assert(base.subrange(o as int, (o + s) as int) + Seq::<u8>::empty() =~= base.subrange(o as int, (o + s) as int));
}

/// The insert instruction git writes for 1 to 127 literal bytes: their
/// count, then the bytes.
pub open spec fn insert_instruction(data: Seq<u8>) -> Seq<u8> {
    seq![data.len() as u8] + data
}

proof fn lemma_insert_at(pre: Seq<u8>, data: Seq<u8>, post: Seq<u8>, base: Seq<u8>)
    requires
        1 <= data.len() <= 127,
    ensures
        delta_ops(pre + insert_instruction(data) + post, pre.len() as int, base) == match delta_ops(
            pre + insert_instruction(data) + post,
            pre.len() + insert_instruction(data).len() as int,
            base,
        ) {
            Some(r) => Some(data + r),
            None => None,
        },
{
    let ii = insert_instruction(data);
    let d = pre + ii + post;
    let z: int = pre.len() as int;
    let c = data.len() as u8;
    assert(d[z] == c);
    lemma_byte_bits(c);
    assert(d.subrange(z + 1, z + 1 + data.len()) =~= data);
}

/// One instruction of a delta: copy a range of the base, or insert bytes.
pub enum DeltaPiece {
    Copy(nat, nat),
    Insert(Seq<u8>),
}

/// The bytes git writes for a piece.
pub open spec fn piece_bytes(p: DeltaPiece) -> Seq<u8> {
    match p {
        DeltaPiece::Copy(o, s) => copy_instruction(o, s),
        DeltaPiece::Insert(data) => insert_instruction(data),
    }
}

/// What a piece stands for in the rebuilt object.
pub open spec fn piece_output(p: DeltaPiece, base: Seq<u8>) -> Seq<u8> {
    match p {
        DeltaPiece::Copy(o, s) => base.subrange(o as int, (o + s) as int),
        DeltaPiece::Insert(data) => data,
    }
}

/// A piece git can write against `base`: a copy of a range of the base
/// with an offset below 2^32 and a size from 1 to below 2^24, or an insert
/// of 1 to 127 bytes.
pub open spec fn piece_ok(p: DeltaPiece, base: Seq<u8>) -> bool {
    match p {
        DeltaPiece::Copy(o, s) => o < 0x1_0000_0000 && 1 <= s < 0x100_0000 && o + s <= base.len(),
        DeltaPiece::Insert(data) => 1 <= data.len() <= 127,
    }
}

/// The instruction bytes of `ps`, in order.
pub open spec fn pieces_bytes(ps: Seq<DeltaPiece>) -> Seq<u8>
    decreases ps.len(),
{
    if ps.len() == 0 {
        Seq::empty()
    } else {
        piece_bytes(ps[0]) + pieces_bytes(ps.drop_first())
    }
}

/// What `ps` stand for, in order.
pub open spec fn pieces_output(ps: Seq<DeltaPiece>, base: Seq<u8>) -> Seq<u8>
    decreases ps.len(),
{
    if ps.len() == 0 {
        Seq::empty()
    } else {
        piece_output(ps[0], base) + pieces_output(ps.drop_first(), base)
    }
}

proof fn lemma_pieces_at(pre: Seq<u8>, ps: Seq<DeltaPiece>, base: Seq<u8>)
    requires
        forall|k: int| 0 <= k < ps.len() ==> piece_ok(#[trigger] ps[k], base),
    ensures
        delta_ops(pre + pieces_bytes(ps), pre.len() as int, base) == Some(pieces_output(ps, base)),
    decreases ps.len(),
{
    if ps.len() == 0 {
        assert(pre + pieces_bytes(ps) =~= pre);
    } else {
        let p0 = ps[0];
        let rest = ps.drop_first();
        let pb = piece_bytes(p0);
        let post = pieces_bytes(rest);
        assert(forall|k: int| 0 <= k < rest.len() ==> piece_ok(#[trigger] rest[k], base)) by {
            assert forall|k: int| 0 <= k < rest.len() implies piece_ok(#[trigger] rest[k], base) by {
                assert(rest[k] == ps[k + 1]);
            }
        }
        assert(piece_ok(ps[0], base));
        lemma_pieces_at(pre + pb, rest, base);
        assert(pre + pieces_bytes(ps) =~= pre + pb + post);
        match p0 {
            DeltaPiece::Copy(o, s) => {
                lemma_copy_at(pre, o, s, post, base);
            },
            DeltaPiece::Insert(data) => {
                lemma_insert_at(pre, data, post, base);
            },
        }
    }
}

/// Applying the instructions of a delta git writes gives the pieces they
/// stand for, in order: each copy gives the range of the base it names and
/// each insert gives its bytes.
pub proof fn law_delta_instructions(ps: Seq<DeltaPiece>, base: Seq<u8>)
    requires
        forall|k: int| 0 <= k < ps.len() ==> piece_ok(#[trigger] ps[k], base),
    ensures
        delta_ops(pieces_bytes(ps), 0, base) == Some(pieces_output(ps, base)),
{
    lemma_pieces_at(Seq::empty(), ps, base);
    assert(Seq::<u8>::empty() + pieces_bytes(ps) =~= pieces_bytes(ps));
}

// ---------------------------------------------------------------------------
// The sizes that open a delta.

/// A size as git writes it at the start of a delta: seven bits per byte,
/// low first, the high bit set on every byte but the last.
pub open spec fn size_encoding(x: u64) -> Seq<u8>
    decreases x,
{
    if x < 128 {
        seq![x as u8]
    } else {
        proof {
            lemma_shr7_smaller(x);
        }
        seq![((x & 0x7f) as u8) | 0x80u8].add(size_encoding(x >> 7u64))
    }
}

proof fn lemma_small_byte(x: u64)
    by (bit_vector)
    requires
        x < 128,
    ensures
        (x as u8) & 0x80u8 == 0,
        ((x as u8) & 0x7fu8) as u64 == x & 0x7f,
        x >> 0u64 == x,
{
}

proof fn lemma_size_encoding(x: u64, m: u64)
    requires
        m <= 9,
        x >> ((7 * m) as u64) < 128,
    ensures
        1 <= size_encoding(x).len() <= m + 1,
        forall|k: int|
            0 <= k < size_encoding(x).len() - 1 ==> #[trigger] size_encoding(x)[k] & 0x80u8 != 0,
        size_encoding(x)[size_encoding(x).len() - 1] & 0x80u8 == 0,
        forall|k: int|
            0 <= k < size_encoding(x).len() ==> ((#[trigger] size_encoding(x)[k] & 0x7fu8) as u64) == (x
                >> (7 * k) as u64) & 0x7f,
        (x >> ((7 * (size_encoding(x).len() - 1)) as u64)) < 128,
    decreases x,
{
    let t = size_encoding(x);
    if x < 128 {
        lemma_small_byte(x);
    } else {
        if m == 0 {
            assert(x >> 0u64 == x) by (bit_vector);
        }
        lemma_shr7_smaller(x);
        lemma_shr_shr(x, 7, (7 * (m - 1)) as u64);
        let x2 = x >> 7u64;
        lemma_size_encoding(x2, (m - 1) as u64);
        let rest = size_encoding(x2);
        lemma_tail_bits(0, x);
        let c = (x & 0x7f) as u8;
        lemma_tail_bits(c, x);
        assert(t == seq![c | 0x80u8].add(rest));
        assert forall|k: int| 0 <= k < t.len() - 1 implies #[trigger] t[k] & 0x80u8 != 0 by {
            if k > 0 {
                assert(t[k] == rest[k - 1]);
            }
        }
        assert(t[t.len() - 1] == rest[rest.len() - 1]);
        assert forall|k: int| 0 <= k < t.len() implies ((#[trigger] t[k] & 0x7fu8) as u64) == (x >> (7
            * k) as u64) & 0x7f by {
            if k == 0 {
                assert(x >> 0u64 == x) by (bit_vector);
            } else {
                assert(t[k] == rest[k - 1]);
                lemma_shr_shr(x, 7, (7 * (k - 1)) as u64);
            }
        }
        lemma_shr_shr(x, 7, (7 * (rest.len() - 1)) as u64);
    }
}

proof fn lemma_leb_step(x: u64, sh: u64)
    by (bit_vector)
    requires
        sh <= 63,
    ensures
        (x & (((1u64 << sh) - 1) as u64)) + (((x >> sh) & 0x7f) << sh) <= u64::MAX,
        sh + 7 < 64 ==> (x & (((1u64 << sh) - 1) as u64)) + (((x >> sh) & 0x7f) << sh) == x & (((1u64
            << ((sh + 7) as u64)) - 1) as u64),
        sh + 7 >= 64 ==> (x & (((1u64 << sh) - 1) as u64)) + (((x >> sh) & 0x7f) << sh) == x,
{
}

proof fn lemma_leb_last(x: u64, sh: u64)
    by (bit_vector)
    requires
        sh + 7 < 64,
        x >> sh < 128,
    ensures
        x & (((1u64 << ((sh + 7) as u64)) - 1) as u64) == x,
{
}

proof fn lemma_leb_prefix(x: u64, k: int)
    requires
        0 <= k <= size_encoding(x).len(),
    ensures
        leb_value(size_encoding(x), k) == low_bits(x, 7 * k),
    decreases k,
{
    assert(x >> 63u64 < 128) by (bit_vector);
    lemma_size_encoding(x, 9);
    if k == 0 {
        assert(x & (((1u64 << 0u64) - 1) as u64) == 0) by (bit_vector);
    } else {
        lemma_leb_prefix(x, k - 1);
        lemma_leb_step(x, (7 * (k - 1)) as u64);
    }
}

/// The value read from the start of a delta depends only on the bytes read.
proof fn lemma_leb_value_same(a: Seq<u8>, b: Seq<u8>, n: int)
    requires
        0 <= n <= b.len(),
        n <= a.len(),
        forall|k: int| 0 <= k < n ==> #[trigger] a[k] == b[k],
    ensures
        leb_value(a, n) == leb_value(b, n),
    decreases n,
{
    if n > 0 {
        assert(a[n - 1] == b[n - 1]);
        lemma_leb_value_same(a, b, n - 1);
    }
}

/// Reading a size git writes at the start of a delta gives back that size,
/// having read exactly the bytes written, whatever follows them.
pub proof fn law_size_roundtrip(x: u64, rest: Seq<u8>)
    ensures
        leb_decodable(size_encoding(x) + rest),
        leb_result(size_encoding(x) + rest) == (size_encoding(x).len() as int, x),
{
    let e = size_encoding(x);
    let buf = e + rest;
    let n = e.len() as int;
    assert(x >> 63u64 < 128) by (bit_vector);
    lemma_size_encoding(x, 9);
    assert forall|j: int| 0 <= j < n - 1 implies buf[j] & 0x80u8 != 0 by {
        assert(buf[j] == e[j]);
    }
    assert(buf[n - 1] == e[n - 1]);
    lemma_varint_end_at(buf, 0, n - 1);
    lemma_leb_prefix(x, n);
    lemma_leb_value_same(buf, e, n);
    if 7 * n < 64 {
        lemma_leb_last(x, (7 * (n - 1)) as u64);
    }
}

/// A delta as git writes it: the size of the base, the size of the object
/// it rebuilds, then its instructions.
pub open spec fn delta_encoding(base_len: u64, ps: Seq<DeltaPiece>, out_len: u64) -> Seq<u8> {
    size_encoding(base_len) + size_encoding(out_len) + pieces_bytes(ps)
}

/// Applying a delta git writes to its base rebuilds exactly the object it
/// was written for: the pieces its instructions stand for, in order.
pub proof fn law_delta_roundtrip(ps: Seq<DeltaPiece>, base: Seq<u8>)
    requires
        forall|k: int| 0 <= k < ps.len() ==> piece_ok(#[trigger] ps[k], base),
        base.len() <= u64::MAX,
        pieces_output(ps, base).len() <= u64::MAX,
    ensures
        delta_result(
            delta_encoding(base.len() as u64, ps, pieces_output(ps, base).len() as u64),
            base,
        ) == Some(pieces_output(ps, base)),
{
    let out = pieces_output(ps, base);
    let e1 = size_encoding(base.len() as u64);
    let e2 = size_encoding(out.len() as u64);
    let ib = pieces_bytes(ps);
    let d = delta_encoding(base.len() as u64, ps, out.len() as u64);
    assert(d =~= e1 + (e2 + ib));
    law_size_roundtrip(base.len() as u64, e2 + ib);
    let rest = d.subrange(e1.len() as int, d.len() as int);
    assert(rest =~= e2 + ib);
    law_size_roundtrip(out.len() as u64, ib);
    lemma_pieces_at(e1 + e2, ps, base);
    assert(e1 + e2 + ib =~= d);
}

} // verus!
