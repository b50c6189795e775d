//! Decoding objects stored in pack files.
use vstd::prelude::*;

use crate::error::{Error, InternalObjectError, PackDecompressError, inflate_status_of, InflateStatus};
use crate::object_store::inflate::{inflate_zlib, zlib_inflate};
use crate::object_store::{ObjectType, RawObject};

verus! {

/// How a packed object is stored: whole, or as a delta against another
/// object found `base_offset_neg` bytes earlier in the same pack.
#[derive(Debug, PartialEq, Eq, Clone, Copy)]
pub enum PackObjectType {
    Base(ObjectType),
    OffsetDelta { base_offset_neg: u64 },
    RefDelta,
}

/// A packed object's type and its decompressed body.
#[derive(Debug)]
pub struct PackObject {
    pub object_type: PackObjectType,
    pub body: Vec<u8>,
}

/// Index of the first byte at or after `i` whose high bit is clear, if any.
pub open spec fn varint_end(buf: Seq<u8>, i: int) -> Option<int>
    decreases buf.len() - i,
{
    if i < 0 || i >= buf.len() {
        None
    } else if buf[i] & 0x80 == 0 {
        Some(i)
    } else {
        varint_end(buf, i + 1)
    }
}

proof fn lemma_varint_end(buf: Seq<u8>, i: int)
    requires
        0 <= i,
    ensures
        varint_end(buf, i) matches Some(t) ==> i <= t < buf.len() && buf[t] & 0x80 == 0
            && forall|j: int| i <= j < t ==> buf[j] & 0x80 != 0,
        varint_end(buf, i) is None ==> forall|j: int| i <= j < buf.len() ==> buf[j] & 0x80 != 0,
    decreases buf.len() - i,
{
    if i < buf.len() && buf[i] & 0x80 != 0 {
        lemma_varint_end(buf, i + 1);
    }
}

// ---------------------------------------------------------------------------
// The object header: type in bits 4..6 of the first byte, size in the low
// four bits of the first byte and seven bits of each following byte.

/// The pack type code of a header's first byte.
pub open spec fn header_type_bits(b: u8) -> u8 {
    b & 0x70
}

/// The object size encoded by the first `n` header bytes.
pub open spec fn header_size(buf: Seq<u8>, n: int) -> u64
    decreases n,
{
    if n <= 1 {
        (buf[0] & 0x0f) as u64
    } else {
        (header_size(buf, n - 1) + (((buf[n - 1] & 0x7f) as u64) << ((4 + 7 * (n - 2)) as u64))) as u64
    }
}

/// Decoding the header in `buf` does not fail irrecoverably: the type code
/// is not the unsupported one and, for a known type, the size ends within
/// ten bytes of `buf`.
pub open spec fn header_decodable(buf: Seq<u8>) -> bool {
    &&& buf.len() >= 1
    &&& header_type_bits(buf[0]) != 0x70
    &&& (header_type_bits(buf[0]) == 0x00 || header_type_bits(buf[0]) == 0x50 || (
    varint_end(buf, 0) matches Some(t) && t <= 9))
}

/// The type named by a header's type code, if it is a known one.
pub open spec fn header_type(b: u8) -> Option<PackObjectType> {
    let t = header_type_bits(b);
    if t == 0x10 {
        Some(PackObjectType::Base(ObjectType::Commit))
    } else if t == 0x20 {
        Some(PackObjectType::Base(ObjectType::Tree))
    } else if t == 0x30 {
        Some(PackObjectType::Base(ObjectType::Blob))
    } else if t == 0x40 {
        Some(PackObjectType::Base(ObjectType::Tag))
    } else if t == 0x60 {
        Some(PackObjectType::OffsetDelta { base_offset_neg: 0 })
    } else {
        None
    }
}

/// What decoding the header in `buf` gives: bytes read, type and size.
pub open spec fn header_result(buf: Seq<u8>) -> Option<(int, PackObjectType, u64)> {
    match header_type(buf[0]) {
        None => None,
        Some(ty) => {
            let t = varint_end(buf, 0)->0;
            Some((t + 1, ty, header_size(buf, t + 1)))
        },
    }
}

proof fn lemma_add_shifted(acc: u64, b: u8, s: u64)
    by (bit_vector)
    requires
        s <= 63,
        acc < (1u64 << s),
    ensures
        acc + (((b & 0x7f) as u64) << s) <= u64::MAX,
        s + 7 < 64 ==> acc + (((b & 0x7f) as u64) << s) < (1u64 << (s + 7) as u64),
{
}

proof fn lemma_low_nibble(b: u8)
    by (bit_vector)
    ensures
        ((b & 0x0f) as u64) < (1u64 << 4u64),
{
}

/// Decodes the type and size at the start of a packed object's header.
/// Returns the number of bytes read, the type and the size; a type code
/// that names no object type is reported as a malformed object.
pub fn read_obj_type_size(buf: &[u8]) -> (r: Result<(usize, PackObjectType, u64), InternalObjectError>)
    requires
        header_decodable(buf@),
    ensures
        header_result(buf@) matches Some((n, ty, size)) ==> r matches Ok((n2, ty2, size2)) && n2
            == n && ty2 == ty && size2 == size,
        header_result(buf@) is None ==> r == Err::<(usize, PackObjectType, u64), InternalObjectError>(
            InternalObjectError::MalformedPackObject,
        ),
        r matches Ok(x) ==> 1 <= x.0 <= 10 && x.0 <= buf.len(),
{
    let b0 = buf[0];
    let t = b0 & 0x70;
    let object_type = if t == 0x10 {
        PackObjectType::Base(ObjectType::Commit)
    } else if t == 0x20 {
        PackObjectType::Base(ObjectType::Tree)
    } else if t == 0x30 {
        PackObjectType::Base(ObjectType::Blob)
    } else if t == 0x40 {
        PackObjectType::Base(ObjectType::Tag)
    } else if t == 0x60 {
        PackObjectType::OffsetDelta { base_offset_neg: 0 }
    } else {
        return Err(InternalObjectError::MalformedPackObject);
    };
    proof {
        lemma_varint_end(buf@, 0);
        lemma_low_nibble(b0);
    }
    let ghost end = varint_end(buf@, 0)->0;
    let mut size: u64 = (b0 & 0x0f) as u64;
    let mut pos: usize = 1;
    let mut done = b0 & 0x80 == 0;
    while !done
        invariant
            1 <= pos <= end + 1,
            end <= 9,
            end < buf.len(),
            forall|j: int| 0 <= j < end ==> buf@[j] & 0x80 != 0,
            buf@[end] & 0x80 == 0,
            done <==> pos == end + 1,
            size == header_size(buf@, pos as int),
            4 + 7 * (pos - 1) < 64 ==> size < (1u64 << ((4 + 7 * (pos - 1)) as u64)),
        decreases end + 1 - pos,
    {
        let b = buf[pos];
        let shift: u64 = 4 + 7 * (pos as u64 - 1);
        proof {
            lemma_add_shifted(size, b, shift);
        }
        size = size + (((b & 0x7f) as u64) << shift);
        done = b & 0x80 == 0;
        pos = pos + 1;
        proof {
            if pos <= end {
                assert(pos - 1 < end);
            }
        }
    }
    Ok((pos, object_type, size))
}

// ---------------------------------------------------------------------------
// Little-endian base-128 sizes, as at the start of a delta.

/// The value of the first `n` bytes of a little-endian base-128 number.
pub open spec fn leb_value(buf: Seq<u8>, n: int) -> u64
    decreases n,
{
    if n <= 0 {
        0
    } else {
        (leb_value(buf, n - 1) + (((buf[n - 1] & 0x7f) as u64) << ((7 * (n - 1)) as u64))) as u64
    }
}

/// The number at the start of `buf` ends within ten bytes.
pub open spec fn leb_decodable(buf: Seq<u8>) -> bool {
    varint_end(buf, 0) matches Some(t) && t <= 9
}

/// Bytes read and value of the number at the start of `buf`.
pub open spec fn leb_result(buf: Seq<u8>) -> (int, u64) {
    let t = varint_end(buf, 0)->0;
    (t + 1, leb_value(buf, t + 1))
}

/// Reads one of the two sizes that open a delta: the base object's size and
/// the size of the object the delta rebuilds.
pub fn read_delta_expected_size(buf: &[u8]) -> (r: (usize, u64))
    requires
        leb_decodable(buf@),
    ensures
        r.0 == leb_result(buf@).0,
        r.1 == leb_result(buf@).1,
{
    proof {
        lemma_varint_end(buf@, 0);
    }
    let ghost end = varint_end(buf@, 0)->0;
    let mut size: u64 = 0;
    let mut pos: usize = 0;
    let mut done = false;
    assert(0u64 < (1u64 << 0u64)) by (bit_vector);
    while !done
        invariant
            pos <= end + 1,
            end <= 9,
            end < buf.len(),
            forall|j: int| 0 <= j < end ==> buf@[j] & 0x80 != 0,
            buf@[end] & 0x80 == 0,
            done <==> pos == end + 1,
            size == leb_value(buf@, pos as int),
            7 * pos < 64 ==> size < (1u64 << ((7 * pos) as u64)),
        decreases end + 1 - pos,
    {
        let b = buf[pos];
        let shift: u64 = 7 * pos as u64;
        proof {
            lemma_add_shifted(size, b, shift);
        }
        size = size + (((b & 0x7f) as u64) << shift);
        done = b & 0x80 == 0;
        pos = pos + 1;
        proof {
            if pos <= end {
                assert(pos - 1 < end);
            }
        }
    }
    (pos, size)
}

// ---------------------------------------------------------------------------
// The base offset of an offset delta: big-endian base-128 where every
// continuation adds one before shifting.

/// One step of the base offset encoding.
pub open spec fn ofs_step(prev: u64, b: u8, first: bool) -> Option<u64> {
    if !first && prev == u64::MAX {
        None
    } else {
        let s1 = if first { prev } else { (prev + 1) as u64 };
        Some((((s1 << 7u64) as u64) + ((b & 0x7f) as u64)) as u64)
    }
}

/// The base offset encoded by the first `n` bytes, if no step overflows.
pub open spec fn ofs_value(buf: Seq<u8>, n: int) -> Option<u64>
    decreases n,
{
    if n <= 1 {
        ofs_step(0, buf[0], true)
    } else {
        match ofs_value(buf, n - 1) {
            None => None,
            Some(v) => ofs_step(v, buf[n - 1], false),
        }
    }
}

/// The base offset at the start of `buf` ends within `buf` without overflow.
pub open spec fn ofs_decodable(buf: Seq<u8>) -> bool {
    varint_end(buf, 0) matches Some(t) && ofs_value(buf, t + 1) is Some
}

/// Bytes read and value of the base offset at the start of `buf`.
pub open spec fn ofs_result(buf: Seq<u8>) -> (int, u64) {
    let t = varint_end(buf, 0)->0;
    (t + 1, ofs_value(buf, t + 1)->0)
}

proof fn lemma_shift7_add(x: u64, b: u8)
    by (bit_vector)
    ensures
        ((x << 7u64) as u64) + ((b & 0x7f) as u64) <= u64::MAX,
{
}

proof fn lemma_ofs_prefix(buf: Seq<u8>, n: int, m: int)
    requires
        1 <= m <= n,
        ofs_value(buf, n) is Some,
    ensures
        ofs_value(buf, m) is Some,
    decreases n - m,
{
    if m < n {
        lemma_ofs_prefix(buf, n - 1, m);
    }
}

/// Checks that a base offset can be read from the start of `buf`.
pub fn ofs_decodable_check(buf: &[u8]) -> (r: bool)
    ensures
        r == ofs_decodable(buf@),
{
    proof {
        lemma_varint_end(buf@, 0);
    }
    if buf.len() == 0 {
        return false;
    }
    let mut size: u64 = 0;
    let mut pos: usize = 0;
    loop
        invariant
            pos < buf.len(),
            forall|j: int| 0 <= j < pos ==> buf@[j] & 0x80 != 0,
            pos == 0 ==> size == 0,
            pos > 0 ==> ofs_value(buf@, pos as int) == Some(size),
            varint_end(buf@, 0) == varint_end(buf@, pos as int),
        decreases buf.len() - pos,
    {
        let b = buf[pos];
        if pos != 0 {
            if size == u64::MAX {
                proof {
                    if let Some(t) = varint_end(buf@, 0) {
                        lemma_varint_end(buf@, pos as int);
                        if ofs_value(buf@, t + 1) is Some {
                            lemma_ofs_prefix(buf@, t + 1, pos + 1);
                        }
                    }
                }
                return false;
            }
            size = size + 1;
        }
        proof {
            lemma_shift7_add(size, b);
        }
        size = (size << 7) + (b & 0x7f) as u64;
        if b & 0x80 == 0 {
            return true;
        }
        pos = pos + 1;
        if pos >= buf.len() {
            return false;
        }
    }
}

/// Reads the base offset of an offset delta: how far before this object its
/// base starts.
pub fn read_delta_offset_size(buf: &[u8]) -> (r: (usize, u64))
    requires
        ofs_decodable(buf@),
    ensures
        r.0 == ofs_result(buf@).0,
        r.1 == ofs_result(buf@).1,
        1 <= r.0 <= buf.len(),
{
    proof {
        lemma_varint_end(buf@, 0);
    }
    let ghost end = varint_end(buf@, 0)->0;
    proof {
        lemma_ofs_prefix(buf@, end + 1, 1);
    }
    let mut size: u64 = 0;
    let mut pos: usize = 0;
    let mut done = false;
    while !done
        invariant
            pos <= end + 1,
            end < buf.len(),
            forall|j: int| 0 <= j < end ==> buf@[j] & 0x80 != 0,
            buf@[end] & 0x80 == 0,
            ofs_value(buf@, end + 1) is Some,
            done <==> pos == end + 1,
            pos == 0 ==> size == 0,
            pos > 0 ==> ofs_value(buf@, pos as int) == Some(size),
        decreases end + 1 - pos,
    {
        let b = buf[pos];
        proof {
            lemma_ofs_prefix(buf@, end + 1, pos + 1);
        }
        if pos != 0 {
            size = size + 1;
        }
        proof {
            lemma_shift7_add(size, b);
        }
        size = (size << 7) + (b & 0x7f) as u64;
        done = b & 0x80 == 0;
        pos = pos + 1;
    }
    (pos, size)
}

// ---------------------------------------------------------------------------
// Deltas: two sizes, then instructions that either insert literal bytes or
// copy a range of the base object.

/// One optional operand byte of a copy instruction: present when the lowest
/// bit of `flags` is set. Gives its value and the position after it.
pub open spec fn opt_byte(d: Seq<u8>, pos: int, flags: u8) -> Option<(int, int)> {
    if flags & 1 != 0 {
        if 0 <= pos < d.len() {
            Some((d[pos] as int, pos + 1))
        } else {
            None
        }
    } else {
        Some((0, pos))
    }
}

/// The little-endian value of `count` optional operand bytes selected by the
/// low bits of `flags`, and the position after them.
pub open spec fn gather(d: Seq<u8>, pos: int, flags: u8, count: nat) -> Option<(int, int)>
    decreases count,
{
    if count == 0 {
        Some((0, pos))
    } else {
        match opt_byte(d, pos, flags) {
            None => None,
            Some((b, p)) => match gather(d, p, flags >> 1u8, (count - 1) as nat) {
                None => None,
                Some((v, q)) => Some((b + 256 * v, q)),
            },
        }
    }
}

proof fn lemma_gather_bounds(d: Seq<u8>, pos: int, flags: u8, count: nat)
    ensures
        gather(d, pos, flags, count) matches Some((v, q)) ==> pos <= q <= pos + count && 0 <= v
            < pow256(count) && (pos <= d.len() ==> q <= d.len()),
    decreases count,
{
    if count > 0 {
        lemma_gather_bounds(d, pos + 1, flags >> 1u8, (count - 1) as nat);
        lemma_gather_bounds(d, pos, flags >> 1u8, (count - 1) as nat);
    }
}

/// 256 to the power `n`.
pub open spec fn pow256(n: nat) -> int
    decreases n,
{
    if n == 0 {
        1
    } else {
        256 * pow256((n - 1) as nat)
    }
}

/// Offset, size and end position of the operands of copy instruction
/// `instr` whose operands start at `pos`. A size of zero means 0x10000.
pub open spec fn copy_operands(d: Seq<u8>, pos: int, instr: u8) -> Option<(int, int, int)> {
    match gather(d, pos, instr, 4) {
        None => None,
        Some((offset, p)) => match gather(d, p, instr >> 4u8, 3) {
            None => None,
            Some((size, q)) => Some((offset, if size == 0 { 0x10000 } else { size }, q)),
        },
    }
}

/// The bytes produced by the delta instructions of `d` from `pos` on,
/// against `base`; `None` when an instruction reaches past the delta or the
/// base.
pub open spec fn delta_ops(d: Seq<u8>, pos: int, base: Seq<u8>) -> Option<Seq<u8>>
    decreases d.len() - pos,
{
    if pos < 0 || pos >= d.len() {
        Some(Seq::empty())
    } else {
        let instr = d[pos];
        if instr & 0x80 == 0 {
            let size = (instr & 0x7f) as int;
            if pos + 1 + size > d.len() {
                None
            } else {
                match delta_ops(d, pos + 1 + size, base) {
                    None => None,
                    Some(rest) => Some(d.subrange(pos + 1, pos + 1 + size) + rest),
                }
            }
        } else {
            match copy_operands(d, pos + 1, instr) {
                None => None,
                Some((offset, size, q)) => {
                    if offset + size > base.len() || q <= pos || q > d.len() {
                        None
                    } else {
                        match delta_ops(d, q, base) {
                            None => None,
                            Some(rest) => Some(base.subrange(offset, offset + size) + rest),
                        }
                    }
                },
            }
        }
    }
}

/// The object that delta `d` rebuilds from `base`, or `None` when the delta
/// does not apply: its sizes cannot be read, its base size is not the size
/// of `base`, an instruction reaches out of range, or the result does not
/// have the announced size.
pub open spec fn delta_result(d: Seq<u8>, base: Seq<u8>) -> Option<Seq<u8>> {
    if !leb_decodable(d) {
        None
    } else {
        let n1 = leb_result(d).0;
        let base_size = leb_result(d).1;
        if base_size != base.len() {
            None
        } else {
            let rest = d.subrange(n1, d.len() as int);
            if !leb_decodable(rest) {
                None
            } else {
                let n2 = leb_result(rest).0;
                let target_size = leb_result(rest).1;
                match delta_ops(d, n1 + n2, base) {
                    None => None,
                    Some(out) => if out.len() != target_size {
                        None
                    } else {
                        Some(out)
                    },
                }
            }
        }
    }
}

/// Checks whether a size can be read from the start of `buf`.
pub fn leb_decodable_check(buf: &[u8]) -> (r: bool)
    ensures
        r == leb_decodable(buf@),
{
    proof {
        lemma_varint_end(buf@, 0);
    }
    let mut pos: usize = 0;
    while pos < buf.len() && pos < 10
        invariant
            pos <= buf.len(),
            pos <= 10,
            forall|j: int| 0 <= j < pos ==> buf@[j] & 0x80 != 0,
            varint_end(buf@, 0) == varint_end(buf@, pos as int),
        decreases buf.len() - pos,
    {
        if buf[pos] & 0x80 == 0 {
            return true;
        }
        pos = pos + 1;
    }
    false
}

fn gather_exec(d: &[u8], pos: usize, flags: u8, count: usize) -> (r: Option<(u64, usize)>)
    requires
        count <= 4,
        pos <= d.len(),
    ensures
        r is Some <==> gather(d@, pos as int, flags, count as nat) is Some,
        r matches Some((v, q)) ==> gather(d@, pos as int, flags, count as nat) == Some(
            (v as int, q as int),
        ),
    decreases count,
{
    proof {
        lemma_gather_bounds(d@, pos as int, flags, count as nat);
    }
    if count == 0 {
        return Some((0, pos));
    }
    let (b, p): (u64, usize) = if flags & 1 != 0 {
        if pos < d.len() {
            (d[pos] as u64, pos + 1)
        } else {
            return None;
        }
    } else {
        (0, pos)
    };
    match gather_exec(d, p, flags >> 1, count - 1) {
        None => None,
        Some((v, q)) => {
            proof {
                lemma_gather_bounds(d@, p as int, flags >> 1u8, (count - 1) as nat);
                lemma_pow256_values();
                assert(pow256((count - 1) as nat) <= pow256(3)) by {
                    lemma_pow256_mono((count - 1) as nat, 3);
                }
            }
            Some((b + 256 * v, q))
        },
    }
}

proof fn lemma_pow256_values()
    ensures
        pow256(3) == 16777216,
        pow256(4) == 4294967296,
{
    reveal_with_fuel(pow256, 5);
}

proof fn lemma_pow256_mono(a: nat, b: nat)
    requires
        a <= b,
    ensures
        1 <= pow256(a) <= pow256(b),
    decreases b,
{
    if a < b {
        lemma_pow256_mono(a, (b - 1) as nat);
    } else if a > 0 {
        lemma_pow256_mono((a - 1) as nat, (a - 1) as nat);
    }
}

/// Appends all of `s` to `out`.
pub fn append_bytes(out: &mut Vec<u8>, s: &[u8])
    ensures
        final(out)@ == old(out)@ + s@,
{
    let mut i: usize = 0;
    while i < s.len()
        invariant
            i <= s.len(),
            out@ == old(out)@ + s@.subrange(0, i as int),
        decreases s.len() - i,
    {
        out.push(s[i]);
        i = i + 1;
        assert(out@ =~= old(out)@ + s@.subrange(0, i as int));
    }
    assert(s@.subrange(0, s.len() as int) =~= s@);
}

/// Applies delta `d` to `base`; `None` exactly when the delta does not
/// apply (see [`delta_result`]).
pub fn apply_delta(d: &[u8], base: &[u8]) -> (r: Option<Vec<u8>>)
    ensures
        r is Some <==> delta_result(d@, base@) is Some,
        r matches Some(v) ==> delta_result(d@, base@) == Some(v@),
{
    if !leb_decodable_check(d) {
        return None;
    }
    let (n1, base_size) = read_delta_expected_size(d);
    proof {
        lemma_varint_end(d@, 0);
    }
    if base_size != base.len() as u64 {
        return None;
    }
    let rest = vstd::slice::slice_subrange(d, n1, d.len());
    if !leb_decodable_check(rest) {
        return None;
    }
    let (n2, target_size) = read_delta_expected_size(rest);
    proof {
        lemma_varint_end(rest@, 0);
    }
    let start: usize = n1 + n2;
    assert(delta_result(d@, base@) == match delta_ops(d@, start as int, base@) {
        None => None,
        Some(o) => if o.len() != target_size { None } else { Some(o) },
    });
    let mut pos: usize = start;
    let mut out: Vec<u8> = Vec::new();
    while pos < d.len()
        invariant
            start <= pos <= d.len(),
            delta_result(d@, base@) == match delta_ops(d@, start as int, base@) {
                None => None,
                Some(o) => if o.len() != target_size { None } else { Some(o) },
            },
            delta_ops(d@, start as int, base@) == match delta_ops(d@, pos as int, base@) {
                None => None,
                Some(rest) => Some(out@ + rest),
            },
        decreases d.len() - pos,
    {
        let instr = d[pos];
        if instr & 0x80 == 0 {
            let size = (instr & 0x7f) as usize;
            if size > d.len() - pos - 1 {
                assert(delta_ops(d@, pos as int, base@) is None);
                return None;
            }
            let lit = vstd::slice::slice_subrange(d, pos + 1, pos + 1 + size);
            let ghost old_out = out@;
            append_bytes(&mut out, lit);
            proof {
                let next = (pos + 1 + size) as int;
                match delta_ops(d@, next, base@) {
                    None => {},
                    Some(r2) => {
                        assert(old_out + (d@.subrange(pos + 1, next) + r2) =~= out@ + r2);
                    },
                }
            }
            pos = pos + 1 + size;
        } else {
            let (offset, p) = match gather_exec(d, pos + 1, instr, 4) {
                None => return None,
                Some(x) => x,
            };
            proof {
                lemma_gather_bounds(d@, (pos + 1) as int, instr, 4);
            }
            let (size0, q) = match gather_exec(d, p, instr >> 4, 3) {
                None => return None,
                Some(x) => x,
            };
            proof {
                lemma_gather_bounds(d@, (pos + 1) as int, instr, 4);
                lemma_gather_bounds(d@, p as int, instr >> 4u8, 3);
                lemma_pow256_values();
            }
            let size: u64 = if size0 == 0 { 0x10000 } else { size0 };
            if offset + size > base.len() as u64 {
                return None;
            }
            let piece = vstd::slice::slice_subrange(base, offset as usize, (offset + size) as usize);
            let ghost old_out = out@;
            append_bytes(&mut out, piece);
            proof {
                match delta_ops(d@, q as int, base@) {
                    None => {},
                    Some(r2) => {
                        assert(old_out + (base@.subrange(offset as int, (offset + size) as int)
                            + r2) =~= out@ + r2);
                    },
                }
            }
            pos = q;
        }
    }
    assert(out@ + Seq::<u8>::empty() =~= out@);
    if out.len() as u64 != target_size {
        return None;
    }
    Some(out)
}

/// Rebuilds an object from its delta and its base.
pub fn reconstruct_deltified_object(deltified: &[u8], base: &[u8]) -> (r: Vec<u8>)
    requires
        delta_result(deltified@, base@) is Some,
    ensures
        delta_result(deltified@, base@) == Some(r@),
{
    match apply_delta(deltified, base) {
        Some(v) => v,
        None => Vec::new(),
    }
}

// ---------------------------------------------------------------------------
// Reading objects out of a whole pack file.

/// The pack file signature followed by version 2.
pub open spec fn pack_signature() -> Seq<u8> {
    seq![0x50u8, 0x41u8, 0x43u8, 0x4bu8, 0u8, 0u8, 0u8, 2u8]
}

/// The pack file starts with the signature of a version 2 pack.
pub open spec fn pack_version_ok(pack: Seq<u8>) -> bool {
    pack.len() >= 8 && pack.subrange(0, 8) == pack_signature()
}

/// `n` bytes of `data` from `start`, with zeros past the end of `data`.
pub open spec fn window(data: Seq<u8>, start: int, n: int) -> Seq<u8> {
    Seq::new(n as nat, |i: int| if start + i < data.len() { data[start + i] } else { 0u8 })
}

/// The smallest power of two that is at least `n`, searching upwards from `p`.
pub open spec fn pow2_at_least(n: int, p: int) -> int
    decreases n - p,
{
    if p <= 0 || p >= n {
        p
    } else if 2 * p >= n {
        2 * p
    } else {
        pow2_at_least(n, 2 * p)
    }
}

/// `out` cut or padded with zeros to exactly `size` bytes.
pub open spec fn fit_to(out: Seq<u8>, size: int) -> Seq<u8> {
    Seq::new(size as nat, |i: int| if i < out.len() { out[i] } else { 0u8 })
}

/// The largest declared object size whose output buffer can be allocated.
pub open spec fn max_object_size() -> int {
    0x8000_0000_0000_0000
}

/// What reading the packed object at `offset` gives: its type and body.
///
/// Where a header or base offset cannot be decoded at all the object is
/// reported as malformed; where its declared size needs a buffer larger than
/// memory can address it is reported as too large.
pub open spec fn pack_object_result(pack: Seq<u8>, offset: u64) -> Result<(PackObjectType, Seq<u8>), InternalObjectError> {
    if !pack_version_ok(pack) {
        Err(InternalObjectError::ExternalError(Error::UnsupportedPackVersion))
    } else if offset > pack.len() {
        Err(InternalObjectError::ExternalError(Error::CorruptPackFile))
    } else {
        let hdr = window(pack, offset as int, 32);
        if !header_decodable(hdr) {
            Err(InternalObjectError::MalformedPackObject)
        } else {
            match header_result(hdr) {
                None => Err(InternalObjectError::MalformedPackObject),
                Some((n, ty, size)) => {
                    let limit = pow2_at_least(size as int, 1);
                    if size > max_object_size() || limit > usize::MAX {
                        Err(InternalObjectError::ObjectTooLarge)
                    } else {
                        let w = window(pack, offset + n, 32);
                        if ty is OffsetDelta && !ofs_decodable(w) {
                            Err(InternalObjectError::MalformedPackObject)
                        } else {
                            let ty2 = if ty is OffsetDelta {
                                PackObjectType::OffsetDelta { base_offset_neg: ofs_result(w).1 }
                            } else {
                                ty
                            };
                            let pos = if ty is OffsetDelta { n + ofs_result(w).0 } else { n };
                            let start = offset + pos;
                            let input = if start <= pack.len() {
                                pack.subrange(start, pack.len() as int)
                            } else {
                                Seq::empty()
                            };
                            match zlib_inflate(input, limit as usize) {
                                Err((code, partial)) => Err(
                                    InternalObjectError::PackObjectDecompressError(
                                        PackDecompressError {
                                            input_position: pos as usize,
                                            output_position: partial.len() as usize,
                                            pack_offset: offset,
                                            status: inflate_status_of(code),
                                        },
                                    ),
                                ),
                                Ok(out) => Ok((ty2, fit_to(out, size as int))),
                            }
                        }
                    }
                },
            }
        }
    }
}

/// Checks the pack file signature and version.
pub fn validate_packfile_version(pack: &[u8]) -> (r: Result<(), Error>)
    ensures
        r is Ok <==> pack_version_ok(pack@),
        r matches Err(e) ==> e == Error::UnsupportedPackVersion,
{
    if pack.len() < 8 {
        return Err(Error::UnsupportedPackVersion);
    }
    let ok = pack[0] == 0x50 && pack[1] == 0x41 && pack[2] == 0x43 && pack[3] == 0x4b && pack[4]
        == 0 && pack[5] == 0 && pack[6] == 0 && pack[7] == 2;
    assert(ok <==> pack@.subrange(0, 8) =~= pack_signature());
    if ok {
        Ok(())
    } else {
        Err(Error::UnsupportedPackVersion)
    }
}

/// Copies `n` bytes of `data` from `start`, with zeros past its end.
pub fn read_window(data: &[u8], start: usize, n: usize) -> (r: Vec<u8>)
    ensures
        r@ == window(data@, start as int, n as int),
{
    let mut out: Vec<u8> = Vec::new();
    let mut i: usize = 0;
    while i < n
        invariant
            i <= n,
            out@ =~= window(data@, start as int, n as int).subrange(0, i as int),
        decreases n - i,
    {
        let b = if start < data.len() && i < data.len() - start {
            data[start + i]
        } else {
            0
        };
        out.push(b);
        i = i + 1;
    }
    assert(window(data@, start as int, n as int).subrange(0, n as int) =~= window(
        data@,
        start as int,
        n as int,
    ));
    out
}

/// Checks whether the header at the start of `buf` can be decoded.
pub fn header_decodable_check(buf: &[u8]) -> (r: bool)
    ensures
        r == header_decodable(buf@),
{
    if buf.len() == 0 {
        return false;
    }
    let t = buf[0] & 0x70;
    if t == 0x70 {
        return false;
    }
    if t == 0 || t == 0x50 {
        return true;
    }
    leb_decodable_check(buf)
}

/// The smallest power of two that is at least `n`.
pub fn next_power_of_two(n: u64) -> (r: u64)
    requires
        n <= max_object_size(),
    ensures
        r == pow2_at_least(n as int, 1),
{
    let mut p: u64 = 1;
    while p < n
        invariant
            1 <= p,
            p <= 2 * n || p == 1,
            pow2_at_least(n as int, p as int) == pow2_at_least(n as int, 1),
            n <= max_object_size(),
        decreases 2 * n - p,
    {
        p = p * 2;
    }
    p
}

proof fn lemma_pow2_at_least(n: int, p: int)
    requires
        1 <= p,
    ensures
        pow2_at_least(n, p) >= n,
        pow2_at_least(n, p) >= p,
    decreases n - p,
{
    if p < n && 2 * p < n {
        lemma_pow2_at_least(n, 2 * p);
    }
}

/// Reads the object at `offset` of a whole pack file: its type (with the base
/// offset for an offset delta) and its decompressed body.
pub fn read_pack_object(pack: &[u8], offset: u64) -> (r: Result<PackObject, InternalObjectError>)
    ensures
        pack_object_result(pack@, offset) matches Ok((ty, body)) ==> r matches Ok(o)
            && o.object_type == ty && o.body@ == body,
        pack_object_result(pack@, offset) matches Err(e) ==> r == Err::<PackObject, InternalObjectError>(e),
{
    match validate_packfile_version(pack) {
        Ok(()) => {},
        Err(e) => return Err(InternalObjectError::ExternalError(e)),
    }
    if offset > pack.len() as u64 {
        return Err(InternalObjectError::ExternalError(Error::CorruptPackFile));
    }
    let off = offset as usize;
    let hdr = read_window(pack, off, 32);
    if !header_decodable_check(hdr.as_slice()) {
        return Err(InternalObjectError::MalformedPackObject);
    }
    let (n, ty, size) = match read_obj_type_size(hdr.as_slice()) {
        Ok(x) => x,
        Err(e) => return Err(e),
    };
    if size > 0x8000_0000_0000_0000u64 {
        return Err(InternalObjectError::ObjectTooLarge);
    }
    let limit = next_power_of_two(size);
    proof {
        lemma_pow2_at_least(size as int, 1);
    }
    if limit > usize::MAX as u64 {
        return Err(InternalObjectError::ObjectTooLarge);
    }
    let wstart: usize = if n <= usize::MAX - off { off + n } else { usize::MAX };
    let w = read_window(pack, wstart, 32);
    assert(w@ =~= window(pack@, offset + n, 32));
    let (object_type, pos) = match ty {
        PackObjectType::OffsetDelta { .. } => {
            if !ofs_decodable_check(w.as_slice()) {
                return Err(InternalObjectError::MalformedPackObject);
            }
            let (m, neg) = read_delta_offset_size(w.as_slice());
            (PackObjectType::OffsetDelta { base_offset_neg: neg }, n + m)
        },
        _ => (ty, n),
    };
    let input: &[u8] = if pos <= pack.len() - off {
        vstd::slice::slice_subrange(pack, off + pos, pack.len())
    } else {
        assert(pack@.subrange(0, 0) =~= Seq::<u8>::empty());
        vstd::slice::slice_subrange(pack, 0, 0)
    };
    match inflate_zlib(input, limit as usize) {
        Err((code, partial)) => Err(
            InternalObjectError::PackObjectDecompressError(
                PackDecompressError {
                    input_position: pos,
                    output_position: partial.len(),
                    pack_offset: offset,
                    status: InflateStatus::from_code(code),
                },
            ),
        ),
        Ok(out) => {
            let body = fit_bytes(out, size as usize);
            Ok(PackObject { object_type, body })
        },
    }
}

/// `out` cut or padded with zeros to exactly `size` bytes.
pub fn fit_bytes(out: Vec<u8>, size: usize) -> (r: Vec<u8>)
    ensures
        r@ == fit_to(out@, size as int),
{
    let mut v = out;
    if v.len() >= size {
        v.truncate(size);
        assert(v@ =~= fit_to(out@, size as int));
        return v;
    }
    while v.len() < size
        invariant
            v.len() <= size,
            out.len() <= v.len(),
            v@ =~= fit_to(out@, v.len() as int),
        decreases size - v.len(),
    {
        v.push(0);
    }
    v
}

// ---------------------------------------------------------------------------
// Delta chains.

/// A packed object as a type and a body.
pub type PackObjectSpec = (PackObjectType, Seq<u8>);

/// Following offset deltas from `offset` back to a whole object: the deltas
/// met on the way (nearest first) and the whole object at the end. A base
/// offset of zero, or one reaching before the start of the pack, makes the
/// object malformed.
pub open spec fn chain_result(pack: Seq<u8>, offset: u64) -> Result<(Seq<PackObjectSpec>, PackObjectSpec), InternalObjectError>
    decreases offset,
{
    match pack_object_result(pack, offset) {
        Err(e) => Err(e),
        Ok((ty, body)) => match ty {
            PackObjectType::OffsetDelta { base_offset_neg } => {
                if base_offset_neg == 0 || base_offset_neg > offset {
                    Err(InternalObjectError::MalformedPackObject)
                } else {
                    match chain_result(pack, (offset - base_offset_neg) as u64) {
                        Err(e) => Err(e),
                        Ok((chain, fin)) => Ok((seq![(ty, body)] + chain, fin)),
                    }
                }
            },
            _ => Ok((Seq::empty(), (ty, body))),
        },
    }
}

/// The body and type of a pack object.
pub open spec fn pack_object_view(o: PackObject) -> PackObjectSpec {
    (o.object_type, o.body@)
}

/// Follows the chain of offset deltas that starts at `start_offset` down to
/// a whole object.
pub fn form_deltified_chain(pack: &[u8], start_offset: u64) -> (r: Result<(Vec<PackObject>, PackObject), InternalObjectError>)
    ensures
        chain_result(pack@, start_offset) matches Ok((chain, fin)) ==> r matches Ok((c, f))
            && c@.map_values(|o: PackObject| pack_object_view(o)) == chain
            && pack_object_view(f) == fin,
        chain_result(pack@, start_offset) matches Err(e) ==> r matches Err(e2) && e2 == e,
{
    let mut chain: Vec<PackObject> = Vec::new();
    let mut offset = start_offset;
    loop
        invariant
            chain_result(pack@, start_offset) == match chain_result(pack@, offset) {
                Err(e) => Err(e),
                Ok((c, f)) => Ok((chain@.map_values(|o: PackObject| pack_object_view(o)) + c, f)),
            },
        decreases offset,
    {
        let object = match read_pack_object(pack, offset) {
            Ok(o) => o,
            Err(e) => return Err(e),
        };
        match object.object_type {
            PackObjectType::OffsetDelta { base_offset_neg } => {
                if base_offset_neg == 0 || base_offset_neg > offset {
                    return Err(InternalObjectError::MalformedPackObject);
                }
                let ghost old_chain = chain@.map_values(|o: PackObject| pack_object_view(o));
                let ghost item = pack_object_view(object);
                let ghost next = (offset - base_offset_neg) as u64;
                chain.push(object);
                proof {
                    assert(chain@.map_values(|o: PackObject| pack_object_view(o)) =~= old_chain.push(item));
                    match chain_result(pack@, next) {
                        Err(e) => {},
                        Ok((c, f)) => {
                            assert(old_chain + (seq![item] + c) =~= old_chain.push(item) + c);
                        },
                    }
                }
                offset = offset - base_offset_neg;
            },
            _ => {
                proof {
                    let m = chain@.map_values(|o: PackObject| pack_object_view(o));
                    assert(m + Seq::<PackObjectSpec>::empty() =~= m);
                }
                return Ok((chain, object));
            },
        }
    }
}

/// Applies a chain of deltas (nearest first) to the whole object `base`:
/// the last delta is applied to `base`, each earlier one to the result of
/// the one after it.
pub open spec fn apply_chain(chain: Seq<Seq<u8>>, base: Seq<u8>) -> Option<Seq<u8>>
    decreases chain.len(),
{
    if chain.len() == 0 {
        Some(base)
    } else {
        match apply_chain(chain.drop_first(), base) {
            None => None,
            Some(b) => delta_result(chain[0], b),
        }
    }
}

/// The bodies of a sequence of pack objects.
pub open spec fn chain_bodies(chain: Seq<PackObject>) -> Seq<Seq<u8>> {
    chain.map_values(|o: PackObject| o.body@)
}

proof fn lemma_apply_chain_suffix(chain: Seq<Seq<u8>>, base: Seq<u8>, i: int, b: Seq<u8>)
    requires
        0 <= i < chain.len(),
        apply_chain(chain.subrange(i + 1, chain.len() as int), base) == Some(b),
    ensures
        apply_chain(chain.subrange(i, chain.len() as int), base) == delta_result(chain[i], b),
{
    assert(chain.subrange(i, chain.len() as int).drop_first() =~= chain.subrange(
        i + 1,
        chain.len() as int,
    ));
}

/// Rebuilds the object at the top of a delta chain, given the deltas
/// (nearest first) and the whole object at the bottom; `None` when some
/// delta does not apply to what it is applied to.
pub fn apply_delta_chain(chain: &[PackObject], final_object: &PackObject) -> (r: Option<Vec<u8>>)
    ensures
        r is Some <==> apply_chain(chain_bodies(chain@), final_object.body@) is Some,
        r matches Some(v) ==> apply_chain(chain_bodies(chain@), final_object.body@) == Some(v@),
{
    let ghost bodies = chain_bodies(chain@);
    let mut body: Vec<u8> = final_object.body.clone();
    let mut i: usize = chain.len();
    assert(bodies.subrange(i as int, i as int) =~= Seq::<Seq<u8>>::empty());
    while i > 0
        invariant
            i <= chain.len(),
            bodies == chain_bodies(chain@),
            apply_chain(bodies.subrange(i as int, chain.len() as int), final_object.body@) == Some(
                body@,
            ),
        decreases i,
    {
        i = i - 1;
        proof {
            lemma_apply_chain_suffix(bodies, final_object.body@, i as int, body@);
        }
        match apply_delta(chain[i].body.as_slice(), body.as_slice()) {
            None => {
                proof {
                    lemma_apply_chain_none(bodies, final_object.body@, i as int);
                }
                return None;
            },
            Some(next) => {
                body = next;
            },
        }
    }
    assert(bodies.subrange(0, chain.len() as int) =~= bodies);
    Some(body)
}

proof fn lemma_apply_chain_none(chain: Seq<Seq<u8>>, base: Seq<u8>, i: int)
    requires
        0 <= i < chain.len(),
        apply_chain(chain.subrange(i, chain.len() as int), base) is None,
    ensures
        apply_chain(chain, base) is None,
    decreases i,
{
    if i > 0 {
        let s = chain.subrange(i - 1, chain.len() as int);
        assert(s.drop_first() =~= chain.subrange(i, chain.len() as int));
        lemma_apply_chain_none(chain, base, i - 1);
    } else {
        assert(chain.subrange(0, chain.len() as int) =~= chain);
    }
}

/// Rebuilds the object at the top of a delta chain. Every link must be an
/// offset delta, the bottom object must be whole, and every delta must apply.
pub fn reconstruct_deltified_object_from_chain(chain: &[PackObject], final_object: &PackObject) -> (r: PackObject)
    requires
        forall|i: int| 0 <= i < chain.len() ==> (#[trigger] chain@[i]).object_type is OffsetDelta,
        final_object.object_type is Base,
        apply_chain(chain_bodies(chain@), final_object.body@) is Some,
    ensures
        r.object_type == final_object.object_type,
        apply_chain(chain_bodies(chain@), final_object.body@) == Some(r.body@),
{
    let body = match apply_delta_chain(chain, final_object) {
        Some(b) => b,
        None => Vec::new(),
    };
    PackObject { object_type: final_object.object_type, body }
}

/// What unpacking the object at `offset` gives: its type and full body.
pub open spec fn unpack_result(pack: Seq<u8>, offset: u64) -> Result<(ObjectType, Seq<u8>), InternalObjectError> {
    match chain_result(pack, offset) {
        Err(e) => Err(e),
        Ok((chain, fin)) => match fin.0 {
            PackObjectType::Base(t) => match apply_chain(chain.map_values(|o: PackObjectSpec| o.1), fin.1) {
                None => Err(InternalObjectError::MalformedPackObject),
                Some(b) => Ok((t, b)),
            },
            _ => Err(InternalObjectError::MalformedPackObject),
        },
    }
}

/// Unpacks the object at `offset` of a whole pack file, following and
/// applying its delta chain.
pub fn unpack_object(pack: &[u8], offset: u64) -> (r: Result<RawObject, InternalObjectError>)
    ensures
        unpack_result(pack@, offset) matches Ok((t, b)) ==> r matches Ok(o) && o.object_type == t
            && o.body@ == b,
        unpack_result(pack@, offset) matches Err(e) ==> r matches Err(e2) && e2 == e,
{
    let (chain, fin) = match form_deltified_chain(pack, offset) {
        Ok(x) => x,
        Err(e) => return Err(e),
    };
    proof {
        let cs = chain@.map_values(|o: PackObject| pack_object_view(o));
        assert(cs.map_values(|o: PackObjectSpec| o.1) =~= chain_bodies(chain@));
    }
    let t = match fin.object_type {
        PackObjectType::Base(t) => t,
        _ => return Err(InternalObjectError::MalformedPackObject),
    };
    match apply_delta_chain(chain.as_slice(), &fin) {
        None => Err(InternalObjectError::MalformedPackObject),
        Some(body) => Ok(RawObject { object_type: t, body }),
    }
}

/// The size of the object that delta `d` rebuilds, as the delta announces
/// it: its second size, after the base object's.
pub open spec fn delta_target_size(d: Seq<u8>) -> Option<u64> {
    if leb_decodable(d) && leb_result(d).0 <= d.len() && leb_decodable(
        d.subrange(leb_result(d).0, d.len() as int),
    ) {
        Some(leb_result(d.subrange(leb_result(d).0, d.len() as int)).1)
    } else {
        None
    }
}

/// Reads the size of the object that delta `d` rebuilds (see
/// [`delta_target_size`]).
pub fn read_delta_target_size(d: &[u8]) -> (r: Option<u64>)
    ensures
        r == delta_target_size(d@),
{
    if !leb_decodable_check(d) {
        return None;
    }
    proof {
        lemma_varint_end(d@, 0);
    }
    let (n, _) = read_delta_expected_size(d);
    let rest = vstd::slice::slice_subrange(d, n, d.len());
    if !leb_decodable_check(rest) {
        return None;
    }
    let (_, size) = read_delta_expected_size(rest);
    Some(size)
}

/// What looking up the size and type of the object at `offset` gives: the
/// type of the whole object at the bottom of its delta chain, and the size
/// that the top delta announces for the object it rebuilds (the whole
/// object's own size when there is no delta). Nothing is rebuilt.
pub open spec fn size_type_result(pack: Seq<u8>, offset: u64) -> Result<(u64, ObjectType), InternalObjectError> {
    match chain_result(pack, offset) {
        Err(e) => Err(e),
        Ok((chain, fin)) => match fin.0 {
            PackObjectType::Base(t) => if chain.len() == 0 {
                Ok((fin.1.len() as u64, t))
            } else {
                match delta_target_size(chain[0].1) {
                    Some(size) => Ok((size, t)),
                    None => Err(InternalObjectError::MalformedPackObject),
                }
            },
            _ => Err(InternalObjectError::MalformedPackObject),
        },
    }
}

/// Looks up the size and type of the object at `offset` of a whole pack
/// file without rebuilding it (see [`size_type_result`]).
pub fn object_size_type(pack: &[u8], offset: u64) -> (r: Result<(u64, ObjectType), InternalObjectError>)
    ensures
        r == size_type_result(pack@, offset),
{
    let (chain, fin) = match form_deltified_chain(pack, offset) {
        Ok(x) => x,
        Err(e) => return Err(e),
    };
    let t = match fin.object_type {
        PackObjectType::Base(t) => t,
        _ => return Err(InternalObjectError::MalformedPackObject),
    };
    if chain.len() == 0 {
        return Ok((fin.body.len() as u64, t));
    }
    assert(pack_object_view(chain@[0]) == (chain@[0].object_type, chain@[0].body@));
    match read_delta_target_size(chain[0].body.as_slice()) {
        Some(size) => Ok((size, t)),
        None => Err(InternalObjectError::MalformedPackObject),
    }
}

} // verus!
