//! Author, committer and tagger lines: `<name> <<email>> <seconds> <+|-><hh><mm>`.
use vstd::prelude::*;

use crate::parsing::{pair_at, find_pair, parse_unsigned, unsigned_at};

verus! {

/// A point in time as git records it: seconds since the Unix epoch and the
/// offset of the local time zone from UTC, in seconds east.
#[derive(Debug, Clone, Copy, PartialEq, Eq)]
pub struct GitDate {
    pub timestamp: i64,
    pub offset_seconds: i32,
}

impl GitDate {
    /// Seconds since the Unix epoch.
    pub fn timestamp(&self) -> (r: i64)
        ensures
            r == self.timestamp,
    {
        self.timestamp
    }

    /// The time zone's offset from UTC in seconds east.
    pub fn offset_seconds(&self) -> (r: i32)
        ensures
            r == self.offset_seconds,
    {
        self.offset_seconds
    }
}

/// The earliest second that a date can hold (January 1 of year -262143,
/// counting 1 BCE as year 0, at midnight UTC).
pub open spec fn min_timestamp() -> int {
    -8334601228800
}

/// The latest second that a date can hold (December 31 of year 262142,
/// 23:59:59 UTC).
pub open spec fn max_timestamp() -> int {
    8210266876799
}

/// Whether `chrono::DateTime::from_timestamp(secs, 0)` gives a date. Its
/// documentation says it fails on an out-of-range number of seconds; by its
/// source the day must fall within the years of `NaiveDate` (-262143 to
/// 262142), that is from [`min_timestamp`] to [`max_timestamp`].
#[verifier::external_body]
fn timestamp_representable(secs: i64) -> (r: bool)
    ensures
        r == (min_timestamp() <= secs <= max_timestamp()),
{
    match chrono::DateTime::from_timestamp(secs, 0) {
        Some(_) => true,
        None => false,
    }
}

/// Whether `chrono::FixedOffset::east_opt(secs)` gives an offset: by its
/// source, exactly when the offset is less than a day either way.
#[verifier::external_body]
fn offset_representable(secs: i32) -> (r: bool)
    ensures
        r == (-86400 < secs < 86400),
{
    match chrono::FixedOffset::east_opt(secs) {
        Some(_) => true,
        None => false,
    }
}

/// A signed decimal number at `i`: an optional `+` or `-`, then at least one
/// digit, within the range of a signed integer of `bits` bits. Gives the
/// value and where it ends.
pub open spec fn signed_at(s: Seq<u8>, i: int, bits: nat) -> Option<(int, int)> {
    let neg = 0 <= i < s.len() && s[i] == 45;
    let d = if 0 <= i < s.len() && (s[i] == 45 || s[i] == 43) { i + 1 } else { i };
    let bound = vstd::arithmetic::power2::pow2((bits - 1) as nat) as int;
    match unsigned_at(s, d, if neg { bound } else { bound - 1 }) {
        None => None,
        Some((m, e)) => Some((if neg { -m } else { m }, e)),
    }
}

/// Parses a signed 64-bit decimal number at `i` (see [`signed_at`]).
pub fn parse_i64(s: &[u8], i: usize) -> (r: Option<(i64, usize)>)
    requires
        i <= s.len(),
    ensures
        r is Some <==> signed_at(s@, i as int, 64) is Some,
        r matches Some((v, e)) ==> signed_at(s@, i as int, 64) == Some((v as int, e as int)),
{
    let neg = i < s.len() && s[i] == 45;
    let d = if i < s.len() && (s[i] == 45 || s[i] == 43) { i + 1 } else { i };
    proof {
        vstd::arithmetic::power2::lemma2_to64();
        vstd::arithmetic::power2::lemma2_to64_rest();
    }
    let max: u64 = if neg { 0x8000_0000_0000_0000 } else { 0x7fff_ffff_ffff_ffff };
    match parse_unsigned(s, d, max) {
        None => None,
        Some((m, e)) => {
            let v: i64 = if neg {
                if m == 0x8000_0000_0000_0000 {
                    i64::MIN
                } else {
                    -(m as i64)
                }
            } else {
                m as i64
            };
            Some((v, e))
        },
    }
}

/// A two-character number that must be entirely a signed decimal: two
/// digits, or a sign and one digit.
pub open spec fn two_char_number(s: Seq<u8>, i: int) -> Option<int> {
    let w = s.subrange(i, i + 2);
    match signed_at(w, 0, 32) {
        Some((v, e)) => if e == 2 { Some(v) } else { None },
        None => None,
    }
}

/// The parts of a signature line `name <email> seconds ±hhmm`: name, email
/// and date. The name ends at the first ` <`, the email at the first `> `
/// after it; the seconds are a signed number followed by a space, then a
/// sign and two two-character numbers for hours and minutes end the line.
/// The date must be representable.
pub open spec fn signature_parse(v: Seq<u8>) -> Option<(Seq<u8>, Seq<u8>, GitDate)> {
    match pair_at(v, 0, 32, 60) {
        None => None,
        Some(a) => match pair_at(v, a + 2, 62, 32) {
            None => None,
            Some(b) => match signed_at(v, b + 2, 64) {
                None => None,
                Some((ts, c)) => {
                    let d = c + 1;
                    if !(c < v.len() && v[c] == 32 && d < v.len() && (v[d] == 43 || v[d] == 45)
                        && d + 5 == v.len()) {
                        None
                    } else {
                        match two_char_number(v, d + 1) {
                            None => None,
                            Some(h) => match two_char_number(v, d + 3) {
                                None => None,
                                Some(m) => {
                                    let off = if v[d] == 43 {
                                        3600 * h + 60 * m
                                    } else {
                                        -(3600 * h + 60 * m)
                                    };
                                    if min_timestamp() <= ts <= max_timestamp() && -86400 < off
                                        < 86400 {
                                        Some(
                                            (
                                                v.subrange(0, a),
                                                v.subrange(a + 2, b),
                                                GitDate {
                                                    timestamp: ts as i64,
                                                    offset_seconds: off as i32,
                                                },
                                            ),
                                        )
                                    } else {
                                        None
                                    }
                                },
                            },
                        }
                    }
                },
            },
        },
    }
}

/// Parses a two-character number at `i` (see [`two_char_number`]).
fn parse_two_char_number(s: &[u8], i: usize) -> (r: Option<i32>)
    requires
        i + 2 <= s.len(),
    ensures
        r is Some <==> two_char_number(s@, i as int) is Some,
        r matches Some(v) ==> two_char_number(s@, i as int) == Some(v as int) && -9 <= v <= 99,
{
    let w = vstd::slice::slice_subrange(s, i, i + 2);
    let neg = w[0] == 45;
    let d: usize = if w[0] == 45 || w[0] == 43 { 1 } else { 0 };
    proof {
        vstd::arithmetic::power2::lemma2_to64();
    }
    let max: u64 = if neg { 0x8000_0000 } else { 0x7fff_ffff };
    match parse_unsigned(w, d, max) {
        None => None,
        Some((m, e)) => {
            if e != 2 {
                return None;
            }
            proof {
                crate::parsing::lemma_digit_run_end(w@, d as int);
                let ds = w@.subrange(d as int, 2);
                reveal_with_fuel(crate::parsing::decimal_value, 3);
                if d == 0 {
                    assert(ds.drop_last().drop_last() =~= Seq::<u8>::empty());
                    assert(crate::parsing::is_digit(ds[0]) && crate::parsing::is_digit(ds[1]));
                } else {
                    assert(ds.drop_last() =~= Seq::<u8>::empty());
                    assert(crate::parsing::is_digit(ds[0]));
                }
                assert(m <= 99);
                assert(d == 1 ==> m <= 9);
            }
            Some(if neg { -(m as i32) } else { m as i32 })
        },
    }
}

/// Parses a signature line (see [`signature_parse`]).
pub fn parse_signature(v: &[u8]) -> (r: Option<(Vec<u8>, Vec<u8>, GitDate)>)
    ensures
        r is Some <==> signature_parse(v@) is Some,
        r matches Some((n, e, d)) ==> signature_parse(v@) == Some((n@, e@, d)),
{
    let a = match find_pair(v, 0, 32, 60) {
        None => return None,
        Some(a) => a,
    };
    let b = match find_pair(v, a + 2, 62, 32) {
        None => return None,
        Some(b) => b,
    };
    let (ts, c) = match parse_i64(v, b + 2) {
        None => return None,
        Some(x) => x,
    };
    if !(c < v.len() && v[c] == 32) {
        return None;
    }
    let d = c + 1;
    if !(d < v.len() && (v[d] == 43 || v[d] == 45) && v.len() - d == 5) {
        return None;
    }
    let h = match parse_two_char_number(v, d + 1) {
        None => return None,
        Some(h) => h,
    };
    let m = match parse_two_char_number(v, d + 3) {
        None => return None,
        Some(m) => m,
    };
    let off: i32 = if v[d] == 43 { 3600 * h + 60 * m } else { -(3600 * h + 60 * m) };
    if !timestamp_representable(ts) || !offset_representable(off) {
        return None;
    }
    let name = crate::parsing::copy_range(v, 0, a);
    let email = crate::parsing::copy_range(v, a + 2, b);
    Some((name, email, GitDate { timestamp: ts, offset_seconds: off }))
}

} // verus!
