//! Small pieces of byte grammar shared by the parsers.
use vstd::prelude::*;

verus! {

/// An ASCII decimal digit.
pub open spec fn is_digit(c: u8) -> bool {
    48 <= c && c <= 57
}

/// Index of the first byte at or after `i` that is not a decimal digit.
pub open spec fn digit_run_end(s: Seq<u8>, i: int) -> int
    decreases s.len() - i,
{
    if i < 0 || i >= s.len() || !is_digit(s[i]) {
        i
    } else {
        digit_run_end(s, i + 1)
    }
}

/// The number written by a string of decimal digits.
pub open spec fn decimal_value(s: Seq<u8>) -> int
    decreases s.len(),
{
    if s.len() == 0 {
        0
    } else {
        decimal_value(s.drop_last()) * 10 + (s.last() - 48)
    }
}

/// The unsigned number written at `start` of `s`: at least one digit, then
/// as many as follow, valued at most `max`; gives the value and the end.
pub open spec fn unsigned_at(s: Seq<u8>, start: int, max: int) -> Option<(int, int)> {
    let end = digit_run_end(s, start);
    if end <= start {
        None
    } else {
        let v = decimal_value(s.subrange(start, end));
        if v > max {
            None
        } else {
            Some((v, end))
        }
    }
}

pub proof fn lemma_digit_run_end(s: Seq<u8>, i: int)
    requires
        0 <= i <= s.len(),
    ensures
        i <= digit_run_end(s, i) <= s.len(),
        forall|j: int| i <= j < digit_run_end(s, i) ==> is_digit(#[trigger] s[j]),
        digit_run_end(s, i) < s.len() ==> !is_digit(s[digit_run_end(s, i)]),
    decreases s.len() - i,
{
    if i < s.len() && is_digit(s[i]) {
        lemma_digit_run_end(s, i + 1);
    }
}

pub proof fn lemma_decimal_nonneg(s: Seq<u8>)
    requires
        forall|j: int| 0 <= j < s.len() ==> is_digit(#[trigger] s[j]),
    ensures
        decimal_value(s) >= 0,
        s.len() > 0 ==> decimal_value(s) >= decimal_value(s.drop_last()),
    decreases s.len(),
{
    if s.len() > 0 {
        lemma_decimal_nonneg(s.drop_last());
    }
}

pub proof fn lemma_decimal_prefix_le(s: Seq<u8>, k: int)
    requires
        0 <= k <= s.len(),
        forall|j: int| 0 <= j < s.len() ==> is_digit(#[trigger] s[j]),
    ensures
        decimal_value(s.subrange(0, k)) <= decimal_value(s),
    decreases s.len() - k,
{
    if k < s.len() {
        lemma_decimal_prefix_le(s.drop_last(), k);
        lemma_decimal_nonneg(s);
        assert(s.drop_last().subrange(0, k) =~= s.subrange(0, k));
    } else {
        assert(s.subrange(0, k) =~= s);
    }
}

/// Parses the unsigned number at `start` of `s`, if there is one that does
/// not exceed `max`.
pub fn parse_unsigned(s: &[u8], start: usize, max: u64) -> (r: Option<(u64, usize)>)
    requires
        start <= s.len(),
    ensures
        r is Some <==> unsigned_at(s@, start as int, max as int) is Some,
        r matches Some((v, e)) ==> unsigned_at(s@, start as int, max as int) == Some(
            (v as int, e as int),
        ),
{
    proof {
        lemma_digit_run_end(s@, start as int);
    }
    let ghost end = digit_run_end(s@, start as int);
    let mut v: u64 = 0;
    let mut i: usize = start;
    while i < s.len() && 48 <= s[i] && s[i] <= 57
        invariant
            start <= i <= end,
            end <= s.len(),
            end == digit_run_end(s@, start as int),
            forall|j: int| start <= j < end ==> is_digit(#[trigger] s@[j]),
            end < s.len() ==> !is_digit(s@[end]),
            v == decimal_value(s@.subrange(start as int, i as int)),
            v <= max,
        decreases s.len() - i,
    {
        let d = (s[i] - 48) as u64;
        proof {
            assert(s@.subrange(start as int, i + 1).drop_last() =~= s@.subrange(start as int, i as int));
        }
        if d > max || v > (max - d) / 10 {
            proof {
                let full = s@.subrange(start as int, end);
                assert(s@.subrange(start as int, i + 1) =~= full.subrange(0, i + 1 - start));
                lemma_decimal_prefix_le(full, i + 1 - start);
            }
            return None;
        }
        v = v * 10 + d;
        i = i + 1;
    }
    if i == start {
        return None;
    }
    Some((v, i))
}

/// Index of the first occurrence of `c` at or after `i`, or the length.
pub open spec fn byte_stop(s: Seq<u8>, i: int, c: u8) -> int
    decreases s.len() - i,
{
    if i < 0 || i >= s.len() || s[i] == c {
        i
    } else {
        byte_stop(s, i + 1, c)
    }
}

pub proof fn lemma_byte_stop(s: Seq<u8>, i: int, c: u8)
    requires
        0 <= i <= s.len(),
    ensures
        i <= byte_stop(s, i, c) <= s.len(),
        forall|j: int| i <= j < byte_stop(s, i, c) ==> s[j] != c,
        byte_stop(s, i, c) < s.len() ==> s[byte_stop(s, i, c)] == c,
    decreases s.len() - i,
{
    if i < s.len() && s[i] != c {
        lemma_byte_stop(s, i + 1, c);
    }
}

/// The first `c` at or after `i` is at `j` when none comes before it.
pub proof fn lemma_byte_stop_at(s: Seq<u8>, i: int, j: int, c: u8)
    requires
        0 <= i <= j <= s.len(),
        forall|k: int| i <= k < j ==> #[trigger] s[k] != c,
        j == s.len() || s[j] == c,
    ensures
        byte_stop(s, i, c) == j,
    decreases j - i,
{
    if i < j {
        lemma_byte_stop_at(s, i + 1, j, c);
    }
}

/// Finds the first occurrence of `c` at or after `i`, or the length.
pub fn find_byte(s: &[u8], i: usize, c: u8) -> (r: usize)
    requires
        i <= s.len(),
    ensures
        r == byte_stop(s@, i as int, c),
        i <= r <= s.len(),
{
    proof {
        lemma_byte_stop(s@, i as int, c);
    }
    let mut k = i;
    while k < s.len() && s[k] != c
        invariant
            i <= k <= s.len(),
            byte_stop(s@, i as int, c) == byte_stop(s@, k as int, c),
        decreases s.len() - k,
    {
        k = k + 1;
    }
    k
}

/// Index of the first carriage return or line feed at or after `i`, or the
/// length.
pub open spec fn line_stop(s: Seq<u8>, i: int) -> int
    decreases s.len() - i,
{
    if i < 0 || i >= s.len() || s[i] == 13 || s[i] == 10 {
        i
    } else {
        line_stop(s, i + 1)
    }
}

pub proof fn lemma_line_stop(s: Seq<u8>, i: int)
    requires
        0 <= i <= s.len(),
    ensures
        i <= line_stop(s, i) <= s.len(),
    decreases s.len() - i,
{
    if i < s.len() && s[i] != 13 && s[i] != 10 {
        lemma_line_stop(s, i + 1);
    }
}

/// The line from `i` ends at `j` when no line break comes before it.
pub proof fn lemma_line_stop_at(s: Seq<u8>, i: int, j: int)
    requires
        0 <= i <= j <= s.len(),
        forall|k: int| i <= k < j ==> #[trigger] s[k] != 10u8 && s[k] != 13u8,
        j == s.len() || s[j] == 10u8 || s[j] == 13u8,
    ensures
        line_stop(s, i) == j,
    decreases j - i,
{
    if i < j {
        lemma_line_stop_at(s, i + 1, j);
    }
}

/// The rest of a line from `i`: ends before the first line feed or
/// carriage-return-line-feed; a carriage return not followed by a line feed
/// is an error. Gives the end of the line's content.
pub open spec fn rest_of_line(s: Seq<u8>, i: int) -> Option<int> {
    let j = line_stop(s, i);
    if j < s.len() && s[j] == 13 && !(j + 1 < s.len() && s[j + 1] == 10) {
        None
    } else {
        Some(j)
    }
}

/// Reads the rest of the line from `i` (see [`rest_of_line`]).
pub fn read_rest_of_line(s: &[u8], i: usize) -> (r: Option<usize>)
    requires
        i <= s.len(),
    ensures
        r is Some <==> rest_of_line(s@, i as int) is Some,
        r matches Some(j) ==> rest_of_line(s@, i as int) == Some(j as int) && i <= j <= s.len(),
{
    proof {
        lemma_line_stop(s@, i as int);
    }
    let mut k = i;
    while k < s.len() && s[k] != 13 && s[k] != 10
        invariant
            i <= k <= s.len(),
            line_stop(s@, i as int) == line_stop(s@, k as int),
        decreases s.len() - k,
    {
        k = k + 1;
    }
    if k < s.len() && s[k] == 13 && !(k + 1 < s.len() && s[k + 1] == 10) {
        None
    } else {
        Some(k)
    }
}

/// Index of the first byte at or after `i` that is neither a space nor a
/// tab, or the length.
pub open spec fn blank_run_end(s: Seq<u8>, i: int) -> int
    decreases s.len() - i,
{
    if i < 0 || i >= s.len() || !(s[i] == 32 || s[i] == 9) {
        i
    } else {
        blank_run_end(s, i + 1)
    }
}

/// Skips spaces and tabs from `i`.
pub fn skip_blanks(s: &[u8], i: usize) -> (r: usize)
    requires
        i <= s.len(),
    ensures
        r == blank_run_end(s@, i as int),
        i <= r <= s.len(),
{
    let mut k = i;
    while k < s.len() && (s[k] == 32 || s[k] == 9)
        invariant
            i <= k <= s.len(),
            blank_run_end(s@, i as int) == blank_run_end(s@, k as int),
        decreases s.len() - k,
    {
        k = k + 1;
    }
    k
}

/// Index of the first place at or after `i` where `a` is followed by `b`.
pub open spec fn pair_at(s: Seq<u8>, i: int, a: u8, b: u8) -> Option<int>
    decreases s.len() - i,
{
    if i < 0 || i + 1 >= s.len() {
        None
    } else if s[i] == a && s[i + 1] == b {
        Some(i)
    } else {
        pair_at(s, i + 1, a, b)
    }
}

pub proof fn lemma_pair_at(s: Seq<u8>, i: int, a: u8, b: u8)
    requires
        0 <= i,
    ensures
        pair_at(s, i, a, b) matches Some(k) ==> i <= k && k + 1 < s.len(),
    decreases s.len() - i,
{
    if i + 1 < s.len() && !(s[i] == a && s[i + 1] == b) {
        lemma_pair_at(s, i + 1, a, b);
    }
}

/// Finds the first place at or after `i` where `a` is followed by `b`.
pub fn find_pair(s: &[u8], i: usize, a: u8, b: u8) -> (r: Option<usize>)
    ensures
        r is Some <==> pair_at(s@, i as int, a, b) is Some,
        r matches Some(k) ==> pair_at(s@, i as int, a, b) == Some(k as int) && i <= k && k + 1
            < s.len(),
{
    proof {
        lemma_pair_at(s@, i as int, a, b);
    }
    let mut k = i;
    while k < s.len() && k + 1 < s.len()
        invariant
            i <= k,
            pair_at(s@, i as int, a, b) == pair_at(s@, k as int, a, b),
        decreases s.len() - k,
    {
        if s[k] == a && s[k + 1] == b {
            return Some(k);
        }
        k = k + 1;
    }
    None
}

/// `prefix` occurs in `s` at `i`.
pub open spec fn has_prefix_at(s: Seq<u8>, i: int, prefix: Seq<u8>) -> bool {
    0 <= i && i + prefix.len() <= s.len() && s.subrange(i, i + prefix.len()) == prefix
}

/// Whether `prefix` occurs in `s` at `i`.
pub fn prefix_at(s: &[u8], i: usize, prefix: &[u8]) -> (r: bool)
    ensures
        r == has_prefix_at(s@, i as int, prefix@),
{
    if i > s.len() || prefix.len() > s.len() - i {
        return false;
    }
    let mut k: usize = 0;
    while k < prefix.len()
        invariant
            k <= prefix.len(),
            i + prefix.len() <= s.len(),
            s@.subrange(i as int, i + k) =~= prefix@.subrange(0, k as int),
        decreases prefix.len() - k,
    {
        if s[i + k] != prefix[k] {
            assert(s@.subrange(i as int, i + prefix.len())[k as int] != prefix@[k as int]);
            return false;
        }
        proof {
            assert(s@.subrange(i as int, i + k + 1) =~= s@.subrange(i as int, i + k).push(s@[i + k]));
            assert(prefix@.subrange(0, k + 1) =~= prefix@.subrange(0, k as int).push(prefix@[k as int]));
        }
        k = k + 1;
    }
    assert(prefix@.subrange(0, k as int) =~= prefix@);
    true
}

/// The first at most 16 bytes of `s` from `i`, shown with parse errors.
pub open spec fn snippet_at(s: Seq<u8>, i: int) -> Seq<u8> {
    if i >= s.len() {
        Seq::empty()
    } else if i + 16 <= s.len() {
        s.subrange(i, i + 16)
    } else {
        s.subrange(i, s.len() as int)
    }
}

/// Copies the first at most 16 bytes of `s` from `i`.
pub fn snippet(s: &[u8], i: usize) -> (r: Vec<u8>)
    ensures
        r@ == snippet_at(s@, i as int),
{
    if i >= s.len() {
        Vec::new()
    } else if 16 <= s.len() - i {
        vstd::slice::slice_to_vec(vstd::slice::slice_subrange(s, i, i + 16))
    } else {
        vstd::slice::slice_to_vec(vstd::slice::slice_subrange(s, i, s.len()))
    }
}

/// Copies `s[i..j]`.
pub fn copy_range(s: &[u8], i: usize, j: usize) -> (r: Vec<u8>)
    requires
        i <= j <= s.len(),
    ensures
        r@ == s@.subrange(i as int, j as int),
{
    vstd::slice::slice_to_vec(vstd::slice::slice_subrange(s, i, j))
}

/// Whether two byte strings are equal.
pub fn bytes_eq(a: &[u8], b: &[u8]) -> (r: bool)
    ensures
        r == (a@ == b@),
{
    if a.len() != b.len() {
        return false;
    }
    let mut i: usize = 0;
    while i < a.len()
        invariant
            i <= a.len() == b.len(),
            a@.subrange(0, i as int) =~= b@.subrange(0, i as int),
        decreases a.len() - i,
    {
        if a[i] != b[i] {
            assert(a@[i as int] != b@[i as int]);
            return false;
        }
        proof {
            assert(a@.subrange(0, i + 1) =~= a@.subrange(0, i as int).push(a@[i as int]));
            assert(b@.subrange(0, i + 1) =~= b@.subrange(0, i as int).push(b@[i as int]));
        }
        i = i + 1;
    }
    assert(a@ =~= a@.subrange(0, i as int));
    assert(b@ =~= b@.subrange(0, i as int));
    true
}

/// Why an object body could not be parsed.
#[derive(Debug, Clone, PartialEq, Eq)]
pub enum ParseError {
    /// The body does not follow the grammar; carries up to 16 bytes of the
    /// input where parsing stopped.
    ParseError { input_snippet: Vec<u8> },
    /// A field that the object must have is missing.
    MissingFields,
}

/// A parse error as values.
pub enum ParseErrorView {
    Syntax(Seq<u8>),
    MissingFields,
}

/// The value of a parse error.
pub open spec fn parse_error_view(e: ParseError) -> ParseErrorView {
    match e {
        ParseError::ParseError { input_snippet } => ParseErrorView::Syntax(input_snippet@),
        ParseError::MissingFields => ParseErrorView::MissingFields,
    }
}

} // verus!
