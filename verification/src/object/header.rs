//! The header lines that open commit and tag objects.
//!
//! Each header is a name, a space and a value running to the end of the
//! line; a value continues onto following lines that start with spaces or
//! tabs, joined with single spaces. An empty line ends the headers and the
//! rest of the object is the message.
use vstd::prelude::*;

use crate::parsing::{
    blank_run_end, byte_stop, copy_range, find_byte, lemma_byte_stop_at, lemma_line_stop_at,
    read_rest_of_line, rest_of_line, skip_blanks,
};

verus! {

/// A header line of a commit or tag.
#[derive(Debug, PartialEq, Eq, Clone)]
pub struct ObjectHeader {
    name: Vec<u8>,
    value: Vec<u8>,
}

impl View for ObjectHeader {
    type V = (Seq<u8>, Seq<u8>);

    closed spec fn view(&self) -> (Seq<u8>, Seq<u8>) {
        (self.name@, self.value@)
    }
}

impl ObjectHeader {
    /// A header with the given name and value.
    pub fn new(name: Vec<u8>, value: Vec<u8>) -> (r: Self)
        ensures
            r@ == (name@, value@),
    {
        ObjectHeader { name, value }
    }

    /// The header's name.
    pub fn name(&self) -> (r: &[u8])
        ensures
            r@ == self@.0,
    {
        self.name.as_slice()
    }

    /// A copy of the header.
    pub fn clone_header(&self) -> (r: Self)
        ensures
            r@ == self@,
    {
        ObjectHeader { name: self.name.clone(), value: self.value.clone() }
    }

    /// The header's value, continuation lines joined with spaces.
    pub fn value(&self) -> (r: &[u8])
        ensures
            r@ == self@.1,
    {
        self.value.as_slice()
    }
}

/// The header views of a sequence of headers.
pub open spec fn header_views(hs: Seq<ObjectHeader>) -> Seq<(Seq<u8>, Seq<u8>)> {
    hs.map_values(|h: ObjectHeader| h@)
}

/// Continuation lines from `p`: each is a line feed, one or more spaces or
/// tabs, and the rest of a line. Gives where they end and their contents.
pub open spec fn continuations(s: Seq<u8>, p: int) -> (int, Seq<Seq<u8>>)
    decreases s.len() - p,
{
    if 0 <= p < s.len() && s[p] == 10 {
        let k = blank_run_end(s, p + 1);
        if k > p + 1 {
            match rest_of_line(s, k) {
                Some(q) => if p < q <= s.len() {
                    let (e, ls) = continuations(s, q);
                    (e, seq![s.subrange(k, q)] + ls)
                } else {
                    (p, Seq::empty())
                },
                None => (p, Seq::empty()),
            }
        } else {
            (p, Seq::empty())
        }
    } else {
        (p, Seq::empty())
    }
}

/// A value's first line followed by its continuation lines, each after a
/// single space.
pub open spec fn join_lines(first: Seq<u8>, ls: Seq<Seq<u8>>) -> Seq<u8>
    decreases ls.len(),
{
    if ls.len() == 0 {
        first
    } else {
        join_lines(first, ls.drop_last()) + seq![32u8] + ls.last()
    }
}

/// The header that starts at `p`: where it ends (after its final line feed),
/// its name and its value. A header cannot start with a line feed; its name
/// runs to the first space.
pub open spec fn header_at(s: Seq<u8>, p: int) -> Option<(int, Seq<u8>, Seq<u8>)> {
    if p < 0 || p >= s.len() || s[p] == 10 {
        None
    } else {
        let t = byte_stop(s, p, 32);
        if t >= s.len() {
            None
        } else {
            match rest_of_line(s, t + 1) {
                None => None,
                Some(q) => {
                    let (e, ls) = continuations(s, q);
                    if 0 <= e < s.len() && s[e] == 10 {
                        Some((e + 1, s.subrange(p, t), join_lines(s.subrange(t + 1, q), ls)))
                    } else {
                        None
                    }
                },
            }
        }
    }
}

/// The headers from `p` on, up to the first place no header starts: where
/// that is, and the headers' names and values.
pub open spec fn headers_from(s: Seq<u8>, p: int) -> (int, Seq<(Seq<u8>, Seq<u8>)>)
    decreases s.len() - p,
{
    match header_at(s, p) {
        Some((e, n, v)) => if p < e <= s.len() {
            let (end, hs) = headers_from(s, e);
            (end, seq![(n, v)] + hs)
        } else {
            (p, Seq::empty())
        },
        None => (p, Seq::empty()),
    }
}

/// The headers of an object body and the position of its message: the
/// headers must be followed by an empty line. Otherwise gives the position
/// where the empty line was expected.
pub open spec fn object_headers(s: Seq<u8>) -> Result<(Seq<(Seq<u8>, Seq<u8>)>, int), int> {
    let (p, hs) = headers_from(s, 0);
    if 0 <= p < s.len() && s[p] == 10 {
        Ok((hs, p + 1))
    } else {
        Err(p)
    }
}

proof fn lemma_continuations_bounds(s: Seq<u8>, p: int)
    requires
        0 <= p <= s.len(),
    ensures
        p <= continuations(s, p).0 <= s.len(),
    decreases s.len() - p,
{
    if 0 <= p < s.len() && s[p] == 10 {
        let k = blank_run_end(s, p + 1);
        if k > p + 1 {
            match rest_of_line(s, k) {
                Some(q) => if p < q <= s.len() {
                    lemma_continuations_bounds(s, q);
                },
                None => {},
            }
        }
    }
}

/// Reads the header starting at `p`, if one does.
fn read_header(s: &[u8], p: usize) -> (r: Option<(usize, ObjectHeader)>)
    requires
        p <= s.len(),
    ensures
        r is Some <==> header_at(s@, p as int) is Some,
        r matches Some((e, h)) ==> header_at(s@, p as int) == Some((e as int, h@.0, h@.1)),
{
    if p >= s.len() || s[p] == 10 {
        return None;
    }
    let t = find_byte(s, p, 32);
    if t >= s.len() {
        return None;
    }
    let q = match read_rest_of_line(s, t + 1) {
        None => return None,
        Some(q) => q,
    };
    let mut value = copy_range(s, t + 1, q);
    let ghost first = s@.subrange(t + 1, q as int);
    let ghost mut done: Seq<Seq<u8>> = Seq::empty();
    let mut c = q;
    proof {
        lemma_continuations_bounds(s@, q as int);
    }
    // Continuation lines.
    loop
        invariant
            q <= c <= s.len(),
            continuations(s@, q as int) == (
                continuations(s@, c as int).0,
                done + continuations(s@, c as int).1,
            ),
            value@ == join_lines(first, done),
        ensures
            q <= c <= s.len(),
            continuations(s@, q as int) == (c as int, done),
            value@ == join_lines(first, done),
        decreases s.len() - c,
    {
        if !(c < s.len() && s[c] == 10) {
            proof {
                assert(done + Seq::<Seq<u8>>::empty() =~= done);
            }
            break;
        }
        let k = skip_blanks(s, c + 1);
        if k <= c + 1 {
            proof {
                assert(done + Seq::<Seq<u8>>::empty() =~= done);
            }
            break;
        }
        let q2 = match read_rest_of_line(s, k) {
            None => {
                proof {
                    assert(done + Seq::<Seq<u8>>::empty() =~= done);
                }
                break;
            },
            Some(q2) => q2,
        };
        proof {
            assert(seq![32u8] + s@.subrange(k as int, q2 as int) =~= seq![32u8].add(s@.subrange(k as int, q2 as int)));
        }
        let ghost old_value = value@;
        value.push(32);
        let line = vstd::slice::slice_subrange(s, k, q2);
        crate::object_store::pack::append_bytes(&mut value, line);
        proof {
            let line_v = s@.subrange(k as int, q2 as int);
            let nd = done.push(line_v);
            assert(nd.drop_last() =~= done);
            assert(value@ =~= join_lines(first, done) + seq![32u8] + line_v);
            assert(value@ == join_lines(first, nd));
            let (e2, ls2) = continuations(s@, q2 as int);
            assert(done + (seq![line_v] + ls2) =~= nd + ls2);
            done = nd;
        }
        c = q2;
    }
    if !(c < s.len() && s[c] == 10) {
        return None;
    }
    let name = copy_range(s, p, t);
    Some((c + 1, ObjectHeader { name, value }))
}

/// Splits an object body into its headers and the position where its
/// message starts, or gives the position where the empty line ending the
/// headers was expected.
pub fn parse_object_headers(s: &[u8]) -> (r: Result<(Vec<ObjectHeader>, usize), usize>)
    ensures
        object_headers(s@) matches Ok((hs, m)) ==> r matches Ok((v, m2)) && header_views(v@)
            == hs && m2 == m,
        object_headers(s@) matches Err(p) ==> r matches Err(p2) && p2 == p,
{
    let mut headers: Vec<ObjectHeader> = Vec::new();
    let mut p: usize = 0;
    loop
        invariant
            p <= s.len(),
            headers_from(s@, 0) == (
                headers_from(s@, p as int).0,
                header_views(headers@) + headers_from(s@, p as int).1,
            ),
        ensures
            p <= s.len(),
            headers_from(s@, 0) == (p as int, header_views(headers@)),
        decreases s.len() - p,
    {
        match read_header(s, p) {
            None => {
                proof {
                    let hv = header_views(headers@);
                    assert(hv + Seq::<(Seq<u8>, Seq<u8>)>::empty() =~= hv);
                }
                break;
            },
            Some((e, h)) => {
                if e <= p || e > s.len() {
                    proof {
                        let hv = header_views(headers@);
                        assert(hv + Seq::<(Seq<u8>, Seq<u8>)>::empty() =~= hv);
                    }
                    break;
                }
                let ghost old = header_views(headers@);
                headers.push(h);
                proof {
                    assert(header_views(headers@) =~= old.push(h@));
                    let (end, hs) = headers_from(s@, e as int);
                    assert(old + (seq![h@] + hs) =~= old.push(h@) + hs);
                }
                p = e;
            },
        }
    }
    if p < s.len() && s[p] == 10 {
        Ok((headers, p + 1))
    } else {
        Err(p)
    }
}

/// How headers are written: each name, a space, its value and a line feed.
pub open spec fn headers_text(hs: Seq<(Seq<u8>, Seq<u8>)>) -> Seq<u8>
    decreases hs.len(),
{
    if hs.len() == 0 {
        Seq::empty()
    } else {
        hs[0].0.push(32u8).add(hs[0].1).push(10u8).add(headers_text(hs.subrange(1, hs.len() as int)))
    }
}

/// Headers that can be written one per line: each name is not empty, has
/// no space or line feed and does not start with a tab; each value has no
/// line feed or carriage return.
pub open spec fn writable_headers(hs: Seq<(Seq<u8>, Seq<u8>)>) -> bool {
    forall|k: int| 0 <= k < hs.len() ==> {
        &&& (#[trigger] hs[k]).0.len() > 0
        &&& hs[k].0[0] != 9u8
        &&& forall|j: int| 0 <= j < hs[k].0.len() ==> hs[k].0[j] != 32u8 && hs[k].0[j] != 10u8
        &&& forall|j: int| 0 <= j < hs[k].1.len() ==> hs[k].1[j] != 10u8 && hs[k].1[j] != 13u8
    }
}

proof fn lemma_header_line(
    p: Seq<u8>,
    name: Seq<u8>,
    value: Seq<u8>,
    rest: Seq<u8>,
)
    requires
        name.len() > 0,
        forall|j: int| 0 <= j < name.len() ==> name[j] != 32u8 && name[j] != 10u8,
        forall|j: int| 0 <= j < value.len() ==> value[j] != 10u8 && value[j] != 13u8,
        rest.len() > 0,
        rest[0] != 32u8 && rest[0] != 9u8,
    ensures
        header_at(p.add(name.push(32u8).add(value).push(10u8)).add(rest), p.len() as int) == Some(
            (p.len() + name.len() + value.len() as int + 2, name, value),
        ),
{
    let line = name.push(32u8).add(value).push(10u8);
    let s = p.add(line).add(rest);
    let i = p.len() as int;
    let t = i + name.len();
    let q = t + 1 + value.len();
    assert forall|j: int| 0 <= j < line.len() implies s[i + j] == #[trigger] line[j] by {
        assert(s[i + j] == p.add(line)[i + j]);
    }
    assert(s[i] == line[0]);
    assert(line[0] == name[0]);
    assert forall|j: int| i <= j < t implies #[trigger] s[j] != 32u8 by {
        assert(s[j] == line[j - i]);
        assert(line[j - i] == name[j - i]);
    }
    assert(s[t] == line[name.len() as int]);
    lemma_byte_stop_at(s, i, t, 32u8);
    assert forall|j: int| t + 1 <= j < q implies #[trigger] s[j] != 10u8 && s[j] != 13u8 by {
        assert(s[j] == line[j - i]);
        assert(line[j - i] == value[j - t - 1]);
    }
    assert(s[q] == line[q - i]);
    assert(line[q - i] == 10u8);
    lemma_line_stop_at(s, t + 1, q);
    assert(s[q + 1] == rest[0]);
    assert(blank_run_end(s, q + 1) == q + 1);
    assert(continuations(s, q) == (q, Seq::<Seq<u8>>::empty()));
    assert(s.subrange(i, t) =~= name) by {
        assert forall|j: int| 0 <= j < name.len() implies s.subrange(i, t)[j] == name[j] by {
            assert(s[i + j] == line[j]);
        }
    }
    assert(s.subrange(t + 1, q) =~= value) by {
        assert forall|j: int| 0 <= j < value.len() implies s.subrange(t + 1, q)[j] == value[j] by {
            assert(s[t + 1 + j] == line[name.len() + 1 + j]);
        }
    }
}

proof fn lemma_headers_of_text(p: Seq<u8>, hs: Seq<(Seq<u8>, Seq<u8>)>, msg: Seq<u8>)
    requires
        writable_headers(hs),
    ensures
        headers_from(p.add(headers_text(hs)).push(10u8).add(msg), p.len() as int) == (
            p.len() + headers_text(hs).len() as int,
            hs,
        ),
    decreases hs.len(),
{
    let s = p.add(headers_text(hs)).push(10u8).add(msg);
    let i = p.len() as int;
    if hs.len() == 0 {
        assert(s[i] == 10u8);
    } else {
        let (name, value) = hs[0];
        let rest = hs.subrange(1, hs.len() as int);
        let line = name.push(32u8).add(value).push(10u8);
        let tail = headers_text(rest).push(10u8).add(msg);
        assert(headers_text(hs) == line.add(headers_text(rest)));
        assert(s =~= p.add(line).add(tail));
        assert forall|k: int| 0 <= k < rest.len() implies {
            &&& (#[trigger] rest[k]).0.len() > 0
            &&& rest[k].0[0] != 9u8
            &&& forall|j: int| 0 <= j < rest[k].0.len() ==> rest[k].0[j] != 32u8 && rest[k].0[j] != 10u8
            &&& forall|j: int| 0 <= j < rest[k].1.len() ==> rest[k].1[j] != 10u8 && rest[k].1[j] != 13u8
        } by {
            assert(rest[k] == hs[k + 1]);
        }
        if rest.len() > 0 {
            assert(tail[0] == rest[0].0[0]);
        } else {
            assert(tail[0] == 10u8);
        }
        lemma_header_line(p, name, value, tail);
        lemma_headers_of_text(p.add(line), rest, msg);
        assert(p.add(line).add(headers_text(rest)).push(10u8).add(msg) =~= s);
        assert(seq![(name, value)].add(rest) =~= hs);
    }
}

/// Headers written one per line and followed by an empty line read back as
/// those headers, with the message starting after the empty line.
pub proof fn law_headers_roundtrip(hs: Seq<(Seq<u8>, Seq<u8>)>, msg: Seq<u8>)
    requires
        writable_headers(hs),
    ensures
        object_headers(headers_text(hs).push(10u8).add(msg)) == Ok::<(Seq<(Seq<u8>, Seq<u8>)>, int), int>(
            (hs, headers_text(hs).len() as int + 1),
        ),
{
    lemma_headers_of_text(Seq::empty(), hs, msg);
    let s = headers_text(hs).push(10u8).add(msg);
    assert(Seq::<u8>::empty().add(headers_text(hs)).push(10u8).add(msg) =~= s);
    assert(s[headers_text(hs).len() as int] == 10u8);
}

} // verus!
