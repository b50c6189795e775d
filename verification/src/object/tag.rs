//! Annotated tag objects.
use vstd::prelude::*;

use crate::object::commit::id_value;
use crate::object::header::{header_views, object_headers, parse_object_headers, ObjectHeader};
use crate::object::signature::{parse_signature, signature_parse, GitDate};
use crate::object_id::ObjectId;
use crate::parsing::{
    bytes_eq, copy_range, parse_error_view, snippet, snippet_at, ParseError, ParseErrorView,
};

verus! {

/// The type of the object an annotated tag points at.
#[derive(Debug, PartialEq, Eq, Structural, Copy, Clone)]
pub enum TagType {
    Commit,
    Blob,
    Tree,
    Tag,
}

/// An annotated tag: its target, the target's type, its name, tagger and
/// message, and any other headers.
#[derive(Debug, Clone)]
pub struct Tag {
    id: ObjectId,
    target: ObjectId,
    tag_type: TagType,
    name: Vec<u8>,
    tagger: Option<(Vec<u8>, Vec<u8>, GitDate)>,
    message: Vec<u8>,
    additional_headers: Vec<ObjectHeader>,
}

/// The content of a tag.
pub struct TagView {
    pub id: Seq<u8>,
    pub target: Seq<u8>,
    pub tag_type: TagType,
    pub name: Seq<u8>,
    pub tagger: Option<(Seq<u8>, Seq<u8>, GitDate)>,
    pub message: Seq<u8>,
    pub additional_headers: Seq<(Seq<u8>, Seq<u8>)>,
}

/// The value of an optional signature.
pub open spec fn signature_view(s: Option<(Vec<u8>, Vec<u8>, GitDate)>) -> Option<
    (Seq<u8>, Seq<u8>, GitDate),
> {
    match s {
        Some(x) => Some((x.0@, x.1@, x.2)),
        None => None,
    }
}

impl View for Tag {
    type V = TagView;

    closed spec fn view(&self) -> TagView {
        TagView {
            id: self.id@,
            target: self.target@,
            tag_type: self.tag_type,
            name: self.name@,
            tagger: signature_view(self.tagger),
            message: self.message@,
            additional_headers: header_views(self.additional_headers@),
        }
    }
}

/// What the headers of a tag have given so far.
pub struct TagFields {
    pub target: Option<Seq<u8>>,
    pub tag_type: Option<TagType>,
    pub name: Option<Seq<u8>>,
    pub tagger: Option<(Seq<u8>, Seq<u8>, GitDate)>,
    pub additional: Seq<(Seq<u8>, Seq<u8>)>,
}

/// `object` in ASCII.
pub open spec fn object_word() -> Seq<u8> {
    seq![111u8, 98u8, 106u8, 101u8, 99u8, 116u8]
}

/// `type` in ASCII.
pub open spec fn type_word() -> Seq<u8> {
    seq![116u8, 121u8, 112u8, 101u8]
}

/// `tag` in ASCII.
pub open spec fn tag_word() -> Seq<u8> {
    seq![116u8, 97u8, 103u8]
}

/// `tagger` in ASCII.
pub open spec fn tagger_word() -> Seq<u8> {
    seq![116u8, 97u8, 103u8, 103u8, 101u8, 114u8]
}

/// The type named by the value of a `type` header, if it is one of
/// `commit`, `blob`, `tree` and `tag`.
pub open spec fn tag_type_value(v: Seq<u8>) -> Option<TagType> {
    if v == seq![99u8, 111u8, 109u8, 109u8, 105u8, 116u8] {
        Some(TagType::Commit)
    } else if v == seq![98u8, 108u8, 111u8, 98u8] {
        Some(TagType::Blob)
    } else if v == seq![116u8, 114u8, 101u8, 101u8] {
        Some(TagType::Tree)
    } else if v == tag_word() {
        Some(TagType::Tag)
    } else {
        None
    }
}

/// Takes one more tag header into account. An `object` or `tagger` header
/// whose value does not parse is an error carrying that value; a `type`
/// header naming no known type clears the type; a later `object`, `type`,
/// `tag` or `tagger` replaces an earlier one; other headers are kept in
/// order.
pub open spec fn tag_step(acc: TagFields, h: (Seq<u8>, Seq<u8>)) -> Result<TagFields, Seq<u8>> {
    let (name, value) = h;
    if name == object_word() {
        match id_value(value) {
            None => Err(value),
            Some(t) => Ok(TagFields { target: Some(t), ..acc }),
        }
    } else if name == type_word() {
        Ok(TagFields { tag_type: tag_type_value(value), ..acc })
    } else if name == tag_word() {
        Ok(TagFields { name: Some(value), ..acc })
    } else if name == tagger_word() {
        match signature_parse(value) {
            None => Err(value),
            Some(sig) => Ok(TagFields { tagger: Some(sig), ..acc }),
        }
    } else {
        Ok(TagFields { additional: acc.additional.push(h), ..acc })
    }
}

/// Nothing read yet.
pub open spec fn no_tag_fields() -> TagFields {
    TagFields {
        target: None,
        tag_type: None,
        name: None,
        tagger: None,
        additional: Seq::empty(),
    }
}

/// The tag headers `hs` taken into account in order; stops at the first
/// header whose value does not parse.
pub open spec fn tag_fold(hs: Seq<(Seq<u8>, Seq<u8>)>) -> Result<TagFields, Seq<u8>>
    decreases hs.len(),
{
    if hs.len() == 0 {
        Ok(no_tag_fields())
    } else {
        match tag_fold(hs.drop_last()) {
            Err(e) => Err(e),
            Ok(acc) => tag_step(acc, hs.last()),
        }
    }
}

/// What parsing the body of tag `id` gives: the tag, or an error. A grammar
/// error carries up to 16 bytes of the input where parsing stopped: where
/// the empty line after the headers was expected, or the start of the
/// header value that does not parse. A tag without a target, a known target
/// type or a name is missing fields; the tagger may be absent.
pub open spec fn tag_parse(id: Seq<u8>, body: Seq<u8>) -> Result<TagView, ParseErrorView> {
    match object_headers(body) {
        Err(p) => Err(ParseErrorView::Syntax(snippet_at(body, p))),
        Ok((hs, m)) => match tag_fold(hs) {
            Err(v) => Err(ParseErrorView::Syntax(snippet_at(v, 0))),
            Ok(f) => match (f.target, f.tag_type, f.name) {
                (Some(t), Some(ty), Some(n)) => Ok(
                    TagView {
                        id,
                        target: t,
                        tag_type: ty,
                        name: n,
                        tagger: f.tagger,
                        message: body.subrange(m, body.len() as int),
                        additional_headers: f.additional,
                    },
                ),
                _ => Err(ParseErrorView::MissingFields),
            },
        },
    }
}

proof fn lemma_tag_fold_err(hs: Seq<(Seq<u8>, Seq<u8>)>, i: int)
    requires
        0 <= i < hs.len(),
        tag_fold(hs.subrange(0, i + 1)) is Err,
    ensures
        tag_fold(hs) == tag_fold(hs.subrange(0, i + 1)),
    decreases hs.len() - i,
{
    if i + 1 < hs.len() {
        assert(hs.drop_last().subrange(0, i + 1) =~= hs.subrange(0, i + 1));
        lemma_tag_fold_err(hs.drop_last(), i);
    } else {
        assert(hs.subrange(0, i + 1) =~= hs);
    }
}

/// Reads the value of a `type` header.
fn read_tag_type(v: &[u8]) -> (r: Option<TagType>)
    ensures
        r == tag_type_value(v@),
{
    let commit: [u8; 6] = [99, 111, 109, 109, 105, 116];
    let blob: [u8; 4] = [98, 108, 111, 98];
    let tree: [u8; 4] = [116, 114, 101, 101];
    let tag: [u8; 3] = [116, 97, 103];
    assert(commit@ =~= seq![99u8, 111u8, 109u8, 109u8, 105u8, 116u8]);
    assert(blob@ =~= seq![98u8, 108u8, 111u8, 98u8]);
    assert(tree@ =~= seq![116u8, 114u8, 101u8, 101u8]);
    assert(tag@ =~= tag_word());
    if bytes_eq(v, commit.as_slice()) {
        Some(TagType::Commit)
    } else if bytes_eq(v, blob.as_slice()) {
        Some(TagType::Blob)
    } else if bytes_eq(v, tree.as_slice()) {
        Some(TagType::Tree)
    } else if bytes_eq(v, tag.as_slice()) {
        Some(TagType::Tag)
    } else {
        None
    }
}

/// The header names a tag gives meaning to.
fn tag_words() -> (r: (Vec<u8>, Vec<u8>, Vec<u8>, Vec<u8>))
    ensures
        r.0@ == object_word(),
        r.1@ == type_word(),
        r.2@ == tag_word(),
        r.3@ == tagger_word(),
{
    let a = vec![111u8, 98, 106, 101, 99, 116];
    let b = vec![116u8, 121, 112, 101];
    let c = vec![116u8, 97, 103];
    let d = vec![116u8, 97, 103, 103, 101, 114];
    assert(a@ =~= object_word());
    assert(b@ =~= type_word());
    assert(c@ =~= tag_word());
    assert(d@ =~= tagger_word());
    (a, b, c, d)
}

/// Tags are the same when their ids are.
impl PartialEq for Tag {
    fn eq(&self, other: &Self) -> (r: bool) {
        self.id == other.id
    }
}

impl vstd::std_specs::cmp::PartialEqSpecImpl for Tag {
    open spec fn obeys_eq_spec() -> bool {
        true
    }

    open spec fn eq_spec(&self, other: &Self) -> bool {
        self@.id == other@.id
    }
}

impl Eq for Tag {
}

impl Tag {
    /// Parses the body of tag `id`.
    pub fn parse(id: ObjectId, body: &[u8]) -> (r: Result<Self, ParseError>)
        ensures
            tag_parse(id@, body@) matches Ok(t) ==> r matches Ok(x) && x@ == t,
            tag_parse(id@, body@) matches Err(e) ==> r matches Err(x) && parse_error_view(x) == e,
    {
        let (headers, m) = match parse_object_headers(body) {
            Err(p) => return Err(ParseError::ParseError { input_snippet: snippet(body, p) }),
            Ok(x) => x,
        };
        let ghost hs = header_views(headers@);
        let (w_object, w_type, w_tag, w_tagger) = tag_words();
        let mut target: Option<ObjectId> = None;
        let mut tag_type: Option<TagType> = None;
        let mut name: Option<Vec<u8>> = None;
        let mut tagger: Option<(Vec<u8>, Vec<u8>, GitDate)> = None;
        let mut additional: Vec<ObjectHeader> = Vec::new();
        let mut i: usize = 0;
        while i < headers.len()
            invariant
                i <= headers.len(),
                hs == header_views(headers@),
                object_headers(body@) matches Ok((hs2, m2)) && hs2 == hs && m2 == m,
                w_object@ == object_word(),
                w_type@ == type_word(),
                w_tag@ == tag_word(),
                w_tagger@ == tagger_word(),
                tag_fold(hs.subrange(0, i as int)) matches Ok(f) && f.target == (match target {
                    Some(t) => Some(t@),
                    None => None,
                }) && f.tag_type == tag_type && f.name == (match name {
                    Some(n) => Some(n@),
                    None => None,
                }) && f.tagger == signature_view(tagger) && f.additional == header_views(
                    additional@,
                ),
            decreases headers.len() - i,
        {
            let h = &headers[i];
            let ghost prefix = hs.subrange(0, i as int);
            let ghost next = hs.subrange(0, i + 1);
            proof {
                assert(next.drop_last() =~= prefix);
                assert(next.last() == h@);
            }
            let hname = h.name();
            let value = h.value();
            if bytes_eq(hname, w_object.as_slice()) {
                match ObjectId::from_hex(value) {
                    None => {
                        proof {
                            lemma_tag_fold_err(hs, i as int);
                        }
                        return Err(ParseError::ParseError { input_snippet: snippet(value, 0) });
                    },
                    Some(t) => {
                        target = Some(t);
                    },
                }
            } else if bytes_eq(hname, w_type.as_slice()) {
                tag_type = read_tag_type(value);
            } else if bytes_eq(hname, w_tag.as_slice()) {
                name = Some(copy_range(value, 0, value.len()));
                assert(value@.subrange(0, value@.len() as int) =~= value@);
            } else if bytes_eq(hname, w_tagger.as_slice()) {
                match parse_signature(value) {
                    None => {
                        proof {
                            lemma_tag_fold_err(hs, i as int);
                        }
                        return Err(ParseError::ParseError { input_snippet: snippet(value, 0) });
                    },
                    Some(sig) => {
                        tagger = Some(sig);
                    },
                }
            } else {
                let ghost old_a = header_views(additional@);
                additional.push(h.clone_header());
                assert(header_views(additional@) =~= old_a.push(h@));
            }
            i = i + 1;
        }
        proof {
            assert(hs.subrange(0, i as int) =~= hs);
        }
        let t = match target {
            None => return Err(ParseError::MissingFields),
            Some(t) => t,
        };
        let ty = match tag_type {
            None => return Err(ParseError::MissingFields),
            Some(ty) => ty,
        };
        let n = match name {
            None => return Err(ParseError::MissingFields),
            Some(n) => n,
        };
        let message = copy_range(body, m, body.len());
        Ok(
            Tag {
                id,
                target: t,
                tag_type: ty,
                name: n,
                tagger,
                message,
                additional_headers: additional,
            },
        )
    }

    /// A copy of the tag.
    pub fn clone_tag(&self) -> (r: Self)
        ensures
            r@ == self@,
    {
        let mut additional: Vec<ObjectHeader> = Vec::new();
        let mut k: usize = 0;
        while k < self.additional_headers.len()
            invariant
                k <= self.additional_headers@.len(),
                header_views(additional@) =~= header_views(self.additional_headers@.subrange(0, k as int)),
            decreases self.additional_headers@.len() - k,
        {
            let ghost before = header_views(additional@);
            additional.push(self.additional_headers[k].clone_header());
            proof {
                assert(header_views(additional@) =~= before.push(self.additional_headers@[k as int]@));
                assert(self.additional_headers@.subrange(0, k + 1) =~= self.additional_headers@.subrange(
                    0,
                    k as int,
                ).push(self.additional_headers@[k as int]));
            }
            k = k + 1;
        }
        assert(self.additional_headers@.subrange(0, k as int) =~= self.additional_headers@);
        let tagger = match &self.tagger {
            Some(t) => Some((t.0.clone(), t.1.clone(), t.2)),
            None => None,
        };
        Tag {
            id: self.id,
            target: self.target,
            tag_type: self.tag_type,
            name: self.name.clone(),
            tagger,
            message: self.message.clone(),
            additional_headers: additional,
        }
    }

    /// The tag's id.
    pub fn id(&self) -> (r: ObjectId)
        ensures
            r@ == self@.id,
    {
        self.id
    }

    /// The id of the object the tag points at.
    pub fn target(&self) -> (r: ObjectId)
        ensures
            r@ == self@.target,
    {
        self.target
    }

    /// The type of the object the tag points at.
    pub fn tag_type(&self) -> (r: TagType)
        ensures
            r == self@.tag_type,
    {
        self.tag_type
    }

    /// The tag's name.
    pub fn name(&self) -> (r: &[u8])
        ensures
            r@ == self@.name,
    {
        self.name.as_slice()
    }

    /// The tagger's name, if the tag has a tagger.
    pub fn tagger_name(&self) -> (r: Option<&[u8]>)
        ensures
            match self@.tagger {
                Some(t) => r matches Some(x) && x@ == t.0,
                None => r is None,
            },
    {
        match &self.tagger {
            Some(t) => Some(t.0.as_slice()),
            None => None,
        }
    }

    /// The tagger's email address, if the tag has a tagger.
    pub fn tagger_email(&self) -> (r: Option<&[u8]>)
        ensures
            match self@.tagger {
                Some(t) => r matches Some(x) && x@ == t.1,
                None => r is None,
            },
    {
        match &self.tagger {
            Some(t) => Some(t.1.as_slice()),
            None => None,
        }
    }

    /// When the tag was made, if the tag has a tagger.
    pub fn tag_date(&self) -> (r: Option<GitDate>)
        ensures
            match self@.tagger {
                Some(t) => r == Some(t.2),
                None => r is None,
            },
    {
        match &self.tagger {
            Some(t) => Some(t.2),
            None => None,
        }
    }

    /// The tag's message.
    pub fn message(&self) -> (r: &[u8])
        ensures
            r@ == self@.message,
    {
        self.message.as_slice()
    }

    /// The headers the tag gives no meaning to, in order.
    pub fn additional_headers(&self) -> (r: &[ObjectHeader])
        ensures
            header_views(r@) == self@.additional_headers,
    {
        self.additional_headers.as_slice()
    }
}

} // verus!
