//! The raw markup scanner: splits the decompressed byte stream into raw
//! markup events (declaration, start/end/self-closing tags with their
//! attribute regions, text runs), which the token source then folds into
//! structural tokens. The scanner is this format's own grammar, verified
//! against a functional mirror.

use vstd::prelude::*;

use crate::error::DeError;
use crate::text::B_LT;
use crate::text::B_GT;

verus! {

pub const B_SLASH: u8 = 47;

pub const B_QMARK: u8 = 63;

pub const B_BANG: u8 = 33;

pub const B_EQ: u8 = 61;

pub const B_SPACE: u8 = 32;

/// One raw markup event. Tag payloads carry the tag name and the unparsed
/// attribute region; text is carried raw, entities still escaped.
pub enum RawEvent {
    /// An `xml` declaration's attribute region.
    Decl(Vec<u8>),
    /// `name, attribute region` of a start tag.
    StartTag(Vec<u8>, Vec<u8>),
    /// Name of an end tag.
    EndTag(Vec<u8>),
    /// `name, attribute region` of a self-closing tag.
    EmptyTag(Vec<u8>, Vec<u8>),
    /// A raw text run between tags.
    Text(Vec<u8>),
    /// A markup construct outside the token grammar (comment, CDATA, other
    /// processing instruction).
    Other,
    /// End of the byte stream.
    End,
}

/// The ghost shape of a raw event.
pub enum SpecRaw {
    Decl(Seq<u8>),
    StartTag(Seq<u8>, Seq<u8>),
    EndTag(Seq<u8>),
    EmptyTag(Seq<u8>, Seq<u8>),
    Text(Seq<u8>),
    Other,
    End,
}

impl View for RawEvent {
    type V = SpecRaw;

    open spec fn view(&self) -> SpecRaw {
        match self {
            RawEvent::Decl(a) => SpecRaw::Decl(a@),
            RawEvent::StartTag(n, a) => SpecRaw::StartTag(n@, a@),
            RawEvent::EndTag(n) => SpecRaw::EndTag(n@),
            RawEvent::EmptyTag(n, a) => SpecRaw::EmptyTag(n@, a@),
            RawEvent::Text(t) => SpecRaw::Text(t@),
            RawEvent::Other => SpecRaw::Other,
            RawEvent::End => SpecRaw::End,
        }
    }
}

pub open spec fn is_ws(b: u8) -> bool {
    b == 32 || b == 9 || b == 10 || b == 13
}

/// The first position at or after `from` holding `b`.
pub open spec fn spec_find(s: Seq<u8>, from: int, b: u8) -> Option<int>
    decreases s.len() - from,
{
    if from < 0 || from >= s.len() {
        None
    } else if s[from] == b {
        Some(from)
    } else {
        spec_find(s, from + 1, b)
    }
}

/// The first whitespace position at or after `from`.
pub open spec fn spec_find_ws(s: Seq<u8>, from: int) -> Option<int>
    decreases s.len() - from,
{
    if from < 0 || from >= s.len() {
        None
    } else if is_ws(s[from]) {
        Some(from)
    } else {
        spec_find_ws(s, from + 1)
    }
}

/// The first position at or after `from` holding whitespace or the
/// equals sign: where an attribute name ends.
pub open spec fn spec_find_attr_stop(s: Seq<u8>, from: int) -> Option<int>
    decreases s.len() - from,
{
    if from < 0 || from >= s.len() {
        None
    } else if is_ws(s[from]) || s[from] == B_EQ {
        Some(from)
    } else {
        spec_find_attr_stop(s, from + 1)
    }
}

pub proof fn lemma_find_attr_stop_char(s: Seq<u8>, from: int)
    requires
        0 <= from <= s.len(),
    ensures
        match spec_find_attr_stop(s, from) {
            Some(j) => from <= j < s.len() && (is_ws(s[j]) || s[j] == B_EQ) && (forall|k: int|
                from <= k < j ==> !is_ws(s[k]) && s[k] != B_EQ),
            None => forall|k: int| from <= k < s.len() ==> !is_ws(s[k]) && s[k] != B_EQ,
        },
    decreases s.len() - from,
{
    if from < s.len() && !is_ws(s[from]) && s[from] != B_EQ {
        lemma_find_attr_stop_char(s, from + 1);
    }
}

/// Find where an attribute name ends: the first whitespace or equals sign
/// at or after `from`.
pub fn find_attr_stop(s: &Vec<u8>, from: usize) -> (r: Option<usize>)
    requires
        from <= s@.len(),
    ensures
        match r {
            Some(j) => spec_find_attr_stop(s@, from as int) == Some(j as int) && from <= j
                < s@.len(),
            None => spec_find_attr_stop(s@, from as int) is None,
        },
{
    proof {
        lemma_find_attr_stop_char(s@, from as int);
    }
    let mut i: usize = from;
    while i < s.len()
        invariant
            from <= i <= s@.len(),
            forall|k: int| from <= k < i ==> !is_ws(s@[k]) && s@[k] != B_EQ,
            match spec_find_attr_stop(s@, from as int) {
                Some(j) => from <= j < s@.len() && (is_ws(s@[j]) || s@[j] == B_EQ) && (forall|
                    k: int,
                |
                    from <= k < j ==> !is_ws(s@[k]) && s@[k] != B_EQ),
                None => forall|k: int| from <= k < s@.len() ==> !is_ws(s@[k]) && s@[k] != B_EQ,
            },
        decreases s@.len() - i,
    {
        let c = s[i];
        if c == 32 || c == 9 || c == 10 || c == 13 || c == B_EQ {
            return Some(i);
        }
        i += 1;
    }
    None
}

/// The first non-whitespace position at or after `from`, or the length.
pub open spec fn spec_skip_ws(s: Seq<u8>, from: int) -> int
    decreases s.len() - from,
{
    if from < 0 || from >= s.len() {
        s.len() as int
    } else if is_ws(s[from]) {
        spec_skip_ws(s, from + 1)
    } else {
        from
    }
}

pub proof fn lemma_find_char(s: Seq<u8>, from: int, b: u8)
    requires
        0 <= from <= s.len(),
    ensures
        match spec_find(s, from, b) {
            Some(j) => from <= j < s.len() && s[j] == b && (forall|k: int|
                from <= k < j ==> s[k] != b),
            None => forall|k: int| from <= k < s.len() ==> s[k] != b,
        },
    decreases s.len() - from,
{
    if from < s.len() && s[from] != b {
        lemma_find_char(s, from + 1, b);
    }
}

pub proof fn lemma_find_ws_char(s: Seq<u8>, from: int)
    requires
        0 <= from <= s.len(),
    ensures
        match spec_find_ws(s, from) {
            Some(j) => from <= j < s.len() && is_ws(s[j]) && (forall|k: int|
                from <= k < j ==> !is_ws(s[k])),
            None => forall|k: int| from <= k < s.len() ==> !is_ws(s[k]),
        },
    decreases s.len() - from,
{
    if from < s.len() && !is_ws(s[from]) {
        lemma_find_ws_char(s, from + 1);
    }
}

pub proof fn lemma_skip_ws_char(s: Seq<u8>, from: int)
    requires
        0 <= from <= s.len(),
    ensures
        from <= spec_skip_ws(s, from) <= s.len(),
        forall|k: int| from <= k < spec_skip_ws(s, from) ==> is_ws(s[k]),
        spec_skip_ws(s, from) < s.len() ==> !is_ws(s[spec_skip_ws(s, from)]),
    decreases s.len() - from,
{
    if from < s.len() && is_ws(s[from]) {
        lemma_skip_ws_char(s, from + 1);
    }
}

/// Find the first `b` at or after `from`.
pub fn find_byte(s: &Vec<u8>, from: usize, b: u8) -> (r: Option<usize>)
    requires
        from <= s@.len(),
    ensures
        match r {
            Some(j) => spec_find(s@, from as int, b) == Some(j as int) && from <= j < s@.len(),
            None => spec_find(s@, from as int, b) is None,
        },
{
    proof {
        lemma_find_char(s@, from as int, b);
    }
    let mut i: usize = from;
    while i < s.len()
        invariant
            from <= i <= s@.len(),
            forall|k: int| from <= k < i ==> s@[k] != b,
            match spec_find(s@, from as int, b) {
                Some(j) => from <= j < s@.len() && s@[j] == b && (forall|k: int|
                    from <= k < j ==> s@[k] != b),
                None => forall|k: int| from <= k < s@.len() ==> s@[k] != b,
            },
        decreases s@.len() - i,
    {
        if s[i] == b {
            return Some(i);
        }
        i += 1;
    }
    None
}

/// Find the first whitespace byte at or after `from`.
pub fn find_ws(s: &Vec<u8>, from: usize) -> (r: Option<usize>)
    requires
        from <= s@.len(),
    ensures
        match r {
            Some(j) => spec_find_ws(s@, from as int) == Some(j as int) && from <= j < s@.len(),
            None => spec_find_ws(s@, from as int) is None,
        },
{
    proof {
        lemma_find_ws_char(s@, from as int);
    }
    let mut i: usize = from;
    while i < s.len()
        invariant
            from <= i <= s@.len(),
            forall|k: int| from <= k < i ==> !is_ws(s@[k]),
            match spec_find_ws(s@, from as int) {
                Some(j) => from <= j < s@.len() && is_ws(s@[j]) && (forall|k: int|
                    from <= k < j ==> !is_ws(s@[k])),
                None => forall|k: int| from <= k < s@.len() ==> !is_ws(s@[k]),
            },
        decreases s@.len() - i,
    {
        let c = s[i];
        if c == 32 || c == 9 || c == 10 || c == 13 {
            return Some(i);
        }
        i += 1;
    }
    None
}

/// Skip whitespace from `from` on.
pub fn skip_ws(s: &Vec<u8>, from: usize) -> (r: usize)
    requires
        from <= s@.len(),
    ensures
        r as int == spec_skip_ws(s@, from as int),
        from <= r <= s@.len(),
{
    proof {
        lemma_skip_ws_char(s@, from as int);
    }
    let mut i: usize = from;
    while i < s.len()
        invariant
            from <= i <= s@.len(),
            forall|k: int| from <= k < i ==> is_ws(s@[k]),
            from <= spec_skip_ws(s@, from as int) <= s@.len(),
            forall|k: int| from <= k < spec_skip_ws(s@, from as int) ==> is_ws(s@[k]),
            spec_skip_ws(s@, from as int) < s@.len() ==> !is_ws(
                s@[spec_skip_ws(s@, from as int)],
            ),
        decreases s@.len() - i,
    {
        let c = s[i];
        if !(c == 32 || c == 9 || c == 10 || c == 13) {
            proof {
                let r = spec_skip_ws(s@, from as int);
                assert(r <= i);
                assert(r >= i);
            }
            return i;
        }
        i += 1;
    }
    proof {
        let r = spec_skip_ws(s@, from as int);
        assert(r >= i) by {
            if r < i {
                assert(is_ws(s@[r]));
            }
        }
    }
    i
}

/// Copy `s[a..b]` into a fresh vector.
pub fn copy_range(s: &Vec<u8>, a: usize, b: usize) -> (r: Vec<u8>)
    requires
        a <= b <= s@.len(),
    ensures
        r@ == s@.subrange(a as int, b as int),
{
    let mut out: Vec<u8> = Vec::new();
    let mut i: usize = a;
    while i < b
        invariant
            a <= i <= b <= s@.len(),
            out@.len() == i - a,
            forall|k: int| 0 <= k < out@.len() ==> out@[k] == s@[a + k],
        decreases b - i,
    {
        out.push(s[i]);
        i += 1;
    }
    proof {
        assert(out@ =~= s@.subrange(a as int, b as int));
    }
    out
}

/// Split a tag's content into its name and its attribute region: the name
/// runs to the first whitespace byte, the region is what follows it.
pub open spec fn spec_split_tag(c: Seq<u8>) -> (Seq<u8>, Seq<u8>) {
    match spec_find_ws(c, 0) {
        Some(k) => (c.subrange(0, k), c.subrange(k + 1, c.len() as int)),
        None => (c, Seq::empty()),
    }
}

/// Whether a declaration's content names the `xml` declaration.
pub open spec fn spec_is_xml_decl(c: Seq<u8>) -> bool {
    c.len() >= 3 && c[0] == 120 && c[1] == 109 && c[2] == 108 && (c.len() == 3 || is_ws(c[3]))
}

/// The attribute region of a declaration: what follows `xml` and one
/// whitespace byte.
pub open spec fn spec_decl_rest(c: Seq<u8>) -> Seq<u8> {
    if c.len() <= 4 {
        Seq::empty()
    } else {
        c.subrange(4, c.len() as int)
    }
}

/// The raw event found at `pos`, with the position after it.
pub open spec fn spec_next_raw(s: Seq<u8>, pos: int) -> Result<(SpecRaw, int), DeError> {
    if pos >= s.len() {
        Ok((SpecRaw::End, pos))
    } else if s[pos] != B_LT {
        match spec_find(s, pos, B_LT) {
            Some(j) => Ok((SpecRaw::Text(s.subrange(pos, j)), j)),
            None => Ok((SpecRaw::Text(s.subrange(pos, s.len() as int)), s.len() as int)),
        }
    } else if pos + 1 < s.len() && s[pos + 1] == B_SLASH {
        match spec_find(s, pos, B_GT) {
            Some(j) => if j >= pos + 2 {
                Ok((SpecRaw::EndTag(s.subrange(pos + 2, j)), j + 1))
            } else {
                Err(DeError::XmlParse)
            },
            None => Err(DeError::XmlParse),
        }
    } else if pos + 1 < s.len() && s[pos + 1] == B_QMARK {
        match spec_find(s, pos + 2, B_GT) {
            Some(j) => if j >= pos + 3 && s[j - 1] == B_QMARK {
                let c = s.subrange(pos + 2, j - 1);
                if spec_is_xml_decl(c) {
                    Ok((SpecRaw::Decl(spec_decl_rest(c)), j + 1))
                } else {
                    Ok((SpecRaw::Other, j + 1))
                }
            } else {
                Err(DeError::XmlParse)
            },
            None => Err(DeError::XmlParse),
        }
    } else if pos + 1 < s.len() && s[pos + 1] == B_BANG {
        match spec_find(s, pos + 2, B_GT) {
            Some(j) => Ok((SpecRaw::Other, j + 1)),
            None => Err(DeError::XmlParse),
        }
    } else {
        match spec_find(s, pos + 1, B_GT) {
            Some(j) => {
                if j > pos + 1 && s[j - 1] == B_SLASH {
                    let nm = spec_split_tag(s.subrange(pos + 1, j - 1));
                    Ok((SpecRaw::EmptyTag(nm.0, nm.1), j + 1))
                } else {
                    let nm = spec_split_tag(s.subrange(pos + 1, j));
                    Ok((SpecRaw::StartTag(nm.0, nm.1), j + 1))
                }
            },
            None => Err(DeError::XmlParse),
        }
    }
}

/// Every raw event but the end marker consumes input; a self-closing tag
/// consumes at least three bytes; the position never leaves the stream.
pub proof fn lemma_next_raw_progress(s: Seq<u8>, pos: int)
    requires
        0 <= pos <= s.len(),
    ensures
        match spec_next_raw(s, pos) {
            Ok(r) => {
                &&& pos <= r.1 <= s.len()
                &&& (!(r.0 is End) ==> r.1 > pos)
                &&& (r.0 is End ==> r.1 == pos && pos == s.len())
                &&& (r.0 is EmptyTag ==> r.1 >= pos + 3)
            },
            Err(_) => true,
        },
{
    if pos < s.len() {
        if s[pos] != B_LT {
            lemma_find_char(s, pos, B_LT);
            match spec_find(s, pos, B_LT) {
                Some(j) => {
                    assert(j != pos);
                },
                None => {},
            }
        } else if pos + 1 < s.len() && s[pos + 1] == B_SLASH {
            lemma_find_char(s, pos, B_GT);
        } else if pos + 1 < s.len() && s[pos + 1] == B_QMARK {
            lemma_find_char(s, pos + 2, B_GT);
        } else if pos + 1 < s.len() && s[pos + 1] == B_BANG {
            lemma_find_char(s, pos + 2, B_GT);
        } else {
            lemma_find_char(s, pos + 1, B_GT);
        }
    }
}

/// Split a tag's content into name and attribute region.
fn split_tag(c: Vec<u8>) -> (r: (Vec<u8>, Vec<u8>))
    ensures
        (r.0@, r.1@) == spec_split_tag(c@),
{
    match find_ws(&c, 0) {
        Some(k) => {
            let clen = c.len();
            let name = copy_range(&c, 0, k);
            let rest = copy_range(&c, k + 1, clen);
            (name, rest)
        },
        None => {
            let empty: Vec<u8> = Vec::new();
            proof {
                assert(empty@ =~= Seq::<u8>::empty());
            }
            (c, empty)
        },
    }
}

/// Scan the raw event at `pos`; return it with the position after it.
pub fn next_raw(s: &Vec<u8>, pos: usize) -> (r: Result<(RawEvent, usize), DeError>)
    requires
        pos <= s@.len(),
    ensures
        match r {
            Ok(t) => spec_next_raw(s@, pos as int) == Ok::<(SpecRaw, int), DeError>(
                (t.0@, t.1 as int),
            ) && t.1 <= s@.len(),
            Err(e) => spec_next_raw(s@, pos as int) == Err::<(SpecRaw, int), DeError>(e),
        },
{
    if pos >= s.len() {
        return Ok((RawEvent::End, pos));
    }
    if s[pos] != B_LT {
        match find_byte(s, pos, B_LT) {
            Some(j) => Ok((RawEvent::Text(copy_range(s, pos, j)), j)),
            None => Ok((RawEvent::Text(copy_range(s, pos, s.len())), s.len())),
        }
    } else if pos + 1 < s.len() && s[pos + 1] == B_SLASH {
        match find_byte(s, pos, B_GT) {
            Some(j) => if j >= pos + 2 {
                Ok((RawEvent::EndTag(copy_range(s, pos + 2, j)), j + 1))
            } else {
                Err(DeError::XmlParse)
            },
            None => Err(DeError::XmlParse),
        }
    } else if pos + 1 < s.len() && s[pos + 1] == B_QMARK {
        match find_byte(s, pos + 2, B_GT) {
            Some(j) => if j >= pos + 3 && s[j - 1] == B_QMARK {
                let c = copy_range(s, pos + 2, j - 1);
                let is_xml = c.len() >= 3 && c[0] == 120 && c[1] == 109 && c[2] == 108 && (c.len()
                    == 3 || {
                    let w = c[3];
                    w == 32 || w == 9 || w == 10 || w == 13
                });
                if is_xml {
                    let rest = if c.len() <= 4 {
                        Vec::new()
                    } else {
                        copy_range(&c, 4, c.len())
                    };
                    proof {
                        if c@.len() <= 4 {
                            assert(spec_decl_rest(c@) =~= Seq::<u8>::empty());
                        }
                    }
                    Ok((RawEvent::Decl(rest), j + 1))
                } else {
                    Ok((RawEvent::Other, j + 1))
                }
            } else {
                Err(DeError::XmlParse)
            },
            None => Err(DeError::XmlParse),
        }
    } else if pos + 1 < s.len() && s[pos + 1] == B_BANG {
        match find_byte(s, pos + 2, B_GT) {
            Some(j) => Ok((RawEvent::Other, j + 1)),
            None => Err(DeError::XmlParse),
        }
    } else {
        match find_byte(s, pos + 1, B_GT) {
            Some(j) => {
                if j > pos + 1 && s[j - 1] == B_SLASH {
                    let nm = split_tag(copy_range(s, pos + 1, j - 1));
                    Ok((RawEvent::EmptyTag(nm.0, nm.1), j + 1))
                } else {
                    let nm = split_tag(copy_range(s, pos + 1, j));
                    Ok((RawEvent::StartTag(nm.0, nm.1), j + 1))
                }
            },
            None => Err(DeError::XmlParse),
        }
    }
}

} // verus!
