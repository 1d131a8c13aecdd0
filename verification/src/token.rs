//! The token source: folds raw markup events into the closed set of
//! structural tokens (version declaration, document start with metadata,
//! dict start/end, key, string, integer, real, boolean, end of input),
//! normalizing self-closing dictionaries and tag/text pairs.

use vstd::prelude::*;

use crate::error::DeError;
use crate::raw::RawEvent;
use crate::raw::SpecRaw;
use crate::raw::spec_find;
use crate::raw::spec_find_ws;
use crate::raw::spec_skip_ws;
use crate::raw::spec_next_raw;
use crate::raw::lemma_find_char;
use crate::raw::lemma_find_ws_char;
use crate::raw::spec_find_attr_stop;
use crate::raw::lemma_find_attr_stop_char;
use crate::raw::find_attr_stop;
use crate::raw::lemma_skip_ws_char;
use crate::raw::lemma_next_raw_progress;
use crate::raw::find_byte;
use crate::raw::find_ws;
use crate::raw::skip_ws;
use crate::raw::copy_range;
use crate::raw::next_raw;
use crate::raw::B_EQ;
use crate::text::B_QUOT;
use crate::text::B_APOS;
use crate::text::spec_unescape;
use crate::text::unescape;

verus! {

/// One structural token of the document grammar. Textual payloads are the
/// raw (already unescaped) bytes; parsing numbers happens in the structural
/// decoder, not here.
#[derive(Debug, PartialEq, Eq)]
pub enum DeEvent {
    /// The markup version declaration's version text.
    XmlVersion(Vec<u8>),
    /// The document start tag with its two version attributes.
    PlistStart { plist_version: Vec<u8>, gj_version: Vec<u8> },
    DictStart,
    DictEnd,
    Key(Vec<u8>),
    Str(Vec<u8>),
    Integer(Vec<u8>),
    Real(Vec<u8>),
    True,
    Eof,
}

/// The ghost shape of a token.
pub enum SpecToken {
    XmlVersion(Seq<u8>),
    PlistStart { plist_version: Seq<u8>, gj_version: Seq<u8> },
    DictStart,
    DictEnd,
    Key(Seq<u8>),
    Str(Seq<u8>),
    Integer(Seq<u8>),
    Real(Seq<u8>),
    True,
    Eof,
}

impl View for DeEvent {
    type V = SpecToken;

    open spec fn view(&self) -> SpecToken {
        match self {
            DeEvent::XmlVersion(v) => SpecToken::XmlVersion(v@),
            DeEvent::PlistStart { plist_version, gj_version } => SpecToken::PlistStart {
                plist_version: plist_version@,
                gj_version: gj_version@,
            },
            DeEvent::DictStart => SpecToken::DictStart,
            DeEvent::DictEnd => SpecToken::DictEnd,
            DeEvent::Key(v) => SpecToken::Key(v@),
            DeEvent::Str(v) => SpecToken::Str(v@),
            DeEvent::Integer(v) => SpecToken::Integer(v@),
            DeEvent::Real(v) => SpecToken::Real(v@),
            DeEvent::True => SpecToken::True,
            DeEvent::Eof => SpecToken::Eof,
        }
    }
}

/// The "expect text" mode a scalar start tag arms.
#[derive(Clone, Copy, PartialEq, Eq, Structural)]
pub enum Expect {
    Idle,
    Key,
    Str,
    Int,
    Real,
}

pub open spec fn version_name() -> Seq<u8> {
    seq![118u8, 101u8, 114u8, 115u8, 105u8, 111u8, 110u8]
}

pub open spec fn gjver_name() -> Seq<u8> {
    seq![103u8, 106u8, 118u8, 101u8, 114u8]
}

/// Compare two byte strings.
pub fn bytes_eq(a: &[u8], b: &[u8]) -> (r: bool)
    ensures
        r == (a@ == b@),
{
    if a.len() != b.len() {
        return false;
    }
    let mut i: usize = 0;
    while i < a.len()
        invariant
            i <= a@.len(),
            a@.len() == b@.len(),
            forall|k: int| 0 <= k < i ==> a@[k] == b@[k],
        decreases a@.len() - i,
    {
        if a[i] != b[i] {
            return false;
        }
        i += 1;
    }
    proof {
        assert(a@ =~= b@);
    }
    true
}

/// One attribute parsed out of a tag's attribute region: name, raw value,
/// and the position after it. `None` when only whitespace remains. Opaque:
/// reasoning about it goes through its own parser's contract.
#[verifier::opaque]
pub open spec fn spec_next_attr(region: Seq<u8>, p: int) -> Result<
    Option<(Seq<u8>, Seq<u8>, int)>,
    (),
> {
    let q = spec_skip_ws(region, p);
    if q >= region.len() {
        Ok(None)
    } else {
        match spec_find_attr_stop(region, q) {
            None => Err(()),
            Some(e1) => {
                if e1 == q {
                    Err(())
                } else {
                    let a = spec_skip_ws(region, e1);
                    if a >= region.len() || region[a] != B_EQ {
                        Err(())
                    } else {
                        let b = spec_skip_ws(region, a + 1);
                        if b >= region.len() || (region[b] != B_QUOT && region[b] != B_APOS) {
                            Err(())
                        } else {
                            match spec_find(region, b + 1, region[b]) {
                                None => Err(()),
                                Some(c) => Ok(
                                    Some(
                                        (
                                            region.subrange(q, e1),
                                            region.subrange(b + 1, c),
                                            c + 1,
                                        ),
                                    ),
                                ),
                            }
                        }
                    }
                }
            },
        }
    }
}

/// A parsed attribute always moves the position forward and stays inside
/// the region.
pub proof fn lemma_next_attr_progress(region: Seq<u8>, p: int)
    requires
        0 <= p <= region.len(),
    ensures
        match spec_next_attr(region, p) {
            Ok(Some(t)) => p < t.2 <= region.len(),
            _ => true,
        },
{
    reveal(spec_next_attr);
    lemma_skip_ws_char(region, p);
    let q = spec_skip_ws(region, p);
    if q < region.len() {
        lemma_find_attr_stop_char(region, q);
        match spec_find_attr_stop(region, q) {
            Some(e1) => {
                lemma_skip_ws_char(region, e1);
                let a = spec_skip_ws(region, e1);
                if a < region.len() && region[a] == B_EQ {
                    lemma_skip_ws_char(region, a + 1);
                    let b = spec_skip_ws(region, a + 1);
                    if b < region.len() && (region[b] == B_QUOT || region[b] == B_APOS) {
                        lemma_find_char(region, b + 1, region[b]);
                    }
                }
            },
            None => {},
        }
    }
}

/// Parse one attribute from a tag's attribute region.
pub fn next_attr(region: &Vec<u8>, p: usize) -> (r: Result<Option<(Vec<u8>, Vec<u8>, usize)>, ()>)
    requires
        p <= region@.len(),
    ensures
        match r {
            Ok(Some(t)) => spec_next_attr(region@, p as int) == Ok::<
                Option<(Seq<u8>, Seq<u8>, int)>,
                (),
            >(Some((t.0@, t.1@, t.2 as int))) && p < t.2 <= region@.len(),
            Ok(None) => spec_next_attr(region@, p as int) == Ok::<
                Option<(Seq<u8>, Seq<u8>, int)>,
                (),
            >(None),
            Err(_) => spec_next_attr(region@, p as int) is Err,
        },
{
    proof {
        reveal(spec_next_attr);
        lemma_next_attr_progress(region@, p as int);
    }
    let q = skip_ws(region, p);
    if q >= region.len() {
        return Ok(None);
    }
    let e1 = match find_attr_stop(region, q) {
        Some(e1) => e1,
        None => return Err(()),
    };
    if e1 == q {
        return Err(());
    }
    let a = skip_ws(region, e1);
    if a >= region.len() || region[a] != B_EQ {
        return Err(());
    }
    let b = skip_ws(region, a + 1);
    if b >= region.len() {
        return Err(());
    }
    let quote = region[b];
    if quote != B_QUOT && quote != B_APOS {
        return Err(());
    }
    let c = match find_byte(region, b + 1, quote) {
        Some(c) => c,
        None => return Err(()),
    };
    let name = copy_range(region, q, e1);
    let value = copy_range(region, b + 1, c);
    Ok(Some((name, value, c + 1)))
}

/// Walk the document tag's attribute region: `version` and `gjver` set the
/// two version strings (last occurrence wins, values unescaped), any other
/// attribute name is an error, a malformed attribute is an error.
pub open spec fn spec_plist_attrs(
    region: Seq<u8>,
    p: int,
    pv: Option<Seq<u8>>,
    gv: Option<Seq<u8>>,
) -> Result<(Option<Seq<u8>>, Option<Seq<u8>>), DeError>
    decreases region.len() - p,
{
    match spec_next_attr(region, p) {
        Err(_) => Err(DeError::XmlAttrParse),
        Ok(None) => Ok((pv, gv)),
        Ok(Some(t)) => {
            if p < t.2 <= region.len() {
                if t.0 == version_name() {
                    match spec_unescape(t.1) {
                        Ok(v) => spec_plist_attrs(region, t.2, Some(v), gv),
                        Err(_) => Err(DeError::XmlParse),
                    }
                } else if t.0 == gjver_name() {
                    match spec_unescape(t.1) {
                        Ok(v) => spec_plist_attrs(region, t.2, pv, Some(v)),
                        Err(_) => Err(DeError::XmlParse),
                    }
                } else {
                    Err(DeError::UnexpectedXmlAttr)
                }
            } else {
                Err(DeError::XmlAttrParse)
            }
        },
    }
}

/// Parse the document tag's attribute region.
pub fn plist_attrs(region: &Vec<u8>) -> (r: Result<(Option<Vec<u8>>, Option<Vec<u8>>), DeError>)
    ensures
        match r {
            Ok(t) => spec_plist_attrs(region@, 0, None, None) == Ok::<
                (Option<Seq<u8>>, Option<Seq<u8>>),
                DeError,
            >(
                (
                    match t.0 {
                        Some(v) => Some(v@),
                        None => None,
                    },
                    match t.1 {
                        Some(v) => Some(v@),
                        None => None,
                    },
                ),
            ),
            Err(e) => spec_plist_attrs(region@, 0, None, None) == Err::<
                (Option<Seq<u8>>, Option<Seq<u8>>),
                DeError,
            >(e),
        },
{
    let mut pv: Option<Vec<u8>> = None;
    let mut gv: Option<Vec<u8>> = None;
    let mut p: usize = 0;
    loop
        invariant
            p <= region@.len(),
            spec_plist_attrs(region@, 0, None, None) == spec_plist_attrs(
                region@,
                p as int,
                match pv {
                    Some(v) => Some(v@),
                    None => None,
                },
                match gv {
                    Some(v) => Some(v@),
                    None => None,
                },
            ),
        decreases region@.len() - p,
    {
        match next_attr(region, p) {
            Err(_) => {
                return Err(DeError::XmlAttrParse);
            },
            Ok(None) => {
                return Ok((pv, gv));
            },
            Ok(Some(t)) => {
                let (name, rawval, p2) = t;
                if bytes_eq(name.as_slice(), &[118, 101, 114, 115, 105, 111, 110]) {
                    match unescape(rawval.as_slice()) {
                        Ok(v) => {
                            pv = Some(v);
                        },
                        Err(_) => {
                            return Err(DeError::XmlParse);
                        },
                    }
                } else if bytes_eq(name.as_slice(), &[103, 106, 118, 101, 114]) {
                    match unescape(rawval.as_slice()) {
                        Ok(v) => {
                            gv = Some(v);
                        },
                        Err(_) => {
                            return Err(DeError::XmlParse);
                        },
                    }
                } else {
                    return Err(DeError::UnexpectedXmlAttr);
                }
                p = p2;
            },
        }
    }
}

/// The closed tag set of the dialect.
pub enum TagKind {
    Plist,
    Dict,
    K,
    S,
    I,
    R,
    T,
    Unknown,
}

pub open spec fn spec_tag_kind(n: Seq<u8>) -> TagKind {
    if n == seq![112u8, 108u8, 105u8, 115u8, 116u8] {
        TagKind::Plist
    } else if n == seq![100u8] || n == seq![100u8, 105u8, 99u8, 116u8] {
        TagKind::Dict
    } else if n == seq![107u8] {
        TagKind::K
    } else if n == seq![115u8] {
        TagKind::S
    } else if n == seq![105u8] {
        TagKind::I
    } else if n == seq![114u8] {
        TagKind::R
    } else if n == seq![116u8] {
        TagKind::T
    } else {
        TagKind::Unknown
    }
}

/// Classify a tag name.
pub fn tag_kind(n: &Vec<u8>) -> (k: TagKind)
    ensures
        k == spec_tag_kind(n@),
{
    if n.len() == 1 {
        let b = n[0];
        proof {
            assert(n@ =~= seq![n@[0]]);
        }
        if b == 100 {
            TagKind::Dict
        } else if b == 107 {
            TagKind::K
        } else if b == 115 {
            TagKind::S
        } else if b == 105 {
            TagKind::I
        } else if b == 114 {
            TagKind::R
        } else if b == 116 {
            TagKind::T
        } else {
            TagKind::Unknown
        }
    } else if n.len() == 5 && n[0] == 112 && n[1] == 108 && n[2] == 105 && n[3] == 115 && n[4]
        == 116 {
        proof {
            assert(n@ =~= seq![112u8, 108u8, 105u8, 115u8, 116u8]);
        }
        TagKind::Plist
    } else if n.len() == 4 && n[0] == 100 && n[1] == 105 && n[2] == 99 && n[3] == 116 {
        proof {
            assert(n@ =~= seq![100u8, 105u8, 99u8, 116u8]);
        }
        TagKind::Dict
    } else {
        TagKind::Unknown
    }
}

/// An open tag awaiting its closing tag, by name: the two dictionary
/// spellings are distinct, since a closing tag must match its opener's
/// name exactly.
#[derive(Debug, Clone, Copy, PartialEq, Eq, Structural)]
pub enum OpenTag {
    Plist,
    DictShort,
    DictLong,
    K,
    S,
    I,
    R,
    T,
}

/// The open-tag identity of a tag name, `None` outside the closed tag set.
pub open spec fn spec_tag_name(n: Seq<u8>) -> Option<OpenTag> {
    if n == seq![112u8, 108u8, 105u8, 115u8, 116u8] {
        Some(OpenTag::Plist)
    } else if n == seq![100u8] {
        Some(OpenTag::DictShort)
    } else if n == seq![100u8, 105u8, 99u8, 116u8] {
        Some(OpenTag::DictLong)
    } else if n == seq![107u8] {
        Some(OpenTag::K)
    } else if n == seq![115u8] {
        Some(OpenTag::S)
    } else if n == seq![105u8] {
        Some(OpenTag::I)
    } else if n == seq![114u8] {
        Some(OpenTag::R)
    } else if n == seq![116u8] {
        Some(OpenTag::T)
    } else {
        None
    }
}

/// Whether an open tag is a dictionary opener.
pub open spec fn is_dict_tag(t: OpenTag) -> bool {
    t == OpenTag::DictShort || t == OpenTag::DictLong
}

/// How many dictionaries stand open in a tag stack.
pub open spec fn dict_depth(stack: Seq<OpenTag>) -> int
    decreases stack.len(),
{
    if stack.len() == 0 {
        0
    } else {
        dict_depth(stack.drop_last()) + if is_dict_tag(stack.last()) {
            1int
        } else {
            0int
        }
    }
}

/// A popped non-dictionary entry leaves the open-dictionary count alone; a
/// popped dictionary entry lowers it by one, and it was positive.
pub proof fn lemma_dict_depth_pop(stack: Seq<OpenTag>)
    requires
        stack.len() > 0,
    ensures
        is_dict_tag(stack.last()) ==> dict_depth(stack) == dict_depth(stack.drop_last()) + 1,
        !is_dict_tag(stack.last()) ==> dict_depth(stack) == dict_depth(stack.drop_last()),
        dict_depth(stack) >= dict_depth(stack.drop_last()),
{
}

/// The open-dictionary count is never negative.
pub proof fn lemma_dict_depth_nonneg(stack: Seq<OpenTag>)
    ensures
        dict_depth(stack) >= 0,
    decreases stack.len(),
{
    if stack.len() > 0 {
        lemma_dict_depth_nonneg(stack.drop_last());
    }
}

/// A pushed entry raises the open-dictionary count exactly when it is a
/// dictionary opener.
pub proof fn lemma_dict_depth_push(stack: Seq<OpenTag>, t: OpenTag)
    ensures
        dict_depth(stack.push(t)) == dict_depth(stack) + if is_dict_tag(t) {
            1int
        } else {
            0int
        },
{
    assert(stack.push(t).drop_last() =~= stack);
    assert(stack.push(t).last() == t);
}

/// Classify a tag name into the open-tag set.
pub fn tag_name(n: &Vec<u8>) -> (k: Option<OpenTag>)
    ensures
        k == spec_tag_name(n@),
{
    if n.len() == 1 {
        let b = n[0];
        proof {
            assert(n@ =~= seq![n@[0]]);
        }
        if b == 100 {
            Some(OpenTag::DictShort)
        } else if b == 107 {
            Some(OpenTag::K)
        } else if b == 115 {
            Some(OpenTag::S)
        } else if b == 105 {
            Some(OpenTag::I)
        } else if b == 114 {
            Some(OpenTag::R)
        } else if b == 116 {
            Some(OpenTag::T)
        } else {
            None
        }
    } else if n.len() == 5 && n[0] == 112 && n[1] == 108 && n[2] == 105 && n[3] == 115 && n[4]
        == 116 {
        proof {
            assert(n@ =~= seq![112u8, 108u8, 105u8, 115u8, 116u8]);
        }
        Some(OpenTag::Plist)
    } else if n.len() == 4 && n[0] == 100 && n[1] == 105 && n[2] == 99 && n[3] == 116 {
        proof {
            assert(n@ =~= seq![100u8, 105u8, 99u8, 116u8]);
        }
        Some(OpenTag::DictLong)
    } else {
        None
    }
}

/// Copy a tag stack.
pub fn clone_stack(v: &Vec<OpenTag>) -> (r: Vec<OpenTag>)
    ensures
        r@ == v@,
{
    let mut out: Vec<OpenTag> = Vec::new();
    let mut i: usize = 0;
    while i < v.len()
        invariant
            i <= v@.len(),
            out@ =~= v@.take(i as int),
        decreases v@.len() - i,
    {
        let ghost pre = out@;
        out.push(v[i]);
        proof {
            assert(v@.take(i + 1) =~= pre.push(v@[i as int]));
        }
        i += 1;
    }
    proof {
        assert(v@.take(v@.len() as int) =~= v@);
    }
    out
}

/// What folding one raw event does: emit a token, emit a dict start with
/// a pending synthetic dict end, keep scanning in a new expect mode, or
/// fail. Each step carries the open-tag stack it leaves behind.
pub enum Step {
    Emit(DeEvent, Vec<OpenTag>),
    EmitEmptyDict(Vec<OpenTag>),
    Skip(Expect, Vec<OpenTag>),
    Fail(DeError),
}

/// The ghost shape of a fold step.
pub enum SpecStep {
    Emit(SpecToken, Seq<OpenTag>),
    EmitEmptyDict(Seq<OpenTag>),
    Skip(Expect, Seq<OpenTag>),
    Fail(DeError),
}

impl View for Step {
    type V = SpecStep;

    open spec fn view(&self) -> SpecStep {
        match self {
            Step::Emit(t, stk) => SpecStep::Emit(t@, stk@),
            Step::EmitEmptyDict(stk) => SpecStep::EmitEmptyDict(stk@),
            Step::Skip(e, stk) => SpecStep::Skip(*e, stk@),
            Step::Fail(e) => SpecStep::Fail(*e),
        }
    }
}

/// Fold one raw event under the current expect mode and open-tag stack:
/// the version declaration yields the version token; the document tag
/// yields the document start after its attributes check out; `d`/`dict`
/// tags open and close dictionaries, a self-closing one arming a synthetic
/// close; the scalar tags arm an expect mode whose following text yields
/// the scalar token; boolean tags yield the boolean token. Every paired
/// start tag is pushed, and a closing tag must match the innermost open
/// tag exactly — a closer with no matching opener is unexpected nesting,
/// so a dict-end token is never produced without an unmatched dict-start.
pub open spec fn spec_token_step(exp: Expect, ev: SpecRaw, stack: Seq<OpenTag>) -> SpecStep {
    match ev {
        SpecRaw::Decl(region) => match spec_decl_version(region) {
            Ok(v) => SpecStep::Emit(SpecToken::XmlVersion(v), stack),
            Err(e) => SpecStep::Fail(e),
        },
        SpecRaw::StartTag(name, region) => if !(exp is Idle) {
            SpecStep::Fail(DeError::UnexpectedXmlTag)
        } else {
            match spec_tag_name(name) {
                Some(OpenTag::Plist) => match spec_plist_attrs(region, 0, None, None) {
                    Err(e) => SpecStep::Fail(e),
                    Ok(t) => match (t.0, t.1) {
                        (Some(pv), Some(gv)) => SpecStep::Emit(
                            SpecToken::PlistStart { plist_version: pv, gj_version: gv },
                            stack.push(OpenTag::Plist),
                        ),
                        _ => SpecStep::Fail(DeError::ExpectedPlistVersion),
                    },
                },
                Some(OpenTag::DictShort) => SpecStep::Emit(
                    SpecToken::DictStart,
                    stack.push(OpenTag::DictShort),
                ),
                Some(OpenTag::DictLong) => SpecStep::Emit(
                    SpecToken::DictStart,
                    stack.push(OpenTag::DictLong),
                ),
                Some(OpenTag::K) => SpecStep::Skip(Expect::Key, stack.push(OpenTag::K)),
                Some(OpenTag::S) => SpecStep::Skip(Expect::Str, stack.push(OpenTag::S)),
                Some(OpenTag::I) => SpecStep::Skip(Expect::Int, stack.push(OpenTag::I)),
                Some(OpenTag::R) => SpecStep::Skip(Expect::Real, stack.push(OpenTag::R)),
                Some(OpenTag::T) => SpecStep::Emit(SpecToken::True, stack.push(OpenTag::T)),
                None => SpecStep::Fail(DeError::UnknownXmlTag),
            }
        },
        SpecRaw::EndTag(name) => if !(exp is Idle) {
            SpecStep::Fail(DeError::UnexpectedXmlTag)
        } else {
            match spec_tag_name(name) {
                None => SpecStep::Fail(DeError::UnknownXmlTag),
                Some(t) => if stack.len() == 0 || stack.last() != t {
                    SpecStep::Fail(DeError::UnexpectedXmlNesting)
                } else if is_dict_tag(t) {
                    SpecStep::Emit(SpecToken::DictEnd, stack.drop_last())
                } else {
                    SpecStep::Skip(Expect::Idle, stack.drop_last())
                },
            }
        },
        SpecRaw::EmptyTag(name, _) => if !(exp is Idle) {
            SpecStep::Fail(DeError::UnexpectedXmlTag)
        } else {
            match spec_tag_name(name) {
                Some(OpenTag::DictShort) => SpecStep::EmitEmptyDict(stack),
                Some(OpenTag::DictLong) => SpecStep::EmitEmptyDict(stack),
                Some(OpenTag::T) => SpecStep::Emit(SpecToken::True, stack),
                _ => SpecStep::Fail(DeError::UnknownXmlTag),
            }
        },
        SpecRaw::Text(raw) => match exp {
            Expect::Idle => SpecStep::Fail(DeError::UnexpectedXmlText),
            Expect::Key => match spec_unescape(raw) {
                Ok(t) => SpecStep::Emit(SpecToken::Key(t), stack),
                Err(_) => SpecStep::Fail(DeError::XmlParse),
            },
            Expect::Str => match spec_unescape(raw) {
                Ok(t) => SpecStep::Emit(SpecToken::Str(t), stack),
                Err(_) => SpecStep::Fail(DeError::XmlParse),
            },
            Expect::Int => match spec_unescape(raw) {
                Ok(t) => SpecStep::Emit(SpecToken::Integer(t), stack),
                Err(_) => SpecStep::Fail(DeError::XmlParse),
            },
            Expect::Real => match spec_unescape(raw) {
                Ok(t) => SpecStep::Emit(SpecToken::Real(t), stack),
                Err(_) => SpecStep::Fail(DeError::XmlParse),
            },
        },
        SpecRaw::Other => SpecStep::Fail(DeError::UnexpectedOtherXml),
        SpecRaw::End => SpecStep::Emit(SpecToken::Eof, stack),
    }
}

/// Fold one raw event.
pub fn token_step(exp: Expect, ev: RawEvent, stack: Vec<OpenTag>) -> (st: Step)
    ensures
        st@ == spec_token_step(exp, ev@, stack@),
{
    let idle = match exp {
        Expect::Idle => true,
        _ => false,
    };
    let mut stk = stack;
    match ev {
        RawEvent::Decl(region) => match decl_version(&region) {
            Ok(v) => Step::Emit(DeEvent::XmlVersion(v), stk),
            Err(e) => Step::Fail(e),
        },
        RawEvent::StartTag(name, region) => if !idle {
            Step::Fail(DeError::UnexpectedXmlTag)
        } else {
            match tag_name(&name) {
                Some(OpenTag::Plist) => match plist_attrs(&region) {
                    Err(e) => Step::Fail(e),
                    Ok(t) => match t {
                        (Some(pv), Some(gv)) => {
                            stk.push(OpenTag::Plist);
                            Step::Emit(
                                DeEvent::PlistStart { plist_version: pv, gj_version: gv },
                                stk,
                            )
                        },
                        _ => Step::Fail(DeError::ExpectedPlistVersion),
                    },
                },
                Some(OpenTag::DictShort) => {
                    stk.push(OpenTag::DictShort);
                    Step::Emit(DeEvent::DictStart, stk)
                },
                Some(OpenTag::DictLong) => {
                    stk.push(OpenTag::DictLong);
                    Step::Emit(DeEvent::DictStart, stk)
                },
                Some(OpenTag::K) => {
                    stk.push(OpenTag::K);
                    Step::Skip(Expect::Key, stk)
                },
                Some(OpenTag::S) => {
                    stk.push(OpenTag::S);
                    Step::Skip(Expect::Str, stk)
                },
                Some(OpenTag::I) => {
                    stk.push(OpenTag::I);
                    Step::Skip(Expect::Int, stk)
                },
                Some(OpenTag::R) => {
                    stk.push(OpenTag::R);
                    Step::Skip(Expect::Real, stk)
                },
                Some(OpenTag::T) => {
                    stk.push(OpenTag::T);
                    Step::Emit(DeEvent::True, stk)
                },
                None => Step::Fail(DeError::UnknownXmlTag),
            }
        },
        RawEvent::EndTag(name) => if !idle {
            Step::Fail(DeError::UnexpectedXmlTag)
        } else {
            match tag_name(&name) {
                None => Step::Fail(DeError::UnknownXmlTag),
                Some(t) => {
                    let top = stk.pop();
                    match top {
                        None => Step::Fail(DeError::UnexpectedXmlNesting),
                        Some(opener) => if opener != t {
                            Step::Fail(DeError::UnexpectedXmlNesting)
                        } else {
                            match t {
                                OpenTag::DictShort => Step::Emit(DeEvent::DictEnd, stk),
                                OpenTag::DictLong => Step::Emit(DeEvent::DictEnd, stk),
                                _ => Step::Skip(Expect::Idle, stk),
                            }
                        },
                    }
                },
            }
        },
        RawEvent::EmptyTag(name, _) => if !idle {
            Step::Fail(DeError::UnexpectedXmlTag)
        } else {
            match tag_name(&name) {
                Some(OpenTag::DictShort) => Step::EmitEmptyDict(stk),
                Some(OpenTag::DictLong) => Step::EmitEmptyDict(stk),
                Some(OpenTag::T) => Step::Emit(DeEvent::True, stk),
                _ => Step::Fail(DeError::UnknownXmlTag),
            }
        },
        RawEvent::Text(raw) => match exp {
            Expect::Idle => Step::Fail(DeError::UnexpectedXmlText),
            Expect::Key => match unescape(raw.as_slice()) {
                Ok(t) => Step::Emit(DeEvent::Key(t), stk),
                Err(_) => Step::Fail(DeError::XmlParse),
            },
            Expect::Str => match unescape(raw.as_slice()) {
                Ok(t) => Step::Emit(DeEvent::Str(t), stk),
                Err(_) => Step::Fail(DeError::XmlParse),
            },
            Expect::Int => match unescape(raw.as_slice()) {
                Ok(t) => Step::Emit(DeEvent::Integer(t), stk),
                Err(_) => Step::Fail(DeError::XmlParse),
            },
            Expect::Real => match unescape(raw.as_slice()) {
                Ok(t) => Step::Emit(DeEvent::Real(t), stk),
                Err(_) => Step::Fail(DeError::XmlParse),
            },
        },
        RawEvent::Other => Step::Fail(DeError::UnexpectedOtherXml),
        RawEvent::End => Step::Emit(DeEvent::Eof, stk),
    }
}

/// The next token scanned from `pos` in mode `exp` over the open-tag stack:
/// raw events are folded until one emits a token or fails; the result
/// carries the token, the position after it, whether a synthetic dict end
/// is pending, and the stack left behind.
pub open spec fn spec_next_token_from(s: Seq<u8>, pos: int, exp: Expect, stack: Seq<OpenTag>) -> Result<
    (SpecToken, int, bool, Seq<OpenTag>),
    DeError,
>
    decreases s.len() - pos,
{
    match spec_next_raw(s, pos) {
        Err(e) => Err(e),
        Ok(r) => match spec_token_step(exp, r.0, stack) {
            SpecStep::Emit(t, stk) => Ok((t, r.1, false, stk)),
            SpecStep::EmitEmptyDict(stk) => Ok((SpecToken::DictStart, r.1, true, stk)),
            SpecStep::Skip(e2, stk) => if pos < r.1 && r.1 <= s.len() {
                spec_next_token_from(s, r.1, e2, stk)
            } else {
                Err(DeError::XmlParse)
            },
            SpecStep::Fail(e) => Err(e),
        },
    }
}

/// The next token scanned from `pos`, starting idle.
pub open spec fn spec_next_token(s: Seq<u8>, pos: int, stack: Seq<OpenTag>) -> Result<
    (SpecToken, int, bool, Seq<OpenTag>),
    DeError,
> {
    spec_next_token_from(s, pos, Expect::Idle, stack)
}

/// A token other than end-of-input consumes input; end-of-input is reached
/// exactly at the end of the stream; a pending synthetic dict end means a
/// self-closing tag of at least three bytes was consumed. A dict-end token
/// pops exactly one open dictionary (so one stood open), a dict-start
/// pushes or arms exactly one, and every other token leaves the number of
/// open dictionaries alone.
pub proof fn lemma_next_token_progress(s: Seq<u8>, pos: int, exp: Expect, stack: Seq<OpenTag>)
    requires
        0 <= pos <= s.len(),
    ensures
        match spec_next_token_from(s, pos, exp, stack) {
            Ok(r) => {
                &&& pos <= r.1 <= s.len()
                &&& (!(r.0 is Eof) ==> r.1 > pos)
                &&& (r.0 is Eof ==> r.1 == s.len())
                &&& (r.2 ==> r.1 >= pos + 3)
                &&& (r.2 ==> r.0 is DictStart)
                &&& (r.0 is DictEnd ==> dict_depth(stack) > 0 && dict_depth(r.3) == dict_depth(
                    stack,
                ) - 1)
                &&& (r.0 is DictStart && !r.2 ==> dict_depth(r.3) == dict_depth(stack) + 1)
                &&& (r.0 is DictStart && r.2 ==> dict_depth(r.3) == dict_depth(stack))
                &&& (!(r.0 is DictEnd) && !(r.0 is DictStart) ==> dict_depth(r.3) == dict_depth(
                    stack,
                ))
            },
            Err(_) => true,
        },
    decreases s.len() - pos,
{
    lemma_next_raw_progress(s, pos);
    match spec_next_raw(s, pos) {
        Ok(r) => {
            match spec_token_step(exp, r.0, stack) {
                SpecStep::Emit(t, stk) => {
                    lemma_step_depth(exp, r.0, stack);
                },
                SpecStep::EmitEmptyDict(stk) => {},
                SpecStep::Skip(e2, stk) => {
                    lemma_step_depth(exp, r.0, stack);
                    if pos < r.1 && r.1 <= s.len() {
                        lemma_next_token_progress(s, r.1, e2, stk);
                    }
                },
                SpecStep::Fail(_) => {},
            }
        },
        Err(_) => {},
    }
}

/// How one fold step moves the open-dictionary count: a dict-end pop
/// lowers it by one from a positive count, a dict-start push raises it by
/// one, and every other step leaves it alone.
proof fn lemma_step_depth(exp: Expect, ev: SpecRaw, stack: Seq<OpenTag>)
    ensures
        match spec_token_step(exp, ev, stack) {
            SpecStep::Emit(t, stk) => {
                &&& (t is DictEnd ==> dict_depth(stack) > 0 && dict_depth(stk) == dict_depth(
                    stack,
                ) - 1)
                &&& (t is DictStart ==> dict_depth(stk) == dict_depth(stack) + 1)
                &&& (!(t is DictEnd) && !(t is DictStart) ==> dict_depth(stk) == dict_depth(
                    stack,
                ))
            },
            SpecStep::EmitEmptyDict(stk) => dict_depth(stk) == dict_depth(stack),
            SpecStep::Skip(_, stk) => dict_depth(stk) == dict_depth(stack),
            SpecStep::Fail(_) => true,
        },
{
    match ev {
        SpecRaw::StartTag(name, _) => {
            if exp is Idle {
                match spec_tag_name(name) {
                    Some(t) => {
                        lemma_dict_depth_push(stack, t);
                    },
                    None => {},
                }
            }
        },
        SpecRaw::EndTag(name) => {
            if exp is Idle {
                match spec_tag_name(name) {
                    Some(t) => {
                        if stack.len() > 0 && stack.last() == t {
                            lemma_dict_depth_pop(stack);
                            lemma_dict_depth_nonneg(stack.drop_last());
                        }
                    },
                    None => {},
                }
            }
        },
        _ => {},
    }
}

/// Scan the next token from `pos`, starting idle, over the open-tag stack.
pub fn next_token(s: &Vec<u8>, pos: usize, stack: &Vec<OpenTag>) -> (r: Result<
    (DeEvent, usize, bool, Vec<OpenTag>),
    DeError,
>)
    requires
        pos <= s@.len(),
    ensures
        match r {
            Ok(t) => spec_next_token(s@, pos as int, stack@) == Ok::<
                (SpecToken, int, bool, Seq<OpenTag>),
                DeError,
            >((t.0@, t.1 as int, t.2, t.3@)) && t.1 <= s@.len(),
            Err(e) => spec_next_token(s@, pos as int, stack@) == Err::<
                (SpecToken, int, bool, Seq<OpenTag>),
                DeError,
            >(e),
        },
{
    let mut exp = Expect::Idle;
    let mut p = pos;
    let mut stk = clone_stack(stack);
    loop
        invariant
            p <= s@.len(),
            spec_next_token_from(s@, pos as int, Expect::Idle, stack@) == spec_next_token_from(
                s@,
                p as int,
                exp,
                stk@,
            ),
        decreases s@.len() - p,
    {
        let (ev, p2) = match next_raw(s, p) {
            Ok(t) => t,
            Err(e) => return Err(e),
        };
        proof {
            lemma_next_raw_progress(s@, p as int);
        }
        match token_step(exp, ev, stk) {
            Step::Emit(t, stk2) => {
                return Ok((t, p2, false, stk2));
            },
            Step::EmitEmptyDict(stk2) => {
                return Ok((DeEvent::DictStart, p2, true, stk2));
            },
            Step::Skip(e2, stk2) => {
                exp = e2;
                p = p2;
                stk = stk2;
            },
            Step::Fail(e) => {
                return Err(e);
            },
        }
    }
}

/// The version text of the markup declaration: its first attribute must be
/// named `version`; its raw value is taken as is.
pub open spec fn spec_decl_version(region: Seq<u8>) -> Result<Seq<u8>, DeError> {
    match spec_next_attr(region, 0) {
        Ok(Some(t)) => if t.0 == version_name() {
            Ok(t.1)
        } else {
            Err(DeError::NoXmlVersionInfo)
        },
        _ => Err(DeError::NoXmlVersionInfo),
    }
}

/// Extract the declared markup version.
pub fn decl_version(region: &Vec<u8>) -> (r: Result<Vec<u8>, DeError>)
    ensures
        match r {
            Ok(v) => spec_decl_version(region@) == Ok::<Seq<u8>, DeError>(v@),
            Err(e) => spec_decl_version(region@) == Err::<Seq<u8>, DeError>(e),
        },
{
    match next_attr(region, 0) {
        Ok(Some(t)) => {
            if bytes_eq(t.0.as_slice(), &[118, 101, 114, 115, 105, 111, 110]) {
                Ok(t.1)
            } else {
                Err(DeError::NoXmlVersionInfo)
            }
        },
        Ok(None) => Err(DeError::NoXmlVersionInfo),
        Err(_) => Err(DeError::NoXmlVersionInfo),
    }
}

} // verus!
