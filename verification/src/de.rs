//! The decoding session: a one-slot lookahead buffer over the token source,
//! the header extractor, and the scalar decoding primitives. A session
//! lives for one document: it owns the decompressed bytes, a cursor, the
//! peeked token, the synthetic-dict-end flag and the end-of-input flag.

use vstd::prelude::*;

use vstd::utf8::valid_utf8;
use vstd::utf8::decode_utf8;

use crate::error::DeError;
use crate::num::spec_parse_i64;
use crate::num::spec_parse_i32;
use crate::num::spec_parse_u64;
use crate::num::spec_parse_u32;
use crate::num::parse_i64;
use crate::num::parse_i32;
use crate::num::parse_u64;
use crate::num::parse_u32;
use crate::raw::copy_range;
use crate::token::DeEvent;
use crate::token::SpecToken;
use crate::token::Expect;
use crate::token::OpenTag;
use crate::token::dict_depth;
use crate::token::lemma_dict_depth_nonneg;
use crate::token::spec_next_token;
use crate::token::lemma_next_token_progress;
use crate::token::next_token;
use crate::transform::spec_transform_decode;
use crate::transform::transform_decode;

verus! {

/// The three version strings captured from the document's opening
/// declarations.
#[derive(Debug)]
pub struct Header {
    pub xml_version: String,
    pub plist_version: String,
    pub gj_version: String,
}

/// The ghost shape of a header.
pub struct SpecHeader {
    pub xml_version: Seq<char>,
    pub plist_version: Seq<char>,
    pub gj_version: Seq<char>,
}

impl View for Header {
    type V = SpecHeader;

    open spec fn view(&self) -> SpecHeader {
        SpecHeader {
            xml_version: self.xml_version@,
            plist_version: self.plist_version@,
            gj_version: self.gj_version@,
        }
    }
}

/// A decoded value paired with the document's header.
#[derive(Debug)]
pub struct DataWithHeader<T> {
    pub t: T,
    pub header: Header,
}

/// The decoding session.
pub struct Deserializer {
    bytes: Vec<u8>,
    pos: usize,
    header: Header,
    peeked: Option<DeEvent>,
    pending_dict_end: bool,
    eof_seen: bool,
    stack: Vec<OpenTag>,
}

/// The ghost state of a session: the decompressed bytes, the scan position,
/// the captured header, the lookahead slot and the two flags.
pub struct DeState {
    pub bytes: Seq<u8>,
    pub pos: int,
    pub header: SpecHeader,
    pub peeked: Option<SpecToken>,
    pub pending: bool,
    pub eof: bool,
    pub stack: Seq<OpenTag>,
}

impl View for Deserializer {
    type V = DeState;

    closed spec fn view(&self) -> DeState {
        DeState {
            bytes: self.bytes@,
            pos: self.pos as int,
            header: self.header@,
            peeked: match self.peeked {
                Some(t) => Some(t@),
                None => None,
            },
            pending: self.pending_dict_end,
            eof: self.eof_seen,
            stack: self.stack@,
        }
    }
}

impl DeState {
    /// Session well-formedness: the cursor stays inside the bytes; once
    /// end-of-input has been observed the cursor is at the end, nothing is
    /// pending, and the lookahead holds at most the end-of-input token.
    pub open spec fn wf(self) -> bool {
        &&& 0 <= self.pos <= self.bytes.len()
        &&& (self.peeked == Some(SpecToken::Eof) ==> self.eof)
        &&& (self.eof ==> {
            &&& (self.peeked is None || self.peeked == Some(SpecToken::Eof))
            &&& self.pos == self.bytes.len()
            &&& !self.pending
        })
    }
}

/// Whether another token may be requested: end-of-input has not been
/// observed, or a token is still buffered. Requesting a token on a session
/// that cannot read is the caller's contract violation, not a data error.
pub open spec fn can_read(st: DeState) -> bool {
    st.peeked is Some || st.pending || !st.eof
}

/// How much input the session can still consume; every consumed token
/// strictly shrinks it.
pub open spec fn measure(st: DeState) -> int {
    4 * (st.bytes.len() - st.pos) + (if st.peeked is Some {
        2int
    } else {
        0int
    }) + (if st.pending {
        3int
    } else {
        0int
    })
}

/// The session after the lookahead slot is filled: an already-buffered
/// token stays; an armed synthetic dict end becomes the buffered token;
/// otherwise the token source is driven.
pub open spec fn spec_fill(st: DeState) -> Result<DeState, DeError> {
    if st.peeked is Some {
        Ok(st)
    } else if st.pending {
        Ok(DeState { peeked: Some(SpecToken::DictEnd), pending: false, ..st })
    } else {
        match spec_next_token(st.bytes, st.pos, st.stack) {
            Ok(r) => Ok(
                DeState {
                    pos: r.1,
                    peeked: Some(r.0),
                    pending: r.2,
                    eof: r.0 is Eof,
                    stack: r.3,
                    ..st
                },
            ),
            Err(e) => Err(e),
        }
    }
}

/// The next token and the session after consuming it.
pub open spec fn spec_pop(st: DeState) -> Result<(SpecToken, DeState), DeError> {
    match spec_fill(st) {
        Ok(st2) => Ok((st2.peeked.unwrap(), DeState { peeked: None, ..st2 })),
        Err(e) => Err(e),
    }
}

/// The next token and the session still holding it.
pub open spec fn spec_peek(st: DeState) -> Result<(SpecToken, DeState), DeError> {
    match spec_fill(st) {
        Ok(st2) => Ok((st2.peeked.unwrap(), st2)),
        Err(e) => Err(e),
    }
}

/// Consuming a token preserves well-formedness, never touches the bytes or
/// the header, and strictly shrinks the measure unless the token was
/// end-of-input; after any other token the session can still read.
pub proof fn lemma_pop_progress(st: DeState)
    requires
        st.wf(),
    ensures
        match spec_pop(st) {
            Ok(r) => {
                &&& r.1.wf()
                &&& r.1.bytes == st.bytes
                &&& r.1.header == st.header
                &&& measure(r.1) <= measure(st)
                &&& (!(r.0 is Eof) ==> measure(r.1) < measure(st) && can_read(r.1) && !r.1.eof)
                &&& (r.0 is Eof ==> r.1.eof)
            },
            Err(_) => true,
        },
{
    lemma_fill_progress(st);
}

/// Filling the lookahead preserves well-formedness, never touches the bytes
/// or the header, and never grows the measure.
pub proof fn lemma_fill_progress(st: DeState)
    requires
        st.wf(),
    ensures
        match spec_fill(st) {
            Ok(st2) => {
                &&& st2.wf()
                &&& st2.peeked is Some
                &&& st2.bytes == st.bytes
                &&& st2.header == st.header
                &&& (st.peeked is Some ==> st2 == st)
                &&& measure(st2) <= measure(st) + 2
                &&& (st2.peeked != Some(SpecToken::Eof) ==> measure(st2) <= measure(st))
                &&& (st.peeked is None && st2.peeked != Some(SpecToken::Eof) && !st.pending
                    ==> measure(st2) < measure(st))
                &&& (st2.eof ==> st2.peeked == Some(SpecToken::Eof))
                &&& (!st2.eof ==> measure(st2) >= 2)
            },
            Err(_) => true,
        },
{
    if st.peeked is Some {
        if st.eof {
        } else {
        }
    } else if st.pending {
    } else {
        lemma_next_token_progress(st.bytes, st.pos, Expect::Idle, st.stack);
    }
}

/// The running balance of dictionary tokens a session will have handed
/// out: the open dictionaries on the tag stack, plus an armed synthetic
/// close, adjusted for the token already scanned into the lookahead slot.
pub open spec fn session_dict_balance(st: DeState) -> int {
    dict_depth(st.stack) + (if st.pending {
        1int
    } else {
        0int
    }) + (if st.peeked == Some(SpecToken::DictEnd) {
        1int
    } else {
        0int
    }) - (if st.peeked == Some(SpecToken::DictStart) {
        1int
    } else {
        0int
    })
}

/// The token source's nesting invariant: a dict-end token is handed out
/// only while the balance of dict-starts already handed out over dict-ends
/// is positive, and it lowers that balance by one; a dict-start raises it
/// by one; every other token leaves it alone. A fresh session starts at
/// balance zero, so across any prefix of a session's tokens the dict-ends
/// never outnumber the dict-starts before them.
pub proof fn lemma_pop_dict_balance(st: DeState)
    requires
        st.wf(),
    ensures
        match spec_pop(st) {
            Ok(r) => {
                &&& (r.0 is DictEnd ==> session_dict_balance(st) > 0 && session_dict_balance(r.1)
                    == session_dict_balance(st) - 1)
                &&& (r.0 is DictStart ==> session_dict_balance(r.1) == session_dict_balance(st)
                    + 1)
                &&& (!(r.0 is DictEnd) && !(r.0 is DictStart) ==> session_dict_balance(r.1)
                    == session_dict_balance(st))
            },
            Err(_) => true,
        },
{
    lemma_dict_depth_nonneg(st.stack);
    if st.peeked is None && !st.pending {
        lemma_next_token_progress(st.bytes, st.pos, Expect::Idle, st.stack);
        match spec_next_token(st.bytes, st.pos, st.stack) {
            Ok(r) => {
                lemma_dict_depth_nonneg(r.3);
            },
            Err(_) => {},
        }
    }
}

/// Relies on std's `String::from_utf8`: it succeeds exactly on valid UTF-8
/// and yields its decoding.
#[verifier::external_body]
fn utf8_string(b: Vec<u8>) -> (r: Result<String, DeError>)
    ensures
        match r {
            Ok(s) => valid_utf8(b@) && s@ == decode_utf8(b@),
            Err(e) => !valid_utf8(b@) && e == DeError::XmlParse,
        },
{
    match String::from_utf8(b) {
        Ok(s) => Ok(s),
        Err(_) => Err(DeError::XmlParse),
    }
}

/// Copy a token payload.
pub fn clone_bytes(v: &Vec<u8>) -> (r: Vec<u8>)
    ensures
        r@ == v@,
{
    let r = copy_range(v, 0, v.len());
    proof {
        assert(v@.subrange(0, v@.len() as int) =~= v@);
    }
    r
}

impl Clone for DeEvent {
    /// Clone a token; the peeked token is cloned rather than shared, which
    /// is observably equivalent.
    fn clone(&self) -> (r: Self)
        ensures
            r@ == self@,
    {
        match self {
            DeEvent::XmlVersion(v) => DeEvent::XmlVersion(clone_bytes(v)),
            DeEvent::PlistStart { plist_version, gj_version } => DeEvent::PlistStart {
                plist_version: clone_bytes(plist_version),
                gj_version: clone_bytes(gj_version),
            },
            DeEvent::DictStart => DeEvent::DictStart,
            DeEvent::DictEnd => DeEvent::DictEnd,
            DeEvent::Key(v) => DeEvent::Key(clone_bytes(v)),
            DeEvent::Str(v) => DeEvent::Str(clone_bytes(v)),
            DeEvent::Integer(v) => DeEvent::Integer(clone_bytes(v)),
            DeEvent::Real(v) => DeEvent::Real(clone_bytes(v)),
            DeEvent::True => DeEvent::True,
            DeEvent::Eof => DeEvent::Eof,
        }
    }
}

/// The session state over freshly decoded bytes: cursor at the start,
/// nothing buffered, header not yet captured.
pub open spec fn spec_init_state(bytes: Seq<u8>) -> DeState {
    DeState {
        bytes: bytes,
        pos: 0,
        header: SpecHeader {
            xml_version: Seq::empty(),
            plist_version: Seq::empty(),
            gj_version: Seq::empty(),
        },
        peeked: None,
        pending: false,
        eof: false,
        stack: Seq::empty(),
    }
}

impl Deserializer {
    /// Open a session over raw save-file bytes: run the transform pipeline,
    /// then stand ready to tokenize the markup.
    pub fn from_bytes(input: &Vec<u8>) -> (r: Result<Deserializer, DeError>)
        ensures
            match r {
                Ok(d) => spec_transform_decode(input@) matches Ok(x) && d@ == spec_init_state(x)
                    && d@.wf() && can_read(d@),
                Err(e) => spec_transform_decode(input@) == Err::<Seq<u8>, DeError>(e),
            },
    {
        let decoded = match transform_decode(input) {
            Ok(v) => v,
            Err(e) => return Err(e),
        };
        Ok(
            Deserializer {
                bytes: decoded,
                pos: 0,
                header: Header {
                    xml_version: String::new(),
                    plist_version: String::new(),
                    gj_version: String::new(),
                },
                peeked: None,
                pending_dict_end: false,
                eof_seen: false,
                stack: Vec::new(),
            },
        )
    }

    /// Fill the lookahead slot from the pending flag or the token source.
    fn fill_peek(&mut self) -> (r: Result<(), DeError>)
        requires
            old(self)@.wf(),
            old(self)@.peeked is None,
            can_read(old(self)@),
        ensures
            match r {
                Ok(_) => spec_fill(old(self)@) == Ok::<DeState, DeError>(final(self)@),
                Err(e) => spec_fill(old(self)@) == Err::<DeState, DeError>(e) && final(self)@ == old(
                    self,
                )@,
            },
    {
        if self.pending_dict_end {
            self.pending_dict_end = false;
            self.peeked = Some(DeEvent::DictEnd);
            return Ok(());
        }
        let (tok, p2, pend, stk) = match next_token(&self.bytes, self.pos, &self.stack) {
            Ok(t) => t,
            Err(e) => return Err(e),
        };
        let is_eof = match tok {
            DeEvent::Eof => true,
            _ => false,
        };
        self.pos = p2;
        self.pending_dict_end = pend;
        self.eof_seen = is_eof;
        self.stack = stk;
        self.peeked = Some(tok);
        Ok(())
    }

    /// Consume and return the next token.
    pub fn next(&mut self) -> (r: Result<DeEvent, DeError>)
        requires
            old(self)@.wf(),
            can_read(old(self)@),
        ensures
            final(self)@.wf(),
            final(self)@.bytes == old(self)@.bytes,
            final(self)@.header == old(self)@.header,
            match r {
                Ok(t) => spec_pop(old(self)@) == Ok::<(SpecToken, DeState), DeError>(
                    (t@, final(self)@),
                ),
                Err(e) => spec_pop(old(self)@) == Err::<(SpecToken, DeState), DeError>(e) && final(self)@ == old(self)@,
            },
    {
        proof {
            lemma_fill_progress(self@);
        }
        if self.peeked.is_none() {
            match self.fill_peek() {
                Ok(_) => {},
                Err(e) => return Err(e),
            }
        }
        let t = self.peeked.take();
        Ok(t.unwrap())
    }

    /// Inspect the next token without consuming it; the returned token is a
    /// clone of the buffered one.
    pub fn peek(&mut self) -> (r: Result<DeEvent, DeError>)
        requires
            old(self)@.wf(),
            can_read(old(self)@),
        ensures
            final(self)@.wf(),
            final(self)@.bytes == old(self)@.bytes,
            final(self)@.header == old(self)@.header,
            match r {
                Ok(t) => spec_peek(old(self)@) == Ok::<(SpecToken, DeState), DeError>(
                    (t@, final(self)@),
                ),
                Err(e) => spec_peek(old(self)@) == Err::<(SpecToken, DeState), DeError>(e) && final(self)@ == old(self)@,
            },
    {
        proof {
            lemma_fill_progress(self@);
        }
        if self.peeked.is_none() {
            match self.fill_peek() {
                Ok(_) => {},
                Err(e) => return Err(e),
            }
        }
        match &self.peeked {
            Some(t) => Ok(t.clone()),
            None => {
                proof {
                    assert(false);
                }
                Err(DeError::Deserialization)
            },
        }
    }
}


/// The session after the header is extracted: the first token must be the
/// version declaration and the second the document start; their version
/// texts (which must be well-formed UTF-8) become the captured header.
pub open spec fn spec_skip_header(st: DeState) -> Result<DeState, DeError> {
    match spec_pop(st) {
        Err(e) => Err(e),
        Ok((t1, st1)) => match t1 {
            SpecToken::XmlVersion(xv) => match spec_pop(st1) {
                Err(e) => Err(e),
                Ok((t2, st2)) => match t2 {
                    SpecToken::PlistStart { plist_version: pv, gj_version: gv } => {
                        if valid_utf8(xv) && valid_utf8(pv) && valid_utf8(gv) {
                            Ok(
                                DeState {
                                    header: SpecHeader {
                                        xml_version: decode_utf8(xv),
                                        plist_version: decode_utf8(pv),
                                        gj_version: decode_utf8(gv),
                                    },
                                    ..st2
                                },
                            )
                        } else {
                            Err(DeError::XmlParse)
                        }
                    },
                    _ => Err(DeError::ExpectedPlistVersion),
                },
            },
            _ => Err(DeError::ExpectedXmlVersion),
        },
    }
}

/// A token that can begin a value.
pub open spec fn value_start(t: SpecToken) -> bool {
    ||| t is DictStart
    ||| t is Str
    ||| t is Integer
    ||| t is Real
    ||| t is True
}

pub open spec fn spec_de_i64(st: DeState) -> Result<(i64, DeState), DeError> {
    match spec_pop(st) {
        Err(e) => Err(e),
        Ok((t, st1)) => match t {
            SpecToken::Str(x) => spec_i64_text(x, st1),
            SpecToken::Key(x) => spec_i64_text(x, st1),
            SpecToken::Integer(x) => spec_i64_text(x, st1),
            SpecToken::Real(x) => spec_i64_text(x, st1),
            SpecToken::True => Ok((1i64, st1)),
            _ => Err(DeError::Deserialization),
        },
    }
}

pub open spec fn spec_i64_text(x: Seq<u8>, st: DeState) -> Result<(i64, DeState), DeError> {
    match spec_parse_i64(x) {
        Some(v) => Ok((v, st)),
        None => Err(DeError::Deserialization),
    }
}

pub open spec fn spec_de_i32(st: DeState) -> Result<(i32, DeState), DeError> {
    match spec_pop(st) {
        Err(e) => Err(e),
        Ok((t, st1)) => match t {
            SpecToken::Str(x) => spec_i32_text(x, st1),
            SpecToken::Key(x) => spec_i32_text(x, st1),
            SpecToken::Integer(x) => spec_i32_text(x, st1),
            SpecToken::Real(x) => spec_i32_text(x, st1),
            SpecToken::True => Ok((1i32, st1)),
            _ => Err(DeError::Deserialization),
        },
    }
}

pub open spec fn spec_i32_text(x: Seq<u8>, st: DeState) -> Result<(i32, DeState), DeError> {
    match spec_parse_i32(x) {
        Some(v) => Ok((v, st)),
        None => Err(DeError::Deserialization),
    }
}

pub open spec fn spec_de_u64(st: DeState) -> Result<(u64, DeState), DeError> {
    match spec_pop(st) {
        Err(e) => Err(e),
        Ok((t, st1)) => match t {
            SpecToken::Str(x) => spec_u64_text(x, st1),
            SpecToken::Key(x) => spec_u64_text(x, st1),
            SpecToken::Integer(x) => spec_u64_text(x, st1),
            SpecToken::Real(x) => spec_u64_text(x, st1),
            SpecToken::True => Ok((1u64, st1)),
            _ => Err(DeError::Deserialization),
        },
    }
}

pub open spec fn spec_u64_text(x: Seq<u8>, st: DeState) -> Result<(u64, DeState), DeError> {
    match spec_parse_u64(x) {
        Some(v) => Ok((v, st)),
        None => Err(DeError::Deserialization),
    }
}

pub open spec fn spec_de_u32(st: DeState) -> Result<(u32, DeState), DeError> {
    match spec_pop(st) {
        Err(e) => Err(e),
        Ok((t, st1)) => match t {
            SpecToken::Str(x) => spec_u32_text(x, st1),
            SpecToken::Key(x) => spec_u32_text(x, st1),
            SpecToken::Integer(x) => spec_u32_text(x, st1),
            SpecToken::Real(x) => spec_u32_text(x, st1),
            SpecToken::True => Ok((1u32, st1)),
            _ => Err(DeError::Deserialization),
        },
    }
}

pub open spec fn spec_u32_text(x: Seq<u8>, st: DeState) -> Result<(u32, DeState), DeError> {
    match spec_parse_u32(x) {
        Some(v) => Ok((v, st)),
        None => Err(DeError::Deserialization),
    }
}

pub open spec fn spec_de_bool(st: DeState) -> Result<(bool, DeState), DeError> {
    match spec_pop(st) {
        Err(e) => Err(e),
        Ok((t, st1)) => match t {
            SpecToken::True => Ok((true, st1)),
            _ => Err(DeError::Deserialization),
        },
    }
}

/// The text form of the boolean token.
pub open spec fn true_bytes() -> Seq<u8> {
    seq![116u8, 114u8, 117u8, 101u8]
}

pub open spec fn spec_de_str(st: DeState) -> Result<(Seq<u8>, DeState), DeError> {
    match spec_pop(st) {
        Err(e) => Err(e),
        Ok((t, st1)) => match t {
            SpecToken::Str(x) => Ok((x, st1)),
            SpecToken::Key(x) => Ok((x, st1)),
            SpecToken::Integer(x) => Ok((x, st1)),
            SpecToken::Real(x) => Ok((x, st1)),
            SpecToken::True => Ok((true_bytes(), st1)),
            _ => Err(DeError::Deserialization),
        },
    }
}

pub open spec fn spec_de_string(st: DeState) -> Result<(Seq<char>, DeState), DeError> {
    match spec_de_str(st) {
        Err(e) => Err(e),
        Ok((b, st1)) => if valid_utf8(b) {
            Ok((decode_utf8(b), st1))
        } else {
            Err(DeError::XmlParse)
        },
    }
}

impl Deserializer {
    /// Extract the header: consume the version declaration and the document
    /// start, capturing the three version strings.
    pub fn skip_header(&mut self) -> (r: Result<(), DeError>)
        requires
            old(self)@.wf(),
            can_read(old(self)@),
        ensures
            final(self)@.wf(),
            final(self)@.bytes == old(self)@.bytes,
            match r {
                Ok(_) => spec_skip_header(old(self)@) == Ok::<DeState, DeError>(final(self)@)
                    && can_read(final(self)@),
                Err(e) => spec_skip_header(old(self)@) == Err::<DeState, DeError>(e)
                    && final(self)@.header == old(self)@.header,
            },
    {
        let ghost st0 = self@;
        proof {
            lemma_pop_progress(st0);
        }
        let t1 = match self.next() {
            Ok(t) => t,
            Err(e) => return Err(e),
        };
        let xv = match t1 {
            DeEvent::XmlVersion(v) => v,
            _ => return Err(DeError::ExpectedXmlVersion),
        };
        proof {
            lemma_pop_progress(self@);
        }
        let t2 = match self.next() {
            Ok(t) => t,
            Err(e) => return Err(e),
        };
        let (pv, gv) = match t2 {
            DeEvent::PlistStart { plist_version, gj_version } => (plist_version, gj_version),
            _ => return Err(DeError::ExpectedPlistVersion),
        };
        let xs = match utf8_string(xv) {
            Ok(s) => s,
            Err(e) => return Err(e),
        };
        let ps = match utf8_string(pv) {
            Ok(s) => s,
            Err(e) => return Err(e),
        };
        let gs = match utf8_string(gv) {
            Ok(s) => s,
            Err(e) => return Err(e),
        };
        self.header = Header { xml_version: xs, plist_version: ps, gj_version: gs };
        Ok(())
    }

    /// Hand the captured header out.
    pub fn into_header(self) -> (r: Header)
        ensures
            r@ == self@.header,
    {
        self.header
    }

    /// Decode a signed 64-bit scalar: textual tokens are parsed under the
    /// integer grammar, the boolean token coerces to one.
    pub fn deserialize_i64(&mut self) -> (r: Result<i64, DeError>)
        requires
            old(self)@.wf(),
            can_read(old(self)@),
        ensures
            final(self)@.wf(),
            final(self)@.bytes == old(self)@.bytes,
            final(self)@.header == old(self)@.header,
            match r {
                Ok(v) => spec_de_i64(old(self)@) == Ok::<(i64, DeState), DeError>(
                    (v, final(self)@),
                ) && can_read(final(self)@) && measure(final(self)@) < measure(old(self)@),
                Err(e) => spec_de_i64(old(self)@) == Err::<(i64, DeState), DeError>(e),
            },
    {
        proof {
            lemma_pop_progress(self@);
        }
        let t = match self.next() {
            Ok(t) => t,
            Err(e) => return Err(e),
        };
        let x = match t {
            DeEvent::Str(x) => x,
            DeEvent::Key(x) => x,
            DeEvent::Integer(x) => x,
            DeEvent::Real(x) => x,
            DeEvent::True => {
                return Ok(1);
            },
            _ => {
                return Err(DeError::Deserialization);
            },
        };
        match parse_i64(x.as_slice()) {
            Some(v) => Ok(v),
            None => Err(DeError::Deserialization),
        }
    }

    /// Decode a signed 32-bit scalar.
    pub fn deserialize_i32(&mut self) -> (r: Result<i32, DeError>)
        requires
            old(self)@.wf(),
            can_read(old(self)@),
        ensures
            final(self)@.wf(),
            final(self)@.bytes == old(self)@.bytes,
            final(self)@.header == old(self)@.header,
            match r {
                Ok(v) => spec_de_i32(old(self)@) == Ok::<(i32, DeState), DeError>(
                    (v, final(self)@),
                ) && can_read(final(self)@) && measure(final(self)@) < measure(old(self)@),
                Err(e) => spec_de_i32(old(self)@) == Err::<(i32, DeState), DeError>(e),
            },
    {
        proof {
            lemma_pop_progress(self@);
        }
        let t = match self.next() {
            Ok(t) => t,
            Err(e) => return Err(e),
        };
        let x = match t {
            DeEvent::Str(x) => x,
            DeEvent::Key(x) => x,
            DeEvent::Integer(x) => x,
            DeEvent::Real(x) => x,
            DeEvent::True => {
                return Ok(1);
            },
            _ => {
                return Err(DeError::Deserialization);
            },
        };
        match parse_i32(x.as_slice()) {
            Some(v) => Ok(v),
            None => Err(DeError::Deserialization),
        }
    }

    /// Decode an unsigned 64-bit scalar.
    pub fn deserialize_u64(&mut self) -> (r: Result<u64, DeError>)
        requires
            old(self)@.wf(),
            can_read(old(self)@),
        ensures
            final(self)@.wf(),
            final(self)@.bytes == old(self)@.bytes,
            final(self)@.header == old(self)@.header,
            match r {
                Ok(v) => spec_de_u64(old(self)@) == Ok::<(u64, DeState), DeError>(
                    (v, final(self)@),
                ) && can_read(final(self)@) && measure(final(self)@) < measure(old(self)@),
                Err(e) => spec_de_u64(old(self)@) == Err::<(u64, DeState), DeError>(e),
            },
    {
        proof {
            lemma_pop_progress(self@);
        }
        let t = match self.next() {
            Ok(t) => t,
            Err(e) => return Err(e),
        };
        let x = match t {
            DeEvent::Str(x) => x,
            DeEvent::Key(x) => x,
            DeEvent::Integer(x) => x,
            DeEvent::Real(x) => x,
            DeEvent::True => {
                return Ok(1);
            },
            _ => {
                return Err(DeError::Deserialization);
            },
        };
        match parse_u64(x.as_slice()) {
            Some(v) => Ok(v),
            None => Err(DeError::Deserialization),
        }
    }

    /// Decode an unsigned 32-bit scalar.
    pub fn deserialize_u32(&mut self) -> (r: Result<u32, DeError>)
        requires
            old(self)@.wf(),
            can_read(old(self)@),
        ensures
            final(self)@.wf(),
            final(self)@.bytes == old(self)@.bytes,
            final(self)@.header == old(self)@.header,
            match r {
                Ok(v) => spec_de_u32(old(self)@) == Ok::<(u32, DeState), DeError>(
                    (v, final(self)@),
                ) && can_read(final(self)@) && measure(final(self)@) < measure(old(self)@),
                Err(e) => spec_de_u32(old(self)@) == Err::<(u32, DeState), DeError>(e),
            },
    {
        proof {
            lemma_pop_progress(self@);
        }
        let t = match self.next() {
            Ok(t) => t,
            Err(e) => return Err(e),
        };
        let x = match t {
            DeEvent::Str(x) => x,
            DeEvent::Key(x) => x,
            DeEvent::Integer(x) => x,
            DeEvent::Real(x) => x,
            DeEvent::True => {
                return Ok(1);
            },
            _ => {
                return Err(DeError::Deserialization);
            },
        };
        match parse_u32(x.as_slice()) {
            Some(v) => Ok(v),
            None => Err(DeError::Deserialization),
        }
    }

    /// Decode a boolean: only the boolean token succeeds; absence of a key,
    /// not a false token, is how the format writes false.
    pub fn deserialize_bool(&mut self) -> (r: Result<bool, DeError>)
        requires
            old(self)@.wf(),
            can_read(old(self)@),
        ensures
            final(self)@.wf(),
            final(self)@.bytes == old(self)@.bytes,
            final(self)@.header == old(self)@.header,
            match r {
                Ok(v) => spec_de_bool(old(self)@) == Ok::<(bool, DeState), DeError>(
                    (v, final(self)@),
                ) && can_read(final(self)@) && measure(final(self)@) < measure(old(self)@),
                Err(e) => spec_de_bool(old(self)@) == Err::<(bool, DeState), DeError>(e),
            },
    {
        proof {
            lemma_pop_progress(self@);
        }
        let t = match self.next() {
            Ok(t) => t,
            Err(e) => return Err(e),
        };
        match t {
            DeEvent::True => Ok(true),
            _ => Err(DeError::Deserialization),
        }
    }

    /// Decode raw text: any textual token yields its bytes verbatim; the
    /// boolean token yields the text `true`.
    pub fn deserialize_str(&mut self) -> (r: Result<Vec<u8>, DeError>)
        requires
            old(self)@.wf(),
            can_read(old(self)@),
        ensures
            final(self)@.wf(),
            final(self)@.bytes == old(self)@.bytes,
            final(self)@.header == old(self)@.header,
            match r {
                Ok(v) => spec_de_str(old(self)@) == Ok::<(Seq<u8>, DeState), DeError>(
                    (v@, final(self)@),
                ) && can_read(final(self)@) && measure(final(self)@) < measure(old(self)@),
                Err(e) => spec_de_str(old(self)@) == Err::<(Seq<u8>, DeState), DeError>(e),
            },
    {
        proof {
            lemma_pop_progress(self@);
        }
        let t = match self.next() {
            Ok(t) => t,
            Err(e) => return Err(e),
        };
        match t {
            DeEvent::Str(x) => Ok(x),
            DeEvent::Key(x) => Ok(x),
            DeEvent::Integer(x) => Ok(x),
            DeEvent::Real(x) => Ok(x),
            DeEvent::True => {
                let mut v: Vec<u8> = Vec::new();
                v.push(116);
                v.push(114);
                v.push(117);
                v.push(101);
                proof {
                    assert(v@ =~= true_bytes());
                }
                Ok(v)
            },
            _ => Err(DeError::Deserialization),
        }
    }

    /// Decode text into an owned string; the bytes must be well-formed
    /// UTF-8.
    pub fn deserialize_string(&mut self) -> (r: Result<String, DeError>)
        requires
            old(self)@.wf(),
            can_read(old(self)@),
        ensures
            final(self)@.wf(),
            final(self)@.bytes == old(self)@.bytes,
            final(self)@.header == old(self)@.header,
            match r {
                Ok(v) => spec_de_string(old(self)@) == Ok::<(Seq<char>, DeState), DeError>(
                    (v@, final(self)@),
                ) && can_read(final(self)@) && measure(final(self)@) < measure(old(self)@),
                Err(e) => spec_de_string(old(self)@) == Err::<(Seq<char>, DeState), DeError>(e),
            },
    {
        let b = match self.deserialize_str() {
            Ok(b) => b,
            Err(e) => return Err(e),
        };
        utf8_string(b)
    }
}


/// The next step of dictionary iteration: the end token (left buffered)
/// ends it; a key token is consumed and handed out; anything else is a
/// mismatch.
pub open spec fn spec_dict_next_key(st: DeState) -> Result<(Option<Seq<u8>>, DeState), DeError> {
    match spec_peek(st) {
        Err(e) => Err(e),
        Ok((t, st1)) => match t {
            SpecToken::DictEnd => Ok((None, st1)),
            SpecToken::Key(_) => match spec_de_str(st1) {
                Ok((k, st2)) => Ok((Some(k), st2)),
                Err(e) => Err(e),
            },
            _ => Err(DeError::Deserialization),
        },
    }
}

/// A value must follow: the buffered token has to be able to begin one.
pub open spec fn spec_dict_value_check(st: DeState) -> Result<DeState, DeError> {
    match spec_peek(st) {
        Err(e) => Err(e),
        Ok((t, st1)) => if value_start(t) {
            Ok(st1)
        } else {
            Err(DeError::Deserialization)
        },
    }
}

/// Drives one key/value pair of a dictionary per step, peeking the closing
/// token rather than consuming it.
pub struct DictReader {}

impl DictReader {
    pub fn new() -> (r: DictReader) {
        DictReader {  }
    }

    /// The next key, or `None` at the dictionary's end (the end token stays
    /// buffered for the structural decoder's own termination pop).
    pub fn next_key(&self, de: &mut Deserializer) -> (r: Result<Option<Vec<u8>>, DeError>)
        requires
            old(de)@.wf(),
            can_read(old(de)@),
        ensures
            final(de)@.wf(),
            final(de)@.bytes == old(de)@.bytes,
            final(de)@.header == old(de)@.header,
            match r {
                Ok(Some(k)) => spec_dict_next_key(old(de)@) == Ok::<
                    (Option<Seq<u8>>, DeState),
                    DeError,
                >((Some(k@), final(de)@)) && can_read(final(de)@) && measure(final(de)@) < measure(
                    old(de)@,
                ),
                Ok(None) => spec_dict_next_key(old(de)@) == Ok::<
                    (Option<Seq<u8>>, DeState),
                    DeError,
                >((None, final(de)@)) && can_read(final(de)@) && measure(final(de)@) <= measure(
                    old(de)@,
                ) && final(de)@.peeked == Some(SpecToken::DictEnd),
                Err(e) => spec_dict_next_key(old(de)@) == Err::<
                    (Option<Seq<u8>>, DeState),
                    DeError,
                >(e),
            },
    {
        proof {
            lemma_fill_progress(old(de)@);
        }
        let t = match de.peek() {
            Ok(t) => t,
            Err(e) => return Err(e),
        };
        match t {
            DeEvent::DictEnd => Ok(None),
            DeEvent::Key(_) => {
                proof {
                    lemma_pop_progress(de@);
                }
                match de.deserialize_str() {
                    Ok(k) => Ok(Some(k)),
                    Err(e) => Err(e),
                }
            },
            _ => Err(DeError::Deserialization),
        }
    }

    /// Require that a value can follow the key just read.
    pub fn next_value_check(&self, de: &mut Deserializer) -> (r: Result<(), DeError>)
        requires
            old(de)@.wf(),
            can_read(old(de)@),
        ensures
            final(de)@.wf(),
            final(de)@.bytes == old(de)@.bytes,
            final(de)@.header == old(de)@.header,
            match r {
                Ok(_) => spec_dict_value_check(old(de)@) == Ok::<DeState, DeError>(final(de)@)
                    && can_read(final(de)@) && measure(final(de)@) <= measure(old(de)@)
                    && final(de)@.peeked is Some && value_start(final(de)@.peeked.unwrap()),
                Err(e) => spec_dict_value_check(old(de)@) == Err::<DeState, DeError>(e),
            },
    {
        proof {
            lemma_fill_progress(old(de)@);
        }
        let t = match de.peek() {
            Ok(t) => t,
            Err(e) => return Err(e),
        };
        match t {
            DeEvent::DictStart => Ok(()),
            DeEvent::Str(_) => Ok(()),
            DeEvent::Integer(_) => Ok(()),
            DeEvent::Real(_) => Ok(()),
            DeEvent::True => Ok(()),
            _ => Err(DeError::Deserialization),
        }
    }
}

/// The key a sequence element at index `i` must carry.
pub open spec fn spec_array_key(i: nat) -> Seq<u8> {
    seq![107u8, 95u8] + crate::num::spec_digits(i)
}

/// One step of sequence iteration: the end token is consumed and ends it;
/// otherwise the next key must be exactly the running index's key, and a
/// value must follow.
pub open spec fn spec_arr_next(st: DeState, idx: nat) -> Result<(bool, DeState), DeError> {
    match spec_pop(st) {
        Err(e) => Err(e),
        Ok((t, st1)) => match t {
            SpecToken::DictEnd => Ok((false, st1)),
            SpecToken::Key(k) => if k == spec_array_key(idx) && idx + 1 <= u64::MAX {
                match spec_peek(st1) {
                    Err(e) => Err(e),
                    Ok((t2, st2)) => if value_start(t2) {
                        Ok((true, st2))
                    } else {
                        Err(DeError::Deserialization)
                    },
                }
            } else {
                Err(DeError::Deserialization)
            },
            _ => Err(DeError::Deserialization),
        },
    }
}

/// Drives a dictionary-encoded sequence: keys must be `k_0`, `k_1`, ... in
/// strictly increasing, gap-free order.
pub struct ArrayReader {
    cur_index: u64,
}

impl ArrayReader {
    pub closed spec fn index(self) -> nat {
        self.cur_index as nat
    }

    pub fn new() -> (r: ArrayReader)
        ensures
            r.index() == 0,
    {
        ArrayReader { cur_index: 0 }
    }

    /// Step to the next element: `true` means the index key matched and a
    /// value follows; `false` means the sequence ended.
    pub fn next_index(&mut self, de: &mut Deserializer) -> (r: Result<bool, DeError>)
        requires
            old(de)@.wf(),
            can_read(old(de)@),
        ensures
            final(de)@.wf(),
            final(de)@.bytes == old(de)@.bytes,
            final(de)@.header == old(de)@.header,
            match r {
                Ok(true) => spec_arr_next(old(de)@, old(self).index()) == Ok::<
                    (bool, DeState),
                    DeError,
                >((true, final(de)@)) && final(self).index() == old(self).index() + 1 && can_read(
                    final(de)@,
                ) && measure(final(de)@) < measure(old(de)@) && final(de)@.peeked is Some
                    && value_start(final(de)@.peeked.unwrap()),
                Ok(false) => spec_arr_next(old(de)@, old(self).index()) == Ok::<
                    (bool, DeState),
                    DeError,
                >((false, final(de)@)) && final(self).index() == old(self).index() && can_read(
                    final(de)@,
                ) && measure(final(de)@) < measure(old(de)@),
                Err(e) => spec_arr_next(old(de)@, old(self).index()) == Err::<
                    (bool, DeState),
                    DeError,
                >(e),
            },
    {
        proof {
            lemma_pop_progress(old(de)@);
        }
        let t = match de.next() {
            Ok(t) => t,
            Err(e) => return Err(e),
        };
        let k = match t {
            DeEvent::DictEnd => {
                return Ok(false);
            },
            DeEvent::Key(k) => k,
            _ => {
                return Err(DeError::Deserialization);
            },
        };
        let mut expected: Vec<u8> = Vec::new();
        expected.push(107);
        expected.push(95);
        let mut digits = crate::num::fmt_u64(self.cur_index);
        expected.append(&mut digits);
        proof {
            assert(expected@ =~= spec_array_key(old(self).index()));
        }
        if !crate::token::bytes_eq(k.as_slice(), expected.as_slice()) {
            return Err(DeError::Deserialization);
        }
        if self.cur_index == u64::MAX {
            return Err(DeError::Deserialization);
        }
        proof {
            lemma_fill_progress(de@);
        }
        let t2 = match de.peek() {
            Ok(t) => t,
            Err(e) => return Err(e),
        };
        let ok = match t2 {
            DeEvent::DictStart => true,
            DeEvent::Str(_) => true,
            DeEvent::Integer(_) => true,
            DeEvent::Real(_) => true,
            DeEvent::True => true,
            _ => false,
        };
        if !ok {
            return Err(DeError::Deserialization);
        }
        self.cur_index = self.cur_index + 1;
        Ok(true)
    }
}

/// The decode-into-shape capability: a destination type interprets the
/// upcoming tokens through the structural decoder's primitives. The
/// functional mirror `sp_decode` pins the decoded value (as its deep view)
/// and the session state after it.
pub trait GdDecode: DeepView + Sized {
    spec fn sp_decode(st: DeState) -> Result<(Self::V, DeState), DeError>;

    fn decode_gd(de: &mut Deserializer) -> (r: Result<Self, DeError>)
        requires
            old(de)@.wf(),
            can_read(old(de)@),
        ensures
            final(de)@.wf(),
            final(de)@.bytes == old(de)@.bytes,
            final(de)@.header == old(de)@.header,
            match r {
                Ok(v) => Self::sp_decode(old(de)@) == Ok::<(Self::V, DeState), DeError>(
                    (v.deep_view(), final(de)@),
                ) && can_read(final(de)@) && measure(final(de)@) < measure(old(de)@),
                Err(e) => Self::sp_decode(old(de)@) == Err::<(Self::V, DeState), DeError>(e),
            },
    ;
}

impl GdDecode for i64 {
    open spec fn sp_decode(st: DeState) -> Result<(i64, DeState), DeError> {
        spec_de_i64(st)
    }

    fn decode_gd(de: &mut Deserializer) -> (r: Result<i64, DeError>) {
        de.deserialize_i64()
    }
}

impl GdDecode for i32 {
    open spec fn sp_decode(st: DeState) -> Result<(i32, DeState), DeError> {
        spec_de_i32(st)
    }

    fn decode_gd(de: &mut Deserializer) -> (r: Result<i32, DeError>) {
        de.deserialize_i32()
    }
}

impl GdDecode for u64 {
    open spec fn sp_decode(st: DeState) -> Result<(u64, DeState), DeError> {
        spec_de_u64(st)
    }

    fn decode_gd(de: &mut Deserializer) -> (r: Result<u64, DeError>) {
        de.deserialize_u64()
    }
}

impl GdDecode for u32 {
    open spec fn sp_decode(st: DeState) -> Result<(u32, DeState), DeError> {
        spec_de_u32(st)
    }

    fn decode_gd(de: &mut Deserializer) -> (r: Result<u32, DeError>) {
        de.deserialize_u32()
    }
}

impl GdDecode for bool {
    open spec fn sp_decode(st: DeState) -> Result<(bool, DeState), DeError> {
        spec_de_bool(st)
    }

    fn decode_gd(de: &mut Deserializer) -> (r: Result<bool, DeError>) {
        de.deserialize_bool()
    }
}

impl GdDecode for String {
    open spec fn sp_decode(st: DeState) -> Result<(Seq<char>, DeState), DeError> {
        spec_de_string(st)
    }

    fn decode_gd(de: &mut Deserializer) -> (r: Result<String, DeError>) {
        de.deserialize_string()
    }
}


/// What decoding a whole document yields for a destination shape: run the
/// transform pipeline, extract the header, decode one value, and require
/// that exactly the end of input follows; anything after the value is a
/// trailing-data error.
pub open spec fn spec_decode_document<T: GdDecode>(input: Seq<u8>) -> Result<
    (T::V, SpecHeader),
    DeError,
> {
    match crate::transform::spec_transform_decode(input) {
        Err(e) => Err(e),
        Ok(x) => match spec_skip_header(spec_init_state(x)) {
            Err(e) => Err(e),
            Ok(st1) => match T::sp_decode(st1) {
                Err(e) => Err(e),
                Ok((v, st2)) => match spec_pop(st2) {
                    Err(e) => Err(e),
                    Ok((t, _)) => if t is Eof {
                        Ok((v, st2.header))
                    } else {
                        Err(DeError::ExpectedEof)
                    },
                },
            },
        },
    }
}

/// Decode one document from raw save-file bytes into a destination shape,
/// handing back the decoded value together with the captured header.
pub fn from_bytes<T: GdDecode>(input: &Vec<u8>) -> (r: Result<DataWithHeader<T>, DeError>)
    ensures
        match r {
            Ok(d) => spec_decode_document::<T>(input@) == Ok::<(T::V, SpecHeader), DeError>(
                (d.t.deep_view(), d.header@),
            ),
            Err(e) => spec_decode_document::<T>(input@) == Err::<(T::V, SpecHeader), DeError>(e),
        },
{
    let mut de = match Deserializer::from_bytes(input) {
        Ok(d) => d,
        Err(e) => return Err(e),
    };
    match de.skip_header() {
        Ok(_) => {},
        Err(e) => return Err(e),
    }
    let t = match T::decode_gd(&mut de) {
        Ok(t) => t,
        Err(e) => return Err(e),
    };
    proof {
        lemma_pop_progress(de@);
    }
    let tok = match de.next() {
        Ok(t) => t,
        Err(e) => return Err(e),
    };
    match tok {
        DeEvent::Eof => Ok(DataWithHeader { t, header: de.into_header() }),
        _ => Err(DeError::ExpectedEof),
    }
}

} // verus!



