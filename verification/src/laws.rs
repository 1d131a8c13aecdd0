//! Round-trip laws: markup emitted by the serializer tokenizes and decodes
//! back to the value it was emitted from, for every representable scalar.
//! Stated over the functional mirrors that the serializer's and the
//! decoder's own contracts use.

use vstd::prelude::*;

use crate::de::DeState;
use crate::de::spec_init_state;
use crate::de::spec_fill;
use crate::de::spec_pop;
use crate::de::spec_peek;
use crate::de::value_start;
use crate::de::spec_array_key;
use crate::de::spec_dict_next_key;
use crate::de::spec_dict_value_check;
use crate::de::spec_arr_next;
use crate::de::measure;
use crate::de::can_read;
use crate::de::spec_de_i64;
use crate::de::spec_de_i32;
use crate::de::spec_de_u64;
use crate::de::spec_de_u32;
use crate::de::spec_de_bool;
use crate::value::SpecValue;
use crate::value::isarr_key;
use crate::value::spec_decode_any;
use crate::value::spec_decode_dict_value;
use crate::value::spec_decode_dict_items;
use crate::value::spec_decode_arr_items;
use crate::de::spec_de_str;
use crate::error::DeError;
use crate::num::spec_fmt_int;
use crate::num::lemma_parse_fmt_int;
use crate::num::lemma_fmt_plain;
use crate::raw::SpecRaw;
use crate::raw::spec_find;
use crate::raw::spec_find_ws;
use crate::raw::spec_next_raw;
use crate::raw::spec_split_tag;
use crate::raw::lemma_find_char;
use crate::raw::lemma_find_ws_char;
use crate::ser::spec_emit_int;
use crate::ser::spec_emit_key;
use crate::ser::spec_emit_isarr;
use crate::ser::spec_emit_value;
use crate::ser::spec_emit_entries;
use crate::ser::spec_emit_items;
use crate::ser::spec_emit_index_key;
use crate::ser::spec_emit_uint;
use crate::ser::spec_emit_bool;
use crate::ser::spec_emit_str;
use crate::ser::spec_emit_real;
use crate::text::spec_escape;
use crate::text::spec_unescape;
use crate::text::lemma_escape_no_lt;
use crate::text::lemma_unescape_escape;
use crate::token::SpecToken;
use crate::token::SpecStep;
use crate::token::spec_token_step;
use crate::token::spec_tag_name;
use crate::token::OpenTag;
use crate::token::Expect;
use crate::token::spec_next_token;
use crate::token::spec_next_token_from;

verus! {

/// The scalar token a text-bearing tag yields.
pub open spec fn scalar_token(c: u8, t: Seq<u8>) -> SpecToken {
    if c == 107 {
        SpecToken::Key(t)
    } else if c == 115 {
        SpecToken::Str(t)
    } else if c == 105 {
        SpecToken::Integer(t)
    } else {
        SpecToken::Real(t)
    }
}

/// Bytes that never hold a tag opener unescape byte for byte, provided no
/// ampersand occurs either.
proof fn lemma_unescape_plain(s: Seq<u8>)
    requires
        forall|i: int| 0 <= i < s.len() ==> s[i] != 38,
    ensures
        spec_unescape(s) == Ok::<Seq<u8>, ()>(s),
    decreases s.len(),
{
    if s.len() == 0 {
        assert(s =~= Seq::<u8>::empty());
    } else {
        assert(s[0] != 38);
        assert forall|i: int| 0 <= i < s.skip(1).len() implies s.skip(1)[i] != 38 by {
            assert(s.skip(1)[i] == s[i + 1]);
        }
        lemma_unescape_plain(s.skip(1));
        assert(seq![s[0]] + s.skip(1) =~= s);
    }
}

/// The open-tag identity of a single-letter tag.
pub open spec fn open_tag_of(c: u8) -> OpenTag {
    if c == 100 {
        OpenTag::DictShort
    } else if c == 107 {
        OpenTag::K
    } else if c == 115 {
        OpenTag::S
    } else if c == 105 {
        OpenTag::I
    } else {
        OpenTag::R
    }
}

/// Resolve the name classification of a single-letter tag.
proof fn lemma_single_name(c: u8)
    requires
        c == 100 || c == 107 || c == 115 || c == 105 || c == 114 || c == 116,
    ensures
        c != 116 ==> spec_tag_name(seq![c]) == Some(open_tag_of(c)),
        c == 116 ==> spec_tag_name(seq![c]) == Some(OpenTag::T),
{
    assert(seq![c].len() == 1);
    assert(seq![112u8, 108u8, 105u8, 115u8, 116u8].len() == 5);
    assert(seq![100u8, 105u8, 99u8, 116u8].len() == 4);
    assert(seq![c] != seq![112u8, 108u8, 105u8, 115u8, 116u8]);
    assert(seq![c] != seq![100u8, 105u8, 99u8, 116u8]);
    assert(seq![c][0] == c);
    if c == 100 {
        assert(seq![c] =~= seq![100u8]);
    } else if c == 107 {
        assert(seq![c] != seq![100u8]);
        assert(seq![c] =~= seq![107u8]);
    } else if c == 115 {
        assert(seq![c] != seq![100u8]);
        assert(seq![c] =~= seq![115u8]);
    } else if c == 105 {
        assert(seq![c] != seq![100u8]);
        assert(seq![c] =~= seq![105u8]);
    } else if c == 114 {
        assert(seq![c] != seq![100u8]);
        assert(seq![c] =~= seq![114u8]);
    } else {
        assert(seq![c] != seq![100u8]);
        assert(seq![c] =~= seq![116u8]);
    }
}

/// Pin the first occurrence found by the scanner.
proof fn lemma_find_pin(s: Seq<u8>, from: int, b: u8, j: int)
    requires
        0 <= from <= j < s.len(),
        s[j] == b,
        forall|k: int| from <= k < j ==> s[k] != b,
    ensures
        spec_find(s, from, b) == Some(j),
{
    lemma_find_char(s, from, b);
    match spec_find(s, from, b) {
        Some(j2) => {
            if j2 < j {
                assert(s[j2] != b);
            }
            if j2 > j {
                assert(s[j] != b);
            }
        },
        None => {
            assert(s[j] != b);
        },
    }
}

/// A scalar tag name never splits: one byte, no whitespace.
proof fn lemma_split_single(c: u8)
    requires
        !(c == 32 || c == 9 || c == 10 || c == 13),
    ensures
        spec_split_tag(seq![c]) == (seq![c], Seq::<u8>::empty()),
{
    lemma_find_ws_char(seq![c], 0);
    match spec_find_ws(seq![c], 0) {
        Some(j) => {
            assert(false);
        },
        None => {},
    }
}

/// The token scanned at an emitted scalar tag pair, at any position: the
/// scalar token of the tag carrying the unescaped body, the scan stopping
/// right after the body, the opener pushed onto the stack.
proof fn lemma_token_scalar_at(s: Seq<u8>, p: int, c: u8, body: Seq<u8>, stack: Seq<OpenTag>)
    requires
        c == 107 || c == 115 || c == 105 || c == 114,
        body.len() > 0,
        forall|i: int| 0 <= i < body.len() ==> body[i] != 60,
        0 <= p,
        p + 3 + body.len() < s.len(),
        s.subrange(p, p + 3) == seq![60u8, c, 62u8],
        s.subrange(p + 3, p + 3 + body.len()) == body,
        s[p + 3 + body.len()] == 60,
    ensures
        spec_next_token(s, p, stack) == match spec_unescape(body) {
            Ok(t) => Ok::<(SpecToken, int, bool, Seq<OpenTag>), DeError>(
                (scalar_token(c, t), p + 3 + body.len() as int, false, stack.push(open_tag_of(c))),
            ),
            Err(_) => Err::<(SpecToken, int, bool, Seq<OpenTag>), DeError>(DeError::XmlParse),
        },
{
    let n = body.len() as int;
    assert(s[p] == s.subrange(p, p + 3)[0]);
    assert(s[p + 1] == s.subrange(p, p + 3)[1]);
    assert(s[p + 2] == s.subrange(p, p + 3)[2]);
    assert forall|k: int| p + 3 <= k < p + 3 + n implies s[k] == body[k - p - 3] by {
        assert(s.subrange(p + 3, p + 3 + n)[k - p - 3] == s[k]);
    }
    lemma_find_pin(s, p + 1, 62, p + 2);
    assert(s.subrange(p + 1, p + 2) =~= seq![c]);
    lemma_split_single(c);
    assert(spec_next_raw(s, p) == Ok::<(SpecRaw, int), DeError>(
        (SpecRaw::StartTag(seq![c], Seq::empty()), p + 3),
    ));
    assert forall|k: int| p + 3 <= k < p + 3 + n implies s[k] != 60 by {
        assert(s[k] == body[k - p - 3]);
    }
    lemma_find_pin(s, p + 3, 60, p + 3 + n);
    assert(s.subrange(p + 3, p + 3 + n) =~= body);
    assert(s[p + 3] == body[0]);
    assert(spec_next_raw(s, p + 3) == Ok::<(SpecRaw, int), DeError>(
        (SpecRaw::Text(body), p + 3 + n),
    ));
    lemma_single_name(c);
    assert(spec_next_token(s, p, stack) == spec_next_token_from(
        s,
        p + 3,
        tag_expect(c),
        stack.push(open_tag_of(c)),
    ));
}

/// A scalar end tag matching the innermost opener is skipped: the scan
/// continues after it with the opener popped.
proof fn lemma_token_skip_end_at(s: Seq<u8>, p: int, c: u8, stack: Seq<OpenTag>)
    requires
        c == 107 || c == 115 || c == 105 || c == 114,
        stack.len() > 0,
        stack.last() == open_tag_of(c),
        0 <= p,
        p + 4 <= s.len(),
        s.subrange(p, p + 4) == seq![60u8, 47u8, c, 62u8],
    ensures
        spec_next_token(s, p, stack) == spec_next_token(s, p + 4, stack.drop_last()),
{
    assert(s[p] == s.subrange(p, p + 4)[0]);
    assert(s[p + 1] == s.subrange(p, p + 4)[1]);
    assert(s[p + 2] == s.subrange(p, p + 4)[2]);
    assert(s[p + 3] == s.subrange(p, p + 4)[3]);
    lemma_find_pin(s, p, 62, p + 3);
    assert(s.subrange(p + 2, p + 3) =~= seq![c]);
    assert(spec_next_raw(s, p) == Ok::<(SpecRaw, int), DeError>(
        (SpecRaw::EndTag(seq![c]), p + 4),
    ));
    lemma_single_name(c);
    assert(spec_token_step(Expect::Idle, SpecRaw::EndTag(seq![c]), stack) == SpecStep::Skip(
        Expect::Idle,
        stack.drop_last(),
    ));
    assert(spec_next_token_from(s, p, Expect::Idle, stack) == spec_next_token_from(
        s,
        p + 4,
        Expect::Idle,
        stack.drop_last(),
    ));
}

/// The dict-open tag scans to the dict-start token, pushing the opener.
proof fn lemma_token_dict_start_at(s: Seq<u8>, p: int, stack: Seq<OpenTag>)
    requires
        0 <= p,
        p + 3 <= s.len(),
        s.subrange(p, p + 3) == seq![60u8, 100u8, 62u8],
    ensures
        spec_next_token(s, p, stack) == Ok::<(SpecToken, int, bool, Seq<OpenTag>), DeError>(
            (SpecToken::DictStart, p + 3, false, stack.push(OpenTag::DictShort)),
        ),
{
    assert(s[p] == s.subrange(p, p + 3)[0]);
    assert(s[p + 1] == s.subrange(p, p + 3)[1]);
    assert(s[p + 2] == s.subrange(p, p + 3)[2]);
    lemma_find_pin(s, p + 1, 62, p + 2);
    assert(s.subrange(p + 1, p + 2) =~= seq![100u8]);
    lemma_split_single(100);
    assert(spec_next_raw(s, p) == Ok::<(SpecRaw, int), DeError>(
        (SpecRaw::StartTag(seq![100u8], Seq::empty()), p + 3),
    ));
    lemma_single_name(100);
}

/// The dict-close tag matching an innermost short dict opener scans to the
/// dict-end token, popping it.
proof fn lemma_token_dict_end_at(s: Seq<u8>, p: int, stack: Seq<OpenTag>)
    requires
        stack.len() > 0,
        stack.last() == OpenTag::DictShort,
        0 <= p,
        p + 4 <= s.len(),
        s.subrange(p, p + 4) == seq![60u8, 47u8, 100u8, 62u8],
    ensures
        spec_next_token(s, p, stack) == Ok::<(SpecToken, int, bool, Seq<OpenTag>), DeError>(
            (SpecToken::DictEnd, p + 4, false, stack.drop_last()),
        ),
{
    assert(s[p] == s.subrange(p, p + 4)[0]);
    assert(s[p + 1] == s.subrange(p, p + 4)[1]);
    assert(s[p + 2] == s.subrange(p, p + 4)[2]);
    assert(s[p + 3] == s.subrange(p, p + 4)[3]);
    lemma_find_pin(s, p, 62, p + 3);
    assert(s.subrange(p + 2, p + 3) =~= seq![100u8]);
    assert(spec_next_raw(s, p) == Ok::<(SpecRaw, int), DeError>(
        (SpecRaw::EndTag(seq![100u8]), p + 4),
    ));
    lemma_single_name(100);
}

/// The self-closing boolean tag scans to the boolean token; the stack is
/// untouched.
proof fn lemma_token_true_at(s: Seq<u8>, p: int, stack: Seq<OpenTag>)
    requires
        0 <= p,
        p + 4 <= s.len(),
        s.subrange(p, p + 4) == seq![60u8, 116u8, 47u8, 62u8],
    ensures
        spec_next_token(s, p, stack) == Ok::<(SpecToken, int, bool, Seq<OpenTag>), DeError>(
            (SpecToken::True, p + 4, false, stack),
        ),
{
    assert(s[p] == s.subrange(p, p + 4)[0]);
    assert(s[p + 1] == s.subrange(p, p + 4)[1]);
    assert(s[p + 2] == s.subrange(p, p + 4)[2]);
    assert(s[p + 3] == s.subrange(p, p + 4)[3]);
    lemma_find_pin(s, p + 1, 62, p + 3);
    assert(s.subrange(p + 1, p + 3) =~= seq![116u8, 47u8]);
    assert(s.subrange(p + 1, p + 2) =~= seq![116u8]);
    lemma_split_single(116);
    assert(spec_next_raw(s, p) == Ok::<(SpecRaw, int), DeError>(
        (SpecRaw::EmptyTag(seq![116u8], Seq::empty()), p + 4),
    ));
    lemma_single_name(116);
}

/// The expect mode a scalar tag arms.
spec fn tag_expect(c: u8) -> Expect {
    if c == 107 {
        Expect::Key
    } else if c == 115 {
        Expect::Str
    } else if c == 105 {
        Expect::Int
    } else {
        Expect::Real
    }
}

/// Tokenizing an emitted scalar tag pair from a fresh position: the markup
/// yields the scalar token carrying the unescaped body.
proof fn lemma_scalar_token(c: u8, body: Seq<u8>, stack: Seq<OpenTag>)
    requires
        c == 107 || c == 115 || c == 105 || c == 114,
        body.len() > 0,
        forall|i: int| 0 <= i < body.len() ==> body[i] != 60,
    ensures
        ({
            let s = seq![60u8, c, 62u8] + body + seq![60u8, 47u8, c, 62u8];
            spec_next_token(s, 0, stack) == match spec_unescape(body) {
                Ok(t) => Ok::<(SpecToken, int, bool, Seq<OpenTag>), DeError>(
                    (scalar_token(c, t), 3 + body.len() as int, false, stack.push(open_tag_of(c))),
                ),
                Err(_) => Err::<(SpecToken, int, bool, Seq<OpenTag>), DeError>(DeError::XmlParse),
            }
        }),
{
    let n = body.len() as int;
    let s = seq![60u8, c, 62u8] + body + seq![60u8, 47u8, c, 62u8];
    lemma_concat3_index(seq![60u8, c, 62u8], body, seq![60u8, 47u8, c, 62u8]);
    assert(s.subrange(0, 3) =~= seq![60u8, c, 62u8]);
    assert(s.subrange(3, 3 + n) =~= body);
    assert(s[3 + n] == 60);
    lemma_token_scalar_at(s, 0, c, body, stack);
}

/// A signed 64-bit scalar decodes back from its emitted markup.
pub proof fn lemma_round_trip_i64(v: i64)
    ensures
        ({
            let st = spec_init_state(spec_emit_int(v as int));
            spec_de_i64(st) matches Ok(p) && p.0 == v
        }),
{
    let body = spec_fmt_int(v as int);
    lemma_fmt_plain(v as int);
    lemma_unescape_plain(body);
    lemma_scalar_token(105, body, Seq::empty());
    lemma_parse_fmt_int(v as int);
}

/// A signed 32-bit scalar decodes back from its emitted markup.
pub proof fn lemma_round_trip_i32(v: i32)
    ensures
        ({
            let st = spec_init_state(spec_emit_int(v as int));
            spec_de_i32(st) matches Ok(p) && p.0 == v
        }),
{
    let body = spec_fmt_int(v as int);
    lemma_fmt_plain(v as int);
    lemma_unescape_plain(body);
    lemma_scalar_token(105, body, Seq::empty());
    lemma_parse_fmt_int(v as int);
}

/// An unsigned 64-bit scalar decodes back from its emitted markup.
pub proof fn lemma_round_trip_u64(v: u64)
    ensures
        ({
            let st = spec_init_state(spec_emit_uint(v as int));
            spec_de_u64(st) matches Ok(p) && p.0 == v
        }),
{
    let body = spec_fmt_int(v as int);
    lemma_fmt_plain(v as int);
    lemma_unescape_plain(body);
    lemma_scalar_token(105, body, Seq::empty());
    lemma_parse_fmt_int(v as int);
}

/// An unsigned 32-bit scalar decodes back from its emitted markup.
pub proof fn lemma_round_trip_u32(v: u32)
    ensures
        ({
            let st = spec_init_state(spec_emit_uint(v as int));
            spec_de_u32(st) matches Ok(p) && p.0 == v
        }),
{
    let body = spec_fmt_int(v as int);
    lemma_fmt_plain(v as int);
    lemma_unescape_plain(body);
    lemma_scalar_token(105, body, Seq::empty());
    lemma_parse_fmt_int(v as int);
}

/// The boolean scalar decodes back from its emitted markup. Only the
/// present (true) boolean is representable: the format writes no false.
pub proof fn lemma_round_trip_bool(v: bool)
    requires
        v,
    ensures
        ({
            let st = spec_init_state(spec_emit_bool());
            spec_de_bool(st) matches Ok(p) && p.0 == v
        }),
{
    let s = spec_emit_bool();
    assert(s.subrange(0, 4) =~= s);
    lemma_token_true_at(s, 0, Seq::empty());
}

/// A nonempty string scalar decodes back from its emitted markup. The
/// empty string is not representable: its tag pair carries no text event.
pub proof fn lemma_round_trip_str(s: Seq<u8>)
    requires
        s.len() > 0,
    ensures
        ({
            let st = spec_init_state(spec_emit_str(s));
            spec_de_str(st) matches Ok(p) && p.0 == s
        }),
{
    let body = spec_escape(s);
    lemma_escape_no_lt(s);
    lemma_unescape_escape(s);
    lemma_scalar_token(115, body, Seq::empty());
}

/// A nonempty real scalar's text decodes back from its emitted markup.
pub proof fn lemma_round_trip_real(s: Seq<u8>)
    requires
        s.len() > 0,
    ensures
        ({
            let st = spec_init_state(spec_emit_real(s));
            spec_de_str(st) matches Ok(p) && p.0 == s
        }),
{
    let body = spec_escape(s);
    lemma_escape_no_lt(s);
    lemma_unescape_escape(s);
    lemma_scalar_token(114, body, Seq::empty());
}

/// A value the format can write and read back: nonempty strings, real
/// texts and keys, the present boolean only, and no dictionary opening
/// with the sequence-marker key.
pub open spec fn representable(v: SpecValue) -> bool
    decreases v,
{
    match v {
        SpecValue::Str(s) => s.len() > 0,
        SpecValue::Int(_) => true,
        SpecValue::Real(s) => s.len() > 0,
        SpecValue::Bool(b) => b,
        SpecValue::Dict(es) => (es.len() > 0 ==> es[0].0 != isarr_key())
            && entries_representable(es),
        SpecValue::Arr(xs) => xs.len() <= u64::MAX && items_representable(xs),
    }
}

pub open spec fn entries_representable(es: Seq<(Seq<u8>, SpecValue)>) -> bool
    decreases es,
{
    if es.len() == 0 {
        true
    } else {
        es[0].0.len() > 0 && representable(es[0].1) && entries_representable(es.drop_first())
    }
}

pub open spec fn items_representable(xs: Seq<SpecValue>) -> bool
    decreases xs,
{
    if xs.len() == 0 {
        true
    } else {
        representable(xs[0]) && items_representable(xs.drop_first())
    }
}

/// The end tag of a scalar tag pair.
pub open spec fn end_tag(c: u8) -> Seq<u8> {
    seq![60u8, 47u8, c, 62u8]
}

/// The end tag a value's emission leaves for the next token request to
/// skip: text-bearing scalars leave their closing tag, everything else
/// leaves nothing.
pub open spec fn scalar_trailing(v: SpecValue) -> Seq<u8> {
    match v {
        SpecValue::Str(_) => end_tag(115),
        SpecValue::Int(_) => end_tag(105),
        SpecValue::Real(_) => end_tag(114),
        _ => Seq::empty(),
    }
}

/// A possibly-empty run of skippable closing tags between values.
pub open spec fn is_scalar_trailing(lead: Seq<u8>) -> bool {
    ||| lead == Seq::<u8>::empty()
    ||| lead == end_tag(107)
    ||| lead == end_tag(115)
    ||| lead == end_tag(105)
    ||| lead == end_tag(114)
}

/// The open tag a scalar value's emission leaves behind until its closing
/// tag is skipped.
pub open spec fn trailing_tag(v: SpecValue) -> Seq<OpenTag> {
    match v {
        SpecValue::Str(_) => seq![OpenTag::S],
        SpecValue::Int(_) => seq![OpenTag::I],
        SpecValue::Real(_) => seq![OpenTag::R],
        _ => Seq::empty(),
    }
}

/// Whether a stack ends with the opener a leftover closing tag closes.
pub open spec fn lead_matches(lead: Seq<u8>, stack: Seq<OpenTag>) -> bool {
    if lead == Seq::<u8>::empty() {
        true
    } else {
        stack.len() > 0 && ((lead == end_tag(107) && stack.last() == OpenTag::K) || (lead
            == end_tag(115) && stack.last() == OpenTag::S) || (lead == end_tag(105)
            && stack.last() == OpenTag::I) || (lead == end_tag(114) && stack.last()
            == OpenTag::R))
    }
}

/// The stack after a leftover closing tag is skipped.
pub open spec fn stack_after_lead(lead: Seq<u8>, stack: Seq<OpenTag>) -> Seq<OpenTag> {
    if lead == Seq::<u8>::empty() {
        stack
    } else {
        stack.drop_last()
    }
}

/// Skippable closing tags do not change the next token; they pop their
/// opener from the stack.
proof fn lemma_skip_lead(s: Seq<u8>, p: int, lead: Seq<u8>, stack: Seq<OpenTag>)
    requires
        is_scalar_trailing(lead),
        lead_matches(lead, stack),
        0 <= p,
        p + lead.len() <= s.len(),
        s.subrange(p, p + lead.len() as int) == lead,
    ensures
        spec_next_token(s, p, stack) == spec_next_token(
            s,
            p + lead.len() as int,
            stack_after_lead(lead, stack),
        ),
{
    if lead == Seq::<u8>::empty() {
    } else if lead == end_tag(107) {
        lemma_token_skip_end_at(s, p, 107, stack);
    } else if lead == end_tag(115) {
        lemma_token_skip_end_at(s, p, 115, stack);
    } else if lead == end_tag(105) {
        lemma_token_skip_end_at(s, p, 105, stack);
    } else {
        lemma_token_skip_end_at(s, p, 114, stack);
    }
}

/// The leftover closing tag of a value matches the opener its emission
/// left behind.
proof fn lemma_trailing_matches(v: SpecValue, base: Seq<OpenTag>)
    ensures
        is_scalar_trailing(scalar_trailing(v)),
        lead_matches(scalar_trailing(v), base + trailing_tag(v)),
        stack_after_lead(scalar_trailing(v), base + trailing_tag(v)) == base,
{
    match v {
        SpecValue::Str(_) => {
            assert(scalar_trailing(v).len() == 4);
            assert((base + trailing_tag(v)).last() == OpenTag::S);
            assert((base + trailing_tag(v)).drop_last() =~= base);
        },
        SpecValue::Int(_) => {
            assert(scalar_trailing(v).len() == 4);
            assert((base + trailing_tag(v)).last() == OpenTag::I);
            assert((base + trailing_tag(v)).drop_last() =~= base);
        },
        SpecValue::Real(_) => {
            assert(scalar_trailing(v).len() == 4);
            assert((base + trailing_tag(v)).last() == OpenTag::R);
            assert((base + trailing_tag(v)).drop_last() =~= base);
        },
        _ => {
            assert(scalar_trailing(v) == Seq::<u8>::empty());
            assert(base + trailing_tag(v) =~= base);
        },
    }
}

/// The same session with nothing buffered, standing at `p` over the given
/// open-tag stack.
pub open spec fn clean_at(st: DeState, p: int, stk: Seq<OpenTag>) -> DeState {
    DeState { pos: p, peeked: None, pending: false, eof: false, stack: stk, ..st }
}

/// A session standing at the start of a region at `p` over the base stack:
/// either nothing is buffered and the cursor is at `p`, or the region's
/// first token has already been read into the buffer.
pub open spec fn at_region(st: DeState, p: int, base: Seq<OpenTag>) -> bool {
    ||| (st.peeked is None && !st.pending && !st.eof && st.pos == p && st.stack == base)
    ||| spec_fill(clean_at(st, p, base)) == Ok::<DeState, DeError>(st)
}



/// Indexing into a three-part concatenation: any index lands in one of
/// the parts.
proof fn lemma_concat3_index(a: Seq<u8>, b: Seq<u8>, z: Seq<u8>)
    ensures
        (a + b + z).len() == a.len() + b.len() + z.len(),
        forall|j: int|
            0 <= j < a.len() + b.len() + z.len() ==> #[trigger] (a + b + z)[j] == (if j < a.len() {
                a[j]
            } else if j < a.len() + b.len() {
                b[j - a.len()]
            } else {
                z[j - a.len() - b.len()]
            }),
{
    assert forall|j: int| 0 <= j < a.len() + b.len() + z.len() implies #[trigger] (a + b + z)[j]
        == (if j < a.len() {
        a[j]
    } else if j < a.len() + b.len() {
        b[j - a.len()]
    } else {
        z[j - a.len() - b.len()]
    }) by {
        if j < a.len() + b.len() {
            assert((a + b + z)[j] == (a + b)[j]);
        }
    }
}

/// The session after a value's emission is decoded: clean, standing before
/// the value's own leftover closing tag, whose opener still tops the
/// stack.
pub open spec fn after_value(st: DeState, p: int, base: Seq<OpenTag>, v: SpecValue) -> DeState {
    clean_at(st, p + spec_emit_value(v).len() - scalar_trailing(v).len(), base + trailing_tag(v))
}

/// A text-bearing scalar's emission ends with its closing tag.
proof fn lemma_trailing_of_emission(v: SpecValue)
    ensures
        spec_emit_value(v).len() >= scalar_trailing(v).len(),
        forall|j: int|
            0 <= j < scalar_trailing(v).len() ==> spec_emit_value(v)[spec_emit_value(v).len()
                - scalar_trailing(v).len() + j] == scalar_trailing(v)[j],
{
    match v {
        SpecValue::Str(s) => {
            lemma_concat3_index(seq![60u8, 115u8, 62u8], spec_escape(s), end_tag(115));
            assert(spec_emit_value(v) == seq![60u8, 115u8, 62u8] + spec_escape(s) + end_tag(115))
                by {
                assert(end_tag(115) =~= seq![60u8, 47u8, 115u8, 62u8]);
            }
        },
        SpecValue::Int(k) => {
            lemma_concat3_index(seq![60u8, 105u8, 62u8], spec_fmt_int(k as int), end_tag(105));
            assert(spec_emit_value(v) == seq![60u8, 105u8, 62u8] + spec_fmt_int(k as int)
                + end_tag(105)) by {
                assert(end_tag(105) =~= seq![60u8, 47u8, 105u8, 62u8]);
            }
        },
        SpecValue::Real(s) => {
            lemma_concat3_index(seq![60u8, 114u8, 62u8], spec_escape(s), end_tag(114));
            assert(spec_emit_value(v) == seq![60u8, 114u8, 62u8] + spec_escape(s) + end_tag(114))
                by {
                assert(end_tag(114) =~= seq![60u8, 47u8, 114u8, 62u8]);
            }
        },
        _ => {},
    }
}

/// Decoding an emitted representable value yields exactly that value back,
/// and leaves the session right after the emission, before the value's own
/// leftover closing tag. The region's first token begins a value.
#[verifier::rlimit(100)]
#[verifier::spinoff_prover]
proof fn lemma_decode_emit(st: DeState, p: int, base: Seq<OpenTag>, v: SpecValue)
    requires
        0 <= p,
        p + spec_emit_value(v).len() <= st.bytes.len(),
        st.bytes.subrange(p, p + spec_emit_value(v).len() as int) == spec_emit_value(v),
        representable(v),
        at_region(st, p, base),
    ensures
        spec_decode_any(st) == Ok::<(SpecValue, DeState), DeError>(
            (v, after_value(st, p, base, v)),
        ),
        spec_fill(clean_at(st, p, base)) matches Ok(fv) && value_start(fv.peeked.unwrap())
            && !fv.pending && !fv.eof && p < fv.pos <= p + spec_emit_value(v).len() && fv.bytes
            == st.bytes && fv.header == st.header && !(fv.peeked.unwrap() is Eof),
    decreases v, 1int,
{
    let bytes = st.bytes;
    let len = bytes.len() as int;
    let e = spec_emit_value(v);
    let n = e.len() as int;
    let st0 = clean_at(st, p, base);
    match v {
        SpecValue::Int(k) => {
            let body = spec_fmt_int(k as int);
            let bn = body.len() as int;
            lemma_fmt_plain(k as int);
            lemma_unescape_plain(body);
            lemma_parse_fmt_int(k as int);
            lemma_concat3_index(seq![60u8, 105u8, 62u8], body, seq![60u8, 47u8, 105u8, 62u8]);
            assert(bytes.subrange(p, p + 3) =~= seq![60u8, 105u8, 62u8]) by {
                assert forall|j: int| 0 <= j < 3 implies bytes.subrange(p, p + 3)[j] == seq![
                    60u8,
                    105u8,
                    62u8,
                ][j] by {
                    assert(bytes.subrange(p, p + 3)[j] == bytes.subrange(p, p + n)[j]);
                }
            }
            assert(bytes.subrange(p + 3, p + 3 + bn) =~= body) by {
                assert forall|j: int| 0 <= j < bn implies bytes.subrange(p + 3, p + 3 + bn)[j]
                    == body[j] by {
                    assert(bytes.subrange(p + 3, p + 3 + bn)[j] == bytes.subrange(p, p + n)[3 + j]);
                    assert(e[3 + j] == body[j]);
                }
            }
            assert(bytes[p + 3 + bn] == e[3 + bn]) by {
                assert(bytes[p + 3 + bn] == bytes.subrange(p, p + n)[3 + bn]);
            }
            lemma_token_scalar_at(bytes, p, 105, body, base);
            let fv = DeState {
                pos: p + 3 + bn,
                peeked: Some(SpecToken::Integer(body)),
                pending: false,
                eof: false,
                stack: base.push(OpenTag::I),
                ..st
            };
            assert(spec_fill(st0) == Ok::<DeState, DeError>(fv));
            assert(spec_fill(st) == Ok::<DeState, DeError>(fv));
            assert(base.push(OpenTag::I) =~= base + trailing_tag(v));
            assert(spec_pop(st) == Ok::<(SpecToken, DeState), DeError>(
                (SpecToken::Integer(body), after_value(st, p, base, v)),
            ));
        },
        SpecValue::Str(sb) => {
            let body = spec_escape(sb);
            let bn = body.len() as int;
            lemma_escape_no_lt(sb);
            lemma_unescape_escape(sb);
            lemma_concat3_index(seq![60u8, 115u8, 62u8], body, seq![60u8, 47u8, 115u8, 62u8]);
            assert(bytes.subrange(p, p + 3) =~= seq![60u8, 115u8, 62u8]) by {
                assert forall|j: int| 0 <= j < 3 implies bytes.subrange(p, p + 3)[j] == seq![
                    60u8,
                    115u8,
                    62u8,
                ][j] by {
                    assert(bytes.subrange(p, p + 3)[j] == bytes.subrange(p, p + n)[j]);
                }
            }
            assert(bytes.subrange(p + 3, p + 3 + bn) =~= body) by {
                assert forall|j: int| 0 <= j < bn implies bytes.subrange(p + 3, p + 3 + bn)[j]
                    == body[j] by {
                    assert(bytes.subrange(p + 3, p + 3 + bn)[j] == bytes.subrange(p, p + n)[3 + j]);
                    assert(e[3 + j] == body[j]);
                }
            }
            assert(bytes[p + 3 + bn] == e[3 + bn]) by {
                assert(bytes[p + 3 + bn] == bytes.subrange(p, p + n)[3 + bn]);
            }
            lemma_token_scalar_at(bytes, p, 115, body, base);
            let fv = DeState {
                pos: p + 3 + bn,
                peeked: Some(SpecToken::Str(sb)),
                pending: false,
                eof: false,
                stack: base.push(OpenTag::S),
                ..st
            };
            assert(spec_fill(st0) == Ok::<DeState, DeError>(fv));
            assert(spec_fill(st) == Ok::<DeState, DeError>(fv));
            assert(base.push(OpenTag::S) =~= base + trailing_tag(v));
            assert(spec_pop(st) == Ok::<(SpecToken, DeState), DeError>(
                (SpecToken::Str(sb), after_value(st, p, base, v)),
            ));
        },
        SpecValue::Real(sb) => {
            let body = spec_escape(sb);
            let bn = body.len() as int;
            lemma_escape_no_lt(sb);
            lemma_unescape_escape(sb);
            lemma_concat3_index(seq![60u8, 114u8, 62u8], body, seq![60u8, 47u8, 114u8, 62u8]);
            assert(bytes.subrange(p, p + 3) =~= seq![60u8, 114u8, 62u8]) by {
                assert forall|j: int| 0 <= j < 3 implies bytes.subrange(p, p + 3)[j] == seq![
                    60u8,
                    114u8,
                    62u8,
                ][j] by {
                    assert(bytes.subrange(p, p + 3)[j] == bytes.subrange(p, p + n)[j]);
                }
            }
            assert(bytes.subrange(p + 3, p + 3 + bn) =~= body) by {
                assert forall|j: int| 0 <= j < bn implies bytes.subrange(p + 3, p + 3 + bn)[j]
                    == body[j] by {
                    assert(bytes.subrange(p + 3, p + 3 + bn)[j] == bytes.subrange(p, p + n)[3 + j]);
                    assert(e[3 + j] == body[j]);
                }
            }
            assert(bytes[p + 3 + bn] == e[3 + bn]) by {
                assert(bytes[p + 3 + bn] == bytes.subrange(p, p + n)[3 + bn]);
            }
            lemma_token_scalar_at(bytes, p, 114, body, base);
            let fv = DeState {
                pos: p + 3 + bn,
                peeked: Some(SpecToken::Real(sb)),
                pending: false,
                eof: false,
                stack: base.push(OpenTag::R),
                ..st
            };
            assert(spec_fill(st0) == Ok::<DeState, DeError>(fv));
            assert(spec_fill(st) == Ok::<DeState, DeError>(fv));
            assert(base.push(OpenTag::R) =~= base + trailing_tag(v));
            assert(spec_pop(st) == Ok::<(SpecToken, DeState), DeError>(
                (SpecToken::Real(sb), after_value(st, p, base, v)),
            ));
        },
        SpecValue::Bool(_) => {
            assert(bytes.subrange(p, p + 4) =~= seq![60u8, 116u8, 47u8, 62u8]) by {
                assert forall|j: int| 0 <= j < 4 implies bytes.subrange(p, p + 4)[j] == seq![
                    60u8,
                    116u8,
                    47u8,
                    62u8,
                ][j] by {
                    assert(bytes.subrange(p, p + 4)[j] == bytes.subrange(p, p + n)[j]);
                }
            }
            lemma_token_true_at(bytes, p, base);
            let fv = DeState {
                pos: p + 4,
                peeked: Some(SpecToken::True),
                pending: false,
                eof: false,
                stack: base,
                ..st
            };
            assert(spec_fill(st0) == Ok::<DeState, DeError>(fv));
            assert(spec_fill(st) == Ok::<DeState, DeError>(fv));
            assert(base =~= base + trailing_tag(v));
            assert(spec_pop(st) == Ok::<(SpecToken, DeState), DeError>(
                (SpecToken::True, after_value(st, p, base, v)),
            ));
        },
        SpecValue::Dict(es) => {
            lemma_decode_emit_dict(st, p, base, v);
        },
        SpecValue::Arr(xs) => {
            lemma_decode_emit_arr(st, p, base, v);
        },
    }
}

/// The dictionary case of `lemma_decode_emit`.
#[verifier::rlimit(100)]
#[verifier::spinoff_prover]
proof fn lemma_decode_emit_dict(st: DeState, p: int, base: Seq<OpenTag>, v: SpecValue)
    requires
        0 <= p,
        p + spec_emit_value(v).len() <= st.bytes.len(),
        st.bytes.subrange(p, p + spec_emit_value(v).len() as int) == spec_emit_value(v),
        representable(v),
        at_region(st, p, base),
        v is Dict,
    ensures
        spec_decode_any(st) == Ok::<(SpecValue, DeState), DeError>(
            (v, after_value(st, p, base, v)),
        ),
        spec_fill(clean_at(st, p, base)) matches Ok(fv) && value_start(fv.peeked.unwrap())
            && !fv.pending && !fv.eof && p < fv.pos <= p + spec_emit_value(v).len() && fv.bytes
            == st.bytes && fv.header == st.header && !(fv.peeked.unwrap() is Eof),
    decreases v, 0int,
{
    let bytes = st.bytes;
    let len = bytes.len() as int;
    let e = spec_emit_value(v);
    let n = e.len() as int;
    let st0 = clean_at(st, p, base);
    match v {
        SpecValue::Dict(es) => {
            let ee = spec_emit_entries(es);
            let een = ee.len() as int;
            let base2 = base.push(OpenTag::DictShort);
            lemma_concat3_index(seq![60u8, 100u8, 62u8], ee, seq![60u8, 47u8, 100u8, 62u8]);
            assert(bytes.subrange(p, p + 3) =~= seq![60u8, 100u8, 62u8]) by {
                assert forall|j: int| 0 <= j < 3 implies bytes.subrange(p, p + 3)[j] == seq![
                    60u8,
                    100u8,
                    62u8,
                ][j] by {
                    assert(bytes.subrange(p, p + 3)[j] == bytes.subrange(p, p + n)[j]);
                }
            }
            lemma_token_dict_start_at(bytes, p, base);
            let fv = DeState {
                pos: p + 3,
                peeked: Some(SpecToken::DictStart),
                pending: false,
                eof: false,
                stack: base2,
                ..st
            };
            assert(spec_fill(st0) == Ok::<DeState, DeError>(fv));
            assert(spec_fill(st) == Ok::<DeState, DeError>(fv));
            let st1 = clean_at(st, p + 3, base2);
            assert(spec_pop(st) == Ok::<(SpecToken, DeState), DeError>(
                (SpecToken::DictStart, st1),
            ));
            assert(measure(st) >= 4 * (len - (p + 3)) + 2);
            assert(end_tag(100) =~= seq![60u8, 47u8, 100u8, 62u8]);
            assert(bytes.subrange(p + 3, p + n) =~= ee + end_tag(100)) by {
                assert forall|j: int| 0 <= j < een + 4 implies bytes.subrange(p + 3, p + n)[j] == (
                ee + end_tag(100))[j] by {
                    assert(bytes.subrange(p + 3, p + n)[j] == bytes.subrange(p, p + n)[3 + j]);
                    assert(e[3 + j] == (ee + end_tag(100))[j]);
                }
            }
            let ste = DeState {
                pos: p + n,
                peeked: Some(SpecToken::DictEnd),
                pending: false,
                eof: false,
                stack: base,
                ..st
            };
            assert(base2.drop_last() =~= base);
            assert(base + trailing_tag(v) =~= base);
            // the branch the self-describing decoder takes after the dict
            // start: the peeked token is the first key or the end
            if es.len() == 0 {
                assert(spec_emit_entries(es) == Seq::<u8>::empty());
                assert(bytes.subrange(p + 3, p + 7) =~= end_tag(100)) by {
                    assert(bytes.subrange(p + 3, p + 7) =~= bytes.subrange(p + 3, p + n));
                }
                lemma_token_dict_end_at(bytes, p + 3, base2);
                let st2 = DeState {
                    pos: p + 7,
                    peeked: Some(SpecToken::DictEnd),
                    pending: false,
                    eof: false,
                    stack: base,
                    ..st
                };
                assert(spec_next_token(bytes, p + 3, base2) == Ok::<
                    (SpecToken, int, bool, Seq<OpenTag>),
                    DeError,
                >((SpecToken::DictEnd, p + 7, false, base))) by {
                    assert(base2.drop_last() =~= base);
                }
                assert(spec_peek(st1) == Ok::<(SpecToken, DeState), DeError>(
                    (SpecToken::DictEnd, st2),
                ));
                assert(0 <= measure(st2) && measure(st2) < measure(st));
                assert(es =~= Seq::<(Seq<u8>, SpecValue)>::empty());
                assert(at_region(st2, p + 3, base2)) by {
                    assert(clean_at(st2, p + 3, base2) == st1);
                }
                lemma_decode_entries(st2, p + 3, Seq::empty(), base2, es, p + n);
                assert(spec_decode_dict_items(st2) == Ok::<
                    (Seq<(Seq<u8>, SpecValue)>, DeState),
                    DeError,
                >((es, ste)));
                assert(spec_pop(ste) == Ok::<(SpecToken, DeState), DeError>(
                    (SpecToken::DictEnd, clean_at(st, p + n, base)),
                ));
                assert(spec_decode_dict_value(st2) == Ok::<(SpecValue, DeState), DeError>(
                    (SpecValue::Dict(es), clean_at(st, p + n, base)),
                ));
                assert(spec_decode_any(st) == Ok::<(SpecValue, DeState), DeError>(
                    (SpecValue::Dict(es), clean_at(st, p + n, base)),
                ));
            } else {
                let k0 = es[0].0;
                let v0 = es[0].1;
                let kb = spec_escape(k0);
                let kbn = kb.len() as int;
                lemma_escape_no_lt(k0);
                lemma_unescape_escape(k0);
                assert(ee == spec_emit_key(k0) + spec_emit_value(v0) + spec_emit_entries(
                    es.drop_first(),
                ));
                let ke = spec_emit_key(k0);
                lemma_concat3_index(ke, spec_emit_value(v0), spec_emit_entries(es.drop_first()));
                lemma_concat3_index(seq![60u8, 107u8, 62u8], kb, end_tag(107));
                assert(end_tag(107) =~= seq![60u8, 47u8, 107u8, 62u8]);
                assert(bytes.subrange(p + 3, p + 6) =~= seq![60u8, 107u8, 62u8]) by {
                    assert forall|j: int| 0 <= j < 3 implies bytes.subrange(p + 3, p + 6)[j]
                        == seq![60u8, 107u8, 62u8][j] by {
                        assert(bytes.subrange(p + 3, p + 6)[j] == bytes.subrange(p, p + n)[3 + j]);
                        assert(e[3 + j] == ee[j]);
                        assert(ee[j] == ke[j]);
                    }
                }
                assert(bytes.subrange(p + 6, p + 6 + kbn) =~= kb) by {
                    assert forall|j: int| 0 <= j < kbn implies bytes.subrange(p + 6, p + 6 + kbn)[j]
                        == kb[j] by {
                        assert(bytes.subrange(p + 6, p + 6 + kbn)[j] == bytes.subrange(p, p + n)[3
                            + 3 + j]);
                        assert(e[3 + (3 + j)] == ee[3 + j]);
                        assert(ee[3 + j] == ke[3 + j]);
                        assert(ke[3 + j] == kb[j]);
                    }
                }
                assert(bytes[p + 6 + kbn] == 60) by {
                    assert(bytes[p + 6 + kbn] == bytes.subrange(p, p + n)[3 + 3 + kbn]);
                    assert(e[3 + (3 + kbn)] == ee[3 + kbn]);
                    assert(ee[3 + kbn] == ke[3 + kbn]);
                    assert(ke[3 + kbn] == end_tag(107)[0]);
                }
                lemma_token_scalar_at(bytes, p + 3, 107, kb, base2);
                let st2 = DeState {
                    pos: p + 6 + kbn,
                    peeked: Some(SpecToken::Key(k0)),
                    pending: false,
                    eof: false,
                    stack: base2.push(OpenTag::K),
                    ..st
                };
                assert(spec_peek(st1) == Ok::<(SpecToken, DeState), DeError>(
                    (SpecToken::Key(k0), st2),
                ));
                assert(k0 != isarr_key());
                assert(0 <= measure(st2) && measure(st2) < measure(st));
                assert(at_region(st2, p + 3, base2)) by {
                    assert(clean_at(st2, p + 3, base2) == st1);
                }
                lemma_decode_entries(st2, p + 3, Seq::empty(), base2, es, p + n);
                assert(spec_decode_dict_items(st2) == Ok::<
                    (Seq<(Seq<u8>, SpecValue)>, DeState),
                    DeError,
                >((es, ste)));
                assert(spec_pop(ste) == Ok::<(SpecToken, DeState), DeError>(
                    (SpecToken::DictEnd, clean_at(st, p + n, base)),
                ));
                assert(spec_decode_dict_value(st2) == Ok::<(SpecValue, DeState), DeError>(
                    (SpecValue::Dict(es), clean_at(st, p + n, base)),
                ));
                assert(spec_decode_any(st) == Ok::<(SpecValue, DeState), DeError>(
                    (SpecValue::Dict(es), clean_at(st, p + n, base)),
                ));
            }
            assert(after_value(st, p, base, v) == clean_at(st, p + n, base));
        },
        _ => {},
    }
}

/// The byte regions of an emitted sequence: the dict opener, the marker
/// key's pieces, the boolean tag, and the elements with the closer.
#[verifier::rlimit(100)]
#[verifier::spinoff_prover]
proof fn lemma_arr_regions(bytes: Seq<u8>, p: int, xs: Seq<SpecValue>)
    requires
        0 <= p,
        p + spec_emit_value(SpecValue::Arr(xs)).len() <= bytes.len(),
        bytes.subrange(p, p + spec_emit_value(SpecValue::Arr(xs)).len() as int) == spec_emit_value(
            SpecValue::Arr(xs),
        ),
    ensures
        ({
            let kb = spec_escape(isarr_key());
            let kbn = kb.len() as int;
            let keyend = p + 6 + kbn;
            let items = spec_emit_items(xs, 0);
            let n = spec_emit_value(SpecValue::Arr(xs)).len() as int;
            &&& bytes.subrange(p, p + 3) == seq![60u8, 100u8, 62u8]
            &&& bytes.subrange(p + 3, p + 6) == seq![60u8, 107u8, 62u8]
            &&& bytes.subrange(p + 6, keyend) == kb
            &&& bytes[keyend] == 60
            &&& bytes.subrange(keyend, keyend + 4) == end_tag(107)
            &&& bytes.subrange(keyend + 4, keyend + 8) == seq![60u8, 116u8, 47u8, 62u8]
            &&& bytes.subrange(keyend + 8, p + n) == items + end_tag(100)
            &&& keyend + 8 == p + 3 + spec_emit_key(isarr_key()).len() + 4
        }),
{
    let v = SpecValue::Arr(xs);
    let e = spec_emit_value(v);
    let n = e.len() as int;
    let marker = spec_emit_key(isarr_key());
    let mn = marker.len() as int;
    let items = spec_emit_items(xs, 0);
    let itn = items.len() as int;
    let kb = spec_escape(isarr_key());
    let kbn = kb.len() as int;
    let keyend = p + 6 + kbn;
    assert(e == seq![60u8, 100u8, 62u8] + (spec_emit_isarr() + items) + seq![
        60u8,
        47u8,
        100u8,
        62u8,
    ]) by {
        assert(seq![60u8, 100u8, 62u8] + spec_emit_isarr() + items + seq![60u8, 47u8, 100u8, 62u8]
            =~= seq![60u8, 100u8, 62u8] + (spec_emit_isarr() + items) + seq![
            60u8,
            47u8,
            100u8,
            62u8,
        ]);
    }
    let mid = spec_emit_isarr() + items;
    lemma_concat3_index(seq![60u8, 100u8, 62u8], mid, seq![60u8, 47u8, 100u8, 62u8]);
    lemma_concat3_index(marker, spec_emit_bool(), items);
    assert(spec_emit_isarr() + items =~= marker + spec_emit_bool() + items);
    lemma_concat3_index(seq![60u8, 107u8, 62u8], kb, end_tag(107));
    assert(end_tag(107) =~= seq![60u8, 47u8, 107u8, 62u8]);
    assert(end_tag(100) =~= seq![60u8, 47u8, 100u8, 62u8]);
    assert(bytes.subrange(p, p + 3) =~= seq![60u8, 100u8, 62u8]) by {
        assert forall|j: int| 0 <= j < 3 implies bytes.subrange(p, p + 3)[j] == seq![
            60u8,
            100u8,
            62u8,
        ][j] by {
            assert(bytes.subrange(p, p + 3)[j] == bytes.subrange(p, p + n)[j]);
        }
    }
    assert(bytes.subrange(p + 3, p + 6) =~= seq![60u8, 107u8, 62u8]) by {
        assert forall|j: int| 0 <= j < 3 implies bytes.subrange(p + 3, p + 6)[j] == seq![
            60u8,
            107u8,
            62u8,
        ][j] by {
            assert(bytes.subrange(p + 3, p + 6)[j] == bytes.subrange(p, p + n)[3 + j]);
            assert(e[3 + j] == mid[j]);
            assert(mid[j] == marker[j]);
        }
    }
    assert(bytes.subrange(p + 6, keyend) =~= kb) by {
        assert forall|j: int| 0 <= j < kbn implies bytes.subrange(p + 6, keyend)[j] == kb[j] by {
            assert(bytes.subrange(p + 6, keyend)[j] == bytes.subrange(p, p + n)[3 + (3 + j)]);
            assert(e[3 + (3 + j)] == mid[3 + j]);
            assert(mid[3 + j] == marker[3 + j]);
            assert(marker[3 + j] == kb[j]);
        }
    }
    assert(bytes.subrange(keyend, keyend + 4) =~= end_tag(107)) by {
        assert forall|j: int| 0 <= j < 4 implies bytes.subrange(keyend, keyend + 4)[j] == end_tag(
            107,
        )[j] by {
            assert(bytes.subrange(keyend, keyend + 4)[j] == bytes.subrange(p, p + n)[3 + (3 + kbn
                + j)]);
            assert(e[3 + (3 + kbn + j)] == mid[3 + kbn + j]);
            assert(mid[3 + kbn + j] == marker[3 + kbn + j]);
            assert(marker[3 + kbn + j] == end_tag(107)[j]);
        }
    }
    assert(bytes[keyend] == bytes.subrange(keyend, keyend + 4)[0]);
    assert(bytes.subrange(keyend + 4, keyend + 8) =~= seq![60u8, 116u8, 47u8, 62u8]) by {
        assert forall|j: int| 0 <= j < 4 implies bytes.subrange(keyend + 4, keyend + 8)[j] == seq![
            60u8,
            116u8,
            47u8,
            62u8,
        ][j] by {
            assert(bytes.subrange(keyend + 4, keyend + 8)[j] == bytes.subrange(p, p + n)[3 + (mn
                + j)]);
            assert(e[3 + (mn + j)] == mid[mn + j]);
            assert(mid[mn + j] == spec_emit_bool()[j]);
        }
    }
    assert(bytes.subrange(keyend + 8, p + n) =~= items + end_tag(100)) by {
        assert forall|j: int| 0 <= j < itn + 4 implies bytes.subrange(keyend + 8, p + n)[j] == (
        items + end_tag(100))[j] by {
            assert(bytes.subrange(keyend + 8, p + n)[j] == bytes.subrange(p, p + n)[3 + (mn + 4
                + j)]);
            if j < itn {
                assert(e[3 + (mn + 4 + j)] == mid[mn + 4 + j]);
                assert(mid[mn + 4 + j] == items[j]);
                assert((items + end_tag(100))[j] == items[j]);
            } else {
                assert(e[3 + mid.len() + (j - itn)] == seq![60u8, 47u8, 100u8, 62u8][j - itn]);
                assert((items + end_tag(100))[j] == end_tag(100)[j - itn]);
            }
        }
    }
}

/// The opening run of an emitted sequence: the dict start, the marker key
/// and the boolean token, as the session pops them.
#[verifier::rlimit(100)]
#[verifier::spinoff_prover]
proof fn lemma_arr_prefix(st: DeState, p: int, base: Seq<OpenTag>, xs: Seq<SpecValue>)
    requires
        0 <= p,
        p + spec_emit_value(SpecValue::Arr(xs)).len() <= st.bytes.len(),
        st.bytes.subrange(p, p + spec_emit_value(SpecValue::Arr(xs)).len() as int)
            == spec_emit_value(SpecValue::Arr(xs)),
        at_region(st, p, base),
    ensures
        ({
            let kbn = spec_escape(isarr_key()).len() as int;
            let keyend = p + 6 + kbn;
            let base2 = base.push(OpenTag::DictShort);
            let n = spec_emit_value(SpecValue::Arr(xs)).len() as int;
            let st1 = clean_at(st, p + 3, base2);
            let st2 = DeState {
                pos: keyend,
                peeked: Some(SpecToken::Key(isarr_key())),
                pending: false,
                eof: false,
                stack: base2.push(OpenTag::K),
                ..st
            };
            let st3 = clean_at(st, keyend, base2.push(OpenTag::K));
            let st4 = clean_at(st, keyend + 8, base2);
            &&& spec_fill(clean_at(st, p, base)) == Ok::<DeState, DeError>(
                DeState {
                    pos: p + 3,
                    peeked: Some(SpecToken::DictStart),
                    pending: false,
                    eof: false,
                    stack: base2,
                    ..st
                },
            )
            &&& spec_pop(st) == Ok::<(SpecToken, DeState), DeError>((SpecToken::DictStart, st1))
            &&& spec_peek(st1) == Ok::<(SpecToken, DeState), DeError>(
                (SpecToken::Key(isarr_key()), st2),
            )
            &&& spec_pop(st2) == Ok::<(SpecToken, DeState), DeError>(
                (SpecToken::Key(isarr_key()), st3),
            )
            &&& spec_pop(st3) == Ok::<(SpecToken, DeState), DeError>((SpecToken::True, st4))
            &&& keyend + 8 <= p + n
            &&& st.bytes.subrange(keyend + 8, p + n) == spec_emit_items(xs, 0) + end_tag(100)
            &&& measure(st) >= 4 * (st.bytes.len() - (p + 3)) + 2
        }),
    decreases xs, 2int,
{
    let bytes = st.bytes;
    let len = bytes.len() as int;
    let e = spec_emit_value(SpecValue::Arr(xs));
    let n = e.len() as int;
    let st0 = clean_at(st, p, base);
    let kb = spec_escape(isarr_key());
    let kbn = kb.len() as int;
    let base2 = base.push(OpenTag::DictShort);
    lemma_escape_no_lt(isarr_key());
    lemma_unescape_escape(isarr_key());
    lemma_arr_regions(bytes, p, xs);
    let keyend = p + 6 + kbn;
    lemma_token_dict_start_at(bytes, p, base);
    let fv = DeState {
        pos: p + 3,
        peeked: Some(SpecToken::DictStart),
        pending: false,
        eof: false,
        stack: base2,
        ..st
    };
    assert(spec_fill(st0) == Ok::<DeState, DeError>(fv));
    assert(spec_fill(st) == Ok::<DeState, DeError>(fv));
    let st1 = clean_at(st, p + 3, base2);
    assert(spec_pop(st) == Ok::<(SpecToken, DeState), DeError>((SpecToken::DictStart, st1)));
    assert(bytes[keyend] == 60);
    lemma_token_scalar_at(bytes, p + 3, 107, kb, base2);
    let st2 = DeState {
        pos: keyend,
        peeked: Some(SpecToken::Key(isarr_key())),
        pending: false,
        eof: false,
        stack: base2.push(OpenTag::K),
        ..st
    };
    assert(spec_peek(st1) == Ok::<(SpecToken, DeState), DeError>(
        (SpecToken::Key(isarr_key()), st2),
    ));
    let st3 = clean_at(st, keyend, base2.push(OpenTag::K));
    assert(spec_pop(st2) == Ok::<(SpecToken, DeState), DeError>(
        (SpecToken::Key(isarr_key()), st3),
    ));
    lemma_token_skip_end_at(bytes, keyend, 107, base2.push(OpenTag::K));
    assert(base2.push(OpenTag::K).drop_last() =~= base2);
    lemma_token_true_at(bytes, keyend + 4, base2);
    let st4 = clean_at(st, keyend + 8, base2);
    assert(spec_pop(st3) == Ok::<(SpecToken, DeState), DeError>((SpecToken::True, st4)));
}

/// The sequence case of `lemma_decode_emit`.
#[verifier::rlimit(100)]
#[verifier::spinoff_prover]
proof fn lemma_decode_emit_arr(st: DeState, p: int, base: Seq<OpenTag>, v: SpecValue)
    requires
        0 <= p,
        p + spec_emit_value(v).len() <= st.bytes.len(),
        st.bytes.subrange(p, p + spec_emit_value(v).len() as int) == spec_emit_value(v),
        representable(v),
        at_region(st, p, base),
        v is Arr,
    ensures
        spec_decode_any(st) == Ok::<(SpecValue, DeState), DeError>(
            (v, after_value(st, p, base, v)),
        ),
        spec_fill(clean_at(st, p, base)) matches Ok(fv) && value_start(fv.peeked.unwrap())
            && !fv.pending && !fv.eof && p < fv.pos <= p + spec_emit_value(v).len() && fv.bytes
            == st.bytes && fv.header == st.header && !(fv.peeked.unwrap() is Eof),
    decreases v, 0int,
{
    let len = st.bytes.len() as int;
    let e = spec_emit_value(v);
    let n = e.len() as int;
    match v {
        SpecValue::Arr(xs) => {
            let kbn = spec_escape(isarr_key()).len() as int;
            let keyend = p + 6 + kbn;
            let base2 = base.push(OpenTag::DictShort);
            lemma_arr_prefix(st, p, base, xs);
            let st4 = clean_at(st, keyend + 8, base2);
            assert(0 <= measure(st4) && measure(st4) < measure(st));
            lemma_decode_items(st4, keyend + 8, Seq::empty(), base2, xs, 0, p + n);
            assert(base2.drop_last() =~= base);
            assert(spec_decode_arr_items(st4, 0) == Ok::<(Seq<SpecValue>, DeState), DeError>(
                (xs, clean_at(st, p + n, base)),
            ));
            assert(base + trailing_tag(v) =~= base);
            assert(after_value(st, p, base, v) == clean_at(st, p + n, base));
        },
        _ => {},
    }
}

/// The byte regions of one emitted key/value pair followed by the rest of
/// a dictionary body: the optional leftover closing tag, the key's pieces,
/// the value's emission, and the tail from any suffix `t` of the value's
/// emission on.
#[verifier::rlimit(100)]
#[verifier::spinoff_prover]
proof fn lemma_pair_regions(
    bytes: Seq<u8>,
    q: int,
    lead: Seq<u8>,
    k: Seq<u8>,
    ev: Seq<u8>,
    er: Seq<u8>,
    t: Seq<u8>,
    endq: int,
)
    requires
        0 <= q <= endq,
        endq <= bytes.len(),
        bytes.subrange(q, endq) == lead + (spec_emit_key(k) + ev + er) + end_tag(100),
        t.len() <= ev.len(),
        forall|j: int| 0 <= j < t.len() ==> ev[ev.len() - t.len() + j] == t[j],
    ensures
        ({
            let ln = lead.len() as int;
            let kb = spec_escape(k);
            let kbn = kb.len() as int;
            let kstart = q + ln;
            let keyend = kstart + 3 + kbn;
            let vstart = keyend + 4;
            let vend = vstart + ev.len();
            &&& bytes.subrange(q, q + ln) == lead
            &&& bytes.subrange(kstart, kstart + 3) == seq![60u8, 107u8, 62u8]
            &&& bytes.subrange(kstart + 3, keyend) == kb
            &&& bytes[keyend] == 60
            &&& bytes.subrange(keyend, keyend + 4) == end_tag(107)
            &&& bytes.subrange(vstart, vend) == ev
            &&& endq == vend + er.len() + 4
            &&& bytes.subrange(vend - t.len(), endq) == t + er + end_tag(100)
        }),
{
    let ln = lead.len() as int;
    let kb = spec_escape(k);
    let kbn = kb.len() as int;
    let ke = spec_emit_key(k);
    let ee = ke + ev + er;
    let rr = lead + ee + end_tag(100);
    let kstart = q + ln;
    let keyend = kstart + 3 + kbn;
    let vstart = keyend + 4;
    let vn = ev.len() as int;
    let vend = vstart + vn;
    let tn = t.len() as int;
    lemma_concat3_index(lead, ee, end_tag(100));
    lemma_concat3_index(ke, ev, er);
    lemma_concat3_index(seq![60u8, 107u8, 62u8], kb, end_tag(107));
    assert(end_tag(107) =~= seq![60u8, 47u8, 107u8, 62u8]);
    assert(end_tag(100) =~= seq![60u8, 47u8, 100u8, 62u8]);
    assert(bytes.subrange(q, q + ln) =~= lead) by {
        assert forall|j: int| 0 <= j < ln implies bytes.subrange(q, q + ln)[j] == lead[j] by {
            assert(bytes.subrange(q, q + ln)[j] == bytes.subrange(q, endq)[j]);
        }
    }
    assert(bytes.subrange(kstart, kstart + 3) =~= seq![60u8, 107u8, 62u8]) by {
        assert forall|j: int| 0 <= j < 3 implies bytes.subrange(kstart, kstart + 3)[j] == seq![
            60u8,
            107u8,
            62u8,
        ][j] by {
            assert(bytes.subrange(kstart, kstart + 3)[j] == bytes.subrange(q, endq)[ln + j]);
            assert(rr[ln + j] == ee[j]);
            assert(ee[j] == ke[j]);
        }
    }
    assert(bytes.subrange(kstart + 3, keyend) =~= kb) by {
        assert forall|j: int| 0 <= j < kbn implies bytes.subrange(kstart + 3, keyend)[j] == kb[j]
            by {
            assert(bytes.subrange(kstart + 3, keyend)[j] == bytes.subrange(q, endq)[ln + (3 + j)]);
            assert(rr[ln + (3 + j)] == ee[3 + j]);
            assert(ee[3 + j] == ke[3 + j]);
            assert(ke[3 + j] == kb[j]);
        }
    }
    assert(bytes.subrange(keyend, keyend + 4) =~= end_tag(107)) by {
        assert forall|j: int| 0 <= j < 4 implies bytes.subrange(keyend, keyend + 4)[j] == end_tag(
            107,
        )[j] by {
            assert(bytes.subrange(keyend, keyend + 4)[j] == bytes.subrange(q, endq)[ln + (3 + kbn
                + j)]);
            assert(rr[ln + (3 + kbn + j)] == ee[3 + kbn + j]);
            assert(ee[3 + kbn + j] == ke[3 + kbn + j]);
            assert(ke[3 + kbn + j] == end_tag(107)[j]);
        }
    }
    assert(bytes[keyend] == bytes.subrange(keyend, keyend + 4)[0]);
    assert(bytes.subrange(vstart, vend) =~= ev) by {
        assert forall|j: int| 0 <= j < vn implies bytes.subrange(vstart, vend)[j] == ev[j] by {
            assert(bytes.subrange(vstart, vend)[j] == bytes.subrange(q, endq)[ln + (ke.len()
                + j)]);
            assert(rr[ln + (ke.len() + j)] == ee[ke.len() + j]);
            assert(ee[ke.len() + j] == ev[j]);
        }
    }
    let tail = t + er + end_tag(100);
    lemma_concat3_index(t, er, end_tag(100));
    assert(bytes.subrange(vend - tn, endq) =~= tail) by {
        assert forall|j: int| 0 <= j < endq - (vend - tn) implies bytes.subrange(vend - tn, endq)[j]
            == tail[j] by {
            assert(bytes.subrange(vend - tn, endq)[j] == bytes.subrange(q, endq)[(vend - tn - q)
                + j]);
            if j < tn {
                assert(rr[ln + (ke.len() + (vn - tn + j))] == ee[ke.len() + (vn - tn + j)]);
                assert(ee[ke.len() + (vn - tn + j)] == ev[vn - tn + j]);
                assert(ev[vn - tn + j] == t[j]);
                assert(tail[j] == t[j]);
            } else if j < tn + er.len() {
                assert(rr[ln + (ke.len() + vn + (j - tn))] == ee[ke.len() + vn + (j - tn)]);
                assert(ee[ke.len() + vn + (j - tn)] == er[j - tn]);
                assert(tail[j] == er[j - tn]);
            } else {
                assert(rr[ln + ee.len() + (j - tn - er.len())] == end_tag(100)[j - tn - er.len()]);
                assert(tail[j] == end_tag(100)[j - tn - er.len()]);
            }
        }
    }
}

/// Decoding the key/value pairs of an emitted dictionary body, possibly
/// after a leftover closing tag, ending with the closing token buffered
/// and the enclosing dictionary popped from the stack.
#[verifier::rlimit(100)]
#[verifier::spinoff_prover]
proof fn lemma_decode_entries(
    st: DeState,
    q: int,
    lead: Seq<u8>,
    stk0: Seq<OpenTag>,
    es: Seq<(Seq<u8>, SpecValue)>,
    endq: int,
)
    requires
        0 <= q <= endq,
        endq <= st.bytes.len(),
        is_scalar_trailing(lead),
        lead_matches(lead, stk0),
        stack_after_lead(lead, stk0).len() > 0,
        stack_after_lead(lead, stk0).last() == OpenTag::DictShort,
        st.bytes.subrange(q, endq) == lead + spec_emit_entries(es) + end_tag(100),
        entries_representable(es),
        at_region(st, q, stk0),
    ensures
        spec_decode_dict_items(st) == Ok::<(Seq<(Seq<u8>, SpecValue)>, DeState), DeError>(
            (
                es,
                DeState {
                    pos: endq,
                    peeked: Some(SpecToken::DictEnd),
                    pending: false,
                    eof: false,
                    stack: stack_after_lead(lead, stk0).drop_last(),
                    ..st
                },
            ),
        ),
    decreases es, 1int,
{
    let bytes = st.bytes;
    let len = bytes.len() as int;
    let ln = lead.len() as int;
    let base = stack_after_lead(lead, stk0);
    let ee = spec_emit_entries(es);
    let een = ee.len() as int;
    let rr = lead + ee + end_tag(100);
    let rn = rr.len() as int;
    let st0 = clean_at(st, q, stk0);
    lemma_concat3_index(lead, ee, end_tag(100));
    assert(rn == endq - q);
    assert(bytes.subrange(q, q + ln) =~= lead) by {
        assert forall|j: int| 0 <= j < ln implies bytes.subrange(q, q + ln)[j] == lead[j] by {
            assert(bytes.subrange(q, q + ln)[j] == bytes.subrange(q, endq)[j]);
        }
    }
    lemma_skip_lead(bytes, q, lead, stk0);
    assert(end_tag(100) =~= seq![60u8, 47u8, 100u8, 62u8]);
    if es.len() == 0 {
        assert(ee == Seq::<u8>::empty());
        assert(bytes.subrange(q + ln, q + ln + 4) =~= end_tag(100)) by {
            assert forall|j: int| 0 <= j < 4 implies bytes.subrange(q + ln, q + ln + 4)[j]
                == end_tag(100)[j] by {
                assert(bytes.subrange(q + ln, q + ln + 4)[j] == bytes.subrange(q, endq)[ln + j]);
                assert(rr[ln + j] == end_tag(100)[j]);
            }
        }
        lemma_token_dict_end_at(bytes, q + ln, base);
        let pk = DeState {
            pos: endq,
            peeked: Some(SpecToken::DictEnd),
            pending: false,
            eof: false,
            stack: base.drop_last(),
            ..st
        };
        assert(spec_fill(st0) == Ok::<DeState, DeError>(pk));
        assert(spec_fill(st) == Ok::<DeState, DeError>(pk));
        assert(spec_dict_next_key(st) == Ok::<(Option<Seq<u8>>, DeState), DeError>((None, pk)));
        assert(es =~= Seq::<(Seq<u8>, SpecValue)>::empty());
    } else {
        lemma_decode_entries_cons(st, q, lead, stk0, es, endq);
    }
}

/// The nonempty case of `lemma_decode_entries`.
#[verifier::rlimit(100)]
#[verifier::spinoff_prover]
proof fn lemma_decode_entries_cons(
    st: DeState,
    q: int,
    lead: Seq<u8>,
    stk0: Seq<OpenTag>,
    es: Seq<(Seq<u8>, SpecValue)>,
    endq: int,
)
    requires
        0 <= q <= endq,
        endq <= st.bytes.len(),
        is_scalar_trailing(lead),
        lead_matches(lead, stk0),
        stack_after_lead(lead, stk0).len() > 0,
        stack_after_lead(lead, stk0).last() == OpenTag::DictShort,
        st.bytes.subrange(q, endq) == lead + spec_emit_entries(es) + end_tag(100),
        entries_representable(es),
        at_region(st, q, stk0),
        es.len() > 0,
    ensures
        spec_decode_dict_items(st) == Ok::<(Seq<(Seq<u8>, SpecValue)>, DeState), DeError>(
            (
                es,
                DeState {
                    pos: endq,
                    peeked: Some(SpecToken::DictEnd),
                    pending: false,
                    eof: false,
                    stack: stack_after_lead(lead, stk0).drop_last(),
                    ..st
                },
            ),
        ),
    decreases es, 0int,
{
    let bytes = st.bytes;
    let len = bytes.len() as int;
    let ln = lead.len() as int;
    let base = stack_after_lead(lead, stk0);
    let ee = spec_emit_entries(es);
    let een = ee.len() as int;
    let rr = lead + ee + end_tag(100);
    let rn = rr.len() as int;
    let st0 = clean_at(st, q, stk0);
    lemma_concat3_index(lead, ee, end_tag(100));
    assert(rn == endq - q);
    assert(bytes.subrange(q, q + ln) =~= lead) by {
        assert forall|j: int| 0 <= j < ln implies bytes.subrange(q, q + ln)[j] == lead[j] by {
            assert(bytes.subrange(q, q + ln)[j] == bytes.subrange(q, endq)[j]);
        }
    }
    lemma_skip_lead(bytes, q, lead, stk0);
    assert(end_tag(100) =~= seq![60u8, 47u8, 100u8, 62u8]);
    {
        let k0 = es[0].0;
        let v0 = es[0].1;
        let rest = es.drop_first();
        let kb = spec_escape(k0);
        let kbn = kb.len() as int;
        lemma_escape_no_lt(k0);
        lemma_unescape_escape(k0);
        assert(ee == spec_emit_key(k0) + spec_emit_value(v0) + spec_emit_entries(rest));
        let ke = spec_emit_key(k0);
        let ev = spec_emit_value(v0);
        let er = spec_emit_entries(rest);
        let vn = ev.len() as int;
        lemma_trailing_of_emission(v0);
        lemma_pair_regions(bytes, q, lead, k0, ev, er, scalar_trailing(v0), endq);
        let kstart = q + ln;
        let keyend = kstart + 3 + kbn;
        let vstart = keyend + 4;
        let vend = vstart + vn;
        assert(end_tag(107) =~= seq![60u8, 47u8, 107u8, 62u8]);
        lemma_token_scalar_at(bytes, kstart, 107, kb, base);
        let pk = DeState {
            pos: keyend,
            peeked: Some(SpecToken::Key(k0)),
            pending: false,
            eof: false,
            stack: base.push(OpenTag::K),
            ..st
        };
        assert(spec_fill(st0) == Ok::<DeState, DeError>(pk));
        assert(spec_fill(st) == Ok::<DeState, DeError>(pk));
        let sta = clean_at(st, keyend, base.push(OpenTag::K));
        assert(spec_pop(pk) == Ok::<(SpecToken, DeState), DeError>((SpecToken::Key(k0), sta)));
        assert(spec_dict_next_key(st) == Ok::<(Option<Seq<u8>>, DeState), DeError>(
            (Some(k0), sta),
        ));
        assert(measure(st) >= 4 * (len - keyend) + 2);
        lemma_decode_emit(clean_at(st, vstart, base), vstart, base, v0);
        let fvv = match spec_fill(clean_at(st, vstart, base)) {
            Ok(fvv) => fvv,
            Err(_) => arbitrary(),
        };
        lemma_token_skip_end_at(bytes, keyend, 107, base.push(OpenTag::K));
        assert(base.push(OpenTag::K).drop_last() =~= base);
        assert(spec_fill(sta) == Ok::<DeState, DeError>(fvv)) by {
            assert(clean_at(st, vstart, base) == clean_at(sta, vstart, base));
        }
        assert(spec_dict_value_check(sta) == Ok::<DeState, DeError>(fvv));
        assert(0 <= measure(fvv) && measure(fvv) < measure(st)) by {
            assert(measure(fvv) == 4 * (len - fvv.pos) + 2);
        }
        assert(at_region(fvv, vstart, base));
        lemma_decode_emit(fvv, vstart, base, v0);
        let stw = after_value(fvv, vstart, base, v0);
        let tn = scalar_trailing(v0).len() as int;
        let wpos = vend - tn;
        assert(stw == clean_at(st, wpos, base + trailing_tag(v0)));
        assert(0 <= measure(stw) && measure(stw) < measure(st));
        lemma_trailing_matches(v0, base);
        lemma_decode_entries(stw, wpos, scalar_trailing(v0), base + trailing_tag(v0), rest, endq);
        assert((es[0].0, es[0].1) == es[0]);
        assert(seq![es[0]] + rest =~= es);
    }
}

/// Decoding the elements of an emitted sequence body from the running
/// index on, possibly after a leftover closing tag; the closing token is
/// consumed and pops the enclosing dictionary from the stack.
#[verifier::rlimit(100)]
#[verifier::spinoff_prover]
proof fn lemma_decode_items(
    st: DeState,
    q: int,
    lead: Seq<u8>,
    stk0: Seq<OpenTag>,
    xs: Seq<SpecValue>,
    idx: nat,
    endq: int,
)
    requires
        0 <= q <= endq,
        endq <= st.bytes.len(),
        is_scalar_trailing(lead),
        lead_matches(lead, stk0),
        stack_after_lead(lead, stk0).len() > 0,
        stack_after_lead(lead, stk0).last() == OpenTag::DictShort,
        st.bytes.subrange(q, endq) == lead + spec_emit_items(xs, idx) + end_tag(100),
        items_representable(xs),
        idx + xs.len() <= u64::MAX,
        at_region(st, q, stk0),
    ensures
        spec_decode_arr_items(st, idx) == Ok::<(Seq<SpecValue>, DeState), DeError>(
            (xs, clean_at(st, endq, stack_after_lead(lead, stk0).drop_last())),
        ),
    decreases xs, 1int,
{
    let bytes = st.bytes;
    let len = bytes.len() as int;
    let ln = lead.len() as int;
    let base = stack_after_lead(lead, stk0);
    let ee = spec_emit_items(xs, idx);
    let een = ee.len() as int;
    let rr = lead + ee + end_tag(100);
    let rn = rr.len() as int;
    let st0 = clean_at(st, q, stk0);
    lemma_concat3_index(lead, ee, end_tag(100));
    assert(rn == endq - q);
    assert(bytes.subrange(q, q + ln) =~= lead) by {
        assert forall|j: int| 0 <= j < ln implies bytes.subrange(q, q + ln)[j] == lead[j] by {
            assert(bytes.subrange(q, q + ln)[j] == bytes.subrange(q, endq)[j]);
        }
    }
    lemma_skip_lead(bytes, q, lead, stk0);
    assert(end_tag(100) =~= seq![60u8, 47u8, 100u8, 62u8]);
    if xs.len() == 0 {
        assert(ee == Seq::<u8>::empty());
        assert(bytes.subrange(q + ln, q + ln + 4) =~= end_tag(100)) by {
            assert forall|j: int| 0 <= j < 4 implies bytes.subrange(q + ln, q + ln + 4)[j]
                == end_tag(100)[j] by {
                assert(bytes.subrange(q + ln, q + ln + 4)[j] == bytes.subrange(q, endq)[ln + j]);
                assert(rr[ln + j] == end_tag(100)[j]);
            }
        }
        lemma_token_dict_end_at(bytes, q + ln, base);
        let pk = DeState {
            pos: endq,
            peeked: Some(SpecToken::DictEnd),
            pending: false,
            eof: false,
            stack: base.drop_last(),
            ..st
        };
        assert(spec_fill(st0) == Ok::<DeState, DeError>(pk));
        assert(spec_fill(st) == Ok::<DeState, DeError>(pk));
        assert(spec_pop(st) == Ok::<(SpecToken, DeState), DeError>(
            (SpecToken::DictEnd, clean_at(st, endq, base.drop_last())),
        ));
        assert(xs =~= Seq::<SpecValue>::empty());
    } else {
        lemma_decode_items_cons(st, q, lead, stk0, xs, idx, endq);
    }
}

/// The nonempty case of `lemma_decode_items`.
#[verifier::rlimit(100)]
#[verifier::spinoff_prover]
proof fn lemma_decode_items_cons(
    st: DeState,
    q: int,
    lead: Seq<u8>,
    stk0: Seq<OpenTag>,
    xs: Seq<SpecValue>,
    idx: nat,
    endq: int,
)
    requires
        0 <= q <= endq,
        endq <= st.bytes.len(),
        is_scalar_trailing(lead),
        lead_matches(lead, stk0),
        stack_after_lead(lead, stk0).len() > 0,
        stack_after_lead(lead, stk0).last() == OpenTag::DictShort,
        st.bytes.subrange(q, endq) == lead + spec_emit_items(xs, idx) + end_tag(100),
        items_representable(xs),
        idx + xs.len() <= u64::MAX,
        at_region(st, q, stk0),
        xs.len() > 0,
    ensures
        spec_decode_arr_items(st, idx) == Ok::<(Seq<SpecValue>, DeState), DeError>(
            (xs, clean_at(st, endq, stack_after_lead(lead, stk0).drop_last())),
        ),
    decreases xs, 0int,
{
    let bytes = st.bytes;
    let len = bytes.len() as int;
    let ln = lead.len() as int;
    let base = stack_after_lead(lead, stk0);
    let ee = spec_emit_items(xs, idx);
    let een = ee.len() as int;
    let rr = lead + ee + end_tag(100);
    let rn = rr.len() as int;
    let st0 = clean_at(st, q, stk0);
    lemma_concat3_index(lead, ee, end_tag(100));
    assert(rn == endq - q);
    assert(bytes.subrange(q, q + ln) =~= lead) by {
        assert forall|j: int| 0 <= j < ln implies bytes.subrange(q, q + ln)[j] == lead[j] by {
            assert(bytes.subrange(q, q + ln)[j] == bytes.subrange(q, endq)[j]);
        }
    }
    lemma_skip_lead(bytes, q, lead, stk0);
    assert(end_tag(100) =~= seq![60u8, 47u8, 100u8, 62u8]);
    {
        let x0 = xs[0];
        let rest = xs.drop_first();
        let key = spec_array_key(idx);
        let kb = spec_escape(key);
        let kbn = kb.len() as int;
        crate::num::lemma_spec_digits_wf(idx);
        lemma_escape_no_lt(key);
        lemma_unescape_escape(key);
        assert(ee == spec_emit_index_key(idx) + spec_emit_value(x0) + spec_emit_items(
            rest,
            idx + 1,
        ));
        assert(spec_emit_index_key(idx) == spec_emit_key(key));
        let ke = spec_emit_key(key);
        let ev = spec_emit_value(x0);
        let er = spec_emit_items(rest, idx + 1);
        let vn = ev.len() as int;
        lemma_trailing_of_emission(x0);
        lemma_pair_regions(bytes, q, lead, key, ev, er, scalar_trailing(x0), endq);
        let kstart = q + ln;
        let keyend = kstart + 3 + kbn;
        let vstart = keyend + 4;
        let vend = vstart + vn;
        assert(end_tag(107) =~= seq![60u8, 47u8, 107u8, 62u8]);
        lemma_token_scalar_at(bytes, kstart, 107, kb, base);
        let pk = DeState {
            pos: keyend,
            peeked: Some(SpecToken::Key(key)),
            pending: false,
            eof: false,
            stack: base.push(OpenTag::K),
            ..st
        };
        assert(spec_fill(st0) == Ok::<DeState, DeError>(pk));
        assert(spec_fill(st) == Ok::<DeState, DeError>(pk));
        let sta = clean_at(st, keyend, base.push(OpenTag::K));
        assert(spec_pop(st) == Ok::<(SpecToken, DeState), DeError>((SpecToken::Key(key), sta)));
        assert(idx + 1 <= u64::MAX);
        assert(measure(st) >= 4 * (len - keyend) + 2);
        lemma_decode_emit(clean_at(st, vstart, base), vstart, base, x0);
        let fvv = match spec_fill(clean_at(st, vstart, base)) {
            Ok(fvv) => fvv,
            Err(_) => arbitrary(),
        };
        lemma_token_skip_end_at(bytes, keyend, 107, base.push(OpenTag::K));
        assert(base.push(OpenTag::K).drop_last() =~= base);
        assert(spec_fill(sta) == Ok::<DeState, DeError>(fvv)) by {
            assert(clean_at(st, vstart, base) == clean_at(sta, vstart, base));
        }
        assert(spec_peek(sta) == Ok::<(SpecToken, DeState), DeError>((fvv.peeked.unwrap(), fvv)));
        assert(spec_arr_next(st, idx) == Ok::<(bool, DeState), DeError>((true, fvv)));
        assert(0 <= measure(fvv) && measure(fvv) < measure(st)) by {
            assert(measure(fvv) == 4 * (len - fvv.pos) + 2);
        }
        assert(at_region(fvv, vstart, base));
        lemma_decode_emit(fvv, vstart, base, x0);
        let stw = after_value(fvv, vstart, base, x0);
        let tn = scalar_trailing(x0).len() as int;
        let wpos = vend - tn;
        assert(stw == clean_at(st, wpos, base + trailing_tag(x0)));
        assert(0 <= measure(stw) && measure(stw) < measure(st));
        lemma_trailing_matches(x0, base);
        lemma_decode_items(stw, wpos, scalar_trailing(x0), base + trailing_tag(x0), rest, idx + 1, endq);
        assert(seq![xs[0]] + rest =~= xs);
    }
}

/// Every representable value decodes back from its own emitted markup: the
/// round trip holds not only for scalars but for dictionaries and
/// sequences emitted under the array convention.
pub proof fn lemma_round_trip_value(v: SpecValue)
    requires
        representable(v),
    ensures
        ({
            let st = spec_init_state(spec_emit_value(v));
            spec_decode_any(st) matches Ok(p) && p.0 == v
        }),
{
    let st = spec_init_state(spec_emit_value(v));
    assert(st.bytes.subrange(0, spec_emit_value(v).len() as int) =~= spec_emit_value(v));
    lemma_decode_emit(st, 0, Seq::empty(), v);
}

} // verus!


