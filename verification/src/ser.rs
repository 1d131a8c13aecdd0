//! The symmetric encoding path: scalar values are emitted as their tag
//! pair with the value's text form, booleans as the self-closing boolean
//! tag, into a growing markup buffer. The emitted markup tokenizes back to
//! the value it came from (see the round-trip laws).

use vstd::prelude::*;

use crate::error::SerError;
use crate::num::spec_digits;
use crate::num::spec_fmt_int;
use crate::num::fmt_i64;
use crate::num::fmt_u64;
use crate::text::spec_escape;
use crate::text::escape;
use crate::value::SpecValue;
use crate::value::Value;
use crate::value::entries_dview;
use crate::value::values_dview;
use crate::value::lemma_entries_snoc;
use crate::value::lemma_values_snoc;

verus! {

/// The markup text of a signed integer scalar.
pub open spec fn spec_emit_int(v: int) -> Seq<u8> {
    seq![60u8, 105u8, 62u8] + spec_fmt_int(v) + seq![60u8, 47u8, 105u8, 62u8]
}

/// The markup text of an unsigned integer scalar.
pub open spec fn spec_emit_uint(v: int) -> Seq<u8> {
    spec_emit_int(v)
}

/// The markup text of the boolean scalar: the self-closing boolean tag.
pub open spec fn spec_emit_bool() -> Seq<u8> {
    seq![60u8, 116u8, 47u8, 62u8]
}

/// The markup text of a string scalar: the tag pair around the escaped
/// text.
pub open spec fn spec_emit_str(s: Seq<u8>) -> Seq<u8> {
    seq![60u8, 115u8, 62u8] + spec_escape(s) + seq![60u8, 47u8, 115u8, 62u8]
}

/// The markup text of a real scalar, its text form taken as given.
pub open spec fn spec_emit_real(s: Seq<u8>) -> Seq<u8> {
    seq![60u8, 114u8, 62u8] + spec_escape(s) + seq![60u8, 47u8, 114u8, 62u8]
}

/// Emits the token grammar as markup text into an owned buffer.
pub struct Serializer {
    out: Vec<u8>,
}

impl View for Serializer {
    type V = Seq<u8>;

    closed spec fn view(&self) -> Seq<u8> {
        self.out@
    }
}

impl Serializer {
    pub fn new() -> (r: Serializer)
        ensures
            r@ == Seq::<u8>::empty(),
    {
        Serializer { out: Vec::new() }
    }

    /// Hand the emitted markup out.
    pub fn into_inner(self) -> (r: Vec<u8>)
        ensures
            r@ == self@,
    {
        self.out
    }

    /// Emit a signed 64-bit scalar.
    pub fn serialize_i64(&mut self, v: i64) -> (r: Result<(), SerError>)
        ensures
            r is Ok,
            final(self)@ == old(self)@ + spec_emit_int(v as int),
    {
        let ghost before = self@;
        self.out.push(60);
        self.out.push(105);
        self.out.push(62);
        let mut digits = fmt_i64(v);
        self.out.append(&mut digits);
        self.out.push(60);
        self.out.push(47);
        self.out.push(105);
        self.out.push(62);
        proof {
            assert(self.out@ =~= before + spec_emit_int(v as int));
        }
        Ok(())
    }

    /// Emit a signed 32-bit scalar.
    pub fn serialize_i32(&mut self, v: i32) -> (r: Result<(), SerError>)
        ensures
            r is Ok,
            final(self)@ == old(self)@ + spec_emit_int(v as int),
    {
        self.serialize_i64(v as i64)
    }

    /// Emit an unsigned 64-bit scalar.
    pub fn serialize_u64(&mut self, v: u64) -> (r: Result<(), SerError>)
        ensures
            r is Ok,
            final(self)@ == old(self)@ + spec_emit_uint(v as int),
    {
        let ghost before = self@;
        self.out.push(60);
        self.out.push(105);
        self.out.push(62);
        let mut digits = fmt_u64(v);
        self.out.append(&mut digits);
        self.out.push(60);
        self.out.push(47);
        self.out.push(105);
        self.out.push(62);
        proof {
            assert(self.out@ =~= before + spec_emit_uint(v as int));
        }
        Ok(())
    }

    /// Emit an unsigned 32-bit scalar.
    pub fn serialize_u32(&mut self, v: u32) -> (r: Result<(), SerError>)
        ensures
            r is Ok,
            final(self)@ == old(self)@ + spec_emit_uint(v as int),
    {
        self.serialize_u64(v as u64)
    }

    /// Emit a boolean as the self-closing boolean tag; the format encodes
    /// no false, so the tag stands for presence.
    pub fn serialize_bool(&mut self, _v: bool) -> (r: Result<(), SerError>)
        ensures
            r is Ok,
            final(self)@ == old(self)@ + spec_emit_bool(),
    {
        let ghost before = self@;
        self.out.push(60);
        self.out.push(116);
        self.out.push(47);
        self.out.push(62);
        proof {
            assert(self.out@ =~= before + spec_emit_bool());
        }
        Ok(())
    }

    /// Emit a string scalar, escaping its text.
    pub fn serialize_str(&mut self, s: &[u8]) -> (r: Result<(), SerError>)
        ensures
            r is Ok,
            final(self)@ == old(self)@ + spec_emit_str(s@),
    {
        let ghost before = self@;
        self.out.push(60);
        self.out.push(115);
        self.out.push(62);
        let mut body = escape(s);
        self.out.append(&mut body);
        self.out.push(60);
        self.out.push(47);
        self.out.push(115);
        self.out.push(62);
        proof {
            assert(self.out@ =~= before + spec_emit_str(s@));
        }
        Ok(())
    }

    /// Emit a real scalar from its text form, escaping it.
    pub fn serialize_real_text(&mut self, s: &[u8]) -> (r: Result<(), SerError>)
        ensures
            r is Ok,
            final(self)@ == old(self)@ + spec_emit_real(s@),
    {
        let ghost before = self@;
        self.out.push(60);
        self.out.push(114);
        self.out.push(62);
        let mut body = escape(s);
        self.out.append(&mut body);
        self.out.push(60);
        self.out.push(47);
        self.out.push(114);
        self.out.push(62);
        proof {
            assert(self.out@ =~= before + spec_emit_real(s@));
        }
        Ok(())
    }
}


/// The markup text of a dictionary key: the key tag pair around the
/// escaped key text.
pub open spec fn spec_emit_key(k: Seq<u8>) -> Seq<u8> {
    seq![60u8, 107u8, 62u8] + spec_escape(k) + seq![60u8, 47u8, 107u8, 62u8]
}

/// The sequence marker a dictionary-encoded sequence opens with: the
/// marker key and the boolean token.
pub open spec fn spec_emit_isarr() -> Seq<u8> {
    spec_emit_key(seq![95u8, 105u8, 115u8, 65u8, 114u8, 114u8]) + spec_emit_bool()
}

/// The index key of the sequence element at `i`.
pub open spec fn spec_emit_index_key(i: nat) -> Seq<u8> {
    spec_emit_key(seq![107u8, 95u8] + spec_digits(i))
}

/// The markup text of a value: scalars as their tag pairs, dictionaries as
/// the dict tag pair around their key/value pairs, sequences as the
/// dictionary convention with the marker and gap-free index keys.
pub open spec fn spec_emit_value(v: SpecValue) -> Seq<u8>
    decreases v,
{
    match v {
        SpecValue::Str(s) => spec_emit_str(s),
        SpecValue::Int(n) => spec_emit_int(n as int),
        SpecValue::Real(s) => spec_emit_real(s),
        SpecValue::Bool(_) => spec_emit_bool(),
        SpecValue::Dict(es) => seq![60u8, 100u8, 62u8] + spec_emit_entries(es) + seq![
            60u8,
            47u8,
            100u8,
            62u8,
        ],
        SpecValue::Arr(xs) => seq![60u8, 100u8, 62u8] + spec_emit_isarr() + spec_emit_items(xs, 0)
            + seq![60u8, 47u8, 100u8, 62u8],
    }
}

/// The markup text of a run of key/value pairs.
pub open spec fn spec_emit_entries(es: Seq<(Seq<u8>, SpecValue)>) -> Seq<u8>
    decreases es,
{
    if es.len() == 0 {
        Seq::empty()
    } else {
        spec_emit_key(es[0].0) + spec_emit_value(es[0].1) + spec_emit_entries(es.drop_first())
    }
}

/// The markup text of a run of sequence elements from index `i` on.
pub open spec fn spec_emit_items(xs: Seq<SpecValue>, i: nat) -> Seq<u8>
    decreases xs,
{
    if xs.len() == 0 {
        Seq::empty()
    } else {
        spec_emit_index_key(i) + spec_emit_value(xs[0]) + spec_emit_items(xs.drop_first(), i + 1)
    }
}

/// Emitting one more pair appends its markup.
proof fn lemma_emit_entries_snoc(es: Seq<(Seq<u8>, SpecValue)>, p: (Seq<u8>, SpecValue))
    ensures
        spec_emit_entries(es.push(p)) == spec_emit_entries(es) + spec_emit_key(p.0)
            + spec_emit_value(p.1),
    decreases es,
{
    if es.len() == 0 {
        assert(es.push(p)[0] == p);
        assert(es.push(p).drop_first() =~= Seq::<(Seq<u8>, SpecValue)>::empty());
        assert(spec_emit_entries(es.push(p)) == spec_emit_key(p.0) + spec_emit_value(p.1)
            + spec_emit_entries(es.push(p).drop_first()));
        assert(spec_emit_entries(Seq::<(Seq<u8>, SpecValue)>::empty()) == Seq::<u8>::empty());
        assert(spec_emit_entries(es.push(p)) =~= spec_emit_key(p.0) + spec_emit_value(p.1));
        assert(spec_emit_entries(es) + spec_emit_key(p.0) + spec_emit_value(p.1) =~= spec_emit_key(
            p.0,
        ) + spec_emit_value(p.1));
    } else {
        lemma_emit_entries_snoc(es.drop_first(), p);
        assert(es.push(p).drop_first() =~= es.drop_first().push(p));
        assert(es.push(p)[0] == es[0]);
        assert(spec_emit_key(es[0].0) + spec_emit_value(es[0].1) + (spec_emit_entries(
            es.drop_first(),
        ) + spec_emit_key(p.0) + spec_emit_value(p.1)) =~= (spec_emit_key(es[0].0)
            + spec_emit_value(es[0].1) + spec_emit_entries(es.drop_first())) + spec_emit_key(p.0)
            + spec_emit_value(p.1));
    }
}

/// Emitting one more element appends its markup at the next index.
proof fn lemma_emit_items_snoc(xs: Seq<SpecValue>, x: SpecValue, i: nat)
    ensures
        spec_emit_items(xs.push(x), i) == spec_emit_items(xs, i) + spec_emit_index_key(
            i + xs.len(),
        ) + spec_emit_value(x),
    decreases xs,
{
    if xs.len() == 0 {
        assert(xs.push(x)[0] == x);
        assert(xs.push(x).drop_first() =~= Seq::<SpecValue>::empty());
        assert(spec_emit_items(xs.push(x), i) == spec_emit_index_key(i) + spec_emit_value(x)
            + spec_emit_items(xs.push(x).drop_first(), i + 1));
        assert(spec_emit_items(Seq::<SpecValue>::empty(), i + 1) == Seq::<u8>::empty());
        assert(spec_emit_items(xs.push(x), i) =~= spec_emit_index_key(i) + spec_emit_value(x));
        assert(spec_emit_items(xs, i) + spec_emit_index_key(i + xs.len()) + spec_emit_value(x)
            =~= spec_emit_index_key(i) + spec_emit_value(x));
    } else {
        lemma_emit_items_snoc(xs.drop_first(), x, i + 1);
        assert(xs.push(x).drop_first() =~= xs.drop_first().push(x));
        assert(xs.push(x)[0] == xs[0]);
        assert(spec_emit_index_key(i) + spec_emit_value(xs[0]) + (spec_emit_items(
            xs.drop_first(),
            i + 1,
        ) + spec_emit_index_key(i + 1 + xs.drop_first().len()) + spec_emit_value(x)) =~= (
        spec_emit_index_key(i) + spec_emit_value(xs[0]) + spec_emit_items(xs.drop_first(), i + 1))
            + spec_emit_index_key(i + xs.len()) + spec_emit_value(x));
    }
}

impl Serializer {
    /// Emit a dictionary key, escaping its text.
    pub fn serialize_key(&mut self, k: &[u8]) -> (r: Result<(), SerError>)
        ensures
            r is Ok,
            final(self)@ == old(self)@ + spec_emit_key(k@),
    {
        let ghost before = self@;
        self.out.push(60);
        self.out.push(107);
        self.out.push(62);
        let mut body = escape(k);
        self.out.append(&mut body);
        self.out.push(60);
        self.out.push(47);
        self.out.push(107);
        self.out.push(62);
        proof {
            assert(self.out@ =~= before + spec_emit_key(k@));
        }
        Ok(())
    }

    /// Emit a value: the structural mirror of the decoder's dictionary and
    /// sequence conventions.
    #[verifier::rlimit(50)]
    pub fn serialize_value(&mut self, v: &Value) -> (r: Result<(), SerError>)
        ensures
            r is Ok,
            final(self)@ == old(self)@ + spec_emit_value(v.deep_view()),
        decreases v,
    {
        match v {
            Value::Str(s) => self.serialize_str(s.as_slice()),
            Value::Int(n) => self.serialize_i32(*n),
            Value::Real(s) => self.serialize_real_text(s.as_slice()),
            Value::Bool(b) => self.serialize_bool(*b),
            Value::Dict(es) => {
                let ghost before = self@;
                self.out.push(60);
                self.out.push(100);
                self.out.push(62);
                let mut i: usize = 0;
                proof {
                    assert(entries_dview(es@.take(0)) =~= Seq::<(Seq<u8>, SpecValue)>::empty());
                    assert(self.out@ =~= before + seq![60u8, 100u8, 62u8] + spec_emit_entries(
                        entries_dview(es@.take(0)),
                    ));
                }
                while i < es.len()
                    invariant
                        *v == Value::Dict(*es),
                        i <= es@.len(),
                        self@ == before + seq![60u8, 100u8, 62u8] + spec_emit_entries(
                            entries_dview(es@.take(i as int)),
                        ),
                    decreases es@.len() - i,
                {
                    let ghost pre = entries_dview(es@.take(i as int));
                    let entry = &es[i];
                    proof {
                        assert(decreases_to!(*v => v->Dict_0));
                        vstd::std_specs::vec::axiom_vec_index_decreases::<(Vec<u8>, Value)>(
                            *es,
                            i as int,
                        );
                        assert(decreases_to!(es@[i as int] => es@[i as int].1));
                        assert(decreases_to!(*v => entry.1));
                    }
                    match self.serialize_key(entry.0.as_slice()) {
                        Ok(_) => {},
                        Err(e) => return Err(e),
                    }
                    match self.serialize_value(&entry.1) {
                        Ok(_) => {},
                        Err(e) => return Err(e),
                    }
                    proof {
                        lemma_entries_snoc(es@.take(i as int), es@[i as int]);
                        assert(es@.take(i + 1) =~= es@.take(i as int).push(es@[i as int]));
                        lemma_emit_entries_snoc(
                            pre,
                            (es@[i as int].0@, es@[i as int].1.deep_view()),
                        );
                        assert(entries_dview(es@.take(i + 1)) == pre.push(
                            (es@[i as int].0@, es@[i as int].1.deep_view()),
                        ));
                        assert(self@ =~= before + seq![60u8, 100u8, 62u8] + spec_emit_entries(
                            entries_dview(es@.take(i + 1)),
                        ));
                    }
                    i += 1;
                }
                self.out.push(60);
                self.out.push(47);
                self.out.push(100);
                self.out.push(62);
                proof {
                    assert(es@.take(es@.len() as int) =~= es@);
                    assert(self.out@ =~= before + spec_emit_value(v.deep_view()));
                }
                Ok(())
            },
            Value::Arr(xs) => {
                let ghost before = self@;
                self.out.push(60);
                self.out.push(100);
                self.out.push(62);
                let mut marker: Vec<u8> = Vec::new();
                marker.push(95);
                marker.push(105);
                marker.push(115);
                marker.push(65);
                marker.push(114);
                marker.push(114);
                proof {
                    assert(marker@ =~= seq![95u8, 105u8, 115u8, 65u8, 114u8, 114u8]);
                }
                match self.serialize_key(marker.as_slice()) {
                    Ok(_) => {},
                    Err(e) => return Err(e),
                }
                match self.serialize_bool(true) {
                    Ok(_) => {},
                    Err(e) => return Err(e),
                }
                let mut i: usize = 0;
                proof {
                    assert(values_dview(xs@.take(0)) =~= Seq::<SpecValue>::empty());
                    assert(self@ =~= before + seq![60u8, 100u8, 62u8] + spec_emit_isarr()
                        + spec_emit_items(values_dview(xs@.take(0)), 0));
                }
                while i < xs.len()
                    invariant
                        *v == Value::Arr(*xs),
                        i <= xs@.len(),
                        self@ == before + seq![60u8, 100u8, 62u8] + spec_emit_isarr()
                            + spec_emit_items(values_dview(xs@.take(i as int)), 0),
                        values_dview(xs@.take(i as int)).len() == i,
                    decreases xs@.len() - i,
                {
                    let ghost pre = values_dview(xs@.take(i as int));
                    let mut keybytes: Vec<u8> = Vec::new();
                    keybytes.push(107);
                    keybytes.push(95);
                    let mut digits = fmt_u64(i as u64);
                    keybytes.append(&mut digits);
                    proof {
                        assert(keybytes@ =~= seq![107u8, 95u8] + spec_digits(i as nat));
                    }
                    match self.serialize_key(keybytes.as_slice()) {
                        Ok(_) => {},
                        Err(e) => return Err(e),
                    }
                    let element = &xs[i];
                    proof {
                        assert(decreases_to!(*v => v->Arr_0));
                        vstd::std_specs::vec::axiom_vec_index_decreases::<Value>(*xs, i as int);
                        assert(decreases_to!(*v => *element));
                    }
                    match self.serialize_value(element) {
                        Ok(_) => {},
                        Err(e) => return Err(e),
                    }
                    proof {
                        lemma_values_snoc(xs@.take(i as int), xs@[i as int]);
                        assert(xs@.take(i + 1) =~= xs@.take(i as int).push(xs@[i as int]));
                        lemma_emit_items_snoc(pre, xs@[i as int].deep_view(), 0);
                        assert(values_dview(xs@.take(i + 1)) == pre.push(
                            xs@[i as int].deep_view(),
                        ));
                        assert(self@ =~= before + seq![60u8, 100u8, 62u8] + spec_emit_isarr()
                            + spec_emit_items(values_dview(xs@.take(i + 1)), 0));
                    }
                    i += 1;
                }
                self.out.push(60);
                self.out.push(47);
                self.out.push(100);
                self.out.push(62);
                proof {
                    assert(xs@.take(xs@.len() as int) =~= xs@);
                    assert(self.out@ =~= before + spec_emit_value(v.deep_view()));
                }
                Ok(())
            },
        }
    }
}

} // verus!

