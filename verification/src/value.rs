//! Self-describing decoding: a destination that does not commit to a shape
//! up front decodes into `Value`, chosen by one token of lookahead —
//! dictionaries and the array convention for composites, raw text, 32-bit
//! integers, raw real text and the boolean for scalars.

use vstd::prelude::*;

use crate::de::DeState;
use crate::de::Deserializer;
use crate::de::DictReader;
use crate::de::ArrayReader;
use crate::de::GdDecode;
use crate::de::can_read;
use crate::de::measure;
use crate::de::spec_pop;
use crate::de::spec_peek;
use crate::de::spec_dict_next_key;
use crate::de::spec_dict_value_check;
use crate::de::spec_arr_next;
use crate::de::lemma_pop_progress;
use crate::de::lemma_fill_progress;
use crate::error::DeError;
use crate::num::spec_parse_i32;
use crate::num::parse_i32;
use crate::token::DeEvent;
use crate::token::SpecToken;
use crate::token::bytes_eq;

verus! {

broadcast use vstd::std_specs::vec::group_vec_axioms;

/// A decoded value of no particular destination shape. Real numbers keep
/// their raw text: interpreting them under a numeric grammar is the
/// caller's choice of destination shape.
#[derive(Debug, PartialEq, Eq)]
pub enum Value {
    Str(Vec<u8>),
    Int(i32),
    Real(Vec<u8>),
    Bool(bool),
    Dict(Vec<(Vec<u8>, Value)>),
    Arr(Vec<Value>),
}

/// The ghost shape of a decoded value.
pub enum SpecValue {
    Str(Seq<u8>),
    Int(i32),
    Real(Seq<u8>),
    Bool(bool),
    Dict(Seq<(Seq<u8>, SpecValue)>),
    Arr(Seq<SpecValue>),
}

/// The ghost shape of an exec value.
pub open spec fn value_dview(v: Value) -> SpecValue
    decreases v,
{
    match v {
        Value::Str(b) => SpecValue::Str(b@),
        Value::Int(n) => SpecValue::Int(n),
        Value::Real(b) => SpecValue::Real(b@),
        Value::Bool(b) => SpecValue::Bool(b),
        Value::Dict(es) => SpecValue::Dict(entries_dview(es@)),
        Value::Arr(xs) => SpecValue::Arr(values_dview(xs@)),
    }
}

/// The ghost shape of a run of key/value entries.
pub open spec fn entries_dview(s: Seq<(Vec<u8>, Value)>) -> Seq<(Seq<u8>, SpecValue)>
    decreases s,
{
    if s.len() == 0 {
        Seq::empty()
    } else {
        seq![(s[0].0@, value_dview(s[0].1))] + entries_dview(s.drop_first())
    }
}

/// The ghost shape of a run of values.
pub open spec fn values_dview(s: Seq<Value>) -> Seq<SpecValue>
    decreases s,
{
    if s.len() == 0 {
        Seq::empty()
    } else {
        seq![value_dview(s[0])] + values_dview(s.drop_first())
    }
}

impl DeepView for Value {
    type V = SpecValue;

    open spec fn deep_view(&self) -> SpecValue {
        value_dview(*self)
    }
}

/// The key that marks a dictionary as a sequence.
pub open spec fn isarr_key() -> Seq<u8> {
    seq![95u8, 105u8, 115u8, 65u8, 114u8, 114u8]
}

/// What self-describing decoding yields from a session state: one token of
/// lookahead chooses the shape. The measure guards make the mutual
/// recursion visibly well-founded; consuming tokens always shrinks the
/// measure, so the guarded branches are the ones taken.
pub open spec fn spec_decode_any(st: DeState) -> Result<(SpecValue, DeState), DeError>
    decreases measure(st), 2int,
{
    match spec_pop(st) {
        Err(e) => Err(e),
        Ok((t, st1)) => match t {
            SpecToken::Integer(x) => match spec_parse_i32(x) {
                Some(v) => Ok((SpecValue::Int(v), st1)),
                None => Err(DeError::Deserialization),
            },
            SpecToken::Str(x) => Ok((SpecValue::Str(x), st1)),
            SpecToken::Key(x) => Ok((SpecValue::Str(x), st1)),
            SpecToken::Real(x) => Ok((SpecValue::Real(x), st1)),
            SpecToken::True => Ok((SpecValue::Bool(true), st1)),
            SpecToken::DictStart => match spec_peek(st1) {
                Err(e) => Err(e),
                Ok((t2, st2)) => match t2 {
                    SpecToken::Key(k) => if k == isarr_key() {
                        match spec_pop(st2) {
                            Err(e) => Err(e),
                            Ok((_, st3)) => match spec_pop(st3) {
                                Err(e) => Err(e),
                                Ok((t4, st4)) => match t4 {
                                    SpecToken::True => if 0 <= measure(st4) && measure(st4) < measure(st) {
                                        match spec_decode_arr_items(st4, 0) {
                                            Err(e) => Err(e),
                                            Ok((items, st5)) => Ok((SpecValue::Arr(items), st5)),
                                        }
                                    } else {
                                        Err(DeError::Deserialization)
                                    },
                                    _ => Err(DeError::Deserialization),
                                },
                            },
                        }
                    } else {
                        if 0 <= measure(st2) && measure(st2) < measure(st) {
                            spec_decode_dict_value(st2)
                        } else {
                            Err(DeError::Deserialization)
                        }
                    },
                    SpecToken::DictEnd => if 0 <= measure(st2) && measure(st2) < measure(st) {
                        spec_decode_dict_value(st2)
                    } else {
                        Err(DeError::Deserialization)
                    },
                    _ => Err(DeError::Deserialization),
                },
            },
            _ => Err(DeError::Deserialization),
        },
    }
}

/// Dictionary contents plus the structural decoder's own termination pop of
/// the closing token.
pub open spec fn spec_decode_dict_value(st: DeState) -> Result<(SpecValue, DeState), DeError>
    decreases measure(st), 1int,
{
    match spec_decode_dict_items(st) {
        Err(e) => Err(e),
        Ok((entries, st1)) => match spec_pop(st1) {
            Err(e) => Err(e),
            Ok((t, st2)) => match t {
                SpecToken::DictEnd => Ok((SpecValue::Dict(entries), st2)),
                _ => Err(DeError::Deserialization),
            },
        },
    }
}

/// The key/value pairs of a dictionary, one peeked key and one decoded
/// value per step, ending (without consuming) at the closing token.
pub open spec fn spec_decode_dict_items(st: DeState) -> Result<
    (Seq<(Seq<u8>, SpecValue)>, DeState),
    DeError,
>
    decreases measure(st), 0int,
{
    match spec_dict_next_key(st) {
        Err(e) => Err(e),
        Ok((None, st1)) => Ok((Seq::empty(), st1)),
        Ok((Some(k), st1)) => match spec_dict_value_check(st1) {
            Err(e) => Err(e),
            Ok(st2) => if 0 <= measure(st2) && measure(st2) < measure(st) {
                match spec_decode_any(st2) {
                    Err(e) => Err(e),
                    Ok((v, st3)) => if 0 <= measure(st3) && measure(st3) < measure(st) {
                        match spec_decode_dict_items(st3) {
                            Err(e) => Err(e),
                            Ok((rest, st4)) => Ok((seq![(k, v)] + rest, st4)),
                        }
                    } else {
                        Err(DeError::Deserialization)
                    },
                }
            } else {
                Err(DeError::Deserialization)
            },
        },
    }
}

/// The elements of a dictionary-encoded sequence from the running index
/// on: each step consumes the index key and decodes one element; the
/// closing token is consumed and ends the sequence.
pub open spec fn spec_decode_arr_items(st: DeState, idx: nat) -> Result<
    (Seq<SpecValue>, DeState),
    DeError,
>
    decreases measure(st), 0int,
{
    match spec_arr_next(st, idx) {
        Err(e) => Err(e),
        Ok((false, st1)) => Ok((Seq::empty(), st1)),
        Ok((true, st1)) => if 0 <= measure(st1) && measure(st1) < measure(st) {
            match spec_decode_any(st1) {
                Err(e) => Err(e),
                Ok((v, st2)) => if 0 <= measure(st2) && measure(st2) < measure(st) {
                    match spec_decode_arr_items(st2, idx + 1) {
                        Err(e) => Err(e),
                        Ok((rest, st3)) => Ok((seq![v] + rest, st3)),
                    }
                } else {
                    Err(DeError::Deserialization)
                },
            }
        } else {
            Err(DeError::Deserialization)
        },
    }
}


/// Appending an entry appends its ghost shape.
pub proof fn lemma_entries_snoc(s: Seq<(Vec<u8>, Value)>, p: (Vec<u8>, Value))
    ensures
        entries_dview(s.push(p)) == entries_dview(s) + seq![(p.0@, value_dview(p.1))],
    decreases s,
{
    if s.len() == 0 {
        assert(s.push(p)[0] == p);
        assert(s.push(p).drop_first() =~= Seq::<(Vec<u8>, Value)>::empty());
        assert(entries_dview(s.push(p)) == seq![(p.0@, value_dview(p.1))] + entries_dview(
            s.push(p).drop_first(),
        ));
        assert(entries_dview(Seq::<(Vec<u8>, Value)>::empty()) == Seq::<
            (Seq<u8>, SpecValue),
        >::empty());
        assert(entries_dview(s.push(p)) =~= seq![(p.0@, value_dview(p.1))]);
        assert(entries_dview(s) + seq![(p.0@, value_dview(p.1))] =~= seq![
            (p.0@, value_dview(p.1)),
        ]);
    } else {
        lemma_entries_snoc(s.drop_first(), p);
        assert(s.push(p).drop_first() =~= s.drop_first().push(p));
        assert(s.push(p)[0] == s[0]);
        assert(seq![(s[0].0@, value_dview(s[0].1))] + (entries_dview(s.drop_first()) + seq![
            (p.0@, value_dview(p.1)),
        ]) =~= (seq![(s[0].0@, value_dview(s[0].1))] + entries_dview(s.drop_first())) + seq![
            (p.0@, value_dview(p.1)),
        ]);
    }
}

/// Appending a value appends its ghost shape.
pub proof fn lemma_values_snoc(s: Seq<Value>, v: Value)
    ensures
        values_dview(s.push(v)) == values_dview(s) + seq![value_dview(v)],
    decreases s,
{
    if s.len() == 0 {
        assert(s.push(v)[0] == v);
        assert(s.push(v).drop_first() =~= Seq::<Value>::empty());
        assert(values_dview(s.push(v)) == seq![value_dview(v)] + values_dview(
            s.push(v).drop_first(),
        ));
        assert(values_dview(Seq::<Value>::empty()) == Seq::<SpecValue>::empty());
        assert(values_dview(s.push(v)) =~= seq![value_dview(v)]);
        assert(values_dview(s) + seq![value_dview(v)] =~= seq![value_dview(v)]);
    } else {
        lemma_values_snoc(s.drop_first(), v);
        assert(s.push(v).drop_first() =~= s.drop_first().push(v));
        assert(s.push(v)[0] == s[0]);
        assert(seq![value_dview(s[0])] + (values_dview(s.drop_first()) + seq![value_dview(v)]) =~= (
        seq![value_dview(s[0])] + values_dview(s.drop_first())) + seq![value_dview(v)]);
    }
}

impl Deserializer {
    /// Self-describing decode: one token of lookahead chooses the shape and
    /// the result mirrors `spec_decode_any` exactly.
    #[verifier::rlimit(100)]
    #[verifier::spinoff_prover]
    pub fn deserialize_any(&mut self) -> (r: Result<Value, DeError>)
        requires
            old(self)@.wf(),
            can_read(old(self)@),
        ensures
            final(self)@.wf(),
            final(self)@.bytes == old(self)@.bytes,
            final(self)@.header == old(self)@.header,
            match r {
                Ok(v) => spec_decode_any(old(self)@) == Ok::<(SpecValue, DeState), DeError>(
                    (value_dview(v), final(self)@),
                ) && can_read(final(self)@) && measure(final(self)@) < measure(old(self)@),
                Err(e) => spec_decode_any(old(self)@) == Err::<(SpecValue, DeState), DeError>(e),
            },
        decreases measure(old(self)@), 2int,
    {
        let ghost st0 = self@;
        proof {
            lemma_pop_progress(st0);
        }
        let t = match self.next() {
            Ok(t) => t,
            Err(e) => return Err(e),
        };
        match t {
            DeEvent::Integer(x) => match parse_i32(x.as_slice()) {
                Some(v) => Ok(Value::Int(v)),
                None => Err(DeError::Deserialization),
            },
            DeEvent::Str(x) => Ok(Value::Str(x)),
            DeEvent::Key(x) => Ok(Value::Str(x)),
            DeEvent::Real(x) => Ok(Value::Real(x)),
            DeEvent::True => Ok(Value::Bool(true)),
            DeEvent::DictStart => {
                proof {
                    lemma_fill_progress(self@);
                }
                let t2 = match self.peek() {
                    Ok(t) => t,
                    Err(e) => return Err(e),
                };
                match t2 {
                    DeEvent::Key(k) => {
                        if bytes_eq(k.as_slice(), &[95, 105, 115, 65, 114, 114]) {
                            proof {
                                lemma_pop_progress(self@);
                            }
                            match self.next() {
                                Ok(_) => {},
                                Err(e) => return Err(e),
                            }
                            proof {
                                lemma_pop_progress(self@);
                            }
                            let t4 = match self.next() {
                                Ok(t) => t,
                                Err(e) => return Err(e),
                            };
                            match t4 {
                                DeEvent::True => {},
                                _ => {
                                    return Err(DeError::Deserialization);
                                },
                            }
                            match self.decode_arr_items() {
                                Ok(items) => Ok(Value::Arr(items)),
                                Err(e) => Err(e),
                            }
                        } else {
                            self.decode_dict_value()
                        }
                    },
                    DeEvent::DictEnd => self.decode_dict_value(),
                    _ => Err(DeError::Deserialization),
                }
            },
            _ => Err(DeError::Deserialization),
        }
    }

    /// Dictionary contents and the termination pop of the closing token.
    #[verifier::rlimit(50)]
    fn decode_dict_value(&mut self) -> (r: Result<Value, DeError>)
        requires
            old(self)@.wf(),
            can_read(old(self)@),
        ensures
            final(self)@.wf(),
            final(self)@.bytes == old(self)@.bytes,
            final(self)@.header == old(self)@.header,
            match r {
                Ok(v) => spec_decode_dict_value(old(self)@) == Ok::<
                    (SpecValue, DeState),
                    DeError,
                >((value_dview(v), final(self)@)) && can_read(final(self)@) && measure(
                    final(self)@,
                ) < measure(old(self)@),
                Err(e) => spec_decode_dict_value(old(self)@) == Err::<
                    (SpecValue, DeState),
                    DeError,
                >(e),
            },
        decreases measure(old(self)@), 1int,
    {
        let ghost st_start = self@;
        let mut entries: Vec<(Vec<u8>, Value)> = Vec::new();
        let rd = DictReader::new();
        proof {
            assert(entries_dview(entries@) =~= Seq::<(Seq<u8>, SpecValue)>::empty());
            match spec_decode_dict_items(st_start) {
                Ok((rest, stf)) => {
                    assert(entries_dview(entries@) + rest =~= rest);
                },
                Err(_) => {},
            }
        }
        loop
            invariant
                self@.wf(),
                can_read(self@),
                self@.bytes == st_start.bytes,
                self@.header == st_start.header,
                measure(self@) <= measure(st_start),
                st_start == old(self)@,
                st_start.wf(),
                match spec_decode_dict_items(self@) {
                    Ok((rest, stf)) => spec_decode_dict_items(st_start) == Ok::<
                        (Seq<(Seq<u8>, SpecValue)>, DeState),
                        DeError,
                    >((entries_dview(entries@) + rest, stf)),
                    Err(e) => spec_decode_dict_items(st_start) == Err::<
                        (Seq<(Seq<u8>, SpecValue)>, DeState),
                        DeError,
                    >(e),
                },
            decreases measure(self@),
        {
            let ghost st_i = self@;
            let ko = match rd.next_key(self) {
                Ok(k) => k,
                Err(e) => return Err(e),
            };
            let k = match ko {
                Some(k) => k,
                None => {
                    proof {
                        lemma_pop_progress(self@);
                    }
                    let t = match self.next() {
                        Ok(t) => t,
                        Err(e) => return Err(e),
                    };
                    match t {
                        DeEvent::DictEnd => {
                            return Ok(Value::Dict(entries));
                        },
                        _ => {
                            return Err(DeError::Deserialization);
                        },
                    }
                },
            };
            match rd.next_value_check(self) {
                Ok(_) => {},
                Err(e) => return Err(e),
            }
            let v = match self.deserialize_any() {
                Ok(v) => v,
                Err(e) => return Err(e),
            };
            let ghost dv = value_dview(v);
            let ghost old_entries = entries@;
            entries.push((k, v));
            proof {
                lemma_entries_snoc(old_entries, (k, v));
                match spec_decode_dict_items(self@) {
                    Ok((rest, stf)) => {
                        assert(entries_dview(entries@) + rest =~= entries_dview(old_entries) + (
                        seq![(k@, dv)] + rest));
                    },
                    Err(_) => {},
                }
            }
        }
    }

    /// The elements of a dictionary-encoded sequence, gap-free from index
    /// zero; the closing token is consumed by the stepper.
    #[verifier::rlimit(50)]
    fn decode_arr_items(&mut self) -> (r: Result<Vec<Value>, DeError>)
        requires
            old(self)@.wf(),
            can_read(old(self)@),
        ensures
            final(self)@.wf(),
            final(self)@.bytes == old(self)@.bytes,
            final(self)@.header == old(self)@.header,
            match r {
                Ok(items) => spec_decode_arr_items(old(self)@, 0) == Ok::<
                    (Seq<SpecValue>, DeState),
                    DeError,
                >((values_dview(items@), final(self)@)) && can_read(final(self)@) && measure(
                    final(self)@,
                ) < measure(old(self)@),
                Err(e) => spec_decode_arr_items(old(self)@, 0) == Err::<
                    (Seq<SpecValue>, DeState),
                    DeError,
                >(e),
            },
        decreases measure(old(self)@), 1int,
    {
        let ghost st_start = self@;
        let mut items: Vec<Value> = Vec::new();
        let mut rd = ArrayReader::new();
        proof {
            assert(values_dview(items@) =~= Seq::<SpecValue>::empty());
            match spec_decode_arr_items(st_start, 0) {
                Ok((rest, stf)) => {
                    assert(values_dview(items@) + rest =~= rest);
                },
                Err(_) => {},
            }
        }
        loop
            invariant
                self@.wf(),
                can_read(self@),
                self@.bytes == st_start.bytes,
                self@.header == st_start.header,
                measure(self@) <= measure(st_start),
                st_start == old(self)@,
                st_start.wf(),
                match spec_decode_arr_items(self@, rd.index()) {
                    Ok((rest, stf)) => spec_decode_arr_items(st_start, 0) == Ok::<
                        (Seq<SpecValue>, DeState),
                        DeError,
                    >((values_dview(items@) + rest, stf)),
                    Err(e) => spec_decode_arr_items(st_start, 0) == Err::<
                        (Seq<SpecValue>, DeState),
                        DeError,
                    >(e),
                },
            decreases measure(self@),
        {
            let cont = match rd.next_index(self) {
                Ok(c) => c,
                Err(e) => return Err(e),
            };
            if !cont {
                proof {
                    assert(values_dview(items@) + Seq::<SpecValue>::empty() =~= values_dview(
                        items@,
                    ));
                }
                return Ok(items);
            }
            let v = match self.deserialize_any() {
                Ok(v) => v,
                Err(e) => return Err(e),
            };
            let ghost dv = value_dview(v);
            let ghost old_items = items@;
            items.push(v);
            proof {
                lemma_values_snoc(old_items, v);
                match spec_decode_arr_items(self@, rd.index()) {
                    Ok((rest, stf)) => {
                        assert(values_dview(items@) + rest =~= values_dview(old_items) + (
                        seq![dv] + rest));
                    },
                    Err(_) => {},
                }
            }
        }
    }
}

impl GdDecode for Value {
    open spec fn sp_decode(st: DeState) -> Result<(SpecValue, DeState), DeError> {
        spec_decode_any(st)
    }

    fn decode_gd(de: &mut Deserializer) -> (r: Result<Value, DeError>) {
        de.deserialize_any()
    }
}

} // verus!

