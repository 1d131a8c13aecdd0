//! The locally-stored-levels section of a save file: a dictionary of level
//! records under `LLM_01` (a dictionary-encoded sequence) and a binary
//! version under `LLM_02`. Each level record carries an optional id under
//! `k1`, a name under `k2` and a creator under `k5`; unknown keys are
//! decoded generically and discarded.

use vstd::prelude::*;

use crate::de::DeState;
use crate::de::Deserializer;
use crate::de::DictReader;
use crate::de::ArrayReader;
use crate::de::GdDecode;
use crate::de::can_read;
use crate::de::measure;
use crate::de::spec_pop;
use crate::de::spec_dict_next_key;
use crate::de::spec_dict_value_check;
use crate::de::spec_arr_next;
use crate::de::spec_de_i32;
use crate::de::spec_de_string;
use crate::de::lemma_pop_progress;
use crate::error::DeError;
use crate::token::DeEvent;
use crate::token::SpecToken;
use crate::token::bytes_eq;
use crate::value::isarr_key;
use crate::value::spec_decode_any;

verus! {

/// One locally stored level.
#[derive(Debug)]
pub struct Level {
    id: Option<i32>,
    name: String,
    creator: String,
}

/// The ghost shape of a level record.
pub struct SpecLevel {
    pub id: Option<i32>,
    pub name: Seq<char>,
    pub creator: Seq<char>,
}

impl DeepView for Level {
    type V = SpecLevel;

    closed spec fn deep_view(&self) -> SpecLevel {
        SpecLevel { id: self.id, name: self.name@, creator: self.creator@ }
    }
}

impl Level {
    pub fn id(&self) -> (r: Option<i32>)
        ensures
            r == self.deep_view().id,
    {
        self.id
    }

    pub fn name(&self) -> (r: &String)
        ensures
            r@ == self.deep_view().name,
    {
        &self.name
    }

    pub fn creator(&self) -> (r: &String)
        ensures
            r@ == self.deep_view().creator,
    {
        &self.creator
    }
}

/// The level-record fields from the current accumulators on: known keys
/// fill their field (a repeated key is an error), unknown keys are decoded
/// generically and discarded, and at the dictionary's end the name and the
/// creator must have been seen.
pub open spec fn sp_level_fields(
    st: DeState,
    id: Option<i32>,
    name: Option<Seq<char>>,
    creator: Option<Seq<char>>,
) -> Result<(SpecLevel, DeState), DeError>
    decreases measure(st),
{
    match spec_dict_next_key(st) {
        Err(e) => Err(e),
        Ok((None, st1)) => match spec_pop(st1) {
            Err(e) => Err(e),
            Ok((t, st2)) => match t {
                SpecToken::DictEnd => match (name, creator) {
                    (Some(n), Some(c)) => Ok((SpecLevel { id: id, name: n, creator: c }, st2)),
                    _ => Err(DeError::Deserialization),
                },
                _ => Err(DeError::Deserialization),
            },
        },
        Ok((Some(k), st1)) => match spec_dict_value_check(st1) {
            Err(e) => Err(e),
            Ok(st2) => if k == seq![107u8, 49u8] {
                if id is Some {
                    Err(DeError::Deserialization)
                } else {
                    match spec_de_i32(st2) {
                        Err(e) => Err(e),
                        Ok((v, st3)) => if 0 <= measure(st3) && measure(st3) < measure(st) {
                            sp_level_fields(st3, Some(v), name, creator)
                        } else {
                            Err(DeError::Deserialization)
                        },
                    }
                }
            } else if k == seq![107u8, 50u8] {
                if name is Some {
                    Err(DeError::Deserialization)
                } else {
                    match spec_de_string(st2) {
                        Err(e) => Err(e),
                        Ok((n, st3)) => if 0 <= measure(st3) && measure(st3) < measure(st) {
                            sp_level_fields(st3, id, Some(n), creator)
                        } else {
                            Err(DeError::Deserialization)
                        },
                    }
                }
            } else if k == seq![107u8, 53u8] {
                if creator is Some {
                    Err(DeError::Deserialization)
                } else {
                    match spec_de_string(st2) {
                        Err(e) => Err(e),
                        Ok((c, st3)) => if 0 <= measure(st3) && measure(st3) < measure(st) {
                            sp_level_fields(st3, id, name, Some(c))
                        } else {
                            Err(DeError::Deserialization)
                        },
                    }
                }
            } else {
                match spec_decode_any(st2) {
                    Err(e) => Err(e),
                    Ok((v, st3)) => if 0 <= measure(st3) && measure(st3) < measure(st) {
                        sp_level_fields(st3, id, name, creator)
                    } else {
                        Err(DeError::Deserialization)
                    },
                }
            },
        },
    }
}

impl GdDecode for Level {
    open spec fn sp_decode(st: DeState) -> Result<(SpecLevel, DeState), DeError> {
        match spec_pop(st) {
            Err(e) => Err(e),
            Ok((t, st1)) => match t {
                SpecToken::DictStart => sp_level_fields(st1, None, None, None),
                _ => Err(DeError::Deserialization),
            },
        }
    }

    #[verifier::rlimit(50)]
    fn decode_gd(de: &mut Deserializer) -> (r: Result<Level, DeError>) {
        proof {
            lemma_pop_progress(old(de)@);
        }
        let t = match de.next() {
            Ok(t) => t,
            Err(e) => return Err(e),
        };
        match t {
            DeEvent::DictStart => {},
            _ => {
                return Err(DeError::Deserialization);
            },
        }
        let ghost st1 = de@;
        let mut id: Option<i32> = None;
        let mut name: Option<String> = None;
        let mut creator: Option<String> = None;
        let rd = DictReader::new();
        loop
            invariant
                de@.wf(),
                can_read(de@),
                de@.bytes == old(de)@.bytes,
                de@.header == old(de)@.header,
                Level::sp_decode(old(de)@) == sp_level_fields(
                    de@,
                    id,
                    match name {
                        Some(ref s) => Some(s@),
                        None => None,
                    },
                    match creator {
                        Some(ref s) => Some(s@),
                        None => None,
                    },
                ),
                measure(de@) >= 0,
                measure(de@) < measure(old(de)@),
            decreases measure(de@),
        {
            let ko = match rd.next_key(de) {
                Ok(k) => k,
                Err(e) => return Err(e),
            };
            let k = match ko {
                Some(k) => k,
                None => {
                    proof {
                        lemma_pop_progress(de@);
                    }
                    let t2 = match de.next() {
                        Ok(t) => t,
                        Err(e) => return Err(e),
                    };
                    match t2 {
                        DeEvent::DictEnd => {},
                        _ => {
                            return Err(DeError::Deserialization);
                        },
                    }
                    let n = match name {
                        Some(n) => n,
                        None => {
                            return Err(DeError::Deserialization);
                        },
                    };
                    let c = match creator {
                        Some(c) => c,
                        None => {
                            return Err(DeError::Deserialization);
                        },
                    };
                    return Ok(Level { id, name: n, creator: c });
                },
            };
            match rd.next_value_check(de) {
                Ok(_) => {},
                Err(e) => return Err(e),
            }
            if bytes_eq(k.as_slice(), &[107, 49]) {
                if id.is_some() {
                    return Err(DeError::Deserialization);
                }
                match de.deserialize_i32() {
                    Ok(v) => {
                        id = Some(v);
                    },
                    Err(e) => return Err(e),
                }
            } else if bytes_eq(k.as_slice(), &[107, 50]) {
                if name.is_some() {
                    return Err(DeError::Deserialization);
                }
                match de.deserialize_string() {
                    Ok(v) => {
                        name = Some(v);
                    },
                    Err(e) => return Err(e),
                }
            } else if bytes_eq(k.as_slice(), &[107, 53]) {
                if creator.is_some() {
                    return Err(DeError::Deserialization);
                }
                match de.deserialize_string() {
                    Ok(v) => {
                        creator = Some(v);
                    },
                    Err(e) => return Err(e),
                }
            } else {
                match de.deserialize_any() {
                    Ok(_) => {},
                    Err(e) => return Err(e),
                }
            }
        }
    }
}


/// The level records of a dictionary-encoded sequence from the running
/// index on.
pub open spec fn sp_level_items(st: DeState, idx: nat) -> Result<(Seq<SpecLevel>, DeState), DeError>
    decreases measure(st),
{
    match spec_arr_next(st, idx) {
        Err(e) => Err(e),
        Ok((false, st1)) => Ok((Seq::empty(), st1)),
        Ok((true, st1)) => match Level::sp_decode(st1) {
            Err(e) => Err(e),
            Ok((v, st2)) => if 0 <= measure(st2) && measure(st2) < measure(st) {
                match sp_level_items(st2, idx + 1) {
                    Err(e) => Err(e),
                    Ok((rest, st3)) => Ok((seq![v] + rest, st3)),
                }
            } else {
                Err(DeError::Deserialization)
            },
        },
    }
}

/// A sequence of level records: the dictionary must open with the sequence
/// marker, then carry gap-free index keys from zero.
pub open spec fn sp_vec_level(st: DeState) -> Result<(Seq<SpecLevel>, DeState), DeError> {
    match spec_pop(st) {
        Err(e) => Err(e),
        Ok((t, st1)) => match t {
            SpecToken::DictStart => match spec_pop(st1) {
                Err(e) => Err(e),
                Ok((t2, st2)) => match t2 {
                    SpecToken::Key(k) => if k == isarr_key() {
                        match spec_pop(st2) {
                            Err(e) => Err(e),
                            Ok((t3, st3)) => match t3 {
                                SpecToken::True => sp_level_items(st3, 0),
                                _ => Err(DeError::Deserialization),
                            },
                        }
                    } else {
                        Err(DeError::Deserialization)
                    },
                    _ => Err(DeError::Deserialization),
                },
            },
            _ => Err(DeError::Deserialization),
        },
    }
}

impl GdDecode for Vec<Level> {
    open spec fn sp_decode(st: DeState) -> Result<(Seq<SpecLevel>, DeState), DeError> {
        sp_vec_level(st)
    }

    #[verifier::rlimit(50)]
    fn decode_gd(de: &mut Deserializer) -> (r: Result<Vec<Level>, DeError>) {
        proof {
            lemma_pop_progress(old(de)@);
        }
        let t = match de.next() {
            Ok(t) => t,
            Err(e) => return Err(e),
        };
        match t {
            DeEvent::DictStart => {},
            _ => {
                return Err(DeError::Deserialization);
            },
        }
        proof {
            lemma_pop_progress(de@);
        }
        let t2 = match de.next() {
            Ok(t) => t,
            Err(e) => return Err(e),
        };
        match t2 {
            DeEvent::Key(k) => {
                if !bytes_eq(k.as_slice(), &[95, 105, 115, 65, 114, 114]) {
                    return Err(DeError::Deserialization);
                }
            },
            _ => {
                return Err(DeError::Deserialization);
            },
        }
        proof {
            lemma_pop_progress(de@);
        }
        let t3 = match de.next() {
            Ok(t) => t,
            Err(e) => return Err(e),
        };
        match t3 {
            DeEvent::True => {},
            _ => {
                return Err(DeError::Deserialization);
            },
        }
        let ghost st3 = de@;
        let mut items: Vec<Level> = Vec::new();
        let mut rd = ArrayReader::new();
        proof {
            assert(items.deep_view() =~= Seq::<SpecLevel>::empty());
            match sp_level_items(st3, 0) {
                Ok((rest, stf)) => {
                    assert(items.deep_view() + rest =~= rest);
                },
                Err(_) => {},
            }
        }
        loop
            invariant
                de@.wf(),
                can_read(de@),
                de@.bytes == old(de)@.bytes,
                de@.header == old(de)@.header,
                measure(de@) >= 0,
                measure(de@) < measure(old(de)@),
                match sp_level_items(de@, rd.index()) {
                    Ok((rest, stf)) => sp_vec_level(old(de)@) == Ok::<
                        (Seq<SpecLevel>, DeState),
                        DeError,
                    >((items.deep_view() + rest, stf)),
                    Err(e) => sp_vec_level(old(de)@) == Err::<(Seq<SpecLevel>, DeState), DeError>(
                        e,
                    ),
                },
            decreases measure(de@),
        {
            let cont = match rd.next_index(de) {
                Ok(c) => c,
                Err(e) => return Err(e),
            };
            if !cont {
                proof {
                    assert(items.deep_view() + Seq::<SpecLevel>::empty() =~= items.deep_view());
                }
                return Ok(items);
            }
            let lvl = match Level::decode_gd(de) {
                Ok(v) => v,
                Err(e) => return Err(e),
            };
            let ghost dv = lvl.deep_view();
            let ghost old_view = items.deep_view();
            items.push(lvl);
            proof {
                assert(items.deep_view() =~= old_view + seq![dv]);
                match sp_level_items(de@, rd.index()) {
                    Ok((rest, stf)) => {
                        assert(items.deep_view() + rest =~= old_view + (seq![dv] + rest));
                    },
                    Err(_) => {},
                }
            }
        }
    }
}

/// The locally-stored-levels section.
#[derive(Debug)]
pub struct LocalLevelsDB {
    local_levels: Vec<Level>,
    binary_version: i32,
}

/// The ghost shape of the section.
pub struct SpecLocalLevelsDB {
    pub local_levels: Seq<SpecLevel>,
    pub binary_version: i32,
}

impl DeepView for LocalLevelsDB {
    type V = SpecLocalLevelsDB;

    closed spec fn deep_view(&self) -> SpecLocalLevelsDB {
        SpecLocalLevelsDB {
            local_levels: self.local_levels.deep_view(),
            binary_version: self.binary_version,
        }
    }
}

impl LocalLevelsDB {
    pub fn local_levels(&self) -> (r: &Vec<Level>)
        ensures
            r.deep_view() == self.deep_view().local_levels,
    {
        &self.local_levels
    }

    pub fn binary_version(&self) -> (r: i32)
        ensures
            r == self.deep_view().binary_version,
    {
        self.binary_version
    }
}

/// The section's fields from the current accumulators on: the level list
/// under its key, the binary version under its key, unknown keys decoded
/// generically and discarded; both fields must be present at the end.
pub open spec fn sp_lldb_fields(
    st: DeState,
    lv: Option<Seq<SpecLevel>>,
    bv: Option<i32>,
) -> Result<(SpecLocalLevelsDB, DeState), DeError>
    decreases measure(st),
{
    match spec_dict_next_key(st) {
        Err(e) => Err(e),
        Ok((None, st1)) => match spec_pop(st1) {
            Err(e) => Err(e),
            Ok((t, st2)) => match t {
                SpecToken::DictEnd => match (lv, bv) {
                    (Some(l), Some(b)) => Ok(
                        (SpecLocalLevelsDB { local_levels: l, binary_version: b }, st2),
                    ),
                    _ => Err(DeError::Deserialization),
                },
                _ => Err(DeError::Deserialization),
            },
        },
        Ok((Some(k), st1)) => match spec_dict_value_check(st1) {
            Err(e) => Err(e),
            Ok(st2) => if k == seq![76u8, 76u8, 77u8, 95u8, 48u8, 49u8] {
                if lv is Some {
                    Err(DeError::Deserialization)
                } else {
                    match sp_vec_level(st2) {
                        Err(e) => Err(e),
                        Ok((l, st3)) => if 0 <= measure(st3) && measure(st3) < measure(st) {
                            sp_lldb_fields(st3, Some(l), bv)
                        } else {
                            Err(DeError::Deserialization)
                        },
                    }
                }
            } else if k == seq![76u8, 76u8, 77u8, 95u8, 48u8, 50u8] {
                if bv is Some {
                    Err(DeError::Deserialization)
                } else {
                    match spec_de_i32(st2) {
                        Err(e) => Err(e),
                        Ok((b, st3)) => if 0 <= measure(st3) && measure(st3) < measure(st) {
                            sp_lldb_fields(st3, lv, Some(b))
                        } else {
                            Err(DeError::Deserialization)
                        },
                    }
                }
            } else {
                match spec_decode_any(st2) {
                    Err(e) => Err(e),
                    Ok((v, st3)) => if 0 <= measure(st3) && measure(st3) < measure(st) {
                        sp_lldb_fields(st3, lv, bv)
                    } else {
                        Err(DeError::Deserialization)
                    },
                }
            },
        },
    }
}

impl GdDecode for LocalLevelsDB {
    open spec fn sp_decode(st: DeState) -> Result<(SpecLocalLevelsDB, DeState), DeError> {
        match spec_pop(st) {
            Err(e) => Err(e),
            Ok((t, st1)) => match t {
                SpecToken::DictStart => sp_lldb_fields(st1, None, None),
                _ => Err(DeError::Deserialization),
            },
        }
    }

    #[verifier::rlimit(50)]
    fn decode_gd(de: &mut Deserializer) -> (r: Result<LocalLevelsDB, DeError>) {
        proof {
            lemma_pop_progress(old(de)@);
        }
        let t = match de.next() {
            Ok(t) => t,
            Err(e) => return Err(e),
        };
        match t {
            DeEvent::DictStart => {},
            _ => {
                return Err(DeError::Deserialization);
            },
        }
        let mut lv: Option<Vec<Level>> = None;
        let mut bv: Option<i32> = None;
        let rd = DictReader::new();
        loop
            invariant
                de@.wf(),
                can_read(de@),
                de@.bytes == old(de)@.bytes,
                de@.header == old(de)@.header,
                LocalLevelsDB::sp_decode(old(de)@) == sp_lldb_fields(
                    de@,
                    match lv {
                        Some(ref l) => Some(l.deep_view()),
                        None => None,
                    },
                    bv,
                ),
                measure(de@) >= 0,
                measure(de@) < measure(old(de)@),
            decreases measure(de@),
        {
            let ko = match rd.next_key(de) {
                Ok(k) => k,
                Err(e) => return Err(e),
            };
            let k = match ko {
                Some(k) => k,
                None => {
                    proof {
                        lemma_pop_progress(de@);
                    }
                    let t2 = match de.next() {
                        Ok(t) => t,
                        Err(e) => return Err(e),
                    };
                    match t2 {
                        DeEvent::DictEnd => {},
                        _ => {
                            return Err(DeError::Deserialization);
                        },
                    }
                    let l = match lv {
                        Some(l) => l,
                        None => {
                            return Err(DeError::Deserialization);
                        },
                    };
                    let b = match bv {
                        Some(b) => b,
                        None => {
                            return Err(DeError::Deserialization);
                        },
                    };
                    return Ok(LocalLevelsDB { local_levels: l, binary_version: b });
                },
            };
            match rd.next_value_check(de) {
                Ok(_) => {},
                Err(e) => return Err(e),
            }
            if bytes_eq(k.as_slice(), &[76, 76, 77, 95, 48, 49]) {
                if lv.is_some() {
                    return Err(DeError::Deserialization);
                }
                match <Vec<Level> as GdDecode>::decode_gd(de) {
                    Ok(v) => {
                        lv = Some(v);
                    },
                    Err(e) => return Err(e),
                }
            } else if bytes_eq(k.as_slice(), &[76, 76, 77, 95, 48, 50]) {
                if bv.is_some() {
                    return Err(DeError::Deserialization);
                }
                match de.deserialize_i32() {
                    Ok(v) => {
                        bv = Some(v);
                    },
                    Err(e) => return Err(e),
                }
            } else {
                match de.deserialize_any() {
                    Ok(_) => {},
                    Err(e) => return Err(e),
                }
            }
        }
    }
}

} // verus!

