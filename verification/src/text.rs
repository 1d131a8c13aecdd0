//! Verified entity escaping for markup text. Emission escapes the three
//! bytes that would break the token grammar; the tokenizer unescapes the
//! five named entities and numeric character references, and rejects
//! anything else after an ampersand. Unescaping inverts escaping.

use vstd::prelude::*;

use crate::raw::spec_find;
use crate::raw::lemma_find_char;

verus! {

pub const B_AMP: u8 = 38;

pub const B_LT: u8 = 60;

pub const B_GT: u8 = 62;

pub const B_APOS: u8 = 39;

pub const B_QUOT: u8 = 34;

pub open spec fn amp_entity() -> Seq<u8> {
    seq![38u8, 97u8, 109u8, 112u8, 59u8]
}

pub open spec fn lt_entity() -> Seq<u8> {
    seq![38u8, 108u8, 116u8, 59u8]
}

pub open spec fn gt_entity() -> Seq<u8> {
    seq![38u8, 103u8, 116u8, 59u8]
}

pub open spec fn apos_entity() -> Seq<u8> {
    seq![38u8, 97u8, 112u8, 111u8, 115u8, 59u8]
}

pub open spec fn quot_entity() -> Seq<u8> {
    seq![38u8, 113u8, 117u8, 111u8, 116u8, 59u8]
}

pub open spec fn starts_with(s: Seq<u8>, p: Seq<u8>) -> bool {
    s.len() >= p.len() && (forall|j: int| 0 <= j < p.len() ==> s[j] == p[j])
}

/// How one text byte is written: the grammar-breaking bytes as entities,
/// everything else as itself.
pub open spec fn escape_byte(b: u8) -> Seq<u8> {
    if b == B_AMP {
        amp_entity()
    } else if b == B_LT {
        lt_entity()
    } else if b == B_GT {
        gt_entity()
    } else {
        seq![b]
    }
}

/// The escaped form of a text: each byte written as `escape_byte` says.
pub open spec fn spec_escape(s: Seq<u8>) -> Seq<u8>
    decreases s.len(),
{
    if s.len() == 0 {
        Seq::empty()
    } else {
        escape_byte(s[0]) + spec_escape(s.skip(1))
    }
}

/// The value of one character-reference digit, decimal or hexadecimal.
pub open spec fn charref_digit(b: u8, hex: bool) -> Option<int> {
    if 48 <= b <= 57 {
        Some((b - 48) as int)
    } else if hex && 97 <= b <= 102 {
        Some((b - 87) as int)
    } else if hex && 65 <= b <= 70 {
        Some((b - 55) as int)
    } else {
        None
    }
}

/// The numeric value of a character-reference digit string, `None` on any
/// byte outside the digit set.
pub open spec fn charref_val(d: Seq<u8>, hex: bool) -> Option<int>
    decreases d.len(),
{
    if d.len() == 0 {
        Some(0)
    } else {
        match (charref_val(d.drop_last(), hex), charref_digit(d.last(), hex)) {
            (Some(v), Some(g)) => Some(
                v * (if hex {
                    16int
                } else {
                    10int
                }) + g,
            ),
            _ => None,
        }
    }
}

/// A referenceable scalar value: no null, no surrogate, within the
/// codepoint range.
pub open spec fn valid_scalar(v: int) -> bool {
    (1 <= v < 0xD800) || (0xE000 <= v <= 0x10FFFF)
}

/// The UTF-8 encoding of a scalar value: one to four bytes, by range.
pub open spec fn spec_utf8_of_scalar(v: int) -> Seq<u8> {
    if v < 0x80 {
        seq![v as u8]
    } else if v < 0x800 {
        seq![(0xC0 + v / 0x40) as u8, (0x80 + v % 0x40) as u8]
    } else if v < 0x10000 {
        seq![
            (0xE0 + v / 0x1000) as u8,
            (0x80 + (v / 0x40) % 0x40) as u8,
            (0x80 + v % 0x40) as u8,
        ]
    } else {
        seq![
            (0xF0 + v / 0x40000) as u8,
            (0x80 + (v / 0x1000) % 0x40) as u8,
            (0x80 + (v / 0x40) % 0x40) as u8,
            (0x80 + v % 0x40) as u8,
        ]
    }
}

/// A numeric character reference at the head of a region (which starts
/// with the ampersand-hash pair): the referenced scalar's UTF-8 bytes and
/// the index after the closing semicolon, or a failure for a malformed or
/// invalid reference. Opaque: reasoning about it goes through its own
/// parser's contract.
#[verifier::opaque]
pub open spec fn spec_charref(s: Seq<u8>) -> Result<(Seq<u8>, int), ()> {
    match spec_find(s, 2, 59) {
        None => Err(()),
        Some(j) => {
            let hex = s[2] == 120;
            let digits = if hex {
                s.subrange(3, j)
            } else {
                s.subrange(2, j)
            };
            if digits.len() == 0 {
                Err(())
            } else {
                match charref_val(digits, hex) {
                    None => Err(()),
                    Some(vl) => if valid_scalar(vl) {
                        Ok((spec_utf8_of_scalar(vl), j + 1))
                    } else {
                        Err(())
                    },
                }
            }
        },
    }
}

/// What unescaping a raw text region yields: entities become their bytes,
/// anything else after an ampersand is rejected.
pub open spec fn spec_unescape(s: Seq<u8>) -> Result<Seq<u8>, ()>
    decreases s.len(),
{
    if s.len() == 0 {
        Ok(Seq::empty())
    } else if s[0] == B_AMP {
        if s.len() >= 2 && s[1] == 35 {
            match spec_charref(s) {
                Err(_) => Err(()),
                Ok(cr) => if 0 < cr.1 <= s.len() {
                    match spec_unescape(s.skip(cr.1)) {
                        Ok(t) => Ok(cr.0 + t),
                        Err(e) => Err(e),
                    }
                } else {
                    Err(())
                },
            }
        } else if starts_with(s, amp_entity()) {
            unescape_cons(B_AMP, spec_unescape(s.skip(5)))
        } else if starts_with(s, apos_entity()) {
            unescape_cons(B_APOS, spec_unescape(s.skip(6)))
        } else if starts_with(s, lt_entity()) {
            unescape_cons(B_LT, spec_unescape(s.skip(4)))
        } else if starts_with(s, gt_entity()) {
            unescape_cons(B_GT, spec_unescape(s.skip(4)))
        } else if starts_with(s, quot_entity()) {
            unescape_cons(B_QUOT, spec_unescape(s.skip(6)))
        } else {
            Err(())
        }
    } else {
        unescape_cons(s[0], spec_unescape(s.skip(1)))
    }
}

pub open spec fn unescape_cons(b: u8, rest: Result<Seq<u8>, ()>) -> Result<Seq<u8>, ()> {
    match rest {
        Ok(t) => Ok(seq![b] + t),
        Err(e) => Err(e),
    }
}

/// Escaping one more byte appends its escaped form.
pub proof fn lemma_escape_snoc(a: Seq<u8>, x: u8)
    ensures
        spec_escape(a.push(x)) == spec_escape(a) + escape_byte(x),
    decreases a.len(),
{
    if a.len() == 0 {
        assert(a.push(x)[0] == x);
        assert(a.push(x).skip(1) =~= Seq::<u8>::empty());
        assert(spec_escape(a.push(x)) == escape_byte(x) + spec_escape(Seq::<u8>::empty()));
        assert(escape_byte(x) + Seq::<u8>::empty() =~= escape_byte(x));
        assert(spec_escape(a) + escape_byte(x) =~= escape_byte(x));
    } else {
        lemma_escape_snoc(a.skip(1), x);
        assert(a.push(x).skip(1) =~= a.skip(1).push(x));
        assert(a.push(x)[0] == a[0]);
        assert(escape_byte(a[0]) + (spec_escape(a.skip(1)) + escape_byte(x)) =~= (escape_byte(a[0])
            + spec_escape(a.skip(1))) + escape_byte(x));
    }
}

/// Escaped text never holds a tag opener, and never an ampersand other than
/// as the head of an entity it itself wrote; it is empty only for empty
/// input.
pub proof fn lemma_escape_no_lt(s: Seq<u8>)
    ensures
        forall|i: int| 0 <= i < spec_escape(s).len() ==> spec_escape(s)[i] != B_LT,
        spec_escape(s).len() >= s.len(),
    decreases s.len(),
{
    if s.len() > 0 {
        lemma_escape_no_lt(s.skip(1));
    }
}

/// Unescaping inverts escaping.
pub proof fn lemma_unescape_escape(s: Seq<u8>)
    ensures
        spec_unescape(spec_escape(s)) == Ok::<Seq<u8>, ()>(s),
    decreases s.len(),
{
    if s.len() == 0 {
        assert(spec_escape(s).len() == 0);
        assert(s =~= Seq::<u8>::empty());
    } else {
        lemma_unescape_escape(s.skip(1));
        let e = spec_escape(s);
        let head = escape_byte(s[0]);
        let tail = spec_escape(s.skip(1));
        assert(e == head + tail);
        assert(forall|j: int| 0 <= j < head.len() ==> e[j] == head[j]);
        if s[0] == B_AMP {
            assert(e[1] == 97);
            assert(starts_with(e, amp_entity()));
            assert(e.skip(5) =~= tail);
            assert(seq![B_AMP] + s.skip(1) =~= s);
        } else if s[0] == B_LT {
            assert(e[1] == 108);
            assert(!starts_with(e, amp_entity()));
            assert(!starts_with(e, apos_entity()));
            assert(starts_with(e, lt_entity()));
            assert(e.skip(4) =~= tail);
            assert(seq![B_LT] + s.skip(1) =~= s);
        } else if s[0] == B_GT {
            assert(e[1] == 103);
            assert(!starts_with(e, amp_entity()));
            assert(!starts_with(e, apos_entity()));
            assert(!starts_with(e, lt_entity()));
            assert(starts_with(e, gt_entity()));
            assert(e.skip(4) =~= tail);
            assert(seq![B_GT] + s.skip(1) =~= s);
        } else {
            assert(e[0] == s[0]);
            assert(e.skip(1) =~= tail);
            assert(seq![s[0]] + s.skip(1) =~= s);
        }
    }
}

/// Escape a text for emission between tags.
pub fn escape(s: &[u8]) -> (r: Vec<u8>)
    ensures
        r@ == spec_escape(s@),
{
    let mut out: Vec<u8> = Vec::new();
    let mut i: usize = 0;
    while i < s.len()
        invariant
            i <= s@.len(),
            out@ == spec_escape(s@.take(i as int)),
        decreases s@.len() - i,
    {
        let ghost pre = s@.take(i as int);
        let b = s[i];
        if b == B_AMP {
            out.push(38);
            out.push(97);
            out.push(109);
            out.push(112);
            out.push(59);
        } else if b == B_LT {
            out.push(38);
            out.push(108);
            out.push(116);
            out.push(59);
        } else if b == B_GT {
            out.push(38);
            out.push(103);
            out.push(116);
            out.push(59);
        } else {
            out.push(b);
        }
        proof {
            lemma_escape_snoc(pre, b);
            assert(s@.take(i + 1) =~= pre.push(b));
            assert(out@ =~= spec_escape(pre) + escape_byte(b));
        }
        i += 1;
    }
    proof {
        assert(s@.take(s@.len() as int) =~= s@);
    }
    out
}

/// If some digit in the string is outside the digit set, the whole string
/// has no value.
proof fn lemma_charref_poison(d: Seq<u8>, k: int, hex: bool)
    requires
        0 <= k < d.len(),
        charref_digit(d[k], hex) is None,
    ensures
        charref_val(d, hex) is None,
    decreases d.len(),
{
    if k == d.len() - 1 {
        assert(d.last() == d[k]);
    } else {
        assert(d.drop_last()[k] == d[k]);
        lemma_charref_poison(d.drop_last(), k, hex);
    }
}

/// Find the closing semicolon of a character reference.
fn find_semi(s: &[u8], from: usize) -> (r: Option<usize>)
    requires
        from <= s@.len(),
    ensures
        match r {
            Some(j) => from <= j < s@.len() && s@[j as int] == 59 && (forall|k: int|
                from <= k < j ==> s@[k] != 59),
            None => forall|k: int| from <= k < s@.len() ==> s@[k] != 59,
        },
{
    let mut i: usize = from;
    while i < s.len()
        invariant
            from <= i <= s@.len(),
            forall|k: int| from <= k < i ==> s@[k] != 59,
        decreases s@.len() - i,
    {
        if s[i] == 59 {
            return Some(i);
        }
        i += 1;
    }
    None
}

/// Parse the numeric character reference whose ampersand-hash pair stands
/// at `i`: the referenced scalar's UTF-8 bytes and the position after the
/// closing semicolon.
#[verifier::rlimit(100)]
fn parse_charref(s: &[u8], i: usize) -> (r: Result<(Vec<u8>, usize), ()>)
    requires
        i + 1 < s@.len(),
        s@[i as int] == 38,
        s@[i + 1] == 35,
    ensures
        match r {
            Ok(t) => spec_charref(s@.skip(i as int)) == Ok::<(Seq<u8>, int), ()>(
                (t.0@, t.1 - i as int),
            ) && i + 2 < t.1 <= s@.len(),
            Err(_) => spec_charref(s@.skip(i as int)) is Err,
        },
{
    proof {
        reveal(spec_charref);
    }
    let ghost rest = s@.skip(i as int);
    proof {
        assert forall|k2: int| 0 <= k2 < rest.len() implies rest[k2] == s@[i + k2] by {}
        lemma_find_char(rest, 2, 59);
    }
    let n = s.len();
    let j = match find_semi(s, i + 2) {
        Some(j) => j,
        None => {
            proof {
                match spec_find(rest, 2, 59) {
                    Some(f) => {
                        assert(rest[f] == s@[i + f]);
                    },
                    None => {},
                }
            }
            return Err(());
        },
    };
    proof {
        match spec_find(rest, 2, 59) {
            Some(f) => {
                if f < j - i {
                    assert(s@[i + f] != 59);
                }
                if f > j - i {
                    assert(rest[j - i] != 59);
                }
            },
            None => {
                assert(rest[j - i] == 59);
            },
        }
        assert(spec_find(rest, 2, 59) == Some(j - i as int));
    }
    let hex = s[i + 2] == 120;
    let dstart = if hex {
        i + 3
    } else {
        i + 2
    };
    if j <= dstart {
        proof {
            if hex {
                assert(rest.subrange(3, j - i).len() == 0);
            } else {
                assert(rest.subrange(2, j - i).len() == 0);
            }
        }
        return Err(());
    }
    let ghost dg_all = if hex {
        rest.subrange(3, j - i)
    } else {
        rest.subrange(2, j - i)
    };
    proof {
        assert forall|k2: int| 0 <= k2 < dg_all.len() implies dg_all[k2] == s@[dstart + k2] by {}
        assert(dg_all.len() == j - dstart);
    }
    let basev: u64 = if hex {
        16
    } else {
        10
    };
    let mut acc: u64 = 0;
    let mut k = dstart;
    proof {
        assert(s@.subrange(dstart as int, dstart as int) =~= Seq::<u8>::empty());
        assert(charref_val(Seq::<u8>::empty(), hex) == Some(0int));
    }
    while k < j
        invariant
            dstart <= k <= j,
            j < n,
            n == s@.len(),
            i + 2 <= dstart <= j,
            basev == if hex {
                16u64
            } else {
                10u64
            },
            acc <= 0x110000,
            dg_all.len() == j - dstart,
            forall|k2: int| 0 <= k2 < dg_all.len() ==> dg_all[k2] == s@[dstart + k2],
            rest == s@.skip(i as int),
            spec_find(rest, 2, 59) == Some(j - i as int),
            hex == (s@[i + 2] == 120),
            dstart == if hex {
                i + 3int
            } else {
                i + 2int
            },
            ({
                let dg = s@.subrange(dstart as int, k as int);
                match charref_val(dg, hex) {
                    Some(v) => (0 <= v <= 0x10FFFF && acc == v) || (v > 0x10FFFF && acc
                        == 0x110000),
                    None => false,
                }
            }),
        decreases j - k,
    {
        let b = s[k];
        let g: u64 = if 48 <= b && b <= 57 {
            (b - 48) as u64
        } else if hex && 97 <= b && b <= 102 {
            (b - 87) as u64
        } else if hex && 65 <= b && b <= 70 {
            (b - 55) as u64
        } else {
            proof {
                reveal(spec_charref);
                assert(dg_all[k - dstart] == s@[k as int]);
                lemma_charref_poison(dg_all, k - dstart, hex);
                if hex {
                    assert(rest.subrange(3, j - i as int) =~= dg_all);
                } else {
                    assert(rest.subrange(2, j - i as int) =~= dg_all);
                }
            }
            return Err(());
        };
        let t = acc * basev + g;
        let next = if t > 0x10FFFF {
            0x110000u64
        } else {
            t
        };
        proof {
            let dg = s@.subrange(dstart as int, k as int);
            let dg2 = s@.subrange(dstart as int, k + 1);
            assert(dg2.drop_last() =~= dg);
            assert(dg2.last() == s@[k as int]);
            assert(charref_digit(s@[k as int], hex) == Some(g as int));
        }
        acc = next;
        k += 1;
    }
    if acc == 0 || (0xD800 <= acc && acc < 0xE000) || acc > 0x10FFFF {
        proof {
            assert(s@.subrange(dstart as int, j as int) =~= dg_all);
        }
        return Err(());
    }
    proof {
        assert(s@.subrange(dstart as int, j as int) =~= dg_all);
    }
    let mut out: Vec<u8> = Vec::new();
    if acc < 0x80 {
        out.push(acc as u8);
    } else if acc < 0x800 {
        out.push((0xC0 + acc / 0x40) as u8);
        out.push((0x80 + acc % 0x40) as u8);
    } else if acc < 0x10000 {
        out.push((0xE0 + acc / 0x1000) as u8);
        out.push((0x80 + (acc / 0x40) % 0x40) as u8);
        out.push((0x80 + acc % 0x40) as u8);
    } else {
        out.push((0xF0 + acc / 0x40000) as u8);
        out.push((0x80 + (acc / 0x1000) % 0x40) as u8);
        out.push((0x80 + (acc / 0x40) % 0x40) as u8);
        out.push((0x80 + acc % 0x40) as u8);
    }
    proof {
        assert(out@ =~= spec_utf8_of_scalar(acc as int));
    }
    Ok((out, j + 1))
}

/// Unescape a raw text region pulled from the markup.
pub fn unescape(s: &[u8]) -> (r: Result<Vec<u8>, ()>)
    ensures
        match r {
            Ok(v) => spec_unescape(s@) == Ok::<Seq<u8>, ()>(v@),
            Err(_) => spec_unescape(s@) is Err,
        },
{
    let mut out: Vec<u8> = Vec::new();
    let mut i: usize = 0;
    proof {
        assert(s@.skip(0) =~= s@);
        match spec_unescape(s@) {
            Ok(t) => {
                assert(Seq::<u8>::empty() + t =~= t);
            },
            Err(_) => {},
        }
    }
    while i < s.len()
        invariant
            i <= s@.len(),
            match spec_unescape(s@.skip(i as int)) {
                Ok(t) => spec_unescape(s@) == Ok::<Seq<u8>, ()>(out@ + t),
                Err(e) => spec_unescape(s@) == Err::<Seq<u8>, ()>(e),
            },
        decreases s@.len() - i,
    {
        let ghost rest = s@.skip(i as int);
        proof {
            assert(rest[0] == s@[i as int]);
        }
        let n = s.len();
        let b = s[i];
        if b == B_AMP && n - i > 1 && s[i + 1] == 35 {
            proof {
                assert(forall|j: int| 0 <= j < rest.len() ==> rest[j] == s@[i + j]);
            }
            match parse_charref(s, i) {
                Err(_) => {
                    return Err(());
                },
                Ok(cr) => {
                    let (mut bytes2, next) = cr;
                    let ghost old_out = out@;
                    let ghost added = bytes2@;
                    out.append(&mut bytes2);
                    proof {
                        assert(rest.skip(next - i as int) =~= s@.skip(next as int));
                        match spec_unescape(s@.skip(next as int)) {
                            Ok(t) => {
                                assert(spec_unescape(rest) == Ok::<Seq<u8>, ()>(added + t));
                                assert(out@ + t =~= old_out + (added + t));
                            },
                            Err(e) => {
                                assert(spec_unescape(rest) == Err::<Seq<u8>, ()>(e));
                            },
                        }
                    }
                    i = next;
                },
            }
        } else if b == B_AMP {
            proof {
                assert(forall|j: int| 0 <= j < rest.len() ==> rest[j] == s@[i + j]);
            }
            let (rep, width): (u8, usize) = if n - i > 4 && s[i + 1] == 97 && s[i + 2] == 109 && s[i
                + 3] == 112 && s[i + 4] == 59 {
                proof {
                    assert(starts_with(rest, amp_entity()));
                }
                (B_AMP, 5)
            } else if n - i > 5 && s[i + 1] == 97 && s[i + 2] == 112 && s[i + 3] == 111 && s[i + 4]
                == 115 && s[i + 5] == 59 {
                proof {
                    assert(rest[2] == 112);
                    assert(!starts_with(rest, amp_entity()));
                    assert(starts_with(rest, apos_entity()));
                }
                (B_APOS, 6)
            } else if n - i > 3 && s[i + 1] == 108 && s[i + 2] == 116 && s[i + 3] == 59 {
                proof {
                    assert(rest[1] == 108);
                    assert(!starts_with(rest, amp_entity()));
                    assert(!starts_with(rest, apos_entity()));
                    assert(starts_with(rest, lt_entity()));
                }
                (B_LT, 4)
            } else if n - i > 3 && s[i + 1] == 103 && s[i + 2] == 116 && s[i + 3] == 59 {
                proof {
                    assert(rest[1] == 103);
                    assert(!starts_with(rest, amp_entity()));
                    assert(!starts_with(rest, apos_entity()));
                    assert(!starts_with(rest, lt_entity()));
                    assert(starts_with(rest, gt_entity()));
                }
                (B_GT, 4)
            } else if n - i > 5 && s[i + 1] == 113 && s[i + 2] == 117 && s[i + 3] == 111 && s[i + 4]
                == 116 && s[i + 5] == 59 {
                proof {
                    assert(rest[1] == 113);
                    assert(!starts_with(rest, amp_entity()));
                    assert(!starts_with(rest, apos_entity()));
                    assert(!starts_with(rest, lt_entity()));
                    assert(!starts_with(rest, gt_entity()));
                    assert(starts_with(rest, quot_entity()));
                }
                (B_QUOT, 6)
            } else {
                proof {
                    assert(forall|j: int|
                        0 <= j < rest.len() ==> rest[j] == s@[i + j]);
                    assert(!starts_with(rest, amp_entity()));
                    assert(!starts_with(rest, apos_entity()));
                    assert(!starts_with(rest, lt_entity()));
                    assert(!starts_with(rest, gt_entity()));
                    assert(!starts_with(rest, quot_entity()));
                }
                return Err(());
            };
            let ghost old_out = out@;
            out.push(rep);
            proof {
                assert(rest.skip(width as int) =~= s@.skip(i + width));
                assert(spec_unescape(rest) == unescape_cons(
                    rep,
                    spec_unescape(rest.skip(width as int)),
                ));
                match spec_unescape(s@.skip(i + width)) {
                    Ok(t) => {
                        assert(spec_unescape(rest) == Ok::<Seq<u8>, ()>(seq![rep] + t));
                        assert(out@ + t =~= old_out + (seq![rep] + t));
                    },
                    Err(e) => {
                        assert(spec_unescape(rest) == Err::<Seq<u8>, ()>(e));
                    },
                }
            }
            i += width;
        } else {
            let ghost old_out = out@;
            out.push(b);
            proof {
                assert(rest.skip(1) =~= s@.skip(i + 1));
                match spec_unescape(s@.skip(i + 1)) {
                    Ok(t) => {
                        assert(spec_unescape(rest) == Ok::<Seq<u8>, ()>(seq![b] + t));
                        assert(out@ + t =~= old_out + (seq![b] + t));
                    },
                    Err(e) => {
                        assert(spec_unescape(rest) == Err::<Seq<u8>, ()>(e));
                    },
                }
            }
            i += 1;
        }
    }
    proof {
        assert(s@.skip(s@.len() as int) =~= Seq::<u8>::empty());
        assert(out@ + Seq::<u8>::empty() =~= out@);
    }
    Ok(out)
}

} // verus!
