//! Verified decimal text for the integer scalars of the format: formatting
//! a value into digit bytes and parsing digit bytes back, under the usual
//! integer grammar (optional sign, decimal digits, nothing else, overflow
//! rejected). Formatting and parsing invert each other.

use vstd::prelude::*;

verus! {

pub const ASCII_PLUS: u8 = 43;

pub const ASCII_MINUS: u8 = 45;

pub const ASCII_ZERO: u8 = 48;

pub const ASCII_NINE: u8 = 57;

/// The decimal digit bytes of `n`, most significant first, no sign and no
/// leading zero (except for `n == 0` itself).
pub open spec fn spec_digits(n: nat) -> Seq<u8>
    decreases n,
{
    if n < 10 {
        seq![(ASCII_ZERO + n) as u8]
    } else {
        spec_digits(n / 10).push((ASCII_ZERO + n % 10) as u8)
    }
}

pub open spec fn is_digit(b: u8) -> bool {
    ASCII_ZERO <= b <= ASCII_NINE
}

pub open spec fn all_digits(s: Seq<u8>) -> bool {
    forall|i: int| 0 <= i < s.len() ==> is_digit(#[trigger] s[i])
}

/// The numeric value of a digit string.
pub open spec fn digits_val(s: Seq<u8>) -> int
    decreases s.len(),
{
    if s.len() == 0 {
        0
    } else {
        digits_val(s.drop_last()) * 10 + (s.last() - ASCII_ZERO)
    }
}

/// The integer grammar shared by the signed and unsigned parsers: an
/// optional leading sign, then at least one digit and nothing else. Yields
/// the signed value, unbounded.
pub open spec fn spec_parse_int(s: Seq<u8>, allow_minus: bool) -> Option<int> {
    if s.len() == 0 {
        None
    } else {
        let neg = s[0] == ASCII_MINUS;
        let signed = s[0] == ASCII_PLUS || s[0] == ASCII_MINUS;
        let body = if signed {
            s.skip(1)
        } else {
            s
        };
        if neg && !allow_minus {
            None
        } else if body.len() == 0 || !all_digits(body) {
            None
        } else if neg {
            Some(-digits_val(body))
        } else {
            Some(digits_val(body))
        }
    }
}

/// What parsing a signed 64-bit decimal yields: the grammar above, with
/// values outside the representable range rejected.
pub open spec fn spec_parse_i64(s: Seq<u8>) -> Option<i64> {
    match spec_parse_int(s, true) {
        Some(v) => if i64::MIN <= v <= i64::MAX {
            Some(v as i64)
        } else {
            None
        },
        None => None,
    }
}

/// What parsing an unsigned 64-bit decimal yields: no minus sign, values
/// above the representable range rejected.
pub open spec fn spec_parse_u64(s: Seq<u8>) -> Option<u64> {
    match spec_parse_int(s, false) {
        Some(v) => if 0 <= v <= u64::MAX {
            Some(v as u64)
        } else {
            None
        },
        None => None,
    }
}

/// Parsing a narrower integer is parsing the wide one plus a range check.
pub open spec fn spec_parse_i32(s: Seq<u8>) -> Option<i32> {
    match spec_parse_int(s, true) {
        Some(v) => if i32::MIN <= v <= i32::MAX {
            Some(v as i32)
        } else {
            None
        },
        None => None,
    }
}

pub open spec fn spec_parse_u32(s: Seq<u8>) -> Option<u32> {
    match spec_parse_int(s, false) {
        Some(v) => if 0 <= v <= u32::MAX {
            Some(v as u32)
        } else {
            None
        },
        None => None,
    }
}

/// The digit string of a value is never empty and holds digits only.
pub proof fn lemma_spec_digits_wf(n: nat)
    ensures
        spec_digits(n).len() >= 1,
        all_digits(spec_digits(n)),
        digits_val(spec_digits(n)) == n,
    decreases n,
{
    if n < 10 {
        let d = (ASCII_ZERO + n) as u8;
        assert(spec_digits(n) == seq![d]);
        assert(seq![d].drop_last() =~= Seq::<u8>::empty());
        assert(seq![d].last() == d);
        assert(digits_val(seq![d]) == digits_val(Seq::<u8>::empty()) * 10 + (d - ASCII_ZERO));
        assert(digits_val(spec_digits(n)) == n);
    } else {
        lemma_spec_digits_wf(n / 10);
        let pre = spec_digits(n / 10);
        let d = (ASCII_ZERO + n % 10) as u8;
        assert(spec_digits(n) == pre.push(d));
        assert(pre.push(d).drop_last() == pre);
        assert(pre.push(d).last() == d);
        assert(digits_val(pre.push(d)) == digits_val(pre) * 10 + (n % 10));
        assert(digits_val(pre) * 10 + n % 10 == n) by {
            vstd::arithmetic::div_mod::lemma_fundamental_div_mod(n as int, 10);
        }
        assert forall|i: int| 0 <= i < pre.push(d).len() implies is_digit(
            #[trigger] pre.push(d)[i],
        ) by {
            if i < pre.len() {
                assert(is_digit(pre[i]));
            }
        }
    }
}

/// Digit strings have nonnegative value.
pub proof fn lemma_digits_val_nonneg(s: Seq<u8>)
    requires
        all_digits(s),
    ensures
        digits_val(s) >= 0,
    decreases s.len(),
{
    if s.len() > 0 {
        lemma_digits_val_nonneg(s.drop_last());
        assert(is_digit(s.last()));
    }
}

/// A digit-string prefix is worth no more than the whole string.
pub proof fn lemma_digits_val_prefix_le(s: Seq<u8>, i: int)
    requires
        all_digits(s),
        0 <= i <= s.len(),
    ensures
        digits_val(s.take(i)) <= digits_val(s),
    decreases s.len() - i,
{
    if i == s.len() {
        assert(s.take(i) =~= s);
    } else {
        lemma_digits_val_prefix_le(s, i + 1);
        let t = s.take(i + 1);
        assert(t.drop_last() =~= s.take(i));
        assert(t.last() == s[i]);
        assert(is_digit(s[i]));
        lemma_digits_val_nonneg(s.take(i));
        assert(digits_val(s.take(i)) <= digits_val(t));
    }
}

/// Parse an unsigned 64-bit decimal under the integer grammar.
pub fn parse_u64(s: &[u8]) -> (r: Option<u64>)
    ensures
        r == spec_parse_u64(s@),
{
    match parse_magnitude(s, false) {
        Some(p) => Some(p.1),
        None => None,
    }
}

/// Parse a signed 64-bit decimal under the integer grammar.
pub fn parse_i64(s: &[u8]) -> (r: Option<i64>)
    ensures
        r == spec_parse_i64(s@),
{
    let mag = match parse_magnitude(s, true) {
        Some(m) => m,
        None => return None,
    };
    if mag.0 {
        if mag.1 > 9223372036854775808u64 {
            None
        } else if mag.1 == 9223372036854775808u64 {
            Some(i64::MIN)
        } else {
            Some(-(mag.1 as i64))
        }
    } else {
        if mag.1 > i64::MAX as u64 {
            None
        } else {
            Some(mag.1 as i64)
        }
    }
}

/// Parse a signed 32-bit decimal: the 64-bit parse plus a range check.
pub fn parse_i32(s: &[u8]) -> (r: Option<i32>)
    ensures
        r == spec_parse_i32(s@),
{
    match parse_i64(s) {
        Some(v) => if i32::MIN as i64 <= v && v <= i32::MAX as i64 {
            Some(v as i32)
        } else {
            None
        },
        None => None,
    }
}

/// Parse an unsigned 32-bit decimal: the 64-bit parse plus a range check.
pub fn parse_u32(s: &[u8]) -> (r: Option<u32>)
    ensures
        r == spec_parse_u32(s@),
{
    match parse_u64(s) {
        Some(v) => if v <= u32::MAX as u64 {
            Some(v as u32)
        } else {
            None
        },
        None => None,
    }
}

/// The magnitude (absolute value) a decimal parses to, if the grammar
/// matches and the magnitude fits a machine word; `None` exactly when the
/// grammar fails or the magnitude exceeds the word, in which case the
/// grammar value (if any) exceeds it in magnitude too.
fn parse_magnitude(s: &[u8], allow_minus: bool) -> (r: Option<(bool, u64)>)
    ensures
        match r {
            Some(p) => {
                &&& spec_parse_int(s@, allow_minus) == Some(
                    if p.0 {
                        -(p.1 as int)
                    } else {
                        p.1 as int
                    },
                )
                &&& (p.0 ==> s@[0] == ASCII_MINUS)
            },
            None => match spec_parse_int(s@, allow_minus) {
                Some(v) => v > u64::MAX || v < -(u64::MAX as int),
                None => true,
            },
        },
{
    if s.len() == 0 {
        return None;
    }
    let neg = s[0] == ASCII_MINUS;
    let signed = s[0] == ASCII_PLUS || s[0] == ASCII_MINUS;
    if neg && !allow_minus {
        return None;
    }
    let start: usize = if signed {
        1
    } else {
        0
    };
    if s.len() == start {
        proof {
            assert(s@.skip(start as int).len() == 0);
        }
        return None;
    }
    let ghost body = if signed {
        s@.skip(1)
    } else {
        s@
    };
    let mut acc: u64 = 0;
    let mut i: usize = start;
    while i < s.len()
        invariant
            start <= i <= s@.len(),
            s@.len() > 0,
            signed == (s@[0] == ASCII_PLUS || s@[0] == ASCII_MINUS),
            neg == (s@[0] == ASCII_MINUS),
            allow_minus || !neg,
            start == if signed {
                1int
            } else {
                0int
            },
            body == if signed {
                s@.skip(1)
            } else {
                s@
            },
            body.len() == s@.len() - start,
            all_digits(body.take(i - start)),
            acc == digits_val(body.take(i - start)),
        decreases s@.len() - i,
    {
        let b = s[i];
        proof {
            assert(body[i - start] == s@[i as int]);
        }
        if b < ASCII_ZERO || b > ASCII_NINE {
            proof {
                assert(!is_digit(body[i - start]));
                assert(!all_digits(body));
            }
            return None;
        }
        let d = (b - ASCII_ZERO) as u64;
        proof {
            assert(body.take(i - start + 1).drop_last() =~= body.take(i - start));
            assert(body.take(i - start + 1).last() == body[i - start]);
            assert(all_digits(body.take(i - start + 1)));
        }
        proof {
            assert(digits_val(body.take(i - start + 1)) == acc * 10 + (b - ASCII_ZERO));
        }
        if acc > u64::MAX / 10 {
            proof {
                assert(acc * 10 + d > u64::MAX) by {
                    vstd::arithmetic::div_mod::lemma_fundamental_div_mod(u64::MAX as int, 10);
                }
                lemma_overflow_digits(body, i - start + 1, acc as int * 10 + d);
                lemma_overflow_rejects(s@, body, allow_minus, signed);
            }
            return None;
        }
        let acc10 = acc * 10;
        if d > u64::MAX - acc10 {
            proof {
                lemma_overflow_digits(body, i - start + 1, acc as int * 10 + d);
                lemma_overflow_rejects(s@, body, allow_minus, signed);
            }
            return None;
        }
        acc = acc10 + d;
        i += 1;
    }
    proof {
        assert(body.take(i - start) =~= body);
    }
    Some((neg, acc))
}

/// The decimal text of a signed value: a minus sign for negatives, then the
/// digits of the magnitude.
pub open spec fn spec_fmt_int(v: int) -> Seq<u8> {
    if v < 0 {
        seq![ASCII_MINUS] + spec_digits((-v) as nat)
    } else {
        spec_digits(v as nat)
    }
}

/// Peeling the low decimal digit off `m`: the digit string of `m` is the
/// digit string of the quotient followed by the low digit.
proof fn lemma_digits_unfold(m: nat)
    ensures
        m < 10 ==> m / 10 == 0nat && spec_digits(m) == seq![(ASCII_ZERO + m % 10) as u8],
        m >= 10 ==> m / 10 > 0nat && spec_digits(m) == spec_digits(m / 10) + seq![
            (ASCII_ZERO + m % 10) as u8,
        ],
{
    let d = (ASCII_ZERO + m % 10) as u8;
    if m < 10 {
        assert(m % 10 == m && m / 10 == 0nat) by {
            vstd::arithmetic::div_mod::lemma_fundamental_div_mod(m as int, 10);
        }
    } else {
        assert(m / 10 > 0nat) by {
            vstd::arithmetic::div_mod::lemma_fundamental_div_mod(m as int, 10);
        }
        assert(spec_digits(m / 10).push(d) =~= spec_digits(m / 10) + seq![d]);
    }
}

/// Format an unsigned value as its decimal digit bytes.
pub fn fmt_u64(n: u64) -> (r: Vec<u8>)
    ensures
        r@ == spec_digits(n as nat),
{
    let mut rev: Vec<u8> = Vec::new();
    let mut m: u64 = n;
    rev.push((m % 10) as u8 + ASCII_ZERO);
    proof {
        lemma_digits_unfold(m as nat);
        if m >= 10 {
            assert(seq![(ASCII_ZERO + m as nat % 10) as u8] =~= rev@.reverse());
        } else {
            assert(spec_digits(n as nat) =~= rev@.reverse());
        }
    }
    m = m / 10;
    while m > 0
        invariant
            rev@.len() >= 1,
            spec_digits(n as nat) == if m == 0 {
                rev@.reverse()
            } else {
                spec_digits(m as nat) + rev@.reverse()
            },
        decreases m,
    {
        let ghost old_rev = rev@;
        let d = (m % 10) as u8 + ASCII_ZERO;
        rev.push(d);
        proof {
            lemma_digits_unfold(m as nat);
            assert(rev@.reverse() =~= seq![d] + old_rev.reverse());
            if m >= 10 {
                assert(spec_digits(m as nat) + old_rev.reverse() =~= spec_digits(m as nat / 10)
                    + rev@.reverse());
            } else {
                assert(spec_digits(m as nat) + old_rev.reverse() =~= rev@.reverse());
            }
        }
        m = m / 10;
    }
    let mut out: Vec<u8> = Vec::new();
    let mut i: usize = rev.len();
    while i > 0
        invariant
            i <= rev@.len(),
            out@.len() == rev@.len() - i,
            forall|j: int| 0 <= j < out@.len() ==> out@[j] == rev@[rev@.len() - 1 - j],
        decreases i,
    {
        i -= 1;
        out.push(rev[i]);
    }
    proof {
        assert(out@ =~= rev@.reverse());
    }
    out
}

/// Format a signed value as its decimal text.
pub fn fmt_i64(v: i64) -> (r: Vec<u8>)
    ensures
        r@ == spec_fmt_int(v as int),
{
    if v >= 0 {
        fmt_u64(v as u64)
    } else {
        let mag: u64 = if v == i64::MIN {
            9223372036854775808u64
        } else {
            (-v) as u64
        };
        let digits = fmt_u64(mag);
        let mut out: Vec<u8> = Vec::new();
        out.push(ASCII_MINUS);
        let mut i: usize = 0;
        while i < digits.len()
            invariant
                i <= digits@.len(),
                out@.len() == i + 1,
                out@[0] == ASCII_MINUS,
                forall|j: int| 0 <= j < i ==> out@[j + 1] == digits@[j],
            decreases digits@.len() - i,
        {
            out.push(digits[i]);
            i += 1;
        }
        proof {
            assert(out@ =~= seq![ASCII_MINUS] + digits@);
        }
        out
    }
}

/// A string whose digit body is worth more than a machine word parses, if at
/// all, to a value beyond the word in magnitude.
proof fn lemma_overflow_rejects(s: Seq<u8>, body: Seq<u8>, allow_minus: bool, signed: bool)
    requires
        s.len() > 0,
        signed == (s[0] == ASCII_PLUS || s[0] == ASCII_MINUS),
        body == if signed {
            s.skip(1)
        } else {
            s
        },
        all_digits(body) ==> digits_val(body) > u64::MAX,
    ensures
        match spec_parse_int(s, allow_minus) {
            Some(v) => v > u64::MAX || v < -(u64::MAX as int),
            None => true,
        },
{
}


/// Decimal text parses back under the shared grammar to the value it was
/// formatted from.
pub proof fn lemma_parse_fmt_int(v: int)
    ensures
        spec_parse_int(spec_fmt_int(v), true) == Some(v),
        v >= 0 ==> spec_parse_int(spec_fmt_int(v), false) == Some(v),
{
    if v >= 0 {
        let s = spec_digits(v as nat);
        lemma_spec_digits_wf(v as nat);
        assert(is_digit(s[0]));
        assert(spec_parse_int(s, true) == Some(digits_val(s)));
        assert(spec_parse_int(s, false) == Some(digits_val(s)));
    } else {
        let mag = (-v) as nat;
        let body = spec_digits(mag);
        lemma_spec_digits_wf(mag);
        let s = seq![ASCII_MINUS] + body;
        assert(s[0] == ASCII_MINUS);
        assert(s.skip(1) =~= body);
        assert(spec_parse_int(s, true) == Some(-digits_val(body)));
    }
}

/// Decimal text holds only digits and at most a leading sign: never a tag
/// opener or closer, never an ampersand, and never nothing.
pub proof fn lemma_fmt_plain(v: int)
    ensures
        spec_fmt_int(v).len() >= 1,
        forall|i: int|
            0 <= i < spec_fmt_int(v).len() ==> #[trigger] spec_fmt_int(v)[i] != 60
                && spec_fmt_int(v)[i] != 62 && spec_fmt_int(v)[i] != 38,
{
    if v >= 0 {
        lemma_spec_digits_wf(v as nat);
        assert forall|i: int| 0 <= i < spec_fmt_int(v).len() implies #[trigger] spec_fmt_int(v)[i]
            != 60 && spec_fmt_int(v)[i] != 62 && spec_fmt_int(v)[i] != 38 by {
            assert(is_digit(spec_digits((v) as nat)[i]));
        }
    } else {
        let mag = (-v) as nat;
        lemma_spec_digits_wf(mag);
        assert forall|i: int| 0 <= i < spec_fmt_int(v).len() implies #[trigger] spec_fmt_int(v)[i]
            != 60 && spec_fmt_int(v)[i] != 62 && spec_fmt_int(v)[i] != 38 by {
            if i >= 1 {
                assert(spec_fmt_int(v)[i] == spec_digits(mag)[i - 1]);
                assert(is_digit(spec_digits(mag)[i - 1]));
            }
        }
    }
}

/// If some digit prefix is already worth more than a machine word, the whole
/// string (when it parses at all) is worth more too.
proof fn lemma_overflow_digits(body: Seq<u8>, k: int, partial: int)
    requires
        0 < k <= body.len(),
        all_digits(body.take(k)),
        digits_val(body.take(k)) == partial,
        partial > u64::MAX,
    ensures
        all_digits(body) ==> digits_val(body) > u64::MAX,
{
    if all_digits(body) {
        lemma_digits_val_prefix_le(body, k);
    }
}

} // verus!
