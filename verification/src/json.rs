//! Byte-level primitives of the wire encoding: whitespace, strings with
//! escapes, integers, and raw number tokens.
//!
//! Each construct has a spec-level parser over `Seq<u8>` that defines the
//! accepted language, an executable parser proved to return exactly what
//! the spec parser says, and, for the response direction, an emitter whose
//! output is pinned byte for byte.

use vstd::prelude::*;

verus! {

pub open spec fn is_ws(b: u8) -> bool {
    b == 0x20 || b == 0x09 || b == 0x0a || b == 0x0d
}

pub open spec fn is_digit(b: u8) -> bool {
    0x30 <= b <= 0x39
}

/// A byte the encoder can place inside a string: printable or one of the
/// five control bytes that have named escapes.
pub open spec fn encodable_byte(b: u8) -> bool {
    b >= 0x20 || b == 0x08 || b == 0x09 || b == 0x0a || b == 0x0c || b == 0x0d
}

pub open spec fn valid_text(t: Seq<u8>) -> bool {
    forall|k: int| 0 <= k < t.len() ==> encodable_byte(#[trigger] t[k])
}

// ---------------------------------------------------------------------
// Whitespace
// ---------------------------------------------------------------------

pub open spec fn spec_skip_ws(s: Seq<u8>, i: int) -> int
    decreases s.len() - i,
{
    if 0 <= i < s.len() && is_ws(s[i]) {
        spec_skip_ws(s, i + 1)
    } else {
        i
    }
}

pub proof fn lemma_skip_ws_bounds(s: Seq<u8>, i: int)
    requires
        0 <= i <= s.len(),
    ensures
        i <= spec_skip_ws(s, i) <= s.len(),
    decreases s.len() - i,
{
    if i < s.len() && is_ws(s[i]) {
        lemma_skip_ws_bounds(s, i + 1);
    }
}

pub fn skip_ws(s: &Vec<u8>, i: usize) -> (j: usize)
    requires
        i <= s@.len(),
    ensures
        j as int == spec_skip_ws(s@, i as int),
        i <= j <= s@.len(),
{
    let mut k: usize = i;
    loop
        invariant
            i <= k <= s@.len(),
            spec_skip_ws(s@, i as int) == spec_skip_ws(s@, k as int),
        decreases s@.len() - k,
    {
        if k >= s.len() {
            return k;
        }
        let b = s[k];
        if b == 0x20 || b == 0x09 || b == 0x0a || b == 0x0d {
            k = k + 1;
        } else {
            return k;
        }
    }
}

// ---------------------------------------------------------------------
// Strings
// ---------------------------------------------------------------------

/// What a backslash escape denotes; escapes outside this table are refused.
pub open spec fn spec_unescape(b: u8) -> Option<u8> {
    if b == 0x22 {
        Some(0x22)
    } else if b == 0x5c {
        Some(0x5c)
    } else if b == 0x2f {
        Some(0x2f)
    } else if b == 0x62 {
        Some(0x08)
    } else if b == 0x66 {
        Some(0x0c)
    } else if b == 0x6e {
        Some(0x0a)
    } else if b == 0x72 {
        Some(0x0d)
    } else if b == 0x74 {
        Some(0x09)
    } else {
        None
    }
}

/// Parses the rest of a string after the opening quote, appending the
/// decoded bytes to `acc`; returns the text and the index after the
/// closing quote.
pub open spec fn spec_parse_string_body(s: Seq<u8>, i: int, acc: Seq<u8>) -> Option<(Seq<u8>, int)>
    decreases s.len() - i,
{
    if !(0 <= i < s.len()) {
        None
    } else {
        let b = s[i];
        if b == 0x22 {
            Some((acc, i + 1))
        } else if b == 0x5c {
            if i + 1 < s.len() {
                match spec_unescape(s[i + 1]) {
                    Some(u) => spec_parse_string_body(s, i + 2, acc.push(u)),
                    None => None,
                }
            } else {
                None
            }
        } else if b < 0x20 {
            None
        } else {
            spec_parse_string_body(s, i + 1, acc.push(b))
        }
    }
}

pub open spec fn spec_parse_string(s: Seq<u8>, i: int) -> Option<(Seq<u8>, int)> {
    if 0 <= i < s.len() && s[i] == 0x22 {
        spec_parse_string_body(s, i + 1, Seq::empty())
    } else {
        None
    }
}

pub proof fn lemma_parse_string_body_bounds(s: Seq<u8>, i: int, acc: Seq<u8>, v: Seq<u8>, j: int)
    requires
        0 <= i,
        spec_parse_string_body(s, i, acc) == Some((v, j)),
    ensures
        i < j <= s.len(),
    decreases s.len() - i,
{
    let b = s[i];
    if b == 0x22 {
    } else if b == 0x5c {
        match spec_unescape(s[i + 1]) {
            Some(u) => lemma_parse_string_body_bounds(s, i + 2, acc.push(u), v, j),
            None => (),
        }
    } else {
        lemma_parse_string_body_bounds(s, i + 1, acc.push(b), v, j)
    }
}

/// A decoded string holds only bytes the encoder can write back.
pub proof fn lemma_parse_string_body_valid(s: Seq<u8>, i: int, acc: Seq<u8>, v: Seq<u8>, j: int)
    requires
        0 <= i,
        valid_text(acc),
        spec_parse_string_body(s, i, acc) == Some((v, j)),
    ensures
        valid_text(v),
    decreases s.len() - i,
{
    let b = s[i];
    if b == 0x22 {
    } else if b == 0x5c {
        match spec_unescape(s[i + 1]) {
            Some(u) => {
                assert(valid_text(acc.push(u)));
                lemma_parse_string_body_valid(s, i + 2, acc.push(u), v, j);
            },
            None => (),
        }
    } else {
        assert(valid_text(acc.push(b)));
        lemma_parse_string_body_valid(s, i + 1, acc.push(b), v, j);
    }
}

pub proof fn lemma_parse_string_valid(s: Seq<u8>, i: int, v: Seq<u8>, j: int)
    requires
        spec_parse_string(s, i) == Some((v, j)),
    ensures
        valid_text(v),
{
    assert(valid_text(Seq::<u8>::empty()));
    lemma_parse_string_body_valid(s, i + 1, Seq::empty(), v, j);
}

fn unescape_byte(b: u8) -> (r: Option<u8>)
    ensures
        r == spec_unescape(b),
{
    if b == 0x22 {
        Some(0x22)
    } else if b == 0x5c {
        Some(0x5c)
    } else if b == 0x2f {
        Some(0x2f)
    } else if b == 0x62 {
        Some(0x08)
    } else if b == 0x66 {
        Some(0x0c)
    } else if b == 0x6e {
        Some(0x0a)
    } else if b == 0x72 {
        Some(0x0d)
    } else if b == 0x74 {
        Some(0x09)
    } else {
        None
    }
}

/// Parses a quoted string starting at `i`; returns the decoded text and
/// the index just past the closing quote.
pub fn parse_string(s: &Vec<u8>, i: usize) -> (r: Option<(Vec<u8>, usize)>)
    ensures
        match r {
            Some(p) => {
                &&& spec_parse_string(s@, i as int) == Some((p.0@, p.1 as int))
                &&& i < p.1 <= s@.len()
            },
            None => spec_parse_string(s@, i as int) is None,
        },
{
    if !(i < s.len()) {
        return None;
    }
    if s[i] != 0x22 {
        return None;
    }
    let mut k: usize = i + 1;
    let mut acc: Vec<u8> = Vec::new();
    loop
        invariant
            i + 1 <= k <= s@.len(),
            i < s@.len(),
            s@[i as int] == 0x22,
            spec_parse_string_body(s@, i as int + 1, Seq::empty()) == spec_parse_string_body(
                s@,
                k as int,
                acc@,
            ),
        decreases s@.len() - k,
    {
        if k >= s.len() {
            return None;
        }
        let b = s[k];
        if b == 0x22 {
            return Some((acc, k + 1));
        } else if b == 0x5c {
            if k + 1 >= s.len() {
                return None;
            }
            let u_opt = unescape_byte(s[k + 1]);
            match u_opt {
                None => {
                    return None;
                },
                Some(u) => {
                    acc.push(u);
                    k = k + 2;
                },
            }
        } else if b < 0x20 {
            return None;
        } else {
            acc.push(b);
            k = k + 1;
        }
    }
}

// ---------------------------------------------------------------------
// Digit runs and integers
// ---------------------------------------------------------------------

/// One digit step of the magnitude scan. Values above the wire integer
/// range collapse to a single too-big marker just past `2^63`, so the
/// scan never needs more than 64 bits while the range check stays exact.
pub open spec fn spec_step_digit(acc: int, d: int) -> int {
    if acc > 922337203685477580 {
        9223372036854775809
    } else {
        acc * 10 + d
    }
}

/// Scans a run of digits starting at `i`, folding them into `acc`;
/// returns the folded magnitude and the index after the run.
pub open spec fn spec_parse_digits(s: Seq<u8>, i: int, acc: int) -> (int, int)
    decreases s.len() - i,
{
    if 0 <= i < s.len() && is_digit(s[i]) {
        spec_parse_digits(s, i + 1, spec_step_digit(acc, s[i] - 0x30))
    } else {
        (acc, i)
    }
}

pub proof fn lemma_parse_digits_bounds(s: Seq<u8>, i: int, acc: int)
    requires
        0 <= i <= s.len(),
    ensures
        i <= spec_parse_digits(s, i, acc).1 <= s.len(),
        0 <= i < s.len() && is_digit(s[i]) ==> spec_parse_digits(s, i, acc).1 >= i + 1,
        0 <= acc <= 9223372036854775809 ==> acc <= spec_parse_digits(s, i, acc).0
            <= 9223372036854775809,
    decreases s.len() - i,
{
    if i < s.len() && is_digit(s[i]) {
        lemma_parse_digits_bounds(s, i + 1, spec_step_digit(acc, s[i] - 0x30));
    }
}

/// Scans a digit run, folding into a saturating 64-bit magnitude.
pub fn scan_digits(s: &Vec<u8>, i: usize) -> (r: (u64, usize))
    requires
        i <= s@.len(),
    ensures
        spec_parse_digits(s@, i as int, 0) == (r.0 as int, r.1 as int),
        i <= r.1 <= s@.len(),
{
    let mut acc: u64 = 0;
    let mut k: usize = i;
    loop
        invariant
            i <= k <= s@.len(),
            acc <= 9223372036854775809,
            spec_parse_digits(s@, i as int, 0) == spec_parse_digits(s@, k as int, acc as int),
        decreases s@.len() - k,
    {
        if k >= s.len() {
            return (acc, k);
        }
        let b = s[k];
        if !(0x30 <= b && b <= 0x39) {
            return (acc, k);
        }
        let d = (b - 0x30) as u64;
        if acc > 922337203685477580 {
            acc = 9223372036854775809;
        } else {
            acc = acc * 10 + d;
        }
        k = k + 1;
    }
}

/// Parses a wire integer: optional minus, then either a lone `0` or a
/// nonzero-led digit run, whose value must fit the signed 64-bit range.
pub open spec fn spec_parse_int(s: Seq<u8>, i: int) -> Option<(int, int)> {
    let neg = 0 <= i < s.len() && s[i] == 0x2d;
    let j = if neg {
        i + 1
    } else {
        i
    };
    if 0 <= j < s.len() && is_digit(s[j]) {
        if s[j] == 0x30 {
            Some((0, j + 1))
        } else {
            let m = spec_parse_digits(s, j, 0).0;
            let k = spec_parse_digits(s, j, 0).1;
            if neg {
                if m <= 9223372036854775808 {
                    Some((-m, k))
                } else {
                    None
                }
            } else {
                if m <= 9223372036854775807 {
                    Some((m, k))
                } else {
                    None
                }
            }
        }
    } else {
        None
    }
}

pub proof fn lemma_parse_int_bounds(s: Seq<u8>, i: int, v: int, j: int)
    requires
        0 <= i <= s.len(),
        spec_parse_int(s, i) == Some((v, j)),
    ensures
        i < j <= s.len(),
        i64::MIN <= v <= i64::MAX,
{
    let neg = i < s.len() && s[i] == 0x2d;
    let j0 = if neg {
        i + 1
    } else {
        i
    };
    if j0 < s.len() && is_digit(s[j0]) && s[j0] != 0x30 {
        lemma_parse_digits_bounds(s, j0, 0);
    }
}

/// Parses a wire integer into an `i64`.
pub fn parse_i64(s: &Vec<u8>, i: usize) -> (r: Option<(i64, usize)>)
    requires
        i <= s@.len(),
    ensures
        match r {
            Some(p) => {
                &&& spec_parse_int(s@, i as int) == Some((p.0 as int, p.1 as int))
                &&& i < p.1 <= s@.len()
            },
            None => spec_parse_int(s@, i as int) is None,
        },
{
    let mut j: usize = i;
    let mut neg = false;
    if j < s.len() && s[j] == 0x2d {
        neg = true;
        j = j + 1;
    }
    if !(j < s.len()) {
        return None;
    }
    let b = s[j];
    if !(0x30 <= b && b <= 0x39) {
        return None;
    }
    if b == 0x30 {
        return Some((0i64, j + 1));
    }
    let (m, k) = scan_digits(s, j);
    proof {
        lemma_parse_digits_bounds(s@, j as int, 0);
    }
    if neg {
        if m <= 9223372036854775807u64 {
            Some((-(m as i64), k))
        } else if m == 9223372036854775808u64 {
            Some((i64::MIN, k))
        } else {
            None
        }
    } else {
        if m <= 9223372036854775807u64 {
            Some((m as i64, k))
        } else {
            None
        }
    }
}

// ---------------------------------------------------------------------
// Number tokens (kept verbatim)
// ---------------------------------------------------------------------

pub open spec fn spec_skip_digits(s: Seq<u8>, i: int) -> int
    decreases s.len() - i,
{
    if 0 <= i < s.len() && is_digit(s[i]) {
        spec_skip_digits(s, i + 1)
    } else {
        i
    }
}

pub proof fn lemma_skip_digits_bounds(s: Seq<u8>, i: int)
    requires
        0 <= i <= s.len(),
    ensures
        i <= spec_skip_digits(s, i) <= s.len(),
    decreases s.len() - i,
{
    if i < s.len() && is_digit(s[i]) {
        lemma_skip_digits_bounds(s, i + 1);
    }
}

pub fn skip_digits(s: &Vec<u8>, i: usize) -> (j: usize)
    requires
        i <= s@.len(),
    ensures
        j as int == spec_skip_digits(s@, i as int),
        i <= j <= s@.len(),
{
    let mut k: usize = i;
    loop
        invariant
            i <= k <= s@.len(),
            spec_skip_digits(s@, i as int) == spec_skip_digits(s@, k as int),
        decreases s@.len() - k,
    {
        if k >= s.len() {
            return k;
        }
        let b = s[k];
        if 0x30 <= b && b <= 0x39 {
            k = k + 1;
        } else {
            return k;
        }
    }
}

/// Fraction part: either absent, or a dot followed by at least one digit.
pub open spec fn spec_parse_frac(s: Seq<u8>, i: int) -> Option<int> {
    if 0 <= i < s.len() && s[i] == 0x2e {
        if i + 1 < s.len() && is_digit(s[i + 1]) {
            Some(spec_skip_digits(s, i + 1))
        } else {
            None
        }
    } else {
        Some(i)
    }
}

/// Exponent part: either absent, or `e`/`E`, an optional sign, and at
/// least one digit.
pub open spec fn spec_parse_exp(s: Seq<u8>, i: int) -> Option<int> {
    if 0 <= i < s.len() && (s[i] == 0x65 || s[i] == 0x45) {
        let j = if i + 1 < s.len() && (s[i + 1] == 0x2b || s[i + 1] == 0x2d) {
            i + 2
        } else {
            i + 1
        };
        if 0 <= j < s.len() && is_digit(s[j]) {
            Some(spec_skip_digits(s, j))
        } else {
            None
        }
    } else {
        Some(i)
    }
}

/// Parses a number and returns its literal bytes unchanged, together with
/// the index after the token.
pub open spec fn spec_parse_number_token(s: Seq<u8>, i: int) -> Option<(Seq<u8>, int)> {
    let j = if 0 <= i < s.len() && s[i] == 0x2d {
        i + 1
    } else {
        i
    };
    if 0 <= j < s.len() && is_digit(s[j]) {
        let k = if s[j] == 0x30 {
            j + 1
        } else {
            spec_skip_digits(s, j)
        };
        match spec_parse_frac(s, k) {
            None => None,
            Some(k2) => match spec_parse_exp(s, k2) {
                None => None,
                Some(k3) => Some((s.subrange(i, k3), k3)),
            },
        }
    } else {
        None
    }
}

/// A byte sequence that is exactly one well-formed number token.
pub open spec fn is_number_token(t: Seq<u8>) -> bool {
    spec_parse_number_token(t, 0) == Some((t, t.len() as int))
}

pub proof fn lemma_frac_bounds(s: Seq<u8>, i: int, k2: int)
    requires
        0 <= i <= s.len(),
        spec_parse_frac(s, i) == Some(k2),
    ensures
        i <= k2 <= s.len(),
{
    if i < s.len() && s[i] == 0x2e {
        lemma_skip_digits_bounds(s, i + 1);
    }
}

pub proof fn lemma_exp_bounds(s: Seq<u8>, i: int, k3: int)
    requires
        0 <= i <= s.len(),
        spec_parse_exp(s, i) == Some(k3),
    ensures
        i <= k3 <= s.len(),
{
    if i < s.len() && (s[i] == 0x65 || s[i] == 0x45) {
        let j = if i + 1 < s.len() && (s[i + 1] == 0x2b || s[i + 1] == 0x2d) {
            i + 2
        } else {
            i + 1
        };
        lemma_skip_digits_bounds(s, j);
    }
}

pub proof fn lemma_number_token_bounds(s: Seq<u8>, i: int, t: Seq<u8>, e: int)
    requires
        0 <= i <= s.len(),
        spec_parse_number_token(s, i) == Some((t, e)),
    ensures
        i < e <= s.len(),
        t == s.subrange(i, e),
        t.len() == e - i,
{
    let j = if i < s.len() && s[i] == 0x2d {
        i + 1
    } else {
        i
    };
    let k = if s[j] == 0x30 {
        j + 1
    } else {
        spec_skip_digits(s, j)
    };
    if s[j] != 0x30 {
        lemma_skip_digits_bounds(s, j + 1);
        assert(spec_skip_digits(s, j) == spec_skip_digits(s, j + 1));
    }
    assert(j + 1 <= k <= s.len());
    match spec_parse_frac(s, k) {
        None => (),
        Some(k2) => {
            lemma_frac_bounds(s, k, k2);
            match spec_parse_exp(s, k2) {
                None => (),
                Some(k3) => {
                    lemma_exp_bounds(s, k2, k3);
                },
            }
        },
    }
}

/// Parses a number token, returning its literal bytes.
pub fn parse_number_token(s: &Vec<u8>, i: usize) -> (r: Option<(Vec<u8>, usize)>)
    requires
        i <= s@.len(),
    ensures
        match r {
            Some(p) => {
                &&& spec_parse_number_token(s@, i as int) == Some((p.0@, p.1 as int))
                &&& i < p.1 <= s@.len()
            },
            None => spec_parse_number_token(s@, i as int) is None,
        },
{
    let mut j: usize = i;
    if j < s.len() && s[j] == 0x2d {
        j = j + 1;
    }
    if !(j < s.len()) {
        return None;
    }
    let b = s[j];
    if !(0x30 <= b && b <= 0x39) {
        return None;
    }
    let k: usize = if b == 0x30 {
        j + 1
    } else {
        skip_digits(s, j)
    };
    // fraction
    let k2: usize;
    if k < s.len() && s[k] == 0x2e {
        if k + 1 < s.len() && {
            let c = s[k + 1];
            0x30 <= c && c <= 0x39
        } {
            k2 = skip_digits(s, k + 1);
        } else {
            return None;
        }
    } else {
        k2 = k;
    }
    // exponent
    let k3: usize;
    if k2 < s.len() && (s[k2] == 0x65 || s[k2] == 0x45) {
        let j2: usize = if k2 + 1 < s.len() && (s[k2 + 1] == 0x2b || s[k2 + 1] == 0x2d) {
            k2 + 2
        } else {
            k2 + 1
        };
        if j2 < s.len() && {
            let c = s[j2];
            0x30 <= c && c <= 0x39
        } {
            k3 = skip_digits(s, j2);
        } else {
            return None;
        }
    } else {
        k3 = k2;
    }
    proof {
        assert(spec_parse_frac(s@, k as int) == Some(k2 as int));
        assert(spec_parse_exp(s@, k2 as int) == Some(k3 as int));
        assert(spec_parse_number_token(s@, i as int) == Some(
            (s@.subrange(i as int, k3 as int), k3 as int),
        ));
        lemma_number_token_bounds(s@, i as int, s@.subrange(i as int, k3 as int), k3 as int);
    }
    // copy the token bytes
    let mut tok: Vec<u8> = Vec::new();
    proof {
        assert(tok@ =~= s@.subrange(i as int, i as int));
    }
    for p in i..k3
        invariant
            i <= p <= k3 <= s@.len(),
            tok@ == s@.subrange(i as int, p as int),
    {
        tok.push(s[p]);
        proof {
            assert(tok@ =~= s@.subrange(i as int, p as int + 1));
        }
    }
    proof {
        assert(tok@ =~= s@.subrange(i as int, k3 as int));
    }
    Some((tok, k3))
}

// ---------------------------------------------------------------------
// Emitters: the canonical byte form of texts and integers
// ---------------------------------------------------------------------

/// The canonical encoding of one string byte: named escapes for the quote,
/// the backslash and the five control bytes with short forms; every other
/// byte stands for itself.
pub open spec fn esc_byte(b: u8) -> Seq<u8> {
    if b == 0x22 {
        seq![0x5cu8, 0x22u8]
    } else if b == 0x5c {
        seq![0x5cu8, 0x5cu8]
    } else if b == 0x08 {
        seq![0x5cu8, 0x62u8]
    } else if b == 0x09 {
        seq![0x5cu8, 0x74u8]
    } else if b == 0x0a {
        seq![0x5cu8, 0x6eu8]
    } else if b == 0x0c {
        seq![0x5cu8, 0x66u8]
    } else if b == 0x0d {
        seq![0x5cu8, 0x72u8]
    } else {
        seq![b]
    }
}

pub open spec fn spec_escape(t: Seq<u8>) -> Seq<u8>
    decreases t.len(),
{
    if t.len() == 0 {
        Seq::empty()
    } else {
        esc_byte(t[0]) + spec_escape(t.drop_first())
    }
}

/// The canonical text of a string: quote, escaped bytes, quote.
pub open spec fn spec_quoted(t: Seq<u8>) -> Seq<u8> {
    seq![0x22u8] + spec_escape(t) + seq![0x22u8]
}

pub proof fn lemma_escape_app(a: Seq<u8>, b: Seq<u8>)
    ensures
        spec_escape(a + b) == spec_escape(a) + spec_escape(b),
    decreases a.len(),
{
    if a.len() == 0 {
        assert(a + b =~= b);
        assert(spec_escape(a) + spec_escape(b) =~= spec_escape(b));
    } else {
        assert((a + b).drop_first() =~= a.drop_first() + b);
        lemma_escape_app(a.drop_first(), b);
        assert((a + b)[0] == a[0]);
        assert(esc_byte(a[0]) + (spec_escape(a.drop_first()) + spec_escape(b)) =~= (esc_byte(a[0])
            + spec_escape(a.drop_first())) + spec_escape(b));
    }
}

pub proof fn lemma_escape_one(b: u8)
    ensures
        spec_escape(seq![b]) == esc_byte(b),
{
    assert(seq![b].len() == 1);
    assert(seq![b][0] == b);
    assert(seq![b].drop_first() =~= Seq::<u8>::empty());
    assert(spec_escape(Seq::<u8>::empty()) == Seq::<u8>::empty());
    assert(spec_escape(seq![b]) == esc_byte(b) + Seq::<u8>::empty());
    assert(esc_byte(b) + Seq::<u8>::empty() =~= esc_byte(b));
}

/// Appends the canonical quoted form of `t`.
pub fn emit_quoted(out: &mut Vec<u8>, t: &Vec<u8>)
    ensures
        final(out)@ == old(out)@ + spec_quoted(t@),
{
    let ghost start = out@;
    out.push(0x22);
    let ghost opened = out@;
    assert(opened =~= start + seq![0x22u8]);
    for k in 0..t.len()
        invariant
            out@ == opened + spec_escape(t@.take(k as int)),
            opened == start + seq![0x22u8],
            t@.len() == t.len(),
    {
        proof {
            assert(spec_escape(t@.take(k as int)) + esc_byte(t@[k as int]) == spec_escape(
                t@.take(k as int + 1),
            )) by {
                assert(t@.take(k as int).push(t@[k as int]) =~= t@.take(k as int + 1));
                assert(t@.take(k as int) + seq![t@[k as int]] =~= t@.take(k as int + 1));
                lemma_escape_app(t@.take(k as int), seq![t@[k as int]]);
                lemma_escape_one(t@[k as int]);
            }
        }
        let b = t[k];
        if b == 0x22 {
            out.push(0x5c);
            out.push(0x22);
        } else if b == 0x5c {
            out.push(0x5c);
            out.push(0x5c);
        } else if b == 0x08 {
            out.push(0x5c);
            out.push(0x62);
        } else if b == 0x09 {
            out.push(0x5c);
            out.push(0x74);
        } else if b == 0x0a {
            out.push(0x5c);
            out.push(0x6e);
        } else if b == 0x0c {
            out.push(0x5c);
            out.push(0x66);
        } else if b == 0x0d {
            out.push(0x5c);
            out.push(0x72);
        } else {
            out.push(b);
        }
        proof {
            assert(out@ =~= opened + (spec_escape(t@.take(k as int)) + esc_byte(t@[k as int])));
        }
    }
    proof {
        assert(t@.take(t@.len() as int) =~= t@);
    }
    out.push(0x22);
    proof {
        assert(out@ =~= start + spec_quoted(t@));
    }
}

/// Appends all bytes of `src`.
pub fn push_all(out: &mut Vec<u8>, src: &Vec<u8>)
    ensures
        final(out)@ == old(out)@ + src@,
{
    let ghost start = out@;
    proof {
        assert(start + src@.take(0) =~= start);
    }
    for k in 0..src.len()
        invariant
            out@ == start + src@.take(k as int),
            src@.len() == src.len(),
    {
        out.push(src[k]);
        proof {
            assert(out@ =~= start + src@.take(k as int + 1));
        }
    }
    proof {
        assert(start + src@.take(src@.len() as int) =~= start + src@);
    }
}

/// The decimal digits of a magnitude, most significant first.
pub open spec fn spec_digits(m: int) -> Seq<u8>
    decreases m,
{
    if m < 10 {
        seq![(0x30 + m) as u8]
    } else {
        spec_digits(m / 10).push((0x30 + m % 10) as u8)
    }
}

/// The canonical decimal text of an integer.
pub open spec fn spec_encode_int(n: int) -> Seq<u8> {
    if n < 0 {
        seq![0x2du8] + spec_digits(-n)
    } else {
        spec_digits(n)
    }
}

fn emit_magnitude(out: &mut Vec<u8>, m: u64)
    ensures
        final(out)@ == old(out)@ + spec_digits(m as int),
    decreases m,
{
    if m < 10 {
        out.push(0x30 + m as u8);
        proof {
            assert(final(out)@ =~= old(out)@ + spec_digits(m as int));
        }
    } else {
        emit_magnitude(out, m / 10);
        let d = (m % 10) as u8;
        out.push(0x30 + d);
        proof {
            assert((old(out)@ + spec_digits(m as int / 10)).push((0x30 + m as int % 10) as u8)
                =~= old(out)@ + spec_digits(m as int / 10).push((0x30 + m as int % 10) as u8));
        }
    }
}

/// Appends the canonical decimal text of `n`.
pub fn emit_i64(out: &mut Vec<u8>, n: i64)
    ensures
        final(out)@ == old(out)@ + spec_encode_int(n as int),
{
    if n >= 0 {
        emit_magnitude(out, n as u64);
    } else {
        let ghost start = out@;
        out.push(0x2d);
        let m: u64 = ((-(n + 1)) as u64) + 1;
        proof {
            assert(m as int == -(n as int));
            assert(out@ =~= start + seq![0x2du8]);
        }
        emit_magnitude(out, m);
        proof {
            assert((start + seq![0x2du8]) + spec_digits(m as int) =~= start + (seq![0x2du8]
                + spec_digits(-(n as int))));
        }
    }
}

} // verus!
