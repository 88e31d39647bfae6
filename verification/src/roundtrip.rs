//! The codec's round-trip law: decoding a canonically encoded record
//! gives back exactly that record.
//!
//! The law is proved production by production: each lemma shows that the
//! spec parser, run over a window holding a canonical encoding, consumes
//! exactly that window and returns the encoded value.

use vstd::prelude::*;

verus! {

use crate::json::esc_byte;
use crate::json::is_digit;
use crate::json::is_ws;
use crate::json::spec_digits;
use crate::json::spec_encode_int;
use crate::json::spec_escape;
use crate::json::spec_parse_digits;
use crate::json::spec_parse_exp;
use crate::json::spec_parse_frac;
use crate::json::spec_parse_int;
use crate::json::spec_parse_number_token;
use crate::json::spec_parse_string;
use crate::json::spec_parse_string_body;
use crate::json::spec_quoted;
use crate::json::spec_skip_digits;
use crate::json::spec_skip_ws;
use crate::json::spec_step_digit;
use crate::json::spec_unescape;
use crate::json::valid_text;
use crate::json::encodable_byte;
use crate::json::lemma_number_token_bounds;
use crate::json::is_number_token;
use crate::record::fits_i64;
use crate::record::CustomV;
use crate::record::DaumV;
use crate::record::RootV;
use crate::record::default_custom_v;
use crate::record::default_daum_v;
use crate::record::default_root_v;
use crate::record::valid_custom_v;
use crate::record::valid_daum_v;
use crate::record::valid_root_v;
use crate::codec::key_name;
use crate::codec::key_device_id;
use crate::codec::key_patient_id;
use crate::codec::key_data;
use crate::codec::key_hr;
use crate::codec::key_bps;
use crate::codec::key_bpd;
use crate::codec::key_spo2;
use crate::codec::key_custom;
use crate::codec::key_date;
use crate::codec::key_tp;
use crate::codec::key_rr;
use crate::codec::key_etc;
use crate::codec::spec_member;
use crate::codec::spec_encode_custom;
use crate::codec::spec_encode_daum;
use crate::codec::spec_encode_items;
use crate::codec::spec_encode_data;
use crate::codec::spec_encode_root;
use crate::codec::spec_parse_custom;
use crate::codec::spec_parse_custom_members;
use crate::codec::spec_parse_custom_value;
use crate::codec::spec_parse_daum;
use crate::codec::spec_parse_daum_members;
use crate::codec::spec_parse_daum_value;
use crate::codec::spec_parse_data_items;
use crate::codec::spec_parse_data_array;
use crate::codec::spec_parse_root;
use crate::codec::spec_parse_root_members;
use crate::codec::spec_parse_root_value;
use crate::codec::spec_decode;

/// A byte that cannot extend a number token at any point.
pub open spec fn is_token_end(b: u8) -> bool {
    &&& !is_digit(b)
    &&& b != 0x2e
    &&& b != 0x65
    &&& b != 0x45
    &&& b != 0x2b
    &&& b != 0x2d
}

// ---------------------------------------------------------------------
// Strings
// ---------------------------------------------------------------------

pub proof fn lemma_parse_string_body_window(s: Seq<u8>, i: int, t: Seq<u8>, acc: Seq<u8>)
    requires
        valid_text(t),
        0 <= i,
        i + spec_escape(t).len() + 1 <= s.len(),
        forall|k: int|
            0 <= k < spec_escape(t).len() ==> s[i + k] == #[trigger] spec_escape(t)[k],
        s[i + spec_escape(t).len()] == 0x22,
    ensures
        spec_parse_string_body(s, i, acc) == Some((acc + t, i + spec_escape(t).len() + 1)),
    decreases t.len(),
{
    if t.len() == 0 {
        assert(spec_escape(t).len() == 0);
        assert(s[i] == 0x22);
        assert(acc + t =~= acc);
    } else {
        let b = t[0];
        let rest = t.drop_first();
        assert(encodable_byte(b));
        assert(spec_escape(t) == esc_byte(b) + spec_escape(rest));
        assert(valid_text(rest)) by {
            assert(forall|k: int|
                0 <= k < rest.len() ==> rest[k] == t[k + 1] && encodable_byte(t[k + 1]));
        }
        if b == 0x22 || b == 0x5c || b == 0x08 || b == 0x09 || b == 0x0a || b == 0x0c || b
            == 0x0d {
            assert(esc_byte(b).len() == 2);
            assert(s[i] == esc_byte(b)[0]) by {
                assert(spec_escape(t)[0] == esc_byte(b)[0]);
            }
            assert(s[i] == 0x5c);
            assert(s[i + 1] == esc_byte(b)[1]) by {
                assert(spec_escape(t)[1] == esc_byte(b)[1]);
            }
            assert(spec_unescape(s[i + 1]) == Some(b));
            assert(forall|k: int|
                0 <= k < spec_escape(rest).len() ==> s[i + 2 + k] == #[trigger] spec_escape(
                    rest,
                )[k]) by {
                assert(forall|k: int|
                    0 <= k < spec_escape(rest).len() ==> #[trigger] spec_escape(rest)[k]
                        == spec_escape(t)[k + 2]);
            }
            lemma_parse_string_body_window(s, i + 2, rest, acc.push(b));
            assert(acc.push(b) + rest =~= acc + t);
        } else {
            assert(esc_byte(b) == seq![b]);
            assert(s[i] == b) by {
                assert(spec_escape(t)[0] == b);
            }
            assert(b >= 0x20);
            assert(b != 0x22 && b != 0x5c);
            assert(forall|k: int|
                0 <= k < spec_escape(rest).len() ==> s[i + 1 + k] == #[trigger] spec_escape(
                    rest,
                )[k]) by {
                assert(forall|k: int|
                    0 <= k < spec_escape(rest).len() ==> #[trigger] spec_escape(rest)[k]
                        == spec_escape(t)[k + 1]);
            }
            lemma_parse_string_body_window(s, i + 1, rest, acc.push(b));
            assert(acc.push(b) + rest =~= acc + t);
        }
    }
}

/// Parsing a window that holds a canonical quoted text yields that text.
pub proof fn lemma_parse_string_window(s: Seq<u8>, i: int, t: Seq<u8>)
    requires
        valid_text(t),
        0 <= i,
        i + spec_quoted(t).len() <= s.len(),
        forall|k: int|
            0 <= k < spec_quoted(t).len() ==> s[i + k] == #[trigger] spec_quoted(t)[k],
    ensures
        spec_parse_string(s, i) == Some((t, i + spec_quoted(t).len())),
{
    assert(spec_quoted(t).len() == spec_escape(t).len() + 2);
    assert(s[i] == 0x22) by {
        assert(spec_quoted(t)[0] == 0x22);
    }
    assert(forall|k: int|
        0 <= k < spec_escape(t).len() ==> s[i + 1 + k] == #[trigger] spec_escape(t)[k]) by {
        assert(forall|k: int|
            0 <= k < spec_escape(t).len() ==> spec_quoted(t)[k + 1] == #[trigger] spec_escape(
                t,
            )[k]);
    }
    assert(s[i + 1 + spec_escape(t).len()] == 0x22) by {
        assert(spec_quoted(t)[spec_escape(t).len() as int + 1] == 0x22);
    }
    lemma_parse_string_body_window(s, i + 1, t, Seq::empty());
    assert(Seq::<u8>::empty() + t =~= t);
}

// ---------------------------------------------------------------------
// Integers
// ---------------------------------------------------------------------

pub open spec fn pow10(k: nat) -> int
    decreases k,
{
    if k == 0 {
        1
    } else {
        10 * pow10((k - 1) as nat)
    }
}

pub proof fn lemma_pow10_pos(k: nat)
    ensures
        pow10(k) >= 1,
    decreases k,
{
    if k > 0 {
        lemma_pow10_pos((k - 1) as nat);
    }
}

pub proof fn lemma_digits_shape(m: int)
    requires
        0 <= m,
    ensures
        spec_digits(m).len() >= 1,
        forall|k: int| 0 <= k < spec_digits(m).len() ==> is_digit(#[trigger] spec_digits(m)[k]),
        m >= 1 ==> spec_digits(m)[0] != 0x30,
        m == 0 ==> spec_digits(m) == seq![0x30u8],
    decreases m,
{
    if m < 10 {
    } else {
        lemma_digits_shape(m / 10);
        let d = spec_digits(m / 10);
        assert(spec_digits(m) == d.push((0x30 + m % 10) as u8));
        assert(forall|k: int|
            0 <= k < d.len() ==> #[trigger] spec_digits(m)[k] == d[k]);
        assert(is_digit(spec_digits(m)[d.len() as int]));
    }
}

/// Scanning the decimal digits of `m` folds them onto `acc` exactly,
/// provided the final value stays within the scan's exact range.
pub proof fn lemma_scan_digits_window(s: Seq<u8>, i: int, acc: int, m: int)
    requires
        0 <= m,
        0 <= acc,
        0 <= i,
        i + spec_digits(m).len() <= s.len(),
        forall|k: int|
            0 <= k < spec_digits(m).len() ==> s[i + k] == #[trigger] spec_digits(m)[k],
        acc * pow10(spec_digits(m).len() as nat) + m <= 9223372036854775808,
    ensures
        spec_parse_digits(s, i, acc) == spec_parse_digits(
            s,
            i + spec_digits(m).len(),
            acc * pow10(spec_digits(m).len() as nat) + m,
        ),
    decreases m,
{
    lemma_digits_shape(m);
    if m < 10 {
        assert(spec_digits(m).len() == 1);
        assert(pow10(0) == 1);
        assert(pow10(1) == 10);
        assert(s[i] == (0x30 + m) as u8);
        assert(is_digit(s[i]));
        assert(s[i] - 0x30 == m);
        assert(acc * 10 + m <= 9223372036854775808);
        assert(acc <= 922337203685477580);
        assert(spec_step_digit(acc, m) == acc * 10 + m);
    } else {
        let d = spec_digits(m / 10);
        let n = d.len();
        assert(spec_digits(m) == d.push((0x30 + m % 10) as u8));
        assert(spec_digits(m).len() == n + 1);
        let p = pow10(n as nat);
        assert(pow10((n + 1) as nat) == 10 * p);
        lemma_pow10_pos(n as nat);
        lemma_digits_shape(m / 10);
        assert(forall|k: int| 0 <= k < n ==> s[i + k] == #[trigger] d[k]) by {
            assert(forall|k: int| 0 <= k < n ==> #[trigger] d[k] == spec_digits(m)[k]);
        }
        let mid = acc * p + m / 10;
        assert(acc * (10 * p) + m == 10 * mid + m % 10) by (nonlinear_arith)
            requires
                mid == acc * p + m / 10,
                m >= 10,
        {
        }
        assert(mid >= 0) by (nonlinear_arith)
            requires
                acc >= 0,
                p >= 1,
                m >= 10,
                mid == acc * p + m / 10,
        {
        }
        assert(10 * mid <= 9223372036854775808);
        assert(pow10(0) == 1);
        assert(pow10(1) == 10);
        assert(mid * pow10(1) + m % 10 <= 9223372036854775808);
        lemma_scan_digits_window(s, i, acc, m / 10);
        assert(spec_parse_digits(s, i, acc) == spec_parse_digits(s, i + n, mid));
        assert(spec_digits(m)[n as int] == (0x30 + m % 10) as u8);
        assert(s[i + n] == (0x30 + m % 10) as u8);
        assert(is_digit(s[i + n]));
        assert(mid <= 922337203685477580);
        assert(spec_step_digit(mid, m % 10) == mid * 10 + m % 10);
        assert(mid * 10 == 10 * mid);
        assert(spec_parse_digits(s, i + n, mid) == spec_parse_digits(
            s,
            i + n + 1,
            acc * pow10((n + 1) as nat) + m,
        ));
    }
}

/// Parsing a window that holds the canonical decimal text of `n`,
/// followed by a non-digit, yields `n`.
pub proof fn lemma_parse_int_window(s: Seq<u8>, i: int, n: int)
    requires
        fits_i64(n),
        0 <= i,
        i + spec_encode_int(n).len() <= s.len(),
        forall|k: int|
            0 <= k < spec_encode_int(n).len() ==> s[i + k] == #[trigger] spec_encode_int(n)[k],
        i + spec_encode_int(n).len() == s.len() || !is_digit(s[i + spec_encode_int(n).len()]),
    ensures
        spec_parse_int(s, i) == Some((n, i + spec_encode_int(n).len())),
{
    if n >= 0 {
        let d = spec_digits(n);
        lemma_digits_shape(n);
        assert(spec_encode_int(n) == d);
        assert(s[i] == d[0]);
        assert(is_digit(s[i]));
        assert(s[i] != 0x2d);
        if n == 0 {
            assert(d == seq![0x30u8]);
            assert(s[i] == 0x30);
        } else {
            assert(s[i] != 0x30);
            assert(0 * pow10(d.len() as nat) + n <= 9223372036854775808);
            lemma_scan_digits_window(s, i, 0, n);
            assert(spec_parse_digits(s, i + d.len(), n) == (n, i + d.len()));
            assert(spec_parse_digits(s, i, 0) == (n, i + d.len()));
        }
    } else {
        let m = -n;
        let d = spec_digits(m);
        lemma_digits_shape(m);
        assert(spec_encode_int(n) == seq![0x2du8] + d);
        assert(spec_encode_int(n).len() == d.len() + 1);
        assert(s[i] == 0x2d) by {
            assert(spec_encode_int(n)[0] == 0x2d);
        }
        assert(forall|k: int| 0 <= k < d.len() ==> s[i + 1 + k] == #[trigger] d[k]) by {
            assert(forall|k: int| 0 <= k < d.len() ==> spec_encode_int(n)[k + 1] == #[trigger] d[k]);
        }
        assert(s[i + 1] == d[0]);
        assert(is_digit(s[i + 1]));
        assert(m >= 1);
        assert(s[i + 1] != 0x30);
        assert(m <= 9223372036854775808);
        assert(0 * pow10(d.len() as nat) + m <= 9223372036854775808);
        lemma_scan_digits_window(s, i + 1, 0, m);
        assert(spec_parse_digits(s, i + 1 + d.len(), m) == (m, i + 1 + d.len()));
        assert(spec_parse_digits(s, i + 1, 0) == (m, i + 1 + d.len()));
    }
}

// ---------------------------------------------------------------------
// Number tokens
// ---------------------------------------------------------------------

pub proof fn lemma_skip_digits_stop(s: Seq<u8>, i: int)
    requires
        0 <= i <= s.len(),
    ensures
        spec_skip_digits(s, i) == s.len() || !is_digit(s[spec_skip_digits(s, i)]),
    decreases s.len() - i,
{
    if i < s.len() && is_digit(s[i]) {
        lemma_skip_digits_stop(s, i + 1);
    }
}

/// A digit run of known length translates between two sequences whose
/// windows hold the same bytes and which both stop after the run.
pub proof fn lemma_skip_digits_window(s1: Seq<u8>, p1: int, s2: Seq<u8>, p2: int, n: int)
    requires
        0 <= n,
        0 <= p1,
        p1 + n <= s1.len(),
        0 <= p2,
        p2 + n <= s2.len(),
        forall|k: int| 0 <= k < n ==> #[trigger] s2[p2 + k] == s1[p1 + k],
        spec_skip_digits(s1, p1) == p1 + n,
        p2 + n == s2.len() || !is_digit(s2[p2 + n]),
    ensures
        spec_skip_digits(s2, p2) == p2 + n,
    decreases n,
{
    crate::json::lemma_skip_digits_bounds(s1, p1);
    if n == 0 {
        if p1 < s1.len() && is_digit(s1[p1]) {
            crate::json::lemma_skip_digits_bounds(s1, p1 + 1);
            assert(spec_skip_digits(s1, p1) == spec_skip_digits(s1, p1 + 1));
            assert(false);
        }
        assert(!(p1 < s1.len() && is_digit(s1[p1])));
        if p2 < s2.len() && is_digit(s2[p2]) {
            assert(p2 + 0 < s2.len());
            assert(false);
        }
    } else {
        assert(p1 < s1.len());
        if !is_digit(s1[p1]) {
            assert(spec_skip_digits(s1, p1) == p1);
            assert(false);
        }
        assert(s2[p2 + 0] == s1[p1 + 0]);
        assert(s2[p2] == s1[p1]);
        assert(spec_skip_digits(s1, p1 + 1) == p1 + n);
        assert(forall|k: int| 0 <= k < n - 1 ==> #[trigger] s2[p2 + 1 + k] == s1[p1 + 1 + k]) by {
            assert(forall|k: int|
                0 <= k < n - 1 ==> #[trigger] s2[(p2 + 1) + k] == s2[p2 + (k + 1)] && #[trigger]
                s1[(p1 + 1) + k] == s1[p1 + (k + 1)]);
        }
        lemma_skip_digits_window(s1, p1 + 1, s2, p2 + 1, n - 1);
    }
}

/// A number token parsed out of one sequence parses identically out of
/// any other sequence holding the same bytes, provided nothing after the
/// copied window could extend the token.
#[verifier::rlimit(100)]
#[verifier::spinoff_prover]
pub proof fn lemma_number_token_translate(s1: Seq<u8>, p1: int, e1: int, s2: Seq<u8>, p2: int)
    requires
        0 <= p1 <= e1 <= s1.len(),
        0 <= p2,
        p2 + (e1 - p1) <= s2.len(),
        spec_parse_number_token(s1, p1) == Some((s1.subrange(p1, e1), e1)),
        forall|k: int| 0 <= k < e1 - p1 ==> #[trigger] s2[p2 + k] == s1[p1 + k],
        p2 + (e1 - p1) == s2.len() || is_token_end(s2[p2 + (e1 - p1)]),
    ensures
        spec_parse_number_token(s2, p2) == Some((s2.subrange(p2, p2 + (e1 - p1)), p2 + (e1 - p1))),
{
    let n = e1 - p1;
    lemma_number_token_bounds(s1, p1, s1.subrange(p1, e1), e1);
    assert(n >= 1);
    // sign
    let minus = p1 < s1.len() && s1[p1] == 0x2d;
    let j1 = if minus {
        p1 + 1
    } else {
        p1
    };
    assert(s2[p2 + 0] == s1[p1 + 0]);
    assert(s2[p2] == s1[p1]);
    let j2 = p2 + (j1 - p1);
    assert(0 <= j1 < s1.len() && is_digit(s1[j1]));
    // integer part
    let k1 = if s1[j1] == 0x30 {
        j1 + 1
    } else {
        spec_skip_digits(s1, j1)
    };
    if s1[j1] != 0x30 {
        crate::json::lemma_skip_digits_bounds(s1, j1 + 1);
        assert(spec_skip_digits(s1, j1) == spec_skip_digits(s1, j1 + 1));
    }
    assert(j1 + 1 <= k1);
    let fr = spec_parse_frac(s1, k1);
    assert(fr is Some);
    let k2 = fr->Some_0;
    crate::json::lemma_frac_bounds(s1, k1, k2);
    let ex = spec_parse_exp(s1, k2);
    assert(ex is Some);
    assert(ex->Some_0 == e1);
    crate::json::lemma_exp_bounds(s1, k2, e1);
    assert(k1 <= k2 <= e1);
    assert(k1 <= e1);
    // mirror the sign and first digit
    assert(j1 - p1 < n);
    assert(s2[p2 + (j1 - p1)] == s1[p1 + (j1 - p1)]);
    assert(s2[j2] == s1[j1]);
    assert(0 <= j2 < s2.len() && is_digit(s2[j2]));
    let c2 = p2 + (k1 - p1);
    if s1[j1] == 0x30 {
        assert(c2 == j2 + 1);
    } else {
        lemma_skip_digits_stop(s1, j1);
        assert(forall|k: int| 0 <= k < k1 - j1 ==> #[trigger] s2[j2 + k] == s1[j1 + k]) by {
            assert(forall|k: int|
                0 <= k < k1 - j1 ==> #[trigger] s2[j2 + k] == s2[p2 + ((j1 - p1) + k)]
                    && #[trigger] s1[j1 + k] == s1[p1 + ((j1 - p1) + k)]);
        }
        if k1 == e1 {
            assert(p2 + (k1 - p1) == s2.len() || !is_digit(s2[p2 + (k1 - p1)]));
        } else {
            assert(s2[p2 + (k1 - p1)] == s1[k1]);
        }
        lemma_skip_digits_window(s1, j1, s2, j2, k1 - j1);
        assert(spec_skip_digits(s2, j2) == c2);
    }
    // mirror the fraction part
    let d2 = p2 + (k2 - p1);
    if k1 < s1.len() && s1[k1] == 0x2e {
        assert(k1 + 1 < s1.len() && is_digit(s1[k1 + 1]));
        assert(k2 == spec_skip_digits(s1, k1 + 1));
        crate::json::lemma_skip_digits_bounds(s1, k1 + 2);
        assert(spec_skip_digits(s1, k1 + 1) == spec_skip_digits(s1, k1 + 2));
        assert(k1 + 2 <= k2);
        assert(k1 < e1);
        assert(k1 + 1 < e1);
        assert(s2[p2 + (k1 - p1)] == s1[p1 + (k1 - p1)]);
        assert(s2[c2] == s1[k1]);
        assert(s2[p2 + (k1 + 1 - p1)] == s1[p1 + (k1 + 1 - p1)]);
        assert(s2[c2 + 1] == s1[k1 + 1]);
        lemma_skip_digits_stop(s1, k1 + 1);
        assert(forall|k: int| 0 <= k < k2 - (k1 + 1) ==> #[trigger] s2[c2 + 1 + k] == s1[k1 + 1 + k]) by {
            assert(forall|k: int|
                0 <= k < k2 - (k1 + 1) ==> #[trigger] s2[c2 + 1 + k] == s2[p2 + ((k1 + 1 - p1)
                    + k)] && #[trigger] s1[k1 + 1 + k] == s1[p1 + ((k1 + 1 - p1) + k)]);
        }
        if k2 == e1 {
            assert(p2 + (k2 - p1) == s2.len() || !is_digit(s2[p2 + (k2 - p1)]));
        } else {
            assert(s2[p2 + (k2 - p1)] == s1[k2]);
        }
        lemma_skip_digits_window(s1, k1 + 1, s2, c2 + 1, k2 - (k1 + 1));
        assert(spec_parse_frac(s2, c2) == Some(d2));
    } else {
        assert(k2 == k1);
        if k1 < e1 {
            assert(s2[p2 + (k1 - p1)] == s1[p1 + (k1 - p1)]);
            assert(s2[c2] == s1[k1]);
            assert(spec_parse_frac(s2, c2) == Some(d2));
        } else {
            assert(k1 == e1);
            assert(c2 == p2 + n);
            assert(spec_parse_frac(s2, c2) == Some(d2));
        }
    }
    // mirror the exponent part
    if k2 < s1.len() && (s1[k2] == 0x65 || s1[k2] == 0x45) {
        let js1 = if k2 + 1 < s1.len() && (s1[k2 + 1] == 0x2b || s1[k2 + 1] == 0x2d) {
            k2 + 2
        } else {
            k2 + 1
        };
        assert(js1 < s1.len() && is_digit(s1[js1]));
        assert(e1 == spec_skip_digits(s1, js1));
        crate::json::lemma_skip_digits_bounds(s1, js1 + 1);
        assert(spec_skip_digits(s1, js1) == spec_skip_digits(s1, js1 + 1));
        assert(js1 + 1 <= e1);
        assert(js1 < e1);
        assert(k2 < e1);
        assert(k2 + 1 < e1);
        assert(s2[p2 + (k2 - p1)] == s1[p1 + (k2 - p1)]);
        assert(s2[d2] == s1[k2]);
        assert(s2[p2 + (k2 + 1 - p1)] == s1[p1 + (k2 + 1 - p1)]);
        assert(s2[d2 + 1] == s1[k2 + 1]);
        let js2 = p2 + (js1 - p1);
        assert(js2 == d2 + (js1 - k2));
        assert(s2[p2 + (js1 - p1)] == s1[p1 + (js1 - p1)]);
        assert(s2[js2] == s1[js1]);
        lemma_skip_digits_stop(s1, js1);
        assert(forall|k: int| 0 <= k < e1 - js1 ==> #[trigger] s2[js2 + k] == s1[js1 + k]) by {
            assert(forall|k: int|
                0 <= k < e1 - js1 ==> #[trigger] s2[js2 + k] == s2[p2 + ((js1 - p1) + k)]
                    && #[trigger] s1[js1 + k] == s1[p1 + ((js1 - p1) + k)]);
        }
        lemma_skip_digits_window(s1, js1, s2, js2, e1 - js1);
        assert(spec_skip_digits(s2, js2) == p2 + n);
        assert(spec_parse_exp(s2, d2) == Some(p2 + n));
    } else {
        assert(k2 == e1);
        assert(d2 == p2 + n);
        assert(spec_parse_exp(s2, d2) == Some(p2 + n));
    }
    assert(spec_parse_number_token(s2, p2) == Some((s2.subrange(p2, p2 + n), p2 + n)));
}

/// Parsing a window that holds a well-formed number token, followed by a
/// byte that cannot extend it, yields that token verbatim.
pub proof fn lemma_number_token_window(s: Seq<u8>, i: int, t: Seq<u8>)
    requires
        is_number_token(t),
        0 <= i,
        i + t.len() <= s.len(),
        forall|k: int| 0 <= k < t.len() ==> #[trigger] s[i + k] == t[k],
        i + t.len() == s.len() || is_token_end(s[i + t.len()]),
    ensures
        spec_parse_number_token(s, i) == Some((t, i + t.len())),
{
    assert(t.subrange(0, t.len() as int) =~= t);
    lemma_number_token_translate(t, 0, t.len() as int, s, i);
    assert forall|k: int| 0 <= k < t.len() implies s.subrange(i, i + t.len() as int)[k] == t[k] by {
        assert(s[i + k] == t[k]);
    }
    assert(s.subrange(i, i + t.len() as int) =~= t);
}

/// A token handed out by the number parser is itself a well-formed
/// number token.
pub proof fn lemma_number_token_self(s: Seq<u8>, i: int, t: Seq<u8>, e: int)
    requires
        0 <= i <= s.len(),
        spec_parse_number_token(s, i) == Some((t, e)),
    ensures
        is_number_token(t),
{
    lemma_number_token_bounds(s, i, t, e);
    assert(forall|k: int| 0 <= k < e - i ==> #[trigger] t[0 + k] == s[i + k]);
    lemma_number_token_translate(s, i, e, t, 0);
    assert(t.subrange(0, t.len() as int) =~= t);
}

// ---------------------------------------------------------------------
// Objects of the schema
// ---------------------------------------------------------------------

pub proof fn lemma_keys_text()
    ensures
        valid_text(key_name()),
        valid_text(key_device_id()),
        valid_text(key_patient_id()),
        valid_text(key_data()),
        valid_text(key_hr()),
        valid_text(key_bps()),
        valid_text(key_bpd()),
        valid_text(key_spo2()),
        valid_text(key_custom()),
        valid_text(key_date()),
        valid_text(key_tp()),
        valid_text(key_rr()),
        valid_text(key_etc()),
{
}

/// The first byte of a well-formed number token: a minus or a digit.
pub proof fn lemma_token_first(t: Seq<u8>)
    requires
        is_number_token(t),
    ensures
        t.len() >= 1,
        t[0] == 0x2d || is_digit(t[0]),
{
    lemma_number_token_bounds(t, 0, t, t.len() as int);
}

/// A member window gives the key parse, the colon, and the value window.
pub proof fn lemma_member_window(s: Seq<u8>, p: int, key: Seq<u8>, val: Seq<u8>)
    requires
        valid_text(key),
        0 <= p,
        p + spec_member(key, val).len() <= s.len(),
        forall|k: int|
            0 <= k < spec_member(key, val).len() ==> s[p + k] == #[trigger] spec_member(
                key,
                val,
            )[k],
    ensures
        spec_member(key, val).len() == spec_quoted(key).len() + 1 + val.len(),
        spec_skip_ws(s, p) == p,
        spec_parse_string(s, p) == Some((key, p + spec_quoted(key).len())),
        s[p + spec_quoted(key).len()] == 0x3a,
        spec_skip_ws(s, p + spec_quoted(key).len()) == p + spec_quoted(key).len(),
        forall|k: int|
            0 <= k < val.len() ==> s[p + spec_quoted(key).len() + 1 + k] == #[trigger] val[k],
{
    let lq = spec_quoted(key).len() as int;
    assert forall|k: int| 0 <= k < lq implies s[p + k] == spec_quoted(key)[k] by {
        assert(s[p + k] == spec_member(key, val)[k]);
    }
    lemma_parse_string_window(s, p, key);
    assert(s[p + lq] == spec_member(key, val)[lq]);
    assert(s[p] == 0x22) by {
        assert(spec_quoted(key)[0] == 0x22);
    }
    assert forall|k: int| 0 <= k < val.len() implies s[p + lq + 1 + k] == val[k] by {
        assert(s[p + (lq + 1 + k)] == spec_member(key, val)[lq + 1 + k]);
    }
}

/// The first byte of a canonical integer text: a minus or a digit, so
/// never whitespace.
pub proof fn lemma_int_first(n: int)
    requires
        fits_i64(n),
    ensures
        spec_encode_int(n).len() >= 1,
        !is_ws(spec_encode_int(n)[0]),
        spec_encode_int(n)[0] == 0x2d || is_digit(spec_encode_int(n)[0]),
{
    if n >= 0 {
        lemma_digits_shape(n);
    } else {
        lemma_digits_shape(-n);
    }
}

/// Parsing a window that holds the canonical encoding of a valid
/// `Custom` value yields that value.
#[verifier::rlimit(100)]
#[verifier::spinoff_prover]
pub proof fn lemma_parse_custom_window(s: Seq<u8>, i: int, c: CustomV)
    requires
        valid_custom_v(c),
        0 <= i,
        i + spec_encode_custom(c).len() <= s.len(),
        forall|k: int|
            0 <= k < spec_encode_custom(c).len() ==> s[i + k] == #[trigger] spec_encode_custom(
                c,
            )[k],
    ensures
        spec_parse_custom(s, i) == Some((c, i + spec_encode_custom(c).len())),
{
    let enc = spec_encode_custom(c);
    let m1 = spec_member(key_tp(), c.tp);
    let m2 = spec_member(key_rr(), spec_encode_int(c.rr));
    let m3 = spec_member(key_etc(), spec_quoted(c.etc));
    let p1 = i + 1;
    let e1 = p1 + m1.len();
    let p2 = e1 + 1;
    let e2 = p2 + m2.len();
    let p3 = e2 + 1;
    let e3 = p3 + m3.len();
    assert(enc.len() == e3 + 1 - i);
    lemma_keys_text();
    assert(s[i] == 0x7b) by {
        assert(s[i + 0] == enc[0]);
    }
    assert(s[e1] == 0x2c) by {
        assert(s[i + (e1 - i)] == enc[e1 - i]);
    }
    assert(s[e2] == 0x2c) by {
        assert(s[i + (e2 - i)] == enc[e2 - i]);
    }
    assert(s[e3] == 0x7d) by {
        assert(s[i + (e3 - i)] == enc[e3 - i]);
    }
    assert forall|k: int| 0 <= k < m1.len() implies s[p1 + k] == m1[k] by {
        assert(s[i + (1 + k)] == enc[1 + k]);
    }
    assert forall|k: int| 0 <= k < m2.len() implies s[p2 + k] == m2[k] by {
        assert(s[i + ((p2 - i) + k)] == enc[(p2 - i) + k]);
    }
    assert forall|k: int| 0 <= k < m3.len() implies s[p3 + k] == m3[k] by {
        assert(s[i + ((p3 - i) + k)] == enc[(p3 - i) + k]);
    }
    lemma_member_window(s, p1, key_tp(), c.tp);
    lemma_member_window(s, p2, key_rr(), spec_encode_int(c.rr));
    lemma_member_window(s, p3, key_etc(), spec_quoted(c.etc));
    let v1 = p1 + spec_quoted(key_tp()).len() + 1;
    let v2 = p2 + spec_quoted(key_rr()).len() + 1;
    let v3 = p3 + spec_quoted(key_etc()).len() + 1;
    // values
    lemma_token_first(c.tp);
    assert(s[v1 + 0] == c.tp[0]);
    assert(!is_ws(s[v1]));
    assert(is_token_end(s[e1]));
    lemma_number_token_window(s, v1, c.tp);
    lemma_int_first(c.rr);
    assert(s[v2 + 0] == spec_encode_int(c.rr)[0]);
    assert(!is_ws(s[v2]));
    lemma_parse_int_window(s, v2, c.rr);
    assert forall|k: int|
        0 <= k < spec_quoted(c.etc).len() implies s[v3 + k] == #[trigger] spec_quoted(c.etc)[k] by {
        assert(s[p3 + spec_quoted(key_etc()).len() + 1 + k] == spec_quoted(c.etc)[k]);
    }
    assert(s[v3 + 0] == spec_quoted(c.etc)[0]);
    assert(!is_ws(s[v3]));
    lemma_parse_string_window(s, v3, c.etc);
    // distinct keys
    assert(key_rr()[0] == 0x72 && key_tp()[0] == 0x74);
    assert(key_rr() != key_tp());
    assert(key_etc().len() == 3 && key_tp().len() == 2 && key_rr().len() == 2);
    assert(key_etc() != key_tp() && key_etc() != key_rr());
    // walk the member list
    let d0 = default_custom_v();
    let c1 = CustomV { tp: c.tp, rr: d0.rr, etc: d0.etc };
    let c2 = CustomV { tp: c.tp, rr: c.rr, etc: d0.etc };
    assert(spec_skip_ws(s, v1) == v1);
    assert(spec_skip_ws(s, v2) == v2);
    assert(spec_skip_ws(s, v3) == v3);
    assert(spec_skip_ws(s, e1) == e1);
    assert(spec_skip_ws(s, e2) == e2);
    assert(spec_skip_ws(s, e3) == e3);
    assert(spec_parse_custom_value(s, v1, key_tp(), d0, (false, false, false)) == Some(
        (c1, (true, false, false), e1),
    ));
    assert(spec_parse_custom_members(s, p1, d0, (false, false, false))
        == spec_parse_custom_members(s, p2, c1, (true, false, false)));
    assert(spec_parse_custom_value(s, v2, key_rr(), c1, (true, false, false)) == Some(
        (c2, (true, true, false), e2),
    ));
    assert(spec_parse_custom_members(s, p2, c1, (true, false, false))
        == spec_parse_custom_members(s, p3, c2, (true, true, false)));
    assert(spec_parse_custom_value(s, v3, key_etc(), c2, (true, true, false)) == Some(
        (c, (true, true, true), e3),
    ));
    assert(spec_parse_custom_members(s, p3, c2, (true, true, false)) == Some((c, e3 + 1)));
    assert(s[p1] == 0x22);
    assert(spec_skip_ws(s, i + 1) == p1);
    assert(spec_parse_custom(s, i) == Some((c, e3 + 1)));
}

/// First half of the measurement-entry walk: the first three members.
#[verifier::rlimit(100)]
#[verifier::spinoff_prover]
proof fn lemma_parse_daum_window_half(s: Seq<u8>, i: int, d: DaumV)
    requires
        valid_daum_v(d),
        0 <= i,
        i + spec_encode_daum(d).len() <= s.len(),
        forall|k: int|
            0 <= k < spec_encode_daum(d).len() ==> s[i + k] == #[trigger] spec_encode_daum(d)[k],
    ensures
        spec_parse_daum_members(
            s,
            i + 1,
            default_daum_v(),
            (false, false, false, false, false, false),
        ) == spec_parse_daum_members(
            s,
            i + 4 + spec_member(key_hr(), spec_encode_int(d.hr)).len() + spec_member(
                key_bps(),
                spec_encode_int(d.bps),
            ).len() + spec_member(key_bpd(), spec_encode_int(d.bpd)).len(),
            (DaumV {
                hr: d.hr,
                bps: d.bps,
                bpd: d.bpd,
                spo2: default_daum_v().spo2,
                custom: default_daum_v().custom,
                date: default_daum_v().date,
            }),
            (true, true, true, false, false, false),
        ),
{
    let enc = spec_encode_daum(d);
    let m1 = spec_member(key_hr(), spec_encode_int(d.hr));
    let m2 = spec_member(key_bps(), spec_encode_int(d.bps));
    let m3 = spec_member(key_bpd(), spec_encode_int(d.bpd));
    let p1 = i + 1;
    let e1 = p1 + m1.len();
    let p2 = e1 + 1;
    let e2 = p2 + m2.len();
    let p3 = e2 + 1;
    let e3 = p3 + m3.len();
    lemma_keys_text();
    assert(s[e1] == 0x2c) by {
        assert(s[i + (e1 - i)] == enc[e1 - i]);
    }
    assert(s[e2] == 0x2c) by {
        assert(s[i + (e2 - i)] == enc[e2 - i]);
    }
    assert(s[e3] == 0x2c) by {
        assert(s[i + (e3 - i)] == enc[e3 - i]);
    }
    assert forall|k: int| 0 <= k < m1.len() implies s[p1 + k] == m1[k] by {
        assert(s[i + (1 + k)] == enc[1 + k]);
    }
    assert forall|k: int| 0 <= k < m2.len() implies s[p2 + k] == m2[k] by {
        assert(s[i + ((p2 - i) + k)] == enc[(p2 - i) + k]);
    }
    assert forall|k: int| 0 <= k < m3.len() implies s[p3 + k] == m3[k] by {
        assert(s[i + ((p3 - i) + k)] == enc[(p3 - i) + k]);
    }
    lemma_member_window(s, p1, key_hr(), spec_encode_int(d.hr));
    lemma_member_window(s, p2, key_bps(), spec_encode_int(d.bps));
    lemma_member_window(s, p3, key_bpd(), spec_encode_int(d.bpd));
    let v1 = p1 + spec_quoted(key_hr()).len() + 1;
    let v2 = p2 + spec_quoted(key_bps()).len() + 1;
    let v3 = p3 + spec_quoted(key_bpd()).len() + 1;
    lemma_int_first(d.hr);
    assert(s[v1 + 0] == spec_encode_int(d.hr)[0]);
    assert(!is_ws(s[v1]));
    lemma_parse_int_window(s, v1, d.hr);
    lemma_int_first(d.bps);
    assert(s[v2 + 0] == spec_encode_int(d.bps)[0]);
    assert(!is_ws(s[v2]));
    lemma_parse_int_window(s, v2, d.bps);
    lemma_int_first(d.bpd);
    assert(s[v3 + 0] == spec_encode_int(d.bpd)[0]);
    assert(!is_ws(s[v3]));
    lemma_parse_int_window(s, v3, d.bpd);
    assert(key_hr().len() == 2 && key_bps().len() == 3 && key_bpd().len() == 3);
    assert(key_bps()[2] == 0x73 && key_bpd()[2] == 0x64);
    assert(key_bps() != key_hr());
    assert(key_bpd() != key_hr() && key_bpd() != key_bps());
    let d0 = default_daum_v();
    let a1 = DaumV {
        hr: d.hr,
        bps: d0.bps,
        bpd: d0.bpd,
        spo2: d0.spo2,
        custom: d0.custom,
        date: d0.date,
    };
    let a2 = DaumV {
        hr: d.hr,
        bps: d.bps,
        bpd: d0.bpd,
        spo2: d0.spo2,
        custom: d0.custom,
        date: d0.date,
    };
    let a3 = DaumV {
        hr: d.hr,
        bps: d.bps,
        bpd: d.bpd,
        spo2: d0.spo2,
        custom: d0.custom,
        date: d0.date,
    };
    assert(spec_skip_ws(s, v1) == v1 && spec_skip_ws(s, e1) == e1);
    assert(spec_skip_ws(s, v2) == v2 && spec_skip_ws(s, e2) == e2);
    assert(spec_skip_ws(s, v3) == v3 && spec_skip_ws(s, e3) == e3);
    let sn = (false, false, false, false, false, false);
    assert(spec_parse_daum_value(s, v1, key_hr(), d0, sn) == Some(
        (a1, (true, false, false, false, false, false), e1),
    ));
    assert(spec_parse_daum_members(s, p1, d0, sn) == spec_parse_daum_members(
        s,
        p2,
        a1,
        (true, false, false, false, false, false),
    ));
    assert(spec_parse_daum_value(s, v2, key_bps(), a1, (true, false, false, false, false, false))
        == Some((a2, (true, true, false, false, false, false), e2)));
    assert(spec_parse_daum_members(s, p2, a1, (true, false, false, false, false, false))
        == spec_parse_daum_members(s, p3, a2, (true, true, false, false, false, false)));
    assert(spec_parse_daum_value(s, v3, key_bpd(), a2, (true, true, false, false, false, false))
        == Some((a3, (true, true, true, false, false, false), e3)));
    assert(spec_parse_daum_members(s, p3, a2, (true, true, false, false, false, false))
        == spec_parse_daum_members(s, e3 + 1, a3, (true, true, true, false, false, false)));
}

/// Parsing a window that holds the canonical encoding of a valid
/// measurement entry yields that entry.
#[verifier::rlimit(100)]
#[verifier::spinoff_prover]
pub proof fn lemma_parse_daum_window(s: Seq<u8>, i: int, d: DaumV)
    requires
        valid_daum_v(d),
        0 <= i,
        i + spec_encode_daum(d).len() <= s.len(),
        forall|k: int|
            0 <= k < spec_encode_daum(d).len() ==> s[i + k] == #[trigger] spec_encode_daum(d)[k],
    ensures
        spec_parse_daum(s, i) == Some((d, i + spec_encode_daum(d).len())),
{
    let enc = spec_encode_daum(d);
    let m1 = spec_member(key_hr(), spec_encode_int(d.hr));
    let m2 = spec_member(key_bps(), spec_encode_int(d.bps));
    let m3 = spec_member(key_bpd(), spec_encode_int(d.bpd));
    let m4 = spec_member(key_spo2(), spec_encode_int(d.spo2));
    let m5 = spec_member(key_custom(), spec_encode_custom(d.custom));
    let m6 = spec_member(key_date(), spec_quoted(d.date));
    let p1 = i + 1;
    let e1 = p1 + m1.len();
    let p2 = e1 + 1;
    let e2 = p2 + m2.len();
    let p3 = e2 + 1;
    let e3 = p3 + m3.len();
    let p4 = e3 + 1;
    let e4 = p4 + m4.len();
    let p5 = e4 + 1;
    let e5 = p5 + m5.len();
    let p6 = e5 + 1;
    let e6 = p6 + m6.len();
    assert(enc.len() == e6 + 1 - i);
    lemma_keys_text();
    lemma_parse_daum_window_half(s, i, d);
    assert(s[i] == 0x7b) by {
        assert(s[i + 0] == enc[0]);
    }
    assert(s[e4] == 0x2c) by {
        assert(s[i + (e4 - i)] == enc[e4 - i]);
    }
    assert(s[e5] == 0x2c) by {
        assert(s[i + (e5 - i)] == enc[e5 - i]);
    }
    assert(s[e6] == 0x7d) by {
        assert(s[i + (e6 - i)] == enc[e6 - i]);
    }
    assert forall|k: int| 0 <= k < m4.len() implies s[p4 + k] == m4[k] by {
        assert(s[i + ((p4 - i) + k)] == enc[(p4 - i) + k]);
    }
    assert forall|k: int| 0 <= k < m5.len() implies s[p5 + k] == m5[k] by {
        assert(s[i + ((p5 - i) + k)] == enc[(p5 - i) + k]);
    }
    assert forall|k: int| 0 <= k < m6.len() implies s[p6 + k] == m6[k] by {
        assert(s[i + ((p6 - i) + k)] == enc[(p6 - i) + k]);
    }
    lemma_member_window(s, p4, key_spo2(), spec_encode_int(d.spo2));
    lemma_member_window(s, p5, key_custom(), spec_encode_custom(d.custom));
    lemma_member_window(s, p6, key_date(), spec_quoted(d.date));
    let v4 = p4 + spec_quoted(key_spo2()).len() + 1;
    let v5 = p5 + spec_quoted(key_custom()).len() + 1;
    let v6 = p6 + spec_quoted(key_date()).len() + 1;
    lemma_int_first(d.spo2);
    assert(s[v4 + 0] == spec_encode_int(d.spo2)[0]);
    assert(!is_ws(s[v4]));
    lemma_parse_int_window(s, v4, d.spo2);
    assert(s[v5 + 0] == spec_encode_custom(d.custom)[0]);
    assert(spec_encode_custom(d.custom)[0] == 0x7b);
    assert(!is_ws(s[v5]));
    lemma_parse_custom_window(s, v5, d.custom);
    assert(s[v6 + 0] == spec_quoted(d.date)[0]);
    assert(spec_quoted(d.date)[0] == 0x22);
    assert(!is_ws(s[v6]));
    assert forall|k: int|
        0 <= k < spec_quoted(d.date).len() implies s[v6 + k] == #[trigger] spec_quoted(
        d.date,
    )[k] by {
        assert(s[p6 + spec_quoted(key_date()).len() + 1 + k] == spec_quoted(d.date)[k]);
    }
    lemma_parse_string_window(s, v6, d.date);
    assert(key_hr().len() == 2 && key_bps().len() == 3 && key_bpd().len() == 3 && key_spo2().len()
        == 4 && key_custom().len() == 6 && key_date().len() == 4);
    assert(key_spo2() != key_hr() && key_spo2() != key_bps() && key_spo2() != key_bpd());
    assert(key_custom() != key_hr() && key_custom() != key_bps() && key_custom() != key_bpd()
        && key_custom() != key_spo2());
    assert(key_spo2()[0] == 0x73 && key_date()[0] == 0x64);
    assert(key_date() != key_hr() && key_date() != key_bps() && key_date() != key_bpd()
        && key_date() != key_spo2() && key_date() != key_custom());
    let d0 = default_daum_v();
    let a3 = DaumV {
        hr: d.hr,
        bps: d.bps,
        bpd: d.bpd,
        spo2: d0.spo2,
        custom: d0.custom,
        date: d0.date,
    };
    let a4 = DaumV {
        hr: d.hr,
        bps: d.bps,
        bpd: d.bpd,
        spo2: d.spo2,
        custom: d0.custom,
        date: d0.date,
    };
    let a5 = DaumV {
        hr: d.hr,
        bps: d.bps,
        bpd: d.bpd,
        spo2: d.spo2,
        custom: d.custom,
        date: d0.date,
    };
    assert(spec_skip_ws(s, v4) == v4 && spec_skip_ws(s, e4) == e4);
    assert(spec_skip_ws(s, v5) == v5 && spec_skip_ws(s, e5) == e5);
    assert(spec_skip_ws(s, v6) == v6 && spec_skip_ws(s, e6) == e6);
    assert(spec_parse_daum_value(s, v4, key_spo2(), a3, (true, true, true, false, false, false))
        == Some((a4, (true, true, true, true, false, false), e4)));
    assert(spec_parse_daum_members(s, p4, a3, (true, true, true, false, false, false))
        == spec_parse_daum_members(s, p5, a4, (true, true, true, true, false, false)));
    assert(spec_parse_daum_value(s, v5, key_custom(), a4, (true, true, true, true, false, false))
        == Some((a5, (true, true, true, true, true, false), e5)));
    assert(spec_parse_daum_members(s, p5, a4, (true, true, true, true, false, false))
        == spec_parse_daum_members(s, p6, a5, (true, true, true, true, true, false)));
    assert(spec_parse_daum_value(s, v6, key_date(), a5, (true, true, true, true, true, false))
        == Some((d, (true, true, true, true, true, true), e6)));
    assert(spec_parse_daum_members(s, p6, a5, (true, true, true, true, true, false)) == Some(
        (d, e6 + 1),
    ));
    assert(spec_parse_daum_members(
        s,
        i + 1,
        d0,
        (false, false, false, false, false, false),
    ) == Some((d, e6 + 1)));
    assert(s[p1] == 0x22) by {
        assert(s[i + 1] == enc[1]);
        assert(m1[0] == spec_quoted(key_hr())[0]);
        assert(spec_quoted(key_hr())[0] == 0x22);
    }
    assert(spec_skip_ws(s, i + 1) == p1);
    assert(spec_parse_daum(s, i) == Some((d, e6 + 1)));
}

/// Parsing a window that holds the encoded entries of a non-empty array,
/// followed by `]`, yields those entries appended to `acc`.
#[verifier::rlimit(100)]
#[verifier::spinoff_prover]
pub proof fn lemma_parse_items_window(s: Seq<u8>, i: int, ds: Seq<DaumV>, acc: Seq<DaumV>)
    requires
        ds.len() >= 1,
        forall|k: int| 0 <= k < ds.len() ==> valid_daum_v(#[trigger] ds[k]),
        0 <= i,
        i + spec_encode_items(ds).len() + 1 <= s.len(),
        forall|k: int|
            0 <= k < spec_encode_items(ds).len() ==> s[i + k] == #[trigger] spec_encode_items(
                ds,
            )[k],
        s[i + spec_encode_items(ds).len()] == 0x5d,
    ensures
        spec_parse_data_items(s, i, acc) == Some((acc + ds, i + spec_encode_items(ds).len() + 1)),
    decreases ds.len(),
{
    let items = spec_encode_items(ds);
    let d0 = ds[0];
    let ed = spec_encode_daum(d0);
    assert(valid_daum_v(d0));
    if ds.len() == 1 {
        assert(items == ed);
        assert forall|k: int| 0 <= k < ed.len() implies s[i + k] == #[trigger] ed[k] by {
            assert(s[i + k] == items[k]);
        }
        lemma_parse_daum_window(s, i, d0);
        let e = i + ed.len();
        assert(s[i + 0] == ed[0]);
        assert(ed[0] == 0x7b);
        assert(!is_ws(s[i]));
        assert(spec_skip_ws(s, i) == i);
        assert(s[e] == 0x5d);
        assert(spec_skip_ws(s, e) == e);
        assert(acc.push(d0) =~= acc + ds);
        assert(spec_parse_data_items(s, i, acc) == Some((acc.push(d0), e + 1)));
    } else {
        let rest = ds.drop_first();
        assert(items == ed + seq![0x2cu8] + spec_encode_items(rest));
        assert forall|k: int| 0 <= k < ed.len() implies s[i + k] == #[trigger] ed[k] by {
            assert(s[i + k] == items[k]);
        }
        lemma_parse_daum_window(s, i, d0);
        let e = i + ed.len();
        assert(s[i + 0] == ed[0]);
        assert(ed[0] == 0x7b);
        assert(spec_skip_ws(s, i) == i);
        assert(s[e] == 0x2c) by {
            assert(s[i + (e - i)] == items[e - i]);
        }
        assert(spec_skip_ws(s, e) == e);
        assert(forall|k: int| 0 <= k < rest.len() ==> valid_daum_v(#[trigger] rest[k])) by {
            assert(forall|k: int|
                0 <= k < rest.len() ==> rest[k] == ds[k + 1] && valid_daum_v(ds[k + 1]));
        }
        assert forall|k: int|
            0 <= k < spec_encode_items(rest).len() implies s[e + 1 + k]
                == #[trigger] spec_encode_items(rest)[k] by {
            assert(s[i + ((ed.len() + 1) + k)] == items[(ed.len() + 1) + k]);
        }
        assert(s[e + 1 + spec_encode_items(rest).len()] == 0x5d);
        lemma_parse_items_window(s, e + 1, rest, acc.push(d0));
        assert(acc.push(d0) + rest =~= acc + ds);
        assert(spec_parse_data_items(s, i, acc) == spec_parse_data_items(s, e + 1, acc.push(d0)));
    }
}

/// Parsing a window that holds the canonical encoding of the `data`
/// array yields its entries.
pub proof fn lemma_parse_data_window(s: Seq<u8>, i: int, ds: Seq<DaumV>)
    requires
        forall|k: int| 0 <= k < ds.len() ==> valid_daum_v(#[trigger] ds[k]),
        0 <= i,
        i + spec_encode_data(ds).len() <= s.len(),
        forall|k: int|
            0 <= k < spec_encode_data(ds).len() ==> s[i + k] == #[trigger] spec_encode_data(
                ds,
            )[k],
    ensures
        spec_parse_data_array(s, i) == Some((ds, i + spec_encode_data(ds).len())),
{
    let enc = spec_encode_data(ds);
    let items = spec_encode_items(ds);
    assert(enc.len() == items.len() + 2);
    assert(s[i] == 0x5b) by {
        assert(s[i + 0] == enc[0]);
    }
    assert(s[i + 1 + items.len()] == 0x5d) by {
        assert(s[i + (1 + items.len() as int)] == enc[1 + items.len() as int]);
    }
    if ds.len() == 0 {
        assert(items.len() == 0);
        assert(s[i + 1] == 0x5d);
        assert(spec_skip_ws(s, i + 1) == i + 1);
        assert(Seq::<DaumV>::empty() =~= ds);
    } else {
        assert forall|k: int| 0 <= k < items.len() implies s[i + 1 + k] == #[trigger] items[k] by {
            assert(s[i + (1 + k)] == enc[1 + k]);
        }
        lemma_parse_items_window(s, i + 1, ds, Seq::empty());
        assert(Seq::<DaumV>::empty() + ds =~= ds);
        assert(s[i + 1 + 0] == items[0]);
        assert(items[0] == spec_encode_daum(ds[0])[0]);
        assert(spec_encode_daum(ds[0])[0] == 0x7b);
        assert(s[i + 1] != 0x5d);
        assert(spec_skip_ws(s, i + 1) == i + 1);
    }
}

/// Parsing a window that holds the canonical encoding of a valid record
/// yields that record.
#[verifier::rlimit(100)]
#[verifier::spinoff_prover]
pub proof fn lemma_parse_root_window(s: Seq<u8>, i: int, v: RootV)
    requires
        valid_root_v(v),
        0 <= i,
        i + spec_encode_root(v).len() <= s.len(),
        forall|k: int|
            0 <= k < spec_encode_root(v).len() ==> s[i + k] == #[trigger] spec_encode_root(v)[k],
    ensures
        spec_parse_root(s, i) == Some((v, i + spec_encode_root(v).len())),
{
    let enc = spec_encode_root(v);
    let m1 = spec_member(key_name(), spec_quoted(v.name));
    let m2 = spec_member(key_device_id(), spec_quoted(v.device_id));
    let m3 = spec_member(key_patient_id(), spec_quoted(v.patient_id));
    let m4 = spec_member(key_data(), spec_encode_data(v.data));
    let p1 = i + 1;
    let e1 = p1 + m1.len();
    let p2 = e1 + 1;
    let e2 = p2 + m2.len();
    let p3 = e2 + 1;
    let e3 = p3 + m3.len();
    let p4 = e3 + 1;
    let e4 = p4 + m4.len();
    assert(enc.len() == e4 + 1 - i);
    lemma_keys_text();
    assert(s[i] == 0x7b) by {
        assert(s[i + 0] == enc[0]);
    }
    assert(s[e1] == 0x2c) by {
        assert(s[i + (e1 - i)] == enc[e1 - i]);
    }
    assert(s[e2] == 0x2c) by {
        assert(s[i + (e2 - i)] == enc[e2 - i]);
    }
    assert(s[e3] == 0x2c) by {
        assert(s[i + (e3 - i)] == enc[e3 - i]);
    }
    assert(s[e4] == 0x7d) by {
        assert(s[i + (e4 - i)] == enc[e4 - i]);
    }
    assert forall|k: int| 0 <= k < m1.len() implies s[p1 + k] == m1[k] by {
        assert(s[i + (1 + k)] == enc[1 + k]);
    }
    assert forall|k: int| 0 <= k < m2.len() implies s[p2 + k] == m2[k] by {
        assert(s[i + ((p2 - i) + k)] == enc[(p2 - i) + k]);
    }
    assert forall|k: int| 0 <= k < m3.len() implies s[p3 + k] == m3[k] by {
        assert(s[i + ((p3 - i) + k)] == enc[(p3 - i) + k]);
    }
    assert forall|k: int| 0 <= k < m4.len() implies s[p4 + k] == m4[k] by {
        assert(s[i + ((p4 - i) + k)] == enc[(p4 - i) + k]);
    }
    lemma_member_window(s, p1, key_name(), spec_quoted(v.name));
    lemma_member_window(s, p2, key_device_id(), spec_quoted(v.device_id));
    lemma_member_window(s, p3, key_patient_id(), spec_quoted(v.patient_id));
    lemma_member_window(s, p4, key_data(), spec_encode_data(v.data));
    let v1 = p1 + spec_quoted(key_name()).len() + 1;
    let v2 = p2 + spec_quoted(key_device_id()).len() + 1;
    let v3 = p3 + spec_quoted(key_patient_id()).len() + 1;
    let v4 = p4 + spec_quoted(key_data()).len() + 1;
    // values
    assert forall|k: int|
        0 <= k < spec_quoted(v.name).len() implies s[v1 + k] == #[trigger] spec_quoted(
        v.name,
    )[k] by {
        assert(s[p1 + spec_quoted(key_name()).len() + 1 + k] == spec_quoted(v.name)[k]);
    }
    assert(s[v1 + 0] == spec_quoted(v.name)[0]);
    assert(spec_quoted(v.name)[0] == 0x22);
    assert(!is_ws(s[v1]));
    lemma_parse_string_window(s, v1, v.name);
    assert forall|k: int|
        0 <= k < spec_quoted(v.device_id).len() implies s[v2 + k] == #[trigger] spec_quoted(
        v.device_id,
    )[k] by {
        assert(s[p2 + spec_quoted(key_device_id()).len() + 1 + k] == spec_quoted(v.device_id)[k]);
    }
    assert(s[v2 + 0] == spec_quoted(v.device_id)[0]);
    assert(spec_quoted(v.device_id)[0] == 0x22);
    assert(!is_ws(s[v2]));
    lemma_parse_string_window(s, v2, v.device_id);
    assert forall|k: int|
        0 <= k < spec_quoted(v.patient_id).len() implies s[v3 + k] == #[trigger] spec_quoted(
        v.patient_id,
    )[k] by {
        assert(s[p3 + spec_quoted(key_patient_id()).len() + 1 + k] == spec_quoted(v.patient_id)[k]);
    }
    assert(s[v3 + 0] == spec_quoted(v.patient_id)[0]);
    assert(spec_quoted(v.patient_id)[0] == 0x22);
    assert(!is_ws(s[v3]));
    lemma_parse_string_window(s, v3, v.patient_id);
    assert forall|k: int|
        0 <= k < spec_encode_data(v.data).len() implies s[v4 + k] == #[trigger] spec_encode_data(
        v.data,
    )[k] by {
        assert(s[p4 + spec_quoted(key_data()).len() + 1 + k] == spec_encode_data(v.data)[k]);
    }
    assert(s[v4 + 0] == spec_encode_data(v.data)[0]);
    assert(spec_encode_data(v.data)[0] == 0x5b);
    assert(!is_ws(s[v4]));
    lemma_parse_data_window(s, v4, v.data);
    // distinct keys
    assert(key_name().len() == 4 && key_device_id().len() == 8 && key_patient_id().len() == 9
        && key_data().len() == 4);
    assert(key_name()[0] == 0x6e && key_data()[0] == 0x64);
    assert(key_device_id() != key_name());
    assert(key_patient_id() != key_name() && key_patient_id() != key_device_id());
    assert(key_data() != key_name() && key_data() != key_device_id() && key_data()
        != key_patient_id());
    // walk the member list
    let d0 = default_root_v();
    let a1 = RootV {
        name: v.name,
        device_id: d0.device_id,
        patient_id: d0.patient_id,
        data: d0.data,
    };
    let a2 = RootV { name: v.name, device_id: v.device_id, patient_id: d0.patient_id, data: d0.data };
    let a3 = RootV { name: v.name, device_id: v.device_id, patient_id: v.patient_id, data: d0.data };
    assert(spec_skip_ws(s, v1) == v1 && spec_skip_ws(s, e1) == e1);
    assert(spec_skip_ws(s, v2) == v2 && spec_skip_ws(s, e2) == e2);
    assert(spec_skip_ws(s, v3) == v3 && spec_skip_ws(s, e3) == e3);
    assert(spec_skip_ws(s, v4) == v4 && spec_skip_ws(s, e4) == e4);
    let sn = (false, false, false, false);
    assert(spec_parse_root_value(s, v1, key_name(), d0, sn) == Some(
        (a1, (true, false, false, false), e1),
    ));
    assert(spec_parse_root_members(s, p1, d0, sn) == spec_parse_root_members(
        s,
        p2,
        a1,
        (true, false, false, false),
    ));
    assert(spec_parse_root_value(s, v2, key_device_id(), a1, (true, false, false, false)) == Some(
        (a2, (true, true, false, false), e2),
    ));
    assert(spec_parse_root_members(s, p2, a1, (true, false, false, false))
        == spec_parse_root_members(s, p3, a2, (true, true, false, false)));
    assert(spec_parse_root_value(s, v3, key_patient_id(), a2, (true, true, false, false)) == Some(
        (a3, (true, true, true, false), e3),
    ));
    assert(spec_parse_root_members(s, p3, a2, (true, true, false, false))
        == spec_parse_root_members(s, p4, a3, (true, true, true, false)));
    assert(spec_parse_root_value(s, v4, key_data(), a3, (true, true, true, false)) == Some(
        (v, (true, true, true, true), e4),
    ));
    assert(spec_parse_root_members(s, p4, a3, (true, true, true, false)) == Some((v, e4 + 1)));
    assert(s[p1] == 0x22);
    assert(spec_skip_ws(s, i + 1) == p1);
    assert(spec_parse_root(s, i) == Some((v, e4 + 1)));
}

// ---------------------------------------------------------------------
// Decoded records are valid
// ---------------------------------------------------------------------

pub proof fn lemma_default_custom_valid()
    ensures
        valid_custom_v(default_custom_v()),
{
    let t = seq![0x30u8, 0x2eu8, 0x30u8];
    assert(t.len() == 3);
    assert(t[0] == 0x30 && t[1] == 0x2e && t[2] == 0x30);
    assert(spec_skip_digits(t, 3) == 3);
    assert(spec_skip_digits(t, 2) == 3);
    assert(spec_parse_frac(t, 1) == Some(3int));
    assert(spec_parse_exp(t, 3) == Some(3int));
    assert(t.subrange(0, 3) =~= t);
    assert(spec_parse_number_token(t, 0) == Some((t, 3int)));
}

proof fn lemma_parse_custom_members_valid(s: Seq<u8>, i: int, acc: CustomV, seen: (bool, bool, bool))
    requires
        0 <= i,
        valid_custom_v(acc),
        spec_parse_custom_members(s, i, acc, seen) is Some,
    ensures
        valid_custom_v(spec_parse_custom_members(s, i, acc, seen)->Some_0.0),
    decreases s.len() - i,
{
    let j0 = spec_skip_ws(s, i);
    let r1 = spec_parse_string(s, j0);
    let key = r1->Some_0.0;
    let j1 = r1->Some_0.1;
    let j2 = spec_skip_ws(s, j1);
    let j3 = spec_skip_ws(s, j2 + 1);
    crate::json::lemma_skip_ws_bounds(s, j2 + 1);
    let rv = spec_parse_custom_value(s, j3, key, acc, seen);
    let acc2 = rv->Some_0.0;
    let seen2 = rv->Some_0.1;
    let j4 = rv->Some_0.2;
    assert(valid_custom_v(acc2)) by {
        if key == key_tp() {
            let rt = spec_parse_number_token(s, j3);
            lemma_number_token_self(s, j3, rt->Some_0.0, rt->Some_0.1);
        } else if key == key_rr() {
            let ri = spec_parse_int(s, j3);
            crate::json::lemma_parse_int_bounds(s, j3, ri->Some_0.0, ri->Some_0.1);
        } else {
            let rs = spec_parse_string(s, j3);
            crate::json::lemma_parse_string_valid(s, j3, rs->Some_0.0, rs->Some_0.1);
        }
    }
    let j5 = spec_skip_ws(s, j4);
    if j5 < s.len() && s[j5] == 0x2c {
        lemma_parse_custom_members_valid(s, j5 + 1, acc2, seen2);
    }
}

pub proof fn lemma_parse_custom_valid(s: Seq<u8>, i: int)
    requires
        spec_parse_custom(s, i) is Some,
    ensures
        valid_custom_v(spec_parse_custom(s, i)->Some_0.0),
{
    lemma_default_custom_valid();
    let j = spec_skip_ws(s, i + 1);
    if !(j < s.len() && s[j] == 0x7d) {
        lemma_parse_custom_members_valid(
            s,
            i + 1,
            default_custom_v(),
            (false, false, false),
        );
    }
}

proof fn lemma_parse_daum_members_valid(
    s: Seq<u8>,
    i: int,
    acc: DaumV,
    seen: (bool, bool, bool, bool, bool, bool),
)
    requires
        0 <= i,
        valid_daum_v(acc),
        spec_parse_daum_members(s, i, acc, seen) is Some,
    ensures
        valid_daum_v(spec_parse_daum_members(s, i, acc, seen)->Some_0.0),
    decreases s.len() - i,
{
    let j0 = spec_skip_ws(s, i);
    let r1 = spec_parse_string(s, j0);
    let key = r1->Some_0.0;
    let j1 = r1->Some_0.1;
    let j2 = spec_skip_ws(s, j1);
    let j3 = spec_skip_ws(s, j2 + 1);
    crate::json::lemma_skip_ws_bounds(s, j2 + 1);
    let rv = spec_parse_daum_value(s, j3, key, acc, seen);
    let acc2 = rv->Some_0.0;
    let seen2 = rv->Some_0.1;
    let j4 = rv->Some_0.2;
    assert(valid_daum_v(acc2)) by {
        if key == key_hr() || key == key_bps() || key == key_bpd() || key == key_spo2() {
            let ri = spec_parse_int(s, j3);
            crate::json::lemma_parse_int_bounds(s, j3, ri->Some_0.0, ri->Some_0.1);
        } else if key == key_custom() {
            lemma_parse_custom_valid(s, j3);
        } else {
            let rs = spec_parse_string(s, j3);
            crate::json::lemma_parse_string_valid(s, j3, rs->Some_0.0, rs->Some_0.1);
        }
    }
    let j5 = spec_skip_ws(s, j4);
    if j5 < s.len() && s[j5] == 0x2c {
        lemma_parse_daum_members_valid(s, j5 + 1, acc2, seen2);
    }
}

pub proof fn lemma_parse_daum_valid(s: Seq<u8>, i: int)
    requires
        spec_parse_daum(s, i) is Some,
    ensures
        valid_daum_v(spec_parse_daum(s, i)->Some_0.0),
{
    lemma_default_custom_valid();
    let j = spec_skip_ws(s, i + 1);
    if !(j < s.len() && s[j] == 0x7d) {
        lemma_parse_daum_members_valid(
            s,
            i + 1,
            default_daum_v(),
            (false, false, false, false, false, false),
        );
    }
}

proof fn lemma_parse_items_valid(s: Seq<u8>, i: int, acc: Seq<DaumV>)
    requires
        0 <= i,
        forall|k: int| 0 <= k < acc.len() ==> valid_daum_v(#[trigger] acc[k]),
        spec_parse_data_items(s, i, acc) is Some,
    ensures
        forall|k: int|
            0 <= k < spec_parse_data_items(s, i, acc)->Some_0.0.len() ==> valid_daum_v(
                #[trigger] spec_parse_data_items(s, i, acc)->Some_0.0[k],
            ),
    decreases s.len() - i,
{
    let j0 = spec_skip_ws(s, i);
    let rd = spec_parse_daum(s, j0);
    let d = rd->Some_0.0;
    let j1 = rd->Some_0.1;
    lemma_parse_daum_valid(s, j0);
    assert(forall|k: int| 0 <= k < acc.push(d).len() ==> valid_daum_v(#[trigger] acc.push(d)[k]));
    let j2 = spec_skip_ws(s, j1);
    if j2 < s.len() && s[j2] == 0x2c {
        lemma_parse_items_valid(s, j2 + 1, acc.push(d));
    }
}

pub proof fn lemma_parse_data_valid(s: Seq<u8>, i: int)
    requires
        spec_parse_data_array(s, i) is Some,
    ensures
        forall|k: int|
            0 <= k < spec_parse_data_array(s, i)->Some_0.0.len() ==> valid_daum_v(
                #[trigger] spec_parse_data_array(s, i)->Some_0.0[k],
            ),
{
    let j = spec_skip_ws(s, i + 1);
    if !(j < s.len() && s[j] == 0x5d) {
        lemma_parse_items_valid(s, i + 1, Seq::empty());
    }
}

proof fn lemma_parse_root_members_valid(
    s: Seq<u8>,
    i: int,
    acc: RootV,
    seen: (bool, bool, bool, bool),
)
    requires
        0 <= i,
        valid_root_v(acc),
        spec_parse_root_members(s, i, acc, seen) is Some,
    ensures
        valid_root_v(spec_parse_root_members(s, i, acc, seen)->Some_0.0),
    decreases s.len() - i,
{
    let j0 = spec_skip_ws(s, i);
    let r1 = spec_parse_string(s, j0);
    let key = r1->Some_0.0;
    let j1 = r1->Some_0.1;
    let j2 = spec_skip_ws(s, j1);
    let j3 = spec_skip_ws(s, j2 + 1);
    crate::json::lemma_skip_ws_bounds(s, j2 + 1);
    let rv = spec_parse_root_value(s, j3, key, acc, seen);
    let acc2 = rv->Some_0.0;
    let seen2 = rv->Some_0.1;
    let j4 = rv->Some_0.2;
    assert(valid_root_v(acc2)) by {
        if key == key_data() {
            lemma_parse_data_valid(s, j3);
        } else {
            let rs = spec_parse_string(s, j3);
            crate::json::lemma_parse_string_valid(s, j3, rs->Some_0.0, rs->Some_0.1);
        }
    }
    let j5 = spec_skip_ws(s, j4);
    if j5 < s.len() && s[j5] == 0x2c {
        lemma_parse_root_members_valid(s, j5 + 1, acc2, seen2);
    }
}

/// Whatever the decoder accepts is a valid record: its integers are in
/// range, its texts re-encodable, its number literal well formed.
pub proof fn lemma_decode_valid(s: Seq<u8>, v: RootV)
    requires
        spec_decode(s) == Some(v),
    ensures
        valid_root_v(v),
{
    let i = spec_skip_ws(s, 0);
    crate::json::lemma_skip_ws_bounds(s, 0);
    let j = spec_skip_ws(s, i + 1);
    if !(j < s.len() && s[j] == 0x7d) {
        lemma_parse_root_members_valid(
            s,
            i + 1,
            default_root_v(),
            (false, false, false, false),
        );
    }
}

/// The whole-pipeline law: whatever record a request body decodes to, the
/// response encoded from it decodes back to exactly that record.
pub proof fn lemma_response_round_trip(s: Seq<u8>, v: RootV)
    requires
        spec_decode(s) == Some(v),
    ensures
        spec_decode(spec_encode_root(v)) == Some(v),
{
    lemma_decode_valid(s, v);
    lemma_decode_encode(v);
}

/// The round-trip law: a valid record, canonically encoded, decodes back
/// to exactly itself.
pub proof fn lemma_decode_encode(v: RootV)
    requires
        valid_root_v(v),
    ensures
        spec_decode(spec_encode_root(v)) == Some(v),
{
    let s = spec_encode_root(v);
    assert(forall|k: int| 0 <= k < s.len() ==> #[trigger] s[0 + k] == s[k]);
    lemma_parse_root_window(s, 0, v);
    assert(s[0] == 0x7b) by {
        assert(s[0int + 0] == s[0int]);
    }
    assert(spec_skip_ws(s, 0) == 0);
    assert(spec_skip_ws(s, s.len() as int) == s.len());
}

} // verus!
