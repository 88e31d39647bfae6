//! The record codec: decoding the accumulated bytes into a `Root` and
//! encoding a `Root` back into its canonical wire form.
//!
//! The accepted language and the canonical form are defined by spec
//! functions; the executable decoder and encoder are proved to return
//! exactly what those functions say. Decoding follows the
//! default-on-missing rule: an absent field takes its zero value, an
//! unknown or repeated field, or a present field of the wrong shape,
//! makes the payload malformed.

use vstd::prelude::*;

verus! {

use crate::ErrorKind;
use crate::json::emit_i64;
use crate::json::emit_quoted;
use crate::json::parse_i64;
use crate::json::parse_number_token;
use crate::json::parse_string;
use crate::json::skip_ws;
use crate::json::spec_encode_int;
use crate::json::spec_parse_int;
use crate::json::spec_parse_number_token;
use crate::json::spec_parse_string;
use crate::json::spec_quoted;
use crate::json::spec_skip_ws;
use crate::record::Custom;
use crate::record::CustomV;
use crate::record::Daum;
use crate::record::DaumV;
use crate::record::Root;
use crate::record::RootV;
use crate::record::custom_zero;
use crate::record::daum_zero;
use crate::record::default_custom_v;
use crate::record::default_daum_v;
use crate::record::default_root_v;
use crate::record::root_zero;

// ---------------------------------------------------------------------
// Field names of the wire encoding
// ---------------------------------------------------------------------

pub open spec fn key_name() -> Seq<u8> {
    seq![0x6eu8, 0x61u8, 0x6du8, 0x65u8]
}

pub open spec fn key_device_id() -> Seq<u8> {
    seq![0x64u8, 0x65u8, 0x76u8, 0x69u8, 0x63u8, 0x65u8, 0x49u8, 0x64u8]
}

pub open spec fn key_patient_id() -> Seq<u8> {
    seq![0x70u8, 0x61u8, 0x74u8, 0x69u8, 0x65u8, 0x6eu8, 0x74u8, 0x49u8, 0x64u8]
}

pub open spec fn key_data() -> Seq<u8> {
    seq![0x64u8, 0x61u8, 0x74u8, 0x61u8]
}

pub open spec fn key_hr() -> Seq<u8> {
    seq![0x68u8, 0x72u8]
}

pub open spec fn key_bps() -> Seq<u8> {
    seq![0x62u8, 0x70u8, 0x73u8]
}

pub open spec fn key_bpd() -> Seq<u8> {
    seq![0x62u8, 0x70u8, 0x64u8]
}

pub open spec fn key_spo2() -> Seq<u8> {
    seq![0x73u8, 0x70u8, 0x6fu8, 0x32u8]
}

pub open spec fn key_custom() -> Seq<u8> {
    seq![0x63u8, 0x75u8, 0x73u8, 0x74u8, 0x6fu8, 0x6du8]
}

pub open spec fn key_date() -> Seq<u8> {
    seq![0x64u8, 0x61u8, 0x74u8, 0x65u8]
}

pub open spec fn key_tp() -> Seq<u8> {
    seq![0x74u8, 0x70u8]
}

pub open spec fn key_rr() -> Seq<u8> {
    seq![0x72u8, 0x72u8]
}

pub open spec fn key_etc() -> Seq<u8> {
    seq![0x65u8, 0x74u8, 0x63u8]
}

/// Compares two byte vectors.
pub fn eq_bytes(a: &Vec<u8>, b: &Vec<u8>) -> (r: bool)
    ensures
        r == (a@ == b@),
{
    if a.len() != b.len() {
        return false;
    }
    for k in 0..a.len()
        invariant
            a@.len() == b@.len(),
            k <= a@.len(),
            forall|t: int| 0 <= t < k ==> a@[t] == b@[t],
    {
        if a[k] != b[k] {
            return false;
        }
    }
    proof {
        assert(a@ =~= b@);
    }
    true
}

fn key_vec(which: u8) -> (v: Vec<u8>)
    requires
        1 <= which <= 13,
    ensures
        which == 1 ==> v@ == key_name(),
        which == 2 ==> v@ == key_device_id(),
        which == 3 ==> v@ == key_patient_id(),
        which == 4 ==> v@ == key_data(),
        which == 5 ==> v@ == key_hr(),
        which == 6 ==> v@ == key_bps(),
        which == 7 ==> v@ == key_bpd(),
        which == 8 ==> v@ == key_spo2(),
        which == 9 ==> v@ == key_custom(),
        which == 10 ==> v@ == key_date(),
        which == 11 ==> v@ == key_tp(),
        which == 12 ==> v@ == key_rr(),
        which == 13 ==> v@ == key_etc(),
{
    let mut v: Vec<u8> = Vec::new();
    if which == 1 {
        v.push(0x6e);
        v.push(0x61);
        v.push(0x6d);
        v.push(0x65);
        proof {
            assert(v@ =~= key_name());
        }
    } else if which == 2 {
        v.push(0x64);
        v.push(0x65);
        v.push(0x76);
        v.push(0x69);
        v.push(0x63);
        v.push(0x65);
        v.push(0x49);
        v.push(0x64);
        proof {
            assert(v@ =~= key_device_id());
        }
    } else if which == 3 {
        v.push(0x70);
        v.push(0x61);
        v.push(0x74);
        v.push(0x69);
        v.push(0x65);
        v.push(0x6e);
        v.push(0x74);
        v.push(0x49);
        v.push(0x64);
        proof {
            assert(v@ =~= key_patient_id());
        }
    } else if which == 4 {
        v.push(0x64);
        v.push(0x61);
        v.push(0x74);
        v.push(0x61);
        proof {
            assert(v@ =~= key_data());
        }
    } else if which == 5 {
        v.push(0x68);
        v.push(0x72);
        proof {
            assert(v@ =~= key_hr());
        }
    } else if which == 6 {
        v.push(0x62);
        v.push(0x70);
        v.push(0x73);
        proof {
            assert(v@ =~= key_bps());
        }
    } else if which == 7 {
        v.push(0x62);
        v.push(0x70);
        v.push(0x64);
        proof {
            assert(v@ =~= key_bpd());
        }
    } else if which == 8 {
        v.push(0x73);
        v.push(0x70);
        v.push(0x6f);
        v.push(0x32);
        proof {
            assert(v@ =~= key_spo2());
        }
    } else if which == 9 {
        v.push(0x63);
        v.push(0x75);
        v.push(0x73);
        v.push(0x74);
        v.push(0x6f);
        v.push(0x6d);
        proof {
            assert(v@ =~= key_custom());
        }
    } else if which == 10 {
        v.push(0x64);
        v.push(0x61);
        v.push(0x74);
        v.push(0x65);
        proof {
            assert(v@ =~= key_date());
        }
    } else if which == 11 {
        v.push(0x74);
        v.push(0x70);
        proof {
            assert(v@ =~= key_tp());
        }
    } else if which == 12 {
        v.push(0x72);
        v.push(0x72);
        proof {
            assert(v@ =~= key_rr());
        }
    } else {
        v.push(0x65);
        v.push(0x74);
        v.push(0x63);
        proof {
            assert(v@ =~= key_etc());
        }
    }
    v
}

// ---------------------------------------------------------------------
// The accepted language, object by object
// ---------------------------------------------------------------------

/// One recognized member of a `custom` object: dispatch on the key, parse
/// the value, refuse a repeated or unknown key.
pub open spec fn spec_parse_custom_value(
    s: Seq<u8>,
    i: int,
    key: Seq<u8>,
    acc: CustomV,
    seen: (bool, bool, bool),
) -> Option<(CustomV, (bool, bool, bool), int)> {
    if key == key_tp() {
        if seen.0 {
            None
        } else {
            match spec_parse_number_token(s, i) {
                None => None,
                Some((t, j)) => Some(
                    ((CustomV { tp: t, rr: acc.rr, etc: acc.etc }), (true, seen.1, seen.2), j),
                ),
            }
        }
    } else if key == key_rr() {
        if seen.1 {
            None
        } else {
            match spec_parse_int(s, i) {
                None => None,
                Some((v, j)) => Some(
                    ((CustomV { tp: acc.tp, rr: v, etc: acc.etc }), (seen.0, true, seen.2), j),
                ),
            }
        }
    } else if key == key_etc() {
        if seen.2 {
            None
        } else {
            match spec_parse_string(s, i) {
                None => None,
                Some((t, j)) => Some(
                    ((CustomV { tp: acc.tp, rr: acc.rr, etc: t }), (seen.0, seen.1, true), j),
                ),
            }
        }
    } else {
        None
    }
}

/// The members of a `custom` object, from just after `{` or a comma.
pub open spec fn spec_parse_custom_members(
    s: Seq<u8>,
    i: int,
    acc: CustomV,
    seen: (bool, bool, bool),
) -> Option<(CustomV, int)>
    decreases s.len() - i,
{
    let j0 = spec_skip_ws(s, i);
    match spec_parse_string(s, j0) {
        None => None,
        Some((key, j1)) => {
            let j2 = spec_skip_ws(s, j1);
            if j2 < s.len() && s[j2] == 0x3a {
                let j3 = spec_skip_ws(s, j2 + 1);
                match spec_parse_custom_value(s, j3, key, acc, seen) {
                    None => None,
                    Some((acc2, seen2, j4)) => {
                        let j5 = spec_skip_ws(s, j4);
                        if j5 < s.len() && s[j5] == 0x2c {
                            if i < j5 + 1 {
                                spec_parse_custom_members(s, j5 + 1, acc2, seen2)
                            } else {
                                None
                            }
                        } else if j5 < s.len() && s[j5] == 0x7d {
                            Some((acc2, j5 + 1))
                        } else {
                            None
                        }
                    },
                }
            } else {
                None
            }
        },
    }
}

pub open spec fn spec_parse_custom(s: Seq<u8>, i: int) -> Option<(CustomV, int)> {
    if 0 <= i < s.len() && s[i] == 0x7b {
        let j = spec_skip_ws(s, i + 1);
        if j < s.len() && s[j] == 0x7d {
            Some((default_custom_v(), j + 1))
        } else {
            spec_parse_custom_members(s, i + 1, default_custom_v(), (false, false, false))
        }
    } else {
        None
    }
}

/// One recognized member of a measurement entry.
pub open spec fn spec_parse_daum_value(
    s: Seq<u8>,
    i: int,
    key: Seq<u8>,
    acc: DaumV,
    seen: (bool, bool, bool, bool, bool, bool),
) -> Option<(DaumV, (bool, bool, bool, bool, bool, bool), int)> {
    if key == key_hr() {
        if seen.0 {
            None
        } else {
            match spec_parse_int(s, i) {
                None => None,
                Some((v, j)) => Some(
                    (
                        (DaumV {
                            hr: v,
                            bps: acc.bps,
                            bpd: acc.bpd,
                            spo2: acc.spo2,
                            custom: acc.custom,
                            date: acc.date,
                        }),
                        (true, seen.1, seen.2, seen.3, seen.4, seen.5),
                        j,
                    ),
                ),
            }
        }
    } else if key == key_bps() {
        if seen.1 {
            None
        } else {
            match spec_parse_int(s, i) {
                None => None,
                Some((v, j)) => Some(
                    (
                        (DaumV {
                            hr: acc.hr,
                            bps: v,
                            bpd: acc.bpd,
                            spo2: acc.spo2,
                            custom: acc.custom,
                            date: acc.date,
                        }),
                        (seen.0, true, seen.2, seen.3, seen.4, seen.5),
                        j,
                    ),
                ),
            }
        }
    } else if key == key_bpd() {
        if seen.2 {
            None
        } else {
            match spec_parse_int(s, i) {
                None => None,
                Some((v, j)) => Some(
                    (
                        (DaumV {
                            hr: acc.hr,
                            bps: acc.bps,
                            bpd: v,
                            spo2: acc.spo2,
                            custom: acc.custom,
                            date: acc.date,
                        }),
                        (seen.0, seen.1, true, seen.3, seen.4, seen.5),
                        j,
                    ),
                ),
            }
        }
    } else if key == key_spo2() {
        if seen.3 {
            None
        } else {
            match spec_parse_int(s, i) {
                None => None,
                Some((v, j)) => Some(
                    (
                        (DaumV {
                            hr: acc.hr,
                            bps: acc.bps,
                            bpd: acc.bpd,
                            spo2: v,
                            custom: acc.custom,
                            date: acc.date,
                        }),
                        (seen.0, seen.1, seen.2, true, seen.4, seen.5),
                        j,
                    ),
                ),
            }
        }
    } else if key == key_custom() {
        if seen.4 {
            None
        } else {
            match spec_parse_custom(s, i) {
                None => None,
                Some((c, j)) => Some(
                    (
                        (DaumV {
                            hr: acc.hr,
                            bps: acc.bps,
                            bpd: acc.bpd,
                            spo2: acc.spo2,
                            custom: c,
                            date: acc.date,
                        }),
                        (seen.0, seen.1, seen.2, seen.3, true, seen.5),
                        j,
                    ),
                ),
            }
        }
    } else if key == key_date() {
        if seen.5 {
            None
        } else {
            match spec_parse_string(s, i) {
                None => None,
                Some((t, j)) => Some(
                    (
                        (DaumV {
                            hr: acc.hr,
                            bps: acc.bps,
                            bpd: acc.bpd,
                            spo2: acc.spo2,
                            custom: acc.custom,
                            date: t,
                        }),
                        (seen.0, seen.1, seen.2, seen.3, seen.4, true),
                        j,
                    ),
                ),
            }
        }
    } else {
        None
    }
}

/// The members of a measurement entry, from just after `{` or a comma.
pub open spec fn spec_parse_daum_members(
    s: Seq<u8>,
    i: int,
    acc: DaumV,
    seen: (bool, bool, bool, bool, bool, bool),
) -> Option<(DaumV, int)>
    decreases s.len() - i,
{
    let j0 = spec_skip_ws(s, i);
    match spec_parse_string(s, j0) {
        None => None,
        Some((key, j1)) => {
            let j2 = spec_skip_ws(s, j1);
            if j2 < s.len() && s[j2] == 0x3a {
                let j3 = spec_skip_ws(s, j2 + 1);
                match spec_parse_daum_value(s, j3, key, acc, seen) {
                    None => None,
                    Some((acc2, seen2, j4)) => {
                        let j5 = spec_skip_ws(s, j4);
                        if j5 < s.len() && s[j5] == 0x2c {
                            if i < j5 + 1 {
                                spec_parse_daum_members(s, j5 + 1, acc2, seen2)
                            } else {
                                None
                            }
                        } else if j5 < s.len() && s[j5] == 0x7d {
                            Some((acc2, j5 + 1))
                        } else {
                            None
                        }
                    },
                }
            } else {
                None
            }
        },
    }
}

pub open spec fn spec_parse_daum(s: Seq<u8>, i: int) -> Option<(DaumV, int)> {
    if 0 <= i < s.len() && s[i] == 0x7b {
        let j = spec_skip_ws(s, i + 1);
        if j < s.len() && s[j] == 0x7d {
            Some((default_daum_v(), j + 1))
        } else {
            spec_parse_daum_members(
                s,
                i + 1,
                default_daum_v(),
                (false, false, false, false, false, false),
            )
        }
    } else {
        None
    }
}

/// The entries of the `data` array, from just after `[` or a comma.
pub open spec fn spec_parse_data_items(s: Seq<u8>, i: int, acc: Seq<DaumV>) -> Option<
    (Seq<DaumV>, int),
>
    decreases s.len() - i,
{
    let j0 = spec_skip_ws(s, i);
    match spec_parse_daum(s, j0) {
        None => None,
        Some((d, j1)) => {
            let j2 = spec_skip_ws(s, j1);
            if j2 < s.len() && s[j2] == 0x2c {
                if i < j2 + 1 {
                    spec_parse_data_items(s, j2 + 1, acc.push(d))
                } else {
                    None
                }
            } else if j2 < s.len() && s[j2] == 0x5d {
                Some((acc.push(d), j2 + 1))
            } else {
                None
            }
        },
    }
}

pub open spec fn spec_parse_data_array(s: Seq<u8>, i: int) -> Option<(Seq<DaumV>, int)> {
    if 0 <= i < s.len() && s[i] == 0x5b {
        let j = spec_skip_ws(s, i + 1);
        if j < s.len() && s[j] == 0x5d {
            Some((Seq::empty(), j + 1))
        } else {
            spec_parse_data_items(s, i + 1, Seq::empty())
        }
    } else {
        None
    }
}

/// One recognized member of the top-level record.
pub open spec fn spec_parse_root_value(
    s: Seq<u8>,
    i: int,
    key: Seq<u8>,
    acc: RootV,
    seen: (bool, bool, bool, bool),
) -> Option<(RootV, (bool, bool, bool, bool), int)> {
    if key == key_name() {
        if seen.0 {
            None
        } else {
            match spec_parse_string(s, i) {
                None => None,
                Some((t, j)) => Some(
                    (
                        (RootV {
                            name: t,
                            device_id: acc.device_id,
                            patient_id: acc.patient_id,
                            data: acc.data,
                        }),
                        (true, seen.1, seen.2, seen.3),
                        j,
                    ),
                ),
            }
        }
    } else if key == key_device_id() {
        if seen.1 {
            None
        } else {
            match spec_parse_string(s, i) {
                None => None,
                Some((t, j)) => Some(
                    (
                        (RootV {
                            name: acc.name,
                            device_id: t,
                            patient_id: acc.patient_id,
                            data: acc.data,
                        }),
                        (seen.0, true, seen.2, seen.3),
                        j,
                    ),
                ),
            }
        }
    } else if key == key_patient_id() {
        if seen.2 {
            None
        } else {
            match spec_parse_string(s, i) {
                None => None,
                Some((t, j)) => Some(
                    (
                        (RootV {
                            name: acc.name,
                            device_id: acc.device_id,
                            patient_id: t,
                            data: acc.data,
                        }),
                        (seen.0, seen.1, true, seen.3),
                        j,
                    ),
                ),
            }
        }
    } else if key == key_data() {
        if seen.3 {
            None
        } else {
            match spec_parse_data_array(s, i) {
                None => None,
                Some((ds, j)) => Some(
                    (
                        (RootV {
                            name: acc.name,
                            device_id: acc.device_id,
                            patient_id: acc.patient_id,
                            data: ds,
                        }),
                        (seen.0, seen.1, seen.2, true),
                        j,
                    ),
                ),
            }
        }
    } else {
        None
    }
}

/// The members of the top-level record, from just after `{` or a comma.
pub open spec fn spec_parse_root_members(
    s: Seq<u8>,
    i: int,
    acc: RootV,
    seen: (bool, bool, bool, bool),
) -> Option<(RootV, int)>
    decreases s.len() - i,
{
    let j0 = spec_skip_ws(s, i);
    match spec_parse_string(s, j0) {
        None => None,
        Some((key, j1)) => {
            let j2 = spec_skip_ws(s, j1);
            if j2 < s.len() && s[j2] == 0x3a {
                let j3 = spec_skip_ws(s, j2 + 1);
                match spec_parse_root_value(s, j3, key, acc, seen) {
                    None => None,
                    Some((acc2, seen2, j4)) => {
                        let j5 = spec_skip_ws(s, j4);
                        if j5 < s.len() && s[j5] == 0x2c {
                            if i < j5 + 1 {
                                spec_parse_root_members(s, j5 + 1, acc2, seen2)
                            } else {
                                None
                            }
                        } else if j5 < s.len() && s[j5] == 0x7d {
                            Some((acc2, j5 + 1))
                        } else {
                            None
                        }
                    },
                }
            } else {
                None
            }
        },
    }
}

pub open spec fn spec_parse_root(s: Seq<u8>, i: int) -> Option<(RootV, int)> {
    if 0 <= i < s.len() && s[i] == 0x7b {
        let j = spec_skip_ws(s, i + 1);
        if j < s.len() && s[j] == 0x7d {
            Some((default_root_v(), j + 1))
        } else {
            spec_parse_root_members(s, i + 1, default_root_v(), (false, false, false, false))
        }
    } else {
        None
    }
}

/// What a byte block decodes to: the record, if the whole block (modulo
/// surrounding whitespace) is one well-formed record object.
pub open spec fn spec_decode(s: Seq<u8>) -> Option<RootV> {
    match spec_parse_root(s, spec_skip_ws(s, 0)) {
        None => None,
        Some((v, j)) => {
            if spec_skip_ws(s, j) == s.len() {
                Some(v)
            } else {
                None
            }
        },
    }
}

// ---------------------------------------------------------------------
// The executable decoder
// ---------------------------------------------------------------------

/// Parses a `custom` object starting at `i`.
fn parse_custom(s: &Vec<u8>, i: usize) -> (r: Option<(Custom, usize)>)
    requires
        i <= s@.len(),
    ensures
        match r {
            Some(p) => {
                &&& spec_parse_custom(s@, i as int) == Some((p.0@, p.1 as int))
                &&& i < p.1 <= s@.len()
            },
            None => spec_parse_custom(s@, i as int) is None,
        },
{
    if !(i < s.len()) {
        return None;
    }
    if s[i] != 0x7b {
        return None;
    }
    let j = skip_ws(s, i + 1);
    if j < s.len() && s[j] == 0x7d {
        return Some((custom_zero(), j + 1));
    }
    let mut acc = custom_zero();
    let mut seen0 = false;
    let mut seen1 = false;
    let mut seen2 = false;
    let mut pos: usize = i + 1;
    loop
        invariant
            i < s@.len(),
            s@[i as int] == 0x7b,
            i + 1 <= pos <= s@.len(),
            spec_parse_custom(s@, i as int) == spec_parse_custom_members(
                s@,
                pos as int,
                acc@,
                (seen0, seen1, seen2),
            ),
        decreases s@.len() - pos,
    {
        let j0 = skip_ws(s, pos);
        let (key, j1) = match parse_string(s, j0) {
            None => {
                return None;
            },
            Some(p) => p,
        };
        let j2 = skip_ws(s, j1);
        if !(j2 < s.len() && s[j2] == 0x3a) {
            return None;
        }
        let j3 = skip_ws(s, j2 + 1);
        let ghost acc_before = acc@;
        let ghost seen_before = (seen0, seen1, seen2);
        let j4: usize;
        if eq_bytes(&key, &key_vec(11)) {
            if seen0 {
                return None;
            }
            match parse_number_token(s, j3) {
                None => {
                    return None;
                },
                Some((t, j)) => {
                    acc.tp = t;
                    seen0 = true;
                    j4 = j;
                },
            }
        } else if eq_bytes(&key, &key_vec(12)) {
            if seen1 {
                return None;
            }
            match parse_i64(s, j3) {
                None => {
                    return None;
                },
                Some((v, j)) => {
                    acc.rr = v;
                    seen1 = true;
                    j4 = j;
                },
            }
        } else if eq_bytes(&key, &key_vec(13)) {
            if seen2 {
                return None;
            }
            match parse_string(s, j3) {
                None => {
                    return None;
                },
                Some((t, j)) => {
                    acc.etc = t;
                    seen2 = true;
                    j4 = j;
                },
            }
        } else {
            proof {
                assert(spec_parse_custom_value(s@, j3 as int, key@, acc_before, seen_before)
                    is None);
            }
            return None;
        }
        proof {
            assert(spec_parse_custom_value(s@, j3 as int, key@, acc_before, seen_before) == Some(
                (acc@, (seen0, seen1, seen2), j4 as int),
            ));
        }
        let j5 = skip_ws(s, j4);
        if j5 < s.len() && s[j5] == 0x2c {
            pos = j5 + 1;
        } else if j5 < s.len() && s[j5] == 0x7d {
            return Some((acc, j5 + 1));
        } else {
            return None;
        }
    }
}

/// Parses one measurement entry starting at `i`.
#[verifier::rlimit(60)]
fn parse_daum(s: &Vec<u8>, i: usize) -> (r: Option<(Daum, usize)>)
    requires
        i <= s@.len(),
    ensures
        match r {
            Some(p) => {
                &&& spec_parse_daum(s@, i as int) == Some((p.0@, p.1 as int))
                &&& i < p.1 <= s@.len()
            },
            None => spec_parse_daum(s@, i as int) is None,
        },
{
    if !(i < s.len()) {
        return None;
    }
    if s[i] != 0x7b {
        return None;
    }
    let j = skip_ws(s, i + 1);
    if j < s.len() && s[j] == 0x7d {
        return Some((daum_zero(), j + 1));
    }
    let mut acc = daum_zero();
    let mut seen0 = false;
    let mut seen1 = false;
    let mut seen2 = false;
    let mut seen3 = false;
    let mut seen4 = false;
    let mut seen5 = false;
    let mut pos: usize = i + 1;
    loop
        invariant
            i < s@.len(),
            s@[i as int] == 0x7b,
            i + 1 <= pos <= s@.len(),
            spec_parse_daum(s@, i as int) == spec_parse_daum_members(
                s@,
                pos as int,
                acc@,
                (seen0, seen1, seen2, seen3, seen4, seen5),
            ),
        decreases s@.len() - pos,
    {
        let j0 = skip_ws(s, pos);
        let (key, j1) = match parse_string(s, j0) {
            None => {
                return None;
            },
            Some(p) => p,
        };
        let j2 = skip_ws(s, j1);
        if !(j2 < s.len() && s[j2] == 0x3a) {
            return None;
        }
        let j3 = skip_ws(s, j2 + 1);
        let ghost acc_before = acc@;
        let ghost seen_before = (seen0, seen1, seen2, seen3, seen4, seen5);
        let j4: usize;
        if eq_bytes(&key, &key_vec(5)) {
            if seen0 {
                return None;
            }
            match parse_i64(s, j3) {
                None => {
                    return None;
                },
                Some((v, j)) => {
                    acc.hr = v;
                    seen0 = true;
                    j4 = j;
                },
            }
        } else if eq_bytes(&key, &key_vec(6)) {
            if seen1 {
                return None;
            }
            match parse_i64(s, j3) {
                None => {
                    return None;
                },
                Some((v, j)) => {
                    acc.bps = v;
                    seen1 = true;
                    j4 = j;
                },
            }
        } else if eq_bytes(&key, &key_vec(7)) {
            if seen2 {
                return None;
            }
            match parse_i64(s, j3) {
                None => {
                    return None;
                },
                Some((v, j)) => {
                    acc.bpd = v;
                    seen2 = true;
                    j4 = j;
                },
            }
        } else if eq_bytes(&key, &key_vec(8)) {
            if seen3 {
                return None;
            }
            match parse_i64(s, j3) {
                None => {
                    return None;
                },
                Some((v, j)) => {
                    acc.spo2 = v;
                    seen3 = true;
                    j4 = j;
                },
            }
        } else if eq_bytes(&key, &key_vec(9)) {
            if seen4 {
                return None;
            }
            match parse_custom(s, j3) {
                None => {
                    return None;
                },
                Some((c, j)) => {
                    acc.custom = c;
                    seen4 = true;
                    j4 = j;
                },
            }
        } else if eq_bytes(&key, &key_vec(10)) {
            if seen5 {
                return None;
            }
            match parse_string(s, j3) {
                None => {
                    return None;
                },
                Some((t, j)) => {
                    acc.date = t;
                    seen5 = true;
                    j4 = j;
                },
            }
        } else {
            proof {
                assert(spec_parse_daum_value(s@, j3 as int, key@, acc_before, seen_before)
                    is None);
            }
            return None;
        }
        proof {
            assert(spec_parse_daum_value(s@, j3 as int, key@, acc_before, seen_before) == Some(
                (acc@, (seen0, seen1, seen2, seen3, seen4, seen5), j4 as int),
            ));
        }
        let j5 = skip_ws(s, j4);
        if j5 < s.len() && s[j5] == 0x2c {
            pos = j5 + 1;
        } else if j5 < s.len() && s[j5] == 0x7d {
            return Some((acc, j5 + 1));
        } else {
            return None;
        }
    }
}

/// Parses the `data` array starting at `i`.
fn parse_data_array(s: &Vec<u8>, i: usize) -> (r: Option<(Vec<Daum>, usize)>)
    requires
        i <= s@.len(),
    ensures
        match r {
            Some(p) => {
                &&& spec_parse_data_array(s@, i as int) == Some(
                    (p.0@.map_values(|d: Daum| d@), p.1 as int),
                )
                &&& i < p.1 <= s@.len()
            },
            None => spec_parse_data_array(s@, i as int) is None,
        },
{
    if !(i < s.len()) {
        return None;
    }
    if s[i] != 0x5b {
        return None;
    }
    let j = skip_ws(s, i + 1);
    if j < s.len() && s[j] == 0x5d {
        let out: Vec<Daum> = Vec::new();
        proof {
            assert(out@.map_values(|d: Daum| d@) =~= Seq::<DaumV>::empty());
        }
        return Some((out, j + 1));
    }
    let mut out: Vec<Daum> = Vec::new();
    proof {
        assert(out@.map_values(|d: Daum| d@) =~= Seq::<DaumV>::empty());
    }
    let mut pos: usize = i + 1;
    loop
        invariant
            i < s@.len(),
            s@[i as int] == 0x5b,
            i + 1 <= pos <= s@.len(),
            spec_parse_data_array(s@, i as int) == spec_parse_data_items(
                s@,
                pos as int,
                out@.map_values(|d: Daum| d@),
            ),
        decreases s@.len() - pos,
    {
        let j0 = skip_ws(s, pos);
        let (d, j1) = match parse_daum(s, j0) {
            None => {
                return None;
            },
            Some(p) => p,
        };
        let ghost items_before = out@.map_values(|d: Daum| d@);
        let ghost dv = d@;
        out.push(d);
        proof {
            assert(out@.map_values(|d: Daum| d@) =~= items_before.push(dv));
        }
        let j2 = skip_ws(s, j1);
        if j2 < s.len() && s[j2] == 0x2c {
            pos = j2 + 1;
        } else if j2 < s.len() && s[j2] == 0x5d {
            return Some((out, j2 + 1));
        } else {
            return None;
        }
    }
}

/// Parses the top-level record object starting at `i`.
fn parse_root(s: &Vec<u8>, i: usize) -> (r: Option<(Root, usize)>)
    requires
        i <= s@.len(),
    ensures
        match r {
            Some(p) => {
                &&& spec_parse_root(s@, i as int) == Some((p.0@, p.1 as int))
                &&& i < p.1 <= s@.len()
            },
            None => spec_parse_root(s@, i as int) is None,
        },
{
    if !(i < s.len()) {
        return None;
    }
    if s[i] != 0x7b {
        return None;
    }
    let j = skip_ws(s, i + 1);
    if j < s.len() && s[j] == 0x7d {
        return Some((root_zero(), j + 1));
    }
    let mut acc = root_zero();
    let mut seen0 = false;
    let mut seen1 = false;
    let mut seen2 = false;
    let mut seen3 = false;
    let mut pos: usize = i + 1;
    loop
        invariant
            i < s@.len(),
            s@[i as int] == 0x7b,
            i + 1 <= pos <= s@.len(),
            spec_parse_root(s@, i as int) == spec_parse_root_members(
                s@,
                pos as int,
                acc@,
                (seen0, seen1, seen2, seen3),
            ),
        decreases s@.len() - pos,
    {
        let j0 = skip_ws(s, pos);
        let (key, j1) = match parse_string(s, j0) {
            None => {
                return None;
            },
            Some(p) => p,
        };
        let j2 = skip_ws(s, j1);
        if !(j2 < s.len() && s[j2] == 0x3a) {
            return None;
        }
        let j3 = skip_ws(s, j2 + 1);
        let ghost acc_before = acc@;
        let ghost seen_before = (seen0, seen1, seen2, seen3);
        let j4: usize;
        if eq_bytes(&key, &key_vec(1)) {
            if seen0 {
                return None;
            }
            match parse_string(s, j3) {
                None => {
                    return None;
                },
                Some((t, j)) => {
                    acc.name = t;
                    seen0 = true;
                    j4 = j;
                },
            }
        } else if eq_bytes(&key, &key_vec(2)) {
            if seen1 {
                return None;
            }
            match parse_string(s, j3) {
                None => {
                    return None;
                },
                Some((t, j)) => {
                    acc.device_id = t;
                    seen1 = true;
                    j4 = j;
                },
            }
        } else if eq_bytes(&key, &key_vec(3)) {
            if seen2 {
                return None;
            }
            match parse_string(s, j3) {
                None => {
                    return None;
                },
                Some((t, j)) => {
                    acc.patient_id = t;
                    seen2 = true;
                    j4 = j;
                },
            }
        } else if eq_bytes(&key, &key_vec(4)) {
            if seen3 {
                return None;
            }
            match parse_data_array(s, j3) {
                None => {
                    return None;
                },
                Some((ds, j)) => {
                    acc.data = ds;
                    seen3 = true;
                    j4 = j;
                },
            }
        } else {
            proof {
                assert(spec_parse_root_value(s@, j3 as int, key@, acc_before, seen_before)
                    is None);
            }
            return None;
        }
        proof {
            assert(spec_parse_root_value(s@, j3 as int, key@, acc_before, seen_before) == Some(
                (acc@, (seen0, seen1, seen2, seen3), j4 as int),
            ));
        }
        let j5 = skip_ws(s, j4);
        if j5 < s.len() && s[j5] == 0x2c {
            pos = j5 + 1;
        } else if j5 < s.len() && s[j5] == 0x7d {
            return Some((acc, j5 + 1));
        } else {
            return None;
        }
    }
}

/// Decodes a complete byte block into a record; anything but one
/// well-formed record object (with surrounding whitespace) is refused as
/// a malformed payload.
pub fn decode_record(s: &Vec<u8>) -> (r: Result<Root, ErrorKind>)
    ensures
        match r {
            Ok(root) => spec_decode(s@) == Some(root@),
            Err(e) => spec_decode(s@) is None && e == ErrorKind::MalformedPayload,
        },
{
    let i = skip_ws(s, 0);
    match parse_root(s, i) {
        None => Err(ErrorKind::MalformedPayload),
        Some((root, j)) => {
            let j2 = skip_ws(s, j);
            if j2 == s.len() {
                Ok(root)
            } else {
                Err(ErrorKind::MalformedPayload)
            }
        },
    }
}

// ---------------------------------------------------------------------
// The canonical encoding
// ---------------------------------------------------------------------

/// One member of an encoded object: quoted key, colon, encoded value.
pub open spec fn spec_member(key: Seq<u8>, val: Seq<u8>) -> Seq<u8> {
    spec_quoted(key) + seq![0x3au8] + val
}

pub open spec fn spec_encode_custom(c: CustomV) -> Seq<u8> {
    seq![0x7bu8] + spec_member(key_tp(), c.tp) + seq![0x2cu8] + spec_member(
        key_rr(),
        spec_encode_int(c.rr),
    ) + seq![0x2cu8] + spec_member(key_etc(), spec_quoted(c.etc)) + seq![0x7du8]
}

pub open spec fn spec_encode_daum(d: DaumV) -> Seq<u8> {
    seq![0x7bu8] + spec_member(key_hr(), spec_encode_int(d.hr)) + seq![0x2cu8] + spec_member(
        key_bps(),
        spec_encode_int(d.bps),
    ) + seq![0x2cu8] + spec_member(key_bpd(), spec_encode_int(d.bpd)) + seq![0x2cu8]
        + spec_member(key_spo2(), spec_encode_int(d.spo2)) + seq![0x2cu8] + spec_member(
        key_custom(),
        spec_encode_custom(d.custom),
    ) + seq![0x2cu8] + spec_member(key_date(), spec_quoted(d.date)) + seq![0x7du8]
}

/// The comma-separated entries of the `data` array.
pub open spec fn spec_encode_items(ds: Seq<DaumV>) -> Seq<u8>
    decreases ds.len(),
{
    if ds.len() == 0 {
        Seq::empty()
    } else if ds.len() == 1 {
        spec_encode_daum(ds[0])
    } else {
        spec_encode_daum(ds[0]) + seq![0x2cu8] + spec_encode_items(ds.drop_first())
    }
}

pub open spec fn spec_encode_data(ds: Seq<DaumV>) -> Seq<u8> {
    seq![0x5bu8] + spec_encode_items(ds) + seq![0x5du8]
}

/// The canonical byte form of a record: every field present, declaration
/// order, no whitespace.
pub open spec fn spec_encode_root(v: RootV) -> Seq<u8> {
    seq![0x7bu8] + spec_member(key_name(), spec_quoted(v.name)) + seq![0x2cu8] + spec_member(
        key_device_id(),
        spec_quoted(v.device_id),
    ) + seq![0x2cu8] + spec_member(key_patient_id(), spec_quoted(v.patient_id)) + seq![0x2cu8]
        + spec_member(key_data(), spec_encode_data(v.data)) + seq![0x7du8]
}

pub proof fn lemma_encode_items_snoc(ds: Seq<DaumV>, d: DaumV)
    ensures
        spec_encode_items(ds.push(d)) == if ds.len() == 0 {
            spec_encode_daum(d)
        } else {
            spec_encode_items(ds) + seq![0x2cu8] + spec_encode_daum(d)
        },
    decreases ds.len(),
{
    let e = ds.push(d);
    if ds.len() == 0 {
        assert(e.len() == 1);
        assert(e[0] == d);
    } else {
        assert(e.len() >= 2);
        assert(e[0] == ds[0]);
        assert(e.drop_first() =~= ds.drop_first().push(d));
        lemma_encode_items_snoc(ds.drop_first(), d);
        if ds.len() == 1 {
            assert(spec_encode_items(ds) == spec_encode_daum(ds[0]));
        } else {
            assert(spec_encode_daum(ds[0]) + seq![0x2cu8] + (spec_encode_items(ds.drop_first())
                + seq![0x2cu8] + spec_encode_daum(d)) =~= (spec_encode_daum(ds[0]) + seq![0x2cu8]
                + spec_encode_items(ds.drop_first())) + seq![0x2cu8] + spec_encode_daum(d));
        }
    }
}

fn emit_member_key(out: &mut Vec<u8>, which: u8)
    requires
        1 <= which <= 13,
    ensures
        which == 1 ==> final(out)@ == old(out)@ + spec_quoted(key_name()) + seq![0x3au8],
        which == 2 ==> final(out)@ == old(out)@ + spec_quoted(key_device_id()) + seq![0x3au8],
        which == 3 ==> final(out)@ == old(out)@ + spec_quoted(key_patient_id()) + seq![0x3au8],
        which == 4 ==> final(out)@ == old(out)@ + spec_quoted(key_data()) + seq![0x3au8],
        which == 5 ==> final(out)@ == old(out)@ + spec_quoted(key_hr()) + seq![0x3au8],
        which == 6 ==> final(out)@ == old(out)@ + spec_quoted(key_bps()) + seq![0x3au8],
        which == 7 ==> final(out)@ == old(out)@ + spec_quoted(key_bpd()) + seq![0x3au8],
        which == 8 ==> final(out)@ == old(out)@ + spec_quoted(key_spo2()) + seq![0x3au8],
        which == 9 ==> final(out)@ == old(out)@ + spec_quoted(key_custom()) + seq![0x3au8],
        which == 10 ==> final(out)@ == old(out)@ + spec_quoted(key_date()) + seq![0x3au8],
        which == 11 ==> final(out)@ == old(out)@ + spec_quoted(key_tp()) + seq![0x3au8],
        which == 12 ==> final(out)@ == old(out)@ + spec_quoted(key_rr()) + seq![0x3au8],
        which == 13 ==> final(out)@ == old(out)@ + spec_quoted(key_etc()) + seq![0x3au8],
{
    let kv = key_vec(which);
    emit_quoted(out, &kv);
    out.push(0x3a);
}

fn emit_custom(out: &mut Vec<u8>, c: &Custom)
    ensures
        final(out)@ == old(out)@ + spec_encode_custom(c@),
{
    let ghost start = out@;
    out.push(0x7b);
    emit_member_key(out, 11);
    crate::json::push_all(out, &c.tp);
    out.push(0x2c);
    emit_member_key(out, 12);
    emit_i64(out, c.rr);
    out.push(0x2c);
    emit_member_key(out, 13);
    emit_quoted(out, &c.etc);
    out.push(0x7d);
    proof {
        assert(out@ =~= start + spec_encode_custom(c@));
    }
}

#[verifier::rlimit(60)]
fn emit_daum(out: &mut Vec<u8>, d: &Daum)
    ensures
        final(out)@ == old(out)@ + spec_encode_daum(d@),
{
    let ghost start = out@;
    out.push(0x7b);
    emit_member_key(out, 5);
    emit_i64(out, d.hr);
    out.push(0x2c);
    emit_member_key(out, 6);
    emit_i64(out, d.bps);
    out.push(0x2c);
    emit_member_key(out, 7);
    emit_i64(out, d.bpd);
    out.push(0x2c);
    emit_member_key(out, 8);
    emit_i64(out, d.spo2);
    out.push(0x2c);
    emit_member_key(out, 9);
    emit_custom(out, &d.custom);
    out.push(0x2c);
    emit_member_key(out, 10);
    emit_quoted(out, &d.date);
    out.push(0x7d);
    proof {
        assert(out@ =~= start + spec_encode_daum(d@));
    }
}

fn emit_data(out: &mut Vec<u8>, ds: &Vec<Daum>)
    ensures
        final(out)@ == old(out)@ + spec_encode_data(ds@.map_values(|d: Daum| d@)),
{
    let ghost dv = ds@.map_values(|d: Daum| d@);
    let ghost start = out@;
    out.push(0x5b);
    let ghost opened = out@;
    proof {
        assert(opened =~= start + seq![0x5bu8]);
        assert(opened + spec_encode_items(dv.take(0)) =~= opened);
    }
    for k in 0..ds.len()
        invariant
            out@ == opened + spec_encode_items(dv.take(k as int)),
            opened == start + seq![0x5bu8],
            dv == ds@.map_values(|d: Daum| d@),
            dv.len() == ds@.len(),
            ds@.len() == ds.len(),
    {
        proof {
            assert(dv.take(k as int).push(dv[k as int]) =~= dv.take(k as int + 1));
            lemma_encode_items_snoc(dv.take(k as int), dv[k as int]);
            assert(dv[k as int] == ds@[k as int]@);
        }
        if k > 0 {
            out.push(0x2c);
        }
        emit_daum(out, &ds[k]);
        proof {
            if k > 0 {
                assert(out@ =~= opened + (spec_encode_items(dv.take(k as int)) + seq![0x2cu8]
                    + spec_encode_daum(dv[k as int])));
            } else {
                assert(dv.take(0).len() == 0);
                assert(out@ =~= opened + spec_encode_daum(dv[k as int]));
                assert(spec_encode_items(dv.take(1)) == spec_encode_daum(dv[0]));
            }
        }
    }
    proof {
        assert(dv.take(dv.len() as int) =~= dv);
    }
    out.push(0x5d);
    proof {
        assert(out@ =~= start + spec_encode_data(dv));
    }
}

/// Encodes a record into its canonical byte form. Encoding never fails.
#[verifier::rlimit(60)]
pub fn encode_record(r: &Root) -> (out: Vec<u8>)
    ensures
        out@ == spec_encode_root(r@),
{
    let mut out: Vec<u8> = Vec::new();
    let ghost start = out@;
    out.push(0x7b);
    emit_member_key(&mut out, 1);
    emit_quoted(&mut out, &r.name);
    out.push(0x2c);
    emit_member_key(&mut out, 2);
    emit_quoted(&mut out, &r.device_id);
    out.push(0x2c);
    emit_member_key(&mut out, 3);
    emit_quoted(&mut out, &r.patient_id);
    out.push(0x2c);
    emit_member_key(&mut out, 4);
    emit_data(&mut out, &r.data);
    out.push(0x7d);
    proof {
        assert(start.len() == 0);
        assert(out@ =~= spec_encode_root(r@));
    }
    out
}

// ---------------------------------------------------------------------
// The per-request pipeline
// ---------------------------------------------------------------------

/// Decodes a completed body and re-encodes it canonically: the compute
/// step of one request after accumulation has succeeded.
pub fn process_body(body: &Vec<u8>) -> (r: Result<Vec<u8>, ErrorKind>)
    ensures
        match spec_decode(body@) {
            None => r == Err::<Vec<u8>, ErrorKind>(ErrorKind::MalformedPayload),
            Some(v) => match r {
                Ok(o) => o@ == spec_encode_root(v),
                Err(_) => false,
            },
        },
{
    match decode_record(body) {
        Err(e) => Err(e),
        Ok(root) => Ok(encode_record(&root)),
    }
}

/// One whole request: accumulate the chunks under the ceiling, decode,
/// re-encode. Overflow is reported as soon as a chunk would cross the
/// ceiling; a body that does not decode is malformed.
pub fn handle_stream(chunks: &Vec<Vec<u8>>, max: usize) -> (r: Result<Vec<u8>, ErrorKind>)
    ensures
        ({
            let cs = chunks@.map_values(|c: Vec<u8>| c@);
            match crate::accumulator::spec_accumulate(cs, Seq::empty(), max as nat) {
                None => r == Err::<Vec<u8>, ErrorKind>(ErrorKind::PayloadTooLarge),
                Some(body) => match spec_decode(body) {
                    None => r == Err::<Vec<u8>, ErrorKind>(ErrorKind::MalformedPayload),
                    Some(v) => match r {
                        Ok(o) => o@ == spec_encode_root(v),
                        Err(_) => false,
                    },
                },
            }
        }),
{
    match crate::accumulator::accumulate_all(chunks, max) {
        Err(e) => Err(e),
        Ok(body) => process_body(&body),
    }
}

} // verus!
