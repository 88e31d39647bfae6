//! The record schema: a top-level `Root` with an ordered sequence of
//! `Daum` measurement entries, each carrying a nested `Custom` block.
//!
//! Text fields hold the raw bytes of the decoded text. The `tp` field of
//! `Custom` is a decimal number kept as its literal byte text: the system
//! only passes it through, so the literal is the value.

use vstd::prelude::*;

verus! {

use crate::json::is_number_token;
use crate::json::valid_text;

/// Nested pass-through block of one measurement entry.
#[derive(Clone, Debug, PartialEq)]
pub struct Custom {
    /// A decimal number, kept as its literal byte text (e.g. `34.7`).
    pub tp: Vec<u8>,
    pub rr: i64,
    pub etc: Vec<u8>,
}

/// One measurement entry.
#[derive(Clone, Debug, PartialEq)]
pub struct Daum {
    pub hr: i64,
    pub bps: i64,
    pub bpd: i64,
    pub spo2: i64,
    pub custom: Custom,
    /// Timestamp text, opaque to this system.
    pub date: Vec<u8>,
}

/// The top-level record.
#[derive(Clone, Debug, PartialEq)]
pub struct Root {
    pub name: Vec<u8>,
    pub device_id: Vec<u8>,
    pub patient_id: Vec<u8>,
    pub data: Vec<Daum>,
}

/// Mathematical value of a `Custom`.
pub struct CustomV {
    pub tp: Seq<u8>,
    pub rr: int,
    pub etc: Seq<u8>,
}

/// Mathematical value of a `Daum`.
pub struct DaumV {
    pub hr: int,
    pub bps: int,
    pub bpd: int,
    pub spo2: int,
    pub custom: CustomV,
    pub date: Seq<u8>,
}

/// Mathematical value of a `Root`.
pub struct RootV {
    pub name: Seq<u8>,
    pub device_id: Seq<u8>,
    pub patient_id: Seq<u8>,
    pub data: Seq<DaumV>,
}

impl View for Custom {
    type V = CustomV;

    open spec fn view(&self) -> CustomV {
        CustomV { tp: self.tp@, rr: self.rr as int, etc: self.etc@ }
    }
}

impl View for Daum {
    type V = DaumV;

    open spec fn view(&self) -> DaumV {
        DaumV {
            hr: self.hr as int,
            bps: self.bps as int,
            bpd: self.bpd as int,
            spo2: self.spo2 as int,
            custom: self.custom@,
            date: self.date@,
        }
    }
}

impl View for Root {
    type V = RootV;

    open spec fn view(&self) -> RootV {
        RootV {
            name: self.name@,
            device_id: self.device_id@,
            patient_id: self.patient_id@,
            data: self.data@.map_values(|d: Daum| d@),
        }
    }
}

/// Zero value of `Custom`: number text `0.0`, integer 0, empty text.
pub open spec fn default_custom_v() -> CustomV {
    CustomV { tp: seq![0x30u8, 0x2eu8, 0x30u8], rr: 0, etc: Seq::empty() }
}

/// Zero value of `Daum`: all vitals 0, default `Custom`, empty date.
pub open spec fn default_daum_v() -> DaumV {
    DaumV {
        hr: 0,
        bps: 0,
        bpd: 0,
        spo2: 0,
        custom: default_custom_v(),
        date: Seq::empty(),
    }
}

/// Zero value of `Root`: empty texts and no entries.
pub open spec fn default_root_v() -> RootV {
    RootV {
        name: Seq::empty(),
        device_id: Seq::empty(),
        patient_id: Seq::empty(),
        data: Seq::empty(),
    }
}

pub open spec fn fits_i64(n: int) -> bool {
    i64::MIN <= n <= i64::MAX
}

/// A `Custom` value the codec can represent: the number literal is a
/// well-formed number token, the integer fits the wire integer range, and
/// the text is encodable.
pub open spec fn valid_custom_v(c: CustomV) -> bool {
    &&& is_number_token(c.tp)
    &&& fits_i64(c.rr)
    &&& valid_text(c.etc)
}

pub open spec fn valid_daum_v(d: DaumV) -> bool {
    &&& fits_i64(d.hr)
    &&& fits_i64(d.bps)
    &&& fits_i64(d.bpd)
    &&& fits_i64(d.spo2)
    &&& valid_custom_v(d.custom)
    &&& valid_text(d.date)
}

pub open spec fn valid_root_v(r: RootV) -> bool {
    &&& valid_text(r.name)
    &&& valid_text(r.device_id)
    &&& valid_text(r.patient_id)
    &&& forall|k: int| 0 <= k < r.data.len() ==> valid_daum_v(#[trigger] r.data[k])
}

/// Builds the zero `Custom` value.
pub fn custom_zero() -> (c: Custom)
    ensures
        c@ == default_custom_v(),
{
    let mut tp: Vec<u8> = Vec::new();
    tp.push(0x30u8);
    tp.push(0x2eu8);
    tp.push(0x30u8);
    let c = Custom { tp, rr: 0, etc: Vec::new() };
    proof {
        assert(c@.tp =~= default_custom_v().tp);
        assert(c@.etc =~= default_custom_v().etc);
    }
    c
}

/// Builds the zero `Daum` value.
pub fn daum_zero() -> (d: Daum)
    ensures
        d@ == default_daum_v(),
{
    let d = Daum {
        hr: 0,
        bps: 0,
        bpd: 0,
        spo2: 0,
        custom: custom_zero(),
        date: Vec::new(),
    };
    proof {
        assert(d@.date =~= default_daum_v().date);
    }
    d
}

/// Builds the zero `Root` value.
pub fn root_zero() -> (r: Root)
    ensures
        r@ == default_root_v(),
{
    let r = Root {
        name: Vec::new(),
        device_id: Vec::new(),
        patient_id: Vec::new(),
        data: Vec::new(),
    };
    proof {
        assert(r@.name =~= default_root_v().name);
        assert(r@.device_id =~= default_root_v().device_id);
        assert(r@.patient_id =~= default_root_v().patient_id);
        assert(r@.data =~= default_root_v().data);
    }
    r
}

} // verus!
