use streamdata::accumulator::{accumulate_all, BoundedAccumulator};
use streamdata::codec::{decode_record, encode_record, handle_stream, process_body};
use streamdata::record::{Custom, Daum, Root};
use streamdata::{ErrorKind, DEFAULT_MAX_SIZE};

fn text(s: &str) -> Vec<u8> {
    s.as_bytes().to_vec()
}

fn sample_record() -> Root {
    Root {
        name: text("test-data"),
        device_id: text("123"),
        patient_id: text("123"),
        data: vec![Daum {
            hr: 66,
            bps: 80,
            bpd: 120,
            spo2: 98,
            custom: Custom {
                tp: text("34.7"),
                rr: 22,
                etc: text("some-extra"),
            },
            date: text("17-03-2023"),
        }],
    }
}

const SCENARIO: &str = r#"{"name":"test-data","deviceId":"123","patientId":"123","data":[{"hr":66,"bps":80,"bpd":120,"spo2":98,"custom":{"tp":34.7,"rr":22,"etc":"some-extra"},"date":"17-03-2023"}]}"#;

#[test]
fn test_index() {
    // one whole-body chunk through the request pipeline
    let chunks = vec![text(SCENARIO)];
    let resp = handle_stream(&chunks, DEFAULT_MAX_SIZE).unwrap();
    // the response body re-encodes the decoded record canonically
    assert_eq!(resp, text(SCENARIO));
    let round = decode_record(&resp).unwrap();
    assert_eq!(round, sample_record());
}

#[test]
fn scenario_decodes_to_record() {
    let body = text(SCENARIO);
    let rec = decode_record(&body).unwrap();
    assert_eq!(rec, sample_record());
    assert_eq!(rec.data.len(), 1);
    assert_eq!(rec.data[0].hr, 66);
    assert_eq!(rec.data[0].bps, 80);
    assert_eq!(rec.data[0].bpd, 120);
    assert_eq!(rec.data[0].spo2, 98);
    assert_eq!(rec.data[0].custom.tp, text("34.7"));
    assert_eq!(rec.data[0].custom.rr, 22);
    assert_eq!(rec.data[0].custom.etc, text("some-extra"));
    assert_eq!(rec.data[0].date, text("17-03-2023"));
}

#[test]
fn round_trip_all_fields() {
    let rec = sample_record();
    let bytes = encode_record(&rec);
    let back = decode_record(&bytes).unwrap();
    assert_eq!(back, rec);
}

#[test]
fn round_trip_escapes_and_negatives() {
    let rec = Root {
        name: text("a\"b\\c\nd\te"),
        device_id: text(""),
        patient_id: text("p-1"),
        data: vec![Daum {
            hr: -12,
            bps: i64::MAX,
            bpd: i64::MIN,
            spo2: 0,
            custom: Custom {
                tp: text("-1.5e10"),
                rr: -9,
                etc: text("x/y"),
            },
            date: text(""),
        }],
    };
    let bytes = encode_record(&rec);
    let back = decode_record(&bytes).unwrap();
    assert_eq!(back, rec);
}

#[test]
fn encode_is_canonical() {
    let rec = sample_record();
    assert_eq!(encode_record(&rec), text(SCENARIO));
}

#[test]
fn default_fill_empty_object() {
    let rec = decode_record(&text("{}")).unwrap();
    assert_eq!(rec.name, text(""));
    assert_eq!(rec.device_id, text(""));
    assert_eq!(rec.patient_id, text(""));
    assert_eq!(rec.data.len(), 0);
}

#[test]
fn default_fill_sample_fields_omitted() {
    let rec = decode_record(&text(r#"{"data":[{}]}"#)).unwrap();
    assert_eq!(rec.data.len(), 1);
    let d = &rec.data[0];
    assert_eq!(d.hr, 0);
    assert_eq!(d.bps, 0);
    assert_eq!(d.bpd, 0);
    assert_eq!(d.spo2, 0);
    assert_eq!(d.custom.tp, text("0.0"));
    assert_eq!(d.custom.rr, 0);
    assert_eq!(d.custom.etc, text(""));
    assert_eq!(d.date, text(""));
}

#[test]
fn default_fill_partial_sample() {
    let rec = decode_record(&text(r#"{"data":[{"hr":7,"custom":{"rr":3}}]}"#)).unwrap();
    let d = &rec.data[0];
    assert_eq!(d.hr, 7);
    assert_eq!(d.bps, 0);
    assert_eq!(d.custom.rr, 3);
    assert_eq!(d.custom.tp, text("0.0"));
}

#[test]
fn whitespace_tolerated() {
    let rec = decode_record(&text(" { \"name\" : \"n\" , \"data\" : [ ] } ")).unwrap();
    assert_eq!(rec.name, text("n"));
    assert_eq!(rec.data.len(), 0);
}

#[test]
fn malformed_inputs_fail_decode() {
    for bad in [
        "",
        "   ",
        "not json",
        "{",
        r#"{"name":"#,
        r#"{"name":"x""#,
        r#"{"name":1}"#,
        r#"{"data":[{"hr":"x"}]}"#,
        r#"{"data":[{"hr":1.5}]}"#,
        r#"{"data":[{"hr":99999999999999999999}]}"#,
        r#"{"unknown":1}"#,
        r#"{"name":"a","name":"b"}"#,
        r#"{"name":"a",}"#,
        r#"{"name":"a"} extra"#,
        r#"{"data":[{"custom":{"tp":"no"}}]}"#,
    ] {
        let e = decode_record(&text(bad)).unwrap_err();
        assert_eq!(e, ErrorKind::MalformedPayload, "input {:?}", bad);
    }
}

#[test]
fn overflow_boundary_exact() {
    // a body of exactly the ceiling is accepted
    let max: usize = 16;
    let chunks = vec![vec![0x20u8; 8], vec![0x20u8; 8]];
    let body = accumulate_all(&chunks, max).unwrap();
    assert_eq!(body.len(), 16);
    // one byte more is refused with the overflow kind
    let chunks = vec![vec![0x20u8; 8], vec![0x20u8; 9]];
    let e = accumulate_all(&chunks, max).unwrap_err();
    assert_eq!(e, ErrorKind::PayloadTooLarge);
}

#[test]
fn overflow_detected_mid_stream() {
    // the accumulator refuses the offending chunk at once, before any
    // later chunk is offered, and leaves its buffer unchanged
    let mut acc = BoundedAccumulator::new(4);
    assert!(acc.push_chunk(&vec![1, 2, 3]).is_ok());
    let e = acc.push_chunk(&vec![4, 5]).unwrap_err();
    assert_eq!(e, ErrorKind::PayloadTooLarge);
    assert_eq!(acc.into_bytes(), vec![1, 2, 3]);
}

#[test]
fn overflow_wins_over_malformed() {
    // a stream past the ceiling fails with the overflow kind even though
    // its bytes are not valid structured text either
    let chunks = vec![text("garbage garbage garbage")];
    let e = handle_stream(&chunks, 8).unwrap_err();
    assert_eq!(e, ErrorKind::PayloadTooLarge);
}

#[test]
fn chunked_delivery_equivalence() {
    let whole = vec![text(SCENARIO)];
    let by_byte: Vec<Vec<u8>> = text(SCENARIO).iter().map(|b| vec![*b]).collect();
    let in_threes: Vec<Vec<u8>> = text(SCENARIO).chunks(3).map(|c| c.to_vec()).collect();
    let a = handle_stream(&whole, DEFAULT_MAX_SIZE).unwrap();
    let b = handle_stream(&by_byte, DEFAULT_MAX_SIZE).unwrap();
    let c = handle_stream(&in_threes, DEFAULT_MAX_SIZE).unwrap();
    assert_eq!(a, b);
    assert_eq!(a, c);
    assert_eq!(a, text(SCENARIO));
}

#[test]
fn process_body_reports_malformed() {
    let e = process_body(&text("{{")).unwrap_err();
    assert_eq!(e, ErrorKind::MalformedPayload);
}

#[test]
fn integer_bounds_round_trip() {
    let body = text(r#"{"data":[{"hr":9223372036854775807,"bps":-9223372036854775808}]}"#);
    let rec = decode_record(&body).unwrap();
    assert_eq!(rec.data[0].hr, i64::MAX);
    assert_eq!(rec.data[0].bps, i64::MIN);
    let back = decode_record(&encode_record(&rec)).unwrap();
    assert_eq!(back, rec);
}

#[test]
fn number_tokens_kept_verbatim() {
    let body = text(r#"{"data":[{"custom":{"tp":0.5e+3}}]}"#);
    let rec = decode_record(&body).unwrap();
    assert_eq!(rec.data[0].custom.tp, text("0.5e+3"));
    let out = encode_record(&rec);
    let back = decode_record(&out).unwrap();
    assert_eq!(back, rec);
}
