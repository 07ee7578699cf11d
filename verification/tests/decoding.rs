use rust_manager::decoder::load_records;
use rust_manager::record::parse_title;

/// Builds one binary record: leader, directory, control fields, data
/// fields (two indicator bytes, delimited subfields), record terminator.
fn make_record(control: &[(&str, &str)], data: &[(&str, &str, &[(u8, &str)])]) -> Vec<u8> {
    let mut dir: Vec<u8> = Vec::new();
    let mut body: Vec<u8> = Vec::new();
    for (tag, value) in control {
        let start = body.len();
        body.extend_from_slice(value.as_bytes());
        body.push(0x1E);
        let len = body.len() - start;
        dir.extend_from_slice(format!("{}{:04}{:05}", tag, len, start).as_bytes());
    }
    for (tag, indicators, subfields) in data {
        let start = body.len();
        body.extend_from_slice(indicators.as_bytes());
        for (code, value) in subfields.iter() {
            body.push(0x1F);
            body.push(*code);
            body.extend_from_slice(value.as_bytes());
        }
        body.push(0x1E);
        let len = body.len() - start;
        dir.extend_from_slice(format!("{}{:04}{:05}", tag, len, start).as_bytes());
    }
    dir.push(0x1E);
    let base = 24 + dir.len();
    let total = base + body.len() + 1;
    let mut record = format!("{:05}", total).into_bytes();
    record.extend_from_slice(b"nam a22");
    record.extend_from_slice(format!("{:05}", base).as_bytes());
    record.extend_from_slice(b"   4500");
    record.extend_from_slice(&dir);
    record.extend_from_slice(&body);
    record.push(0x1D);
    record
}

fn sample_record(title: &str) -> Vec<u8> {
    make_record(
        &[("008", "210101s2024    xx            eng d")],
        &[("245", "00", &[(b'a', title)])],
    )
}

#[test]
fn one_well_formed_record_decodes() {
    let content = sample_record("First Title");
    let records = load_records(&content);
    assert_eq!(records.len(), 1);
    assert_eq!(parse_title(&records[0]), "First Title");
}

#[test]
fn malformed_segments_are_skipped_and_order_is_kept() {
    // Three terminated segments, of which the middle one fails to parse:
    // exactly two records come out, in stream order.
    let mut content = sample_record("First Title");
    content.extend_from_slice(b"garbage that is no record\x1D");
    content.extend_from_slice(&sample_record("Second Title"));
    let records = load_records(&content);
    assert_eq!(records.len(), 2);
    assert_eq!(parse_title(&records[0]), "First Title");
    assert_eq!(parse_title(&records[1]), "Second Title");
}

#[test]
fn file_without_terminator_yields_no_records() {
    // The whole file is one unterminated segment and is discarded.
    let mut content = sample_record("Lost Title");
    content.pop();
    assert!(!content.contains(&0x1D));
    let records = load_records(&content);
    assert_eq!(records.len(), 0);
}

#[test]
fn empty_file_yields_no_records() {
    let content: Vec<u8> = Vec::new();
    let records = load_records(&content);
    assert_eq!(records.len(), 0);
}

#[test]
fn declared_length_must_match_segment_length() {
    // A record whose leader declares a different length than the segment
    // has is malformed and skipped.
    let mut content = sample_record("True Title");
    content[0] = b'9';
    content.extend_from_slice(&sample_record("Kept Title"));
    let records = load_records(&content);
    assert_eq!(records.len(), 1);
    assert_eq!(parse_title(&records[0]), "Kept Title");
}

#[test]
fn invalid_utf8_in_a_field_skips_the_record() {
    let mut bad = make_record(&[("008", "abc")], &[("245", "00", &[(b'a', "x")])]);
    // Overwrite the control field's value with a lone continuation byte.
    let pos = bad.windows(3).position(|w| w == b"abc").unwrap();
    bad[pos] = 0xFF;
    let mut content = bad;
    content.extend_from_slice(&sample_record("Good Title"));
    let records = load_records(&content);
    assert_eq!(records.len(), 1);
    assert_eq!(parse_title(&records[0]), "Good Title");
}

#[test]
fn control_and_data_fields_are_kept_apart() {
    let content = make_record(
        &[("001", "000000002"), ("008", "210101")],
        &[
            ("245", "00", &[(b'a', "A Title")]),
            ("996", "  ", &[(b'u', "a note")]),
        ],
    );
    let records = load_records(&content);
    assert_eq!(records.len(), 1);
    assert_eq!(records[0].controlfields.len(), 2);
    assert_eq!(records[0].datafields.len(), 2);
    assert_eq!(records[0].controlfields[0].tag, "001");
    assert_eq!(
        records[0].controlfields[0].value.as_deref(),
        Some("000000002")
    );
    assert_eq!(records[0].datafields[1].tag, "996");
    assert_eq!(records[0].datafields[1].subfields.len(), 1);
    assert_eq!(records[0].datafields[1].subfields[0].code, "u");
    assert_eq!(
        records[0].datafields[1].subfields[0].value.as_deref(),
        Some("a note")
    );
}
