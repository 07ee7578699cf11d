use rust_manager::record::{
    extract_field, parse_title, process_record, DataField, RecordXml, SubField,
};

fn subfield(code: &str, value: Option<&str>) -> SubField {
    SubField {
        code: code.to_string(),
        value: value.map(|v| v.to_string()),
    }
}

fn datafield(tag: &str, subfields: Vec<SubField>) -> DataField {
    DataField {
        tag: tag.to_string(),
        subfields,
    }
}

fn record(datafields: Vec<DataField>) -> RecordXml {
    RecordXml {
        controlfields: Vec::new(),
        datafields,
    }
}

#[test]
fn second_bookplate_field_wins() {
    // Two "996" fields; only the second subfield "u" contains "bookplate"
    // case-insensitively, so its value is returned.
    let rec = record(vec![
        datafield("996", vec![subfield("u", Some("ordinary holdings note"))]),
        datafield("996", vec![subfield("u", Some("Bookplate Fund"))]),
    ]);
    let value = extract_field(&rec, "996", "u", Some("bookplate"));
    assert_eq!(value, "Bookplate Fund");
}

#[test]
fn missing_tag_gives_empty_string() {
    let rec = record(vec![datafield(
        "245",
        vec![subfield("a", Some("A Title"))],
    )]);
    assert_eq!(extract_field(&rec, "996", "u", Some("bookplate")), "");
    assert_eq!(extract_field(&rec, "100", "a", None), "");
}

#[test]
fn missing_subfield_code_gives_empty_string() {
    let rec = record(vec![datafield(
        "996",
        vec![subfield("z", Some("Bookplate Fund"))],
    )]);
    assert_eq!(extract_field(&rec, "996", "u", Some("bookplate")), "");
}

#[test]
fn pattern_match_ignores_case() {
    let rec = record(vec![datafield(
        "996",
        vec![subfield("u", Some("BOOKPLATE fund"))],
    )]);
    assert_eq!(
        extract_field(&rec, "996", "u", Some("BookPlate")),
        "BOOKPLATE fund"
    );
}

#[test]
fn later_title_occurrence_overwrites_earlier() {
    let rec = record(vec![
        datafield("245", vec![subfield("a", Some("Old Title"))]),
        datafield("245", vec![subfield("a", Some("New Title"))]),
    ]);
    assert_eq!(parse_title(&rec), "New Title");
}

#[test]
fn later_valueless_subfield_overwrites_with_empty() {
    let rec = record(vec![datafield(
        "245",
        vec![subfield("a", Some("A Title")), subfield("a", None)],
    )]);
    assert_eq!(parse_title(&rec), "");
}

#[test]
fn parse_title_reads_245_a() {
    let rec = record(vec![
        datafield("100", vec![subfield("a", Some("An Author"))]),
        datafield(
            "245",
            vec![
                subfield("a", Some("Sample Title")),
                subfield("b", Some("a subtitle")),
            ],
        ),
    ]);
    assert_eq!(parse_title(&rec), "Sample Title");
    assert_eq!(process_record(&rec), "Sample Title");
}
