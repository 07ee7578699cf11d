use rust_manager::add_nums;
use rust_manager::decoder::load_records;
use rust_manager::extract::output_file_name;
use rust_manager::orchestrator::run_report;
use rust_manager::record::{extract_field, parse_title};

#[test]
fn test_add_nums() {
    let expected = 3;
    let result = add_nums(1, 2);
    assert_eq!(result, expected);
}

#[test]
fn output_name_drops_tar_and_appends_xml() {
    assert_eq!(output_file_name("marc-3.tar.gz"), "marc-3.xml");
    assert_eq!(output_file_name("plain.gz"), "plain.xml");
    assert_eq!(output_file_name("noext"), "noext.xml");
    assert_eq!(output_file_name("double.tar.tar.gz"), "double.xml");
}

#[test]
fn report_plan_sorts_caps_and_marks_progress() {
    let files: Vec<String> = [
        "marc-10.tar.gz",
        "marc-2.tar.gz",
        "marc-7.tar.gz",
        "marc-1.tar.gz",
        "marc-21.tar.gz",
        "marc-3.tar.gz",
        "marc-14.tar.gz",
    ]
    .iter()
    .map(|s| s.to_string())
    .collect();
    let plan = run_report(files, Some(5), 3);
    assert_eq!(plan.len(), 5);
    let archives: Vec<&str> = plan.iter().map(|t| t.archive_name.as_str()).collect();
    assert_eq!(
        archives,
        vec![
            "marc-1.tar.gz",
            "marc-2.tar.gz",
            "marc-3.tar.gz",
            "marc-7.tar.gz",
            "marc-10.tar.gz",
        ]
    );
    assert_eq!(plan[0].output_name, "marc-1.xml");
    assert_eq!(plan[4].output_name, "marc-10.xml");
    let notices: Vec<bool> = plan.iter().map(|t| t.progress_notice).collect();
    assert_eq!(notices, vec![false, false, true, false, false]);
}

#[test]
fn report_plan_without_cap_takes_all_files() {
    let files: Vec<String> = (1..=7).map(|i| format!("marc-{}.tar.gz", i)).collect();
    let plan = run_report(files, None, 2);
    assert_eq!(plan.len(), 7);
    let notices: Vec<bool> = plan.iter().map(|t| t.progress_notice).collect();
    assert_eq!(
        notices,
        vec![false, true, false, true, false, true, false]
    );
}

#[test]
fn report_plan_of_few_files_is_not_padded() {
    let plan = run_report(vec!["only-1.tar.gz".to_string()], Some(5), 3);
    assert_eq!(plan.len(), 1);
    assert_eq!(plan[0].archive_name, "only-1.tar.gz");
    assert_eq!(plan[0].output_name, "only-1.xml");
    assert!(!plan[0].progress_notice);
}

/// The example end to end: an archive named "marc-3.tar.gz" whose content
/// is two records separated by the terminator, one of them well formed
/// with a 245 subfield "a"; one record decodes and yields its title.
#[test]
fn end_to_end_example() {
    let plan = run_report(vec!["marc-3.tar.gz".to_string()], Some(5), 3);
    assert_eq!(plan.len(), 1);
    assert_eq!(plan[0].output_name, "marc-3.xml");

    // Content of the extracted file: a well-formed record and a malformed
    // one, each ended by the record terminator.
    let mut content = make_title_record("Sample Title");
    content.extend_from_slice(b"not a marc record\x1D");

    let records = load_records(&content);
    assert_eq!(records.len(), 1);
    assert_eq!(parse_title(&records[0]), "Sample Title");
    assert_eq!(extract_field(&records[0], "245", "a", None), "Sample Title");
}

fn make_title_record(title: &str) -> Vec<u8> {
    let mut dir: Vec<u8> = Vec::new();
    let mut body: Vec<u8> = Vec::new();
    let start = body.len();
    body.extend_from_slice(b"00");
    body.push(0x1F);
    body.push(b'a');
    body.extend_from_slice(title.as_bytes());
    body.push(0x1E);
    dir.extend_from_slice(format!("245{:04}{:05}", body.len() - start, start).as_bytes());
    dir.push(0x1E);
    let base = 24 + dir.len();
    let total = base + body.len() + 1;
    let mut record = format!("{:05}", total).into_bytes();
    record.extend_from_slice(b"nam a22");
    record.extend_from_slice(format!("{:05}", base).as_bytes());
    record.extend_from_slice(b"   4500");
    record.extend_from_slice(&dir);
    record.extend_from_slice(&body);
    record.push(0x1D);
    record
}
