use lift_log::date::Date;
use lift_log::scan::scan;
use lift_log::text::split_lines;

fn d(year: u32, month: u32, day: u32) -> Date {
    Date { year, month, day }
}

fn bytes(s: &str) -> Vec<u8> {
    s.as_bytes().to_vec()
}

fn lines_of(result: Vec<Vec<u8>>) -> Vec<String> {
    result.into_iter().map(|l| String::from_utf8(l).unwrap()).collect()
}

const FILE: &str = "2024-01-01\n    #set bench: 3x8 [135lbs] (2 RIR)\n    #max squat: [225lbs]\n\n2024-01-05\n    #set bench: 3x5 [155lbs] (1 RIR)\n    #myo curl: 3x20 [25lbs] (4 rests)\n";

#[test]
fn split_drops_only_the_final_newline() {
    let lines = split_lines(&bytes("a\nb"));
    assert_eq!(lines, vec![b"a".to_vec(), b"b".to_vec()]);
    let lines = split_lines(&bytes("a\nb\n"));
    assert_eq!(lines, vec![b"a".to_vec(), b"b".to_vec()]);
    let lines = split_lines(&bytes("a\n\nb\n"));
    assert_eq!(lines, vec![b"a".to_vec(), b"".to_vec(), b"b".to_vec()]);
    let lines = split_lines(&bytes(""));
    assert_eq!(lines, Vec::<Vec<u8>>::new());
    let lines = split_lines(&bytes("\n"));
    assert_eq!(lines, vec![b"".to_vec()]);
}

#[test]
fn range_keeps_first_section_entries_only() {
    // Headers are always shown to preserve date context; entries of the
    // out-of-range section are not.
    let result = lines_of(scan(&bytes(FILE), &d(2024, 1, 1), &d(2024, 1, 1), None));
    assert_eq!(
        result,
        vec![
            "2024-01-01".to_string(),
            "    #set bench: 3x8 [135lbs] (2 RIR)".to_string(),
            "    #max squat: [225lbs]".to_string(),
            "".to_string(),
            "2024-01-05".to_string(),
        ]
    );
}

#[test]
fn pattern_with_unbounded_range_keeps_headers_and_matches() {
    let pattern = bytes("bench");
    let result = lines_of(scan(
        &bytes(FILE),
        &d(1, 1, 1),
        &d(9999, 12, 31),
        Some(&pattern),
    ));
    assert_eq!(
        result,
        vec![
            "2024-01-01".to_string(),
            "    #set bench: 3x8 [135lbs] (2 RIR)".to_string(),
            "2024-01-05".to_string(),
            "    #set bench: 3x5 [155lbs] (1 RIR)".to_string(),
        ]
    );
}

#[test]
fn pattern_and_range_together() {
    let pattern = bytes("bench");
    let result = lines_of(scan(
        &bytes(FILE),
        &d(2024, 1, 5),
        &d(2024, 1, 5),
        Some(&pattern),
    ));
    assert_eq!(
        result,
        vec![
            "2024-01-01".to_string(),
            "2024-01-05".to_string(),
            "    #set bench: 3x5 [155lbs] (1 RIR)".to_string(),
        ]
    );
}

#[test]
fn line_holding_its_date_text_matches_any_pattern() {
    let contents = bytes("2024-01-01\n    note for 2024-01-01 here\n    other\n");
    let pattern = bytes("bench");
    let result = lines_of(scan(&contents, &d(1, 1, 1), &d(9999, 12, 31), Some(&pattern)));
    assert_eq!(
        result,
        vec![
            "2024-01-01".to_string(),
            "    note for 2024-01-01 here".to_string(),
        ]
    );
}

#[test]
fn lines_before_any_header_are_never_shown() {
    let contents = bytes("    #set bench: 3x8 [135lbs] (2 RIR)\n2024-01-01\n    #set bench: 3x5 [155lbs] (1 RIR)\n");
    // Unbounded range: the pre-header line still never appears.
    let result = lines_of(scan(&contents, &d(1, 1, 1), &d(9999, 12, 31), None));
    assert_eq!(
        result,
        vec![
            "2024-01-01".to_string(),
            "    #set bench: 3x5 [155lbs] (1 RIR)".to_string(),
        ]
    );
    // A narrow range changes nothing about the pre-header line.
    let result = lines_of(scan(&contents, &d(2024, 1, 1), &d(2024, 1, 1), None));
    assert_eq!(
        result,
        vec![
            "2024-01-01".to_string(),
            "    #set bench: 3x5 [155lbs] (1 RIR)".to_string(),
        ]
    );
}

#[test]
fn file_with_no_header_yields_nothing() {
    let contents = bytes("    #set bench: 3x8 [135lbs] (2 RIR)\n    #max squat: [225lbs]\n");
    let result = scan(&contents, &d(1, 1, 1), &d(9999, 12, 31), None);
    assert!(result.is_empty());
}

#[test]
fn empty_file_yields_nothing() {
    let result = scan(&bytes(""), &d(1, 1, 1), &d(9999, 12, 31), None);
    assert!(result.is_empty());
}

#[test]
fn out_of_range_section_entries_hidden_without_pattern() {
    let result = lines_of(scan(&bytes(FILE), &d(2024, 1, 5), &d(2024, 1, 5), None));
    assert_eq!(
        result,
        vec![
            "2024-01-01".to_string(),
            "2024-01-05".to_string(),
            "    #set bench: 3x5 [155lbs] (1 RIR)".to_string(),
            "    #myo curl: 3x20 [25lbs] (4 rests)".to_string(),
        ]
    );
}
