use sprout::parser::{parse_bundle, skipped_pre_header_lines, BundleValidationError};

const SEP: &str = "================================================";
const PREFIX: &str = "File: ";

/// Print entries back into bundle text, the way the format defines it.
fn print_bundle(entries: &[(&str, &str)]) -> String {
    let mut out = String::new();
    for (path, content) in entries {
        out.push_str(SEP);
        out.push('\n');
        out.push_str(PREFIX);
        out.push_str(path);
        out.push('\n');
        out.push_str(SEP);
        out.push('\n');
        out.push_str(content);
    }
    out
}

#[test]
fn test_round_trip_print_then_parse() {
    let entries = [
        ("docs/a.md", "# alpha\n\nbody text\n"),
        ("src/lib.rs", "pub fn nothing() {}\n"),
        ("empty.txt", ""),
    ];
    let text = print_bundle(&entries);
    let parsed = parse_bundle(&text).unwrap();
    assert_eq!(parsed.len(), 3);
    for (got, want) in parsed.iter().zip(entries.iter()) {
        assert_eq!(got.path, want.0);
        assert_eq!(got.content, want.1);
    }
}

#[test]
fn test_parse_twice_equal_ok() {
    let text = print_bundle(&[("one.txt", "alpha\n"), ("two.txt", "beta")]);
    let first = parse_bundle(&text).unwrap();
    let second = parse_bundle(&text).unwrap();
    assert_eq!(first, second);
}

#[test]
fn test_parse_twice_equal_err() {
    let text = format!("{}\n{}/abs.txt\n{}\nContent", SEP, PREFIX, SEP);
    let first = parse_bundle(&text).err().unwrap();
    let second = parse_bundle(&text).err().unwrap();
    assert_eq!(first.errors, second.errors);
}

#[test]
fn test_error_premature_eof_before_content_separator() {
    let text = format!("{}\n{}p.txt\n", SEP, PREFIX);
    let result = parse_bundle(&text);
    let errors = result.err().unwrap().errors;
    assert!(errors.contains(&BundleValidationError::PrematureEOFBeforeContentSeparator {
        line_number: 3,
        path: "p.txt".to_string(),
    }));
}

#[test]
fn test_error_premature_eof_before_content_separator_newline() {
    let text = format!("{}\n{}p.txt\n{}", SEP, PREFIX, SEP);
    let result = parse_bundle(&text);
    let errors = result.err().unwrap().errors;
    assert!(errors.contains(
        &BundleValidationError::PrematureEOFBeforeContentSeparatorNewline {
            line_number: 3,
            path: "p.txt".to_string(),
        }
    ));
}

#[test]
fn test_error_unexpected_content_between_garbage_and_bare_separator() {
    let text = format!("garbage\n{}", SEP);
    let errors = parse_bundle(&text).err().unwrap().errors;
    assert!(errors.contains(&BundleValidationError::UnexpectedContentAfterLastEntry {
        line_number: 1,
        content_excerpt: "garbage".to_string(),
    }));
    assert!(errors.contains(&BundleValidationError::ContentBeforeFirstHeader {
        line_number: 1,
        content_excerpt: "garbage".to_string(),
    }));
    assert!(errors.contains(&BundleValidationError::PrematureEOFBeforePathLine {
        line_number: 2,
    }));
}

#[test]
fn test_error_separator_line_with_trailing_text() {
    let text = format!("{}x\nFile: a.txt\n{}\nbody", SEP, SEP);
    let errors = parse_bundle(&text).err().unwrap().errors;
    assert!(errors.contains(&BundleValidationError::MalformedHeaderMissingFilePrefix {
        line_number: 2,
        header_line: "x".to_string(),
    }));
}

#[test]
fn test_duplicate_detected_on_normalized_path() {
    let text = format!(
        "{}\n{}dir/./a.txt\n{}\nfirst\n{}\n{}dir//a.txt\n{}\nsecond",
        SEP, PREFIX, SEP, SEP, PREFIX, SEP
    );
    let errors = parse_bundle(&text).err().unwrap().errors;
    assert!(errors.contains(&BundleValidationError::DuplicatePath {
        line_number: 6,
        path: "dir//a.txt".to_string(),
    }));
}

#[test]
fn test_distinct_after_normalization_are_kept() {
    let text = format!(
        "{}\n{}./a.txt\n{}\nfirst\n{}\n{}a.txt\n{}\nsecond",
        SEP, PREFIX, SEP, SEP, PREFIX, SEP
    );
    // a leading `.` component is kept, so these two paths differ
    let entries = parse_bundle(&text).unwrap();
    assert_eq!(entries.len(), 2);
}

#[test]
fn test_excerpt_is_cut_to_fifty_characters() {
    let long = "x".repeat(80);
    let errors = parse_bundle(&long).err().unwrap().errors;
    assert_eq!(
        errors,
        vec![BundleValidationError::ContentBeforeFirstHeader {
            line_number: 1,
            content_excerpt: "x".repeat(50),
        }]
    );
}

#[test]
fn test_path_is_trimmed_but_content_is_not() {
    let text = format!("{}\n{}  padded.txt  \n{}\n  spaced content \n", SEP, PREFIX, SEP);
    let entries = parse_bundle(&text).unwrap();
    assert_eq!(entries.len(), 1);
    assert_eq!(entries[0].path, "padded.txt");
    assert_eq!(entries[0].content, "  spaced content \n");
}

#[test]
fn test_invalid_path_entry_is_excluded_but_scan_continues() {
    let text = format!(
        "{}\n{}/abs.txt\n{}\nbad\n{}\n{}good.txt\n{}\ngood",
        SEP, PREFIX, SEP, SEP, PREFIX, SEP
    );
    let errors = parse_bundle(&text).err().unwrap().errors;
    assert_eq!(
        errors,
        vec![BundleValidationError::AbsolutePathNotAllowed {
            line_number: 2,
            path: "/abs.txt".to_string(),
        }]
    );
}

#[test]
fn test_separator_run_inside_content_opens_a_new_block() {
    // the format has no escape for a content line that matches the
    // separator: such a line ends the entry and must itself parse as a
    // header
    let text = format!("{}\nFile: a.txt\n{}\nabc\n{}x\n", SEP, SEP, SEP);
    let errors = parse_bundle(&text).err().unwrap().errors;
    assert!(errors.contains(&BundleValidationError::MalformedHeaderMissingFilePrefix {
        line_number: 6,
        header_line: "x".to_string(),
    }));
}

#[test]
fn test_skipped_pre_header_lines_reports_range() {
    let text = format!(
        "first garbage\n\n  second garbage\n{}\n{}a.txt\n{}\nbody",
        SEP, PREFIX, SEP
    );
    assert_eq!(skipped_pre_header_lines(&text), Some((1, 3)));
}

#[test]
fn test_skipped_pre_header_lines_none_when_clean() {
    let text = format!("{}\n{}a.txt\n{}\nbody", SEP, PREFIX, SEP);
    assert_eq!(skipped_pre_header_lines(&text), None);
}

#[test]
fn test_skipped_pre_header_lines_none_without_header() {
    assert_eq!(skipped_pre_header_lines("just some text"), None);
}

#[test]
fn test_blank_lines_before_header_are_not_reported() {
    let text = format!("\n   \n{}\n{}a.txt\n{}\nbody", SEP, PREFIX, SEP);
    assert_eq!(skipped_pre_header_lines(&text), None);
    let entries = parse_bundle(&text).unwrap();
    assert_eq!(entries.len(), 1);
}
