use sprout::parser::{parse_bundle, BundleParseError, BundleValidationError, ParsedEntry};

const FILE_HEADER_SEPARATOR: &str = "================================================";
const FILE_PATH_PREFIX: &str = "File: ";

fn assert_specific_error(
    result: &Result<Vec<ParsedEntry>, BundleParseError>,
    expected_error: BundleValidationError,
) {
    match result {
        Err(bundle_parse_error) => {
            assert!(
                bundle_parse_error.errors.contains(&expected_error),
                "Expected error {:?} not found in {:?}",
                expected_error,
                bundle_parse_error.errors
            );
        }
        Ok(_) => panic!("Expected error, but got Ok"),
    }
}

#[test]
fn test_parse_empty_bundle_file() {
    let entries = parse_bundle("").unwrap();
    assert!(entries.is_empty());
}

#[test]
fn test_parse_bundle_file_with_only_whitespace() {
    let entries = parse_bundle("   \n\t  \n").unwrap();
    assert!(entries.is_empty());
}

#[test]
fn test_error_content_before_first_header() {
    let bundle_content = format!(
        "Some introductory text.\n\
        {}\n\
        {}path/to/file1.txt\n\
        {}\n\
        Content of file1.",
        FILE_HEADER_SEPARATOR, FILE_PATH_PREFIX, FILE_HEADER_SEPARATOR
    );
    let result = parse_bundle(&bundle_content);
    assert!(result.is_ok(), "Expected Ok, got {:?}", result);
    let entries = result.unwrap();
    assert_eq!(entries.len(), 1);
    assert_eq!(entries[0].path, "path/to/file1.txt");
    assert_eq!(entries[0].content, "Content of file1.");
}

#[test]
fn test_error_content_before_first_header_no_valid_header_at_all() {
    let result = parse_bundle("This is just some text, no valid file entries at all.");
    assert_specific_error(
        &result,
        BundleValidationError::ContentBeforeFirstHeader {
            line_number: 1,
            content_excerpt: "This is just some text, no valid file entries at a".to_string(),
        },
    );
}

#[test]
fn test_parse_single_entry() {
    let bundle_content = format!(
        "{}\n\
        {}file.txt\n\
        {}\n\
        Hello, world!",
        FILE_HEADER_SEPARATOR, FILE_PATH_PREFIX, FILE_HEADER_SEPARATOR
    );
    let entries = parse_bundle(&bundle_content).unwrap();
    assert_eq!(entries.len(), 1);
    assert_eq!(entries[0].path, "file.txt");
    assert_eq!(entries[0].content, "Hello, world!");
}

#[test]
fn test_parse_multiple_entries() {
    let bundle_content = format!(
        "{}\n\
        {}file1.txt\n\
        {}\n\
        Content of file1.\n\
        {}\n\
        {}path/to/file2.rs\n\
        {}\n\
        // Rust code\nfn main() {{}}\n\
        {}\n\
        {}another.md\n\
        {}\n\
        ## Markdown Content",
        FILE_HEADER_SEPARATOR,
        FILE_PATH_PREFIX,
        FILE_HEADER_SEPARATOR,
        FILE_HEADER_SEPARATOR,
        FILE_PATH_PREFIX,
        FILE_HEADER_SEPARATOR,
        FILE_HEADER_SEPARATOR,
        FILE_PATH_PREFIX,
        FILE_HEADER_SEPARATOR
    );
    let entries = parse_bundle(&bundle_content).unwrap();
    assert_eq!(entries.len(), 3);

    assert_eq!(entries[0].path, "file1.txt");
    assert_eq!(entries[0].content, "Content of file1.\n");

    assert_eq!(entries[1].path, "path/to/file2.rs");
    assert_eq!(entries[1].content, "// Rust code\nfn main() {}\n");

    assert_eq!(entries[2].path, "another.md");
    assert_eq!(entries[2].content, "## Markdown Content");
}

#[test]
fn test_parse_entry_with_empty_content() {
    let bundle_content = format!(
        "{}\n\
        {}empty_file.txt\n\
        {}\n",
        FILE_HEADER_SEPARATOR, FILE_PATH_PREFIX, FILE_HEADER_SEPARATOR
    );
    let entries = parse_bundle(&bundle_content).unwrap();
    assert_eq!(entries.len(), 1);
    assert_eq!(entries[0].path, "empty_file.txt");
    assert_eq!(entries[0].content, "");
}

#[test]
fn test_error_malformed_header_missing_file_prefix() {
    let bundle_content = format!(
        "{}\n\
        Not File: path/to/file.txt\n\
        {}\n\
        Content",
        FILE_HEADER_SEPARATOR, FILE_HEADER_SEPARATOR
    );
    let result = parse_bundle(&bundle_content);
    assert_specific_error(
        &result,
        BundleValidationError::MalformedHeaderMissingFilePrefix {
            line_number: 2,
            header_line: "Not File: path/to/file.txt".to_string(),
        },
    );
}

#[test]
fn test_error_malformed_header_missing_separator_after_path() {
    let bundle_content = format!(
        "{}\n\
        {}path/to/file.txt\n\
        Content without second separator",
        FILE_HEADER_SEPARATOR, FILE_PATH_PREFIX
    );
    let result = parse_bundle(&bundle_content);
    assert_specific_error(
        &result,
        BundleValidationError::MalformedHeaderMissingSeparatorAfterPath {
            line_number: 3,
            path_line: "path/to/file.txt".to_string(),
        },
    );
}

#[test]
fn test_error_path_line_interrupted_by_separator() {
    let bundle_content = format!(
        "{}\n\
        {}path/to{}file.txt\n\
        {}\n\
        Content",
        FILE_HEADER_SEPARATOR, FILE_PATH_PREFIX, FILE_HEADER_SEPARATOR, FILE_HEADER_SEPARATOR
    );
    let result = parse_bundle(&bundle_content);
    assert_specific_error(
        &result,
        BundleValidationError::MalformedHeaderPathLineInterruptedBySeparator {
            line_number: 2,
            path_line: format!("path/to{}file.txt", FILE_HEADER_SEPARATOR),
        },
    );
}

#[test]
fn test_error_path_line_missing_newline() {
    let bundle_content = format!(
        "{}\n\
        {}path/to/file.txt",
        FILE_HEADER_SEPARATOR, FILE_PATH_PREFIX
    );
    let result = parse_bundle(&bundle_content);
    assert_specific_error(
        &result,
        BundleValidationError::MalformedHeaderPathLineMissingNewline {
            line_number: 2,
            path_line: "path/to/file.txt".to_string(),
        },
    );
}

#[test]
fn test_error_missing_newline_after_content_separator() {
    let bundle_content = format!(
        "{}\n\
        {}file.txt\n\
        {}{}",
        FILE_HEADER_SEPARATOR, FILE_PATH_PREFIX, FILE_HEADER_SEPARATOR, "NoNewlineContent"
    );
    let result = parse_bundle(&bundle_content);
    assert_specific_error(
        &result,
        BundleValidationError::MalformedHeaderMissingNewlineAfterContentSeparator {
            line_number: 3,
            separator_line: FILE_HEADER_SEPARATOR.to_string(),
        },
    );
}

#[test]
fn test_error_empty_path() {
    let bundle_content = format!(
        "{}\n\
        {}\n\
        {}\n\
        Content",
        FILE_HEADER_SEPARATOR, FILE_PATH_PREFIX, FILE_HEADER_SEPARATOR
    );
    let result = parse_bundle(&bundle_content);
    assert_specific_error(&result, BundleValidationError::EmptyPath { line_number: 2 });
}

#[test]
fn test_error_absolute_path() {
    let absolute_path_str = "/an/absolute/path.txt";
    let bundle_content = format!(
        "{}\n\
        {}{}\n\
        {}\n\
        Content",
        FILE_HEADER_SEPARATOR, FILE_PATH_PREFIX, absolute_path_str, FILE_HEADER_SEPARATOR
    );
    let result = parse_bundle(&bundle_content);
    assert_specific_error(
        &result,
        BundleValidationError::AbsolutePathNotAllowed {
            line_number: 2,
            path: absolute_path_str.to_string(),
        },
    );
}

#[test]
fn test_error_duplicate_path() {
    let bundle_content = format!(
        "{}\n\
        {}file.txt\n\
        {}\n\
        Content1\n\
        {}\n\
        {}file.txt\n\
        {}\n\
        Content2",
        FILE_HEADER_SEPARATOR,
        FILE_PATH_PREFIX,
        FILE_HEADER_SEPARATOR,
        FILE_HEADER_SEPARATOR,
        FILE_PATH_PREFIX,
        FILE_HEADER_SEPARATOR
    );
    let result = parse_bundle(&bundle_content);
    assert_specific_error(
        &result,
        BundleValidationError::DuplicatePath {
            line_number: 6,
            path: "file.txt".to_string(),
        },
    );
}

#[test]
fn test_error_premature_eof_after_first_separator() {
    let result = parse_bundle(FILE_HEADER_SEPARATOR);
    assert_specific_error(
        &result,
        BundleValidationError::PrematureEOFBeforePathLine { line_number: 1 },
    );
}

#[test]
fn test_error_premature_eof_after_file_prefix() {
    let bundle_content = format!("{}\n{}", FILE_HEADER_SEPARATOR, FILE_PATH_PREFIX);
    let result = parse_bundle(&bundle_content);
    assert_specific_error(
        &result,
        BundleValidationError::MalformedHeaderPathLineMissingNewline {
            line_number: 2,
            path_line: "".to_string(),
        },
    );
}

#[test]
fn test_error_premature_eof_after_path_line() {
    let bundle_content = format!("{}\n{}path.txt", FILE_HEADER_SEPARATOR, FILE_PATH_PREFIX);
    let result = parse_bundle(&bundle_content);
    assert_specific_error(
        &result,
        BundleValidationError::MalformedHeaderPathLineMissingNewline {
            line_number: 2,
            path_line: "path.txt".to_string(),
        },
    );
}

#[test]
fn test_error_unexpected_content_after_last_entry() {
    let bundle_content = format!(
        "{}\n\
        {}file.txt\n\
        {}\n\
        Content\n\
        Some trailing garbage text.",
        FILE_HEADER_SEPARATOR, FILE_PATH_PREFIX, FILE_HEADER_SEPARATOR
    );
    let result = parse_bundle(&bundle_content);
    assert!(result.is_ok(), "Expected Ok, got {:?}", result);
    let entries = result.unwrap();
    assert_eq!(entries.len(), 1);
    assert_eq!(entries[0].path, "file.txt");
    assert_eq!(entries[0].content, "Content\nSome trailing garbage text.");
}

#[test]
fn test_multiple_errors_reported() {
    let bundle_content = format!(
        "Leading garbage.\n\
        {}\n\
        {}/abs/path.txt\n\
        {}\n\
        Content1\n\
        {}\n\
        {}\n\
        {}\n\
        Content2\n\
        Trailing garbage.",
        FILE_HEADER_SEPARATOR,
        FILE_PATH_PREFIX,
        FILE_HEADER_SEPARATOR,
        FILE_HEADER_SEPARATOR,
        FILE_PATH_PREFIX,
        FILE_HEADER_SEPARATOR
    );
    let result = parse_bundle(&bundle_content);

    assert!(result.is_err());
    if let Err(bundle_parse_error) = result {
        assert_eq!(
            bundle_parse_error.errors.len(),
            2,
            "Expected 2 errors, got {}. Errors: {:?}",
            bundle_parse_error.errors.len(),
            bundle_parse_error.errors
        );

        assert!(
            !bundle_parse_error.errors.contains(
                &BundleValidationError::ContentBeforeFirstHeader {
                    line_number: 1,
                    content_excerpt: "Leading garbage.".to_string()
                }
            ),
            "ContentBeforeFirstHeader should now be a warning, not an error."
        );

        assert!(bundle_parse_error.errors.contains(
            &BundleValidationError::AbsolutePathNotAllowed {
                line_number: 3,
                path: "/abs/path.txt".to_string()
            }
        ));
        assert!(bundle_parse_error
            .errors
            .contains(&BundleValidationError::EmptyPath { line_number: 7 }));
    } else {
        panic!("Expected an error, but got Ok. Result: {:?}", result);
    }
}
