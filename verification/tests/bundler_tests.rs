use sprout::bundler::{ancestor_paths, check_for_collisions, EntryProbe, PathStatus};
use sprout::parser::ParsedEntry;

fn create_parsed_entry(path_str: &str, content_str: &str) -> ParsedEntry {
    ParsedEntry {
        path: String::from(path_str),
        content: String::from(content_str),
    }
}

/// A probe whose ancestor list is sized from `ancestor_paths`, with every
/// path reported missing.
fn all_missing_probe(path: &str) -> EntryProbe {
    let ancestors = ancestor_paths(&String::from(path))
        .iter()
        .map(|_| PathStatus::Missing)
        .collect();
    EntryProbe {
        target: PathStatus::Missing,
        ancestors,
    }
}

#[test]
fn test_check_for_collisions_no_collision() {
    let entries = vec![
        create_parsed_entry("file1.txt", "content1"),
        create_parsed_entry("dir1/file2.txt", "content2"),
    ];
    let probes = vec![all_missing_probe("file1.txt"), all_missing_probe("dir1/file2.txt")];

    let result = check_for_collisions(&entries, &probes);
    assert!(result.is_ok());
}

#[test]
fn test_check_for_collisions_single_file_collision() {
    // "file1.txt" already exists as a plain file under the output root
    let entries = vec![
        create_parsed_entry("file1.txt", "content1"),
        create_parsed_entry("file2.txt", "content2"),
    ];
    let probes = vec![
        EntryProbe { target: PathStatus::IsFile, ancestors: vec![] },
        all_missing_probe("file2.txt"),
    ];

    let result = check_for_collisions(&entries, &probes);
    assert!(result.is_err());
    let collisions = result.err().unwrap();
    assert_eq!(collisions, vec!["file1.txt".to_string()]);
}

#[test]
fn test_check_for_collisions_multiple_file_collisions() {
    // "file1.txt" and "dir1/file2.txt" exist; "file3.txt" does not
    let entries = vec![
        create_parsed_entry("file1.txt", "c1"),
        create_parsed_entry("dir1/file2.txt", "c2"),
        create_parsed_entry("file3.txt", "c3"),
    ];
    let probes = vec![
        EntryProbe { target: PathStatus::IsFile, ancestors: vec![] },
        EntryProbe { target: PathStatus::IsFile, ancestors: vec![PathStatus::IsDir] },
        all_missing_probe("file3.txt"),
    ];

    let result = check_for_collisions(&entries, &probes);
    assert!(result.is_err());
    let collisions = result.err().unwrap();
    assert!(collisions.contains(&"file1.txt".to_string()));
    assert!(collisions.contains(&"dir1/file2.txt".to_string()));
    assert_eq!(collisions.len(), 2);
}

#[test]
fn test_check_for_collisions_directory_as_file_collision() {
    // a directory named "item" stands where the entry wants a file
    let entries = vec![create_parsed_entry("item", "content")];
    let probes = vec![EntryProbe { target: PathStatus::IsDir, ancestors: vec![] }];

    let result = check_for_collisions(&entries, &probes);
    assert!(result.is_err());
    let collisions = result.err().unwrap();
    assert_eq!(collisions, vec!["item".to_string()]);
}

#[test]
fn test_check_for_collisions_file_as_directory_collision() {
    // a plain file named "item" cannot serve as the parent directory
    let entries = vec![create_parsed_entry("item/another.txt", "content")];
    let probes = vec![
        EntryProbe { target: PathStatus::Missing, ancestors: vec![PathStatus::IsFile] },
    ];

    let result = check_for_collisions(&entries, &probes);
    assert!(result.is_err());
    let collisions = result.err().unwrap();
    assert_eq!(collisions, vec!["item".to_string()]);
}

#[test]
fn test_check_for_collisions_deep_file_as_directory_collision() {
    // "level1" is a directory but "level1/item" is a plain file
    let entries = vec![create_parsed_entry("level1/item/another.txt", "content")];
    let probes = vec![
        EntryProbe {
            target: PathStatus::Missing,
            ancestors: vec![PathStatus::IsDir, PathStatus::IsFile],
        },
    ];

    let result = check_for_collisions(&entries, &probes);
    assert!(result.is_err());
    let collisions = result.err().unwrap();
    assert_eq!(collisions, vec!["level1/item".to_string()]);
}

#[test]
fn test_collision_stops_at_first_file_ancestor() {
    // only the first offending ancestor is reported for one entry
    let entries = vec![create_parsed_entry("a/b/c/deep.txt", "x")];
    let probes = vec![
        EntryProbe {
            target: PathStatus::Missing,
            ancestors: vec![PathStatus::IsFile, PathStatus::IsFile, PathStatus::Missing],
        },
    ];

    let result = check_for_collisions(&entries, &probes);
    let collisions = result.err().unwrap();
    assert_eq!(collisions, vec!["a".to_string()]);
}

#[test]
fn test_existing_target_reported_before_ancestors() {
    // when the target itself exists, the entry's own path is the
    // collision, whatever the ancestors are
    let entries = vec![create_parsed_entry("a/b.txt", "x")];
    let probes = vec![
        EntryProbe { target: PathStatus::IsFile, ancestors: vec![PathStatus::IsFile] },
    ];

    let collisions = check_for_collisions(&entries, &probes).err().unwrap();
    assert_eq!(collisions, vec!["a/b.txt".to_string()]);
}

#[test]
fn test_ancestor_paths_lists_prefixes() {
    let paths = ancestor_paths(&String::from("level1/item/another.txt"));
    assert_eq!(paths, vec!["level1".to_string(), "level1/item".to_string()]);

    let none = ancestor_paths(&String::from("file1.txt"));
    assert!(none.is_empty());
}

#[test]
fn test_ancestor_paths_normalizes_components() {
    let paths = ancestor_paths(&String::from("a//./b/c.txt"));
    assert_eq!(paths, vec!["a".to_string(), "a/b".to_string()]);
}
