use contexter::contexter::{gather_relevant_files, WalkEntry};
use contexter::document::{concatenate_files, FileInput};

fn entry(path: &str, content: &str) -> WalkEntry {
    WalkEntry {
        path: path.to_string(),
        is_file: true,
        prefix: Some(content.as_bytes().to_vec()),
    }
}

fn file(path: &str, content: &str) -> FileInput {
    FileInput {
        path: path.to_string(),
        content: Some(content.to_string()),
        size: content.len() as u64,
        modified: 1_700_000_000,
    }
}

fn test_tree() -> Vec<WalkEntry> {
    vec![
        entry("proj/test1.txt", "This is test file 1.\nfn test_function() {}\n"),
        entry("proj/test2.rs", "This is test file 2.\nstruct TestStruct {}\n"),
        entry("proj/test3.txt", "This is test file 3.\nlet x = 42;\n"),
        entry("proj/.gitignore", "*.ignore\n"),
    ]
}

#[test]
fn test_gather_relevant_files_basic() {
    let files = gather_relevant_files(test_tree(), vec![], vec![]).unwrap();

    assert_eq!(files.len(), 3); // test1.txt, test2.rs, test3.txt
    assert!(files.iter().any(|f| f.ends_with("test1.txt")));
    assert!(files.iter().any(|f| f.ends_with("test2.rs")));
    assert!(files.iter().any(|f| f.ends_with("test3.txt")));
    assert!(!files.iter().any(|f| f.ends_with(".gitignore")));
}

#[test]
fn test_exclusion_patterns() {
    // Exclude .txt files
    let files =
        gather_relevant_files(test_tree(), vec![], vec![String::from(".*\\.txt")]).unwrap();

    assert_eq!(files.len(), 1); // Only test2.rs should remain
    assert!(files.iter().any(|f| f.ends_with("test2.rs")));
    assert!(!files.iter().any(|f| f.ends_with(".txt")));
}

#[test]
fn test_concatenate_files() {
    let paths = gather_relevant_files(test_tree(), vec![], vec![]).unwrap();
    let files: Vec<FileInput> = paths
        .iter()
        .map(|p| {
            let content = match p.as_str() {
                "proj/test1.txt" => "This is test file 1.\nfn test_function() {}\n",
                "proj/test2.rs" => "This is test file 2.\nstruct TestStruct {}\n",
                _ => "This is test file 3.\nlet x = 42;\n",
            };
            file(p, content)
        })
        .collect();
    let (content, _) = concatenate_files(files, true);

    assert!(content.contains("Size:"));
    assert!(content.contains("Last Modified:"));
    assert!(content.contains("This is test file 1."));
    assert!(content.contains("This is test file 2."));
    assert!(content.contains("This is test file 3."));
    assert!(content.contains("Section: Documentation"));
    assert!(content.contains("Section: Source Files"));
}

#[test]
fn test_file_order_and_duplicate_detection() {
    let files = vec![
        file("proj/test1.txt", "This is unique content in test file 1.\n"),
        file("proj/test2.rs", "This is unique content in test file 2.\n"),
        file("proj/test3.txt", "This is unique content in test file 3.\n"),
        // Same content as test1.txt
        file("proj/duplicate.txt", "This is unique content in test file 1.\n"),
    ];
    let (content, filenames) = concatenate_files(files, true);

    let content_lines: Vec<&str> = content.lines().collect();

    let doc_section_index = content_lines
        .iter()
        .position(|&r| r.contains("Section: Documentation"))
        .unwrap();
    let source_section_index = content_lines
        .iter()
        .position(|&r| r.contains("Section: Source Files"))
        .unwrap();

    let file1_index = content_lines
        .iter()
        .position(|&r| r.contains("unique content in test file 1"))
        .unwrap();
    let file2_index = content_lines
        .iter()
        .position(|&r| r.contains("unique content in test file 2"))
        .unwrap();
    let file3_index = content_lines
        .iter()
        .position(|&r| r.contains("unique content in test file 3"))
        .unwrap();

    assert!(
        doc_section_index < source_section_index,
        "Documentation section should come before Source Files section"
    );
    assert!(
        file1_index < file3_index,
        "File order is incorrect: test1.txt should come before test3.txt"
    );
    assert!(
        file2_index > file1_index && file2_index > file3_index,
        "File order is incorrect: test2.rs should come after both .txt files"
    );

    // Check that duplicate content is not included
    assert_eq!(
        content_lines
            .iter()
            .filter(|&line| line.contains("unique content in test file 1"))
            .count(),
        1,
        "Duplicate content was not properly excluded"
    );

    // Check that we have the correct number of files in the output
    assert_eq!(filenames.len(), 3, "Incorrect number of files in the output");
}

#[test]
fn test_binary_file_skipping() {
    let mut entries = test_tree();
    entries.push(WalkEntry {
        path: "proj/binary_file.bin".to_string(),
        is_file: true,
        prefix: Some(vec![0u8; 1024]),
    });

    let files = gather_relevant_files(entries, vec![], vec![]).unwrap();

    assert!(!files.iter().any(|f| f.ends_with("binary_file.bin")));
}

#[test]
fn test_zero_byte_content_skipped() {
    let mut entries = test_tree();
    // Unremarkable extension, but a zero byte among the first bytes.
    entries.push(WalkEntry {
        path: "proj/data.xyz".to_string(),
        is_file: true,
        prefix: Some(vec![b'a', 0u8, b'b']),
    });
    entries.push(entry("proj/clean.xyz", "plain text"));

    let files = gather_relevant_files(entries, vec![], vec![]).unwrap();

    assert!(!files.iter().any(|f| f.ends_with("data.xyz")));
    assert!(files.iter().any(|f| f.ends_with("clean.xyz")));
}

#[test]
fn test_built_in_exclusions() {
    let mut entries = test_tree();
    entries.push(entry("proj/node_modules/package.json", "{}"));

    let files = gather_relevant_files(entries, vec![], vec![]).unwrap();

    assert!(!files.iter().any(|f| f.contains("node_modules")));
    assert!(!files.iter().any(|f| f.ends_with(".gitignore")));
}

#[test]
fn test_extension_allowlist() {
    let files =
        gather_relevant_files(test_tree(), vec![String::from("rs")], vec![]).unwrap();

    assert_eq!(files.len(), 1);
    assert!(files[0].ends_with("test2.rs"));
}

#[test]
fn test_unreadable_entry_skipped() {
    let mut entries = test_tree();
    entries.push(WalkEntry {
        path: "proj/locked.rs".to_string(),
        is_file: true,
        prefix: None,
    });
    entries.push(WalkEntry {
        path: "proj/subdir".to_string(),
        is_file: false,
        prefix: None,
    });

    let files = gather_relevant_files(entries, vec![], vec![]).unwrap();

    assert_eq!(files.len(), 3);
    assert!(!files.iter().any(|f| f.ends_with("locked.rs")));
    assert!(!files.iter().any(|f| f.ends_with("subdir")));
}

#[test]
fn test_invalid_exclusion_pattern() {
    let err = gather_relevant_files(test_tree(), vec![], vec![String::from("[")])
        .err()
        .expect("an unparsable pattern must be refused");
    assert_eq!(err.pattern, "[");
}

#[test]
fn test_gather_output_sorted_by_full_path() {
    let entries = vec![
        entry("b/z.rs", "zz"),
        entry("a/y.rs", "yy"),
        entry("a/x.rs", "xx"),
    ];
    let files = gather_relevant_files(entries, vec![], vec![]).unwrap();
    assert_eq!(files, vec!["a/x.rs", "a/y.rs", "b/z.rs"]);
}

#[test]
fn test_empty_walk_yields_empty_list() {
    let files = gather_relevant_files(vec![], vec![], vec![]).unwrap();
    assert!(files.is_empty());
}
