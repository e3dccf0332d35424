use contexter::contexter::{gather_relevant_files, WalkEntry};
use contexter::document::{calculate_hash, categorize, concatenate_files, Category, FileInput};

fn file(path: &str, content: &str) -> FileInput {
    FileInput {
        path: path.to_string(),
        content: Some(content.to_string()),
        size: content.len() as u64,
        modified: 1_700_000_000,
    }
}

#[test]
fn test_mixed_directory_scenario() {
    let entries: Vec<WalkEntry> = [
        ("proj/a.json", "{}"),
        ("proj/b.md", "# doc"),
        ("proj/c.rs", "fn f(){}"),
        ("proj/d.rs", "fn f(){}"),
    ]
    .iter()
    .map(|(p, c)| WalkEntry {
        path: p.to_string(),
        is_file: true,
        prefix: Some(c.as_bytes().to_vec()),
    })
    .collect();

    // Discovery: all four files, sorted by full path.
    let found = gather_relevant_files(entries, vec![], vec![]).unwrap();
    assert_eq!(found, vec!["proj/a.json", "proj/b.md", "proj/c.rs", "proj/d.rs"]);

    // Aggregation: one file per distinct content, grouped by category.
    let files = vec![
        file("proj/a.json", "{}"),
        file("proj/b.md", "# doc"),
        file("proj/c.rs", "fn f(){}"),
        file("proj/d.rs", "fn f(){}"),
    ];
    let (content, included) = concatenate_files(files, false);

    assert_eq!(included, vec!["proj/a.json", "proj/b.md", "proj/c.rs"]);

    let cfg = content.find("Section: Configuration Files").unwrap();
    let doc = content.find("Section: Documentation").unwrap();
    let src = content.find("Section: Source Files").unwrap();
    assert!(cfg < doc && doc < src);

    let a = content.find("a.json").unwrap();
    assert!(cfg < a && a < doc);
    let b = content.find("b.md").unwrap();
    assert!(doc < b && b < src);
    assert!(content.contains("c.rs"));
    assert!(!content.contains("d.rs"));
}

#[test]
fn test_duplicate_keeps_first_by_name() {
    // The duplicate that sorts first by file name wins, whatever the
    // input order was.
    let files = vec![
        file("x/zzz.txt", "same content\n"),
        file("y/aaa.txt", "same content\n"),
    ];
    let (_, included) = concatenate_files(files, false);
    assert_eq!(included, vec!["y/aaa.txt"]);
}

#[test]
fn test_empty_categories_omitted() {
    let files = vec![file("only.md", "docs\n")];
    let (content, _) = concatenate_files(files, false);
    assert!(content.contains("Section: Documentation"));
    assert!(!content.contains("Section: Configuration Files"));
    assert!(!content.contains("Section: Source Files"));
    assert!(!content.contains("Section: Tests"));
}

#[test]
fn test_category_table() {
    assert_eq!(categorize("a/b.toml"), Category::Configuration);
    assert_eq!(categorize("a/b.json"), Category::Configuration);
    assert_eq!(categorize("a/b.yaml"), Category::Configuration);
    assert_eq!(categorize("a/b.yml"), Category::Configuration);
    assert_eq!(categorize("a/b.rs"), Category::Source);
    assert_eq!(categorize("a/b.md"), Category::Documentation);
    assert_eq!(categorize("a/b.txt"), Category::Documentation);
    assert_eq!(categorize("a/b.test"), Category::Test);
    assert_eq!(categorize("a/b.mytest"), Category::Test);
    assert_eq!(categorize("a/b.py"), Category::Source);
    assert_eq!(categorize("a/no_extension"), Category::Source);
    // Case-insensitive via ASCII lowercasing.
    assert_eq!(categorize("a/b.JSON"), Category::Configuration);
    assert_eq!(categorize("a/b.MD"), Category::Documentation);
}

#[test]
fn test_exact_document_with_metadata() {
    let files = vec![FileInput {
        path: "p/x.rs".to_string(),
        content: Some("fn main() {}  \n".to_string()),
        size: 123,
        modified: 456,
    }];
    let (content, included) = concatenate_files(files, true);
    let expected = "========================================\n\
        Section: Source Files\n\
        ========================================\n\
        ========================================\n\
        File: \"p/x.rs\"\n\
        Size: 123 bytes\n\
        Last Modified: 456\n\
        ========================================\n\
        fn main() {}\n";
    assert_eq!(content, expected);
    assert_eq!(included, vec!["p/x.rs"]);
}

#[test]
fn test_exact_document_without_metadata() {
    let files = vec![file("p/readme.md", "hello\n")];
    let (content, _) = concatenate_files(files, false);
    let expected = "========================================\n\
        Section: Documentation\n\
        ========================================\n\
        ========================================\n\
        File: \"p/readme.md\"\n\
        ========================================\n\
        hello\n";
    assert_eq!(content, expected);
}

#[test]
fn test_unreadable_file_skipped() {
    let files = vec![
        FileInput {
            path: "p/bad.rs".to_string(),
            content: None,
            size: 0,
            modified: 0,
        },
        file("p/good.rs", "ok\n"),
    ];
    let (content, included) = concatenate_files(files, false);
    assert_eq!(included, vec!["p/good.rs"]);
    assert!(!content.contains("bad.rs"));
}

#[test]
fn test_unicode_whitespace_trimmed() {
    // Trailing no-break and ideographic spaces go the same way as ASCII
    // whitespace, matching str::trim_end.
    let body = "x\u{00A0}\u{3000} \n";
    let files = vec![file("p/u.md", body)];
    let (content, _) = concatenate_files(files, false);
    let expected = "========================================\n\
        Section: Documentation\n\
        ========================================\n\
        ========================================\n\
        File: \"p/u.md\"\n\
        ========================================\n\
        x\n";
    assert_eq!(content, expected);
    assert_eq!(body.trim_end(), "x");
}

#[test]
fn test_content_hash_values() {
    // FNV-1a, 64-bit, folded over the code points.
    assert_eq!(calculate_hash(""), 0xcbf29ce484222325);
    assert_eq!(calculate_hash("a"), 0xaf63dc4c8601ec8c);
    assert_eq!(calculate_hash("abc"), 0xe71fa2190541574b);
    assert_eq!(calculate_hash("abc"), calculate_hash("abc"));
    assert_ne!(calculate_hash("abc"), calculate_hash("abd"));
}

#[test]
fn test_empty_input_empty_document() {
    let (content, included) = concatenate_files(vec![], true);
    assert_eq!(content, "");
    assert!(included.is_empty());
}
