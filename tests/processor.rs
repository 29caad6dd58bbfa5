use plagiarism_service::project_processor::{
    build_blacklist, calculate_file_sha1, contains_substring, count_chars_and_lines,
    detect_language, is_ignored_path, normalize_project, path_extension, path_less,
    relative_path_of, SourceLanguage, WalkEntry,
};

fn entry(path: &str, rel: &[&str], content: Option<&str>) -> WalkEntry {
    WalkEntry {
        path: path.to_string(),
        relative_components: rel.iter().map(|s| s.to_string()).collect(),
        content: content.map(|c| c.to_string()),
    }
}

#[test]
fn test_process_project_folder_populates_file_lengths() {
    let root = "/tmp/project_with_lengths";
    let entries = vec![
        entry(&format!("{}/file1.txt", root), &["file1.txt"], Some("Hello\nWorld\nTest\n")),
        entry(&format!("{}/src/empty.py", root), &["src", "empty.py"], Some("")),
    ];
    let normalized_project = normalize_project("proj_lengths", &entries, &build_blacklist(None));
    let processed_file1 = normalized_project
        .files
        .iter()
        .find(|f| f.relative_path == "file1.txt")
        .expect("file1.txt should be processed");
    assert_eq!(processed_file1.char_length, 17, "Character count for file1.txt should be 17");
    assert_eq!(
        processed_file1.line_count, 3,
        "Line count for file1.txt should be 3 based on observed .lines() behavior"
    );
    let processed_file2 = normalized_project
        .files
        .iter()
        .find(|f| f.relative_path == "src/empty.py")
        .expect("src/empty.py should be processed");
    assert_eq!(processed_file2.char_length, 0, "Character count for empty.py should be 0");
    assert_eq!(processed_file2.line_count, 0, "Line count for empty.py should be 0");
}

#[test]
fn blacklist_has_defaults_and_literal_gitignore_lines() {
    let defaults = build_blacklist(None);
    assert_eq!(defaults.len(), 21);
    assert!(defaults.contains(&"target/".to_string()));
    assert!(defaults.contains(&".vscode\\".to_string()));
    assert!(defaults.contains(&"LICENSE".to_string()));
    let g = "# comment\n*.o\n!keep\n  secret.txt  \r\n\nbuild_dir/\nlast";
    let all = build_blacklist(Some(g));
    assert_eq!(all.len(), 24);
    assert_eq!(&all[21..], &["secret.txt".to_string(), "build_dir/".to_string(), "last".to_string()]);
}

#[test]
fn languages_follow_extensions() {
    assert_eq!(detect_language("src/main.rs"), SourceLanguage::Rust);
    assert_eq!(detect_language("a/b.py"), SourceLanguage::Python);
    assert_eq!(detect_language("notes.txt"), SourceLanguage::Text);
    assert_eq!(detect_language("main.c"), SourceLanguage::Text);
    assert_eq!(detect_language(".gitignore"), SourceLanguage::Unknown);
    assert_eq!(detect_language("Makefile"), SourceLanguage::Unknown);
    assert_eq!(detect_language("dir.rs/file"), SourceLanguage::Unknown);
    assert_eq!(path_extension("archive.tar.gz").as_deref(), Some("gz"));
    assert_eq!(path_extension("trailing."), Some(String::new()));
    assert_eq!(path_extension(".."), None);
}

#[test]
fn relative_paths_drop_a_leading_project_directory() {
    let parts: Vec<String> = vec!["proj".into(), "src".into(), "a.rs".into()];
    assert_eq!(relative_path_of(&parts, "proj"), "src/a.rs");
    assert_eq!(relative_path_of(&parts, "other"), "proj/src/a.rs");
    assert_eq!(relative_path_of(&Vec::new(), "proj"), "");
}

#[test]
fn ignored_entries_match_as_substrings() {
    let ignored = build_blacklist(None);
    assert!(is_ignored_path("/p/target/debug/x.rs", &ignored));
    assert!(is_ignored_path("/p/README.md", &ignored));
    assert!(!is_ignored_path("/p/src/main.rs", &ignored));
    assert!(contains_substring("abc", ""));
    assert!(!contains_substring("ab", "abc"));
}

#[test]
fn sha1_is_lowercase_hex_digest() {
    assert_eq!(calculate_file_sha1("abc"), "a9993e364706816aba3e25717850c26c9cd0d89d");
    assert_eq!(calculate_file_sha1(""), "da39a3ee5e6b4b0d3255bfef95601890afd80709");
}

#[test]
fn counts_characters_and_lines() {
    assert_eq!(count_chars_and_lines(""), (0, 0));
    assert_eq!(count_chars_and_lines("a\nb"), (3, 2));
    assert_eq!(count_chars_and_lines("é\n"), (2, 1));
    assert_eq!(count_chars_and_lines("\n\n"), (2, 2));
}

#[test]
fn paths_order_component_by_component() {
    assert!(path_less("a/b", "a-b"));
    assert!(!path_less("a-b", "a/b"));
    assert!(path_less("a", "a/b"));
    assert!(!path_less("a", "a"));
}

#[test]
fn normalization_sorts_replaces_and_concatenates_sources() {
    let entries = vec![
        entry("/r/p/z.py", &["p", "z.py"], Some("print(1)")),
        entry("/r/p/a.rs", &["p", "a.rs"], Some("fn a() {}")),
        entry("/r/p/n.txt", &["p", "n.txt"], Some("notes")),
        entry("/r/p/bad.rs", &["p", "bad.rs"], None),
        entry("/r/p/target/x.rs", &["p", "target", "x.rs"], Some("ignored")),
        entry("/r/p/m.c", &["p", "m.c"], Some("int m;")),
        entry("/r/p/a.rs", &["a.rs"], Some("fn b() {}")),
    ];
    let np = normalize_project("p", &entries, &build_blacklist(None));
    assert_eq!(np.project_id, "p");
    let paths: Vec<&str> = np.files.iter().map(|f| f.relative_path.as_str()).collect();
    assert_eq!(paths, vec!["a.rs", "m.c", "n.txt", "z.py"]);
    assert_eq!(np.files[0].content, "fn b() {}");
    assert_eq!(np.files[1].language, SourceLanguage::Text);
    let sep = "\n\n---FILE_SEPARATOR---\n\n";
    let expected = format!("fn b() {{}}{sep}int m;{sep}print(1)");
    assert_eq!(np.concatenated_source_code.as_deref(), Some(expected.as_str()));
    assert_eq!(np.concatenated_source_hash, Some(calculate_file_sha1(&expected)));
    let none = normalize_project("q", &vec![entry("/q/n.txt", &["n.txt"], Some("x"))], &Vec::new());
    assert!(none.concatenated_source_code.is_none());
    assert!(none.concatenated_source_hash.is_none());
}
