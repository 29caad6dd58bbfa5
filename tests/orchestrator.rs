use plagiarism_service::comparison_orchestrator::{
    compare_documents_rabin_karp, compare_normalized_projects, generate_byte_kgrams,
};
use plagiarism_service::project_processor::{
    build_blacklist, normalize_project, NormalizedProject, ProcessedFile, SourceLanguage,
    WalkEntry,
};
use plagiarism_service::score::{
    calculate_combined_score, generate_file_flags, generate_overall_flags, Ratio, SimilarityFlag,
    SCORE_SCALE,
};
use std::collections::hash_map::DefaultHasher;
use std::hash::{Hash, Hasher};

const TEST_MIN_CHARS: usize = 20;
const TEST_MIN_LINES: usize = 2;
const TEST_MAX_RATIO: f64 = 5.0;

fn mock_file(path_str: &str, content: &str) -> ProcessedFile {
    ProcessedFile {
        relative_path: path_str.to_string(),
        content: content.to_string(),
        language: SourceLanguage::Text,
        sha1_hash: "mock".to_string(),
        char_length: content.chars().count(),
        line_count: if content.is_empty() { 0 } else { content.lines().count() },
    }
}

fn project(id: &str, files: Vec<ProcessedFile>) -> NormalizedProject {
    NormalizedProject {
        project_id: id.to_string(),
        files,
        concatenated_source_code: None,
        concatenated_source_hash: None,
    }
}

fn get_selected_files_for_comparison(
    project_a: &NormalizedProject,
    project_b: &NormalizedProject,
) -> Vec<String> {
    let mut selected_for_comparison = Vec::new();
    for file_a in &project_a.files {
        if let Some(file_b) = project_b.files.iter().find(|f| f.relative_path == file_a.relative_path) {
            if file_a.char_length < TEST_MIN_CHARS
                || file_b.char_length < TEST_MIN_CHARS
                || file_a.line_count < TEST_MIN_LINES
                || file_b.line_count < TEST_MIN_LINES
            {
                continue;
            }
            let len_a = file_a.char_length as f64;
            let len_b = file_b.char_length as f64;
            if len_a > 0.0 && len_b > 0.0 {
                let ratio = if len_a > len_b { len_a / len_b } else { len_b / len_a };
                if ratio > TEST_MAX_RATIO {
                    continue;
                }
            }
            selected_for_comparison.push(file_a.relative_path.clone());
        }
    }
    selected_for_comparison
}

fn ratio_value(r: Ratio) -> f64 {
    r.num as f64 / r.den as f64
}

#[test]
fn test_skips_if_file_a_too_small_chars() {
    let proj_a = project("A", vec![mock_file("file.txt", "small")]);
    let proj_b = project("B", vec![mock_file("file.txt", "long enough content now\nand two lines")]);
    let selected = get_selected_files_for_comparison(&proj_a, &proj_b);
    assert!(selected.is_empty(), "Should skip if file_a char_length is too small");
}

#[test]
fn test_skips_if_file_b_too_small_lines() {
    let proj_a = project("A", vec![mock_file("file.txt", "long enough content now\nand two lines")]);
    let proj_b = project("B", vec![mock_file("file.txt", "long enough but 1 line")]);
    let selected = get_selected_files_for_comparison(&proj_a, &proj_b);
    assert!(selected.is_empty(), "Should skip if file_b line_count is too small");
}

#[test]
fn test_skips_if_disparate_length_ratio() {
    let content_short = "This content is just fine for min length and lines.\nLine 2 here.";
    let char_count_long = (content_short.chars().count() as f64 * (TEST_MAX_RATIO + 1.0)) as usize;
    let content_long = "L".repeat(char_count_long);
    let proj_a = project("A", vec![mock_file("file.txt", content_short)]);
    let proj_b = project("B", vec![mock_file("file.txt", &content_long)]);
    let selected = get_selected_files_for_comparison(&proj_a, &proj_b);
    assert!(selected.is_empty(), "Should skip due to disparate length ratio");
}

#[test]
fn test_compares_if_lengths_are_valid_and_similar_ratio() {
    let content1 = "This is document one, suitable for comparison.\nIt has multiple lines.";
    let content2 = "This is document two, also suitable for comparison.\nAlso has many lines.";
    let proj_a = project("A", vec![mock_file("file.txt", content1)]);
    let proj_b = project("B", vec![mock_file("file.txt", content2)]);
    let selected = get_selected_files_for_comparison(&proj_a, &proj_b);
    assert_eq!(selected.len(), 1);
    assert_eq!(selected[0], "file.txt");
}

#[test]
fn test_compares_multiple_valid_files_and_skips_one() {
    let proj_a = project(
        "A",
        vec![
            mock_file("valid1.txt", "Content for valid1 in A.\nLine2."),
            mock_file("too_small.txt", "SmallA"),
            mock_file("valid2.txt", "Content for valid2 in A.\nLine2."),
        ],
    );
    let proj_b = project(
        "B",
        vec![
            mock_file("valid1.txt", "Content for valid1 in B.\nLine2."),
            mock_file(
                "too_small.txt",
                "Content for too_small in B, but A's version is too small.\nLine2.",
            ),
            mock_file("valid2.txt", "Content for valid2 in B.\nLine2."),
            mock_file("only_in_b.txt", "This file only exists in B.\nLine2."),
        ],
    );
    let mut selected = get_selected_files_for_comparison(&proj_a, &proj_b);
    selected.sort();
    assert_eq!(selected.len(), 2, "Expected 2 files to be selected for comparison");
    assert_eq!(selected[0], "valid1.txt");
    assert_eq!(selected[1], "valid2.txt");
}

const PROGRAM: &str = "#include <stdio.h>\n\nint main() {\n    printf(\"Hello, student2\\n\");\n    return 0;\n}\n";

fn walked(root: &str, rel: &[&str], content: &str) -> WalkEntry {
    WalkEntry {
        path: format!("{}/{}", root, rel.join("/")),
        relative_components: rel.iter().map(|s| s.to_string()).collect(),
        content: Some(content.to_string()),
    }
}

#[test]
fn identical_projects_score_one_everywhere_with_very_high_flag() {
    let ignored = build_blacklist(None);
    let a = normalize_project("998", &vec![walked("/x/998", &["main.c"], PROGRAM)], &ignored);
    let b = normalize_project("999", &vec![walked("/x/999", &["main.c"], PROGRAM)], &ignored);
    assert_eq!(a.concatenated_source_code.as_deref(), Some(PROGRAM));
    let report = compare_normalized_projects(&a, &b, &ignored);
    assert_eq!(report.project1_id, "998");
    assert_eq!(report.project2_id, "999");
    let whole_moss = report.whole_project_moss_result.unwrap();
    let whole_bytes = report.whole_project_rabin_karp_result.unwrap();
    assert_eq!(ratio_value(whole_moss.score), 1.0);
    assert_eq!(ratio_value(whole_bytes.similarity_score), 1.0);
    assert_eq!(report.file_to_file_comparisons.len(), 1);
    let file = &report.file_to_file_comparisons[0];
    assert_eq!(file.file1_path, "main.c");
    assert_eq!(file.file2_path, "main.c");
    assert_eq!(ratio_value(file.moss_result.unwrap().score), 1.0);
    assert_eq!(ratio_value(file.rabin_karp_result.unwrap().similarity_score), 1.0);
    let combined = calculate_combined_score(whole_moss.score, whole_bytes.similarity_score);
    assert_eq!(combined as f64 / SCORE_SCALE as f64 * 100.0, 100.0);
    let flags = generate_overall_flags(whole_moss.score, whole_bytes.similarity_score);
    assert!(flags.contains(&SimilarityFlag::VeryHighSimilarity));
    assert!(flags.contains(&SimilarityFlag::SignificantMossMatch));
    assert!(flags.contains(&SimilarityFlag::SignificantRabinKarpMatch));
    assert_eq!(SimilarityFlag::VeryHighSimilarity.as_str(), "VERY_HIGH_SIMILARITY");
}

#[test]
fn file_without_counterpart_extension_never_appears() {
    let body = "fn main() {\n    let total = 1 + 2;\n    println!(\"{}\", total);\n}\n";
    let a = project("A", vec![mock_file("lib.rs", body), mock_file("notes.txt", body)]);
    let b = project("B", vec![mock_file("notes.txt", body)]);
    let report = compare_normalized_projects(&a, &b, &Vec::new());
    assert_eq!(report.file_to_file_comparisons.len(), 1);
    assert_eq!(report.file_to_file_comparisons[0].file1_path, "notes.txt");
    assert_eq!(report.file_to_file_comparisons[0].size_bytes_a, body.chars().count());
}

#[test]
fn pairs_failing_size_or_ratio_checks_never_appear() {
    let short = "line one\nline two\nline three\n";
    let long = "word ".repeat(200) + "\nmore\nlines\n";
    let a = project("A", vec![mock_file("a.txt", short), mock_file("b.txt", "tiny\n\n\n")]);
    let b = project("B", vec![mock_file("c.txt", &long), mock_file("d.txt", "tiny\n\n\n")]);
    let report = compare_normalized_projects(&a, &b, &Vec::new());
    assert!(report.file_to_file_comparisons.is_empty());
    assert!(report.whole_project_moss_result.is_none());
    assert!(report.whole_project_rabin_karp_result.is_none());
}

#[test]
fn ignored_paths_take_no_part() {
    let body = "alpha beta gamma delta\nepsilon zeta eta theta\niota kappa lambda mu\n";
    let a = project("A", vec![mock_file("x.txt", body)]);
    let b = project("B", vec![mock_file("x.txt", body)]);
    let ignored = vec!["x.txt".to_string()];
    let report = compare_normalized_projects(&a, &b, &ignored);
    assert!(report.file_to_file_comparisons.is_empty());
}

#[test]
fn best_partner_is_the_highest_combined_score() {
    let body = "alpha beta gamma delta\nepsilon zeta eta theta\niota kappa lambda mu\n";
    let near = "alpha beta gamma delta\nepsilon zeta eta theta\niota kappa lambda nu\n";
    let far = "one two three four\nfive six seven eight\nnine ten eleven twelve\n";
    let a = project("A", vec![mock_file("a.txt", body)]);
    let b = project("B", vec![mock_file("b.txt", far), mock_file("c.txt", near)]);
    let report = compare_normalized_projects(&a, &b, &Vec::new());
    assert_eq!(report.file_to_file_comparisons.len(), 1);
    assert_eq!(report.file_to_file_comparisons[0].file2_path, "c.txt");
}

#[test]
fn combined_score_is_the_weighted_mean() {
    let cases = [(Ratio { num: 1, den: 3 }, Ratio { num: 2, den: 7 }), (Ratio { num: 5, den: 5 }, Ratio { num: 0, den: 1 }), (Ratio { num: 9, den: 11 }, Ratio { num: 4, den: 13 })];
    for (m, r) in cases {
        let c = calculate_combined_score(m, r) as f64 / SCORE_SCALE as f64;
        let expected = (ratio_value(m) * 0.6 + ratio_value(r) * 0.4) / 1.0;
        assert!((c - expected).abs() < 1e-9);
    }
    assert_eq!(calculate_combined_score(Ratio { num: 1, den: 1 }, Ratio { num: 1, den: 2 }), 800_000_000_000);
}

#[test]
fn byte_level_comparator_edge_cases() {
    let r = compare_documents_rabin_karp("", "abc", 25);
    assert_eq!(r.similarity_score, Ratio { num: 0, den: 1 });
    assert_eq!(r.total_kgrams_doc1, 0);
    let r = compare_documents_rabin_karp("abc", "abc", 0);
    assert_eq!(r.similarity_score, Ratio { num: 0, den: 1 });
    let r = compare_documents_rabin_karp("short", "tiny", 25);
    assert_eq!(r.similarity_score, Ratio { num: 1, den: 1 });
    let text = "0123456789abcdefghijklmnopqrstuvwxyz";
    let r = compare_documents_rabin_karp(text, text, 25);
    assert_eq!(r.similarity_score.num, r.similarity_score.den);
    assert_eq!(r.total_kgrams_doc1, text.len() - 25 + 1);
    assert_eq!(r.kgrams_doc1_found, r.total_kgrams_doc1);
    let r = compare_documents_rabin_karp(text, "0123456789abcdefghijklmnopqrstuvwxyZ", 25);
    assert_eq!(r.similarity_score, Ratio { num: 11, den: 13 });
}

#[test]
fn byte_kgrams_pair_window_hash_with_offset() {
    let bytes = b"abcdef";
    let set = generate_byte_kgrams(bytes, 4);
    let mut items = set.to_vec();
    items.sort_by_key(|p| p.1);
    assert_eq!(items.len(), 3);
    for (i, (h, pos)) in items.iter().enumerate() {
        let mut hasher = DefaultHasher::new();
        bytes[i..i + 4].hash(&mut hasher);
        assert_eq!(*h, hasher.finish());
        assert_eq!(*pos, i);
    }
}

#[test]
fn flags_follow_percentage_thresholds() {
    let f = generate_file_flags(Ratio { num: 81, den: 100 }, Ratio { num: 10, den: 100 });
    assert_eq!(
        f,
        vec![
            SimilarityFlag::HighSimilarity,
            SimilarityFlag::SignificantSimilarity,
            SimilarityFlag::HighMossMatch
        ]
    );
    let f = generate_file_flags(Ratio { num: 1, den: 2 }, Ratio { num: 1, den: 2 });
    assert!(f.is_empty());
    let o = generate_overall_flags(Ratio { num: 71, den: 100 }, Ratio { num: 61, den: 100 });
    assert_eq!(
        o,
        vec![
            SimilarityFlag::HighSimilarity,
            SimilarityFlag::SignificantMossMatch,
            SimilarityFlag::SignificantRabinKarpMatch
        ]
    );
    assert!(generate_overall_flags(Ratio { num: 0, den: 1 }, Ratio { num: 0, den: 1 }).is_empty());
}
