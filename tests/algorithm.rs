use plagiarism_service::algorithm::{
    calculate_jaccard_index, compare_documents_moss_like, generate_token_kgrams,
    hash_token_kgram, tokenize, winnow_hashes,
};
use plagiarism_service::fingerprint_set::PairSet;
use plagiarism_service::score::Ratio;
use std::collections::hash_map::DefaultHasher;
use std::collections::HashSet;
use std::hash::{Hash, Hasher};

fn strings(items: &[&str]) -> Vec<String> {
    items.iter().map(|s| s.to_string()).collect()
}

fn pair_set(items: &[(u64, usize)]) -> PairSet {
    let mut s = PairSet::new();
    for &p in items {
        s.insert(p);
    }
    s
}

fn as_f64(r: Ratio) -> f64 {
    r.num as f64 / r.den as f64
}

fn winnowed(hashes: &[(u64, usize)], w: usize) -> HashSet<(u64, usize)> {
    winnow_hashes(hashes, w).to_vec().into_iter().collect()
}

#[test]
fn test_moss_tokenize_empty_string() {
    assert_eq!(tokenize(""), Vec::<String>::new());
}

#[test]
fn test_moss_tokenize_simple_sentence() {
    let text = "Hello world";
    let expected = vec!["hello".to_string(), "world".to_string()];
    assert_eq!(tokenize(text), expected);
}

#[test]
fn test_moss_tokenize_with_punctuation_and_mixed_case() {
    let text = "First, a Sentence; then ANOTHeR one.";
    let expected = strings(&["first", "a", "sentence", "then", "another", "one"]);
    assert_eq!(tokenize(text), expected);
}

#[test]
fn test_moss_tokenize_with_numbers_and_underscores() {
    let text = "Var1able_names l1k3 th1s_are_c0mm0n_2";
    let expected = strings(&["var1able", "names", "l1k3", "th1s", "are", "c0mm0n", "2"]);
    assert_eq!(tokenize(text), expected);
}

#[test]
fn test_moss_tokenize_string_with_only_delimiters() {
    let text = " \t\n,.;!?---\t_";
    assert_eq!(tokenize(text), Vec::<String>::new());
}

#[test]
fn test_moss_tokenize_leading_and_trailing_delimiters() {
    let text = "---word---";
    let expected = vec!["word".to_string()];
    assert_eq!(tokenize(text), expected);
}

#[test]
fn test_moss_generate_token_kgrams_empty_tokens() {
    let tokens: Vec<String> = vec![];
    assert_eq!(generate_token_kgrams(&tokens, 3), Vec::<Vec<String>>::new());
}

#[test]
fn test_moss_generate_token_kgrams_k_is_zero() {
    let tokens = strings(&["a", "b", "c"]);
    assert_eq!(generate_token_kgrams(&tokens, 0), Vec::<Vec<String>>::new());
}

#[test]
fn test_moss_generate_token_kgrams_k_greater_than_tokens_length() {
    let tokens = strings(&["a", "b"]);
    assert_eq!(generate_token_kgrams(&tokens, 3), Vec::<Vec<String>>::new());
}

#[test]
fn test_moss_generate_token_kgrams_simple_case() {
    let tokens = strings(&["the", "quick", "brown", "fox", "jumps"]);
    let expected = vec![
        strings(&["the", "quick", "brown"]),
        strings(&["quick", "brown", "fox"]),
        strings(&["brown", "fox", "jumps"]),
    ];
    assert_eq!(generate_token_kgrams(&tokens, 3), expected);
}

#[test]
fn test_moss_generate_token_kgrams_k_equals_tokens_length() {
    let tokens = strings(&["one", "two", "three"]);
    let expected = vec![strings(&["one", "two", "three"])];
    assert_eq!(generate_token_kgrams(&tokens, 3), expected);
}

#[test]
fn test_moss_generate_token_kgrams_k_is_one() {
    let tokens = strings(&["a", "b", "c"]);
    let expected = vec![strings(&["a"]), strings(&["b"]), strings(&["c"])];
    assert_eq!(generate_token_kgrams(&tokens, 1), expected);
}

#[test]
fn test_moss_hash_token_kgram_empty() {
    let empty_kgram: Vec<String> = vec![];
    let expected_hash = {
        let mut hasher = DefaultHasher::new();
        empty_kgram.hash(&mut hasher);
        hasher.finish()
    };
    assert_eq!(hash_token_kgram(&empty_kgram), expected_hash);
}

#[test]
fn test_moss_hash_token_kgram_single_token() {
    let kgram = vec!["hello".to_string()];
    let expected_hash = {
        let mut hasher = DefaultHasher::new();
        kgram.hash(&mut hasher);
        hasher.finish()
    };
    assert_eq!(hash_token_kgram(&kgram), expected_hash);
}

#[test]
fn test_moss_hash_token_kgram_multiple_tokens() {
    let kgram = strings(&["the", "quick", "brown"]);
    let expected_hash = {
        let mut hasher = DefaultHasher::new();
        kgram.hash(&mut hasher);
        hasher.finish()
    };
    assert_eq!(hash_token_kgram(&kgram), expected_hash);
}

#[test]
fn test_moss_hash_token_kgram_consistency() {
    let kgram1 = strings(&["a", "b", "c"]);
    let kgram2 = strings(&["a", "b", "c"]);
    assert_eq!(hash_token_kgram(&kgram1), hash_token_kgram(&kgram2));
}

#[test]
fn test_moss_hash_token_kgram_difference() {
    let kgram1 = strings(&["a", "b", "c"]);
    let kgram2 = strings(&["a", "b", "d"]);
    let kgram3 = strings(&["x", "y", "z"]);
    let hash1 = hash_token_kgram(&kgram1);
    let hash2 = hash_token_kgram(&kgram2);
    let hash3 = hash_token_kgram(&kgram3);
    assert_ne!(hash1, hash2, "Hashes for kgrams differing by one token should differ");
    assert_ne!(hash1, hash3, "Hashes for completely different kgrams should differ");
}

#[test]
fn test_moss_winnow_empty_hashes() {
    let hashes: Vec<(u64, usize)> = vec![];
    assert_eq!(winnowed(&hashes, 4), HashSet::new());
}

#[test]
fn test_moss_winnow_window_size_zero() {
    let hashes = vec![(10, 0), (20, 1), (5, 2), (30, 3)];
    assert_eq!(winnowed(&hashes, 0), HashSet::new());
}

#[test]
fn test_moss_winnow_hashes_less_than_window_size() {
    let hashes = vec![(10, 0), (20, 1), (5, 2)];
    let mut expected = HashSet::new();
    expected.insert((5, 2));
    assert_eq!(winnowed(&hashes, 4), expected);

    let hashes_single = vec![(100, 0)];
    let mut expected_single = HashSet::new();
    expected_single.insert((100, 0));
    assert_eq!(winnowed(&hashes_single, 4), expected_single);
}

#[test]
fn test_moss_winnow_simple_case_no_ties() {
    let hashes = vec![
        (77, 0),
        (74, 1),
        (42, 2),
        (17, 3),
        (98, 4),
        (12, 5),
        (12, 6),
        (42, 7),
        (5, 8),
        (69, 9),
    ];
    let expected: HashSet<(u64, usize)> =
        [(17, 3), (12, 5), (12, 6), (5, 8)].iter().cloned().collect();
    assert_eq!(winnowed(&hashes, 4), expected);
}

#[test]
fn test_moss_winnow_all_same_hash() {
    let hashes = vec![(5, 0), (5, 1), (5, 2), (5, 3), (5, 4)];
    let mut expected = HashSet::new();
    expected.insert((5, 2));
    expected.insert((5, 3));
    expected.insert((5, 4));
    assert_eq!(winnowed(&hashes, 3), expected);
}

#[test]
fn test_moss_jaccard_index_empty_sets() {
    let set_a = PairSet::new();
    let set_b = PairSet::new();
    assert_eq!(as_f64(calculate_jaccard_index(&set_a, &set_b)), 1.0);
}

#[test]
fn test_moss_jaccard_index_one_set_empty() {
    let set_a = pair_set(&[(10, 0), (20, 1)]);
    let set_b = PairSet::new();
    assert_eq!(as_f64(calculate_jaccard_index(&set_a, &set_b)), 0.0);
    assert_eq!(as_f64(calculate_jaccard_index(&set_b, &set_a)), 0.0);
}

#[test]
fn test_moss_jaccard_index_identical_sets() {
    let set_a = pair_set(&[(10, 0), (20, 1), (30, 2)]);
    let set_b = pair_set(&[(10, 0), (20, 1), (30, 2)]);
    assert_eq!(as_f64(calculate_jaccard_index(&set_a, &set_b)), 1.0);
}

#[test]
fn test_moss_jaccard_index_no_overlap() {
    let set_a = pair_set(&[(10, 0), (20, 1)]);
    let set_b = pair_set(&[(30, 2), (40, 3)]);
    assert_eq!(as_f64(calculate_jaccard_index(&set_a, &set_b)), 0.0);
}

#[test]
fn test_moss_jaccard_index_partial_overlap() {
    let set_a = pair_set(&[(10, 0), (20, 1), (30, 2), (40, 3)]);
    let set_b = pair_set(&[(30, 2), (40, 3), (50, 4), (60, 5), (70, 6)]);
    let expected = 2.0 / 7.0;
    assert!((as_f64(calculate_jaccard_index(&set_a, &set_b)) - expected).abs() < 1e-9);
}

#[test]
fn test_compare_documents_moss_like_identical_simple() {
    let doc1 = "The quick brown fox jumps over the lazy dog.";
    let doc2 = "The quick brown fox jumps over the lazy dog.";
    let result = compare_documents_moss_like(doc1, doc2);
    assert_eq!(as_f64(result.score), 1.0);
    assert!(result.fingerprints_doc1 > 0);
    assert_eq!(result.fingerprints_doc1, result.fingerprints_doc2);
    assert_eq!(result.fingerprints_matched, result.fingerprints_doc1);
}

#[test]
fn test_compare_documents_moss_like_completely_different_simple() {
    let doc1 = "Hello world, this is document one.";
    let doc2 = "Another document, completely unrelated content here.";
    let result = compare_documents_moss_like(doc1, doc2);
    assert!(
        as_f64(result.score) < 1.0,
        "Expected very low score for different docs, got {}",
        as_f64(result.score)
    );
    assert!(result.fingerprints_doc1 > 0);
    assert!(result.fingerprints_doc2 > 0);
    assert!((result.fingerprints_matched as f64) < (result.fingerprints_doc1 as f64 * 0.5));
    assert!((result.fingerprints_matched as f64) < (result.fingerprints_doc2 as f64 * 0.5));
}

#[test]
fn test_compare_documents_moss_like_one_empty() {
    let doc1 = "This document has enough content for kgrams.";
    let doc2 = "";
    let result1 = compare_documents_moss_like(doc1, doc2);
    assert_eq!(as_f64(result1.score), 0.0);
    assert!(result1.fingerprints_doc1 > 0, "Doc1 should have fingerprints");
    assert_eq!(result1.fingerprints_doc2, 0);
    assert_eq!(result1.fingerprints_matched, 0);

    let result2 = compare_documents_moss_like(doc2, doc1);
    assert_eq!(as_f64(result2.score), 0.0);
    assert_eq!(result2.fingerprints_doc1, 0);
    assert!(result2.fingerprints_doc2 > 0, "Doc2 (originally doc1) should have fingerprints");
    assert_eq!(result2.fingerprints_matched, 0);
}

#[test]
fn test_compare_documents_moss_like_both_empty() {
    let result = compare_documents_moss_like("", "");
    assert_eq!(as_f64(result.score), 1.0);
    assert_eq!(result.fingerprints_doc1, 0);
    assert_eq!(result.fingerprints_doc2, 0);
    assert_eq!(result.fingerprints_matched, 0);
}

#[test]
fn test_compare_documents_moss_like_small_content_less_than_k() {
    let doc1 = "hi";
    let doc2 = "hi";
    let result = compare_documents_moss_like(doc1, doc2);
    assert_eq!(as_f64(result.score), 1.0);
    assert_eq!(result.fingerprints_doc1, 0);
    assert_eq!(result.fingerprints_doc2, 0);
    assert_eq!(result.fingerprints_matched, 0);

    let doc3 = "bye";
    let result2 = compare_documents_moss_like(doc1, doc3);
    assert_eq!(as_f64(result2.score), 1.0);
    assert_eq!(result2.fingerprints_doc1, 0);
    assert_eq!(result2.fingerprints_doc2, 0);
    assert_eq!(result2.fingerprints_matched, 0);
}

#[test]
fn test_compare_documents_moss_like_content_just_k() {
    let doc1 = "word word word word";
    let doc2 = "word word word word";
    let result = compare_documents_moss_like(doc1, doc2);
    assert_eq!(as_f64(result.score), 1.0);
    assert_eq!(result.fingerprints_doc1, 1, "Should have 1 fingerprint for doc1");
    assert_eq!(result.fingerprints_doc2, 1, "Should have 1 fingerprint for doc2");
    assert_eq!(result.fingerprints_matched, 1);

    let doc3 = "diff diff diff diff";
    let result2 = compare_documents_moss_like(doc1, doc3);
    assert_eq!(as_f64(result2.score), 0.0);
    assert_eq!(result2.fingerprints_doc1, 1);
    assert_eq!(result2.fingerprints_doc2, 1);
    assert_eq!(result2.fingerprints_matched, 0);
}

#[test]
fn test_debug_specific_concatenated_strings() {
    let doc1 = "fn main() { println!(\"Hello, world!\"); }";
    let doc2 = "fn main() { println!(\"Hello, world!\"); }";
    let result = compare_documents_moss_like(doc1, doc2);
    assert_eq!(as_f64(result.score), 1.0);
}

#[test]
fn tokens_are_nonempty_lowercase_alphanumeric_runs() {
    let tokens = tokenize("ÉCOLE été, x_Y9 -- ÄÖ");
    assert_eq!(tokens, strings(&["école", "été", "x", "y9", "äö"]));
    for t in &tokens {
        assert!(!t.is_empty());
        assert!(t.chars().all(|c| c.is_alphanumeric() && !c.is_uppercase()));
    }
}

#[test]
fn kgram_count_is_length_minus_k_plus_one() {
    let tokens = strings(&["a", "b", "c", "d", "e", "f", "g"]);
    for k in 0..10 {
        let expected = if k > 0 && tokens.len() >= k { tokens.len() - k + 1 } else { 0 };
        assert_eq!(generate_token_kgrams(&tokens, k).len(), expected);
    }
}

#[test]
fn jaccard_of_a_set_with_itself_is_one_and_with_empty_is_zero() {
    let s = pair_set(&[(1, 0), (2, 1), (3, 2), (3, 2)]);
    let r = calculate_jaccard_index(&s, &s);
    assert_eq!(r.num, r.den);
    assert_eq!(r.den, 3);
    let e = PairSet::new();
    assert_eq!(calculate_jaccard_index(&s, &e).num, 0);
    assert_eq!(calculate_jaccard_index(&e, &e), Ratio { num: 1, den: 1 });
}

#[test]
fn winnowing_equal_hashes_keeps_last_positions() {
    let n = 9;
    let hashes: Vec<(u64, usize)> = (0..n).map(|i| (42, i)).collect();
    for w in 1..=n {
        let expected: HashSet<(u64, usize)> = ((w - 1)..n).map(|p| (42, p)).collect();
        assert_eq!(winnowed(&hashes, w), expected);
    }
}

#[test]
fn moss_identical_documents_match_every_fingerprint() {
    let doc = "alpha beta gamma delta epsilon zeta eta theta iota kappa lambda mu";
    let r = compare_documents_moss_like(doc, doc);
    assert_eq!(r.score.num, r.score.den);
    assert_eq!(r.fingerprints_matched, r.fingerprints_doc1);
    assert_eq!(r.fingerprints_doc1, r.fingerprints_doc2);
    assert!(r.fingerprints_doc1 > 0);
}

#[test]
fn moss_documents_without_shared_kgrams_score_zero() {
    let r = compare_documents_moss_like(
        "one two three four five six seven",
        "eight nine ten eleven twelve thirteen",
    );
    assert_eq!(r.score.num, 0);
    assert_eq!(r.fingerprints_matched, 0);
}

#[test]
fn moss_short_against_long_scores_zero_with_kgram_counts() {
    let r = compare_documents_moss_like("one two", "a b c d e f");
    assert_eq!(r.score, Ratio { num: 0, den: 1 });
    assert_eq!(r.fingerprints_doc1, 0);
    assert_eq!(r.fingerprints_doc2, 3);
}
