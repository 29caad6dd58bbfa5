//! The byte-level comparator and the pairwise comparison of two normalized
//! projects.

use crate::algorithm::{compare_documents_moss_like, moss_outcome, MossResult};
use crate::algorithm::calculate_jaccard_index;
use crate::fingerprint_set::PairSet;
use crate::project_processor::{extension_of, path_extension, NormalizedProject, ProcessedFile};
use crate::score::{calculate_combined_score, combined_of, jaccard_of, Ratio};
use crate::text::chars_of;
use std::collections::hash_map::DefaultHasher;
use std::hash::{BuildHasher, BuildHasherDefault};
use vstd::prelude::*;
use vstd::utf8::encode_utf8;

verus! {

/// The hash that std's `DefaultHasher` gives a byte sequence.
pub uninterp spec fn byte_window_hash(w: Seq<u8>) -> u64;

/// Relies on `BuildHasher::hash_one` over std's `DefaultHasher`, whose keys are
/// fixed: the hash of a byte slice depends on the bytes alone.
#[verifier::external_body]
fn default_hash_of_bytes(w: &[u8]) -> (h: u64)
    ensures
        h == byte_window_hash(w@),
{
    BuildHasherDefault::<DefaultHasher>::default().hash_one(w)
}

/// The hash of each window of `k` bytes, paired with the window's offset.
pub open spec fn byte_kgram_set(bytes: Seq<u8>, k: nat) -> Set<(u64, usize)> {
    Set::new(
        |p: (u64, usize)|
            exists|i: int|
                0 <= i && i + k <= bytes.len() && p == (
                    byte_window_hash(#[trigger] bytes.subrange(i, i + k)),
                    i as usize,
                ),
    )
}

/// The hash of every window of `k` bytes, each paired with its offset.
pub fn generate_byte_kgrams(bytes: &[u8], k: usize) -> (r: PairSet)
    requires
        k > 0,
    ensures
        r.wf(),
        r@ == byte_kgram_set(bytes@, k as nat),
{
    let mut r = PairSet::new();
    let n = bytes.len();
    if n < k {
        assert(r@ =~= byte_kgram_set(bytes@, k as nat));
        return r;
    }
    let mut i: usize = 0;
    while i <= n - k
        invariant
            n == bytes@.len(),
            0 < k <= n,
            i <= n - k + 1,
            r.wf(),
            r@ =~= Set::new(
                |p: (u64, usize)|
                    exists|j: int|
                        0 <= j < i && p == (
                            byte_window_hash(#[trigger] bytes@.subrange(j, j + k)),
                            j as usize,
                        ),
            ),
        decreases n - k + 1 - i,
    {
        let h = default_hash_of_bytes(&bytes[i..i + k]);
        let ghost before = r@;
        r.insert((h, i));
        proof {
            assert forall|q: (u64, usize)| r@.contains(q) implies (exists|j: int|
                0 <= j < i + 1 && q == (
                    byte_window_hash(#[trigger] bytes@.subrange(j, j + k)),
                    j as usize,
                )) by {
                if q != (h, i) {
                    assert(before.contains(q));
                }
            }
            assert forall|q: (u64, usize)| (exists|j: int|
                0 <= j < i + 1 && q == (
                    byte_window_hash(#[trigger] bytes@.subrange(j, j + k)),
                    j as usize,
                )) implies r@.contains(q) by {
                let j = choose|j: int|
                    0 <= j < i + 1 && q == (
                        byte_window_hash(#[trigger] bytes@.subrange(j, j + k)),
                        j as usize,
                    );
                if j < i {
                    assert(before.contains(q));
                }
            }
        }
        i = i + 1;
    }
    proof {
        assert forall|q: (u64, usize)| byte_kgram_set(bytes@, k as nat).contains(q) implies r@.contains(q) by {
            let j = choose|j: int|
                0 <= j && j + k <= bytes@.len() && q == (
                    byte_window_hash(#[trigger] bytes@.subrange(j, j + k)),
                    j as usize,
                );
            assert(0 <= j < i);
        }
    }
    r
}

/// Outcome of the byte-level comparison of two documents.
#[derive(Clone, Copy, Debug, PartialEq, Eq)]
pub struct RabinKarpComparisonResult {
    pub similarity_score: Ratio,
    pub kgrams_doc1_found: usize,
    pub total_kgrams_doc1: usize,
}

/// What the byte-level comparison of two documents reports.
pub open spec fn rabin_karp_outcome(doc1: Seq<char>, doc2: Seq<char>, k: nat) -> RabinKarpComparisonResult {
    let b1 = encode_utf8(doc1);
    let b2 = encode_utf8(doc2);
    if b1.len() == 0 || b2.len() == 0 || k == 0 {
        RabinKarpComparisonResult {
            similarity_score: Ratio { num: 0, den: 1 },
            kgrams_doc1_found: 0,
            total_kgrams_doc1: 0,
        }
    } else {
        let s1 = byte_kgram_set(b1, k);
        let s2 = byte_kgram_set(b2, k);
        RabinKarpComparisonResult {
            similarity_score: jaccard_of(s1, s2),
            kgrams_doc1_found: s1.intersect(s2).len() as usize,
            total_kgrams_doc1: s1.len() as usize,
        }
    }
}

/// Compares the UTF-8 bytes of two documents by the Jaccard index of their
/// `(hash, offset)` byte k-gram sets. An empty document or `k_char == 0`
/// scores 0 with zero counts.
pub fn compare_documents_rabin_karp(doc1_content: &str, doc2_content: &str, k_char: usize) -> (r:
    RabinKarpComparisonResult)
    ensures
        r == rabin_karp_outcome(doc1_content@, doc2_content@, k_char as nat),
        r.similarity_score.wf(),
{
    let doc1_bytes = doc1_content.as_bytes();
    let doc2_bytes = doc2_content.as_bytes();
    if doc1_bytes.len() == 0 || doc2_bytes.len() == 0 || k_char == 0 {
        return RabinKarpComparisonResult {
            similarity_score: Ratio::zero(),
            kgrams_doc1_found: 0,
            total_kgrams_doc1: 0,
        };
    }
    let doc1_kgrams = generate_byte_kgrams(doc1_bytes, k_char);
    let doc2_kgrams = generate_byte_kgrams(doc2_bytes, k_char);
    let total_kgrams_doc1 = doc1_kgrams.len();
    let similarity_score = calculate_jaccard_index(&doc1_kgrams, &doc2_kgrams);
    let intersection_size = doc1_kgrams.intersection_len(&doc2_kgrams);
    RabinKarpComparisonResult {
        similarity_score,
        kgrams_doc1_found: intersection_size,
        total_kgrams_doc1,
    }
}

/// Smallest character count of a file, or a concatenation, worth comparing.
pub const MIN_CHAR_LENGTH_FOR_COMPARISON: usize = 20;

/// Smallest line count of a file worth comparing.
pub const MIN_LINE_COUNT_FOR_COMPARISON: usize = 3;

/// Largest ratio between the character counts of two compared files.
pub const MAX_LENGTH_RATIO_DIFFERENCE: usize = 10;

/// Byte k-gram length of the byte-level comparator.
pub const DEFAULT_RABIN_KARP_K_CHAR: usize = 25;

/// Combined score (0.8, in units of `1 / SCORE_SCALE`) above which a file
/// pair is a high-confidence match.
pub const HIGH_CONFIDENCE_SCORE: u64 = 800_000_000_000;

/// The best match found for one file of the first project.
#[derive(Clone, Debug)]
pub struct FileComparisonResult {
    pub file1_path: String,
    pub file2_path: String,
    pub moss_result: Option<MossResult>,
    pub rabin_karp_result: Option<RabinKarpComparisonResult>,
    pub size_bytes_a: usize,
    pub lines_a: usize,
}

/// The comparison of two projects.
#[derive(Clone, Debug)]
pub struct ProjectComparisonReport {
    pub project1_id: String,
    pub project2_id: String,
    pub file_to_file_comparisons: Vec<FileComparisonResult>,
    pub whole_project_moss_result: Option<MossResult>,
    pub whole_project_rabin_karp_result: Option<RabinKarpComparisonResult>,
}

/// Some entry of `list` is `p`.
pub open spec fn listed(list: Seq<String>, p: Seq<char>) -> bool {
    exists|i: int| 0 <= i < list.len() && (#[trigger] list[i])@ == p
}

/// Both files are large enough, and neither is more than ten times the
/// other in characters.
pub open spec fn sizes_comparable(fa: ProcessedFile, fb: ProcessedFile) -> bool {
    &&& fa.char_length >= MIN_CHAR_LENGTH_FOR_COMPARISON
    &&& fb.char_length >= MIN_CHAR_LENGTH_FOR_COMPARISON
    &&& fa.line_count >= MIN_LINE_COUNT_FOR_COMPARISON
    &&& fb.line_count >= MIN_LINE_COUNT_FOR_COMPARISON
    &&& fb.char_length <= MAX_LENGTH_RATIO_DIFFERENCE * fa.char_length
    &&& fa.char_length <= MAX_LENGTH_RATIO_DIFFERENCE * fb.char_length
}

/// `fb` is compared with `fa`: same extension, not ignored, comparable sizes.
pub open spec fn candidate(fa: ProcessedFile, fb: ProcessedFile, ignored: Seq<String>) -> bool {
    &&& extension_of(fa.relative_path@) == extension_of(fb.relative_path@)
    &&& !listed(ignored, fb.relative_path@)
    &&& sizes_comparable(fa, fb)
}

/// The combined score of two files.
pub open spec fn pair_score(fa: ProcessedFile, fb: ProcessedFile) -> int {
    combined_of(
        moss_outcome(fa.content@, fb.content@).score,
        rabin_karp_outcome(fa.content@, fb.content@, DEFAULT_RABIN_KARP_K_CHAR as nat).similarity_score,
    )
}

/// `r` reports the comparison of `fa` with `fb`.
pub open spec fn describes_pair(r: FileComparisonResult, fa: ProcessedFile, fb: ProcessedFile) -> bool {
    &&& r.file1_path@ == fa.relative_path@
    &&& r.file2_path@ == fb.relative_path@
    &&& r.moss_result == Some(moss_outcome(fa.content@, fb.content@))
    &&& r.rabin_karp_result == Some(
        rabin_karp_outcome(fa.content@, fb.content@, DEFAULT_RABIN_KARP_K_CHAR as nat),
    )
    &&& r.size_bytes_a == fa.char_length
    &&& r.lines_a == fa.line_count
}

/// `r` is the best match of `fa` among the files `b`: its candidate `b[j]`,
/// with a positive score that no other candidate exceeds.
#[verifier::opaque]
pub open spec fn best_match_for(
    r: FileComparisonResult,
    fa: ProcessedFile,
    b: Seq<ProcessedFile>,
    ignored: Seq<String>,
    j: int,
) -> bool {
    &&& 0 <= j < b.len()
    &&& candidate(fa, b[j], ignored)
    &&& describes_pair(r, fa, b[j])
    &&& pair_score(fa, b[j]) > 0
    &&& forall|j2: int|
        0 <= j2 < b.len() && candidate(fa, #[trigger] b[j2], ignored) ==> pair_score(fa, b[j2])
            <= pair_score(fa, b[j])
}

/// `r` is the match recorded for `a[i]`, a file that is not ignored, with
/// `b[j]`.
pub open spec fn best_match_of(
    r: FileComparisonResult,
    a: Seq<ProcessedFile>,
    b: Seq<ProcessedFile>,
    ignored: Seq<String>,
    i: int,
    j: int,
) -> bool {
    &&& 0 <= i < a.len()
    &&& !listed(ignored, a[i].relative_path@)
    &&& r.file1_path@ == a[i].relative_path@
    &&& best_match_for(r, a[i], b, ignored, j)
}

/// `r` is the match recorded for some file of `a` that is not ignored.
pub open spec fn recorded_match(
    r: FileComparisonResult,
    a: Seq<ProcessedFile>,
    b: Seq<ProcessedFile>,
    ignored: Seq<String>,
) -> bool {
    exists|i: int, j: int| best_match_of(r, a, b, ignored, i, j)
}

/// Some candidate of `fa` among `b` scores above the high-confidence
/// threshold.
pub open spec fn has_high_confidence_partner(
    fa: ProcessedFile,
    b: Seq<ProcessedFile>,
    ignored: Seq<String>,
) -> bool {
    exists|j: int|
        0 <= j < b.len() && candidate(fa, #[trigger] b[j], ignored) && pair_score(fa, b[j])
            > HIGH_CONFIDENCE_SCORE
}

/// Some file of `a` that is not ignored has a high-confidence partner.
pub open spec fn has_high_confidence_pair(
    a: Seq<ProcessedFile>,
    b: Seq<ProcessedFile>,
    ignored: Seq<String>,
) -> bool {
    exists|i: int|
        0 <= i < a.len() && !listed(ignored, (#[trigger] a[i]).relative_path@)
            && has_high_confidence_partner(a[i], b, ignored)
}

/// Some candidate of `fa` among `b` has a positive score.
pub open spec fn has_scoring_partner(
    fa: ProcessedFile,
    b: Seq<ProcessedFile>,
    ignored: Seq<String>,
) -> bool {
    exists|j: int|
        0 <= j < b.len() && candidate(fa, #[trigger] b[j], ignored) && pair_score(fa, b[j]) > 0
}

/// Whether the two concatenations are compared, and how.
pub open spec fn whole_project_outcome(
    a: Option<String>,
    b: Option<String>,
) -> (Option<MossResult>, Option<RabinKarpComparisonResult>) {
    match (a, b) {
        (Some(sa), Some(sb)) => if sa@.len() >= MIN_CHAR_LENGTH_FOR_COMPARISON && sb@.len()
            >= MIN_CHAR_LENGTH_FOR_COMPARISON {
            (
                Some(moss_outcome(sa@, sb@)),
                Some(rabin_karp_outcome(sa@, sb@, DEFAULT_RABIN_KARP_K_CHAR as nat)),
            )
        } else {
            (None, None)
        },
        _ => (None, None),
    }
}

/// Whether some entry of `list` is `p`.
fn is_listed(list: &Vec<String>, p: &String) -> (r: bool)
    ensures
        r == listed(list@, p@),
{
    let mut i: usize = 0;
    while i < list.len()
        invariant
            i <= list@.len(),
            forall|k: int| 0 <= k < i ==> (#[trigger] list@[k])@ != p@,
        decreases list@.len() - i,
    {
        if list[i] == *p {
            return true;
        }
        i = i + 1;
    }
    false
}

/// Whether two paths have the same extension.
fn same_extension(a: &String, b: &String) -> (r: bool)
    ensures
        r == (extension_of(a@) == extension_of(b@)),
{
    let ea = path_extension(a.as_str());
    let eb = path_extension(b.as_str());
    match (ea, eb) {
        (Some(x), Some(y)) => x == y,
        (None, None) => true,
        _ => false,
    }
}

/// Size checks on a pair of files.
fn comparable_sizes(fa: &ProcessedFile, fb: &ProcessedFile) -> (r: bool)
    ensures
        r == sizes_comparable(*fa, *fb),
{
    if fa.char_length < MIN_CHAR_LENGTH_FOR_COMPARISON || fb.char_length
        < MIN_CHAR_LENGTH_FOR_COMPARISON || fa.line_count < MIN_LINE_COUNT_FOR_COMPARISON
        || fb.line_count < MIN_LINE_COUNT_FOR_COMPARISON {
        return false;
    }
    let la = fa.char_length as u128;
    let lb = fb.char_length as u128;
    lb <= 10 * la && la <= 10 * lb
}

fn copy_string(s: &String) -> (r: String)
    ensures
        r@ == s@,
{
    s.clone()
}

/// The best-scoring candidate of `file_a` among `files_b`, if any scores
/// above 0. The paths of each pair that scores above the high-confidence
/// threshold are appended to `consumed`.
fn best_partner(
    file_a: &ProcessedFile,
    files_b: &Vec<ProcessedFile>,
    ignored: &Vec<String>,
    consumed: &mut Vec<String>,
) -> (r: Option<FileComparisonResult>)
    ensures
        r is Some ==> exists|j: int| best_match_for(r->0, *file_a, files_b@, ignored@, j),
        r is None ==> !has_scoring_partner(*file_a, files_b@, ignored@),
        final(consumed)@.len() > old(consumed)@.len() ==> has_high_confidence_partner(
            *file_a,
            files_b@,
            ignored@,
        ),
        final(consumed)@.len() >= old(consumed)@.len(),
{
    let ghost fb_s = files_b@;
    let ghost start_len = consumed@.len();
    let mut best_score: u64 = 0;
    let mut best: Option<FileComparisonResult> = None;
    let ghost mut best_j: int = 0;
    let mut j: usize = 0;
    while j < files_b.len()
        invariant
            fb_s == files_b@,
            j <= fb_s.len(),
            consumed@.len() >= start_len,
            consumed@.len() > start_len ==> has_high_confidence_partner(*file_a, fb_s, ignored@),
            best is None ==> best_score == 0,
            forall|j2: int|
                0 <= j2 < j && candidate(*file_a, #[trigger] fb_s[j2], ignored@) ==> pair_score(
                    *file_a,
                    fb_s[j2],
                ) <= best_score,
            best is Some ==> {
                &&& 0 <= best_j < j
                &&& candidate(*file_a, fb_s[best_j], ignored@)
                &&& describes_pair(best->0, *file_a, fb_s[best_j])
                &&& pair_score(*file_a, fb_s[best_j]) == best_score
                &&& best_score > 0
            },
        decreases fb_s.len() - j,
    {
        let file_b = &files_b[j];
        if same_extension(&file_a.relative_path, &file_b.relative_path) && !is_listed(
            ignored,
            &file_b.relative_path,
        ) && comparable_sizes(file_a, file_b) {
            let moss = compare_documents_moss_like(file_a.content.as_str(), file_b.content.as_str());
            let byte_level = compare_documents_rabin_karp(
                file_a.content.as_str(),
                file_b.content.as_str(),
                DEFAULT_RABIN_KARP_K_CHAR,
            );
            let combined = calculate_combined_score(moss.score, byte_level.similarity_score);
            if combined > HIGH_CONFIDENCE_SCORE {
                assert(candidate(*file_a, fb_s[j as int], ignored@));
                consumed.push(copy_string(&file_a.relative_path));
                consumed.push(copy_string(&file_b.relative_path));
            }
            if combined > best_score {
                best_score = combined;
                best = Some(
                    FileComparisonResult {
                        file1_path: copy_string(&file_a.relative_path),
                        file2_path: copy_string(&file_b.relative_path),
                        moss_result: Some(moss),
                        rabin_karp_result: Some(byte_level),
                        size_bytes_a: file_a.char_length,
                        lines_a: file_a.line_count,
                    },
                );
                proof {
                    best_j = j as int;
                }
            }
        }
        j = j + 1;
    }
    proof {
        reveal(best_match_for);
        if best is Some {
            assert(best_match_for(best->0, *file_a, fb_s, ignored@, best_j));
        }
    }
    best
}

/// Compares the two concatenated sources when both are present and long
/// enough.
fn compare_whole_projects(src_a: &Option<String>, src_b: &Option<String>) -> (r: (
    Option<MossResult>,
    Option<RabinKarpComparisonResult>,
))
    ensures
        r == whole_project_outcome(*src_a, *src_b),
{
    match (src_a, src_b) {
        (Some(a), Some(b)) => {
            if chars_of(a.as_str()).len() >= MIN_CHAR_LENGTH_FOR_COMPARISON && chars_of(
                b.as_str(),
            ).len() >= MIN_CHAR_LENGTH_FOR_COMPARISON {
                (
                    Some(compare_documents_moss_like(a.as_str(), b.as_str())),
                    Some(compare_documents_rabin_karp(a.as_str(), b.as_str(), DEFAULT_RABIN_KARP_K_CHAR)),
                )
            } else {
                (None, None)
            }
        },
        _ => (None, None),
    }
}

/// Compares every file of `project_a` with the files of `project_b` that
/// share its extension, keeping for each the best-scoring partner, and
/// compares the two concatenated sources when both are long enough. Files
/// whose path is listed in `ignored` take no part. Once a pair scores above
/// the high-confidence threshold both paths are marked consumed, and a file
/// of `project_a` whose path is consumed is passed over.
pub fn compare_normalized_projects(
    project_a: &NormalizedProject,
    project_b: &NormalizedProject,
    ignored: &Vec<String>,
) -> (r: ProjectComparisonReport)
    ensures
        r.project1_id@ == project_a.project_id@,
        r.project2_id@ == project_b.project_id@,
        r.file_to_file_comparisons@.len() <= project_a.files@.len(),
        forall|k: int|
            0 <= k < r.file_to_file_comparisons@.len() ==> recorded_match(
                #[trigger] r.file_to_file_comparisons@[k],
                project_a.files@,
                project_b.files@,
                ignored@,
            ),
        forall|k1: int, k2: int|
            0 <= k1 < k2 < r.file_to_file_comparisons@.len() ==> exists|i1: int, i2: int|
                0 <= i1 < i2 < project_a.files@.len() && (
                #[trigger] r.file_to_file_comparisons@[k1]).file1_path@
                    == project_a.files@[i1].relative_path@ && (
                #[trigger] r.file_to_file_comparisons@[k2]).file1_path@
                    == project_a.files@[i2].relative_path@,
        !has_high_confidence_pair(project_a.files@, project_b.files@, ignored@) ==> forall|i: int|
            0 <= i < project_a.files@.len() && !listed(
                ignored@,
                (#[trigger] project_a.files@[i]).relative_path@,
            ) && has_scoring_partner(project_a.files@[i], project_b.files@, ignored@)
                ==> exists|k: int|
                0 <= k < r.file_to_file_comparisons@.len() && (
                #[trigger] r.file_to_file_comparisons@[k]).file1_path@
                    == project_a.files@[i].relative_path@,
        (r.whole_project_moss_result, r.whole_project_rabin_karp_result) == whole_project_outcome(
            project_a.concatenated_source_code,
            project_b.concatenated_source_code,
        ),
{
    let ghost fa_s = project_a.files@;
    let ghost fb_s = project_b.files@;
    let mut results: Vec<FileComparisonResult> = Vec::new();
    let ghost mut origin: Seq<int> = Seq::empty();
    let ghost mut partner: Seq<int> = Seq::empty();
    let mut consumed: Vec<String> = Vec::new();
    let mut i: usize = 0;
    while i < project_a.files.len()
        invariant
            fa_s == project_a.files@,
            fb_s == project_b.files@,
            i <= fa_s.len(),
            results@.len() == origin.len(),
            partner.len() == origin.len(),
            results@.len() <= i,
            forall|k: int|
                0 <= k < origin.len() ==> 0 <= #[trigger] origin[k] < i && best_match_of(
                    results@[k],
                    fa_s,
                    fb_s,
                    ignored@,
                    origin[k],
                    partner[k],
                ),
            forall|k1: int, k2: int|
                0 <= k1 < k2 < origin.len() ==> #[trigger] origin[k1] < #[trigger] origin[k2],
            consumed@.len() > 0 ==> has_high_confidence_pair(fa_s, fb_s, ignored@),
            !has_high_confidence_pair(fa_s, fb_s, ignored@) ==> forall|i2: int|
                0 <= i2 < i && !listed(ignored@, (#[trigger] fa_s[i2]).relative_path@)
                    && has_scoring_partner(fa_s[i2], fb_s, ignored@) ==> exists|k: int|
                    0 <= k < origin.len() && #[trigger] origin[k] == i2,
        decreases fa_s.len() - i,
    {
        let file_a = &project_a.files[i];
        let ghost old_origin = origin;
        let ghost old_consumed_len = consumed@.len();
        if !is_listed(ignored, &file_a.relative_path) && !is_listed(&consumed, &file_a.relative_path) {
            let found = best_partner(file_a, &project_b.files, ignored, &mut consumed);
            proof {
                if consumed@.len() > 0 && old_consumed_len == 0 {
                    assert(has_high_confidence_pair(fa_s, fb_s, ignored@)) by {
                        assert(fa_s[i as int] == *file_a);
                    }
                }
            }
            match found {
                Some(m) => {
                    let ghost j = choose|j: int| best_match_for(m, *file_a, fb_s, ignored@, j);
                    results.push(m);
                    proof {
                        reveal(best_match_for);
                        origin = origin.push(i as int);
                        partner = partner.push(j);
                        assert(best_match_of(m, fa_s, fb_s, ignored@, i as int, j));
                    }
                },
                None => {},
            }
        }
        proof {
            assert forall|k: int| 0 <= k < old_origin.len() implies #[trigger] origin[k]
                == old_origin[k] by {}
            if !has_high_confidence_pair(fa_s, fb_s, ignored@) {
                assert(consumed@.len() == 0);
                assert(!listed(consumed@, fa_s[i as int].relative_path@));
                assert forall|i2: int|
                    0 <= i2 < i + 1 && !listed(ignored@, (#[trigger] fa_s[i2]).relative_path@)
                        && has_scoring_partner(fa_s[i2], fb_s, ignored@) implies exists|k: int|
                        0 <= k < origin.len() && #[trigger] origin[k] == i2 by {
                    if i2 == i {
                        assert(origin[origin.len() - 1] == i2);
                    } else {
                        let k = choose|k: int| 0 <= k < old_origin.len() && #[trigger] old_origin[k] == i2;
                        assert(origin[k] == i2);
                    }
                }
            }
        }
        i = i + 1;
    }
    let (whole_moss, whole_bytes) = compare_whole_projects(
        &project_a.concatenated_source_code,
        &project_b.concatenated_source_code,
    );
    proof {
        assert forall|k: int| 0 <= k < results@.len() implies recorded_match(
            #[trigger] results@[k],
            fa_s,
            fb_s,
            ignored@,
        ) by {
            assert(best_match_of(results@[k], fa_s, fb_s, ignored@, origin[k], partner[k]));
        }
        assert forall|k1: int, k2: int| 0 <= k1 < k2 < results@.len() implies exists|i1: int, i2: int|
            0 <= i1 < i2 < fa_s.len() && (#[trigger] results@[k1]).file1_path@
                == fa_s[i1].relative_path@ && (#[trigger] results@[k2]).file1_path@
                == fa_s[i2].relative_path@ by {
            assert(best_match_of(results@[k1], fa_s, fb_s, ignored@, origin[k1], partner[k1]));
            assert(best_match_of(results@[k2], fa_s, fb_s, ignored@, origin[k2], partner[k2]));
            assert(origin[k1] < origin[k2]);
        }
        if !has_high_confidence_pair(fa_s, fb_s, ignored@) {
            assert forall|i2: int|
                0 <= i2 < fa_s.len() && !listed(ignored@, (#[trigger] fa_s[i2]).relative_path@)
                    && has_scoring_partner(fa_s[i2], fb_s, ignored@) implies exists|k: int|
                    0 <= k < results@.len() && (#[trigger] results@[k]).file1_path@
                        == fa_s[i2].relative_path@ by {
                let k = choose|k: int| 0 <= k < origin.len() && #[trigger] origin[k] == i2;
                assert(best_match_of(results@[k], fa_s, fb_s, ignored@, origin[k], partner[k]));
            }
        }
    }
    let report = ProjectComparisonReport {
        project1_id: copy_string(&project_a.project_id),
        project2_id: copy_string(&project_b.project_id),
        file_to_file_comparisons: results,
        whole_project_moss_result: whole_moss,
        whole_project_rabin_karp_result: whole_bytes,
    };
    assert(report.file_to_file_comparisons@ == results@);
    report
}
/// A recorded match pairs a file of the first project with a file of the
/// second that has the same extension and passes the size and length-ratio
/// checks. So a file that shares its extension with no file of the other
/// project, and a pair that fails those checks, never appear.
pub proof fn lemma_recorded_match_is_eligible(
    r: FileComparisonResult,
    a: Seq<ProcessedFile>,
    b: Seq<ProcessedFile>,
    ignored: Seq<String>,
)
    requires
        recorded_match(r, a, b, ignored),
    ensures
        exists|i: int, j: int|
            0 <= i < a.len() && 0 <= j < b.len() && r.file1_path@ == (#[trigger] a[i]).relative_path@
                && r.file2_path@ == (#[trigger] b[j]).relative_path@ && extension_of(
                a[i].relative_path@,
            ) == extension_of(b[j].relative_path@) && sizes_comparable(a[i], b[j]),
{
    reveal(best_match_for);
    let (i, j) = choose|i: int, j: int| best_match_of(r, a, b, ignored, i, j);
    assert(describes_pair(r, a[i], b[j]));
}

} // verus!
