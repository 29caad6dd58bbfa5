//! The MOSS-style comparator: tokens, token k-grams, their hashes,
//! winnowing, and the Jaccard index of the selected fingerprints.

use crate::fingerprint_set::{HashValueSet, PairSet};
use crate::score::{jaccard_of, Ratio};
use crate::text::{chars_of, is_alphanumeric_char, lowercase_of, to_lowercase};
use std::collections::hash_map::DefaultHasher;
use std::hash::{BuildHasher, BuildHasherDefault};
use vstd::prelude::*;

verus! {

/// Errors of the comparison algorithms.
pub enum AlgorithmError {
    Io,
}

/// The views of a sequence of strings.
pub open spec fn string_views(v: Seq<String>) -> Seq<Seq<char>> {
    v.map_values(|s: String| s@)
}

/// Tokenizer state after reading `s` from left to right: the tokens already
/// closed by a separator, and the run of alphanumeric characters still open.
pub open spec fn token_scan(s: Seq<char>) -> (Seq<Seq<char>>, Seq<char>)
    decreases s.len(),
{
    if s.len() == 0 {
        (Seq::empty(), Seq::empty())
    } else {
        let (closed, open) = token_scan(s.drop_last());
        let c = s.last();
        if is_alphanumeric_char(c) {
            (closed, open.push(c))
        } else if open.len() > 0 {
            (closed.push(open), Seq::empty())
        } else {
            (closed, open)
        }
    }
}

/// The maximal runs of alphanumeric characters of `s`, in order.
pub open spec fn tokens_of(s: Seq<char>) -> Seq<Seq<char>> {
    let (closed, open) = token_scan(s);
    if open.len() > 0 {
        closed.push(open)
    } else {
        closed
    }
}

/// Every token is non-empty and made of alphanumeric characters of `s`.
pub open spec fn well_formed_tokens(toks: Seq<Seq<char>>, s: Seq<char>) -> bool {
    forall|i: int|
        0 <= i < toks.len() ==> {
            &&& #[trigger] toks[i].len() > 0
            &&& forall|j: int|
                0 <= j < toks[i].len() ==> is_alphanumeric_char(#[trigger] toks[i][j])
                    && s.contains(toks[i][j])
        }
}

proof fn lemma_token_scan_well_formed(s: Seq<char>)
    ensures
        well_formed_tokens(token_scan(s).0, s),
        forall|j: int|
            0 <= j < token_scan(s).1.len() ==> is_alphanumeric_char(#[trigger] token_scan(s).1[j])
                && s.contains(token_scan(s).1[j]),
    decreases s.len(),
{
    if s.len() > 0 {
        let pre = s.drop_last();
        lemma_token_scan_well_formed(pre);
        assert forall|x: char| pre.contains(x) implies s.contains(x) by {
            let k = choose|k: int| 0 <= k < pre.len() && pre[k] == x;
            assert(s[k] == x);
        }
        assert(s[s.len() - 1] == s.last());
    }
}

/// Tokenizing yields non-empty tokens of alphanumeric characters, each drawn
/// from the case-folded text.
pub proof fn lemma_tokens_well_formed(s: Seq<char>)
    ensures
        well_formed_tokens(tokens_of(s), s),
{
    lemma_token_scan_well_formed(s);
}

/// Splits the lower-cased text into maximal runs of alphanumeric characters.
pub fn tokenize(text: &str) -> (r: Vec<String>)
    ensures
        string_views(r@) == tokens_of(lowercase_of(text@)),
        well_formed_tokens(string_views(r@), lowercase_of(text@)),
{
    proof {
        lemma_tokens_well_formed(lowercase_of(text@));
    }
    let lower = to_lowercase(text);
    let cs = chars_of(lower.as_str());
    let mut tokens: Vec<String> = Vec::new();
    let mut current = String::new();
    let mut in_token = false;
    let mut i: usize = 0;
    while i < cs.len()
        invariant
            i <= cs@.len(),
            cs@ == lowercase_of(text@),
            in_token == (current@.len() > 0),
            (string_views(tokens@), current@) == token_scan(cs@.subrange(0, i as int)),
        decreases cs@.len() - i,
    {
        let c = cs[i];
        let ghost pre = cs@.subrange(0, i as int);
        assert(cs@.subrange(0, i + 1).drop_last() =~= pre);
        if c.is_alphanumeric() {
            current.push(c);
            in_token = true;
        } else if in_token {
            let ghost closed = tokens@;
            tokens.push(current);
            assert(string_views(tokens@) =~= string_views(closed).push(current@));
            current = String::new();
            in_token = false;
        }
        i = i + 1;
    }
    assert(cs@.subrange(0, i as int) =~= cs@);
    if in_token {
        let ghost closed = tokens@;
        tokens.push(current);
        assert(string_views(tokens@) =~= string_views(closed).push(current@));
    }
    tokens
}

/// The windows of `k` consecutive elements of `s`, one per starting offset,
/// in order; none when `k` is zero or longer than `s`.
pub open spec fn kgram_windows<A>(s: Seq<A>, k: nat) -> Seq<Seq<A>> {
    if k == 0 || s.len() < k {
        Seq::empty()
    } else {
        Seq::new((s.len() - k + 1) as nat, |i: int| s.subrange(i, i + k))
    }
}

/// There are `len - k + 1` windows when `0 < k <= len`, and none otherwise.
pub proof fn lemma_kgram_count<A>(s: Seq<A>, k: nat)
    ensures
        kgram_windows(s, k).len() == if k > 0 && s.len() >= k {
            s.len() - k + 1
        } else {
            0
        },
{
}

/// The views of a sequence of token windows.
pub open spec fn window_views(v: Seq<Vec<String>>) -> Seq<Seq<Seq<char>>> {
    v.map_values(|w: Vec<String>| string_views(w@))
}

/// Every window of `k_val` consecutive tokens, each an owned copy.
pub fn generate_token_kgrams(tokens: &[String], k_val: usize) -> (r: Vec<Vec<String>>)
    ensures
        window_views(r@) == kgram_windows(string_views(tokens@), k_val as nat),
        r@.len() == if k_val > 0 && tokens@.len() >= k_val {
            tokens@.len() - k_val + 1
        } else {
            0
        },
{
    let mut r: Vec<Vec<String>> = Vec::new();
    proof {
        lemma_kgram_count(string_views(tokens@), k_val as nat);
    }
    if k_val == 0 || tokens.len() < k_val {
        assert(window_views(r@) =~= kgram_windows(string_views(tokens@), k_val as nat));
        return r;
    }
    let ghost views = string_views(tokens@);
    let n = tokens.len();
    let count = n - k_val + 1;
    let mut i: usize = 0;
    while i < count
        invariant
            0 < k_val <= tokens@.len(),
            n == tokens@.len(),
            count == tokens@.len() - k_val + 1,
            views == string_views(tokens@),
            i <= count,
            window_views(r@) =~= kgram_windows(views, k_val as nat).subrange(0, i as int),
        decreases count - i,
    {
        let mut w: Vec<String> = Vec::new();
        let mut j: usize = 0;
        while j < k_val
            invariant
                0 < k_val <= tokens@.len(),
                i < count,
                count == tokens@.len() - k_val + 1,
                j <= k_val,
                i + k_val <= tokens@.len(),
                n == tokens@.len(),
                string_views(w@) =~= string_views(tokens@).subrange(i as int, i + j),
            decreases k_val - j,
        {
            let ghost before_w = w@;
            let t = tokens[i + j].clone();
            w.push(t);
            assert(string_views(w@) =~= string_views(before_w).push(tokens@[i + j]@));
            j = j + 1;
        }
        let ghost before = r@;
        r.push(w);
        assert(window_views(r@) =~= window_views(before).push(string_views(w@)));
        i = i + 1;
    }
    r
}

/// The hash that std's `DefaultHasher` gives a sequence of tokens.
pub uninterp spec fn token_kgram_hash(k: Seq<Seq<char>>) -> u64;

/// Relies on `BuildHasher::hash_one` over std's `DefaultHasher`, whose keys are
/// fixed: the hash of a slice of strings depends on the strings alone.
#[verifier::external_body]
fn default_hash_of_tokens(k: &[String]) -> (h: u64)
    ensures
        h == token_kgram_hash(string_views(k@)),
{
    BuildHasherDefault::<DefaultHasher>::default().hash_one(k)
}

/// A structural hash of a token k-gram: equal k-grams hash equal.
pub fn hash_token_kgram(token_kgram: &[String]) -> (h: u64)
    ensures
        h == token_kgram_hash(string_views(token_kgram@)),
{
    default_hash_of_tokens(token_kgram)
}

/// `a` ranks strictly before `b`: a smaller hash, or the same hash at a later
/// position.
pub open spec fn ranks_before(a: (u64, usize), b: (u64, usize)) -> bool {
    a.0 < b.0 || (a.0 == b.0 && a.1 > b.1)
}

/// The fingerprint selected from `h[lo..hi]`: the minimum hash, and among
/// equal hashes the largest position, the earliest entry winning a full tie.
pub open spec fn window_pick(h: Seq<(u64, usize)>, lo: int, hi: int) -> (u64, usize)
    decreases hi - lo,
{
    if hi <= lo + 1 {
        h[lo]
    } else {
        let best = window_pick(h, lo, hi - 1);
        if ranks_before(h[hi - 1], best) {
            h[hi - 1]
        } else {
            best
        }
    }
}

/// The fingerprints that winnowing with window `w` keeps from `h`.
pub open spec fn winnow_set(h: Seq<(u64, usize)>, w: nat) -> Set<(u64, usize)> {
    if w == 0 || h.len() == 0 {
        Set::empty()
    } else if h.len() < w {
        set![window_pick(h, 0, h.len() as int)]
    } else {
        Set::new(
            |p: (u64, usize)|
                exists|i: int| 0 <= i <= h.len() - w && p == #[trigger] window_pick(h, i, i + w),
        )
    }
}

/// The selected fingerprint of `h[lo..hi]`.
fn pick_in_window(h: &[(u64, usize)], lo: usize, hi: usize) -> (p: (u64, usize))
    requires
        lo < hi <= h@.len(),
    ensures
        p == window_pick(h@, lo as int, hi as int),
{
    let mut best = h[lo];
    let mut j: usize = lo + 1;
    while j < hi
        invariant
            lo < j <= hi <= h@.len(),
            best == window_pick(h@, lo as int, j as int),
        decreases hi - j,
    {
        let e = h[j];
        if e.0 < best.0 || (e.0 == best.0 && e.1 > best.1) {
            best = e;
        }
        j = j + 1;
    }
    best
}

/// Selects, for each window of `window_size` consecutive pairs, the pair with
/// the minimum hash (ties going to the largest position), and collects the
/// distinct selections. Fewer pairs than the window give the single
/// selection over all of them; a zero window or no pairs give none.
pub fn winnow_hashes(hashes_with_indices: &[(u64, usize)], window_size: usize) -> (r: PairSet)
    ensures
        r.wf(),
        r@ == winnow_set(hashes_with_indices@, window_size as nat),
{
    let h = hashes_with_indices;
    let mut selected = PairSet::new();
    if window_size == 0 || h.len() == 0 {
        return selected;
    }
    if h.len() < window_size {
        let p = pick_in_window(h, 0, h.len());
        selected.insert(p);
        assert(selected@ =~= set![p]);
        return selected;
    }
    let n = h.len();
    let last = n - window_size;
    let mut i: usize = 0;
    while i <= last
        invariant
            n == h@.len(),
            0 < window_size <= h@.len(),
            last == h@.len() - window_size,
            i <= last + 1,
            selected.wf(),
            selected@ =~= Set::new(
                |p: (u64, usize)|
                    exists|j: int| 0 <= j < i && p == #[trigger] window_pick(h@, j, j + window_size),
            ),
        decreases last + 1 - i,
    {
        assert(i + window_size <= h@.len());
        let p = pick_in_window(h, i, i + window_size);
        let ghost before = selected@;
        selected.insert(p);
        proof {
            assert forall|q: (u64, usize)| selected@.contains(q) implies (exists|j: int|
                0 <= j < i + 1 && q == #[trigger] window_pick(h@, j, j + window_size)) by {
                if q != p {
                    assert(before.contains(q));
                }
            }
            assert forall|q: (u64, usize)| (exists|j: int|
                0 <= j < i + 1 && q == #[trigger] window_pick(h@, j, j + window_size)) implies
                selected@.contains(q) by {
                let j = choose|j: int|
                    0 <= j < i + 1 && q == #[trigger] window_pick(h@, j, j + window_size);
                if j < i {
                    assert(before.contains(q));
                }
            }
        }
        i = i + 1;
    }
    selected
}

/// `|a ∩ b| / |a ∪ b|` of two fingerprint sets, 1 when both are empty.
pub fn calculate_jaccard_index(set_a: &PairSet, set_b: &PairSet) -> (r: Ratio)
    requires
        set_a.wf(),
        set_b.wf(),
    ensures
        r == jaccard_of(set_a@, set_b@),
        r.wf(),
{
    let len_a = set_a.len();
    let len_b = set_b.len();
    if len_a == 0 && len_b == 0 {
        return Ratio::one();
    }
    let shared = set_a.intersection_len(set_b);
    proof {
        vstd::set_lib::lemma_set_intersect_union_lens(set_a@, set_b@);
        vstd::set_lib::lemma_len_intersect(set_b@, set_a@);
        assert(set_b@.intersect(set_a@) =~= set_a@.intersect(set_b@));
    }
    Ratio { num: shared as u128, den: len_a as u128 + len_b as u128 - shared as u128 }
}

/// Jaccard index of two hash-value sets, 1 when both are empty.
fn hash_value_jaccard(set_a: &HashValueSet, set_b: &HashValueSet) -> (r: (Ratio, usize))
    requires
        set_a.wf(),
        set_b.wf(),
    ensures
        r.0 == jaccard_of(set_a@, set_b@),
        r.0.wf(),
        r.1 == set_a@.intersect(set_b@).len(),
{
    let len_a = set_a.len();
    let len_b = set_b.len();
    let shared = set_a.intersection_len(set_b);
    if len_a == 0 && len_b == 0 {
        return (Ratio::one(), shared);
    }
    proof {
        vstd::set_lib::lemma_set_intersect_union_lens(set_a@, set_b@);
        vstd::set_lib::lemma_len_intersect(set_b@, set_a@);
        assert(set_b@.intersect(set_a@) =~= set_a@.intersect(set_b@));
    }
    (Ratio { num: shared as u128, den: len_a as u128 + len_b as u128 - shared as u128 }, shared)
}

/// Length of the token k-grams of the MOSS-style comparator.
pub const MOSS_K: usize = 4;

/// Winnowing window of the MOSS-style comparator.
pub const MOSS_WINDOW: usize = 5;

/// Outcome of the MOSS-style comparison of two documents.
#[derive(Clone, Copy, Debug, PartialEq, Eq)]
pub struct MossResult {
    pub score: Ratio,
    pub fingerprints_matched: usize,
    pub fingerprints_doc1: usize,
    pub fingerprints_doc2: usize,
}

/// The token k-grams of a document.
pub open spec fn moss_kgrams(doc: Seq<char>) -> Seq<Seq<Seq<char>>> {
    kgram_windows(tokens_of(lowercase_of(doc)), MOSS_K as nat)
}

/// Each k-gram's hash paired with its index.
pub open spec fn indexed_hashes(ws: Seq<Seq<Seq<char>>>) -> Seq<(u64, usize)> {
    Seq::new(ws.len(), |i: int| (token_kgram_hash(ws[i]), i as usize))
}

/// The hash values of the fingerprints that winnowing keeps from a document.
pub open spec fn moss_fingerprints(doc: Seq<char>) -> Set<u64> {
    winnow_set(indexed_hashes(moss_kgrams(doc)), MOSS_WINDOW as nat).map(|p: (u64, usize)| p.0)
}

/// What the MOSS-style comparison of two documents reports.
pub open spec fn moss_outcome(doc1: Seq<char>, doc2: Seq<char>) -> MossResult {
    let n1 = moss_kgrams(doc1).len();
    let n2 = moss_kgrams(doc2).len();
    if n1 == 0 && n2 == 0 {
        MossResult {
            score: Ratio { num: 1, den: 1 },
            fingerprints_matched: 0,
            fingerprints_doc1: 0,
            fingerprints_doc2: 0,
        }
    } else if n1 == 0 || n2 == 0 {
        MossResult {
            score: Ratio { num: 0, den: 1 },
            fingerprints_matched: 0,
            fingerprints_doc1: n1 as usize,
            fingerprints_doc2: n2 as usize,
        }
    } else {
        let f1 = moss_fingerprints(doc1);
        let f2 = moss_fingerprints(doc2);
        MossResult {
            score: jaccard_of(f1, f2),
            fingerprints_matched: f1.intersect(f2).len() as usize,
            fingerprints_doc1: f1.len() as usize,
            fingerprints_doc2: f2.len() as usize,
        }
    }
}

/// Each k-gram's hash, paired with the k-gram's index.
fn hash_kgrams(kgrams: &Vec<Vec<String>>) -> (r: Vec<(u64, usize)>)
    ensures
        r@ == indexed_hashes(window_views(kgrams@)),
{
    let mut r: Vec<(u64, usize)> = Vec::new();
    let mut i: usize = 0;
    while i < kgrams.len()
        invariant
            i <= kgrams@.len(),
            r@ =~= indexed_hashes(window_views(kgrams@)).subrange(0, i as int),
        decreases kgrams@.len() - i,
    {
        let h = hash_token_kgram(kgrams[i].as_slice());
        r.push((h, i));
        i = i + 1;
    }
    r
}

/// The hash values of a set of fingerprints, positions dropped.
fn hash_values(fingerprints: &PairSet) -> (r: HashValueSet)
    requires
        fingerprints.wf(),
    ensures
        r.wf(),
        r@ == fingerprints@.map(|p: (u64, usize)| p.0),
{
    let items = fingerprints.to_vec();
    let mut r = HashValueSet::new();
    let mut i: usize = 0;
    while i < items.len()
        invariant
            i <= items@.len(),
            r.wf(),
            r@ =~= Set::new(|x: u64| exists|j: int| 0 <= j < i && #[trigger] items@[j].0 == x),
        decreases items@.len() - i,
    {
        let ghost before = r@;
        r.insert(items[i].0);
        proof {
            assert forall|x: u64| r@.contains(x) implies (exists|j: int|
                0 <= j < i + 1 && #[trigger] items@[j].0 == x) by {
                if x != items@[i as int].0 {
                    assert(before.contains(x));
                }
            }
            assert forall|x: u64| (exists|j: int| 0 <= j < i + 1 && #[trigger] items@[j].0 == x)
                implies r@.contains(x) by {
                let j = choose|j: int| 0 <= j < i + 1 && #[trigger] items@[j].0 == x;
                if j < i {
                    assert(before.contains(x));
                }
            }
        }
        i = i + 1;
    }
    proof {
        assert forall|x: u64| r@.contains(x) implies fingerprints@.map(
            |p: (u64, usize)| p.0,
        ).contains(x) by {
            let j = choose|j: int| 0 <= j < items@.len() && #[trigger] items@[j].0 == x;
            assert(items@.to_set().contains(items@[j]));
        }
        assert forall|x: u64| fingerprints@.map(|p: (u64, usize)| p.0).contains(x) implies r@.contains(
            x,
        ) by {
            let p = choose|p: (u64, usize)| fingerprints@.contains(p) && p.0 == x;
            let j = choose|j: int| 0 <= j < items@.len() && items@[j] == p;
            assert(items@[j].0 == x);
        }
        assert(r@ =~= fingerprints@.map(|p: (u64, usize)| p.0));
    }
    r
}

/// Compares two documents by winnowed token k-gram fingerprints: the Jaccard
/// index of the two sets of selected hash values. Two documents without
/// k-grams score 1; one without k-grams against one with them scores 0.
pub fn compare_documents_moss_like(doc1: &str, doc2: &str) -> (r: MossResult)
    ensures
        r == moss_outcome(doc1@, doc2@),
        r.score.wf(),
{
    let tokens1 = tokenize(doc1);
    let tokens2 = tokenize(doc2);
    let kgrams1 = generate_token_kgrams(tokens1.as_slice(), MOSS_K);
    let kgrams2 = generate_token_kgrams(tokens2.as_slice(), MOSS_K);
    assert(window_views(kgrams1@).len() == kgrams1@.len());
    assert(window_views(kgrams2@).len() == kgrams2@.len());
    if kgrams1.len() == 0 && kgrams2.len() == 0 {
        return MossResult {
            score: Ratio::one(),
            fingerprints_matched: 0,
            fingerprints_doc1: 0,
            fingerprints_doc2: 0,
        };
    }
    if kgrams1.len() == 0 || kgrams2.len() == 0 {
        return MossResult {
            score: Ratio::zero(),
            fingerprints_matched: 0,
            fingerprints_doc1: kgrams1.len(),
            fingerprints_doc2: kgrams2.len(),
        };
    }
    let hashes1 = hash_kgrams(&kgrams1);
    let hashes2 = hash_kgrams(&kgrams2);
    let fingerprints1 = winnow_hashes(hashes1.as_slice(), MOSS_WINDOW);
    let fingerprints2 = winnow_hashes(hashes2.as_slice(), MOSS_WINDOW);
    let set1 = hash_values(&fingerprints1);
    let set2 = hash_values(&fingerprints2);
    let (score, shared) = hash_value_jaccard(&set1, &set2);
    MossResult {
        score,
        fingerprints_matched: shared,
        fingerprints_doc1: set1.len(),
        fingerprints_doc2: set2.len(),
    }
}

/// The selection from `h[lo..hi]` is one of its entries.
proof fn lemma_window_pick_member(h: Seq<(u64, usize)>, lo: int, hi: int)
    requires
        0 <= lo < hi <= h.len(),
    ensures
        exists|j: int| lo <= j < hi && h[j] == window_pick(h, lo, hi),
    decreases hi - lo,
{
    if hi <= lo + 1 {
        assert(h[lo] == window_pick(h, lo, hi));
    } else {
        lemma_window_pick_member(h, lo, hi - 1);
        let j = choose|j: int| lo <= j < hi - 1 && h[j] == window_pick(h, lo, hi - 1);
        if ranks_before(h[hi - 1], window_pick(h, lo, hi - 1)) {
            assert(h[hi - 1] == window_pick(h, lo, hi));
        } else {
            assert(h[j] == window_pick(h, lo, hi));
        }
    }
}

/// Winnowing a non-empty sequence with a non-zero window keeps a non-empty
/// set of its entries.
proof fn lemma_winnow_subset(h: Seq<(u64, usize)>, w: nat)
    requires
        w > 0,
        h.len() > 0,
    ensures
        winnow_set(h, w).subset_of(h.to_set()),
        winnow_set(h, w).finite(),
        0 < winnow_set(h, w).len() <= h.len(),
        exists|p: (u64, usize)| winnow_set(h, w).contains(p),
{
    let n = h.len() as int;
    let ws = winnow_set(h, w);
    assert forall|p: (u64, usize)| ws.contains(p) implies h.to_set().contains(p) by {
        if n < w {
            lemma_window_pick_member(h, 0, n);
        } else {
            let i = choose|i: int| 0 <= i <= n - w && p == #[trigger] window_pick(h, i, i + w);
            lemma_window_pick_member(h, i, i + w);
        }
    }
    vstd::seq_lib::seq_to_set_is_finite(h);
    vstd::set_lib::lemma_len_subset(ws, h.to_set());
    h.lemma_cardinality_of_set();
    if n < w {
        assert(ws.contains(window_pick(h, 0, n)));
    } else {
        let p0 = window_pick(h, 0, w as int);
        assert(0 <= 0 <= n - w && p0 == window_pick(h, 0, 0 + w as int));
        assert(ws.contains(p0));
    }
}

/// With equal hashes and increasing positions the selection from a window is
/// its last entry.
proof fn lemma_window_pick_last(h: Seq<(u64, usize)>, lo: int, hi: int)
    requires
        0 <= lo < hi <= h.len(),
        h.len() <= usize::MAX + 1,
        forall|i: int| 0 <= i < h.len() ==> #[trigger] h[i] == (h[0].0, i as usize),
    ensures
        window_pick(h, lo, hi) == h[hi - 1],
    decreases hi - lo,
{
    if hi > lo + 1 {
        lemma_window_pick_last(h, lo, hi - 1);
        assert(h[hi - 1] == (h[0].0, (hi - 1) as usize));
        assert(h[hi - 2] == (h[0].0, (hi - 2) as usize));
    }
}

/// On pairs that all carry the same hash, with each position equal to its
/// index, winnowing with a window of `w` (at most their number) keeps exactly
/// the last `n - w + 1` positions.
pub proof fn lemma_winnow_equal_hashes(h: Seq<(u64, usize)>, w: nat)
    requires
        0 < w <= h.len(),
        h.len() <= usize::MAX + 1,
        forall|i: int| 0 <= i < h.len() ==> #[trigger] h[i] == (h[0].0, i as usize),
    ensures
        winnow_set(h, w) == Set::new(
            |p: (u64, usize)| p.0 == h[0].0 && w - 1 <= p.1 < h.len(),
        ),
{
    let n = h.len() as int;
    let target = Set::new(|p: (u64, usize)| p.0 == h[0].0 && w - 1 <= p.1 < h.len());
    assert forall|p: (u64, usize)| winnow_set(h, w).contains(p) implies target.contains(p) by {
        let i = choose|i: int| 0 <= i <= n - w && p == #[trigger] window_pick(h, i, i + w);
        lemma_window_pick_last(h, i, i + w);
        assert(h[i + w - 1] == (h[0].0, (i + w - 1) as usize));
    }
    assert forall|p: (u64, usize)| target.contains(p) implies winnow_set(h, w).contains(p) by {
        let i = p.1 - (w - 1);
        lemma_window_pick_last(h, i, i + w);
        assert(h[p.1 as int] == (h[0].0, p.1));
        assert(p == window_pick(h, i, i + w));
    }
    assert(winnow_set(h, w) =~= target);
}

/// The fingerprints of a document with k-grams form a non-empty finite set
/// of the hashes of its k-grams.
proof fn lemma_moss_fingerprints(doc: Seq<char>)
    requires
        moss_kgrams(doc).len() > 0,
    ensures
        moss_fingerprints(doc).finite(),
        0 < moss_fingerprints(doc).len() <= moss_kgrams(doc).len(),
        forall|x: u64|
            moss_fingerprints(doc).contains(x) ==> exists|j: int|
                0 <= j < moss_kgrams(doc).len() && x == token_kgram_hash(
                    #[trigger] moss_kgrams(doc)[j],
                ),
{
    let h = indexed_hashes(moss_kgrams(doc));
    let ws = winnow_set(h, MOSS_WINDOW as nat);
    let first = |p: (u64, usize)| p.0;
    lemma_winnow_subset(h, MOSS_WINDOW as nat);
    vstd::set_lib::lemma_map_size_bound(ws, ws.map(first), first);
    ws.lemma_map_finite(first);
    let p = choose|p: (u64, usize)| ws.contains(p);
    assert(ws.map(first).contains(first(p)));
    assert forall|x: u64| moss_fingerprints(doc).contains(x) implies exists|j: int|
        0 <= j < moss_kgrams(doc).len() && x == token_kgram_hash(
            #[trigger] moss_kgrams(doc)[j],
        ) by {
        let q = choose|q: (u64, usize)| ws.contains(q) && q.0 == x;
        assert(h.to_set().contains(q));
        let j = choose|j: int| 0 <= j < h.len() && h[j] == q;
        assert(x == token_kgram_hash(moss_kgrams(doc)[j]));
    }
}

/// Two identical documents with k-grams score 1, and every fingerprint of
/// each matches.
pub proof fn lemma_moss_identical(doc: Seq<char>)
    requires
        moss_kgrams(doc).len() > 0,
        moss_kgrams(doc).len() <= usize::MAX,
    ensures
        moss_outcome(doc, doc).score.is_one(),
        moss_outcome(doc, doc).fingerprints_matched == moss_outcome(doc, doc).fingerprints_doc1,
        moss_outcome(doc, doc).fingerprints_doc1 == moss_outcome(doc, doc).fingerprints_doc2,
        moss_outcome(doc, doc).fingerprints_doc1 > 0,
{
    let f = moss_fingerprints(doc);
    lemma_moss_fingerprints(doc);
    assert(f.intersect(f) =~= f);
    assert(f.union(f) =~= f);
}

/// Two documents with k-grams, no k-gram hash of one equal to a k-gram hash
/// of the other, score 0.
pub proof fn lemma_moss_disjoint(doc1: Seq<char>, doc2: Seq<char>)
    requires
        moss_kgrams(doc1).len() > 0,
        moss_kgrams(doc2).len() > 0,
        moss_kgrams(doc1).len() <= usize::MAX,
        moss_kgrams(doc2).len() <= usize::MAX,
        forall|i: int, j: int|
            0 <= i < moss_kgrams(doc1).len() && 0 <= j < moss_kgrams(doc2).len() ==> token_kgram_hash(
                #[trigger] moss_kgrams(doc1)[i],
            ) != token_kgram_hash(#[trigger] moss_kgrams(doc2)[j]),
    ensures
        moss_outcome(doc1, doc2).score.is_zero(),
        moss_outcome(doc1, doc2).fingerprints_matched == 0,
{
    let f1 = moss_fingerprints(doc1);
    let f2 = moss_fingerprints(doc2);
    lemma_moss_fingerprints(doc1);
    lemma_moss_fingerprints(doc2);
    assert forall|x: u64| !f1.intersect(f2).contains(x) by {
        if f1.contains(x) && f2.contains(x) {
            let i = choose|i: int|
                0 <= i < moss_kgrams(doc1).len() && x == token_kgram_hash(
                    #[trigger] moss_kgrams(doc1)[i],
                );
            let j = choose|j: int|
                0 <= j < moss_kgrams(doc2).len() && x == token_kgram_hash(
                    #[trigger] moss_kgrams(doc2)[j],
                );
        }
    }
    assert(f1.intersect(f2) =~= Set::empty());
    vstd::set_lib::lemma_set_intersect_union_lens(f1, f2);
}

/// A document without k-grams against one with k-grams scores 0, either way
/// round; two documents without k-grams score 1.
pub proof fn lemma_moss_degenerate(doc1: Seq<char>, doc2: Seq<char>)
    ensures
        moss_kgrams(doc1).len() == 0 && moss_kgrams(doc2).len() > 0 ==> moss_outcome(
            doc1,
            doc2,
        ).score.is_zero() && moss_outcome(doc2, doc1).score.is_zero(),
        moss_kgrams(doc1).len() == 0 && moss_kgrams(doc2).len() == 0 ==> moss_outcome(
            doc1,
            doc2,
        ).score.is_one(),
{
}

} // verus!
