//! Similarity scores as exact fractions, the Jaccard index, and the
//! weighted combination of the two comparators' scores.

use vstd::prelude::*;

verus! {

/// Bound on the denominator of a score: twice the largest length a
/// collection can have.
pub const RATIO_DEN_MAX: u128 = 0x3_ffff_ffff_ffff_fffe;

/// A score `num / den`.
#[derive(Clone, Copy, Debug, PartialEq, Eq)]
pub struct Ratio {
    pub num: u128,
    pub den: u128,
}

impl Ratio {
    /// A score in the unit interval with a non-zero denominator no larger
    /// than a count of two collections in memory.
    pub open spec fn wf(self) -> bool {
        0 < self.den <= RATIO_DEN_MAX && self.num <= self.den
    }

    /// The score 1.
    pub open spec fn is_one(self) -> bool {
        self.wf() && self.num == self.den
    }

    /// The score 0.
    pub open spec fn is_zero(self) -> bool {
        self.wf() && self.num == 0
    }

    pub fn one() -> (r: Ratio)
        ensures
            r == (Ratio { num: 1, den: 1 }),
    {
        Ratio { num: 1, den: 1 }
    }

    pub fn zero() -> (r: Ratio)
        ensures
            r == (Ratio { num: 0, den: 1 }),
    {
        Ratio { num: 0, den: 1 }
    }
}

/// `|a ∩ b| / |a ∪ b|`, and 1 when both sets are empty.
pub open spec fn jaccard_of<A>(a: Set<A>, b: Set<A>) -> Ratio {
    if a.len() == 0 && b.len() == 0 {
        Ratio { num: 1, den: 1 }
    } else {
        Ratio { num: a.intersect(b).len() as u128, den: a.union(b).len() as u128 }
    }
}

/// The Jaccard index of a non-empty set with itself is 1, that of two empty
/// sets is 1, and that of a non-empty set with the empty set is 0.
pub proof fn lemma_jaccard_extremes<A>(s: Set<A>)
    requires
        s.finite(),
        s.len() > 0,
        s.len() <= u64::MAX,
    ensures
        jaccard_of(s, s).is_one(),
        jaccard_of(Set::<A>::empty(), Set::<A>::empty()).is_one(),
        jaccard_of(s, Set::<A>::empty()).is_zero(),
        jaccard_of(Set::<A>::empty(), s).is_zero(),
{
    assert(s.intersect(s) =~= s);
    assert(s.union(s) =~= s);
    assert(s.intersect(Set::<A>::empty()) =~= Set::<A>::empty());
    assert(s.union(Set::<A>::empty()) =~= s);
    assert(Set::<A>::empty().intersect(s) =~= Set::<A>::empty());
    assert(Set::<A>::empty().union(s) =~= s);
}

/// Fixed-point unit of combined scores: a combined score `c` stands for
/// `c / SCORE_SCALE`.
pub const SCORE_SCALE: u64 = 1_000_000_000_000;

/// A score in units of `1 / SCORE_SCALE`, rounded down.
pub open spec fn scaled(r: Ratio) -> int {
    (r.num * SCORE_SCALE) as int / r.den as int
}

/// The MOSS-style score weighted 0.6 and the byte-level score weighted 0.4,
/// normalized by the weight sum, in units of `1 / SCORE_SCALE`, rounded down.
pub open spec fn combined_of(moss: Ratio, byte_level: Ratio) -> int {
    (3 * scaled(moss) + 2 * scaled(byte_level)) / 5
}

proof fn lemma_scaled_bounds(r: Ratio)
    requires
        r.wf(),
    ensures
        0 <= scaled(r) <= SCORE_SCALE,
        scaled(r) * r.den <= r.num * SCORE_SCALE < (scaled(r) + 1) * r.den,
{
    let a: int = r.num * SCORE_SCALE;
    let d = r.den as int;
    let q = a / d;
    vstd::arithmetic::div_mod::lemma_fundamental_div_mod(a, d);
    vstd::arithmetic::div_mod::lemma_mod_bound(a, d);
    vstd::arithmetic::div_mod::lemma_div_pos_is_pos(a, d);
    assert(a <= d * SCORE_SCALE) by (nonlinear_arith)
        requires
            a == r.num * SCORE_SCALE,
            r.num <= d,
    ;
    vstd::arithmetic::div_mod::lemma_div_is_ordered(a, d * SCORE_SCALE, d);
    vstd::arithmetic::div_mod::lemma_div_by_multiple(SCORE_SCALE as int, d);
    assert(q * d <= a < (q + 1) * d) by (nonlinear_arith)
        requires
            a == d * q + a % d,
            0 <= a % d < d,
    ;
}

/// The combined score of two scores, `(0.6 * moss + 0.4 * byte_level) / 1.0`,
/// in units of `1 / SCORE_SCALE`.
pub fn calculate_combined_score(moss_score: Ratio, rabin_karp_score: Ratio) -> (c: u64)
    requires
        moss_score.wf(),
        rabin_karp_score.wf(),
    ensures
        c == combined_of(moss_score, rabin_karp_score),
        c <= SCORE_SCALE,
{
    proof {
        lemma_scaled_bounds(moss_score);
        lemma_scaled_bounds(rabin_karp_score);
        assert(moss_score.num * SCORE_SCALE <= u128::MAX) by (nonlinear_arith)
            requires
                moss_score.num <= RATIO_DEN_MAX,
        ;
        assert(rabin_karp_score.num * SCORE_SCALE <= u128::MAX) by (nonlinear_arith)
            requires
                rabin_karp_score.num <= RATIO_DEN_MAX,
        ;
    }
    let m = (moss_score.num * (SCORE_SCALE as u128)) / moss_score.den;
    let b = (rabin_karp_score.num * (SCORE_SCALE as u128)) / rabin_karp_score.den;
    ((3 * m + 2 * b) / 5) as u64
}

/// The combined score differs from `0.6 * moss + 0.4 * byte_level` by less
/// than two units of `1 / SCORE_SCALE`, and never exceeds it.
pub proof fn lemma_combined_is_weighted_mean(moss: Ratio, byte_level: Ratio)
    requires
        moss.wf(),
        byte_level.wf(),
    ensures
        5 * combined_of(moss, byte_level) * moss.den * byte_level.den <= SCORE_SCALE * (3
            * moss.num * byte_level.den + 2 * byte_level.num * moss.den),
        SCORE_SCALE * (3 * moss.num * byte_level.den + 2 * byte_level.num * moss.den) < 5 * (
        combined_of(moss, byte_level) + 2) * moss.den * byte_level.den,
{
    lemma_scaled_bounds(moss);
    lemma_scaled_bounds(byte_level);
    let a = scaled(moss);
    let b = scaled(byte_level);
    let c = combined_of(moss, byte_level);
    let md = moss.den as int;
    let rd = byte_level.den as int;
    let mn = moss.num as int;
    let rn = byte_level.num as int;
    let s = SCORE_SCALE as int;
    vstd::arithmetic::div_mod::lemma_fundamental_div_mod(3 * a + 2 * b, 5);
    vstd::arithmetic::div_mod::lemma_mod_bound(3 * a + 2 * b, 5);
    assert(5 * c <= 3 * a + 2 * b < 5 * c + 5);
    assert(5 * c * md * rd <= s * (3 * mn * rd + 2 * rn * md)) by (nonlinear_arith)
        requires
            5 * c <= 3 * a + 2 * b,
            a * md <= mn * s,
            b * rd <= rn * s,
            md > 0,
            rd > 0,
    ;
    assert(s * (3 * mn * rd + 2 * rn * md) < 5 * (c + 2) * md * rd) by (nonlinear_arith)
        requires
            3 * a + 2 * b < 5 * c + 5,
            mn * s < (a + 1) * md,
            rn * s < (b + 1) * rd,
            md > 0,
            rd > 0,
    ;
}

/// A qualitative flag derived from the two comparators' scores.
#[derive(Clone, Copy, Debug, PartialEq, Eq, Structural)]
pub enum SimilarityFlag {
    VeryHighSimilarity,
    HighSimilarity,
    SignificantSimilarity,
    HighMossMatch,
    HighRabinKarpMatch,
    SignificantMossMatch,
    SignificantRabinKarpMatch,
}

/// The name under which a flag is reported.
pub open spec fn flag_name(f: SimilarityFlag) -> Seq<char> {
    match f {
        SimilarityFlag::VeryHighSimilarity => "VERY_HIGH_SIMILARITY"@,
        SimilarityFlag::HighSimilarity => "HIGH_SIMILARITY"@,
        SimilarityFlag::SignificantSimilarity => "SIGNIFICANT_SIMILARITY"@,
        SimilarityFlag::HighMossMatch => "HIGH_MOSS_MATCH"@,
        SimilarityFlag::HighRabinKarpMatch => "HIGH_RABIN_KARP_MATCH"@,
        SimilarityFlag::SignificantMossMatch => "SIGNIFICANT_MOSS_MATCH"@,
        SimilarityFlag::SignificantRabinKarpMatch => "SIGNIFICANT_RABIN_KARP_MATCH"@,
    }
}

impl SimilarityFlag {
    /// The name under which the flag is reported.
    pub fn as_str(&self) -> (r: &'static str)
        ensures
            r@ == flag_name(*self),
    {
        match self {
            SimilarityFlag::VeryHighSimilarity => "VERY_HIGH_SIMILARITY",
            SimilarityFlag::HighSimilarity => "HIGH_SIMILARITY",
            SimilarityFlag::SignificantSimilarity => "SIGNIFICANT_SIMILARITY",
            SimilarityFlag::HighMossMatch => "HIGH_MOSS_MATCH",
            SimilarityFlag::HighRabinKarpMatch => "HIGH_RABIN_KARP_MATCH",
            SimilarityFlag::SignificantMossMatch => "SIGNIFICANT_MOSS_MATCH",
            SimilarityFlag::SignificantRabinKarpMatch => "SIGNIFICANT_RABIN_KARP_MATCH",
        }
    }
}

/// The score, as a percentage, exceeds `pct`.
pub open spec fn exceeds_percent(r: Ratio, pct: int) -> bool {
    r.num * 100 > pct * r.den
}

fn above_percent(r: Ratio, pct: u128) -> (b: bool)
    requires
        r.wf(),
        pct <= 100,
    ensures
        b == exceeds_percent(r, pct as int),
{
    proof {
        assert(pct * r.den <= 100 * RATIO_DEN_MAX) by (nonlinear_arith)
            requires
                pct <= 100,
                r.den <= RATIO_DEN_MAX,
        ;
    }
    r.num * 100 > pct * r.den
}

/// Flags of one file pair: high similarity when either score exceeds 80%,
/// significant similarity when either exceeds 50%, and a high match of each
/// comparator whose score exceeds 70%.
pub open spec fn file_flags_of(moss: Ratio, rabin_karp: Ratio) -> Seq<SimilarityFlag> {
    let a = if exceeds_percent(moss, 80) || exceeds_percent(rabin_karp, 80) {
        seq![SimilarityFlag::HighSimilarity]
    } else {
        Seq::empty()
    };
    let b = if exceeds_percent(moss, 50) || exceeds_percent(rabin_karp, 50) {
        seq![SimilarityFlag::SignificantSimilarity]
    } else {
        Seq::empty()
    };
    let c = if exceeds_percent(moss, 70) {
        seq![SimilarityFlag::HighMossMatch]
    } else {
        Seq::empty()
    };
    let d = if exceeds_percent(rabin_karp, 70) {
        seq![SimilarityFlag::HighRabinKarpMatch]
    } else {
        Seq::empty()
    };
    a + b + c + d
}

/// Flags of a project pair: very high similarity when both scores exceed
/// 80%, otherwise high similarity when either exceeds 70%; and a significant
/// match of each comparator whose score exceeds 60%.
pub open spec fn overall_flags_of(moss: Ratio, rabin_karp: Ratio) -> Seq<SimilarityFlag> {
    let a = if exceeds_percent(moss, 80) && exceeds_percent(rabin_karp, 80) {
        seq![SimilarityFlag::VeryHighSimilarity]
    } else if exceeds_percent(moss, 70) || exceeds_percent(rabin_karp, 70) {
        seq![SimilarityFlag::HighSimilarity]
    } else {
        Seq::empty()
    };
    let c = if exceeds_percent(moss, 60) {
        seq![SimilarityFlag::SignificantMossMatch]
    } else {
        Seq::empty()
    };
    let d = if exceeds_percent(rabin_karp, 60) {
        seq![SimilarityFlag::SignificantRabinKarpMatch]
    } else {
        Seq::empty()
    };
    a + c + d
}

/// The flags of one file pair, as `file_flags_of` describes them.
pub fn generate_file_flags(moss_score: Ratio, rabin_karp_score: Ratio) -> (r: Vec<SimilarityFlag>)
    requires
        moss_score.wf(),
        rabin_karp_score.wf(),
    ensures
        r@ == file_flags_of(moss_score, rabin_karp_score),
{
    let mut flags: Vec<SimilarityFlag> = Vec::new();
    if above_percent(moss_score, 80) || above_percent(rabin_karp_score, 80) {
        flags.push(SimilarityFlag::HighSimilarity);
    }
    if above_percent(moss_score, 50) || above_percent(rabin_karp_score, 50) {
        flags.push(SimilarityFlag::SignificantSimilarity);
    }
    if above_percent(moss_score, 70) {
        flags.push(SimilarityFlag::HighMossMatch);
    }
    if above_percent(rabin_karp_score, 70) {
        flags.push(SimilarityFlag::HighRabinKarpMatch);
    }
    assert(flags@ =~= file_flags_of(moss_score, rabin_karp_score));
    flags
}

/// The flags of a project pair, as `overall_flags_of` describes them.
pub fn generate_overall_flags(moss_score: Ratio, rabin_karp_score: Ratio) -> (r: Vec<SimilarityFlag>)
    requires
        moss_score.wf(),
        rabin_karp_score.wf(),
    ensures
        r@ == overall_flags_of(moss_score, rabin_karp_score),
{
    let mut flags: Vec<SimilarityFlag> = Vec::new();
    if above_percent(moss_score, 80) && above_percent(rabin_karp_score, 80) {
        flags.push(SimilarityFlag::VeryHighSimilarity);
    } else if above_percent(moss_score, 70) || above_percent(rabin_karp_score, 70) {
        flags.push(SimilarityFlag::HighSimilarity);
    }
    if above_percent(moss_score, 60) {
        flags.push(SimilarityFlag::SignificantMossMatch);
    }
    if above_percent(rabin_karp_score, 60) {
        flags.push(SimilarityFlag::SignificantRabinKarpMatch);
    }
    assert(flags@ =~= overall_flags_of(moss_score, rabin_karp_score));
    flags
}

} // verus!
