//! Exact substring search over bytes with a Rabin–Karp rolling hash.

use vstd::arithmetic::div_mod::{
    lemma_add_mod_noop,
    lemma_mod_add_multiples_vanish,
    lemma_mod_bound,
    lemma_mul_mod_noop_left,
    lemma_mul_mod_noop_right,
    lemma_sub_mod_noop,
};
use vstd::arithmetic::power::pow;
use vstd::prelude::*;

verus! {

/// `Σ s[i] * radix^(len - 1 - i)`, by Horner's rule.
pub open spec fn poly_value(s: Seq<u8>, radix: int) -> int
    decreases s.len(),
{
    if s.len() == 0 {
        0
    } else {
        poly_value(s.drop_last(), radix) * radix + s.last()
    }
}

/// The rolling hash of `s`: its polynomial value modulo `prime`.
pub open spec fn rolling_hash_of(s: Seq<u8>, radix: int, prime: int) -> int {
    poly_value(s, radix) % prime
}

/// The hash of a window after sliding it by one byte: the outgoing byte's
/// weighted contribution removed (by adding `prime` first, so that nothing
/// goes negative), the rest shifted, and the incoming byte folded in.
pub open spec fn rolled_hash(h: int, outgoing: u8, incoming: u8, mult: int, radix: int, prime: int) -> int {
    (((h + prime - (outgoing * mult) % prime) % prime) * radix + incoming) % prime
}

/// A byte in front adds its weight at the top of the polynomial.
proof fn lemma_poly_prepend(a: u8, y: Seq<u8>, radix: int)
    ensures
        poly_value(seq![a] + y, radix) == a * pow(radix, y.len()) + poly_value(y, radix),
    decreases y.len(),
{
    if y.len() == 0 {
        assert(seq![a] + y =~= seq![a]);
        assert(seq![a].drop_last() =~= Seq::<u8>::empty());
        assert(pow(radix, 0) == 1) by {
            reveal(pow);
        }
        assert(poly_value(seq![a], radix) == poly_value(Seq::<u8>::empty(), radix) * radix + a);
    } else {
        let z = y.drop_last();
        assert((seq![a] + y).drop_last() =~= seq![a] + z);
        assert((seq![a] + y).last() == y.last());
        assert(poly_value(seq![a] + y, radix) == poly_value(seq![a] + z, radix) * radix + y.last());
        assert(poly_value(y, radix) == poly_value(z, radix) * radix + y.last());
        lemma_poly_prepend(a, z, radix);
        assert(pow(radix, y.len()) == radix * pow(radix, z.len())) by {
            reveal(pow);
        }
        assert((a * pow(radix, z.len()) + poly_value(z, radix)) * radix + y.last() == a * (radix
            * pow(radix, z.len())) + (poly_value(z, radix) * radix + y.last())) by (nonlinear_arith);
    }
}

/// Sliding a window of `m` bytes of `s` from offset `i` to `i + 1` with the
/// incremental rule gives the hash computed from scratch over the new
/// window.
pub proof fn lemma_rolling_update(s: Seq<u8>, i: int, m: int, radix: int, prime: int)
    requires
        0 <= i,
        1 <= m,
        i + m < s.len(),
        prime > 0,
    ensures
        rolled_hash(
            rolling_hash_of(s.subrange(i, i + m), radix, prime),
            s[i],
            s[i + m],
            pow(radix, (m - 1) as nat) % prime,
            radix,
            prime,
        ) == rolling_hash_of(s.subrange(i + 1, i + m + 1), radix, prime),
{
    let w = s.subrange(i, i + m);
    let mid = s.subrange(i + 1, i + m);
    let next = s.subrange(i + 1, i + m + 1);
    assert(w =~= seq![s[i]] + mid);
    lemma_poly_prepend(s[i], mid, radix);
    assert(next.drop_last() =~= mid);
    let x = poly_value(w, radix);
    let pw = pow(radix, (m - 1) as nat);
    let y = s[i] * pw;
    let h = x % prime;
    let mult = pw % prime;
    // (s[i] * mult) % prime == y % prime
    lemma_mul_mod_noop_right(s[i] as int, pw, prime);
    let z = y % prime;
    lemma_mod_bound(x, prime);
    lemma_mod_bound(y, prime);
    // (h + prime - z) % prime == (h - z) % prime == (x - y) % prime
    lemma_mod_add_multiples_vanish(h - z, prime);
    assert(h + prime - z == prime + (h - z));
    lemma_sub_mod_noop(x, y, prime);
    let d = (x - y) % prime;
    assert((h + prime - z) % prime == d);
    // ((d * radix) + incoming) % prime == ((x - y) * radix + incoming) % prime
    lemma_mul_mod_noop_left(x - y, radix, prime);
    lemma_add_mod_noop(d * radix, s[i + m] as int, prime);
    lemma_add_mod_noop((x - y) * radix, s[i + m] as int, prime);
    assert(poly_value(next, radix) == (x - y) * radix + s[i + m]);
}

/// The rolling hash of `bytes`, computed as `h = (h * radix + byte) mod
/// prime` over every byte; 0 for no bytes.
pub fn rolling_hash(bytes: &[u8], radix: u64, prime: u64) -> (h: u64)
    requires
        prime > 0,
    ensures
        h == rolling_hash_of(bytes@, radix as int, prime as int),
{
    let mut h: u64 = 0;
    let mut i: usize = 0;
    while i < bytes.len()
        invariant
            prime > 0,
            i <= bytes@.len(),
            h == rolling_hash_of(bytes@.subrange(0, i as int), radix as int, prime as int),
        decreases bytes@.len() - i,
    {
        let ghost pre = bytes@.subrange(0, i as int);
        assert(bytes@.subrange(0, i + 1).drop_last() =~= pre);
        proof {
            let v = poly_value(pre, radix as int);
            lemma_mod_bound(v, prime as int);
            lemma_mul_mod_noop_left(v, radix as int, prime as int);
            lemma_add_mod_noop((v % prime as int) * radix, bytes@[i as int] as int, prime as int);
            lemma_add_mod_noop(v * radix, bytes@[i as int] as int, prime as int);
            assert(h * radix <= 0xffff_ffff_ffff_fffe_0000_0000_0000_0001) by (nonlinear_arith)
                requires
                    h < 0x1_0000_0000_0000_0000,
                    radix < 0x1_0000_0000_0000_0000,
            ;
        }
        let next = ((h as u128) * (radix as u128) + (bytes[i] as u128)) % (prime as u128);
        h = next as u64;
        i = i + 1;
    }
    assert(bytes@.subrange(0, i as int) =~= bytes@);
    h
}

/// `radix^e mod prime`.
fn pow_mod(radix: u64, e: usize, prime: u64) -> (r: u64)
    requires
        prime > 0,
    ensures
        r == pow(radix as int, e as nat) % prime as int,
{
    let mut r: u64 = (1 % prime) as u64;
    let mut j: usize = 0;
    proof {
        reveal(pow);
    }
    while j < e
        invariant
            prime > 0,
            j <= e,
            r == pow(radix as int, j as nat) % prime as int,
        decreases e - j,
    {
        proof {
            let pj = pow(radix as int, j as nat);
            assert(pow(radix as int, (j + 1) as nat) == radix * pj) by {
                reveal(pow);
            }
            lemma_mul_mod_noop_left(pj, radix as int, prime as int);
            assert(pj * radix == radix * pj) by (nonlinear_arith);
            lemma_mod_bound(pj, prime as int);
            assert(r * radix <= 0xffff_ffff_ffff_fffe_0000_0000_0000_0001) by (nonlinear_arith)
                requires
                    r < 0x1_0000_0000_0000_0000,
                    radix < 0x1_0000_0000_0000_0000,
            ;
        }
        r = (((r as u128) * (radix as u128)) % (prime as u128)) as u64;
        j = j + 1;
    }
    r
}

/// The hash of the window after the one hashed by `h`, as `rolled_hash`
/// describes it.
fn roll(h: u64, outgoing: u8, incoming: u8, mult: u64, radix: u64, prime: u64) -> (r: u64)
    requires
        prime > 0,
        h < prime,
    ensures
        r == rolled_hash(h as int, outgoing, incoming, mult as int, radix as int, prime as int),
        r < prime,
{
    let p = prime as u128;
    proof {
        assert((outgoing as u128) * (mult as u128) <= 0xff * 0xffff_ffff_ffff_ffff) by (nonlinear_arith)
            requires
                outgoing <= 0xff,
                mult <= 0xffff_ffff_ffff_ffff,
        ;
    }
    let removed = ((outgoing as u128) * (mult as u128)) % p;
    let kept = ((h as u128) + p - removed) % p;
    proof {
        assert(kept * radix <= 0xffff_ffff_ffff_fffe_0000_0000_0000_0001) by (nonlinear_arith)
            requires
                kept < 0x1_0000_0000_0000_0000,
                radix < 0x1_0000_0000_0000_0000,
        ;
    }
    ((kept * (radix as u128) + (incoming as u128)) % p) as u64
}

/// `pattern` occurs in `text` at offset `i`.
pub open spec fn is_occurrence(text: Seq<u8>, pattern: Seq<u8>, i: int) -> bool {
    &&& pattern.len() > 0
    &&& 0 <= i
    &&& i + pattern.len() <= text.len()
    &&& text.subrange(i, i + pattern.len()) == pattern
}

/// Whether `pattern` occurs in `text` at offset `i`, byte by byte.
fn occurs_at(text: &[u8], pattern: &[u8], i: usize) -> (r: bool)
    requires
        i + pattern@.len() <= text@.len(),
    ensures
        r == (text@.subrange(i as int, i + pattern@.len()) == pattern@),
{
    let tl = text.len();
    let mut k: usize = 0;
    while k < pattern.len()
        invariant
            tl == text@.len(),
            i + pattern@.len() <= text@.len(),
            k <= pattern@.len(),
            text@.subrange(i as int, i + k) == pattern@.subrange(0, k as int),
        decreases pattern@.len() - k,
    {
        if text[i + k] != pattern[k] {
            proof {
                if text@.subrange(i as int, i + pattern@.len()) == pattern@ {
                    assert(text@.subrange(i as int, i + pattern@.len())[k as int] == text@[i + k]);
                }
            }
            return false;
        }
        assert(text@.subrange(i as int, i + k + 1) =~= text@.subrange(i as int, i + k).push(text@[i + k]));
        assert(pattern@.subrange(0, k + 1) =~= pattern@.subrange(0, k as int).push(pattern@[k as int]));
        k = k + 1;
    }
    assert(pattern@.subrange(0, k as int) =~= pattern@);
    true
}

/// Every offset at which `pattern` occurs in `text`, in increasing order.
/// Each window's rolling hash is compared with the pattern's first, and a
/// match is then confirmed byte by byte. An empty pattern, an empty text or
/// a pattern longer than the text gives no offsets.
pub fn rabin_karp_search(text: &[u8], pattern: &[u8], radix: u64, prime: u64) -> (r: Vec<usize>)
    requires
        prime > 0,
    ensures
        forall|i: int| 0 <= i < r@.len() ==> is_occurrence(text@, pattern@, #[trigger] r@[i] as int),
        forall|i: int| is_occurrence(text@, pattern@, i) ==> r@.contains(i as usize),
        forall|a: int, b: int| 0 <= a < b < r@.len() ==> #[trigger] r@[a] < #[trigger] r@[b],
{
    let mut r: Vec<usize> = Vec::new();
    let n = text.len();
    let m = pattern.len();
    if m == 0 || n == 0 || m > n {
        return r;
    }
    let mult = pow_mod(radix, m - 1, prime);
    let target = rolling_hash(pattern, radix, prime);
    let mut h = rolling_hash(&text[0..m], radix, prime);
    let last = n - m;
    let mut i: usize = 0;
    proof {
        lemma_mod_bound(poly_value(text@.subrange(0, m as int), radix as int), prime as int);
    }
    while i <= last
        invariant
            prime > 0,
            n == text@.len(),
            m == pattern@.len(),
            0 < m <= n,
            last == n - m,
            i <= last + 1,
            mult == pow(radix as int, (m - 1) as nat) % prime as int,
            target == rolling_hash_of(pattern@, radix as int, prime as int),
            i <= last ==> h == rolling_hash_of(text@.subrange(i as int, i + m), radix as int, prime as int),
            h < prime,
            forall|k: int| 0 <= k < r@.len() ==> is_occurrence(text@, pattern@, #[trigger] r@[k] as int),
            forall|k: int| 0 <= k < r@.len() ==> #[trigger] r@[k] < i,
            forall|j: int| 0 <= j < i && is_occurrence(text@, pattern@, j) ==> r@.contains(j as usize),
            forall|a: int, b: int| 0 <= a < b < r@.len() ==> #[trigger] r@[a] < #[trigger] r@[b],
        decreases last + 1 - i,
    {
        let ghost before = r@;
        if h == target && occurs_at(text, pattern, i) {
            r.push(i);
            proof {
                assert(r@[r@.len() - 1] == i);
                assert forall|j: int| 0 <= j < i + 1 && is_occurrence(text@, pattern@, j) implies r@.contains(j as usize) by {
                    if j < i {
                        let k = choose|k: int| 0 <= k < before.len() && before[k] == j as usize;
                        assert(r@[k] == j as usize);
                    } else {
                        assert(r@[r@.len() - 1] == j as usize);
                    }
                }
            }
        } else {
            proof {
                if is_occurrence(text@, pattern@, i as int) {
                    assert(text@.subrange(i as int, i + m) == pattern@);
                }
            }
        }
        if i < last {
            proof {
                lemma_rolling_update(text@, i as int, m as int, radix as int, prime as int);
            }
            h = roll(h, text[i], text[i + m], mult, radix, prime);
        }
        i = i + 1;
    }
    r
}

} // verus!
