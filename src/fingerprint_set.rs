//! Finite sets of fingerprints. Each set keeps a hash table for lookups and,
//! beside it, its distinct members in insertion order, so that it can be
//! walked and counted without depending on the table's iteration order.

use rustc_hash::{FxBuildHasher, FxHashSet};
use std::collections::HashSet;
use vstd::prelude::*;

verus! {

broadcast use vstd::std_specs::hash::group_hash_axioms;

#[verifier::external_type_specification]
#[verifier::external_body]
pub struct ExFxBuildHasher(FxBuildHasher);

/// Relies on `HashSet::insert` over rustc_hash's `FxBuildHasher`: the key is
/// added, and the result says whether it was absent before.
#[verifier::external_body]
fn fx_insert_pair(s: &mut FxHashSet<(u64, usize)>, k: (u64, usize)) -> (fresh: bool)
    ensures
        final(s)@ == old(s)@.insert(k),
        fresh == !old(s)@.contains(k),
{
    s.insert(k)
}

/// Relies on `HashSet::contains` over rustc_hash's `FxBuildHasher`.
#[verifier::external_body]
fn fx_contains_pair(s: &FxHashSet<(u64, usize)>, k: &(u64, usize)) -> (found: bool)
    ensures
        found == s@.contains(*k),
{
    s.contains(k)
}

/// Adding the element at `i` of a duplicate-free sequence to the set of the
/// elements before it adds a new member, and the intersection with any set
/// grows by that member exactly when the other set holds it.
proof fn lemma_prefix_step<A>(s: Seq<A>, i: int, other: Set<A>)
    requires
        s.no_duplicates(),
        0 <= i < s.len(),
    ensures
        s.subrange(0, i + 1).to_set() == s.subrange(0, i).to_set().insert(s[i]),
        !s.subrange(0, i).to_set().contains(s[i]),
        s.subrange(0, i).to_set().finite(),
        other.contains(s[i]) ==> s.subrange(0, i + 1).to_set().intersect(other) == s.subrange(
            0,
            i,
        ).to_set().intersect(other).insert(s[i]),
        !other.contains(s[i]) ==> s.subrange(0, i + 1).to_set().intersect(other) == s.subrange(
            0,
            i,
        ).to_set().intersect(other),
{
    broadcast use vstd::seq_lib::seq_to_set_is_finite;

    let pre = s.subrange(0, i);
    assert(s.subrange(0, i + 1) =~= pre.push(s[i]));
    pre.lemma_push_to_set_commute(s[i]);
    if pre.to_set().contains(s[i]) {
        let j = choose|j: int| 0 <= j < pre.len() && pre[j] == s[i];
        assert(s[j] == s[i]);
    }
    if other.contains(s[i]) {
        assert(s.subrange(0, i + 1).to_set().intersect(other) =~= pre.to_set().intersect(
            other,
        ).insert(s[i]));
    } else {
        assert(s.subrange(0, i + 1).to_set().intersect(other) =~= pre.to_set().intersect(other));
    }
}

/// The members that a sequence shares with any set form a finite set.
proof fn lemma_intersect_len_finite<A>(s: Seq<A>, other: Set<A>)
    ensures
        s.to_set().intersect(other).finite(),
{
    broadcast use vstd::seq_lib::seq_to_set_is_finite;

    vstd::set_lib::lemma_len_intersect(s.to_set(), other);
}

/// A finite set of `(hash, position)` fingerprints.
pub struct PairSet {
    lookup: FxHashSet<(u64, usize)>,
    items: Vec<(u64, usize)>,
}

impl PairSet {
    pub closed spec fn view(&self) -> Set<(u64, usize)> {
        self.items@.to_set()
    }

    /// The lookup table and the list hold the same members, each listed once.
    pub closed spec fn wf(&self) -> bool {
        &&& self.items@.no_duplicates()
        &&& self.lookup@ == self.items@.to_set()
    }

    pub fn new() -> (r: Self)
        ensures
            r.wf(),
            r@ == Set::<(u64, usize)>::empty(),
    {
        let r = PairSet { lookup: FxHashSet::default(), items: Vec::new() };
        assert(r.items@.to_set() =~= Set::empty());
        r
    }

    pub fn insert(&mut self, k: (u64, usize))
        requires
            old(self).wf(),
        ensures
            final(self).wf(),
            final(self)@ == old(self)@.insert(k),
    {
        let ghost pre = self.items@;
        let fresh = fx_insert_pair(&mut self.lookup, k);
        if fresh {
            self.items.push(k);
            proof {
                pre.lemma_push_to_set_commute(k);
                assert forall|a: int, b: int|
                    0 <= a < b < self.items@.len() implies self.items@[a] != self.items@[b] by {
                    if b == pre.len() {
                        assert(pre.to_set().contains(pre[a]));
                    }
                }
            }
        } else {
            assert(pre.to_set().insert(k) =~= pre.to_set());
        }
    }

    pub fn contains(&self, k: &(u64, usize)) -> (found: bool)
        requires
            self.wf(),
        ensures
            found == self@.contains(*k),
    {
        fx_contains_pair(&self.lookup, k)
    }

    pub fn len(&self) -> (n: usize)
        requires
            self.wf(),
        ensures
            n == self@.len(),
            self@.finite(),
    {
        proof {
            self.items@.unique_seq_to_set();
            vstd::seq_lib::seq_to_set_is_finite(self.items@);
        }
        self.items.len()
    }

    /// The number of members that both sets hold.
    pub fn intersection_len(&self, other: &PairSet) -> (n: usize)
        requires
            self.wf(),
            other.wf(),
        ensures
            n == self@.intersect(other@).len(),
            n <= self@.len(),
    {
        let mut n: usize = 0;
        let mut i: usize = 0;
        assert(self.items@.subrange(0, 0).to_set().intersect(other@) =~= Set::empty());
        while i < self.items.len()
            invariant
                self.wf(),
                other.wf(),
                i <= self.items@.len(),
                n <= i,
                n == self.items@.subrange(0, i as int).to_set().intersect(other@).len(),
            decreases self.items@.len() - i,
        {
            let k = self.items[i];
            proof {
                lemma_prefix_step(self.items@, i as int, other@);
                lemma_intersect_len_finite(self.items@.subrange(0, i as int), other@);
            }
            if other.contains(&k) {
                n = n + 1;
            }
            i = i + 1;
        }
        proof {
            assert(self.items@.subrange(0, i as int) =~= self.items@);
            self.items@.unique_seq_to_set();
            vstd::set_lib::lemma_len_intersect(self@, other@);
            vstd::seq_lib::seq_to_set_is_finite(self.items@);
        }
        n
    }

    /// The distinct members, in the order in which they were first inserted.
    pub fn to_vec(&self) -> (v: Vec<(u64, usize)>)
        requires
            self.wf(),
        ensures
            v@.to_set() == self@,
            v@.no_duplicates(),
    {
        let mut v: Vec<(u64, usize)> = Vec::new();
        let mut i: usize = 0;
        while i < self.items.len()
            invariant
                i <= self.items@.len(),
                v@ == self.items@.subrange(0, i as int),
            decreases self.items@.len() - i,
        {
            v.push(self.items[i]);
            i = i + 1;
            assert(v@ =~= self.items@.subrange(0, i as int));
        }
        assert(v@ =~= self.items@);
        v
    }
}

/// A finite set of hash values, used where positions have been dropped.
pub struct HashValueSet {
    lookup: HashSet<u64>,
    items: Vec<u64>,
}

impl HashValueSet {
    pub closed spec fn view(&self) -> Set<u64> {
        self.items@.to_set()
    }

    /// The lookup table and the list hold the same members, each listed once.
    pub closed spec fn wf(&self) -> bool {
        &&& self.items@.no_duplicates()
        &&& self.lookup@ == self.items@.to_set()
    }

    pub fn new() -> (r: Self)
        ensures
            r.wf(),
            r@ == Set::<u64>::empty(),
    {
        let r = HashValueSet { lookup: HashSet::new(), items: Vec::new() };
        assert(r.items@.to_set() =~= Set::empty());
        r
    }

    pub fn insert(&mut self, k: u64)
        requires
            old(self).wf(),
        ensures
            final(self).wf(),
            final(self)@ == old(self)@.insert(k),
    {
        let ghost pre = self.items@;
        let fresh = self.lookup.insert(k);
        if fresh {
            self.items.push(k);
            proof {
                pre.lemma_push_to_set_commute(k);
                assert forall|a: int, b: int|
                    0 <= a < b < self.items@.len() implies self.items@[a] != self.items@[b] by {
                    if b == pre.len() {
                        assert(pre.to_set().contains(pre[a]));
                    }
                }
            }
        } else {
            assert(pre.to_set().insert(k) =~= pre.to_set());
        }
    }

    pub fn contains(&self, k: &u64) -> (found: bool)
        requires
            self.wf(),
        ensures
            found == self@.contains(*k),
    {
        self.lookup.contains(k)
    }

    pub fn len(&self) -> (n: usize)
        requires
            self.wf(),
        ensures
            n == self@.len(),
            self@.finite(),
    {
        proof {
            self.items@.unique_seq_to_set();
            vstd::seq_lib::seq_to_set_is_finite(self.items@);
        }
        self.items.len()
    }

    /// The number of members that both sets hold.
    pub fn intersection_len(&self, other: &HashValueSet) -> (n: usize)
        requires
            self.wf(),
            other.wf(),
        ensures
            n == self@.intersect(other@).len(),
            n <= self@.len(),
    {
        let mut n: usize = 0;
        let mut i: usize = 0;
        assert(self.items@.subrange(0, 0).to_set().intersect(other@) =~= Set::empty());
        while i < self.items.len()
            invariant
                self.wf(),
                other.wf(),
                i <= self.items@.len(),
                n <= i,
                n == self.items@.subrange(0, i as int).to_set().intersect(other@).len(),
            decreases self.items@.len() - i,
        {
            let k = self.items[i];
            proof {
                lemma_prefix_step(self.items@, i as int, other@);
                lemma_intersect_len_finite(self.items@.subrange(0, i as int), other@);
            }
            if other.contains(&k) {
                n = n + 1;
            }
            i = i + 1;
        }
        proof {
            assert(self.items@.subrange(0, i as int) =~= self.items@);
            self.items@.unique_seq_to_set();
            vstd::set_lib::lemma_len_intersect(self@, other@);
            vstd::seq_lib::seq_to_set_is_finite(self.items@);
        }
        n
    }

    /// The distinct members, in the order in which they were first inserted.
    pub fn to_vec(&self) -> (v: Vec<u64>)
        requires
            self.wf(),
        ensures
            v@.to_set() == self@,
            v@.no_duplicates(),
    {
        let mut v: Vec<u64> = Vec::new();
        let mut i: usize = 0;
        while i < self.items.len()
            invariant
                i <= self.items@.len(),
                v@ == self.items@.subrange(0, i as int),
            decreases self.items@.len() - i,
        {
            v.push(self.items[i]);
            i = i + 1;
            assert(v@ =~= self.items@.subrange(0, i as int));
        }
        assert(v@ =~= self.items@);
        v
    }
}

} // verus!
