//! Set operations on hash sets, each with the set it computes as its contract.

use vstd::prelude::*;
use std::collections::HashMap;
use std::collections::HashSet;
use std::hash::Hash;
use vstd::seq_lib::seq_to_set_is_finite;
use vstd::std_specs::hash::obeys_key_model;
use vstd::std_specs::hash::spec_hash_keys_iter;
use vstd::std_specs::iter::IteratorSpec;
use crate::enumeration::lemma_push_to_set;

verus! {

broadcast use vstd::std_specs::hash::group_hash_axioms;

/// The values among the first `n` entries of `s`.
pub open spec fn prefix_set<Id>(s: Seq<&Id>, n: int) -> Set<Id> {
    Set::new(|v: Id| exists|i: int| 0 <= i < n && i < s.len() && *s[i] == v)
}

/// Before the first entry there is no value.
pub broadcast proof fn lemma_prefix_set_empty<Id>(s: Seq<&Id>)
    ensures
        #[trigger] prefix_set(s, 0) == Set::<Id>::empty(),
{
}

/// After the last entry the values are those of the whole sequence.
pub broadcast proof fn lemma_prefix_set_full<Id>(s: Seq<&Id>)
    ensures
        #[trigger] prefix_set(s, s.len() as int) == s.unref().to_set(),
{
    assert forall|v: Id| prefix_set(s, s.len() as int).contains(v) implies s.unref().to_set().contains(
        v,
    ) by {
        let i = choose|i: int| 0 <= i < s.len() && *s[i] == v;
        assert(s.unref()[i] == v);
    }
}

/// One more entry adds one value to the prefix set; without repetitions in
/// `s` the value is new.
pub proof fn lemma_prefix_set_step<Id>(s: Seq<&Id>, n: int)
    requires
        0 <= n < s.len(),
    ensures
        prefix_set(s, n + 1) == prefix_set(s, n).insert(*s[n]),
        prefix_set(s, n).finite(),
        prefix_set(s, n).len() <= n,
        s.no_duplicates() ==> !prefix_set(s, n).contains(*s[n]) && prefix_set(s, n).len() == n,
    decreases n,
{
    if n == 0 {
        assert(prefix_set(s, 0) =~= Set::<Id>::empty());
    } else {
        lemma_prefix_set_step(s, n - 1);
    }
    if s.no_duplicates() && prefix_set(s, n).contains(*s[n]) {
        let i = choose|i: int| 0 <= i < n && i < s.len() && *s[i] == *s[n];
        assert(s[i] == s[n]);
    }
}

/// Every entry of a sequence is among its values.
pub proof fn lemma_entry_in_set<Id>(s: Seq<&Id>, n: int)
    requires
        0 <= n < s.len(),
    ensures
        s.unref().to_set().contains(*s[n]),
{
    assert(s.unref()[n] == *s[n]);
}

/// A hash set holds finitely many values.
pub proof fn lemma_hash_set_finite<Id>(s: &HashSet<Id>)
    ensures
        s@.finite(),
{
    let q = spec_hash_keys_iter(s).remaining();
    seq_to_set_is_finite(q.unref());
}

/// A copy of `s`.
pub fn copy_set<Id: Copy + Eq + Hash>(s: &HashSet<Id>) -> (r: HashSet<Id>)
    requires
        obeys_key_model::<Id>(),
    ensures
        r@ == s@,
{
    broadcast use {lemma_prefix_set_full, lemma_prefix_set_empty};

    let mut r: HashSet<Id> = HashSet::new();
    for k in it: s.iter()
        invariant
            obeys_key_model::<Id>(),
            it.seq().unref().to_set() == s@,
            r@ == prefix_set(it.seq(), it.index()),
    {
        proof {
            lemma_prefix_set_step(it.seq(), it.index());
        }
        r.insert(*k);
    }
    r
}

/// The keys of `m`.
pub fn key_set<Id: Copy + Eq + Hash, V>(m: &HashMap<Id, V>) -> (r: HashSet<Id>)
    requires
        obeys_key_model::<Id>(),
    ensures
        r@ == m@.dom(),
{
    broadcast use {lemma_prefix_set_full, lemma_prefix_set_empty};

    let mut r: HashSet<Id> = HashSet::new();
    for k in it: m.keys()
        invariant
            obeys_key_model::<Id>(),
            it.seq().unref().to_set() == m@.dom(),
            r@ == prefix_set(it.seq(), it.index()),
    {
        proof {
            lemma_prefix_set_step(it.seq(), it.index());
        }
        r.insert(*k);
    }
    r
}

/// The values that `a` and `b` share. The smaller set is walked and the
/// larger one asked.
pub fn intersection<Id: Copy + Eq + Hash>(a: &HashSet<Id>, b: &HashSet<Id>) -> (r: HashSet<Id>)
    requires
        obeys_key_model::<Id>(),
    ensures
        r@ == a@.intersect(b@),
{
    if a.len() <= b.len() {
        shared_values(a, b)
    } else {
        let r = shared_values(b, a);
        r
    }
}

/// The values of `walked` that `asked` holds too.
fn shared_values<Id: Copy + Eq + Hash>(walked: &HashSet<Id>, asked: &HashSet<Id>) -> (r: HashSet<Id>)
    requires
        obeys_key_model::<Id>(),
    ensures
        r@ == walked@.intersect(asked@),
{
    broadcast use {lemma_prefix_set_full, lemma_prefix_set_empty};

    let mut r: HashSet<Id> = HashSet::new();
    for k in it: walked.iter()
        invariant
            obeys_key_model::<Id>(),
            it.seq().unref().to_set() == walked@,
            r@ =~= prefix_set(it.seq(), it.index()).intersect(asked@),
    {
        proof {
            lemma_prefix_set_step(it.seq(), it.index());
        }
        if asked.contains(k) {
            r.insert(*k);
        }
    }
    r
}

/// The values of `a` that `b` lacks, each once.
pub fn difference<Id: Copy + Eq + Hash>(a: &HashSet<Id>, b: &HashSet<Id>) -> (r: Vec<Id>)
    requires
        obeys_key_model::<Id>(),
    ensures
        r@.no_duplicates(),
        r@.to_set() == a@.difference(b@),
{
    broadcast use {lemma_prefix_set_full, lemma_prefix_set_empty};

    let mut r: Vec<Id> = Vec::new();
    for k in it: a.iter()
        invariant
            obeys_key_model::<Id>(),
            it.seq().unref().to_set() == a@,
            it.seq().no_duplicates(),
            r@.no_duplicates(),
            r@.to_set() =~= prefix_set(it.seq(), it.index()).difference(b@),
    {
        proof {
            lemma_prefix_set_step(it.seq(), it.index());
        }
        if !b.contains(k) {
            proof {
                lemma_push_to_set(r@, *k);
            }
            r.push(*k);
        }
    }
    r
}

/// Whether `a` and `b` share no value. The smaller set is walked and the
/// larger one asked.
pub fn is_disjoint<Id: Copy + Eq + Hash>(a: &HashSet<Id>, b: &HashSet<Id>) -> (r: bool)
    requires
        obeys_key_model::<Id>(),
    ensures
        r == a@.disjoint(b@),
{
    if a.len() <= b.len() {
        shares_none(a, b)
    } else {
        shares_none(b, a)
    }
}

/// Whether `asked` holds no value of `walked`.
fn shares_none<Id: Copy + Eq + Hash>(walked: &HashSet<Id>, asked: &HashSet<Id>) -> (r: bool)
    requires
        obeys_key_model::<Id>(),
    ensures
        r == walked@.disjoint(asked@),
{
    broadcast use {lemma_prefix_set_full, lemma_prefix_set_empty};

    for k in it: walked.iter()
        invariant
            obeys_key_model::<Id>(),
            it.seq().unref().to_set() == walked@,
            prefix_set(it.seq(), it.index()).disjoint(asked@),
    {
        proof {
            lemma_prefix_set_step(it.seq(), it.index());
        }
        if asked.contains(k) {
            proof {
                lemma_entry_in_set(it.seq(), it.index());
            }
            return false;
        }
    }
    true
}

/// Adds every value of `source` to `target`.
pub fn insert_all<Id: Copy + Eq + Hash>(target: &mut HashSet<Id>, source: &HashSet<Id>)
    requires
        obeys_key_model::<Id>(),
    ensures
        final(target)@ == old(target)@.union(source@),
{
    broadcast use {lemma_prefix_set_full, lemma_prefix_set_empty};

    for k in it: source.iter()
        invariant
            obeys_key_model::<Id>(),
            it.seq().unref().to_set() == source@,
            target@ =~= old(target)@.union(prefix_set(it.seq(), it.index())),
    {
        proof {
            lemma_prefix_set_step(it.seq(), it.index());
        }
        target.insert(*k);
    }
}

} // verus!
