//! Lists that hold each member of a set once.

use vstd::prelude::*;
use std::collections::HashSet;

verus! {

/// The vertex sets that a list of hash sets stands for, in order.
pub open spec fn set_views<Id>(list: Seq<HashSet<Id>>) -> Seq<Set<Id>> {
    Seq::new(list.len(), |i: int| list[i]@)
}

/// `list` holds each member of `all` once and nothing else.
pub open spec fn enumerates<A>(list: Seq<A>, all: Set<A>) -> bool {
    &&& list.no_duplicates()
    &&& list.to_set() == all
}

/// Pushing a value adds it to the set of a sequence's values, and keeps the
/// sequence free of repetitions if the value is new.
pub proof fn lemma_push_to_set<Id>(s: Seq<Id>, v: Id)
    ensures
        s.push(v).to_set() == s.to_set().insert(v),
        s.no_duplicates() && !s.to_set().contains(v) ==> s.push(v).no_duplicates(),
{
    assert forall|w: Id| s.push(v).to_set().contains(w) <==> s.to_set().insert(v).contains(w) by {
        if s.push(v).to_set().contains(w) {
            let i = choose|i: int| 0 <= i < s.push(v).len() && s.push(v)[i] == w;
            if i < s.len() {
                assert(s[i] == w);
            }
        }
        if s.to_set().insert(v).contains(w) {
            if w == v {
                assert(s.push(v)[s.len() as int] == w);
            } else {
                let i = choose|i: int| 0 <= i < s.len() && s[i] == w;
                assert(s.push(v)[i] == w);
            }
        }
    }
}

/// Picking from a list without repetitions the members with a property
/// enumerates the members of the list with that property.
pub proof fn lemma_filter_enumerates<A>(list: Seq<A>, pred: spec_fn(A) -> bool)
    requires
        list.no_duplicates(),
    ensures
        enumerates(list.filter(pred), list.to_set().filter(pred)),
    decreases list.len(),
{
    if list.len() == 0 {
        assert(list =~= Seq::<A>::empty());
        assert(Seq::<A>::empty().filter(pred) =~= Seq::<A>::empty()) by {
            reveal(Seq::filter);
        }
        assert(list.to_set().filter(pred) =~= Set::<A>::empty());
        assert(Seq::<A>::empty().to_set() =~= Set::<A>::empty());
    } else {
        let rest = list.drop_last();
        let last = list.last();
        assert(list =~= rest.push(last));
        lemma_filter_enumerates(rest, pred);
        rest.lemma_filter_push(last, pred);
        lemma_push_to_set(rest, last);
        lemma_push_to_set(rest.filter(pred), last);
        if rest.to_set().contains(last) {
            let j = choose|j: int| 0 <= j < rest.len() && rest[j] == last;
            assert(list[j] == list[list.len() - 1]);
        }
        if pred(last) {
            assert(list.to_set().filter(pred) =~= rest.to_set().filter(pred).insert(last));
        } else {
            assert(list.to_set().filter(pred) =~= rest.to_set().filter(pred));
        }
    }
}

/// Two lists that enumerate sets without a common member enumerate, one
/// after the other, the union of the two sets.
pub proof fn lemma_enumerates_concat<A>(a: Seq<A>, sa: Set<A>, b: Seq<A>, sb: Set<A>)
    requires
        enumerates(a, sa),
        enumerates(b, sb),
        sa.disjoint(sb),
    ensures
        enumerates(a + b, sa.union(sb)),
{
    let ab = a + b;
    assert forall|i: int, j: int| 0 <= i < ab.len() && 0 <= j < ab.len() && i != j implies ab[i] != ab[j] by {
        if j < a.len() {
            assert(a.to_set().contains(a[j]));
        } else {
            assert(b.to_set().contains(b[j - a.len()]));
        }
    }
    assert forall|c: A| ab.to_set().contains(c) <==> sa.union(sb).contains(c) by {
        if ab.to_set().contains(c) {
            let i = choose|i: int| 0 <= i < ab.len() && ab[i] == c;
            if i < a.len() {
                assert(a.to_set().contains(a[i]));
            } else {
                assert(b.to_set().contains(b[i - a.len()]));
            }
        }
        if sa.contains(c) {
            let i = choose|i: int| 0 <= i < a.len() && a[i] == c;
            assert(ab[i] == c);
        }
        if sb.contains(c) {
            let i = choose|i: int| 0 <= i < b.len() && b[i] == c;
            assert(ab[a.len() + i] == c);
        }
    }
    assert(ab.to_set() =~= sa.union(sb));
}

/// A finite set with two distinct members has at least two members.
pub proof fn lemma_two_members<Id>(c: Set<Id>, a: Id, b: Id)
    requires
        c.finite(),
        c.contains(a),
        c.contains(b),
        a != b,
    ensures
        c.len() >= 2,
{
    assert(c.remove(a).len() >= 1) by {
        if c.remove(a).len() == 0 {
            c.remove(a).lemma_len0_is_empty();
        }
    }
}

} // verus!
