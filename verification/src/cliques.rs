//! Enumeration of maximal cliques by the Bron-Kerbosch algorithm with pivoting.

use vstd::prelude::*;
use std::collections::HashMap;
use std::collections::HashSet;
use std::hash::Hash;
use vstd::std_specs::hash::obeys_key_model;
use crate::enumeration::{enumerates, lemma_enumerates_concat, lemma_push_to_set, set_views};
use crate::graph::{
    adjacent, extends, extensions, graph_view, is_clique, is_maximal_clique, maximal_cliques,
    neighbours, proper, undirected,
};
use crate::sets::{
    copy_set, difference, intersection, key_set, lemma_hash_set_finite, lemma_prefix_set_empty,
    lemma_prefix_set_full, lemma_prefix_set_step, prefix_set,
};

verus! {

broadcast use vstd::std_specs::hash::group_hash_axioms;

/// How many neighbours of `w` lie in `among`.
pub open spec fn pivot_score<Id>(g: Map<Id, Set<Id>>, among: Set<Id>, w: Id) -> nat {
    neighbours(g, w).intersect(among).len()
}

/// `u` is a member of `among` with the most neighbours in it.
pub open spec fn is_best_pivot<Id>(g: Map<Id, Set<Id>>, among: Set<Id>, u: Id) -> bool {
    &&& among.contains(u)
    &&& forall|w: Id| among.contains(w) ==> #[trigger] pivot_score(g, among, w) <= pivot_score(g, among, u)
}

/// A step of the search is in order: `r` is a clique, and `p` and `x` divide
/// between them the vertices by which `r` could grow.
pub open spec fn search_state<Id>(g: Map<Id, Set<Id>>, r: Set<Id>, p: Set<Id>, x: Set<Id>) -> bool {
    &&& undirected(g)
    &&& g.dom().finite()
    &&& is_clique(g, r)
    &&& p.disjoint(x)
    &&& p.union(x) == extensions(g, r)
}

/// What a step of the search reports: the maximal cliques that hold all of
/// `r` and, beyond `r`, only vertices of `p`.
pub open spec fn search_goal<Id>(g: Map<Id, Set<Id>>, r: Set<Id>, p: Set<Id>) -> Set<Set<Id>> {
    Set::new(|c: Set<Id>| is_maximal_clique(g, c) && r.subset_of(c) && c.subset_of(r.union(p)))
}

/// With nothing left to add and nothing excluded, `r` itself is the one
/// clique to report; with something excluded, there is none.
pub proof fn lemma_search_leaf<Id>(g: Map<Id, Set<Id>>, r: Set<Id>, x: Set<Id>)
    requires
        search_state(g, r, Set::empty(), x),
    ensures
        x == Set::<Id>::empty() ==> search_goal(g, r, Set::empty()) == Set::<Set<Id>>::empty().insert(r),
        x != Set::<Id>::empty() ==> search_goal(g, r, Set::empty()) == Set::<Set<Id>>::empty(),
{
    let goal = search_goal(g, r, Set::empty());
    assert forall|c: Set<Id>| goal.contains(c) implies c == r by {}
    if x == Set::<Id>::empty() {
        assert forall|w: Id| !extends(g, r, w) by {
            assert(!extensions(g, r).contains(w));
        }
    } else {
        assert(exists|w: Id| x.contains(w)) by {
            if forall|w: Id| !x.contains(w) {
                assert(x =~= Set::<Id>::empty());
            }
        }
        let w = choose|w: Id| x.contains(w);
        assert(extensions(g, r).contains(w));
    }
}

/// Branching on a vertex `v` of `p`: the step for `r` with `v` is in order,
/// it reports the cliques of this step that hold `v`, and the others are
/// left for the step that has `v` moved from `p` to `x`.
pub proof fn lemma_search_branch<Id>(g: Map<Id, Set<Id>>, r: Set<Id>, p: Set<Id>, x: Set<Id>, v: Id)
    requires
        search_state(g, r, p, x),
        p.contains(v),
    ensures
        search_state(
            g,
            r.insert(v),
            p.intersect(neighbours(g, v)),
            x.intersect(neighbours(g, v)),
        ),
        search_state(g, r, p.remove(v), x.insert(v)),
        search_goal(g, r.insert(v), p.intersect(neighbours(g, v))).disjoint(
            search_goal(g, r, p.remove(v)),
        ),
        search_goal(g, r, p) == search_goal(g, r.insert(v), p.intersect(neighbours(g, v))).union(
            search_goal(g, r, p.remove(v)),
        ),
{
    let nv = neighbours(g, v);
    let r_grown = r.insert(v);
    let p_kept = p.intersect(nv);
    let x_kept = x.intersect(nv);
    assert(extensions(g, r).contains(v));
    // r with v is a clique
    assert forall|a: Id, b: Id| r_grown.contains(a) && r_grown.contains(b) && a != b implies adjacent(
        g,
        a,
        b,
    ) by {
        if a == v {
            assert(adjacent(g, b, v));
        }
    }
    // what is left of p and x is what extends r with v
    assert forall|w: Id| p_kept.union(x_kept).contains(w) <==> extensions(g, r_grown).contains(w) by {
        if p_kept.union(x_kept).contains(w) {
            assert(p.union(x).contains(w));
            assert forall|a: Id| r_grown.contains(a) implies adjacent(g, a, w) by {}
        }
        if extensions(g, r_grown).contains(w) {
            assert(adjacent(g, v, w));
            assert(p.union(x).contains(w));
        }
    }
    assert(p_kept.union(x_kept) =~= extensions(g, r_grown));
    assert(p.remove(v).union(x.insert(v)) =~= p.union(x));
    // the cliques to report divide by whether they hold v
    let with_v = search_goal(g, r_grown, p_kept);
    let without_v = search_goal(g, r, p.remove(v));
    assert forall|c: Set<Id>| search_goal(g, r, p).contains(c) <==> with_v.union(without_v).contains(c) by {
        if search_goal(g, r, p).contains(c) {
            if c.contains(v) {
                assert forall|w: Id| c.contains(w) implies r_grown.union(p_kept).contains(w) by {
                    if w != v && !r.contains(w) {
                        assert(adjacent(g, v, w));
                    }
                }
            }
        }
        if with_v.contains(c) {
            assert(c.subset_of(r.union(p)));
        }
    }
    assert forall|c: Set<Id>| !(with_v.contains(c) && without_v.contains(c)) by {}
}

/// A vertex `u` of `p` or `x` prunes the branches: every clique to report
/// holds a vertex of `p` that is no neighbour of `u`.
pub proof fn lemma_search_pivot<Id>(g: Map<Id, Set<Id>>, r: Set<Id>, p: Set<Id>, x: Set<Id>, u: Id)
    requires
        search_state(g, r, p, x),
        p.union(x).contains(u),
    ensures
        search_goal(g, r, p.intersect(neighbours(g, u))) == Set::<Set<Id>>::empty(),
{
    let pruned = p.intersect(neighbours(g, u));
    assert forall|c: Set<Id>| !search_goal(g, r, pruned).contains(c) by {
        if search_goal(g, r, pruned).contains(c) {
            assert forall|a: Id| c.contains(a) implies adjacent(g, a, u) by {
                if !r.contains(a) {
                    assert(adjacent(g, u, a));
                }
            }
            assert(extends(g, c, u));
        }
    }
}

/// Branching on a vertex that the best pivot does not have as a neighbour
/// leaves fewer vertices than before, whatever the graph.
pub proof fn lemma_branch_shrinks<Id>(g: Map<Id, Set<Id>>, among: Set<Id>, u: Id, v: Id)
    requires
        among.finite(),
        is_best_pivot(g, among, u),
        among.contains(v),
        !neighbours(g, u).contains(v),
    ensures
        among.intersect(neighbours(g, v)).len() < among.len(),
{
    let kept = among.intersect(neighbours(g, v));
    let at_v = neighbours(g, v).intersect(among);
    let at_u = neighbours(g, u).intersect(among);
    assert(kept =~= at_v);
    vstd::set_lib::lemma_len_subset(kept, among);
    vstd::set_lib::lemma_len_subset(at_u, among);
    if kept.len() == among.len() {
        assert(pivot_score(g, among, v) <= pivot_score(g, among, u));
        vstd::set_lib::lemma_subset_equality(at_u, among);
    }
}

/// Counts the neighbours of `vertex` that lie in `p` or in `x`.
fn degree_within<Id: Copy + Eq + Hash>(
    graph: &HashMap<Id, HashSet<Id>>,
    vertex: &Id,
    p: &HashSet<Id>,
    x: &HashSet<Id>,
) -> (degree: usize)
    requires
        obeys_key_model::<Id>(),
    ensures
        degree == pivot_score(graph_view(graph@), p@.union(x@), *vertex),
{
    broadcast use {lemma_prefix_set_full, lemma_prefix_set_empty};

    let ghost among = p@.union(x@);
    match graph.get(vertex) {
        None => {
            assert(neighbours(graph_view(graph@), *vertex).intersect(among) =~= Set::<Id>::empty());
            0
        },
        Some(adjacent) => {
            let size = adjacent.len();
            let mut degree: usize = 0;
            let ghost mut counted: Set<Id> = Set::empty();
            for n in it: adjacent.iter()
                invariant
                    obeys_key_model::<Id>(),
                    among == p@.union(x@),
                    it.seq().unref().to_set() == adjacent@,
                    it.seq().no_duplicates(),
                    it.seq().len() == size,
                    degree <= it.index(),
                    counted =~= prefix_set(it.seq(), it.index()).intersect(among),
                    counted.finite(),
                    degree == counted.len(),
            {
                proof {
                    lemma_prefix_set_step(it.seq(), it.index());
                }
                if p.contains(n) || x.contains(n) {
                    degree += 1;
                    proof {
                        counted = counted.insert(*n);
                    }
                }
            }
            degree
        },
    }
}

/// Selects the pivot for one step of the search: a vertex of `p` or `x`
/// with the most neighbours in their union. There is none exactly when both
/// sets are empty; among several best vertices any may be returned.
pub fn select_optimal_pivot<Id: Copy + Eq + Hash>(
    graph: &HashMap<Id, HashSet<Id>>,
    p: &HashSet<Id>,
    x: &HashSet<Id>,
) -> (pivot: Option<Id>)
    requires
        obeys_key_model::<Id>(),
    ensures
        pivot is None <==> p@.union(x@).is_empty(),
        pivot matches Some(u) ==> is_best_pivot(graph_view(graph@), p@.union(x@), u),
{
    broadcast use {lemma_prefix_set_full, lemma_prefix_set_empty};

    let ghost g = graph_view(graph@);
    let ghost among = p@.union(x@);
    let p_len = p.len();
    let x_len = x.len();
    let mut best: Option<Id> = None;
    let mut best_score: usize = 0;
    for v in it: p.iter()
        invariant
            obeys_key_model::<Id>(),
            g == graph_view(graph@),
            among == p@.union(x@),
            it.seq().unref().to_set() == p@,
            it.seq().len() == p_len,
            best is None <==> it.index() == 0,
            best matches Some(u) ==> {
                &&& prefix_set(it.seq(), it.index()).contains(u)
                &&& best_score == pivot_score(g, among, u)
                &&& forall|w: Id|
                    prefix_set(it.seq(), it.index()).contains(w) ==> #[trigger] pivot_score(g, among, w)
                        <= best_score
            },
    {
        proof {
            lemma_prefix_set_step(it.seq(), it.index());
        }
        let score = degree_within(graph, v, p, x);
        if best.is_none() || score >= best_score {
            best = Some(*v);
            best_score = score;
        }
    }
    proof {
        lemma_hash_set_finite(p);
        lemma_hash_set_finite(x);
        if p_len == 0 {
            p@.lemma_len0_is_empty();
        }
        if x_len == 0 {
            x@.lemma_len0_is_empty();
        }
    }
    for v in it: x.iter()
        invariant
            obeys_key_model::<Id>(),
            g == graph_view(graph@),
            among == p@.union(x@),
            it.seq().unref().to_set() == x@,
            it.seq().len() == x_len,
            p_len == 0 ==> p@ == Set::<Id>::empty(),
            x_len == 0 ==> x@ == Set::<Id>::empty(),
            p_len == p@.len(),
            x_len == x@.len(),
            best is None <==> p_len == 0 && it.index() == 0,
            best matches Some(u) ==> {
                &&& (p@.contains(u) || prefix_set(it.seq(), it.index()).contains(u))
                &&& best_score == pivot_score(g, among, u)
                &&& forall|w: Id|
                    (p@.contains(w) || prefix_set(it.seq(), it.index()).contains(w))
                        ==> #[trigger] pivot_score(g, among, w) <= best_score
            },
    {
        proof {
            lemma_prefix_set_step(it.seq(), it.index());
        }
        let score = degree_within(graph, v, p, x);
        if best.is_none() || score >= best_score {
            best = Some(*v);
            best_score = score;
        }
    }
    proof {
        if p_len != 0 {
            assert(p@.union(x@).contains(p@.choose()));
        }
    }
    best
}

/// One step of the search. Appends to `cliques`, each once, the maximal
/// cliques that hold all of `r` and, beyond `r`, only vertices of `p`; what
/// `cliques` held before stays in front. This is promised where `r` is a
/// clique of an undirected graph and `p` and `x` divide between them the
/// vertices by which `r` could grow; a neighbour without an entry in
/// `graph` counts as no vertex. On any other input the step still ends and
/// keeps what `cliques` held.
pub fn bron_kerbosch_pivot<Id: Copy + Eq + Hash>(
    graph: &HashMap<Id, HashSet<Id>>,
    r: HashSet<Id>,
    p: HashSet<Id>,
    x: HashSet<Id>,
    cliques: &mut Vec<HashSet<Id>>,
)
    requires
        obeys_key_model::<Id>(),
    ensures
        old(cliques)@.len() <= final(cliques)@.len(),
        final(cliques)@.take(old(cliques)@.len() as int) == old(cliques)@,
        search_state(proper(graph_view(graph@)), r@, p@, x@) ==> enumerates(
            set_views(final(cliques)@.skip(old(cliques)@.len() as int)),
            search_goal(proper(graph_view(graph@)), r@, p@),
        ),
    decreases p@.union(x@).len(),
{
    let ghost raw = graph_view(graph@);
    let ghost g = proper(raw);
    let ghost before = cliques@;
    let ghost p_start = p@;
    let ghost x_start = x@;
    let ghost sound = search_state(g, r@, p_start, x_start);
    proof {
        lemma_hash_set_finite(&p);
        lemma_hash_set_finite(&x);
    }
    if p.is_empty() {
        if x.is_empty() {
            proof {
                assert(set_views(before.push(r).skip(before.len() as int)) =~= seq![r@]);
                lemma_push_to_set(Seq::<Set<Id>>::empty(), r@);
                assert(Seq::<Set<Id>>::empty().to_set() =~= Set::<Set<Id>>::empty());
                if sound {
                    lemma_search_leaf(g, r@, x_start);
                }
            }
            cliques.push(r);
        } else {
            proof {
                assert(set_views(before.skip(before.len() as int)) =~= Seq::<Set<Id>>::empty());
                assert(Seq::<Set<Id>>::empty().to_set() =~= Set::<Set<Id>>::empty());
                if sound {
                    lemma_search_leaf(g, r@, x_start);
                }
            }
        }
        return;
    }
    let mut rest = p;
    let mut excluded = x;
    let pivot = select_optimal_pivot(graph, &rest, &excluded);
    // Branch only on the vertices that are no neighbours of the pivot.
    let candidates: Vec<Id> = match pivot {
        Some(vertex) => match graph.get(&vertex) {
            Some(pivot_neighbours) => difference(&rest, pivot_neighbours),
            None => Vec::new(),
        },
        None => Vec::new(),
    };
    let ghost among = p_start.union(x_start);
    let ghost cands = candidates@;
    let ghost u = pivot->0;
    proof {
        assert(set_views(before.skip(before.len() as int)) =~= Seq::<Set<Id>>::empty());
        assert(Seq::<Set<Id>>::empty().to_set() =~= Set::<Set<Id>>::empty());
        assert(search_goal(g, r@, p_start).difference(search_goal(g, r@, p_start)) =~= Set::<Set<Id>>::empty());
        assert forall|j: int| 0 <= j < cands.len() implies p_start.contains(#[trigger] cands[j])
            && !neighbours(raw, u).contains(cands[j]) by {
            assert(cands.to_set().contains(cands[j]));
        }
        if sound {
            // the pivot is a vertex of the graph, so the candidates are
            // the vertices of `p` that are no neighbours of it
            assert forall|w: Id| p_start.contains(w) implies raw.dom().contains(w) by {
                assert(among.contains(w));
            }
        }
    }
    let mut i: usize = 0;
    while i < candidates.len()
        invariant
            obeys_key_model::<Id>(),
            raw == graph_view(graph@),
            g == proper(raw),
            p_start == p@,
            x_start == x@,
            among == p_start.union(x_start),
            among.finite(),
            cands == candidates@,
            sound == search_state(g, r@, p_start, x_start),
            0 <= i <= cands.len(),
            cands.no_duplicates(),
            cands.len() > 0 ==> is_best_pivot(raw, among, u),
            forall|j: int|
                0 <= j < cands.len() ==> p_start.contains(#[trigger] cands[j]) && !neighbours(raw, u).contains(
                    cands[j],
                ),
            sound ==> among.contains(u) && cands.to_set() == p_start.difference(neighbours(g, u)),
            sound ==> among.subset_of(raw.dom()),
            rest@ == p_start.difference(cands.take(i as int).to_set()),
            excluded@ == x_start.union(cands.take(i as int).to_set()),
            before.len() <= cliques@.len(),
            cliques@.take(before.len() as int) == before,
            sound ==> search_state(g, r@, rest@, excluded@),
            sound ==> enumerates(
                set_views(cliques@.skip(before.len() as int)),
                search_goal(g, r@, p_start).difference(search_goal(g, r@, rest@)),
            ),
        decreases cands.len() - i,
    {
        let vertex = candidates[i];
        let ghost nv = neighbours(raw, vertex);
        let ghost so_far = cliques@;
        let ghost done = cands.take(i as int).to_set();
        proof {
            if done.contains(vertex) {
                let j = choose|j: int| 0 <= j < i && cands.take(i as int)[j] == vertex;
                assert(cands[j] == cands[i as int]);
            }
            assert(cands.take(i + 1) =~= cands.take(i as int).push(vertex));
            lemma_push_to_set(cands.take(i as int), vertex);
        }
        let (p_next, x_next) = match graph.get(&vertex) {
            Some(vertex_neighbours) => (
                intersection(&rest, vertex_neighbours),
                intersection(&excluded, vertex_neighbours),
            ),
            None => (HashSet::new(), HashSet::new()),
        };
        let mut r_next = copy_set(&r);
        r_next.insert(vertex);
        proof {
            assert(p_next@.union(x_next@) =~= among.intersect(nv));
            lemma_branch_shrinks(raw, among, u, vertex);
            if sound {
                assert(p_next@ =~= rest@.intersect(neighbours(g, vertex)));
                assert(x_next@ =~= excluded@.intersect(neighbours(g, vertex)));
                lemma_search_branch(g, r@, rest@, excluded@, vertex);
            }
        }
        bron_kerbosch_pivot(graph, r_next, p_next, x_next, cliques);
        rest.remove(&vertex);
        excluded.insert(vertex);
        proof {
            let start = before.len() as int;
            let mid = so_far.len() as int;
            if sound {
                let earlier = set_views(so_far.skip(start));
                let branch = set_views(cliques@.skip(mid));
                assert(set_views(cliques@.skip(start)) =~= earlier + branch);
                let p_old = p_start.difference(done);
                let goal_branch = search_goal(g, r_next@, p_next@);
                let goal_rest = search_goal(g, r@, rest@);
                let goal_old = search_goal(g, r@, p_old);
                let all = search_goal(g, r@, p_start);
                lemma_enumerates_concat(earlier, all.difference(goal_old), branch, goal_branch);
                assert(all.difference(goal_old).union(goal_branch) =~= all.difference(goal_rest));
            }
        }
        i += 1;
    }
    proof {
        if sound {
            assert(cands.take(cands.len() as int) =~= cands);
            assert(rest@ =~= p_start.intersect(neighbours(g, u)));
            lemma_search_pivot(g, r@, p_start, x_start, u);
            assert(search_goal(g, r@, p_start).difference(search_goal(g, r@, rest@)) =~= search_goal(
                g,
                r@,
                p_start,
            ));
        }
    }
}

/// Finds all maximal cliques of an undirected graph, given as a map from
/// each vertex to the set of its neighbours, by the Bron-Kerbosch algorithm
/// with pivoting.
///
/// The vertices are those with an entry in `graph`; a neighbour without an
/// entry counts as no vertex. Where, among the vertices, every edge has its
/// reverse and no vertex is its own neighbour, the result holds each maximal
/// clique with at least one member once, in no particular order; for the
/// empty graph it is empty. On a graph that is not undirected the search
/// still ends, and nothing is promised of the result.
pub fn find_maximal_cliques<Id: Copy + Eq + Hash>(
    graph: &HashMap<Id, HashSet<Id>>,
) -> (cliques: Vec<HashSet<Id>>)
    requires
        obeys_key_model::<Id>(),
    ensures
        undirected(proper(graph_view(graph@))) ==> enumerates(
            set_views(cliques@),
            maximal_cliques(proper(graph_view(graph@)), 1),
        ),
{
    let ghost g = proper(graph_view(graph@));
    if graph.is_empty() {
        proof {
            assert(set_views(Seq::<HashSet<Id>>::empty()) =~= Seq::<Set<Id>>::empty());
            assert(Seq::<Set<Id>>::empty().to_set() =~= Set::<Set<Id>>::empty());
            assert forall|c: Set<Id>| !maximal_cliques(g, 1).contains(c) by {
                if maximal_cliques(g, 1).contains(c) {
                    assert(c =~= Set::<Id>::empty());
                }
            }
            assert(maximal_cliques(g, 1) =~= Set::<Set<Id>>::empty());
        }
        return Vec::new();
    }
    // Room for as many cliques as there are vertices: most graphs have
    // about that many.
    let capacity = if graph.len() > 16 {
        graph.len()
    } else {
        16
    };
    let mut cliques: Vec<HashSet<Id>> = Vec::with_capacity(capacity);
    let r: HashSet<Id> = HashSet::new();
    let p = key_set(graph);
    let x: HashSet<Id> = HashSet::new();
    proof {
        assert(g.dom() =~= graph@.dom());
        if undirected(g) {
            assert(p@.union(x@) =~= extensions(g, r@));
        }
    }
    bron_kerbosch_pivot(graph, r, p, x, &mut cliques);
    proof {
        assert(cliques@.skip(0) =~= cliques@);
        if undirected(g) {
            // the graph has a vertex, so that the empty set is no maximal clique
            let v = choose|v: Id| graph@.contains_key(v);
            assert forall|c: Set<Id>| search_goal(g, r@, p@).contains(c) <==> maximal_cliques(g, 1).contains(
                c,
            ) by {
                if is_maximal_clique(g, c) {
                    vstd::set_lib::lemma_len_subset(c, g.dom());
                    if c.len() == 0 {
                        c.lemma_len0_is_empty();
                        assert(extends(g, c, v));
                    }
                }
            }
            assert(search_goal(g, r@, p@) =~= maximal_cliques(g, 1));
        }
    }
    cliques
}

} // verus!
