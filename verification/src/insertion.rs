//! What an insertion does to the graph and to the cliques, and when it
//! leaves the cliques exact.
//!
//! An insertion replaces the cliques over the region that it affects and
//! keeps the others. That is enough as long as no maximal clique has members
//! on both sides of the border of the region.

use vstd::prelude::*;
use crate::graph::{
    adjacent, extends, has_neighbour, induced, is_clique, is_maximal_clique,
    lemma_clique_within_maximal, lemma_induced_undirected, maximal_cliques, neighbours, undirected,
};
use crate::enumeration::lemma_two_members;

verus! {

/// `g` with the vertex `id` joined to every member of `n`, in both
/// directions. Without a member of `n` to join it to, `id` stays out of the
/// graph.
pub open spec fn with_vertex<Id>(g: Map<Id, Set<Id>>, id: Id, n: Set<Id>) -> Map<Id, Set<Id>> {
    if n == Set::<Id>::empty() {
        g
    } else {
        Map::new(
            |v: Id| g.contains_key(v) || v == id || n.contains(v),
            |v: Id|
                if v == id {
                    n
                } else if n.contains(v) {
                    neighbours(g, v).insert(id)
                } else {
                    g[v]
                },
        )
    }
}

/// The region that an insertion of `id` with the neighbours `n` touches in
/// `g`, the graph after the insertion: `id`, the members of `n`, and every
/// neighbour of one of them.
pub open spec fn affected_region<Id>(g: Map<Id, Set<Id>>, id: Id, n: Set<Id>) -> Set<Id> {
    Set::new(
        |v: Id|
            n.insert(id).contains(v) || exists|d: Id| n.insert(id).contains(d) && adjacent(g, d, v),
    )
}

/// `c` has members on both sides of the border of `region`.
pub open spec fn straddles<Id>(c: Set<Id>, region: Set<Id>) -> bool {
    !c.disjoint(region) && !c.subset_of(region)
}

/// The cliques that an index holds after the insertion of `id` with the
/// neighbours `n`, where it held `before` and `g` is the graph after the
/// insertion: those of `before` that keep clear of the affected region, and
/// the maximal cliques with two or more members of the graph that the
/// region induces.
pub open spec fn cliques_after_insert<Id>(
    before: Set<Set<Id>>,
    g: Map<Id, Set<Id>>,
    id: Id,
    n: Set<Id>,
) -> Set<Set<Id>> {
    if n == Set::<Id>::empty() {
        before
    } else {
        before.filter(|c: Set<Id>| c.disjoint(affected_region(g, id, n))).union(
            maximal_cliques(induced(g, affected_region(g, id, n)), 2),
        )
    }
}

/// The insertion of `id` with the neighbours `n` stays within its region:
/// no maximal clique of `g`, the graph after the insertion, has members on
/// both sides of the border of the affected region.
pub open spec fn insertion_is_local<Id>(g: Map<Id, Set<Id>>, id: Id, n: Set<Id>) -> bool {
    forall|c: Set<Id>| is_maximal_clique(g, c) ==> !straddles(c, affected_region(g, id, n))
}

/// The edges of the graph after an insertion, vertex by vertex.
pub proof fn lemma_with_vertex_edges<Id>(g: Map<Id, Set<Id>>, id: Id, n: Set<Id>)
    requires
        undirected(g),
        !g.contains_key(id),
        !n.contains(id),
        n != Set::<Id>::empty(),
    ensures
        forall|u: Id, v: Id|
            u != id && v != id ==> (#[trigger] adjacent(with_vertex(g, id, n), u, v) <==> adjacent(
                g,
                u,
                v,
            )),
        forall|v: Id| #[trigger] adjacent(with_vertex(g, id, n), id, v) <==> n.contains(v),
        forall|u: Id| #[trigger] adjacent(with_vertex(g, id, n), u, id) <==> n.contains(u),
        with_vertex(g, id, n).dom() == g.dom().union(n).insert(id),
{
    let g2 = with_vertex(g, id, n);
    assert forall|u: Id| #[trigger] adjacent(g2, u, id) <==> n.contains(u) by {
        if u != id && !n.contains(u) && adjacent(g2, u, id) {
            assert(adjacent(g, u, id));
        }
    }
}

/// Joining a new vertex to a graph keeps the graph undirected, and every
/// vertex keeps a neighbour if every vertex had one.
pub proof fn lemma_with_vertex_undirected<Id>(g: Map<Id, Set<Id>>, id: Id, n: Set<Id>)
    requires
        undirected(g),
        !g.contains_key(id),
        !n.contains(id),
    ensures
        undirected(with_vertex(g, id, n)),
        (forall|v: Id| g.contains_key(v) ==> has_neighbour(g, v)) ==> (forall|v: Id|
            with_vertex(g, id, n).contains_key(v) ==> has_neighbour(with_vertex(g, id, n), v)),
{
    let g2 = with_vertex(g, id, n);
    if n != Set::<Id>::empty() {
        assert forall|u: Id, v: Id| #[trigger] adjacent(g2, u, v) implies adjacent(g2, v, u) && u != v by {
            if u != id && !(n.contains(u) && v == id) {
                // an edge of the graph before the insertion
                assert(adjacent(g, u, v));
            }
        }
        if forall|v: Id| g.contains_key(v) ==> has_neighbour(g, v) {
            assert forall|v: Id| g2.contains_key(v) implies has_neighbour(g2, v) by {
                if v == id {
                    if forall|w: Id| !n.contains(w) {
                        assert(n =~= Set::<Id>::empty());
                    }
                    let w = choose|w: Id| n.contains(w);
                    assert(adjacent(g2, v, w));
                } else if n.contains(v) {
                    assert(adjacent(g2, v, id));
                } else {
                    assert(has_neighbour(g, v));
                    let w = choose|w: Id| adjacent(g, v, w);
                    assert(adjacent(g2, v, w));
                }
            }
        }
    }
}

/// A clique stays a clique when a new vertex is joined to the graph.
pub proof fn lemma_with_vertex_keeps_clique<Id>(g: Map<Id, Set<Id>>, id: Id, n: Set<Id>, c: Set<Id>)
    requires
        is_clique(g, c),
        !g.contains_key(id),
    ensures
        is_clique(with_vertex(g, id, n), c),
{
    let g2 = with_vertex(g, id, n);
    if n != Set::<Id>::empty() {
        assert forall|u: Id, v: Id| c.contains(u) && c.contains(v) && u != v implies adjacent(g2, u, v) by {
            assert(adjacent(g, u, v));
        }
    }
}

/// A maximal clique of the graph after an insertion that keeps clear of
/// the affected region was a maximal clique before.
proof fn lemma_untouched_clique_was_maximal<Id>(g: Map<Id, Set<Id>>, id: Id, n: Set<Id>, c: Set<Id>)
    requires
        undirected(g),
        !g.contains_key(id),
        !n.contains(id),
        n != Set::<Id>::empty(),
        maximal_cliques(with_vertex(g, id, n), 2).contains(c),
        c.disjoint(affected_region(with_vertex(g, id, n), id, n)),
    ensures
        maximal_cliques(g, 2).contains(c),
{
    let g2 = with_vertex(g, id, n);
    let region = affected_region(g2, id, n);
    lemma_with_vertex_edges(g, id, n);
    assert forall|u: Id, v: Id| c.contains(u) && c.contains(v) && u != v implies adjacent(g, u, v) by {
        assert(adjacent(g2, u, v));
    }
    assert forall|w: Id| !extends(g, c, w) by {
        if extends(g, c, w) {
            assert(extends(g2, c, w));
        }
    }
}

/// A maximal clique that keeps clear of the affected region of an insertion
/// is a maximal clique of the graph after it.
proof fn lemma_untouched_clique_stays_maximal<Id>(g: Map<Id, Set<Id>>, id: Id, n: Set<Id>, c: Set<Id>)
    requires
        undirected(g),
        !g.contains_key(id),
        !n.contains(id),
        n != Set::<Id>::empty(),
        maximal_cliques(g, 2).contains(c),
        c.disjoint(affected_region(with_vertex(g, id, n), id, n)),
    ensures
        maximal_cliques(with_vertex(g, id, n), 2).contains(c),
{
    let g2 = with_vertex(g, id, n);
    let region = affected_region(g2, id, n);
    lemma_with_vertex_edges(g, id, n);
    lemma_with_vertex_undirected(g, id, n);
    lemma_with_vertex_keeps_clique(g, id, n, c);
    let a = c.choose();
    assert forall|w: Id| !extends(g2, c, w) by {
        if extends(g2, c, w) {
            assert(adjacent(g2, a, w));
            // a changed vertex next to `a` would put `a` in the region
            if !n.insert(id).contains(w) {
                assert forall|u: Id| c.contains(u) implies adjacent(g, u, w) by {
                    assert(adjacent(g2, u, w));
                }
                assert(extends(g, c, w));
            }
        }
    }
}

/// When an insertion keeps an exact index exact. Let an index hold exactly
/// the maximal cliques with two or more members of its graph `g`, and let
/// `id` be inserted with the neighbours `n`. Afterwards the index holds
/// exactly those of the new graph if and only if no maximal clique of the
/// new graph has members on both sides of the border of the affected
/// region. A clique with a changed vertex never has; one of vertices that
/// did not change can, and where one does, the insertion loses it.
pub proof fn lemma_insert_exact<Id>(g: Map<Id, Set<Id>>, id: Id, n: Set<Id>)
    requires
        undirected(g),
        g.dom().finite(),
        n.finite(),
        !g.contains_key(id),
        !n.contains(id),
    ensures
        cliques_after_insert(maximal_cliques(g, 2), with_vertex(g, id, n), id, n) == maximal_cliques(
            with_vertex(g, id, n),
            2,
        ) <==> n == Set::<Id>::empty() || insertion_is_local(with_vertex(g, id, n), id, n),
{
    if n != Set::<Id>::empty() {
        let g2 = with_vertex(g, id, n);
        let region = affected_region(g2, id, n);
        let sub = induced(g2, region);
        let kept = maximal_cliques(g, 2).filter(|c: Set<Id>| c.disjoint(region));
        let after = cliques_after_insert(maximal_cliques(g, 2), g2, id, n);
        lemma_with_vertex_undirected(g, id, n);
        lemma_with_vertex_edges(g, id, n);
        lemma_induced_undirected(g2, region);
        if insertion_is_local(g2, id, n) {
            // A maximal clique of the new graph lies outside the region or
            // within it: there it was a maximal clique before and is kept,
            // here it is a maximal clique of the graph that the region
            // induces.
            assert forall|c: Set<Id>| maximal_cliques(g2, 2).contains(c) implies after.contains(c) by {
                if c.disjoint(region) {
                    lemma_untouched_clique_was_maximal(g, id, n, c);
                } else {
                    assert forall|w: Id| !extends(sub, c, w) by {
                        if extends(sub, c, w) {
                            assert forall|u: Id| c.contains(u) implies adjacent(g2, u, w) by {
                                assert(adjacent(sub, u, w));
                            }
                            assert(extends(g2, c, w));
                        }
                    }
                    assert forall|u: Id, v: Id| c.contains(u) && c.contains(v) && u != v implies adjacent(
                        sub,
                        u,
                        v,
                    ) by {
                        assert(adjacent(g2, u, v));
                    }
                }
            }
            // A clique that is kept stays maximal. One that comes in can
            // only grow by a vertex outside the region, and would then lie
            // within a maximal clique on both sides of the border.
            assert forall|c: Set<Id>| after.contains(c) implies maximal_cliques(g2, 2).contains(c) by {
                if kept.contains(c) {
                    lemma_untouched_clique_stays_maximal(g, id, n, c);
                } else {
                    assert forall|w: Id| !extends(g2, c, w) by {
                        if extends(g2, c, w) {
                            if region.contains(w) {
                                assert forall|u: Id| c.contains(u) implies adjacent(sub, u, w) by {
                                    assert(adjacent(g2, u, w));
                                }
                                assert(extends(sub, c, w));
                            } else {
                                let grown = c.insert(w);
                                assert forall|u: Id, v: Id|
                                    grown.contains(u) && grown.contains(v) && u != v implies adjacent(
                                    g2,
                                    u,
                                    v,
                                ) by {
                                    if u == w {
                                        assert(adjacent(g2, v, w));
                                    }
                                }
                                let m = lemma_clique_within_maximal(g2, grown);
                                assert(sub.dom().contains(c.choose()));
                                assert(straddles(m, region));
                            }
                        }
                    }
                }
            }
            assert(after =~= maximal_cliques(g2, 2));
        } else {
            // A maximal clique on both sides of the border has two members
            // at least. It is not kept, for it touches the region, and does
            // not come in, for it does not lie within the region.
            let c = choose|c: Set<Id>| is_maximal_clique(g2, c) && straddles(c, region);
            let a = choose|a: Id| c.contains(a) && region.contains(a);
            let b = choose|b: Id| c.contains(b) && !region.contains(b);
            vstd::set_lib::lemma_len_subset(c, g2.dom());
            lemma_two_members(c, a, b);
            assert(!after.contains(c));
        }
    }
}

} // verus!
