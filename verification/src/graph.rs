//! The mathematical model: undirected graphs as adjacency maps, cliques and
//! maximal cliques.

use vstd::prelude::*;
use std::collections::HashSet;

verus! {

/// The adjacency map that a hash map of hash sets stands for.
pub open spec fn graph_view<Id>(m: Map<Id, HashSet<Id>>) -> Map<Id, Set<Id>> {
    Map::new(|v: Id| m.contains_key(v), |v: Id| m[v]@)
}

/// The neighbours of `v`; a vertex without an entry has none.
pub open spec fn neighbours<Id>(g: Map<Id, Set<Id>>, v: Id) -> Set<Id> {
    if g.contains_key(v) {
        g[v]
    } else {
        Set::empty()
    }
}

/// There is an edge from `u` to `v`.
pub open spec fn adjacent<Id>(g: Map<Id, Set<Id>>, u: Id, v: Id) -> bool {
    neighbours(g, u).contains(v)
}

/// Every edge has its reverse, and no vertex is its own neighbour.
pub open spec fn undirected<Id>(g: Map<Id, Set<Id>>) -> bool {
    forall|u: Id, v: Id| #[trigger] adjacent(g, u, v) ==> adjacent(g, v, u) && u != v
}

/// The vertex `v` has a neighbour.
pub open spec fn has_neighbour<Id>(g: Map<Id, Set<Id>>, v: Id) -> bool {
    exists|w: Id| adjacent(g, v, w)
}

/// The graph among the vertices that `g` has an entry for: neighbours
/// without an entry of their own are left out.
pub open spec fn proper<Id>(g: Map<Id, Set<Id>>) -> Map<Id, Set<Id>> {
    Map::new(|v: Id| g.contains_key(v), |v: Id| g[v].intersect(g.dom()))
}

/// `c` is a set of vertices of `g` that are pairwise adjacent.
pub open spec fn is_clique<Id>(g: Map<Id, Set<Id>>, c: Set<Id>) -> bool {
    &&& c.subset_of(g.dom())
    &&& forall|u: Id, v: Id| c.contains(u) && c.contains(v) && u != v ==> #[trigger] adjacent(g, u, v)
}

/// `w` is a vertex outside `c` that every member of `c` has as a neighbour.
pub open spec fn extends<Id>(g: Map<Id, Set<Id>>, c: Set<Id>, w: Id) -> bool {
    &&& g.contains_key(w)
    &&& !c.contains(w)
    &&& forall|u: Id| c.contains(u) ==> #[trigger] adjacent(g, u, w)
}

/// All vertices by which the clique `c` could grow.
pub open spec fn extensions<Id>(g: Map<Id, Set<Id>>, c: Set<Id>) -> Set<Id> {
    Set::new(|w: Id| extends(g, c, w))
}

/// `c` is a clique that no vertex extends.
pub open spec fn is_maximal_clique<Id>(g: Map<Id, Set<Id>>, c: Set<Id>) -> bool {
    &&& is_clique(g, c)
    &&& forall|w: Id| !extends(g, c, w)
}

/// The maximal cliques of `g` that have at least `least` members.
pub open spec fn maximal_cliques<Id>(g: Map<Id, Set<Id>>, least: nat) -> Set<Set<Id>> {
    Set::new(|c: Set<Id>| is_maximal_clique(g, c) && c.finite() && c.len() >= least)
}

/// The graph on the vertices in `region` with the edges of `g` between them.
pub open spec fn induced<Id>(g: Map<Id, Set<Id>>, region: Set<Id>) -> Map<Id, Set<Id>> {
    Map::new(|v: Id| region.contains(v), |v: Id| neighbours(g, v).intersect(region))
}

/// An undirected graph names no neighbour without an entry.
pub proof fn lemma_undirected_is_proper<Id>(g: Map<Id, Set<Id>>)
    requires
        undirected(g),
    ensures
        proper(g) == g,
{
    assert forall|v: Id| g.contains_key(v) implies proper(g)[v] == g[v] by {
        assert forall|w: Id| g[v].contains(w) implies g.dom().contains(w) by {
            assert(adjacent(g, v, w));
        }
    }
}

/// The edges of a graph between the vertices of a region form an
/// undirected graph, and its cliques are cliques of the whole graph.
pub proof fn lemma_induced_undirected<Id>(g: Map<Id, Set<Id>>, region: Set<Id>)
    requires
        undirected(g),
    ensures
        undirected(induced(g, region)),
        region.subset_of(g.dom()) ==> forall|c: Set<Id>| #[trigger]
            is_clique(induced(g, region), c) ==> is_clique(g, c),
{
    let sub = induced(g, region);
    assert forall|u: Id, v: Id| #[trigger] adjacent(sub, u, v) implies adjacent(sub, v, u) && u != v by {
        assert(adjacent(g, u, v));
    }
    if region.subset_of(g.dom()) {
        assert forall|c: Set<Id>| #[trigger] is_clique(sub, c) implies is_clique(g, c) by {
            assert forall|u: Id, v: Id| c.contains(u) && c.contains(v) && u != v implies adjacent(g, u, v) by {
                assert(adjacent(sub, u, v));
            }
        }
    }
}

/// In a finite undirected graph every clique lies within a maximal clique.
pub proof fn lemma_clique_within_maximal<Id>(g: Map<Id, Set<Id>>, c: Set<Id>) -> (m: Set<Id>)
    requires
        undirected(g),
        g.dom().finite(),
        is_clique(g, c),
    ensures
        is_maximal_clique(g, m),
        c.subset_of(m),
    decreases g.dom().len() - c.len(),
{
    vstd::set_lib::lemma_len_subset(c, g.dom());
    if forall|w: Id| !extends(g, c, w) {
        c
    } else {
        let w = choose|w: Id| extends(g, c, w);
        let grown = c.insert(w);
        assert forall|u: Id, v: Id| grown.contains(u) && grown.contains(v) && u != v implies adjacent(
            g,
            u,
            v,
        ) by {
            if u == w {
                assert(adjacent(g, v, w));
            }
        }
        vstd::set_lib::lemma_len_subset(grown, g.dom());
        lemma_clique_within_maximal(g, grown)
    }
}

} // verus!
