//! The index of cliques: the compatibility graph and its cliques, built from
//! a batch of observations or grown one observation at a time.

use vstd::prelude::*;
use std::collections::HashMap;
use std::collections::HashSet;
use std::hash::Hash;
use vstd::std_specs::hash::obeys_key_model;
use crate::cliques::find_maximal_cliques;
use crate::enumeration::{
    enumerates, lemma_enumerates_concat, lemma_filter_enumerates, lemma_push_to_set, set_views,
};
use crate::graph::{
    adjacent, graph_view, has_neighbour, induced, is_clique, is_maximal_clique,
    lemma_induced_undirected, lemma_undirected_is_proper, maximal_cliques, neighbours, undirected,
};
use crate::insertion::{
    affected_region, cliques_after_insert, insertion_is_local, lemma_insert_exact,
    lemma_with_vertex_keeps_clique, lemma_with_vertex_undirected, with_vertex,
};
use crate::sets::{
    copy_set, insert_all, intersection, is_disjoint, lemma_entry_in_set, lemma_hash_set_finite,
    lemma_prefix_set_empty, lemma_prefix_set_full, lemma_prefix_set_step, prefix_set,
};
use crate::spatial_index::{
    batch_graph, compatibility_graph, find_compatible, fusable, lemma_batch_graph_entries, Observation,
    Unique,
};

verus! {

broadcast use vstd::std_specs::hash::group_hash_axioms;

/// An index which tracks the cliques among the observations inserted so
/// far: the groups of observations that are pairwise compatible, and so
/// consistent with stemming from one object.
#[derive(Debug)]
pub struct CliqueIndex<Id> {
    compatibility_graph: HashMap<Id, HashSet<Id>>,
    cliques: Vec<HashSet<Id>>,
}

/// What an index holds, as the contracts see it.
#[verifier::reject_recursive_types(Id)]
pub struct CliqueIndexView<Id> {
    /// The compatibility graph: each observation that may be fused with
    /// another, mapped to the observations with which it may.
    pub graph: Map<Id, Set<Id>>,
    /// The cliques, in the order in which the index lists them.
    pub cliques: Seq<Set<Id>>,
}

impl<Id> View for CliqueIndex<Id> {
    type V = CliqueIndexView<Id>;

    closed spec fn view(&self) -> CliqueIndexView<Id> {
        CliqueIndexView {
            graph: graph_view(self.compatibility_graph@),
            cliques: set_views(self.cliques@),
        }
    }
}

impl<Id: Copy + Eq + Hash> CliqueIndex<Id> {
    /// What holds of every index: the graph is undirected and has no
    /// vertex without a neighbour, and the cliques are distinct cliques of
    /// the graph with two or more members each.
    pub open spec fn wf(&self) -> bool {
        &&& obeys_key_model::<Id>()
        &&& undirected(self@.graph)
        &&& forall|v: Id| self@.graph.contains_key(v) ==> has_neighbour(self@.graph, v)
        &&& self@.cliques.no_duplicates()
        &&& forall|i: int|
            0 <= i < self@.cliques.len() ==> {
                &&& is_clique(self@.graph, #[trigger] self@.cliques[i])
                &&& self@.cliques[i].finite()
                &&& self@.cliques[i].len() >= 2
            }
    }

    /// The index holds every maximal clique of its graph that has two or
    /// more members, and no other set.
    pub open spec fn is_exact(&self) -> bool {
        self@.cliques.to_set() == maximal_cliques(self@.graph, 2)
    }

    /// An index without observations.
    pub fn new() -> (index: Self)
        requires
            obeys_key_model::<Id>(),
        ensures
            index.wf(),
            index.is_exact(),
            index@.graph == Map::<Id, Set<Id>>::empty(),
            index@.cliques == Seq::<Set<Id>>::empty(),
    {
        let index = CliqueIndex { compatibility_graph: HashMap::new(), cliques: Vec::new() };
        proof {
            assert(index@.cliques.to_set() =~= Set::<Set<Id>>::empty());
            assert forall|c: Set<Id>| !maximal_cliques(index@.graph, 2).contains(c) by {
                if maximal_cliques(index@.graph, 2).contains(c) {
                    assert(c =~= Set::<Id>::empty());
                }
            }
            assert(maximal_cliques(index@.graph, 2) =~= Set::<Set<Id>>::empty());
        }
        index
    }

    /// Builds the index of a batch of observations. Each observation names
    /// the observations of the batch near it.
    ///
    /// The graph maps each observation that may be fused with another to
    /// the observations with which it may. Where it is undirected, which it
    /// is if the compatibility of two observations was decided alike from
    /// both sides, the index holds exactly the maximal cliques of the graph
    /// with two or more members.
    pub fn from_observations(observations: Vec<Unique<Observation<Id>, Id>>) -> (index: Self)
        requires
            obeys_key_model::<Id>(),
        ensures
            index@.graph == batch_graph(observations@),
            undirected(index@.graph) ==> index.wf() && index.is_exact(),
    {
        let compatibility_graph = compatibility_graph(&observations);
        proof {
            if undirected(graph_view(compatibility_graph@)) {
                lemma_undirected_is_proper(graph_view(compatibility_graph@));
            }
        }
        let found = find_maximal_cliques(&compatibility_graph);
        let cliques = discard_singletons(found);
        let index = CliqueIndex { compatibility_graph, cliques };
        proof {
            let g = index@.graph;
            if undirected(g) {
                let pair = |c: Set<Id>| c.finite() && c.len() >= 2;
                lemma_filter_enumerates(set_views(found@), pair);
                assert(maximal_cliques(g, 1).filter(pair) =~= maximal_cliques(g, 2));
                lemma_batch_graph_entries(observations@);
                let list = index@.cliques;
                assert forall|i: int| 0 <= i < list.len() implies is_clique(g, #[trigger] list[i])
                    && list[i].finite() && list[i].len() >= 2 by {
                    assert(list.to_set().contains(list[i]));
                }
                assert forall|v: Id| g.contains_key(v) implies has_neighbour(g, v) by {
                    if forall|w: Id| !g[v].contains(w) {
                        assert(g[v] =~= Set::<Id>::empty());
                    }
                    let w = choose|w: Id| g[v].contains(w);
                    assert(adjacent(g, v, w));
                }
            }
        }
        index
    }

    /// The cliques, each a set of two or more observations. Their order
    /// says nothing.
    pub fn cliques(&self) -> (cliques: &[HashSet<Id>])
        ensures
            set_views(cliques@) == self@.cliques,
            self.wf() ==> forall|i: int| 0 <= i < cliques@.len() ==> (#[trigger] cliques@[i])@.len() >= 2,
    {
        proof {
            if self.wf() {
                assert forall|i: int| 0 <= i < self.cliques@.len() implies (#[trigger] self.cliques@[i])@.len()
                    >= 2 by {
                    assert(self@.cliques[i] == self.cliques@[i]@);
                }
            }
        }
        self.cliques.as_slice()
    }

    /// The graph of an index is symmetric and has no loop: `v` is a
    /// neighbour of `u` if and only if `u` is one of `v`, and no observation
    /// is its own neighbour.
    pub proof fn lemma_graph_symmetric(&self, u: Id, v: Id)
        requires
            self.wf(),
        ensures
            adjacent(self@.graph, u, v) <==> adjacent(self@.graph, v, u),
            !adjacent(self@.graph, u, u),
    {
    }

    /// What an exact index holds: a set is among its cliques if and only
    /// if it is a maximal clique of the graph with two or more members, so
    /// that no vertex outside it is a neighbour of all its members; and it
    /// is listed at one place only.
    pub proof fn lemma_exact_cliques(&self, c: Set<Id>)
        requires
            self.wf(),
            self.is_exact(),
        ensures
            self@.cliques.contains(c) <==> is_maximal_clique(self@.graph, c) && c.finite()
                && c.len() >= 2,
            forall|i: int, j: int|
                0 <= i < self@.cliques.len() && 0 <= j < self@.cliques.len()
                    && self@.cliques[i] == c && self@.cliques[j] == c ==> i == j,
    {
        assert(self@.cliques.contains(c) <==> self@.cliques.to_set().contains(c));
    }

    /// The number of observations that have a compatible neighbour.
    pub fn len(&self) -> (n: usize)
        requires
            obeys_key_model::<Id>(),
        ensures
            n == self@.graph.dom().len(),
    {
        proof {
            assert(self@.graph.dom() =~= self.compatibility_graph@.dom());
        }
        self.compatibility_graph.len()
    }

    /// Whether no two observations are compatible.
    pub fn is_empty(&self) -> (empty: bool)
        ensures
            empty == (self@.graph == Map::<Id, Set<Id>>::empty()),
    {
        proof {
            assert(self@.graph.dom() =~= self.compatibility_graph@.dom());
            if self.compatibility_graph@.dom() == Set::<Id>::empty() {
                assert(self@.graph =~= Map::<Id, Set<Id>>::empty());
            }
        }
        self.compatibility_graph.is_empty()
    }

    /// The compatibility graph as the index stores it.
    pub fn compatibility_graph(&self) -> (graph: &HashMap<Id, HashSet<Id>>)
        ensures
            graph_view(graph@) == self@.graph,
    {
        &self.compatibility_graph
    }

    /// Inserts an observation, which names the observations already
    /// inserted that lie near it.
    ///
    /// The graph gains the new vertex with an edge, in both directions, to
    /// each observation with which the new one may be fused; an observation
    /// that may be fused with none changes nothing. The cliques are then
    /// replaced over the affected region, which is the new vertex, its
    /// neighbours and all neighbours of these: every clique that has a member
    /// in the region goes, and the maximal cliques with two or more members
    /// of the graph that the region induces come in. Cliques that keep clear
    /// of the region stay.
    ///
    /// An index that held exactly the maximal cliques with two or more
    /// members of its graph holds exactly those of the new graph if and only
    /// if the insertion is local: no maximal clique of the new graph has
    /// members on both sides of the border of the region.
    ///
    /// The identifier must be new: inserting an observation twice is an
    /// error of the caller.
    pub fn insert(&mut self, observation: Unique<Observation<Id>, Id>)
        requires
            old(self).wf(),
            !old(self)@.graph.contains_key(observation.id),
        ensures
            final(self).wf(),
            fusable(observation) == Set::<Id>::empty() ==> final(self)@ == old(self)@,
            final(self)@.graph == with_vertex(old(self)@.graph, observation.id, fusable(observation)),
            final(self)@.cliques.to_set() == cliques_after_insert(
                old(self)@.cliques.to_set(),
                final(self)@.graph,
                observation.id,
                fusable(observation),
            ),
            old(self).is_exact() ==> (final(self).is_exact() <==> fusable(observation) == Set::<Id>::empty()
                || insertion_is_local(final(self)@.graph, observation.id, fusable(observation))),
    {
        broadcast use {lemma_prefix_set_full, lemma_prefix_set_empty};

        let id = observation.id;
        let direct_neighbours = find_compatible(&observation);
        let ghost g0 = self@.graph;
        let ghost n = direct_neighbours@;
        let ghost old_cliques = self.cliques@;
        proof {
            lemma_hash_set_finite(&direct_neighbours);
            assert(g0.dom() =~= self.compatibility_graph@.dom());
            lemma_insert_exact(g0, id, n);
        }
        if direct_neighbours.is_empty() {
            return;
        }
        // Add the new node with its connections, and the new node to the
        // adjacency set of each of its neighbours.
        self.compatibility_graph.insert(id, copy_set(&direct_neighbours));
        for neighbour in it: direct_neighbours.iter()
            invariant
                obeys_key_model::<Id>(),
                n == direct_neighbours@,
                !n.contains(id),
                it.seq().unref().to_set() == n,
                it.seq().no_duplicates(),
                self.cliques@ == old_cliques,
                graph_view(self.compatibility_graph@) == joining(
                    g0,
                    id,
                    n,
                    prefix_set(it.seq(), it.index()),
                ),
        {
            proof {
                lemma_prefix_set_step(it.seq(), it.index());
                lemma_entry_in_set(it.seq(), it.index());
            }
            link(&mut self.compatibility_graph, *neighbour, id);
        }
        let ghost g1 = with_vertex(g0, id, n);
        // The affected region: the nodes whose adjacency changed, and the
        // neighbours of each of them.
        let mut affected = direct_neighbours;
        affected.insert(id);
        let changed = copy_set(&affected);
        proof {
            lemma_gathering_step(g1, changed@, Set::empty(), id);
        }
        for node in it: changed.iter()
            invariant
                obeys_key_model::<Id>(),
                changed@ == n.insert(id),
                it.seq().unref().to_set() == changed@,
                self.cliques@ == old_cliques,
                graph_view(self.compatibility_graph@) == g1,
                affected@ == gathering(g1, changed@, prefix_set(it.seq(), it.index())),
        {
            proof {
                lemma_prefix_set_step(it.seq(), it.index());
                lemma_gathering_step(g1, changed@, prefix_set(it.seq(), it.index()), *node);
            }
            if let Some(node_neighbours) = self.compatibility_graph.get(node) {
                insert_all(&mut affected, node_neighbours);
            }
        }
        let ghost region = affected_region(g1, id, n);
        proof {
            assert(gathering(g1, n.insert(id), n.insert(id)) =~= region);
            lemma_with_vertex_undirected(g0, id, n);
            lemma_induced_undirected(g1, region);
        }
        let subgraph = self.extract_subgraph(&affected);
        proof {
            lemma_undirected_is_proper(induced(g1, region));
        }
        let found = find_maximal_cliques(&subgraph);
        let new_cliques = discard_singletons(found);
        proof {
            let pair = |c: Set<Id>| c.finite() && c.len() >= 2;
            lemma_filter_enumerates(set_views(found@), pair);
            assert forall|i: int| 0 <= i < new_cliques@.len() implies !(#[trigger] set_views(
                new_cliques@,
            )[i]).disjoint(region) && is_clique(g1, set_views(new_cliques@)[i]) by {
                let c = set_views(new_cliques@)[i];
                assert(set_views(new_cliques@).to_set().contains(c));
                assert(induced(g1, region).dom().contains(c.choose()));
            }
            assert forall|i: int| 0 <= i < old_cliques.len() implies is_clique(
                g1,
                #[trigger] set_views(old_cliques)[i],
            ) by {
                lemma_with_vertex_keeps_clique(g0, id, n, set_views(old_cliques)[i]);
            }
        }
        self.update_cliques(&affected, new_cliques);
        proof {
            let list = self@.cliques;
            assert forall|i: int| 0 <= i < list.len() implies is_clique(self@.graph, #[trigger] list[i])
                && list[i].finite() && list[i].len() >= 2 by {
                assert(list.to_set().contains(list[i]));
                if set_views(new_cliques@).to_set().contains(list[i]) {
                    let j = choose|j: int|
                        0 <= j < set_views(new_cliques@).len() && set_views(new_cliques@)[j] == list[i];
                    assert(is_clique(g1, set_views(new_cliques@)[j]));
                } else {
                    let j = choose|j: int|
                        0 <= j < set_views(old_cliques).len() && set_views(old_cliques)[j] == list[i];
                    assert(is_clique(g1, set_views(old_cliques)[j]));
                }
            }
        }
    }

    /// Extracts the graph that the affected nodes induce: each of them with
    /// those of its neighbours that are affected too.
    fn extract_subgraph(&self, affected_nodes: &HashSet<Id>) -> (subgraph: HashMap<Id, HashSet<Id>>)
        requires
            obeys_key_model::<Id>(),
            affected_nodes@.subset_of(self@.graph.dom()),
        ensures
            graph_view(subgraph@) == induced(self@.graph, affected_nodes@),
    {
        broadcast use {lemma_prefix_set_full, lemma_prefix_set_empty};

        let ghost g = self@.graph;
        let mut subgraph: HashMap<Id, HashSet<Id>> = HashMap::new();
        for node in it: affected_nodes.iter()
            invariant
                obeys_key_model::<Id>(),
                g == self@.graph,
                affected_nodes@.subset_of(g.dom()),
                it.seq().unref().to_set() == affected_nodes@,
                graph_view(subgraph@) =~= induced(g, affected_nodes@).restrict(
                    prefix_set(it.seq(), it.index()),
                ),
        {
            proof {
                lemma_prefix_set_step(it.seq(), it.index());
                lemma_entry_in_set(it.seq(), it.index());
            }
            let all_neighbours = self.compatibility_graph.get(node).unwrap();
            let subgraph_neighbours = intersection(all_neighbours, affected_nodes);
            proof {
                let done = prefix_set(it.seq(), it.index());
                let grown = graph_view(subgraph@.insert(*node, subgraph_neighbours));
                let target = induced(g, affected_nodes@).restrict(done.insert(*node));
                assert forall|v: Id| grown.contains_key(v) <==> target.contains_key(v) by {
                    if v != *node {
                        assert(graph_view(subgraph@).contains_key(v) <==> subgraph@.contains_key(v));
                    }
                }
                assert forall|v: Id| grown.contains_key(v) implies grown[v] == target[v] by {
                    if v != *node {
                        assert(graph_view(subgraph@)[v] == subgraph@[v]@);
                    }
                }
            }
            subgraph.insert(*node, subgraph_neighbours);
        }
        subgraph
    }

    /// Replaces the cliques over the affected region: drops every clique
    /// that has a member among the affected nodes, and adds the new ones.
    fn update_cliques(&mut self, affected_nodes: &HashSet<Id>, new_cliques: Vec<HashSet<Id>>)
        requires
            obeys_key_model::<Id>(),
            old(self)@.cliques.no_duplicates(),
            set_views(new_cliques@).no_duplicates(),
            forall|i: int|
                0 <= i < new_cliques@.len() ==> !(#[trigger] set_views(new_cliques@)[i]).disjoint(
                    affected_nodes@,
                ),
        ensures
            final(self)@.graph == old(self)@.graph,
            final(self)@.cliques.no_duplicates(),
            final(self)@.cliques.to_set() == old(self)@.cliques.to_set().filter(
                |c: Set<Id>| c.disjoint(affected_nodes@),
            ).union(set_views(new_cliques@).to_set()),
    {
        let ghost before = self@.cliques;
        let ghost clear = |c: Set<Id>| c.disjoint(affected_nodes@);
        let mut stale: Vec<HashSet<Id>> = Vec::new();
        core::mem::swap(&mut self.cliques, &mut stale);
        proof {
            assert(set_views(self.cliques@) =~= Seq::<Set<Id>>::empty());
            assert(Seq::<Set<Id>>::empty().to_set() =~= Set::<Set<Id>>::empty());
            assert(before.take(0).to_set() =~= Set::<Set<Id>>::empty());
            assert(Set::<Set<Id>>::empty().filter(clear) =~= Set::<Set<Id>>::empty());
        }
        for clique in it: stale
            invariant
                obeys_key_model::<Id>(),
                self.compatibility_graph == old(self).compatibility_graph,
                clear == |c: Set<Id>| c.disjoint(affected_nodes@),
                before == set_views(it.seq()),
                before.no_duplicates(),
                enumerates(
                    set_views(self.cliques@),
                    before.take(it.index()).to_set().filter(clear),
                ),
        {
            proof {
                let k = it.index();
                assert(before.take(k + 1) =~= before.take(k).push(clique@));
                lemma_push_to_set(before.take(k), clique@);
                if before.take(k).to_set().contains(clique@) {
                    let j = choose|j: int| 0 <= j < k && before.take(k)[j] == clique@;
                    assert(before[j] == before[k]);
                }
                lemma_push_to_set(set_views(self.cliques@), clique@);
                assert(set_views(self.cliques@.push(clique)) =~= set_views(self.cliques@).push(clique@));
                if clear(clique@) {
                    assert(before.take(k + 1).to_set().filter(clear) =~= before.take(k).to_set().filter(
                        clear,
                    ).insert(clique@));
                } else {
                    assert(before.take(k + 1).to_set().filter(clear) =~= before.take(k).to_set().filter(
                        clear,
                    ));
                }
            }
            if is_disjoint(&clique, affected_nodes) {
                self.cliques.push(clique);
            }
        }
        let ghost kept = self.cliques@;
        let mut new_cliques = new_cliques;
        let ghost added = new_cliques@;
        self.cliques.append(&mut new_cliques);
        proof {
            assert(before.take(before.len() as int) =~= before);
            assert(set_views(self.cliques@) =~= set_views(kept) + set_views(added));
            lemma_enumerates_concat(
                set_views(kept),
                before.to_set().filter(clear),
                set_views(added),
                set_views(added).to_set(),
            );
        }
    }
}

/// The graph while `id` is being joined to `n`: `id` has its entry, and the
/// members of `n` in `done` have `id` among their neighbours.
spec fn joining<Id>(g: Map<Id, Set<Id>>, id: Id, n: Set<Id>, done: Set<Id>) -> Map<Id, Set<Id>> {
    Map::new(
        |v: Id| g.contains_key(v) || v == id || done.contains(v),
        |v: Id|
            if v == id {
                n
            } else if done.contains(v) {
                neighbours(g, v).insert(id)
            } else {
                g[v]
            },
    )
}

/// The region while it is being gathered: the changed vertices, and the
/// neighbours of those in `done`.
spec fn gathering<Id>(g: Map<Id, Set<Id>>, changed: Set<Id>, done: Set<Id>) -> Set<Id> {
    Set::new(|v: Id| changed.contains(v) || exists|d: Id| done.contains(d) && adjacent(g, d, v))
}

proof fn lemma_gathering_step<Id>(g: Map<Id, Set<Id>>, changed: Set<Id>, done: Set<Id>, d: Id)
    ensures
        gathering(g, changed, done.insert(d)) == gathering(g, changed, done).union(neighbours(g, d)),
        gathering(g, changed, Set::empty()) == changed,
{
    let left = gathering(g, changed, done.insert(d));
    let right = gathering(g, changed, done).union(neighbours(g, d));
    assert forall|v: Id| left.contains(v) <==> right.contains(v) by {
        if left.contains(v) && !changed.contains(v) {
            let e = choose|e: Id| done.insert(d).contains(e) && adjacent(g, e, v);
            if e != d {
                assert(done.contains(e) && adjacent(g, e, v));
            }
        }
        if gathering(g, changed, done).contains(v) && !changed.contains(v) {
            let e = choose|e: Id| done.contains(e) && adjacent(g, e, v);
            assert(done.insert(d).contains(e) && adjacent(g, e, v));
        }
        if neighbours(g, d).contains(v) {
            assert(done.insert(d).contains(d) && adjacent(g, d, v));
        }
    }
}

/// Adds `to` to the neighbours of `from`, with a new entry for `from` where
/// it has none.
fn link<Id: Copy + Eq + Hash>(graph: &mut HashMap<Id, HashSet<Id>>, from: Id, to: Id)
    requires
        obeys_key_model::<Id>(),
    ensures
        graph_view(final(graph)@) == graph_view(old(graph)@).insert(
            from,
            neighbours(graph_view(old(graph)@), from).insert(to),
        ),
{
    let entry = graph.entry(from);
    let set = entry.or_insert(HashSet::new());
    set.insert(to);
}

/// Drops the cliques with fewer than two members.
fn discard_singletons<Id: Copy + Eq + Hash>(found: Vec<HashSet<Id>>) -> (kept: Vec<HashSet<Id>>)
    requires
        obeys_key_model::<Id>(),
    ensures
        set_views(kept@) == set_views(found@).filter(|c: Set<Id>| c.finite() && c.len() >= 2),
{
    let ghost all = set_views(found@);
    let ghost pair = |c: Set<Id>| c.finite() && c.len() >= 2;
    let mut kept: Vec<HashSet<Id>> = Vec::new();
    for clique in it: found
        invariant
            obeys_key_model::<Id>(),
            pair == |c: Set<Id>| c.finite() && c.len() >= 2,
            all == set_views(it.seq()),
            set_views(kept@) == all.take(it.index()).filter(pair),
    {
        proof {
            let k = it.index();
            assert(all.take(k + 1) =~= all.take(k).push(clique@));
            all.take(k).lemma_filter_push(clique@, pair);
            lemma_hash_set_finite(&clique);
        }
        if clique.len() >= 2 {
            kept.push(clique);
        }
    }
    proof {
        assert(all.take(all.len() as int) =~= all);
    }
    kept
}

} // verus!
