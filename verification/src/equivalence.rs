//! Building the graph at once and growing it by insertions agree.
//!
//! Whether two observations may be fused is a relation between them that
//! does not depend on when it is asked. This module states, for any such
//! relation, which graph the index holds, and that the order of the
//! insertions does not matter.

use vstd::prelude::*;
use std::hash::Hash;
use crate::clique_index::CliqueIndex;
use crate::enumeration::lemma_push_to_set;
use vstd::seq_lib::seq_to_set_is_finite;
use crate::graph::{adjacent, maximal_cliques, undirected};
use crate::insertion::{cliques_after_insert, insertion_is_local, lemma_insert_exact, with_vertex};
use crate::spatial_index::{
    batch_graph, batch_ids, fusable, lemma_batch_graph_lookup, may_fuse, same_context, Observation,
    Unique,
};

verus! {

/// A relation that holds both ways round or not at all, and of no
/// observation with itself.
pub open spec fn symmetric_irreflexive<Id>(rel: spec_fn(Id, Id) -> bool) -> bool {
    forall|u: Id, v: Id| #[trigger] rel(u, v) ==> rel(v, u) && u != v
}

/// The members of `s` that are related to `u`.
pub open spec fn related<Id>(rel: spec_fn(Id, Id) -> bool, s: Set<Id>, u: Id) -> Set<Id> {
    Set::new(|v: Id| s.contains(v) && rel(u, v))
}

/// The relation that the fusion rule makes of a test of compatibility and
/// the contexts of the observations: two observations are related if they
/// are two, do not share a context, and are compatible.
pub open spec fn fusion_relation<Id>(
    compatible: spec_fn(Id, Id) -> bool,
    context: spec_fn(Id) -> Option<u128>,
) -> spec_fn(Id, Id) -> bool {
    |u: Id, v: Id| u != v && !same_context(context(u), context(v)) && compatible(u, v)
}

/// The observations near `query` are seen as they are: each is a member of
/// `s`, or the query itself, with its own context and the outcome of the
/// test against the query; the query has its own context too; and every
/// member of `s` that is compatible with the query is among them.
pub open spec fn sees<Id>(
    query: Unique<Observation<Id>, Id>,
    s: Set<Id>,
    compatible: spec_fn(Id, Id) -> bool,
    context: spec_fn(Id) -> Option<u128>,
) -> bool {
    &&& query.data.context == context(query.id)
    &&& forall|i: int|
        0 <= i < query.data.nearby@.len() ==> {
            let other = #[trigger] query.data.nearby@[i];
            &&& s.contains(other.id) || other.id == query.id
            &&& other.data.context == context(other.id)
            &&& other.data.compatible == compatible(query.id, other.id)
        }
    &&& forall|v: Id|
        s.contains(v) && compatible(query.id, v) ==> exists|i: int|
            0 <= i < query.data.nearby@.len() && (#[trigger] query.data.nearby@[i]).id == v
}

/// The graph that a relation draws on a set of observations: each member
/// that is related to another member, mapped to the members related to it.
pub open spec fn relation_graph<Id>(rel: spec_fn(Id, Id) -> bool, s: Set<Id>) -> Map<Id, Set<Id>> {
    Map::new(
        |u: Id| s.contains(u) && related(rel, s, u) != Set::<Id>::empty(),
        |u: Id| related(rel, s, u),
    )
}

/// The graph after the observations in `order` were inserted one by one,
/// each joined to those before it that are related to it.
pub open spec fn grown_graph<Id>(rel: spec_fn(Id, Id) -> bool, order: Seq<Id>) -> Map<Id, Set<Id>>
    decreases order.len(),
{
    if order.len() == 0 {
        Map::empty()
    } else {
        with_vertex(
            grown_graph(rel, order.drop_last()),
            order.last(),
            related(rel, order.drop_last().to_set(), order.last()),
        )
    }
}

/// The cliques after the observations in `order` were inserted one by
/// one: each insertion replaces the cliques over its region.
pub open spec fn grown_cliques<Id>(rel: spec_fn(Id, Id) -> bool, order: Seq<Id>) -> Set<Set<Id>>
    decreases order.len(),
{
    if order.len() == 0 {
        Set::empty()
    } else {
        cliques_after_insert(
            grown_cliques(rel, order.drop_last()),
            grown_graph(rel, order),
            order.last(),
            related(rel, order.drop_last().to_set(), order.last()),
        )
    }
}

/// Every insertion of `order` that joined the new observation to another
/// one was local: no maximal clique of the graph after it had members on
/// both sides of the border of its region.
pub open spec fn all_local<Id>(rel: spec_fn(Id, Id) -> bool, order: Seq<Id>) -> bool {
    forall|k: int|
        #![trigger order.take(k)]
        1 <= k <= order.len() && related(rel, order.take(k - 1).to_set(), order[k - 1]) != Set::<
            Id,
        >::empty() ==> insertion_is_local(
            grown_graph(rel, order.take(k)),
            order[k - 1],
            related(rel, order.take(k - 1).to_set(), order[k - 1]),
        )
}

/// Nothing is missed: where the observations near a query are seen as they
/// are, the query may be fused with exactly the members of the set that are
/// other observations, do not share a context with it, and are compatible
/// with it.
pub proof fn lemma_fusable_is_related<Id>(
    query: Unique<Observation<Id>, Id>,
    s: Set<Id>,
    compatible: spec_fn(Id, Id) -> bool,
    context: spec_fn(Id) -> Option<u128>,
)
    requires
        sees(query, s, compatible, context),
    ensures
        fusable(query) == related(fusion_relation(compatible, context), s, query.id),
{
    let rel = fusion_relation(compatible, context);
    assert forall|v: Id| fusable(query).contains(v) <==> related(rel, s, query.id).contains(v) by {
        if fusable(query).contains(v) {
            let i = choose|i: int|
                0 <= i < query.data.nearby@.len() && query.data.nearby@[i].id == v && may_fuse(
                    query,
                    #[trigger] query.data.nearby@[i],
                );
            assert(rel(query.id, v));
        }
        if related(rel, s, query.id).contains(v) {
            assert(rel(query.id, v));
            let i = choose|i: int|
                0 <= i < query.data.nearby@.len() && (#[trigger] query.data.nearby@[i]).id == v;
            assert(may_fuse(query, query.data.nearby@[i]));
        }
    }
    assert(fusable(query) =~= related(rel, s, query.id));
}

/// The fusion rule gives a relation that holds both ways round or not at
/// all, and of no observation with itself, if the test of compatibility
/// gives the same outcome from both sides.
pub proof fn lemma_fusion_relation_symmetric<Id>(
    compatible: spec_fn(Id, Id) -> bool,
    context: spec_fn(Id) -> Option<u128>,
)
    requires
        forall|u: Id, v: Id| #[trigger] compatible(u, v) ==> compatible(v, u),
    ensures
        symmetric_irreflexive(fusion_relation(compatible, context)),
{
    let rel = fusion_relation(compatible, context);
    assert forall|u: Id, v: Id| #[trigger] rel(u, v) implies rel(v, u) && u != v by {
        assert(compatible(u, v));
    }
}

/// Two observations are joined by an edge of the graph of a relation if
/// and only if both are in the set and they are related.
pub proof fn lemma_relation_graph_edges<Id>(rel: spec_fn(Id, Id) -> bool, s: Set<Id>, u: Id, v: Id)
    requires
        symmetric_irreflexive(rel),
    ensures
        adjacent(relation_graph(rel, s), u, v) <==> s.contains(u) && s.contains(v) && rel(u, v),
        undirected(relation_graph(rel, s)),
{
    if s.contains(u) && s.contains(v) && rel(u, v) {
        assert(related(rel, s, u).contains(v));
    }
    let g = relation_graph(rel, s);
    assert forall|a: Id, b: Id| #[trigger] adjacent(g, a, b) implies adjacent(g, b, a) && a != b by {
        assert(related(rel, s, a).contains(b));
        assert(rel(a, b));
        assert(related(rel, s, b).contains(a));
    }
}

/// One insertion: joining a new observation to the members related to it
/// turns the graph of the relation on a set into that on the set with the
/// new observation.
pub proof fn lemma_insert_follows_relation<Id>(rel: spec_fn(Id, Id) -> bool, s: Set<Id>, id: Id)
    requires
        symmetric_irreflexive(rel),
        !s.contains(id),
    ensures
        with_vertex(relation_graph(rel, s), id, related(rel, s, id)) == relation_graph(
            rel,
            s.insert(id),
        ),
{
    let n = related(rel, s, id);
    let g = relation_graph(rel, s);
    let left = with_vertex(g, id, n);
    let right = relation_graph(rel, s.insert(id));
    assert(related(rel, s.insert(id), id) =~= n);
    if n == Set::<Id>::empty() {
        assert forall|u: Id| s.contains(u) implies related(rel, s.insert(id), u) =~= related(rel, s, u) by {
            if rel(u, id) {
                assert(n.contains(u));
            }
        }
    } else {
        assert forall|u: Id| left.contains_key(u) <==> right.contains_key(u) by {
            if u != id && s.contains(u) {
                if n.contains(u) {
                    assert(related(rel, s.insert(id), u).contains(id));
                } else if related(rel, s, u) != Set::<Id>::empty() {
                    let v = choose|v: Id| related(rel, s, u).contains(v);
                    if forall|v: Id| !related(rel, s, u).contains(v) {
                        assert(related(rel, s, u) =~= Set::<Id>::empty());
                    }
                    assert(related(rel, s.insert(id), u).contains(v));
                } else if related(rel, s.insert(id), u) != Set::<Id>::empty() {
                    if forall|v: Id| !related(rel, s.insert(id), u).contains(v) {
                        assert(related(rel, s.insert(id), u) =~= Set::<Id>::empty());
                    }
                    let v = choose|v: Id| related(rel, s.insert(id), u).contains(v);
                    if v != id {
                        assert(related(rel, s, u).contains(v));
                    }
                }
            }
        }
        assert forall|u: Id| left.contains_key(u) implies left[u] =~= right[u] by {}
    }
}

/// One insertion into an index: where the graph is that of the fusion rule
/// on the observations inserted so far, and the new observation sees those
/// near it as they are, the graph after the insertion is that of the fusion
/// rule on the observations with the new one. So two observations are
/// joined by an edge if and only if they are two, do not share a context,
/// and are compatible.
pub proof fn lemma_insert_follows_fusion_rule<Id>(
    graph: Map<Id, Set<Id>>,
    observation: Unique<Observation<Id>, Id>,
    s: Set<Id>,
    compatible: spec_fn(Id, Id) -> bool,
    context: spec_fn(Id) -> Option<u128>,
)
    requires
        forall|u: Id, v: Id| #[trigger] compatible(u, v) ==> compatible(v, u),
        graph == relation_graph(fusion_relation(compatible, context), s),
        !s.contains(observation.id),
        sees(observation, s, compatible, context),
    ensures
        with_vertex(graph, observation.id, fusable(observation)) == relation_graph(
            fusion_relation(compatible, context),
            s.insert(observation.id),
        ),
{
    lemma_fusion_relation_symmetric(compatible, context);
    lemma_fusable_is_related(observation, s, compatible, context);
    lemma_insert_follows_relation(fusion_relation(compatible, context), s, observation.id);
}

/// Any order of insertion: the graph grown by inserting observations one
/// by one is the graph of the relation on the set of them. So it does not
/// depend on the order, and it is the graph of the batch.
pub proof fn lemma_grown_graph_is_relation_graph<Id>(rel: spec_fn(Id, Id) -> bool, order: Seq<Id>)
    requires
        symmetric_irreflexive(rel),
        order.no_duplicates(),
    ensures
        grown_graph(rel, order) == relation_graph(rel, order.to_set()),
    decreases order.len(),
{
    if order.len() > 0 {
        let rest = order.drop_last();
        let id = order.last();
        lemma_grown_graph_is_relation_graph(rel, rest);
        assert(order =~= rest.push(id));
        lemma_push_to_set(rest, id);
        if rest.to_set().contains(id) {
            let j = choose|j: int| 0 <= j < rest.len() && rest[j] == id;
            assert(order[j] == order[order.len() - 1]);
        }
        lemma_insert_follows_relation(rel, rest.to_set(), id);
    }
}

/// The cliques in any order of insertion: where every insertion was local,
/// the cliques after inserting the observations one by one are the maximal
/// cliques with two or more members of the graph of the relation on the set
/// of them, as a batch of the same observations has them.
pub proof fn lemma_grown_cliques_are_exact<Id>(rel: spec_fn(Id, Id) -> bool, order: Seq<Id>)
    requires
        symmetric_irreflexive(rel),
        order.no_duplicates(),
        all_local(rel, order),
    ensures
        grown_cliques(rel, order) == maximal_cliques(relation_graph(rel, order.to_set()), 2),
    decreases order.len(),
{
    if order.len() == 0 {
        let g = relation_graph(rel, order.to_set());
        assert forall|c: Set<Id>| !maximal_cliques(g, 2).contains(c) by {
            if maximal_cliques(g, 2).contains(c) {
                assert(c =~= Set::<Id>::empty());
            }
        }
    } else {
        let rest = order.drop_last();
        let id = order.last();
        let s = rest.to_set();
        let n = related(rel, s, id);
        let g = relation_graph(rel, s);
        assert(all_local(rel, rest)) by {
            assert forall|k: int|
                #![trigger rest.take(k)]
                1 <= k <= rest.len() && related(rel, rest.take(k - 1).to_set(), rest[k - 1]) != Set::<
                    Id,
                >::empty() implies insertion_is_local(
                grown_graph(rel, rest.take(k)),
                rest[k - 1],
                related(rel, rest.take(k - 1).to_set(), rest[k - 1]),
            ) by {
                assert(rest.take(k) =~= order.take(k));
                assert(rest.take(k - 1) =~= order.take(k - 1));
            }
        }
        lemma_grown_cliques_are_exact(rel, rest);
        lemma_grown_graph_is_relation_graph(rel, rest);
        lemma_grown_graph_is_relation_graph(rel, order);
        lemma_relation_graph_edges(rel, s, id, id);
        seq_to_set_is_finite(rest);
        lemma_push_to_set(rest, id);
        if s.contains(id) {
            let j = choose|j: int| 0 <= j < rest.len() && rest[j] == id;
            assert(order[j] == order[order.len() - 1]);
        }
        assert(g.dom().finite()) by {
            vstd::set_lib::lemma_len_subset(g.dom(), s);
        }
        assert(n.finite()) by {
            vstd::set_lib::lemma_len_subset(n, s);
        }
        lemma_insert_exact(g, id, n);
        if n != Set::<Id>::empty() {
            let k = order.len() as int;
            assert(order.take(k) =~= order);
        }
    }
}

/// The batch: where each observation of a batch may be fused with exactly
/// the observations of the batch related to it, and no identifier comes
/// twice, the graph of the batch is the graph of the relation.
pub proof fn lemma_batch_graph_is_relation_graph<Id>(
    rel: spec_fn(Id, Id) -> bool,
    observations: Seq<Unique<Observation<Id>, Id>>,
)
    requires
        forall|i: int, j: int|
            0 <= i < observations.len() && 0 <= j < observations.len() && i != j ==> observations[i].id
                != observations[j].id,
        forall|i: int|
            0 <= i < observations.len() ==> fusable(#[trigger] observations[i]) == related(
                rel,
                batch_ids(observations),
                observations[i].id,
            ),
    ensures
        batch_graph(observations) == relation_graph(rel, batch_ids(observations)),
{
    let ids = batch_ids(observations);
    let right = relation_graph(rel, ids);
    lemma_batch_graph_lookup(observations);
    assert forall|u: Id| batch_graph(observations).contains_key(u) <==> right.contains_key(u) by {
        if right.contains_key(u) {
            let i = choose|i: int| 0 <= i < observations.len() && observations[i].id == u;
            assert(fusable(observations[i]) == related(rel, ids, u));
        }
    }
    assert forall|u: Id| right.contains_key(u) implies batch_graph(observations)[u] == right[u] by {
        let i = choose|i: int| 0 <= i < observations.len() && observations[i].id == u;
        assert(fusable(observations[i]) == related(rel, ids, u));
    }
    assert(batch_graph(observations) =~= right);
}

/// Two exact indexes of one graph hold the same cliques, whichever way
/// each was built, and as many.
pub proof fn lemma_exact_indexes_agree<Id: Copy + Eq + Hash>(a: &CliqueIndex<Id>, b: &CliqueIndex<Id>)
    requires
        a.wf(),
        b.wf(),
        a.is_exact(),
        b.is_exact(),
        a@.graph == b@.graph,
    ensures
        a@.cliques.to_set() == b@.cliques.to_set(),
        a@.cliques.len() == b@.cliques.len(),
{
    a@.cliques.unique_seq_to_set();
    b@.cliques.unique_seq_to_set();
}

} // verus!
