//! Observations as the index reads them, and the rule that decides with
//! which of the observations near it an observation may be fused.
//!
//! Where two observations lie and how uncertain their positions are is the
//! caller's matter. The caller searches its own spatial index for the
//! observations near a query and tests each against the query; this module
//! takes the outcome and applies the rest of the rule.

use vstd::prelude::*;
use std::collections::HashMap;
use std::collections::HashSet;
use std::hash::Hash;
use vstd::std_specs::hash::obeys_key_model;
use crate::graph::graph_view;

verus! {

broadcast use vstd::std_specs::hash::group_hash_axioms;

/// A payload paired with the identifier that names it.
#[derive(Debug, Clone, PartialEq, Eq)]
pub struct Unique<T, Id> {
    /// The wrapped payload.
    pub data: T,
    /// Unique identifier for the wrapped item.
    pub id: Id,
}

/// An observation found near a query.
#[derive(Debug, Clone, Copy, PartialEq, Eq)]
pub struct Candidate {
    /// The context in which the observation was made, if it has one.
    pub context: Option<u128>,
    /// Whether the observation passed the statistical test of compatibility
    /// with the query.
    pub compatible: bool,
}

/// An observation as the index reads it: the context in which it was made,
/// and the observations found near it. Observations made in one context,
/// such as two marks in one image, are known to be of different objects and
/// are never fused.
#[derive(Debug, Clone)]
pub struct Observation<Id> {
    /// The context of the observation, if it has one.
    pub context: Option<u128>,
    /// The observations in the index that lie near enough to be compatible,
    /// each with the outcome of the test against this observation.
    pub nearby: Vec<Unique<Candidate, Id>>,
}

/// Two observations share a context: both have one, and it is the same.
pub open spec fn same_context(a: Option<u128>, b: Option<u128>) -> bool {
    a is Some && a == b
}

/// The query may be fused with the candidate: they are two observations,
/// do not share a context, and are compatible.
pub open spec fn may_fuse<Id>(query: Unique<Observation<Id>, Id>, other: Unique<Candidate, Id>) -> bool {
    &&& other.id != query.id
    &&& !same_context(query.data.context, other.data.context)
    &&& other.data.compatible
}

/// The observations with which the query may be fused: the candidates near
/// it that pass the rule.
pub open spec fn fusable<Id>(query: Unique<Observation<Id>, Id>) -> Set<Id> {
    Set::new(
        |id: Id|
            exists|i: int|
                0 <= i < query.data.nearby@.len() && query.data.nearby@[i].id == id && may_fuse(
                    query,
                    #[trigger] query.data.nearby@[i],
                ),
    )
}

/// The identifiers of the observations of a batch.
pub open spec fn batch_ids<Id>(observations: Seq<Unique<Observation<Id>, Id>>) -> Set<Id> {
    Set::new(|u: Id| exists|i: int| 0 <= i < observations.len() && observations[i].id == u)
}

/// The graph of a batch: each observation that may be fused with another,
/// mapped to the observations with which it may. Where an identifier comes
/// twice, the later observation counts.
pub open spec fn batch_graph<Id>(observations: Seq<Unique<Observation<Id>, Id>>) -> Map<Id, Set<Id>>
    decreases observations.len(),
{
    if observations.len() == 0 {
        Map::empty()
    } else if fusable(observations.last()) == Set::<Id>::empty() {
        batch_graph(observations.drop_last())
    } else {
        batch_graph(observations.drop_last()).insert(
            observations.last().id,
            fusable(observations.last()),
        )
    }
}

/// Finds the observations with which a query may be fused: those near it
/// that are not the query itself, do not share a context with it, and are
/// compatible with it.
pub fn find_compatible<Id: Copy + Eq + Hash>(
    query: &Unique<Observation<Id>, Id>,
) -> (found: HashSet<Id>)
    requires
        obeys_key_model::<Id>(),
    ensures
        found@ == fusable(*query),
{
    let nearby = &query.data.nearby;
    let mut found: HashSet<Id> = HashSet::new();
    let mut i: usize = 0;
    while i < nearby.len()
        invariant
            obeys_key_model::<Id>(),
            nearby == &query.data.nearby,
            0 <= i <= nearby.len(),
            forall|id: Id|
                found@.contains(id) <==> exists|j: int|
                    0 <= j < i && nearby@[j].id == id && !same_context(
                        query.data.context,
                        (#[trigger] nearby@[j]).data.context,
                    ) && nearby@[j].data.compatible,
        decreases nearby.len() - i,
    {
        let other = &nearby[i];
        if !shares_context(query.data.context, other.data.context) && other.data.compatible {
            found.insert(other.id);
        }
        i += 1;
    }
    // The query itself is taken out at the end: what a hash set holds to be
    // the same identifier is what the contract holds to be the same.
    found.remove(&query.id);
    found
}

/// Whether two observations share a context.
fn shares_context(a: Option<u128>, b: Option<u128>) -> (shared: bool)
    ensures
        shared == same_context(a, b),
{
    match (a, b) {
        (Some(first), Some(second)) => first == second,
        _ => false,
    }
}

/// Builds the graph that connects the observations of a batch that may be
/// fused. Each observation names the observations of the batch near it.
/// Observations that may be fused with none are left out of the graph.
pub fn compatibility_graph<Id: Copy + Eq + Hash>(
    observations: &Vec<Unique<Observation<Id>, Id>>,
) -> (graph: HashMap<Id, HashSet<Id>>)
    requires
        obeys_key_model::<Id>(),
    ensures
        graph_view(graph@) == batch_graph(observations@),
{
    let ghost batch = observations@;
    let mut graph: HashMap<Id, HashSet<Id>> = HashMap::new();
    let mut i: usize = 0;
    while i < observations.len()
        invariant
            obeys_key_model::<Id>(),
            batch == observations@,
            0 <= i <= batch.len(),
            graph_view(graph@) == batch_graph(batch.take(i as int)),
        decreases batch.len() - i,
    {
        let observation = &observations[i];
        let compatibles = find_compatible(observation);
        proof {
            assert(batch.take(i + 1).drop_last() =~= batch.take(i as int));
        }
        if !compatibles.is_empty() {
            graph.insert(observation.id, compatibles);
        }
        i += 1;
    }
    proof {
        assert(batch.take(batch.len() as int) =~= batch);
    }
    graph
}

/// Every vertex of the graph of a batch is an observation of the batch
/// that may be fused with another, with the observations with which one
/// such observation may.
pub proof fn lemma_batch_graph_entries<Id>(observations: Seq<Unique<Observation<Id>, Id>>)
    ensures
        forall|v: Id| #[trigger]
            batch_graph(observations).contains_key(v) ==> exists|i: int|
                0 <= i < observations.len() && observations[i].id == v && fusable(observations[i])
                    == batch_graph(observations)[v] && fusable(observations[i]) != Set::<Id>::empty(),
    decreases observations.len(),
{
    if observations.len() > 0 {
        let rest = observations.drop_last();
        lemma_batch_graph_entries(rest);
        assert forall|v: Id| #[trigger] batch_graph(observations).contains_key(v) implies exists|i: int|
            0 <= i < observations.len() && observations[i].id == v && fusable(observations[i])
                == batch_graph(observations)[v] && fusable(observations[i]) != Set::<Id>::empty() by {
            let last = observations.last();
            if fusable(last) != Set::<Id>::empty() && v == last.id {
                assert(observations[observations.len() - 1].id == v);
            } else {
                let i = choose|i: int|
                    0 <= i < rest.len() && rest[i].id == v && fusable(rest[i]) == batch_graph(rest)[v]
                        && fusable(rest[i]) != Set::<Id>::empty();
                assert(observations[i].id == v && fusable(observations[i]) == batch_graph(
                    observations,
                )[v]);
            }
        }
    }
}

/// In a batch without a repeated identifier, the graph holds each
/// observation that may be fused with another, with those with which it
/// may, and no other vertex.
pub proof fn lemma_batch_graph_lookup<Id>(observations: Seq<Unique<Observation<Id>, Id>>)
    requires
        forall|i: int, j: int|
            0 <= i < observations.len() && 0 <= j < observations.len() && i != j ==> observations[i].id
                != observations[j].id,
    ensures
        forall|i: int|
            0 <= i < observations.len() && fusable(#[trigger] observations[i]) != Set::<Id>::empty()
                ==> batch_graph(observations).contains_key(observations[i].id) && batch_graph(
                observations,
            )[observations[i].id] == fusable(observations[i]),
        forall|u: Id| #[trigger]
            batch_graph(observations).contains_key(u) ==> exists|i: int|
                0 <= i < observations.len() && observations[i].id == u && fusable(observations[i])
                    != Set::<Id>::empty(),
    decreases observations.len(),
{
    if observations.len() > 0 {
        let rest = observations.drop_last();
        let last = observations.last();
        lemma_batch_graph_lookup(rest);
        assert forall|i: int|
            0 <= i < observations.len() && fusable(#[trigger] observations[i]) != Set::<Id>::empty()
                implies batch_graph(observations).contains_key(observations[i].id) && batch_graph(
            observations,
        )[observations[i].id] == fusable(observations[i]) by {
            if i < rest.len() {
                assert(rest[i] == observations[i]);
            }
        }
        assert forall|u: Id| #[trigger] batch_graph(observations).contains_key(u) implies exists|i: int|
            0 <= i < observations.len() && observations[i].id == u && fusable(observations[i])
                != Set::<Id>::empty() by {
            if fusable(last) != Set::<Id>::empty() && u == last.id {
                assert(observations[observations.len() - 1].id == u);
            } else {
                assert(batch_graph(rest).contains_key(u));
                let i = choose|i: int|
                    0 <= i < rest.len() && rest[i].id == u && fusable(rest[i]) != Set::<Id>::empty();
                assert(observations[i] == rest[i]);
            }
        }
    }
}

} // verus!
