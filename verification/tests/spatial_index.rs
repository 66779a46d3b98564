use std::collections::{HashMap, HashSet};

use clique_fusion::spatial_index::{compatibility_graph, find_compatible, Candidate, Observation};
use clique_fusion::Unique;
use nalgebra::{Matrix2, Vector2};

/// Chi-squared threshold for 95% confidence in 2D (2 degrees of freedom)
const CHI2_2D_CONFIDENCE_95: f64 = 5.991464547;

/// An observation with its position and the covariance of its error, as
/// the caller of the library holds it.
#[derive(Clone)]
struct Measured {
    id: i32,
    position: Vector2<f64>,
    error: Matrix2<f64>,
    context: Option<u128>,
}

fn circular(id: i32, x: f64, y: f64, radius: f64) -> Measured {
    let variance = (radius * radius) / CHI2_2D_CONFIDENCE_95;
    Measured {
        id,
        position: Vector2::new(x, y),
        error: Matrix2::from_diagonal_element(variance),
        context: None,
    }
}

fn unit(id: i32, x: f64, y: f64) -> Measured {
    Measured { id, position: Vector2::new(x, y), error: Matrix2::identity(), context: None }
}

fn within(mut measured: Measured, context: u128) -> Measured {
    measured.context = Some(context);
    measured
}

/// The squared Mahalanobis distance under the sum of the two covariances,
/// held against the threshold.
fn is_compatible_with(a: &Measured, b: &Measured, chi2: f64) -> bool {
    let delta = a.position - b.position;
    let combined = a.error + b.error;
    if combined.norm() < 1e-15 {
        return false;
    }
    let inverse = match combined.try_inverse() {
        Some(inverse) => inverse,
        None => combined.svd(true, true).pseudo_inverse(1e-12).unwrap(),
    };
    (delta.transpose() * inverse * delta)[(0, 0)] <= chi2
}

/// The query as the library reads it, with everything in `index` near it.
fn seen_from(query: &Measured, index: &[Measured], chi2: f64) -> Unique<Observation<i32>, i32> {
    let nearby = index
        .iter()
        .map(|other| Unique {
            id: other.id,
            data: Candidate {
                context: other.context,
                compatible: is_compatible_with(other, query, chi2),
            },
        })
        .collect();
    Unique { id: query.id, data: Observation { context: query.context, nearby } }
}

fn candidate(id: i32, context: Option<u128>, compatible: bool) -> Unique<Candidate, i32> {
    Unique { id, data: Candidate { context, compatible } }
}

fn query(id: i32, context: Option<u128>, nearby: Vec<Unique<Candidate, i32>>) -> Unique<Observation<i32>, i32> {
    Unique { id, data: Observation { context, nearby } }
}

fn ids(list: &[i32]) -> HashSet<i32> {
    list.iter().copied().collect()
}

#[test]
fn find_compatible_excludes_self() {
    // Create a simple observation with circular error
    let query_obs = circular(1, 0.0, 0.0, 1.0);

    // Create an index with just this one observation
    let index = vec![query_obs.clone()];

    // Find compatible observations
    let compatibles = find_compatible(&seen_from(&query_obs, &index, CHI2_2D_CONFIDENCE_95)).len();

    // Should be empty - the observation should not be compatible with itself
    assert_eq!(
        compatibles, 0,
        "find_compatible should not return the query observation itself"
    );
}

#[test]
fn find_compatible_with_multiple_observations() {
    // Create multiple observations at the same location with different IDs
    let obs1 = circular(1, 0.0, 0.0, 2.0);
    let obs2 = circular(2, 0.0, 0.0, 2.0);
    let obs3 = circular(3, 0.0, 0.0, 2.0);

    let index = vec![obs1.clone(), obs2.clone(), obs3.clone()];

    // Find compatible observations for obs1
    let compatibles: Vec<i32> = find_compatible(&seen_from(&obs1, &index, CHI2_2D_CONFIDENCE_95))
        .into_iter()
        .collect();

    // Should find obs2 and obs3, but not obs1 itself
    assert_eq!(
        compatibles.len(),
        2,
        "Should find 2 compatible observations"
    );
    assert!(
        !compatibles.iter().any(|id| *id == obs1.id),
        "Should not include the query observation"
    );
    assert!(
        compatibles.iter().any(|id| *id == obs2.id),
        "Should include obs2"
    );
    assert!(
        compatibles.iter().any(|id| *id == obs3.id),
        "Should include obs3"
    );
}

#[test]
fn find_compatible_with_overlapping_error_ellipses() {
    // Create observations that are close enough to be mutually compatible
    let obs1 = unit(1, 0.0, 0.0);
    let obs2 = unit(2, 1.0, 0.0);
    let obs3 = unit(3, 10.0, 0.); // Far away

    let index = vec![obs1.clone(), obs2.clone(), obs3.clone()];

    // Find compatible observations for obs1
    let compatibles: Vec<i32> = find_compatible(&seen_from(&obs1, &index, CHI2_2D_CONFIDENCE_95))
        .into_iter()
        .collect();

    // Should find obs2 but not obs3 (too far) and not obs1 itself
    assert_eq!(compatibles.len(), 1, "Should find 1 compatible observation");
    assert!(
        !compatibles.iter().any(|id| *id == obs1.id),
        "Should not include the query observation"
    );
    assert!(
        compatibles.iter().any(|id| *id == obs2.id),
        "Should include obs2"
    );
    assert!(
        !compatibles.iter().any(|id| *id == obs3.id),
        "Should not include obs3 (too far)"
    );
}

#[test]
fn find_compatible_without_candidates_finds_nothing() {
    assert!(find_compatible(&query(1, None, vec![])).is_empty());
    assert!(find_compatible(&query(1, Some(4), vec![])).is_empty());
}

#[test]
fn find_compatible_leaves_out_incompatible_candidates() {
    let found = find_compatible(&query(
        1,
        None,
        vec![candidate(2, None, true), candidate(3, None, false), candidate(4, None, true)],
    ));
    assert_eq!(found, ids(&[2, 4]));
}

#[test]
fn find_compatible_leaves_out_the_same_context() {
    let found = find_compatible(&query(
        1,
        Some(77),
        vec![
            candidate(2, Some(77), true),
            candidate(3, Some(78), true),
            candidate(4, None, true),
        ],
    ));
    assert_eq!(found, ids(&[3, 4]));
}

#[test]
fn find_compatible_without_context_takes_every_context() {
    // two observations without a context do not share one
    let found = find_compatible(&query(
        1,
        None,
        vec![candidate(2, Some(77), true), candidate(3, None, true)],
    ));
    assert_eq!(found, ids(&[2, 3]));
}

#[test]
fn find_compatible_takes_the_zero_context_for_a_context() {
    let found = find_compatible(&query(
        1,
        Some(0),
        vec![candidate(2, Some(0), true), candidate(3, None, true)],
    ));
    assert_eq!(found, ids(&[3]));
}

#[test]
fn find_compatible_lists_a_repeated_candidate_once() {
    let found = find_compatible(&query(
        1,
        None,
        vec![candidate(2, None, true), candidate(2, None, true), candidate(1, None, true)],
    ));
    assert_eq!(found, ids(&[2]));
}

#[test]
fn find_compatible_takes_a_candidate_that_passes_once() {
    // the same identifier, once failing and once passing the rule
    let found = find_compatible(&query(
        1,
        Some(5),
        vec![candidate(2, Some(5), true), candidate(2, Some(6), true), candidate(3, None, false)],
    ));
    assert_eq!(found, ids(&[2]));
}

#[test]
fn find_compatible_returns_every_candidate_that_passes() {
    // all combinations of context and outcome, against a query with and
    // one without a context
    let contexts = [None, Some(1u128), Some(2u128)];
    for query_context in contexts {
        let mut nearby = Vec::new();
        let mut expected = HashSet::new();
        let mut id = 10;
        for context in contexts {
            for compatible in [false, true] {
                nearby.push(candidate(id, context, compatible));
                let shared = query_context.is_some() && query_context == context;
                if compatible && !shared {
                    expected.insert(id);
                }
                id += 1;
            }
        }
        nearby.push(candidate(1, None, true));
        assert_eq!(find_compatible(&query(1, query_context, nearby)), expected);
    }
}

#[test]
fn same_context_observations_are_not_fused() {
    let first = within(circular(1, 0.0, 0.0, 5.0), 42);
    let second = within(circular(2, 0.0, 0.0, 5.0), 42);
    let index = vec![first.clone(), second.clone()];
    assert!(is_compatible_with(&first, &second, CHI2_2D_CONFIDENCE_95));
    assert!(find_compatible(&seen_from(&first, &index, CHI2_2D_CONFIDENCE_95)).is_empty());
    assert!(find_compatible(&seen_from(&second, &index, CHI2_2D_CONFIDENCE_95)).is_empty());
}

#[test]
fn compatibility_graph_of_nothing_is_empty() {
    let graph = compatibility_graph::<i32>(&vec![]);
    assert!(graph.is_empty());
}

#[test]
fn compatibility_graph_leaves_out_lonely_observations() {
    let batch = vec![
        query(1, None, vec![candidate(1, None, true), candidate(2, None, true)]),
        query(2, None, vec![candidate(1, None, true), candidate(2, None, true)]),
        query(3, None, vec![candidate(3, None, true), candidate(1, None, false)]),
        query(4, None, vec![]),
    ];
    let graph = compatibility_graph(&batch);
    let expected = HashMap::from([(1, ids(&[2])), (2, ids(&[1]))]);
    assert_eq!(graph, expected);
}

#[test]
fn compatibility_graph_follows_the_geometry() {
    let batch = vec![unit(1, 0.0, 0.0), unit(2, 1.0, 0.0), unit(3, 10.0, 0.0), unit(4, 11.0, 1.0)];
    let seen: Vec<_> = batch
        .iter()
        .map(|observation| seen_from(observation, &batch, CHI2_2D_CONFIDENCE_95))
        .collect();
    let graph = compatibility_graph(&seen);
    let expected = HashMap::from([
        (1, ids(&[2])),
        (2, ids(&[1])),
        (3, ids(&[4])),
        (4, ids(&[3])),
    ]);
    assert_eq!(graph, expected);
}

#[test]
fn compatibility_graph_takes_the_later_of_two_observations_with_one_name() {
    let batch = vec![
        query(1, None, vec![candidate(2, None, true)]),
        query(1, None, vec![candidate(3, None, true)]),
    ];
    let graph = compatibility_graph(&batch);
    assert_eq!(graph, HashMap::from([(1, ids(&[3]))]));
}
