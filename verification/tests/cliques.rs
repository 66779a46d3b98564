use std::collections::{BTreeSet, HashMap, HashSet};

use clique_fusion::cliques::{bron_kerbosch_pivot, select_optimal_pivot};
use clique_fusion::find_maximal_cliques;
use uuid::Uuid;

/// Graph builder utility for constructing test graphs more ergonomically.
///
/// This provides a fluent interface for building graphs in tests while maintaining
/// the same internal representation used by the algorithm.
struct GraphBuilder {
    vertices: Vec<Uuid>,
    graph: HashMap<Uuid, HashSet<Uuid>>,
}

impl GraphBuilder {
    fn with_vertices(count: usize) -> Self {
        let vertices: Vec<Uuid> = (0..count).map(|_| Uuid::new_v4()).collect();
        let mut graph = HashMap::with_capacity(count);

        // Initialize empty adjacency lists
        for &vertex in &vertices {
            graph.insert(vertex, HashSet::new());
        }

        Self { vertices, graph }
    }

    fn add_edge(mut self, u: usize, v: usize) -> Self {
        if u < self.vertices.len() && v < self.vertices.len() && u != v {
            let u_id = self.vertices[u];
            let v_id = self.vertices[v];

            self.graph.get_mut(&u_id).unwrap().insert(v_id);
            self.graph.get_mut(&v_id).unwrap().insert(u_id);
        }
        self
    }

    fn build(self) -> (HashMap<Uuid, HashSet<Uuid>>, Vec<Uuid>) {
        (self.graph, self.vertices)
    }
}

/// An undirected graph on small numbers, from a list of edges and a list of
/// vertices without any.
fn graph_of(edges: &[(u32, u32)], lonely: &[u32]) -> HashMap<u32, HashSet<u32>> {
    let mut graph: HashMap<u32, HashSet<u32>> = HashMap::new();
    for &(u, v) in edges {
        graph.entry(u).or_default().insert(v);
        graph.entry(v).or_default().insert(u);
    }
    for &v in lonely {
        graph.entry(v).or_default();
    }
    graph
}

/// The cliques as sorted sets in sorted order.
fn canonical(cliques: &[HashSet<u32>]) -> Vec<BTreeSet<u32>> {
    let mut sorted: Vec<BTreeSet<u32>> =
        cliques.iter().map(|clique| clique.iter().copied().collect()).collect();
    sorted.sort();
    sorted
}

fn sets(lists: &[&[u32]]) -> Vec<BTreeSet<u32>> {
    let mut sorted: Vec<BTreeSet<u32>> =
        lists.iter().map(|list| list.iter().copied().collect()).collect();
    sorted.sort();
    sorted
}

/// Every set of vertices of the graph that is a clique no vertex extends,
/// found by trying all subsets.
fn maximal_cliques_by_search(graph: &HashMap<u32, HashSet<u32>>) -> Vec<BTreeSet<u32>> {
    let mut vertices: Vec<u32> = graph.keys().copied().collect();
    vertices.sort();
    let mut found = Vec::new();
    for mask in 1u32..(1u32 << vertices.len()) {
        let members: Vec<u32> = (0..vertices.len())
            .filter(|i| mask & (1 << i) != 0)
            .map(|i| vertices[i])
            .collect();
        let is_clique = members
            .iter()
            .all(|u| members.iter().all(|v| u == v || graph[u].contains(v)));
        let extended = vertices
            .iter()
            .any(|w| !members.contains(w) && members.iter().all(|u| graph[u].contains(w)));
        if is_clique && !extended {
            found.push(members.into_iter().collect());
        }
    }
    found.sort();
    found
}

#[test]
fn empty_graph_produces_no_cliques() {
    let cliques = find_maximal_cliques::<i32>(&HashMap::new());
    assert!(cliques.is_empty());
}

#[test]
fn isolated_vertex_forms_singleton_clique() {
    let (graph, vertices) = GraphBuilder::with_vertices(1).build();

    let cliques = find_maximal_cliques(&graph);
    assert_eq!(cliques.len(), 1);
    assert_eq!(cliques[0].len(), 1);
    assert!(cliques[0].contains(&vertices[0]));
}

#[test]
fn triangle_forms_single_3clique() {
    let (graph, vertices) = GraphBuilder::with_vertices(3)
        .add_edge(0, 1)
        .add_edge(1, 2)
        .add_edge(2, 0)
        .build();

    let cliques = find_maximal_cliques(&graph);
    assert_eq!(cliques.len(), 1);
    assert_eq!(cliques[0].len(), 3);

    // Verify all vertices are in the clique
    for &vertex in &vertices {
        assert!(cliques[0].contains(&vertex));
    }
}

#[test]
fn path_graph_produces_edge_cliques() {
    // Path: 0-1-2-3 should produce cliques {0,1}, {1,2}, {2,3}
    let (graph, _) = GraphBuilder::with_vertices(4)
        .add_edge(0, 1)
        .add_edge(1, 2)
        .add_edge(2, 3)
        .build();

    let cliques = find_maximal_cliques(&graph);
    assert_eq!(cliques.len(), 3);

    // All cliques should be edges (size 2)
    for clique in &cliques {
        assert_eq!(clique.len(), 2);
    }
}

#[test]
fn disconnected_components_produce_separate_cliques() {
    // Two edges: 0-1 and 2-3
    let (graph, _) = GraphBuilder::with_vertices(4)
        .add_edge(0, 1)
        .add_edge(2, 3)
        .build();

    let cliques = find_maximal_cliques(&graph);
    assert_eq!(cliques.len(), 2);

    for clique in &cliques {
        assert_eq!(clique.len(), 2);
    }
}

#[test]
fn complete_graph_k4_has_single_4clique() {
    // Complete graph on 4 vertices - all connected to all
    let (graph, vertices) = GraphBuilder::with_vertices(4)
        .add_edge(0, 1)
        .add_edge(0, 2)
        .add_edge(0, 3)
        .add_edge(1, 2)
        .add_edge(1, 3)
        .add_edge(2, 3)
        .build();

    let cliques = find_maximal_cliques(&graph);
    assert_eq!(cliques.len(), 1);
    assert_eq!(cliques[0].len(), 4);

    // Should contain all vertices
    for &vertex in &vertices {
        assert!(cliques[0].contains(&vertex));
    }
}

#[test]
fn handles_malformed_graph_gracefully() {
    // Graph with missing adjacency entries
    let mut graph = HashMap::new();

    // v1 references v2, but v2 has no entry in the graph
    graph.insert(1, std::iter::once(2).collect());
    // v2 is missing entirely

    let cliques = find_maximal_cliques(&graph);

    // Should handle gracefully without panicking
    assert!(!cliques.is_empty());
}

#[test]
fn large_sparse_graph_performance() {
    // Create a graph with multiple disconnected triangles
    // Each triangle will form exactly one maximal clique of size 3
    let mut builder = GraphBuilder::with_vertices(999); // Use 99 to get exactly 33 triangles

    // Create disconnected triangles: (0,1,2), (3,4,5), (6,7,8), etc.
    for i in (0..999).step_by(3) {
        if i + 2 < 999 {
            builder = builder
                .add_edge(i, i + 1)
                .add_edge(i + 1, i + 2)
                .add_edge(i + 2, i);
        }
    }

    let (graph, _) = builder.build();
    let cliques = find_maximal_cliques(&graph);

    // Should find exactly 333 triangular cliques (999/3)
    assert_eq!(cliques.len(), 333);

    // All cliques should be triangles
    for clique in &cliques {
        assert_eq!(clique.len(), 3);
    }
}

#[test]
fn path_graph_cliques_are_its_edges() {
    let graph = graph_of(&[(0, 1), (1, 2), (2, 3)], &[]);
    let cliques = find_maximal_cliques(&graph);
    assert_eq!(canonical(&cliques), sets(&[&[0, 1], &[1, 2], &[2, 3]]));
}

#[test]
fn isolated_vertices_are_cliques_of_one() {
    let graph = graph_of(&[(1, 2)], &[7, 9]);
    let cliques = find_maximal_cliques(&graph);
    assert_eq!(canonical(&cliques), sets(&[&[1, 2], &[7], &[9]]));
}

#[test]
fn overlapping_triangles_share_an_edge() {
    // 0-1-2 and 1-2-3 are triangles; 0 and 3 are not joined
    let graph = graph_of(&[(0, 1), (0, 2), (1, 2), (1, 3), (2, 3)], &[]);
    let cliques = find_maximal_cliques(&graph);
    assert_eq!(canonical(&cliques), sets(&[&[0, 1, 2], &[1, 2, 3]]));
}

#[test]
fn each_maximal_clique_is_listed_once() {
    // a wheel: hub 0 joined to the cycle 1-2-3-4-5-1
    let graph = graph_of(
        &[(0, 1), (0, 2), (0, 3), (0, 4), (0, 5), (1, 2), (2, 3), (3, 4), (4, 5), (5, 1)],
        &[],
    );
    let cliques = find_maximal_cliques(&graph);
    assert_eq!(cliques.len(), 5);
    assert_eq!(
        canonical(&cliques),
        sets(&[&[0, 1, 2], &[0, 2, 3], &[0, 3, 4], &[0, 4, 5], &[0, 1, 5]])
    );
}

#[test]
fn result_agrees_with_exhaustive_search() {
    // every graph on five vertices, by the ten possible edges
    let pairs: Vec<(u32, u32)> = (0..5u32)
        .flat_map(|u| ((u + 1)..5u32).map(move |v| (u, v)))
        .collect();
    for mask in 0u32..(1 << pairs.len()) {
        let edges: Vec<(u32, u32)> = (0..pairs.len())
            .filter(|i| mask & (1 << i) != 0)
            .map(|i| pairs[i])
            .collect();
        let graph = graph_of(&edges, &[0, 1, 2, 3, 4]);
        let cliques = find_maximal_cliques(&graph);
        assert_eq!(canonical(&cliques), maximal_cliques_by_search(&graph));
    }
}

#[test]
fn pivot_is_absent_only_without_vertices() {
    let graph = graph_of(&[(1, 2)], &[]);
    let none: HashSet<u32> = HashSet::new();
    assert_eq!(select_optimal_pivot(&graph, &none, &none), None);

    let one: HashSet<u32> = [2].into_iter().collect();
    assert_eq!(select_optimal_pivot(&graph, &one, &none), Some(2));
    assert_eq!(select_optimal_pivot(&graph, &none, &one), Some(2));
}

#[test]
fn pivot_has_the_most_neighbours_among_the_vertices() {
    // a star: 0 is joined to 1, 2 and 3
    let graph = graph_of(&[(0, 1), (0, 2), (0, 3)], &[]);
    let p: HashSet<u32> = [1, 2].into_iter().collect();
    let x: HashSet<u32> = [0, 3].into_iter().collect();
    assert_eq!(select_optimal_pivot(&graph, &p, &x), Some(0));

    // without the hub in reach every vertex has no neighbour in reach
    let p: HashSet<u32> = [1, 2, 3].into_iter().collect();
    let x: HashSet<u32> = HashSet::new();
    let pivot = select_optimal_pivot(&graph, &p, &x).unwrap();
    assert!(p.contains(&pivot));
}

#[test]
fn pivot_counts_only_neighbours_in_reach() {
    // 1 has four neighbours, one of them in reach; 2 has three, all in reach
    let graph = graph_of(&[(1, 5), (1, 6), (1, 7), (1, 3), (2, 3), (2, 4), (2, 8)], &[]);
    let p: HashSet<u32> = [1, 2].into_iter().collect();
    let x: HashSet<u32> = [3, 4, 8].into_iter().collect();
    assert_eq!(select_optimal_pivot(&graph, &p, &x), Some(2));
}

#[test]
fn search_step_reports_the_cliques_around_its_start() {
    // triangle 0-1-2 with a tail 2-3
    let graph = graph_of(&[(0, 1), (0, 2), (1, 2), (2, 3)], &[]);
    let r: HashSet<u32> = [2].into_iter().collect();
    let p: HashSet<u32> = [0, 1, 3].into_iter().collect();
    let x: HashSet<u32> = HashSet::new();
    let mut cliques = vec![[9u32].into_iter().collect::<HashSet<u32>>()];
    bron_kerbosch_pivot(&graph, r, p, x, &mut cliques);
    // what was there stays in front
    assert_eq!(cliques[0], [9].into_iter().collect::<HashSet<u32>>());
    assert_eq!(canonical(&cliques[1..]), sets(&[&[0, 1, 2], &[2, 3]]));
}

#[test]
fn search_step_leaves_out_cliques_with_an_excluded_vertex() {
    // triangle 0-1-2 with a tail 2-3, the vertex 3 already dealt with
    let graph = graph_of(&[(0, 1), (0, 2), (1, 2), (2, 3)], &[]);
    let r: HashSet<u32> = [2].into_iter().collect();
    let p: HashSet<u32> = [0, 1].into_iter().collect();
    let x: HashSet<u32> = [3].into_iter().collect();
    let mut cliques = Vec::new();
    bron_kerbosch_pivot(&graph, r, p, x, &mut cliques);
    assert_eq!(canonical(&cliques), sets(&[&[0, 1, 2]]));
}

#[test]
fn search_step_reports_nothing_when_only_excluded_vertices_are_left() {
    let graph = graph_of(&[(0, 1)], &[]);
    let r: HashSet<u32> = [0].into_iter().collect();
    let p: HashSet<u32> = HashSet::new();
    let x: HashSet<u32> = [1].into_iter().collect();
    let mut cliques = Vec::new();
    bron_kerbosch_pivot(&graph, r, p, x, &mut cliques);
    assert!(cliques.is_empty());
}
