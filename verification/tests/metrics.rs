use facebook_graph_analysis::graph::Graph;
use facebook_graph_analysis::bfs::{bfs_distances, dist_lookup};
use facebook_graph_analysis::distance::{average_distance, closeness_centrality};
use facebook_graph_analysis::jaccard::{jaccard_similarity, most_similar_pairs};

/// A fully connected triangle on nodes 0, 1, 2.
fn small_graph() -> Graph {
    let mut graph = Graph::new();
    graph.add_edge(0, 1);
    graph.add_edge(1, 2);
    graph.add_edge(0, 2);
    graph
}

fn frac_to_f64(num: u64, den: u64) -> f64 {
    if den == 0 {
        0.0
    } else {
        num as f64 / den as f64
    }
}

fn jaccard_f64(g: &Graph, u: usize, v: usize) -> f64 {
    let (inter, union) = jaccard_similarity(g, u, v);
    if union == 0 {
        0.0
    } else {
        inter as f64 / union as f64
    }
}

#[test]
fn test_bfs_distances() {
    let graph = small_graph();
    let distances = bfs_distances(&graph, 0);
    assert_eq!(dist_lookup(&distances, 0), Some(0));
    assert_eq!(dist_lookup(&distances, 1), Some(1));
    assert_eq!(dist_lookup(&distances, 2), Some(1));
}

#[test]
fn test_average_distance() {
    let graph = small_graph();
    let (sum, count) = average_distance(&graph);
    let avg_dist = if count == 0 { 0.0 } else { sum as f64 / count as f64 };
    assert!((avg_dist - 1.0).abs() < 0.0001);
}

#[test]
fn test_closeness_centrality() {
    let graph = small_graph();
    let closeness = closeness_centrality(&graph);
    for &(_, (num, den)) in &closeness {
        let centrality = frac_to_f64(num, den);
        assert!((centrality - 1.0).abs() < 0.0001);
    }
}

#[test]
fn test_jaccard_similarity() {
    let graph = small_graph();
    let sim = jaccard_f64(&graph, 0, 1);
    assert!((sim - (1.0 / 3.0)).abs() < 0.0001);
}

#[test]
fn test_all_degrees() {
    let mut graph = Graph::new();
    graph.add_edge(1, 2);
    graph.add_edge(1, 3);
    assert_eq!(graph.num_nodes, 3);
    assert_eq!(graph.num_edges, 2);

    let degrees = graph.all_degrees();
    assert!(degrees.contains(&(1, 2)));
    assert!(degrees.contains(&(2, 1)));
    assert!(degrees.contains(&(3, 1)));
}

#[test]
fn bfs_exact_triangle_map() {
    let graph = small_graph();
    let distances = bfs_distances(&graph, 0);
    assert_eq!(distances.len(), 3);
    assert_eq!(distances[0], (0, 0));
}

#[test]
fn bfs_line_graph_distances() {
    let mut graph = Graph::new();
    graph.add_edge(0, 1);
    graph.add_edge(1, 2);
    graph.add_edge(2, 3);
    let distances = bfs_distances(&graph, 0);
    assert_eq!(dist_lookup(&distances, 1), Some(1));
    assert_eq!(dist_lookup(&distances, 2), Some(2));
    assert_eq!(dist_lookup(&distances, 3), Some(3));
}

#[test]
fn bfs_unreachable_nodes_absent() {
    let mut graph = Graph::new();
    graph.add_edge(0, 1);
    graph.add_edge(2, 3);
    let distances = bfs_distances(&graph, 0);
    assert_eq!(distances.len(), 2);
    assert_eq!(dist_lookup(&distances, 2), None);
    assert_eq!(dist_lookup(&distances, 3), None);
}

#[test]
fn bfs_from_unknown_start() {
    let graph = small_graph();
    let distances = bfs_distances(&graph, 99);
    assert_eq!(distances, vec![(99, 0)]);
}

#[test]
fn jaccard_symmetric_concrete() {
    let graph = small_graph();
    assert_eq!(jaccard_similarity(&graph, 0, 1), jaccard_similarity(&graph, 1, 0));
    assert_eq!(jaccard_similarity(&graph, 0, 2), jaccard_similarity(&graph, 2, 0));
    // Absent nodes on either side: both directions give the zero fraction.
    assert_eq!(jaccard_similarity(&graph, 7, 0), (0, 0));
    assert_eq!(jaccard_similarity(&graph, 0, 7), (0, 0));
}

#[test]
fn jaccard_within_unit_interval() {
    let graph = small_graph();
    for u in 0..4usize {
        for v in 0..4usize {
            let (inter, union) = jaccard_similarity(&graph, u, v);
            assert!(inter <= union);
            let sim = jaccard_f64(&graph, u, v);
            assert!((0.0..=1.0).contains(&sim));
        }
    }
}

#[test]
fn jaccard_absent_node_is_zero() {
    let graph = small_graph();
    assert_eq!(jaccard_similarity(&graph, 0, 42), (0, 0));
    assert_eq!(jaccard_similarity(&graph, 42, 43), (0, 0));
}

#[test]
fn most_similar_pairs_triangle() {
    let graph = small_graph();
    // All three pairs share one neighbour out of three: similarity 1/3 each.
    let pairs = most_similar_pairs(&graph, 5);
    assert_eq!(pairs.len(), 3);
    for &((u, v), (num, den)) in &pairs {
        assert!(u != v);
        assert!(num > 0);
        assert_eq!((num, den), (1, 3));
    }
    let top_two = most_similar_pairs(&graph, 2);
    assert_eq!(top_two.len(), 2);
    let none = most_similar_pairs(&graph, 0);
    assert!(none.is_empty());
}

#[test]
fn most_similar_pairs_sorted_and_pruned() {
    let mut graph = Graph::new();
    // A square 0-1-2-3-0 with one diagonal 0-2, plus a pendant node 5.
    graph.add_edge(0, 1);
    graph.add_edge(1, 2);
    graph.add_edge(2, 3);
    graph.add_edge(3, 0);
    graph.add_edge(0, 2);
    graph.add_edge(0, 5);
    let pairs = most_similar_pairs(&graph, 10);
    for window in pairs.windows(2) {
        let (_, (n1, d1)) = window[0];
        let (_, (n2, d2)) = window[1];
        // Non-increasing similarity: n1/d1 >= n2/d2.
        assert!((n1 as u128) * (d2 as u128) >= (n2 as u128) * (d1 as u128));
    }
    for &((u, v), (num, _)) in &pairs {
        assert!(num > 0);
        // Node 5 has a single neighbour, so it is pruned from every pair.
        assert!(u != 5 && v != 5);
    }
}

#[test]
fn most_similar_pairs_prunes_degree_one() {
    let mut graph = Graph::new();
    graph.add_edge(1, 2);
    graph.add_edge(1, 3);
    // Nodes 2 and 3 have one neighbour each: every pair is pruned.
    let pairs = most_similar_pairs(&graph, 10);
    assert!(pairs.is_empty());
}

#[test]
fn empty_graph_yields_neutral_metrics() {
    let graph = Graph::new();
    let (sum, count) = average_distance(&graph);
    assert_eq!((sum, count), (0, 0));
    let avg = if count == 0 { 0.0 } else { sum as f64 / count as f64 };
    assert_eq!(avg, 0.0);
    assert!(closeness_centrality(&graph).is_empty());
    assert!(most_similar_pairs(&graph, 0).is_empty());
    assert!(most_similar_pairs(&graph, 7).is_empty());
}

#[test]
fn load_two_edges_builds_three_nodes() {
    let edges = vec![(1, 2), (1, 3)];
    let graph = Graph::from_edges(&edges);
    assert_eq!(graph.num_nodes, 3);
    assert_eq!(graph.num_edges, 2);
    assert_eq!(graph.degree(1), Some(2));
    assert_eq!(graph.degree(2), Some(1));
    assert_eq!(graph.degree(3), Some(1));
    assert_eq!(graph.degree(4), None);
}

#[test]
fn all_degrees_one_entry_per_node() {
    let graph = small_graph();
    let degrees = graph.all_degrees();
    assert_eq!(degrees.len(), graph.num_nodes);
    for &(node, degree) in &degrees {
        assert_eq!(graph.degree(node), Some(degree));
    }
}

#[test]
fn duplicate_edges_counted_but_absorbed() {
    let mut graph = Graph::new();
    graph.add_edge(1, 2);
    graph.add_edge(1, 2);
    assert_eq!(graph.num_edges, 2);
    assert_eq!(graph.num_nodes, 2);
    assert_eq!(graph.degree(1), Some(1));
    assert_eq!(graph.degree(2), Some(1));
}

#[test]
fn self_loop_tolerated() {
    let mut graph = Graph::new();
    graph.add_edge(5, 5);
    assert_eq!(graph.num_nodes, 1);
    assert_eq!(graph.degree(5), Some(1));
    assert_eq!(jaccard_similarity(&graph, 5, 5), (1, 1));
}

#[test]
fn neighbors_of_known_and_unknown_nodes() {
    let graph = small_graph();
    let ns = graph.neighbors(0).expect("node 0 is present");
    let mut sorted = ns.clone();
    sorted.sort();
    assert_eq!(sorted, vec![1, 2]);
    assert!(graph.neighbors(9).is_none());
}

#[test]
fn closeness_centrality_line_graph() {
    let mut graph = Graph::new();
    graph.add_edge(0, 1);
    graph.add_edge(1, 2);
    let ranking = closeness_centrality(&graph);
    assert_eq!(ranking.len(), 3);
    // The middle node reaches both ends in one step: closeness 2/2 = 1.
    assert_eq!(ranking[0].0, 1);
    assert_eq!(frac_to_f64(ranking[0].1.0, ranking[0].1.1), 1.0);
    // The end nodes each have distances 1 and 2: closeness 2/3.
    for &(node, (num, den)) in &ranking[1..] {
        assert!(node == 0 || node == 2);
        assert!((frac_to_f64(num, den) - 2.0 / 3.0).abs() < 0.0001);
    }
}

#[test]
fn average_distance_disconnected_pairs_excluded() {
    let mut graph = Graph::new();
    graph.add_edge(0, 1);
    graph.add_edge(2, 3);
    let (sum, count) = average_distance(&graph);
    // Only the four ordered pairs inside the two components count.
    assert_eq!((sum, count), (4, 4));
}
