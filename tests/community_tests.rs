use std::collections::HashMap;

use email_graph::graph::Graph;
use email_graph::summary::{group_by_label, largest_community, smallest_community};

fn communities_of(graph: &Graph, labels: &[usize]) -> HashMap<String, Vec<String>> {
    let mut community_map: HashMap<String, Vec<String>> = HashMap::new();
    for (node, label) in labels.iter().enumerate() {
        community_map
            .entry(graph.node_name(*label))
            .or_insert(Vec::new())
            .push(graph.node_name(node));
    }
    community_map
}

fn mutual_triangles() -> Graph {
    let mut graph = Graph::new();
    for (a, b) in [("A", "B"), ("B", "C"), ("A", "C"), ("D", "E"), ("E", "F"), ("D", "F")] {
        graph.add_edge(a.to_string(), b.to_string());
        graph.add_edge(b.to_string(), a.to_string());
    }
    graph
}

#[test]
fn test_label_propagation_small_graph() {
    let mut graph = Graph::new();
    graph.add_edge("A".to_string(), "B".to_string());
    graph.add_edge("A".to_string(), "C".to_string());
    graph.add_edge("B".to_string(), "C".to_string());
    graph.add_edge("D".to_string(), "E".to_string());
    graph.add_edge("D".to_string(), "F".to_string());
    graph.add_edge("E".to_string(), "F".to_string());

    let result = graph.label_propagation(0, 500);
    let community_map = communities_of(&graph, &result.labels);
    assert_eq!(community_map.len(), 2, "There should be 2 communities");
    for members in community_map.values() {
        assert_eq!(members.len(), 3, "Each community should have 3 members");
    }
}

#[test]
fn mutual_triangles_give_two_communities_for_any_seed() {
    let graph = mutual_triangles();
    for seed in 0..50u64 {
        let result = graph.label_propagation(seed, 500);
        assert!(result.converged);
        let community_map = communities_of(&graph, &result.labels);
        assert_eq!(community_map.len(), 2, "seed {}", seed);
        for members in community_map.values() {
            assert_eq!(members.len(), 3, "seed {}", seed);
            let first = members[0].as_str();
            let left = ["A", "B", "C"].contains(&first);
            for m in members {
                assert_eq!(["A", "B", "C"].contains(&m.as_str()), left, "seed {}", seed);
            }
        }
    }
}

#[test]
fn propagation_stops_at_the_cap_or_on_convergence() {
    let graph = mutual_triangles();
    let none = graph.label_propagation(7, 0);
    assert_eq!(none.iterations, 0);
    assert!(!none.converged);
    assert_eq!(none.labels, (0..graph.num_vertices()).collect::<Vec<usize>>());
    let one = graph.label_propagation(7, 1);
    assert_eq!(one.iterations, 1);
    assert!(!one.converged);
    let full = graph.label_propagation(7, 500);
    assert!(full.converged);
    assert!(full.iterations >= 2 && full.iterations <= 500);
}

#[test]
fn node_without_out_neighbours_keeps_its_label() {
    let mut graph = Graph::new();
    graph.add_edge("a".to_string(), "sink".to_string());
    graph.add_edge("b".to_string(), "sink".to_string());
    graph.add_edge("a".to_string(), "b".to_string());
    for seed in 0..10u64 {
        let result = graph.label_propagation(seed, 100);
        assert_eq!(result.labels[1], 1, "sink keeps its own label");
        assert_eq!(result.labels, vec![1, 1, 1]);
        assert!(result.converged);
    }
}

#[test]
fn one_pass_in_a_fixed_order() {
    let graph = mutual_triangles();
    let mut labels: Vec<usize> = (0..6).collect();
    let changed = graph.label_propagation_pass(&mut labels, &vec![0, 1, 2, 3, 4, 5]);
    assert!(changed);
    assert_eq!(labels, vec![1, 1, 1, 4, 4, 4]);
    let changed_again = graph.label_propagation_pass(&mut labels, &vec![5, 4, 3, 2, 1, 0]);
    assert!(!changed_again);
    assert_eq!(labels, vec![1, 1, 1, 4, 4, 4]);
}

#[test]
fn most_frequent_label_prefers_count_then_first_name() {
    let mut graph = Graph::new();
    graph.add_edge("d".to_string(), "b".to_string());
    graph.add_edge("c".to_string(), "a".to_string());
    // nodes: d = 0, b = 1, c = 2, a = 3
    let labels = vec![0, 1, 1, 3];
    assert_eq!(graph.most_frequent_label(&labels, &vec![1, 2, 3]), 1);
    assert_eq!(graph.most_frequent_label(&labels, &vec![0, 3]), 3);
    assert_eq!(graph.most_frequent_label(&labels, &vec![3, 0]), 3);
    assert_eq!(graph.most_frequent_label(&labels, &vec![0, 1]), 1);
    let labels = vec![0, 2, 0, 3];
    assert_eq!(graph.most_frequent_label(&labels, &vec![0, 1, 2]), 0);
}

#[test]
fn grouping_by_label() {
    let labels = vec![2, 2, 2, 4, 4, 2];
    let groups = group_by_label(&labels);
    assert_eq!(groups.len(), 2);
    assert_eq!(groups[0].label, 2);
    assert_eq!(groups[0].members, vec![0, 1, 2, 5]);
    assert_eq!(groups[1].label, 4);
    assert_eq!(groups[1].members, vec![3, 4]);
    assert_eq!(largest_community(&groups), Some(0));
    assert_eq!(smallest_community(&groups), Some(1));
    assert!(group_by_label(&vec![]).is_empty());
    assert_eq!(largest_community(&vec![]), None);
    assert_eq!(smallest_community(&vec![]), None);
}

#[test]
fn extremes_pick_the_first_of_equals() {
    let groups = group_by_label(&vec![0, 0, 2, 2, 4]);
    assert_eq!(largest_community(&groups), Some(0));
    assert_eq!(smallest_community(&groups), Some(2));
}
