use std::collections::HashMap;

use email_graph::email::ParsedEmail;
use email_graph::graph::Graph;

fn degree_of(map: &[(String, usize)], name: &str) -> Option<usize> {
    map.iter().find(|(n, _)| n == name).map(|(_, d)| *d)
}

fn sample_emails() -> Vec<ParsedEmail> {
    vec![
        ParsedEmail {
            from: "alice@example.com".to_string(),
            to: vec!["bob@example.com".to_string(), "carol@example.com".to_string()],
        },
        ParsedEmail {
            from: "bob@example.com".to_string(),
            to: vec!["dave@example.com".to_string()],
        },
        ParsedEmail {
            from: "carol@example.com".to_string(),
            to: vec![
                "dave@example.com".to_string(),
                "eve@example.com".to_string(),
                "frank@example.com".to_string(),
            ],
        },
        ParsedEmail {
            from: "alice@example.com".to_string(),
            to: vec!["dave@example.com".to_string()],
        },
    ]
}

#[test]
fn test_out_degree_calculation() {
    let graph = Graph::build_from_emails(sample_emails());
    let out_degrees = graph.calculate_out_degrees();
    for (node, degree) in &out_degrees {
        let expected_degree = match node.as_str() {
            "alice@example.com" => 3,
            "bob@example.com" => 1,
            "carol@example.com" => 3,
            "dave@example.com" => 0,
            "eve@example.com" => 0,
            "frank@example.com" => 0,
            _ => panic!("Unexpected node in graph: {}", node),
        };
        assert_eq!(*degree, expected_degree, "Out-degree for {} should be {}", node, expected_degree);
    }
    assert_eq!(out_degrees.len(), 6, "Graph should have 6 nodes");
}

#[test]
fn test_in_degree_calculation() {
    let graph = Graph::build_from_emails(sample_emails());
    let in_degrees = graph.calculate_in_degrees();
    for (node, degree) in &in_degrees {
        let expected_degree = match node.as_str() {
            "alice@example.com" => 0,
            "bob@example.com" => 1,
            "carol@example.com" => 1,
            "dave@example.com" => 3,
            "eve@example.com" => 1,
            "frank@example.com" => 1,
            _ => panic!("Unexpected node in graph: {}", node),
        };
        assert_eq!(*degree, expected_degree, "In-degree for {} should be {}", node, expected_degree);
    }
    assert_eq!(in_degrees.len(), 6, "Graph should have 6 nodes");
}

#[test]
fn test_self_loops_and_multiple_edges() {
    let emails = vec![
        ParsedEmail {
            from: "alice@example.com".to_string(),
            to: vec!["bob@example.com".to_string()],
        },
        ParsedEmail {
            from: "alice@example.com".to_string(),
            to: vec!["bob@example.com".to_string()],
        },
        ParsedEmail {
            from: "bob@example.com".to_string(),
            to: vec!["alice@example.com".to_string()],
        },
        ParsedEmail {
            from: "carol@example.com".to_string(),
            to: vec!["carol@example.com".to_string()],
        },
    ];
    let graph = Graph::build_from_emails(emails);
    let out_degrees = graph.calculate_out_degrees();
    assert_eq!(degree_of(&out_degrees, "alice@example.com"), Some(1));
    assert_eq!(degree_of(&out_degrees, "bob@example.com"), Some(1));
    assert_eq!(degree_of(&out_degrees, "carol@example.com"), Some(1));
    let in_degrees = graph.calculate_in_degrees();
    assert_eq!(degree_of(&in_degrees, "alice@example.com"), Some(1));
    assert_eq!(degree_of(&in_degrees, "bob@example.com"), Some(1));
    assert_eq!(degree_of(&in_degrees, "carol@example.com"), Some(1));
    assert_eq!(out_degrees.len(), 3, "Graph should have 3 nodes");
    assert_eq!(in_degrees.len(), 3, "Graph should have 3 nodes");
}

#[test]
fn new_graph_is_empty() {
    let graph = Graph::new();
    assert_eq!(graph.num_vertices(), 0);
    assert!(graph.calculate_out_degrees().is_empty());
    assert!(graph.calculate_in_degrees().is_empty());
}

#[test]
fn endpoints_become_nodes_and_maps_cover_them() {
    let graph = Graph::build_from_emails(sample_emails());
    for name in [
        "alice@example.com",
        "bob@example.com",
        "carol@example.com",
        "dave@example.com",
        "eve@example.com",
        "frank@example.com",
    ] {
        assert!(graph.get_neighbors(&name.to_string()).is_some(), "{} should be a node", name);
    }
    assert_eq!(graph.num_vertices(), 6);
    assert_eq!(graph.calculate_out_degrees().len(), graph.num_vertices());
    assert_eq!(graph.calculate_in_degrees().len(), graph.num_vertices());
}

#[test]
fn nodes_are_numbered_by_first_appearance() {
    let graph = Graph::build_from_emails(sample_emails());
    let names: Vec<String> = (0..graph.num_vertices()).map(|i| graph.node_name(i)).collect();
    assert_eq!(
        names,
        vec![
            "alice@example.com",
            "bob@example.com",
            "carol@example.com",
            "dave@example.com",
            "eve@example.com",
            "frank@example.com",
        ]
    );
}

#[test]
fn adding_an_edge_twice_changes_nothing() {
    let mut graph = Graph::new();
    graph.add_edge("a".to_string(), "b".to_string());
    graph.add_edge("b".to_string(), "c".to_string());
    let out_before = graph.calculate_out_degrees();
    let in_before = graph.calculate_in_degrees();
    let nbrs_before = graph.get_neighbors(&"a".to_string());
    graph.add_edge("a".to_string(), "b".to_string());
    assert_eq!(graph.calculate_out_degrees(), out_before);
    assert_eq!(graph.calculate_in_degrees(), in_before);
    assert_eq!(graph.get_neighbors(&"a".to_string()), nbrs_before);
    assert_eq!(graph.num_vertices(), 3);
}

#[test]
fn self_loop_counts_once_each_way() {
    let mut graph = Graph::new();
    graph.add_edge("y".to_string(), "x".to_string());
    let out_before = degree_of(&graph.calculate_out_degrees(), "x").unwrap();
    let in_before = degree_of(&graph.calculate_in_degrees(), "x").unwrap();
    graph.add_edge("x".to_string(), "x".to_string());
    assert_eq!(degree_of(&graph.calculate_out_degrees(), "x"), Some(out_before + 1));
    assert_eq!(degree_of(&graph.calculate_in_degrees(), "x"), Some(in_before + 1));
    assert_eq!(graph.get_neighbors(&"x".to_string()), Some(vec!["x".to_string()]));
}

#[test]
fn degree_sums_equal_distinct_edges() {
    let mut emails = sample_emails();
    emails.push(ParsedEmail {
        from: "alice@example.com".to_string(),
        to: vec!["bob@example.com".to_string(), "bob@example.com".to_string()],
    });
    let graph = Graph::build_from_emails(emails);
    let out_sum: usize = graph.calculate_out_degrees().iter().map(|(_, d)| d).sum();
    let in_sum: usize = graph.calculate_in_degrees().iter().map(|(_, d)| d).sum();
    assert_eq!(out_sum, 7);
    assert_eq!(in_sum, 7);
}

#[test]
fn neighbors_of_unknown_node_are_absent() {
    let graph = Graph::build_from_emails(sample_emails());
    assert_eq!(graph.get_neighbors(&"zoe@example.com".to_string()), None);
    assert_eq!(
        graph.get_neighbors(&"carol@example.com".to_string()),
        Some(vec![
            "dave@example.com".to_string(),
            "eve@example.com".to_string(),
            "frank@example.com".to_string(),
        ])
    );
    assert_eq!(graph.get_neighbors(&"eve@example.com".to_string()), Some(vec![]));
}

#[test]
fn out_degree_example_by_name() {
    let graph = Graph::build_from_emails(sample_emails());
    let out_degrees = graph.calculate_out_degrees();
    let got: HashMap<String, usize> = out_degrees.into_iter().collect();
    let want: HashMap<String, usize> = [
        ("alice@example.com", 3),
        ("bob@example.com", 1),
        ("carol@example.com", 3),
        ("dave@example.com", 0),
        ("eve@example.com", 0),
        ("frank@example.com", 0),
    ]
    .iter()
    .map(|(n, d)| (n.to_string(), *d))
    .collect();
    assert_eq!(got, want);
}

#[test]
fn in_degree_example_by_name() {
    let graph = Graph::build_from_emails(sample_emails());
    let got: HashMap<String, usize> = graph.calculate_in_degrees().into_iter().collect();
    let want: HashMap<String, usize> = [
        ("alice@example.com", 0),
        ("bob@example.com", 1),
        ("carol@example.com", 1),
        ("dave@example.com", 3),
        ("eve@example.com", 1),
        ("frank@example.com", 1),
    ]
    .iter()
    .map(|(n, d)| (n.to_string(), *d))
    .collect();
    assert_eq!(got, want);
}
