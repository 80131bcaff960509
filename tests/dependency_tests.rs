use splitrs::dependency::DependencyGraph;

fn graph(edges: &[(&str, &str)]) -> DependencyGraph {
    let mut graph = DependencyGraph::new();
    for (a, b) in edges {
        graph.add_dependency(a.to_string(), b.to_string());
    }
    graph
}

#[test]
fn test_no_cycles() {
    let mut graph = DependencyGraph::new();
    graph.add_dependency("A".to_string(), "B".to_string());
    graph.add_dependency("B".to_string(), "C".to_string());

    let cycles = graph.detect_cycles();
    assert!(cycles.is_empty());
}

#[test]
fn test_simple_cycle() {
    let mut graph = DependencyGraph::new();
    graph.add_dependency("A".to_string(), "B".to_string());
    graph.add_dependency("B".to_string(), "A".to_string());

    let cycles = graph.detect_cycles();
    assert!(!cycles.is_empty());
}

#[test]
fn test_complex_cycle() {
    let mut graph = DependencyGraph::new();
    graph.add_dependency("A".to_string(), "B".to_string());
    graph.add_dependency("B".to_string(), "C".to_string());
    graph.add_dependency("C".to_string(), "A".to_string());

    let cycles = graph.detect_cycles();
    assert!(!cycles.is_empty());
}

#[test]
fn test_dot_generation() {
    let mut graph = DependencyGraph::new();
    graph.add_dependency("A".to_string(), "B".to_string());
    graph.add_dependency("B".to_string(), "C".to_string());

    let dot = graph.to_dot();
    assert!(dot.contains("digraph Dependencies"));
    assert!(dot.contains("\"A\" -> \"B\""));
}

#[test]
fn two_node_cycle_is_reported_once() {
    let cycles = graph(&[("A", "B"), ("B", "A")]).detect_cycles();
    assert_eq!(cycles, vec![vec!["A".to_string(), "B".to_string()]]);
}

#[test]
fn three_node_cycle_is_reported_in_order() {
    let cycles = graph(&[("A", "B"), ("B", "C"), ("C", "A")]).detect_cycles();
    assert_eq!(
        cycles,
        vec![vec!["A".to_string(), "B".to_string(), "C".to_string()]]
    );
}

#[test]
fn chain_has_no_cycle() {
    assert_eq!(graph(&[("A", "B"), ("B", "C")]).detect_cycles().len(), 0);
}

#[test]
fn self_dependency_is_a_cycle() {
    let cycles = graph(&[("A", "A")]).detect_cycles();
    assert_eq!(cycles, vec![vec!["A".to_string()]]);
}

#[test]
fn repeated_dependency_counts_once() {
    let g = graph(&[("A", "B"), ("A", "B")]);
    assert_eq!(g.to_dot().matches("\"A\" -> \"B\"").count(), 1);
}

#[test]
fn empty_graph_has_no_cycle_and_bare_dot() {
    let g = DependencyGraph::new();
    assert!(g.detect_cycles().is_empty());
    assert_eq!(
        g.to_dot(),
        "digraph Dependencies {\n  rankdir=LR;\n  node [shape=box, style=rounded];\n\n}\n"
    );
}

#[test]
fn dot_text_is_exact() {
    let g = graph(&[("A", "B"), ("B", "C")]);
    assert_eq!(
        g.to_dot(),
        "digraph Dependencies {\n  rankdir=LR;\n  node [shape=box, style=rounded];\n\n  \"A\" -> \"B\";\n  \"B\" -> \"C\";\n}\n"
    );
}

#[test]
fn two_separate_cycles_are_both_found() {
    let cycles = graph(&[("A", "B"), ("B", "A"), ("C", "D"), ("D", "C")]).detect_cycles();
    assert_eq!(cycles.len(), 2);
    assert!(cycles.contains(&vec!["A".to_string(), "B".to_string()]));
    assert!(cycles.contains(&vec!["C".to_string(), "D".to_string()]));
}
