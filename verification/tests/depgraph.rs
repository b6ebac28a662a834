use fleetreach::depgraph::DepGraph;

fn names(list: &[&str]) -> Vec<String> {
    list.iter().map(|s| s.to_string()).collect()
}

#[test]
fn chain_includes_root_and_target() {
    let mut g = DepGraph::new("app".to_string());
    g.add_edges("app", names(&["express", "lodash"]));
    g.add_edges("express", names(&["minimist"]));
    assert_eq!(g.chain_to("minimist"), vec!["app", "express", "minimist"]);
    assert_eq!(g.chain_to("lodash"), vec!["app", "lodash"]);
    assert!(g.chain_to("absent").is_empty());
}

#[test]
fn empty_graph_yields_empty_chain() {
    assert!(DepGraph::default().chain_to("anything").is_empty());
    assert!(DepGraph::new("app".to_string()).chain_to("x").is_empty());
}

#[test]
fn shortest_of_multiple_paths_wins() {
    // app -> a -> target, and app -> b -> c -> target; BFS picks the 3-name chain.
    let mut g = DepGraph::new("app".to_string());
    g.add_edges("app", names(&["a", "b"]));
    g.add_edges("a", names(&["target"]));
    g.add_edges("b", names(&["c"]));
    g.add_edges("c", names(&["target"]));
    assert_eq!(g.chain_to("target"), vec!["app", "a", "target"]);
}

#[test]
fn of_two_shortest_chains_the_first_in_order_is_shown() {
    let mut g = DepGraph::new("app".to_string());
    g.add_edges("app", names(&["z", "b"]));
    g.add_edges("z", names(&["target"]));
    g.add_edges("b", names(&["target"]));
    assert_eq!(g.chain_to("target"), vec!["app", "b", "target"]);
}

#[test]
fn the_project_itself_has_no_chain_and_cycles_end() {
    let mut g = DepGraph::new("app".to_string());
    assert!(g.is_empty());
    g.add_edges("app", names(&["a"]));
    g.add_edges("a", names(&["app", "a"]));
    assert!(!g.is_empty());
    assert!(g.chain_to("app").is_empty());
    assert!(g.chain_to("b").is_empty());
}

#[test]
fn a_graph_in_which_nothing_is_asked_for_is_empty() {
    let mut g = DepGraph::new("app".to_string());
    assert!(g.is_empty());
    g.add_edges("app", vec![]);
    assert!(g.is_empty());
    g.add_edges("app", names(&["b"]));
    assert!(!g.is_empty());
}
