use bead_graph::BeadNode;
use bead_graph::GraphError;
use bead_graph::GraphEdge;

fn bead(id: &str, duration: Option<u32>, blocked_by: &[&str], blocks: &[&str]) -> BeadNode {
    BeadNode {
        id: id.to_string(),
        title: id.to_uppercase(),
        status: "open".to_string(),
        priority: 0,
        blocked_by: blocked_by.iter().map(|s| s.to_string()).collect(),
        blocks: blocks.iter().map(|s| s.to_string()).collect(),
        duration,
    }
}

fn create_test_beads() -> Vec<BeadNode> {
    vec![
        bead("a", Some(10), &[], &["b"]),
        bead("b", Some(20), &["a"], &["c"]),
        bead("c", Some(15), &["b"], &[]),
    ]
}

#[test]
fn test_topo_sort() {
    let beads = create_test_beads();
    let parsed = bead_graph::topo_sort(&beads).unwrap();

    assert!(!parsed.has_cycle);
    assert_eq!(parsed.sorted.len(), 3);
    // a must come before b, b before c
    let pos_a = parsed.sorted.iter().position(|x| x == "a").unwrap();
    let pos_b = parsed.sorted.iter().position(|x| x == "b").unwrap();
    let pos_c = parsed.sorted.iter().position(|x| x == "c").unwrap();
    assert!(pos_a < pos_b);
    assert!(pos_b < pos_c);
}

#[test]
fn test_no_cycle() {
    let beads = create_test_beads();
    let result = bead_graph::has_cycle(&beads).unwrap();
    assert!(!result);
}

#[test]
fn chain_scenario_topo_and_critical_path() {
    let beads = create_test_beads();
    let topo = bead_graph::topo_sort(&beads).unwrap();
    assert_eq!(topo.sorted, vec!["a", "b", "c"]);
    assert!(!topo.has_cycle);
    assert!(topo.cycle_nodes.is_empty());

    let cp = bead_graph::critical_path(&beads).unwrap();
    assert_eq!(cp.path, vec!["a", "b", "c"]);
    assert_eq!(cp.total_duration, 45);
    for (id, slack) in &cp.slack {
        assert_eq!(*slack, 0, "bead {} should have zero slack", id);
    }
}

#[test]
fn cycle_detected_and_located() {
    let beads = vec![
        bead("a", None, &["b"], &["b"]),
        bead("b", None, &["a"], &["a"]),
        bead("c", None, &[], &[]),
    ];
    assert!(bead_graph::has_cycle(&beads).unwrap());
    let topo = bead_graph::topo_sort(&beads).unwrap();
    assert!(topo.has_cycle);
    let cyc = bead_graph::find_cycle_nodes(&beads).unwrap();
    assert!(cyc.contains(&"a".to_string()));
    assert!(cyc.contains(&"b".to_string()));
    assert!(!cyc.contains(&"c".to_string()));

    let cp = bead_graph::critical_path(&beads);
    assert!(matches!(cp, Err(GraphError::CyclicGraph)));
}

#[test]
fn diamond_levels_and_readiness() {
    let beads = vec![
        bead("a", Some(0), &[], &["b", "c"]),
        bead("b", Some(0), &["a"], &["d"]),
        bead("c", Some(0), &["a"], &["d"]),
        bead("d", Some(0), &["b", "c"], &[]),
    ];
    let levels = bead_graph::compute_levels(&beads).unwrap();
    let get = |id: &str| levels.iter().find(|(n, _)| n == id).unwrap().1;
    assert_eq!(get("a"), 0);
    assert_eq!(get("b"), 1);
    assert_eq!(get("c"), 1);
    assert_eq!(get("d"), 2);

    let ready = bead_graph::get_ready_beads(&beads).unwrap();
    assert_eq!(ready, vec!["a"]);
}

#[test]
fn readiness_with_done_dependencies() {
    let mut beads = vec![
        bead("a", None, &[], &["b"]),
        bead("b", None, &["a"], &[]),
        bead("c", None, &[], &[]),
    ];
    beads[0].status = "done".to_string();
    let ready = bead_graph::get_ready_beads(&beads).unwrap();
    assert_eq!(ready, vec!["a", "b", "c"]);
}

#[test]
fn unknown_reference_is_rejected() {
    let beads = vec![bead("a", None, &["ghost"], &[])];
    assert!(matches!(
        bead_graph::topo_sort(&beads),
        Err(GraphError::UnknownNode)
    ));
    assert!(matches!(
        bead_graph::get_ready_beads(&beads),
        Err(GraphError::UnknownNode)
    ));
    assert!(matches!(
        bead_graph::critical_path(&beads),
        Err(GraphError::UnknownNode)
    ));
    assert!(matches!(
        bead_graph::build_adjacency(&beads),
        Err(GraphError::UnknownNode)
    ));
}

#[test]
fn empty_input() {
    let beads: Vec<BeadNode> = vec![];
    let topo = bead_graph::topo_sort(&beads).unwrap();
    assert!(!topo.has_cycle);
    assert!(topo.sorted.is_empty());
    assert!(topo.cycle_nodes.is_empty());

    let cp = bead_graph::critical_path(&beads).unwrap();
    assert_eq!(cp.total_duration, 0);
    assert!(cp.path.is_empty());
    assert!(cp.slack.is_empty());
}

#[test]
fn self_loop_is_a_cycle() {
    let beads = vec![bead("a", None, &[], &["a"]), bead("b", None, &[], &[])];
    let topo = bead_graph::topo_sort(&beads).unwrap();
    assert!(topo.has_cycle);
    assert_eq!(topo.cycle_nodes, vec!["a"]);
    assert_eq!(topo.sorted, vec!["b"]);
}

#[test]
fn determinism_on_identical_input() {
    let beads = vec![
        bead("x", Some(3), &[], &["z"]),
        bead("y", Some(4), &[], &["z"]),
        bead("z", Some(5), &["x", "y"], &[]),
        bead("w", Some(1), &[], &[]),
    ];
    let t1 = bead_graph::topo_sort(&beads).unwrap();
    let t2 = bead_graph::topo_sort(&beads).unwrap();
    assert_eq!(t1.sorted, t2.sorted);
    assert_eq!(t1.has_cycle, t2.has_cycle);
    assert_eq!(t1.cycle_nodes, t2.cycle_nodes);

    let c1 = bead_graph::critical_path(&beads).unwrap();
    let c2 = bead_graph::critical_path(&beads).unwrap();
    assert_eq!(c1.path, c2.path);
    assert_eq!(c1.total_duration, c2.total_duration);
    assert_eq!(c1.slack, c2.slack);
    // ties among simultaneously ready nodes break by input order
    assert_eq!(t1.sorted, vec!["x", "y", "w", "z"]);
}

#[test]
fn slack_of_parallel_branches() {
    let beads = vec![
        bead("a", Some(10), &[], &["c"]),
        bead("b", Some(2), &[], &["c"]),
        bead("c", Some(1), &["a", "b"], &[]),
    ];
    let cp = bead_graph::critical_path(&beads).unwrap();
    assert_eq!(cp.total_duration, 11);
    assert_eq!(cp.path, vec!["a", "c"]);
    let get = |id: &str| cp.slack.iter().find(|(n, _)| n == id).unwrap().1;
    assert_eq!(get("a"), 0);
    assert_eq!(get("b"), 8);
    assert_eq!(get("c"), 0);
}

#[test]
fn total_duration_never_exceeds_duration_sum() {
    let beads = vec![
        bead("a", Some(7), &[], &["b"]),
        bead("b", Some(5), &["a"], &[]),
        bead("c", Some(9), &[], &[]),
    ];
    let cp = bead_graph::critical_path(&beads).unwrap();
    assert!(cp.total_duration <= 7 + 5 + 9);
    assert_eq!(cp.total_duration, 12);
}

#[test]
fn adjacency_from_both_directions() {
    let beads = vec![
        bead("a", None, &[], &["b"]),
        bead("b", None, &["a"], &["c"]),
        bead("c", None, &[], &[]),
    ];
    let bg = bead_graph::build_adjacency(&beads).unwrap();
    assert_eq!(bg.nodes, vec!["a", "b", "c"]);
    let pairs: Vec<(String, String)> = bg.edges;
    assert_eq!(pairs.len(), 2);
    assert!(pairs.contains(&("a".to_string(), "b".to_string())));
    assert!(pairs.contains(&("b".to_string(), "c".to_string())));
}

#[test]
fn explicit_edge_list_input() {
    let beads = vec![bead("a", None, &[], &[]), bead("b", None, &[], &[])];
    let edges = vec![GraphEdge { from: "a".to_string(), to: "b".to_string(), weight: 0 }];
    let g = bead_graph::build_graph(&beads, &edges).unwrap();
    assert_eq!(g.adj.len(), 2);
    assert_eq!(g.adj[0], vec![1]);
    assert!(g.adj[1].is_empty());
    assert_eq!(g.preds[1], vec![0]);

    let unknown = vec![GraphEdge { from: "a".to_string(), to: "z".to_string(), weight: 0 }];
    assert!(matches!(
        bead_graph::build_graph(&beads, &unknown),
        Err(GraphError::UnknownNode)
    ));
}

#[test]
fn duration_sum_fitting() {
    let small = vec![bead("a", Some(1), &[], &[]), bead("b", Some(2), &[], &[])];
    assert!(bead_graph::durations_fit(&small));
    let large = vec![
        bead("a", Some(u32::MAX), &[], &[]),
        bead("b", Some(u32::MAX), &[], &[]),
    ];
    assert!(!bead_graph::durations_fit(&large));
}

#[test]
fn levels_reject_cycles() {
    let beads = vec![
        bead("a", None, &["b"], &[]),
        bead("b", None, &["a"], &[]),
    ];
    assert!(matches!(
        bead_graph::compute_levels(&beads),
        Err(GraphError::CyclicGraph)
    ));
}

#[test]
fn acyclic_graph_has_no_cycle_nodes() {
    let beads = create_test_beads();
    let cyc = bead_graph::find_cycle_nodes(&beads).unwrap();
    assert!(cyc.is_empty());
}

#[test]
fn level_strictly_increases_along_edges() {
    let beads = vec![
        bead("a", None, &[], &["b", "c"]),
        bead("b", None, &["a"], &["c"]),
        bead("c", None, &["a", "b"], &[]),
    ];
    let levels = bead_graph::compute_levels(&beads).unwrap();
    let get = |id: &str| levels.iter().find(|(n, _)| n == id).unwrap().1;
    assert!(get("b") > get("a"));
    assert!(get("c") > get("a"));
    assert!(get("c") > get("b"));
    assert_eq!(get("a"), 0);
    assert_eq!(get("c"), 2);
}
