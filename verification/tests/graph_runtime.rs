use laplacianos::graph_runtime::{GraphError, GraphRuntime, Mutation, SNAPSHOT_CAP};

#[test]
fn mutation_query_walk_spectral_and_snapshot_roundtrip() {
    let mut graph = GraphRuntime::new();
    let a = graph
        .apply(Mutation::AddNode { kind: 1, flags: 0, weight: 30, parent: 0, now: 10 }, 100)
        .unwrap();
    let b = graph
        .apply(Mutation::AddNode { kind: 2, flags: 0, weight: 50, parent: a, now: 20 }, 101)
        .unwrap();
    graph
        .apply(Mutation::AddEdge { kind: 7, flags: 0, weight: 40, from: a, to: b, now: 30 }, 102)
        .unwrap();
    let ranked = graph.scored_neighborhood(a, 30, 8);
    assert_eq!(ranked.count, 1);
    assert_eq!(ranked.nodes[0].node.id, b);
    assert_eq!(graph.deterministic_walk(a, 42, 2)[1], b);
    assert_eq!(graph.spectral_snapshot().laplacian_trace, 2);
    assert_eq!(graph.provenance(101).nodes[0].node.id, b);
    let mut bytes = [0u8; SNAPSHOT_CAP];
    graph.encode_snapshot(&mut bytes).unwrap();
    let mut restored = GraphRuntime::new();
    restored.decode_snapshot(&bytes).unwrap();
    assert_eq!(restored.node(a).unwrap().kind, 1);
    assert_eq!(restored.spectral_snapshot(), graph.spectral_snapshot());
}

#[test]
fn rejects_dangling_edges_and_reports_drift() {
    let mut graph = GraphRuntime::new();
    assert_eq!(
        graph.apply(Mutation::AddEdge { kind: 1, flags: 0, weight: 1, from: 1, to: 2, now: 1 }, 0),
        Err(GraphError::InvalidEdge)
    );
    graph
        .apply(Mutation::AddNode { kind: 1, flags: 0, weight: 1, parent: 0, now: 1 }, 0)
        .unwrap();
    let drift = graph.drift_report(0, 0, 0);
    assert_eq!(drift.mutation_count, 1);
    assert_eq!(drift.node_delta, 1);
}

#[test]
fn kind_query_lists_min_of_limit_and_matches_heaviest_first() {
    let mut graph = GraphRuntime::new();
    for (weight, kind) in [(5, 3u16), (9, 3), (1, 4), (7, 3)] {
        graph.apply(Mutation::AddNode { kind, flags: 0, weight, parent: 0, now: 1 }, 0).unwrap();
    }
    let all = graph.nodes_by_kind(3, 20);
    assert_eq!(all.count, 3);
    assert_eq!([all.nodes[0].score, all.nodes[1].score, all.nodes[2].score], [9, 7, 5]);
    assert!(all.nodes[..3].iter().all(|entry| entry.node.kind == 3 && entry.score == entry.node.weight));
    assert_eq!(graph.nodes_by_kind(3, 2).count, 2);
    assert_eq!(graph.nodes_by_kind(9, 8).count, 0);
}

#[test]
fn deactivated_node_takes_its_edges_with_it() {
    let mut graph = GraphRuntime::new();
    let a = graph.apply(Mutation::AddNode { kind: 1, flags: 0, weight: 1, parent: 0, now: 1 }, 0).unwrap();
    let b = graph.apply(Mutation::AddNode { kind: 1, flags: 0, weight: 1, parent: 0, now: 1 }, 0).unwrap();
    let e = graph.apply(Mutation::AddEdge { kind: 1, flags: 0, weight: 1, from: a, to: b, now: 2 }, 0).unwrap();
    assert!(a != 0 && b != 0 && e != 0 && a != b && b != e && a != e);
    assert_eq!(graph.apply(Mutation::DeactivateNode { id: b, now: 3 }, 0), Ok(b));
    assert!(graph.node(b).is_none());
    assert_eq!(graph.apply(Mutation::UpdateEdge { id: e, weight: 2, now: 4 }, 0), Err(GraphError::MissingEdge));
}
