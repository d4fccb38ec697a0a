use semantic_engine::dictionary::{Dictionary, DictionaryError, NODE_ID_LIMIT, PREDICATE_ID_LIMIT};
use semantic_engine::graph::{IngestCounts, TenantGraph, Triple};
use semantic_engine::persistence::{GraphSnapshot, SnapshotError};
use semantic_engine::service::{
    delete_response, reject_delete, search, snapshot_path, tenant_key, FileRemoval, TenantRegistry,
};
use semantic_engine::text::numbered;

fn triple(s: &str, p: &str, o: &str) -> Triple {
    Triple { subject: s.to_string(), predicate: p.to_string(), object: o.to_string() }
}

fn names(g: &TenantGraph) -> Vec<(String, String, String)> {
    let mut v: Vec<(String, String, String)> = g
        .get_all_triples()
        .into_iter()
        .map(|t| (t.subject, t.predicate, t.object))
        .collect();
    v.sort();
    v
}

#[test]
fn ingest_two_triples_into_t1() {
    let mut g = TenantGraph::new("t1");
    let batch = vec![triple("a", "likes", "b"), triple("b", "likes", "c")];
    let counts = g.ingest(&batch).unwrap();
    assert_eq!(counts.edges_added, 2);
    let a = g.resolve_id("a");
    let b = g.resolve_id("b");
    assert!(a.found && b.found);
    let n = g.get_neighbors(a.node_id);
    assert_eq!(n.len(), 1);
    assert_eq!(n[0].node_id, b.node_id);
    assert_eq!(n[0].edge_type, "likes");
    assert_eq!(
        names(&g),
        vec![
            ("a".to_string(), "likes".to_string(), "b".to_string()),
            ("b".to_string(), "likes".to_string(), "c".to_string()),
        ]
    );
}

#[test]
fn empty_tenant_goes_to_default() {
    assert_eq!(tenant_key(""), "default");
    assert_eq!(tenant_key("t1"), "t1");
    let mut reg: TenantRegistry<TenantGraph> = TenantRegistry::new();
    assert!(reg.insert_if_absent("", TenantGraph::new("default")));
    {
        let g = reg.get("").unwrap();
        assert_eq!(g.tenant_id(), "default");
    }
    assert!(reg.get("default").is_some());
    assert!(!reg.insert_if_absent("default", TenantGraph::new("default")));
    assert!(reg.get("other").is_none());
}

#[test]
fn default_tenant_sees_earlier_batch() {
    let mut reg: TenantRegistry<TenantGraph> = TenantRegistry::new();
    reg.insert_if_absent("", TenantGraph::new("default"));
    let mut g = TenantGraph::new("default");
    g.ingest(&vec![triple("x", "p", "y")]).unwrap();
    reg.remove("");
    reg.insert_if_absent("", g);
    let seen = reg.get("").unwrap();
    assert!(seen.resolve_id("x").found);
}

#[test]
fn resolve_unknown_name_is_not_found() {
    let mut g = TenantGraph::new("t");
    g.ingest(&vec![triple("a", "p", "b")]).unwrap();
    let r = g.resolve_id("never");
    assert!(!r.found);
    assert_eq!(r.node_id, 0);
}

#[test]
fn dictionary_is_a_bijection() {
    let mut d = Dictionary::new(NODE_ID_LIMIT);
    assert_eq!(d.get_or_create("alpha"), Ok((0, true)));
    assert_eq!(d.get_or_create("beta"), Ok((1, true)));
    assert_eq!(d.get_or_create("alpha"), Ok((0, false)));
    assert_eq!(d.lookup("beta"), Some(1));
    assert_eq!(d.name_of(0), Some("alpha".to_string()));
    assert_eq!(d.name_of(1), Some("beta".to_string()));
    assert_eq!(d.name_of(2), None);
    assert_eq!(d.len(), 2);
    assert_eq!(d.next_id(), 2);
}

#[test]
fn distinct_names_get_distinct_increasing_ids() {
    let mut d = Dictionary::new(NODE_ID_LIMIT);
    let mut seen = Vec::new();
    for k in 0..50u32 {
        let (id, created) = d.get_or_create(&format!("n{}", k)).unwrap();
        assert!(created);
        assert_eq!(id, k);
        assert!(!seen.contains(&id));
        seen.push(id);
    }
}

#[test]
fn predicate_space_exhaustion_is_an_error() {
    let mut d = Dictionary::new(2);
    assert_eq!(d.get_or_create("first"), Ok((0, true)));
    assert_eq!(d.get_or_create("second"), Ok((1, true)));
    assert_eq!(d.get_or_create("third"), Err(DictionaryError::IdSpaceExhausted));
    assert_eq!(d.get_or_create("second"), Ok((1, false)));
    assert_eq!(PREDICATE_ID_LIMIT, 65536);
}

#[test]
fn capacity_covers_every_edge() {
    let mut g = TenantGraph::new("t");
    let batch = vec![triple("a", "p", "b"), triple("c", "p", "a"), triple("d", "q", "d")];
    g.ingest(&batch).unwrap();
    for t in g.get_all_triples() {
        let s = g.resolve_id(&t.subject).node_id as usize;
        let o = g.resolve_id(&t.object).node_id as usize;
        assert!(g.num_nodes() > s.max(o));
    }
    assert_eq!(g.num_nodes(), 4);
}

#[test]
fn nodes_added_counts_capacity_growths() {
    let mut g = TenantGraph::new("t");
    let first = g.ingest(&vec![triple("a", "p", "b")]).unwrap();
    assert_eq!(first, IngestCounts { nodes_added: 1, edges_added: 1 });
    let second = g.ingest(&vec![triple("b", "p", "a"), triple("a", "p", "b")]).unwrap();
    assert_eq!(second, IngestCounts { nodes_added: 0, edges_added: 2 });
    let third = g.ingest(&vec![triple("c", "p", "a"), triple("d", "p", "e")]).unwrap();
    assert_eq!(third, IngestCounts { nodes_added: 2, edges_added: 2 });
}

#[test]
fn duplicate_and_self_loop_edges_are_kept() {
    let mut g = TenantGraph::new("t");
    let batch = vec![triple("a", "p", "a"), triple("a", "p", "a")];
    assert_eq!(g.ingest(&batch).unwrap().edges_added, 2);
    let a = g.resolve_id("a").node_id;
    assert_eq!(g.get_neighbors(a).len(), 2);
    assert_eq!(g.get_all_triples().len(), 2);
}

#[test]
fn neighbors_past_capacity_are_empty() {
    let g = TenantGraph::new("t");
    assert!(g.get_neighbors(7).is_empty());
    assert!(g.get_all_triples().is_empty());
}

#[test]
fn per_name_ids_on_tenant_graph() {
    let mut g = TenantGraph::new("t");
    assert_eq!(g.get_or_create_node_id("a"), Ok((0, true)));
    assert_eq!(g.num_nodes(), 1);
    assert_eq!(g.get_or_create_node_id("a"), Ok((0, false)));
    assert_eq!(g.get_or_create_node_id("b"), Ok((1, true)));
    assert_eq!(g.num_nodes(), 2);
    assert_eq!(g.get_or_create_predicate_id("p"), Ok(0));
    assert_eq!(g.get_or_create_predicate_id("q"), Ok(1));
    assert_eq!(g.get_or_create_predicate_id("p"), Ok(0));
}

#[test]
fn snapshot_round_trip_through_bytes() {
    let mut g = TenantGraph::new("t");
    let batch = vec![
        triple("a", "likes", "b"),
        triple("b", "knows", "c"),
        triple("a", "likes", "c"),
        triple("a", "likes", "b"),
    ];
    g.ingest(&batch).unwrap();
    let bytes = g.to_snapshot().to_bytes();
    let back = GraphSnapshot::from_bytes(&bytes).unwrap();
    let h = TenantGraph::from_snapshot("t", back);
    assert_eq!(names(&h), names(&g));
    for name in ["a", "b", "c"] {
        let id = g.resolve_id(name);
        assert_eq!(h.resolve_id(name), id);
        let gn: Vec<(u32, String)> = g.get_neighbors(id.node_id).into_iter().map(|n| (n.node_id, n.edge_type)).collect();
        let hn: Vec<(u32, String)> = h.get_neighbors(id.node_id).into_iter().map(|n| (n.node_id, n.edge_type)).collect();
        assert_eq!(gn, hn);
    }
    let s1 = g.to_snapshot();
    let s2 = h.to_snapshot();
    assert_eq!(s1.nodes, s2.nodes);
    assert_eq!(s1.predicates, s2.predicates);
    assert_eq!(s1.edges, s2.edges);
}

#[test]
fn empty_graph_round_trip() {
    let g = TenantGraph::new("t");
    let bytes = g.to_snapshot().to_bytes();
    assert_eq!(bytes, vec![0u8; 24]);
    let h = TenantGraph::from_snapshot("t", GraphSnapshot::from_bytes(&bytes).unwrap());
    assert_eq!(h.num_nodes(), 0);
    assert!(h.to_snapshot().nodes.is_empty());
}

#[test]
fn encoding_of_one_node() {
    let s = GraphSnapshot { nodes: vec![(7, "ab".to_string())], edges: vec![], predicates: vec![] };
    let bytes = s.to_bytes();
    let mut expected = vec![1u8, 0, 0, 0, 0, 0, 0, 0, 7, 0, 0, 0, 2, 0, 0, 0, 0, 0, 0, 0, b'a', b'b'];
    expected.extend_from_slice(&[0u8; 16]);
    assert_eq!(bytes, expected);
}

#[test]
fn malformed_bytes_fail_to_decode() {
    assert_eq!(GraphSnapshot::from_bytes(&[1, 2, 3]).err(), Some(SnapshotError::Decode));
    assert!(GraphSnapshot::from_bytes(&[]).is_err());
}

#[test]
fn restored_counters_continue_past_largest_id() {
    let s = GraphSnapshot {
        nodes: vec![(5, "x".to_string()), (2, "y".to_string())],
        edges: vec![],
        predicates: vec![(3, "p".to_string())],
    };
    let mut g = TenantGraph::from_snapshot("t", s);
    assert_eq!(g.resolve_id("x").node_id, 5);
    assert!(!g.resolve_id("z").found);
    assert_eq!(g.get_or_create_node_id("z"), Ok((6, true)));
    assert_eq!(g.num_nodes(), 7);
    assert_eq!(g.get_or_create_predicate_id("q"), Ok(4));
    assert!(g.num_nodes() >= 6);
    let mut empty = TenantGraph::from_snapshot("t", GraphSnapshot::empty());
    assert_eq!(empty.get_or_create_node_id("first"), Ok((0, true)));
}

#[test]
fn unknown_ids_get_placeholder_names() {
    let s = GraphSnapshot { nodes: vec![(0, "a".to_string())], edges: vec![(0, 12, 3)], predicates: vec![] };
    let g = TenantGraph::from_snapshot("t", s);
    assert_eq!(g.num_nodes(), 13);
    let t = g.get_all_triples();
    assert_eq!(t.len(), 1);
    assert_eq!(t[0].subject, "a");
    assert_eq!(t[0].predicate, "Predicate_3");
    assert_eq!(t[0].object, "Node_12");
    assert_eq!(g.get_neighbors(0)[0].edge_type, "Predicate_3");
}

#[test]
fn clashing_snapshot_pairs_keep_the_first() {
    let s = GraphSnapshot {
        nodes: vec![(0, "a".to_string()), (0, "b".to_string()), (1, "a".to_string())],
        edges: vec![],
        predicates: vec![],
    };
    let g = TenantGraph::from_snapshot("t", s);
    assert_eq!(g.resolve_id("a").node_id, 0);
    assert!(!g.resolve_id("b").found);
    assert_eq!(g.to_snapshot().nodes.len(), 1);
}

#[test]
fn numbered_labels() {
    assert_eq!(numbered("Node_", 42), "Node_42");
    assert_eq!(numbered("Predicate_", 0), "Predicate_0");
    assert_eq!(numbered("", 4294967295), "4294967295");
    assert_eq!(numbered("n", 10), "n10");
    assert_eq!(numbered("n", 100), "n100");
    assert_eq!(numbered("n", 9), "n9");
}

#[test]
fn snapshot_file_name() {
    assert_eq!(snapshot_path("data/graphs", "t1"), "data/graphs/t1.bin");
}

#[test]
fn search_is_always_empty() {
    assert!(search("anything").is_empty());
}

#[test]
fn delete_of_missing_tenant_succeeds_twice() {
    let mut reg: TenantRegistry<TenantGraph> = TenantRegistry::new();
    reg.insert_if_absent("t", TenantGraph::new("t"));
    assert!(reg.remove("t"));
    assert!(!reg.remove("t"));
    assert!(reg.get("t").is_none());
    let first = delete_response("t", FileRemoval::Absent);
    let second = delete_response("t", FileRemoval::Absent);
    assert!(first.success && second.success);
    assert_eq!(first.message, "Tenant data not found (already clean)");
}

#[test]
fn delete_messages() {
    let r = reject_delete("").unwrap();
    assert!(!r.success);
    assert_eq!(r.message, "Tenant ID required");
    assert!(reject_delete("t").is_none());
    let ok = delete_response("t7", FileRemoval::Removed);
    assert!(ok.success);
    assert_eq!(ok.message, "Deleted data for tenant t7");
    let bad = delete_response("t7", FileRemoval::Failed("denied".to_string()));
    assert!(!bad.success);
    assert_eq!(bad.message, "Failed to delete file: denied");
}

#[test]
fn registry_keeps_other_tenants_on_remove() {
    let mut reg: TenantRegistry<u32> = TenantRegistry::new();
    reg.insert_if_absent("a", 1);
    reg.insert_if_absent("b", 2);
    reg.insert_if_absent("c", 3);
    assert!(reg.remove("b"));
    assert_eq!(reg.get("a"), Some(&1));
    assert_eq!(reg.get("c"), Some(&3));
    assert_eq!(reg.get("b"), None);
}
