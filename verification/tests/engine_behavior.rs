//! End-to-end engine behavior: feature recall, typed edge spreading,
//! decay and pruning, arbitration, the backbone and the facade.
use pedsa::engine::AdvancedEngine;
use pedsa::facade::PedsaEngine;
use pedsa::graph::NodeType;
use pedsa::retrieve::blend_chaos;

#[test]
fn pure_feature_hit_ranks_event_first() {
    let mut e = AdvancedEngine::new();
    e.add_feature(1, "rust");
    e.add_event(100, "I wrote rust code", None, None);
    e.add_edge(1, 100, 1_000_000);
    e.compile();
    let r = e.retrieve("rust", 0);
    assert!(!r.is_empty());
    assert_eq!(r[0].0, 100);
    assert!(r[0].1 > 500_000, "score was {}", r[0].1);
}

#[test]
fn temporal_recall_matches_anchored_date() {
    let mut e = AdvancedEngine::new();
    // (2024-1970)*31536000 + 12*2592000 + 19*86400 == 1735689600, the
    // anchor of the literal year trigger "2025".
    e.add_event(200, "2024年12月19日 meeting", None, None);
    e.compile();
    let r = e.retrieve("2025", 0);
    assert!(r.iter().any(|p| p.0 == 200 && p.1 > 0), "results: {:?}", r);
}

#[test]
fn stopwords_are_rejected_as_features() {
    let mut e = AdvancedEngine::new();
    e.add_feature(1, "the");
    e.add_feature(2, "The");
    e.add_feature(3, "的");
    assert!(e.nodes.find_idx(1).is_none());
    assert!(e.nodes.find_idx(2).is_none());
    assert!(e.nodes.find_idx(3).is_none());
    e.add_feature(4, "keyboard");
    assert!(e.nodes.find_idx(4).is_some());
}

#[test]
fn feature_keywords_are_lowercased() {
    let mut e = AdvancedEngine::new();
    e.add_feature(1, "RuSt");
    let i = e.nodes.find_idx(1).unwrap();
    assert_eq!(e.nodes.vals[i].content, "rust");
    assert_eq!(e.nodes.vals[i].node_type, NodeType::Feature);
}

#[test]
fn add_edge_quantizes_and_keeps_max() {
    let mut e = AdvancedEngine::new();
    e.add_edge(1, 2, 500_000);
    let i = e.graph.find_idx(1).unwrap();
    assert_eq!(e.graph.vals[i].len(), 1);
    assert_eq!(e.graph.vals[i][0].connection_strength, 32_768);
    e.add_edge(1, 2, 300_000);
    assert_eq!(e.graph.vals[i][0].connection_strength, 32_768);
    e.add_edge(1, 2, 2_000_000);
    assert_eq!(e.graph.vals[i][0].connection_strength, 65_535);
    assert_eq!(e.graph.vals[i].len(), 1);
}

#[test]
fn equality_edge_passes_full_activation() {
    let mut e = AdvancedEngine::new();
    e.add_feature(1, "ai");
    e.add_feature(2, "人工智能");
    e.add_ontology_edge("ai", "人工智能", 1_000_000, true, false);
    e.add_event(300, "notes on 人工智能", None, None);
    e.add_edge(2, 300, 1_000_000);
    e.compile();
    let r = e.retrieve("ai", 0);
    assert!(r.iter().any(|p| p.0 == 300 && p.1 > 500_000), "results: {:?}", r);
}

#[test]
fn inhibition_edge_blocks_spread() {
    let mut e = AdvancedEngine::new();
    e.add_feature(1, "ai");
    e.add_feature(2, "人工智能");
    e.add_ontology_edge("ai", "人工智能", 1_000_000, false, true);
    e.add_event(300, "notes on 人工智能", None, None);
    e.add_edge(2, 300, 1_000_000);
    e.compile();
    let r = e.retrieve("ai", 0);
    assert!(!r.iter().any(|p| p.0 == 300), "results: {:?}", r);
}

#[test]
fn typed_edges_are_bidirectional() {
    let mut e = AdvancedEngine::new();
    e.add_feature(1, "ai");
    e.add_feature(2, "ml");
    e.add_ontology_edge("ai", "ml", 1_000_000, true, false);
    let fi = e.ontology_graph.find_idx(1).unwrap();
    let ri = e.ontology_graph.find_idx(2).unwrap();
    assert!(e.ontology_graph.vals[fi].iter().any(|g| g.target_node_id == 2 && g.edge_type == 1));
    assert!(e.ontology_graph.vals[ri].iter().any(|g| g.target_node_id == 1 && g.edge_type == 1));
}

#[test]
fn representation_edge_is_directed() {
    let mut e = AdvancedEngine::new();
    e.add_feature(1, "ai");
    e.add_feature(2, "ml");
    e.add_ontology_edge("ai", "ml", 500_000, false, false);
    let fi = e.ontology_graph.find_idx(1).unwrap();
    assert!(e.ontology_graph.vals[fi].iter().any(|g| g.target_node_id == 2 && g.edge_type == 0));
    assert!(e.ontology_graph.find_idx(2).is_none());
}

#[test]
fn repeated_ontology_edge_reinforces() {
    let mut e = AdvancedEngine::new();
    e.add_feature(1, "ai");
    e.add_feature(2, "ml");
    e.add_ontology_edge("ai", "ml", 500_000, false, false);
    e.add_ontology_edge("ai", "ml", 500_000, false, false);
    let fi = e.ontology_graph.find_idx(1).unwrap();
    let q = (500_000u64 * 65535 + 500_000) / 1_000_000;
    let ed = e.ontology_graph.vals[fi].iter().find(|g| g.target_node_id == 2).unwrap();
    assert!(ed.connection_strength as u64 >= q);
    assert!(ed.connection_strength as u64 == q + q / 2);
}

#[test]
fn maintain_ontology_reads_relation_tags() {
    let mut e = AdvancedEngine::new();
    e.maintain_ontology("cat", "animal", "Equality", 1_000_000);
    let fi = e.keyword_to_node.find_idx("cat").unwrap();
    let cat = e.keyword_to_node.ids[fi];
    let gi = e.ontology_graph.find_idx(cat).unwrap();
    assert!(e.ontology_graph.vals[gi].iter().any(|g| g.edge_type == 1));
    e.maintain_ontology("cat", "dog", "conflict", 1_000_000);
    let gi = e.ontology_graph.find_idx(cat).unwrap();
    assert!(e.ontology_graph.vals[gi].iter().any(|g| g.edge_type == 255));
}

#[test]
fn stopword_endpoints_block_ontology_edges() {
    let mut e = AdvancedEngine::new();
    e.add_ontology_edge("the", "ml", 1_000_000, false, false);
    assert_eq!(e.ontology_graph.len(), 0);
}

#[test]
fn decay_prune_caps_at_hundred_edges() {
    let mut e = AdvancedEngine::new();
    for i in 0..150u32 {
        let w = 10_000 + (i as u32) * 990_000 / 149;
        e.add_ontology_edge("hub", &format!("spoke{:03}", i), w, false, false);
    }
    let hi = e.keyword_to_node.find_idx("hub").unwrap();
    let hub = e.keyword_to_node.ids[hi];
    let gi = e.ontology_graph.find_idx(hub).unwrap();
    assert_eq!(e.ontology_graph.vals[gi].len(), 150);
    let mut strengths: Vec<u16> =
        e.ontology_graph.vals[gi].iter().map(|g| g.connection_strength).collect();
    strengths.sort_unstable_by(|a, b| b.cmp(a));
    let hundredth = strengths[99] as u64;
    e.prune_ontology();
    let gi = e.ontology_graph.find_idx(hub).unwrap();
    let kept = &e.ontology_graph.vals[gi];
    assert_eq!(kept.len(), 100);
    let floor = hundredth * 990_000 / 1_000_000;
    for g in kept.iter() {
        assert!(g.connection_strength as u64 >= floor);
        assert!(g.connection_strength > 3_277);
    }
}

#[test]
fn arbitration_text_lists_edges() {
    let mut e = AdvancedEngine::new();
    e.add_feature(1, "ai");
    e.add_feature(2, "ml");
    e.add_ontology_edge("ai", "ml", 1_000_000, false, false);
    let text = e.trigger_arbitration("ai").unwrap();
    assert_eq!(text, "ai -> ml (Strength: 1.00)");
    assert!(e.trigger_arbitration("unknown").is_none());
}

#[test]
fn apply_arbitration_removes_named_targets() {
    let mut e = AdvancedEngine::new();
    e.add_feature(1, "ai");
    e.add_feature(2, "ml");
    e.add_feature(3, "nlp");
    e.add_ontology_edge("ai", "ml", 1_000_000, false, false);
    e.add_ontology_edge("ai", "nlp", 1_000_000, false, false);
    e.apply_arbitration("ai", vec!["ml".to_string()]);
    let gi = e.ontology_graph.find_idx(1).unwrap();
    assert_eq!(e.ontology_graph.vals[gi].len(), 1);
    assert_eq!(e.ontology_graph.vals[gi][0].target_node_id, 3);
}

#[test]
fn execute_maintenance_dispatches() {
    let mut e = AdvancedEngine::new();
    assert!(e.execute_maintenance("upsert", "ai", "ml", "equality", 1_000_000, "").is_none());
    let ctx = e.execute_maintenance("replace", "ai", "nlp", "", 1_000_000, "");
    assert!(ctx.is_some());
    assert!(ctx.unwrap().contains("ai -> "));
    assert!(e.execute_maintenance("noop", "x", "y", "", 1_000_000, "").is_none());
}

#[test]
fn backbone_links_events_in_time_order() {
    let mut e = AdvancedEngine::new();
    e.add_event(1, "2021年01月02日 first", None, None);
    e.add_event(2, "2023年05月06日 third", None, None);
    e.add_event(3, "2022年03月04日 second", None, None);
    e.build_temporal_backbone();
    let a = e.nodes.find_idx(1).unwrap();
    let b = e.nodes.find_idx(3).unwrap();
    let c = e.nodes.find_idx(2).unwrap();
    assert_eq!(e.nodes.vals[a].prev_event, None);
    assert_eq!(e.nodes.vals[a].next_event, Some(3));
    assert_eq!(e.nodes.vals[b].prev_event, Some(1));
    assert_eq!(e.nodes.vals[b].next_event, Some(2));
    assert_eq!(e.nodes.vals[c].prev_event, Some(3));
    assert_eq!(e.nodes.vals[c].next_event, None);
}

#[test]
fn retrieval_results_are_sorted_events() {
    let mut e = AdvancedEngine::new();
    e.add_feature(1, "rust");
    e.add_feature(2, "code");
    e.add_event(100, "rust code diary", None, None);
    e.add_event(101, "more rust notes", None, None);
    e.add_edge(1, 100, 1_000_000);
    e.add_edge(1, 101, 400_000);
    e.add_edge(2, 100, 900_000);
    e.compile();
    let r = e.retrieve("rust code", 0);
    for w in r.windows(2) {
        assert!(w[0].1 >= w[1].1);
    }
    for p in r.iter() {
        let ni = e.nodes.find_idx(p.0).unwrap();
        assert_eq!(e.nodes.vals[ni].node_type, NodeType::Event);
    }
}

#[test]
fn chaos_candidates_rank_by_hamming_distance() {
    let mut e = AdvancedEngine::new();
    e.add_event(1, "near", Some(0b1111), Some(vec![0, 0]));
    e.add_event(2, "far", Some(u128::MAX), Some(vec![0, 0]));
    e.add_event(3, "close", Some(0b0111), Some(vec![0, 0]));
    let c = e.chaos_candidates(0b0111);
    assert_eq!(c.len(), 2);
    assert_eq!(c[0], (2, 0));
    assert_eq!(c[1], (0, 1));
}

#[test]
fn chaos_store_add_is_idempotent() {
    let mut e = AdvancedEngine::new();
    e.add_event(1, "a", Some(5), Some(vec![1]));
    e.add_event(1, "a again", Some(9), Some(vec![2]));
    assert_eq!(e.chaos_store.ids.len(), 1);
    assert_eq!(e.chaos_store.fingerprints[0], 5);
}

#[test]
fn chaos_blend_prefers_cosine_match() {
    let graph_results: Vec<(i64, i64)> = vec![(1, 500_000), (2, 500_000)];
    let sims: Vec<(i64, i64)> = vec![(1, 980_000), (2, 900_000)];
    let r = blend_chaos(&graph_results, &sims, 1_000_000);
    assert_eq!(r[0].0, 1);
    assert!(r[0].1 > r[1].1);
    // At full chaos the graph scores are scaled away entirely.
    assert_eq!(r[1].1, 0);
    assert_eq!(r[0].1, 90_000);
}

#[test]
fn facade_renders_ranked_json() {
    let mut p = PedsaEngine::new();
    p.add_feature(1, "rust");
    p.add_event(100, "a \"rust\" diary");
    p.add_edge(1, 100, 1_000_000);
    p.compile();
    let json = p.retrieve("rust", 0);
    assert!(json.starts_with('['));
    assert!(json.ends_with(']'));
    assert!(json.contains("\"id\":100"), "json: {}", json);
    assert!(json.contains("\\\"rust\\\""), "json: {}", json);
    assert!(json.contains("\"timestamp\":1672531200"), "json: {}", json);
}

#[test]
fn facade_empty_query_yields_empty_array() {
    let p = PedsaEngine::new();
    assert_eq!(p.retrieve("anything", 0), "[]");
}
