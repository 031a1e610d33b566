use update_graph::builder::{BuilderState, Entry, FetchOutcome, Scheduler, build_graph, refresh_step};
use update_graph::cache::{GraphCache, Snapshot};
use update_graph::config::{
    AppState, LogLevel, Options, log_level, parse_duration, parse_params_set, parse_path_prefix,
};
use update_graph::graph::{Graph, Release, UpgradeEdge, filter_graph};
use update_graph::policy::{Filter, apply_chain, apply_filter, policy_refresh_step, sanitize_graph, serve_with_policy};
use update_graph::server::{ServeError, serve, validate_params};
use update_graph::text::{NumberError, parse_u64, split_commas_exec, string_eq};

fn pairs(kv: &[(&str, &str)]) -> Vec<(String, String)> {
    kv.iter().map(|(k, v)| (k.to_string(), v.to_string())).collect()
}

fn entry(kv: &[(&str, &str)], payload: &str) -> Entry {
    Entry { labels: pairs(kv), payload: payload.to_string() }
}

fn rel(version: &str, kv: &[(&str, &str)]) -> Release {
    Release { version: version.to_string(), labels: pairs(kv), payload: String::new() }
}

fn edge(from: &str, to: &str) -> UpgradeEdge {
    UpgradeEdge { from: from.to_string(), to: to.to_string(), metadata: Vec::new() }
}

fn versions(g: &Graph) -> Vec<String> {
    g.nodes.iter().map(|r| r.version.clone()).collect()
}

fn edge_pairs(g: &Graph) -> Vec<(String, String)> {
    g.edges.iter().map(|e| (e.from.clone(), e.to.clone())).collect()
}

#[test]
fn string_eq_compares_contents() {
    assert!(string_eq(&"abc".to_string(), &"abc".to_string()));
    assert!(!string_eq(&"abc".to_string(), &"abd".to_string()));
}

#[test]
fn parse_u64_exact_values() {
    assert_eq!(parse_u64(&"0".to_string()), Ok(0));
    assert_eq!(parse_u64(&"30".to_string()), Ok(30));
    assert_eq!(parse_u64(&"18446744073709551615".to_string()), Ok(u64::MAX));
}

#[test]
fn parse_u64_rejects_malformed() {
    assert_eq!(parse_u64(&String::new()), Err(NumberError::Malformed));
    assert_eq!(parse_u64(&"12a".to_string()), Err(NumberError::Malformed));
    assert_eq!(parse_u64(&"-3".to_string()), Err(NumberError::Malformed));
}

#[test]
fn parse_u64_rejects_too_large() {
    assert_eq!(parse_u64(&"18446744073709551616".to_string()), Err(NumberError::TooLarge));
}

#[test]
fn parse_duration_reads_seconds() {
    assert_eq!(parse_duration("30"), Ok(30));
    assert_eq!(parse_duration("1bad"), Err(NumberError::Malformed));
}

#[test]
fn split_commas_drops_empty_segments() {
    let toks = split_commas_exec(&"a,,b,".to_string());
    assert_eq!(toks, vec!["a".to_string(), "b".to_string()]);
    let none = split_commas_exec(&String::new());
    assert!(none.is_empty());
}

#[test]
fn params_set_deduplicates() {
    let set = parse_params_set("channel,arch,channel,");
    assert_eq!(set, vec!["channel".to_string(), "arch".to_string()]);
    assert!(parse_params_set("").is_empty());
}

#[test]
fn path_prefix_normalized() {
    assert_eq!(parse_path_prefix(""), "");
    assert_eq!(parse_path_prefix("///"), "");
    assert_eq!(parse_path_prefix("//a/b//"), "/a/b");
    assert_eq!(parse_path_prefix("graph"), "/graph");
}

#[test]
fn log_level_mapping() {
    assert_eq!(log_level(0), LogLevel::Warn);
    assert_eq!(log_level(1), LogLevel::Info);
    assert_eq!(log_level(2), LogLevel::Debug);
    assert_eq!(log_level(7), LogLevel::Trace);
}

#[test]
fn default_options_match_their_documentation() {
    let o = Options::defaults();
    assert_eq!(o.verbosity, 0);
    assert_eq!(o.registry, "http://localhost:5000");
    assert_eq!(o.repository, "openshift");
    assert_eq!(o.period, 30);
    assert_eq!(o.address, "127.0.0.1");
    assert_eq!(o.port, 8080);
    assert!(o.credentials_path.is_none());
    assert_eq!(o.path_prefix, "");
    assert!(o.mandatory_client_parameters.is_empty());
    assert!(!o.disable_quay_api_metadata);
    assert_eq!(o.quay_api_base, "https://quay.io/api/v1");
    assert_eq!(o.quay_label_filter, "io.openshift.upgrades.graph");
    assert_eq!(o.quay_manifestref_key, "io.openshift.upgrades.graph.release.manifestref");
    assert!(o.quay_api_credentials_path.is_none());
}

#[test]
fn default_app_state_points_at_local_upstream() {
    let s = AppState::default();
    assert!(s.mandatory_params.is_empty());
    assert_eq!(s.upstream, "http://localhost:8080/v1/graph");
    assert_eq!(s.path_prefix, "");
}

#[test]
fn one_valid_entry_among_malformed_yields_one_release() {
    // Two malformed entries (no version label) and one valid entry in one
    // cycle: the graph holds exactly one release.
    let entries = vec![
        entry(&[("io.something", "x")], "sha:1"),
        entry(&[("version", "1.0.0"), ("channel", "stable")], "sha:2"),
        entry(&[], "sha:3"),
    ];
    let g = build_graph(&entries);
    assert_eq!(versions(&g), vec!["1.0.0".to_string()]);
    assert!(g.edges.is_empty());
}

#[test]
fn repeated_versions_keep_first_entry() {
    let entries = vec![
        entry(&[("version", "1.0.0"), ("channel", "stable")], "sha:1"),
        entry(&[("version", "1.0.0"), ("channel", "fast")], "sha:2"),
    ];
    let g = build_graph(&entries);
    assert_eq!(g.nodes.len(), 1);
    assert_eq!(g.nodes[0].payload, "sha:1");
}

#[test]
fn edges_derived_from_previous_label() {
    let entries = vec![
        entry(&[("version", "1.0.0")], "a"),
        entry(&[("version", "2.0.0"), ("previous", "1.0.0")], "b"),
    ];
    let g = build_graph(&entries);
    assert_eq!(edge_pairs(&g), vec![("1.0.0".to_string(), "2.0.0".to_string())]);
}

#[test]
fn bad_previous_tokens_yield_no_edges() {
    // A predecessor that names no release, a self-reference, and a
    // duplicate each yield nothing; the one good token yields one edge.
    let entries = vec![
        entry(&[("version", "1.0.0")], "a"),
        entry(
            &[("version", "2.0.0"), ("previous", "0.9.9,2.0.0,1.0.0,1.0.0,")],
            "b",
        ),
    ];
    let g = build_graph(&entries);
    assert_eq!(edge_pairs(&g), vec![("1.0.0".to_string(), "2.0.0".to_string())]);
}

#[test]
fn cache_starts_empty_and_publishes_whole_snapshots() {
    let mut cache = GraphCache::new();
    assert!(cache.current().is_none());
    let g = build_graph(&vec![entry(&[("version", "1.0.0")], "a")]);
    cache.publish(Snapshot { graph: g, timestamp: 11 });
    let snap = cache.current().unwrap();
    assert_eq!(snap.timestamp, 11);
    assert_eq!(snap.graph.nodes.len(), 1);
}

#[test]
fn failed_cycle_keeps_previous_snapshot() {
    // The source fails on cycle N after succeeding on N-1: the snapshot of
    // N-1 stays authoritative, and the failure is counted.
    let mut cache = GraphCache::new();
    let mut st = BuilderState { consecutive_failures: 0 };
    let entries = vec![entry(&[("version", "1.0.0"), ("channel", "stable")], "a")];
    refresh_step(&mut cache, &mut st, FetchOutcome::Entries(entries), 100);
    assert_eq!(st.consecutive_failures, 0);
    refresh_step(&mut cache, &mut st, FetchOutcome::Failed, 130);
    assert_eq!(st.consecutive_failures, 1);
    let snap = cache.current().unwrap();
    assert_eq!(snap.timestamp, 100);
    assert_eq!(versions(&snap.graph), vec!["1.0.0".to_string()]);
    refresh_step(&mut cache, &mut st, FetchOutcome::Failed, 160);
    assert_eq!(st.consecutive_failures, 2);
}

#[test]
fn overlapping_tick_is_skipped_not_queued() {
    let mut sched = Scheduler::new();
    assert!(sched.on_tick());
    // The cycle overruns one period: the next tick fires while it runs.
    assert!(!sched.on_tick());
    assert_eq!(sched.skipped_ticks, 1);
    sched.on_cycle_end();
    // Exactly one tick was skipped; the following tick runs again.
    assert!(sched.on_tick());
    assert_eq!(sched.skipped_ticks, 1);
}

#[test]
fn missing_mandatory_parameter_is_rejected() {
    let mandatory = vec!["channel".to_string()];
    let q = pairs(&[("arch", "amd64")]);
    assert_eq!(validate_params(&mandatory, &q), Some("channel".to_string()));
    assert_eq!(validate_params(&mandatory, &pairs(&[("channel", "stable")])), None);
}

#[test]
fn request_without_channel_is_client_error_with_or_without_snapshot() {
    // The rejection happens before the snapshot is read: the same error
    // comes back from an empty cache and from a populated one.
    let mandatory = vec!["channel".to_string()];
    let q = pairs(&[("arch", "amd64")]);
    let empty = GraphCache::new();
    match serve(&mandatory, &empty, &q) {
        Err(ServeError::MissingParameter(m)) => assert_eq!(m, "channel"),
        _ => panic!("expected a client error"),
    }
    let mut full = GraphCache::new();
    let g = build_graph(&vec![entry(&[("version", "1.0.0"), ("channel", "stable")], "a")]);
    full.publish(Snapshot { graph: g, timestamp: 1 });
    match serve(&mandatory, &full, &q) {
        Err(ServeError::MissingParameter(m)) => assert_eq!(m, "channel"),
        _ => panic!("expected a client error"),
    }
}

#[test]
fn channel_filter_drops_unmatched_node_and_dangling_edge() {
    // Releases 1.0 (channel=stable) and 2.0 (channel=fast) with the edge
    // 1.0 -> 2.0, queried with channel=stable: only node 1.0 remains and
    // the now-dangling edge is dropped.
    let entries = vec![
        entry(&[("version", "1.0"), ("channel", "stable")], "a"),
        entry(&[("version", "2.0"), ("channel", "fast"), ("previous", "1.0")], "b"),
    ];
    let g = build_graph(&entries);
    assert_eq!(g.edges.len(), 1);
    let mut cache = GraphCache::new();
    cache.publish(Snapshot { graph: g, timestamp: 5 });
    let mandatory = vec!["channel".to_string()];
    let out = serve(&mandatory, &cache, &pairs(&[("channel", "stable")])).unwrap();
    assert_eq!(versions(&out), vec!["1.0".to_string()]);
    assert!(out.edges.is_empty());
}

#[test]
fn serve_is_not_ready_before_first_publish() {
    let cache = GraphCache::new();
    match serve(&Vec::new(), &cache, &Vec::new()) {
        Err(ServeError::NotReady) => {},
        _ => panic!("expected not-ready"),
    }
}

#[test]
fn unmatched_optional_parameter_restricts_nothing() {
    let g = build_graph(&vec![
        entry(&[("version", "1.0"), ("channel", "stable")], "a"),
        entry(&[("version", "2.0"), ("channel", "stable"), ("previous", "1.0")], "b"),
    ]);
    let out = filter_graph(&g, &Vec::new());
    assert_eq!(out.nodes.len(), 2);
    assert_eq!(out.edges.len(), 1);
}

#[test]
fn sanitize_repairs_untrusted_upstream_graph() {
    let g = Graph {
        nodes: vec![
            rel("1.0", &[]),
            rel("2.0", &[]),
            rel("1.0", &[("dup", "yes")]),
        ],
        edges: vec![
            edge("1.0", "2.0"),
            edge("1.0", "2.0"),
            edge("2.0", "2.0"),
            edge("1.0", "9.9"),
        ],
    };
    let out = sanitize_graph(&g);
    assert_eq!(versions(&out), vec!["1.0".to_string(), "2.0".to_string()]);
    assert!(out.nodes[0].labels.is_empty());
    assert_eq!(edge_pairs(&out), vec![("1.0".to_string(), "2.0".to_string())]);
}

#[test]
fn policy_refresh_keeps_snapshot_on_upstream_failure() {
    let mut cache = GraphCache::new();
    let mut st = BuilderState { consecutive_failures: 0 };
    let upstream = Graph { nodes: vec![rel("1.0", &[])], edges: Vec::new() };
    policy_refresh_step(&mut cache, &mut st, Some(upstream), 40);
    policy_refresh_step(&mut cache, &mut st, None, 70);
    assert_eq!(st.consecutive_failures, 1);
    let snap = cache.current().unwrap();
    assert_eq!(snap.timestamp, 40);
}

#[test]
fn block_filter_removes_edges_into_flagged_release() {
    let g = Graph {
        nodes: vec![rel("1.0", &[]), rel("2.0", &[("blocked", "true")])],
        edges: vec![edge("1.0", "2.0")],
    };
    let f = Filter::BlockEdgesInto { key: "blocked".to_string(), value: "true".to_string() };
    let out = apply_filter(&f, &g);
    assert_eq!(out.nodes.len(), 2);
    assert!(out.edges.is_empty());
}

#[test]
fn isolated_node_filter_keeps_touched_releases() {
    let g = Graph {
        nodes: vec![rel("1.0", &[]), rel("2.0", &[]), rel("3.0", &[])],
        edges: vec![edge("1.0", "2.0")],
    };
    let out = apply_filter(&Filter::RemoveIsolatedNodes, &g);
    assert_eq!(versions(&out), vec!["1.0".to_string(), "2.0".to_string()]);
    assert_eq!(out.edges.len(), 1);
}

#[test]
fn filter_chain_is_order_sensitive() {
    // Blocking the edge first leaves both releases isolated, so the second
    // filter removes them; in the other order both survive.
    let g = Graph {
        nodes: vec![rel("1.0", &[]), rel("2.0", &[("blocked", "true")])],
        edges: vec![edge("1.0", "2.0")],
    };
    let block = || Filter::BlockEdgesInto { key: "blocked".to_string(), value: "true".to_string() };
    let prune = || Filter::RemoveIsolatedNodes;

    let ab = apply_chain(&vec![block(), prune()], &g);
    assert!(ab.nodes.is_empty());
    assert!(ab.edges.is_empty());

    let ba = apply_chain(&vec![prune(), block()], &g);
    assert_eq!(ba.nodes.len(), 2);
    assert!(ba.edges.is_empty());
}

#[test]
fn chain_output_is_subgraph_of_input() {
    let g = Graph {
        nodes: vec![rel("1.0", &[]), rel("2.0", &[("blocked", "true")])],
        edges: vec![edge("1.0", "2.0")],
    };
    let chain = vec![
        Filter::BlockEdgesInto { key: "blocked".to_string(), value: "true".to_string() },
        Filter::RemoveIsolatedNodes,
    ];
    let out = apply_chain(&chain, &g);
    for r in &out.nodes {
        assert!(g.nodes.iter().any(|o| o.version == r.version));
    }
    for e in &out.edges {
        assert!(g.edges.iter().any(|o| o.from == e.from && o.to == e.to));
    }
}

#[test]
fn policy_serving_validates_then_filters_then_applies_chain() {
    let mut cache = GraphCache::new();
    let mut st = BuilderState { consecutive_failures: 0 };
    let upstream = Graph {
        nodes: vec![
            rel("1.0", &[("channel", "stable")]),
            rel("2.0", &[("channel", "stable"), ("blocked", "true")]),
        ],
        edges: vec![edge("1.0", "2.0")],
    };
    policy_refresh_step(&mut cache, &mut st, Some(upstream), 9);
    let mandatory = vec!["channel".to_string()];
    let chain = vec![Filter::BlockEdgesInto {
        key: "blocked".to_string(),
        value: "true".to_string(),
    }];

    match serve_with_policy(&mandatory, &cache, &chain, &Vec::new()) {
        Err(ServeError::MissingParameter(m)) => assert_eq!(m, "channel"),
        _ => panic!("expected a client error"),
    }
    let out = serve_with_policy(&mandatory, &cache, &chain, &pairs(&[("channel", "stable")]))
        .unwrap();
    assert_eq!(out.nodes.len(), 2);
    assert!(out.edges.is_empty());

    let empty = GraphCache::new();
    match serve_with_policy(&mandatory, &empty, &chain, &pairs(&[("channel", "stable")])) {
        Err(ServeError::NotReady) => {},
        _ => panic!("expected not-ready"),
    }
}
