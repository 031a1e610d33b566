//! The policy tier: a second cache-and-serve stack whose input is an
//! already-built upstream graph rather than registry metadata. The upstream
//! value is untrusted: it is first brought back to a well-formed graph
//! (repeated versions dropped, dangling / self / duplicate edges dropped),
//! and requests are answered through the same mandatory-parameter
//! validation plus an ordered chain of edge-visibility filters.

use vstd::prelude::*;
use crate::graph::{
    Graph, Release, SpecEdge, SpecGraph, SpecRelease, UpgradeEdge, contains_version,
    duplicate_edge, duplicate_graph, duplicate_nodes, duplicate_release, edge_ok, filter_graph,
    filtered_graph, has_version, is_subgraph, label_value, lemma_filter_singleton,
    lemma_filter_preserves_pairwise, lemma_subgraph_trans, lookup_label, unique_edge_pairs,
    unique_versions, wf_graph,
};
use crate::builder::{BuilderState, edge_in};
use crate::cache::{GraphCache, Snapshot};
use crate::server::{ServeError, all_params_present, first_missing, validate_params};
use crate::text::string_eq;

verus! {

broadcast use vstd::seq_lib::group_filter_ensures;

/// The nodes of an untrusted graph with repeated versions dropped, keeping
/// the first occurrence.
pub open spec fn dedup_nodes(nodes: Seq<SpecRelease>) -> Seq<SpecRelease>
    decreases nodes.len(),
{
    if nodes.len() == 0 {
        Seq::empty()
    } else {
        let prefix = dedup_nodes(nodes.drop_last());
        let r = nodes.last();
        if contains_version(prefix, r.version) {
            prefix
        } else {
            prefix.push(r)
        }
    }
}

/// The edges of an untrusted graph with dangling, self and duplicate edges
/// dropped, in order.
pub open spec fn sanitized_edges(edges: Seq<SpecEdge>, nodes: Seq<SpecRelease>) -> Seq<SpecEdge>
    decreases edges.len(),
{
    if edges.len() == 0 {
        Seq::empty()
    } else {
        let prefix = sanitized_edges(edges.drop_last(), nodes);
        let e = edges.last();
        if edge_ok(nodes, e) && !edge_in(prefix, e.from, e.to) {
            prefix.push(e)
        } else {
            prefix
        }
    }
}

/// Bring an untrusted upstream graph back to a well-formed one: repeated
/// versions keep their first node, and an edge survives only if both its
/// endpoints exist, it is no self-edge, and no earlier edge connects the
/// same pair. A well-formed input passes through unchanged in value.
pub fn sanitize_graph(g: &Graph) -> (out: Graph)
    ensures
        out@.nodes == dedup_nodes(g@.nodes),
        out@.edges == sanitized_edges(g@.edges, out@.nodes),
        wf_graph(out@),
        is_subgraph(out@, g@),
{
    let ghost nv = g.nodes.deep_view();
    let ghost ev = g.edges.deep_view();
    let mut nodes: Vec<Release> = Vec::new();
    let n = g.nodes.len();
    let mut i: usize = 0;
    proof {
        assert(nv.take(0) =~= Seq::<SpecRelease>::empty());
    }
    while i < n
        invariant
            n == g.nodes.len(),
            i <= n,
            nv == g.nodes.deep_view(),
            nodes.deep_view() == dedup_nodes(nv.take(i as int)),
            unique_versions(nodes.deep_view()),
            forall|k: int|
                0 <= k < nodes.deep_view().len() ==> exists|j: int|
                    0 <= j < i && #[trigger] nodes.deep_view()[k] == nv[j],
        decreases n - i,
    {
        proof {
            assert(nv.take(i as int + 1).drop_last() =~= nv.take(i as int));
            assert(nv.take(i as int + 1).last() == nv[i as int]);
        }
        if !has_version(&nodes, &g.nodes[i].version) {
            let ghost before = nodes.deep_view();
            nodes.push(duplicate_release(&g.nodes[i]));
            proof {
                assert(nodes.deep_view() =~= before.push(nv[i as int]));
                assert forall|k: int| 0 <= k < nodes.deep_view().len() implies exists|j: int|
                    0 <= j < i + 1 && #[trigger] nodes.deep_view()[k] == nv[j] by {
                    if k < before.len() {
                        let j = choose|j: int| 0 <= j < i && before[k] == nv[j];
                        assert(nodes.deep_view()[k] == nv[j]);
                    } else {
                        assert(nodes.deep_view()[k] == nv[i as int]);
                    }
                }
            }
        }
        i += 1;
    }
    proof {
        assert(nv.take(n as int) =~= nv);
    }

    let ghost kv = nodes.deep_view();
    let mut edges: Vec<UpgradeEdge> = Vec::new();
    let m = g.edges.len();
    let mut k: usize = 0;
    proof {
        assert(ev.take(0) =~= Seq::<SpecEdge>::empty());
    }
    while k < m
        invariant
            m == g.edges.len(),
            k <= m,
            nv == g.nodes.deep_view(),
            ev == g.edges.deep_view(),
            kv == nodes.deep_view(),
            unique_versions(kv),
            edges.deep_view() == sanitized_edges(ev.take(k as int), kv),
            unique_edge_pairs(edges.deep_view()),
            forall|x: int|
                0 <= x < edges.deep_view().len() ==> edge_ok(kv, #[trigger] edges.deep_view()[x]),
            forall|x: int|
                0 <= x < edges.deep_view().len() ==> exists|j: int|
                    0 <= j < k && #[trigger] edges.deep_view()[x] == ev[j],
        decreases m - k,
    {
        proof {
            assert(ev.take(k as int + 1).drop_last() =~= ev.take(k as int));
            assert(ev.take(k as int + 1).last() == ev[k as int]);
        }
        let e = &g.edges[k];
        let keep = has_version(&nodes, &e.from) && has_version(&nodes, &e.to) && !string_eq(
            &e.from,
            &e.to,
        );
        if keep {
            if !crate::builder::edge_exists(&edges, &e.from, &e.to) {
                let ghost before = edges.deep_view();
                edges.push(duplicate_edge(e));
                proof {
                    assert(edges.deep_view() =~= before.push(ev[k as int]));
                    assert forall|x: int| 0 <= x < edges.deep_view().len() implies exists|j: int|
                        0 <= j < k + 1 && #[trigger] edges.deep_view()[x] == ev[j] by {
                        if x < before.len() {
                            let j = choose|j: int| 0 <= j < k && before[x] == ev[j];
                            assert(edges.deep_view()[x] == ev[j]);
                        } else {
                            assert(edges.deep_view()[x] == ev[k as int]);
                        }
                    }
                }
            }
        }
        k += 1;
    }
    proof {
        assert(ev.take(m as int) =~= ev);
    }

    let out = Graph { nodes, edges };
    proof {
        assert forall|x: int| 0 <= x < out@.nodes.len() implies g@.nodes.contains(
            #[trigger] out@.nodes[x],
        ) by {
            let j = choose|j: int| 0 <= j < nv.len() && out@.nodes[x] == nv[j];
        }
        assert forall|x: int| 0 <= x < out@.edges.len() implies g@.edges.contains(
            #[trigger] out@.edges[x],
        ) by {
            let j = choose|j: int| 0 <= j < ev.len() && out@.edges[x] == ev[j];
        }
    }
    out
}

/// One edge-visibility filter of the policy chain. Each is a pure function
/// of the graph (and, in general, of the client query; the kinds currently
/// defined do not read the query).
pub enum Filter {
    /// Drop every edge that leads into a release carrying this label.
    BlockEdgesInto { key: String, value: String },
    /// Drop every release that no remaining edge touches.
    RemoveIsolatedNodes,
}

/// Mathematical model of a filter.
#[verifier::ext_equal]
pub ghost enum SpecFilter {
    BlockEdgesInto(Seq<char>, Seq<char>),
    RemoveIsolatedNodes,
}

impl DeepView for Filter {
    type V = SpecFilter;

    open spec fn deep_view(&self) -> SpecFilter {
        match self {
            Filter::BlockEdgesInto { key, value } => SpecFilter::BlockEdgesInto(key@, value@),
            Filter::RemoveIsolatedNodes => SpecFilter::RemoveIsolatedNodes,
        }
    }
}

/// Some release named `v` carries label `key = value`.
pub open spec fn node_flagged(
    nodes: Seq<SpecRelease>,
    v: Seq<char>,
    key: Seq<char>,
    value: Seq<char>,
) -> bool {
    exists|i: int|
        0 <= i < nodes.len() && (#[trigger] nodes[i]).version == v && label_value(
            nodes[i].labels,
            key,
        ) == Some(value)
}

/// Some edge touches the version `v`.
pub open spec fn has_incident_edge(edges: Seq<SpecEdge>, v: Seq<char>) -> bool {
    exists|i: int|
        0 <= i < edges.len() && ((#[trigger] edges[i]).from == v || edges[i].to == v)
}

/// What one filter does to a graph.
pub open spec fn apply_filter_spec(f: SpecFilter, g: SpecGraph) -> SpecGraph {
    match f {
        SpecFilter::BlockEdgesInto(key, value) => SpecGraph {
            nodes: g.nodes,
            edges: g.edges.filter(|e: SpecEdge| !node_flagged(g.nodes, e.to, key, value)),
        },
        SpecFilter::RemoveIsolatedNodes => SpecGraph {
            nodes: g.nodes.filter(|r: SpecRelease| has_incident_edge(g.edges, r.version)),
            edges: g.edges,
        },
    }
}

fn node_flagged_exec(nodes: &Vec<Release>, v: &String, key: &String, value: &String) -> (b: bool)
    ensures
        b == node_flagged(nodes.deep_view(), v@, key@, value@),
{
    let n = nodes.len();
    let mut i: usize = 0;
    while i < n
        invariant
            n == nodes.len(),
            i <= n,
            forall|j: int|
                0 <= j < i ==> !((#[trigger] nodes.deep_view()[j]).version == v@ && label_value(
                    nodes.deep_view()[j].labels,
                    key@,
                ) == Some(value@)),
        decreases n - i,
    {
        if string_eq(&nodes[i].version, v) {
            let hit = match lookup_label(&nodes[i].labels, key) {
                Some(lv) => string_eq(&lv, value),
                None => false,
            };
            if hit {
                proof {
                    assert((#[trigger] nodes.deep_view()[i as int]).version == v@ && label_value(
                        nodes.deep_view()[i as int].labels,
                        key@,
                    ) == Some(value@));
                }
                return true;
            }
        }
        i += 1;
    }
    false
}

fn has_incident_edge_exec(edges: &Vec<UpgradeEdge>, v: &String) -> (b: bool)
    ensures
        b == has_incident_edge(edges.deep_view(), v@),
{
    let n = edges.len();
    let mut i: usize = 0;
    while i < n
        invariant
            n == edges.len(),
            i <= n,
            forall|j: int|
                0 <= j < i ==> !((#[trigger] edges.deep_view()[j]).from == v@
                    || edges.deep_view()[j].to == v@),
        decreases n - i,
    {
        if string_eq(&edges[i].from, v) || string_eq(&edges[i].to, v) {
            proof {
                assert((#[trigger] edges.deep_view()[i as int]).from == v@
                    || edges.deep_view()[i as int].to == v@);
            }
            return true;
        }
        i += 1;
    }
    false
}

/// Apply one filter. The result is exactly `apply_filter_spec`, stays
/// well-formed, and is a subgraph of the input.
pub fn apply_filter(f: &Filter, g: &Graph) -> (out: Graph)
    requires
        wf_graph(g@),
    ensures
        out@ == apply_filter_spec(f.deep_view(), g@),
        wf_graph(out@),
        is_subgraph(out@, g@),
{
    let ghost nv = g.nodes.deep_view();
    let ghost ev = g.edges.deep_view();
    match f {
        Filter::BlockEdgesInto { key, value } => {
            let ghost pred = |e: SpecEdge| !node_flagged(nv, e.to, key@, value@);
            let nodes = duplicate_nodes(&g.nodes);
            let mut edges: Vec<UpgradeEdge> = Vec::new();
            let m = g.edges.len();
            let mut k: usize = 0;
            proof {
                reveal(Seq::filter);
                assert(ev.take(0) =~= Seq::<SpecEdge>::empty());
                assert(ev.take(0).filter(pred) =~= Seq::<SpecEdge>::empty());
            }
            while k < m
                invariant
                    m == g.edges.len(),
                    k <= m,
                    nv == g.nodes.deep_view(),
                    ev == g.edges.deep_view(),
                    pred == (|e: SpecEdge| !node_flagged(nv, e.to, key@, value@)),
                    edges.deep_view() == ev.take(k as int).filter(pred),
                decreases m - k,
            {
                let flagged = node_flagged_exec(&g.nodes, &g.edges[k].to, key, value);
                proof {
                    assert(ev.take(k as int + 1) =~= ev.take(k as int) + seq![ev[k as int]]);
                    lemma_filter_singleton(ev[k as int], pred);
                    assert(ev.take(k as int + 1).filter(pred) == ev.take(k as int).filter(pred)
                        + seq![ev[k as int]].filter(pred));
                }
                if !flagged {
                    let ghost before = edges.deep_view();
                    edges.push(duplicate_edge(&g.edges[k]));
                    proof {
                        assert(edges.deep_view() =~= before.push(ev[k as int]));
                        assert(edges.deep_view() =~= ev.take(k as int + 1).filter(pred));
                    }
                } else {
                    proof {
                        assert(ev.take(k as int + 1).filter(pred) =~= ev.take(k as int).filter(
                            pred,
                        ));
                    }
                }
                k += 1;
            }
            proof {
                assert(ev.take(m as int) =~= ev);
            }
            let out = Graph { nodes, edges };
            proof {
                crate::graph::lemma_filter_elements(ev, pred);
                lemma_filter_preserves_pairwise(
                    ev,
                    pred,
                    |a: SpecEdge, b: SpecEdge| !(a.from == b.from && a.to == b.to),
                );
                assert(unique_edge_pairs(out@.edges));
                assert forall|x: int| 0 <= x < out@.edges.len() implies edge_ok(
                    out@.nodes,
                    #[trigger] out@.edges[x],
                ) && g@.edges.contains(out@.edges[x]) by {
                    let j = choose|j: int| 0 <= j < ev.len() && out@.edges[x] == ev[j];
                    assert(edge_ok(g@.nodes, ev[j]));
                }
                assert forall|x: int| 0 <= x < out@.nodes.len() implies g@.nodes.contains(
                    #[trigger] out@.nodes[x],
                ) by {
                    assert(out@.nodes[x] == nv[x]);
                }
                assert(out@ =~~= apply_filter_spec(f.deep_view(), g@));
            }
            out
        },
        Filter::RemoveIsolatedNodes => {
            let ghost pred = |r: SpecRelease| has_incident_edge(ev, r.version);
            let edges = crate::graph::duplicate_edges(&g.edges);
            let mut nodes: Vec<Release> = Vec::new();
            let n = g.nodes.len();
            let mut i: usize = 0;
            proof {
                reveal(Seq::filter);
                assert(nv.take(0) =~= Seq::<SpecRelease>::empty());
                assert(nv.take(0).filter(pred) =~= Seq::<SpecRelease>::empty());
            }
            while i < n
                invariant
                    n == g.nodes.len(),
                    i <= n,
                    nv == g.nodes.deep_view(),
                    ev == g.edges.deep_view(),
                    pred == (|r: SpecRelease| has_incident_edge(ev, r.version)),
                    nodes.deep_view() == nv.take(i as int).filter(pred),
                decreases n - i,
            {
                let touched = has_incident_edge_exec(&g.edges, &g.nodes[i].version);
                proof {
                    assert(nv.take(i as int + 1) =~= nv.take(i as int) + seq![nv[i as int]]);
                    lemma_filter_singleton(nv[i as int], pred);
                    assert(nv.take(i as int + 1).filter(pred) == nv.take(i as int).filter(pred)
                        + seq![nv[i as int]].filter(pred));
                }
                if touched {
                    let ghost before = nodes.deep_view();
                    nodes.push(duplicate_release(&g.nodes[i]));
                    proof {
                        assert(nodes.deep_view() =~= before.push(nv[i as int]));
                        assert(nodes.deep_view() =~= nv.take(i as int + 1).filter(pred));
                    }
                } else {
                    proof {
                        assert(nv.take(i as int + 1).filter(pred) =~= nv.take(i as int).filter(
                            pred,
                        ));
                    }
                }
                i += 1;
            }
            proof {
                assert(nv.take(n as int) =~= nv);
            }
            let out = Graph { nodes, edges };
            proof {
                crate::graph::lemma_filter_elements(nv, pred);
                lemma_filter_preserves_pairwise(
                    nv,
                    pred,
                    |a: SpecRelease, b: SpecRelease| a.version != b.version,
                );
                assert(unique_versions(out@.nodes));
                assert forall|x: int| 0 <= x < out@.edges.len() implies edge_ok(
                    out@.nodes,
                    #[trigger] out@.edges[x],
                ) && g@.edges.contains(out@.edges[x]) by {
                    assert(out@.edges[x] == ev[x]);
                    assert(edge_ok(g@.nodes, ev[x]));
                    let e = ev[x];
                    let jf = choose|j: int| 0 <= j < nv.len() && (#[trigger] nv[j]).version == e.from;
                    assert(has_incident_edge(ev, nv[jf].version));
                    nv.lemma_filter_contains(pred, jf);
                    let jt = choose|j: int| 0 <= j < nv.len() && (#[trigger] nv[j]).version == e.to;
                    assert(has_incident_edge(ev, nv[jt].version));
                    nv.lemma_filter_contains(pred, jt);
                    let kf = choose|k: int|
                        0 <= k < out@.nodes.len() && out@.nodes[k] == nv[jf];
                    let kt = choose|k: int|
                        0 <= k < out@.nodes.len() && out@.nodes[k] == nv[jt];
                    assert(contains_version(out@.nodes, e.from));
                    assert(contains_version(out@.nodes, e.to));
                }
                assert forall|x: int| 0 <= x < out@.nodes.len() implies g@.nodes.contains(
                    #[trigger] out@.nodes[x],
                ) by {
                    let j = choose|j: int| 0 <= j < nv.len() && out@.nodes[x] == nv[j];
                }
                assert(out@ =~~= apply_filter_spec(f.deep_view(), g@));
            }
            out
        },
    }
}

/// The whole chain, later filters seeing the output of earlier ones.
pub open spec fn chain_spec(fs: Seq<SpecFilter>, g: SpecGraph) -> SpecGraph
    decreases fs.len(),
{
    if fs.len() == 0 {
        g
    } else {
        apply_filter_spec(fs.last(), chain_spec(fs.drop_last(), g))
    }
}

/// Apply an ordered chain of filters. The chain is order-sensitive (each
/// filter sees its predecessors' output), and its output never introduces a
/// node or an edge the input did not have.
pub fn apply_chain(filters: &Vec<Filter>, g: &Graph) -> (out: Graph)
    requires
        wf_graph(g@),
    ensures
        out@ == chain_spec(filters.deep_view(), g@),
        wf_graph(out@),
        is_subgraph(out@, g@),
{
    let ghost fv = filters.deep_view();
    let mut cur = duplicate_graph(g);
    let n = filters.len();
    let mut i: usize = 0;
    proof {
        assert(fv.take(0) =~= Seq::<SpecFilter>::empty());
        assert forall|x: int| 0 <= x < g@.nodes.len() implies g@.nodes.contains(
            #[trigger] g@.nodes[x],
        ) by {}
        assert forall|x: int| 0 <= x < g@.edges.len() implies g@.edges.contains(
            #[trigger] g@.edges[x],
        ) by {}
    }
    while i < n
        invariant
            n == filters.len(),
            i <= n,
            fv == filters.deep_view(),
            wf_graph(g@),
            cur@ == chain_spec(fv.take(i as int), g@),
            wf_graph(cur@),
            is_subgraph(cur@, g@),
        decreases n - i,
    {
        let next = apply_filter(&filters[i], &cur);
        proof {
            assert(fv.take(i as int + 1).drop_last() =~= fv.take(i as int));
            assert(fv.take(i as int + 1).last() == fv[i as int]);
            lemma_subgraph_trans(next@, cur@, g@);
        }
        cur = next;
        i += 1;
    }
    proof {
        assert(fv.take(n as int) =~= fv);
    }
    cur
}

/// Finish one policy refresh cycle: on success, sanitize the upstream graph
/// and publish it with the cycle's tick time; on failure, keep the previous
/// snapshot and count the failure.
pub fn policy_refresh_step(
    cache: &mut GraphCache,
    st: &mut BuilderState,
    upstream: Option<Graph>,
    now: u64,
)
    ensures
        upstream is None ==> {
            &&& final(cache)@ == old(cache)@
            &&& final(st).consecutive_failures == (if old(st).consecutive_failures < u64::MAX {
                old(st).consecutive_failures + 1
            } else {
                u64::MAX as int
            })
        },
        upstream matches Some(h) ==> {
            &&& final(cache)@ matches Some(snap) && snap.timestamp == now
                && snap.graph.nodes == dedup_nodes(h@.nodes) && snap.graph.edges
                == sanitized_edges(h@.edges, snap.graph.nodes) && wf_graph(snap.graph)
                && is_subgraph(snap.graph, h@)
            &&& final(st).consecutive_failures == 0
        },
{
    match upstream {
        Some(h) => {
            let g = sanitize_graph(&h);
            st.consecutive_failures = 0;
            cache.publish(Snapshot { graph: g, timestamp: now });
        },
        None => {
            if st.consecutive_failures < u64::MAX {
                st.consecutive_failures = st.consecutive_failures + 1;
            }
        },
    }
}

/// Serve one request at the policy tier: the same mandatory-parameter
/// validation as the builder tier, then the client filter pass, then the
/// policy filter chain over its result.
pub fn serve_with_policy(
    mandatory: &Vec<String>,
    cache: &GraphCache,
    filters: &Vec<Filter>,
    q: &Vec<(String, String)>,
) -> (r: Result<Graph, ServeError>)
    ensures
        !all_params_present(mandatory.deep_view(), q.deep_view()) ==> (r matches Err(e)
            && e matches ServeError::MissingParameter(m) && m@ == first_missing(
            mandatory.deep_view(),
            q.deep_view(),
        )),
        all_params_present(mandatory.deep_view(), q.deep_view()) && cache@ is None ==> (r matches
            Err(e) && e is NotReady),
        all_params_present(mandatory.deep_view(), q.deep_view()) ==> (cache@ matches Some(snap)
            ==> (r matches Ok(g) && g@ == chain_spec(
            filters.deep_view(),
            filtered_graph(snap.graph, q.deep_view()),
        ) && wf_graph(g@) && is_subgraph(g@, snap.graph))),
{
    match validate_params(mandatory, q) {
        Some(m) => Err(ServeError::MissingParameter(m)),
        None => {
            match cache.current() {
                None => Err(ServeError::NotReady),
                Some(snap) => {
                    let narrowed = filter_graph(&snap.graph, q);
                    let out = apply_chain(filters, &narrowed);
                    proof {
                        lemma_subgraph_trans(out@, narrowed@, snap.graph@);
                    }
                    Ok(out)
                },
            }
        },
    }
}

} // verus!
