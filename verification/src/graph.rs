//! The update graph: releases (nodes), upgrade edges, well-formedness, and
//! the request-time filter pass that narrows a graph to one client's view.

use vstd::prelude::*;
use crate::text::string_eq;

verus! {

broadcast use vstd::seq_lib::group_filter_ensures;

/// Mathematical model of one release: version key, label map (as an
/// association list) and content-addressed payload reference.
#[verifier::ext_equal]
pub ghost struct SpecRelease {
    pub version: Seq<char>,
    pub labels: Seq<(Seq<char>, Seq<char>)>,
    pub payload: Seq<char>,
}

/// Mathematical model of one directed upgrade edge between two release
/// versions, with optional risk/condition metadata.
#[verifier::ext_equal]
pub ghost struct SpecEdge {
    pub from: Seq<char>,
    pub to: Seq<char>,
    pub metadata: Seq<(Seq<char>, Seq<char>)>,
}

/// Mathematical model of a whole graph.
#[verifier::ext_equal]
pub ghost struct SpecGraph {
    pub nodes: Seq<SpecRelease>,
    pub edges: Seq<SpecEdge>,
}

/// One release: a node of the update graph. Immutable once constructed.
pub struct Release {
    /// Version string; the unique key of the node.
    pub version: String,
    /// Arbitrary string labels attached to the release.
    pub labels: Vec<(String, String)>,
    /// Opaque payload reference (for instance an image digest).
    pub payload: String,
}

/// A directed permitted-upgrade relation between two release versions.
pub struct UpgradeEdge {
    pub from: String,
    pub to: String,
    /// Optional risk/condition metadata carried by the edge.
    pub metadata: Vec<(String, String)>,
}

/// The set of releases plus the set of upgrade edges.
pub struct Graph {
    pub nodes: Vec<Release>,
    pub edges: Vec<UpgradeEdge>,
}

impl DeepView for Release {
    type V = SpecRelease;

    open spec fn deep_view(&self) -> SpecRelease {
        SpecRelease {
            version: self.version@,
            labels: self.labels.deep_view(),
            payload: self.payload@,
        }
    }
}

impl DeepView for UpgradeEdge {
    type V = SpecEdge;

    open spec fn deep_view(&self) -> SpecEdge {
        SpecEdge { from: self.from@, to: self.to@, metadata: self.metadata.deep_view() }
    }
}

impl View for Graph {
    type V = SpecGraph;

    open spec fn view(&self) -> SpecGraph {
        SpecGraph { nodes: self.nodes.deep_view(), edges: self.edges.deep_view() }
    }
}

/// The value of the first label named `key`, if any.
pub open spec fn label_value(labels: Seq<(Seq<char>, Seq<char>)>, key: Seq<char>) -> Option<
    Seq<char>,
>
    decreases labels.len(),
{
    if labels.len() == 0 {
        None
    } else if labels[0].0 == key {
        Some(labels[0].1)
    } else {
        label_value(labels.drop_first(), key)
    }
}

/// A release matches a client query when, for every query parameter `(k, v)`,
/// the release carries a label `k` whose value is `v`. A parameter the client
/// did not supply imposes no restriction (it simply does not occur in `q`).
pub open spec fn release_matches_query(r: SpecRelease, q: Seq<(Seq<char>, Seq<char>)>) -> bool {
    forall|i: int| 0 <= i < q.len() ==> label_value(r.labels, (#[trigger] q[i]).0) == Some(q[i].1)
}

/// Some node of `nodes` has version `v`.
pub open spec fn contains_version(nodes: Seq<SpecRelease>, v: Seq<char>) -> bool {
    exists|i: int| 0 <= i < nodes.len() && (#[trigger] nodes[i]).version == v
}

/// Version strings are pairwise distinct: the version is a unique key.
pub open spec fn unique_versions(nodes: Seq<SpecRelease>) -> bool {
    forall|i: int, j: int|
        0 <= i < j < nodes.len() ==> (#[trigger] nodes[i]).version != (#[trigger] nodes[j]).version
}

/// No two edges connect the same ordered pair of versions.
pub open spec fn unique_edge_pairs(edges: Seq<SpecEdge>) -> bool {
    forall|i: int, j: int|
        0 <= i < j < edges.len() ==> !((#[trigger] edges[i]).from == (#[trigger] edges[j]).from
            && edges[i].to == edges[j].to)
}

/// Both endpoints of `e` exist among `nodes` and the edge is not a self-edge.
pub open spec fn edge_ok(nodes: Seq<SpecRelease>, e: SpecEdge) -> bool {
    &&& contains_version(nodes, e.from)
    &&& contains_version(nodes, e.to)
    &&& e.from != e.to
}

/// Graph invariant: unique node keys, unique edge pairs, and every edge's
/// endpoints reference existing releases.
pub open spec fn wf_graph(g: SpecGraph) -> bool {
    &&& unique_versions(g.nodes)
    &&& unique_edge_pairs(g.edges)
    &&& forall|i: int| 0 <= i < g.edges.len() ==> edge_ok(g.nodes, #[trigger] g.edges[i])
}

/// Every node and every edge of `sub` occurs in `sup`: no filter introduces
/// new nodes or edges.
pub open spec fn is_subgraph(sub: SpecGraph, sup: SpecGraph) -> bool {
    &&& forall|i: int| 0 <= i < sub.nodes.len() ==> sup.nodes.contains(#[trigger] sub.nodes[i])
    &&& forall|i: int| 0 <= i < sub.edges.len() ==> sup.edges.contains(#[trigger] sub.edges[i])
}

/// Subgraph inclusion is transitive.
pub proof fn lemma_subgraph_trans(a: SpecGraph, b: SpecGraph, c: SpecGraph)
    requires
        is_subgraph(a, b),
        is_subgraph(b, c),
    ensures
        is_subgraph(a, c),
{
    assert forall|i: int| 0 <= i < a.nodes.len() implies c.nodes.contains(#[trigger] a.nodes[i]) by {
        let j = choose|j: int| 0 <= j < b.nodes.len() && b.nodes[j] == a.nodes[i];
        assert(c.nodes.contains(b.nodes[j]));
    }
    assert forall|i: int| 0 <= i < a.edges.len() implies c.edges.contains(#[trigger] a.edges[i]) by {
        let j = choose|j: int| 0 <= j < b.edges.len() && b.edges[j] == a.edges[i];
        assert(c.edges.contains(b.edges[j]));
    }
}

/// A well-formed graph has no dangling edge references: every edge endpoint
/// exists among the node set. This is what a reader of the cache relies on.
pub proof fn lemma_no_dangling_edges(g: SpecGraph)
    requires
        wf_graph(g),
    ensures
        forall|i: int|
            0 <= i < g.edges.len() ==> contains_version(g.nodes, (#[trigger] g.edges[i]).from)
                && contains_version(g.nodes, g.edges[i].to),
{
}

/// Filtering a singleton keeps or drops its one element.
pub proof fn lemma_filter_singleton<A>(x: A, pred: spec_fn(A) -> bool)
    ensures
        seq![x].filter(pred) == (if pred(x) {
            seq![x]
        } else {
            Seq::<A>::empty()
        }),
{
    reveal(Seq::filter);
    assert(seq![x].drop_last() =~= Seq::<A>::empty());
    assert(Seq::<A>::empty().filter(pred) =~= Seq::<A>::empty());
    if pred(x) {
        assert(seq![x].filter(pred) =~= seq![x]);
    }
}

/// Every element of a filtered sequence occurs at some index of the source.
pub proof fn lemma_filter_elements<A>(s: Seq<A>, pred: spec_fn(A) -> bool)
    ensures
        forall|k: int|
            0 <= k < s.filter(pred).len() ==> exists|j: int|
                0 <= j < s.len() && #[trigger] s.filter(pred)[k] == s[j],
    decreases s.len(),
{
    reveal(Seq::filter);
    if s.len() != 0 {
        let dl = s.drop_last();
        lemma_filter_elements(dl, pred);
        assert forall|k: int| 0 <= k < s.filter(pred).len() implies exists|j: int|
            0 <= j < s.len() && #[trigger] s.filter(pred)[k] == s[j] by {
            if k < dl.filter(pred).len() {
                let j = choose|j: int| 0 <= j < dl.len() && dl.filter(pred)[k] == dl[j];
                assert(s.filter(pred)[k] == s[j]);
            } else {
                assert(s.filter(pred)[k] == s[s.len() - 1]);
            }
        }
    }
}

/// Filtering preserves any pairwise (order-respecting) relation.
pub proof fn lemma_filter_preserves_pairwise<A>(
    s: Seq<A>,
    pred: spec_fn(A) -> bool,
    r: spec_fn(A, A) -> bool,
)
    requires
        forall|i: int, j: int| 0 <= i < j < s.len() ==> r(#[trigger] s[i], #[trigger] s[j]),
    ensures
        forall|i: int, j: int|
            0 <= i < j < s.filter(pred).len() ==> r(
                #[trigger] s.filter(pred)[i],
                #[trigger] s.filter(pred)[j],
            ),
    decreases s.len(),
{
    reveal(Seq::filter);
    if s.len() != 0 {
        let dl = s.drop_last();
        assert(forall|i: int, j: int|
            0 <= i < j < dl.len() ==> r(#[trigger] dl[i], #[trigger] dl[j]));
        lemma_filter_preserves_pairwise(dl, pred, r);
        lemma_filter_elements(dl, pred);
        assert forall|i: int, j: int| 0 <= i < j < s.filter(pred).len() implies r(
            #[trigger] s.filter(pred)[i],
            #[trigger] s.filter(pred)[j],
        ) by {
            if j < dl.filter(pred).len() {
                assert(r(dl.filter(pred)[i], dl.filter(pred)[j]));
            } else {
                assert(s.filter(pred)[j] == s[s.len() - 1]);
                let w = choose|w: int| 0 <= w < dl.len() && dl.filter(pred)[i] == dl[w];
                assert(r(s[w], s[s.len() - 1]));
            }
        }
    }
}

/// Copy of a label/metadata list, equal under the view.
pub fn duplicate_pairs(v: &Vec<(String, String)>) -> (out: Vec<(String, String)>)
    ensures
        out.deep_view() == v.deep_view(),
{
    let n = v.len();
    let mut out: Vec<(String, String)> = Vec::new();
    let mut i: usize = 0;
    while i < n
        invariant
            n == v.len(),
            i <= n,
            out.deep_view() =~= v.deep_view().take(i as int),
        decreases n - i,
    {
        let ghost before = out.deep_view();
        out.push((v[i].0.clone(), v[i].1.clone()));
        proof {
            assert(out.deep_view() =~= before.push(v.deep_view()[i as int]));
            assert(out.deep_view() =~= v.deep_view().take(i as int + 1));
        }
        i += 1;
    }
    proof {
        assert(v.deep_view().take(n as int) =~= v.deep_view());
    }
    out
}

/// Copy of a release, equal under the view.
pub fn duplicate_release(r: &Release) -> (out: Release)
    ensures
        out.deep_view() == r.deep_view(),
{
    Release {
        version: r.version.clone(),
        labels: duplicate_pairs(&r.labels),
        payload: r.payload.clone(),
    }
}

/// Copy of an edge, equal under the view.
pub fn duplicate_edge(e: &UpgradeEdge) -> (out: UpgradeEdge)
    ensures
        out.deep_view() == e.deep_view(),
{
    UpgradeEdge {
        from: e.from.clone(),
        to: e.to.clone(),
        metadata: duplicate_pairs(&e.metadata),
    }
}

/// Copy of a node list, equal under the view.
pub fn duplicate_nodes(v: &Vec<Release>) -> (out: Vec<Release>)
    ensures
        out.deep_view() == v.deep_view(),
{
    let n = v.len();
    let mut out: Vec<Release> = Vec::new();
    let mut i: usize = 0;
    while i < n
        invariant
            n == v.len(),
            i <= n,
            out.deep_view() =~= v.deep_view().take(i as int),
        decreases n - i,
    {
        let ghost before = out.deep_view();
        out.push(duplicate_release(&v[i]));
        proof {
            assert(out.deep_view() =~= before.push(v.deep_view()[i as int]));
            assert(out.deep_view() =~= v.deep_view().take(i as int + 1));
        }
        i += 1;
    }
    proof {
        assert(v.deep_view().take(n as int) =~= v.deep_view());
    }
    out
}

/// Copy of an edge list, equal under the view.
pub fn duplicate_edges(v: &Vec<UpgradeEdge>) -> (out: Vec<UpgradeEdge>)
    ensures
        out.deep_view() == v.deep_view(),
{
    let n = v.len();
    let mut out: Vec<UpgradeEdge> = Vec::new();
    let mut i: usize = 0;
    while i < n
        invariant
            n == v.len(),
            i <= n,
            out.deep_view() =~= v.deep_view().take(i as int),
        decreases n - i,
    {
        let ghost before = out.deep_view();
        out.push(duplicate_edge(&v[i]));
        proof {
            assert(out.deep_view() =~= before.push(v.deep_view()[i as int]));
            assert(out.deep_view() =~= v.deep_view().take(i as int + 1));
        }
        i += 1;
    }
    proof {
        assert(v.deep_view().take(n as int) =~= v.deep_view());
    }
    out
}

/// Copy of a graph, equal under the view.
pub fn duplicate_graph(g: &Graph) -> (out: Graph)
    ensures
        out@ == g@,
{
    let out = Graph { nodes: duplicate_nodes(&g.nodes), edges: duplicate_edges(&g.edges) };
    proof {
        assert(out@ =~~= g@);
    }
    out
}

/// The releases of `nodes` that match the query, in order.
pub open spec fn kept_nodes(nodes: Seq<SpecRelease>, q: Seq<(Seq<char>, Seq<char>)>) -> Seq<
    SpecRelease,
> {
    nodes.filter(|r: SpecRelease| release_matches_query(r, q))
}

/// Some node of `nodes` has version `v` and matches the query.
pub open spec fn version_kept(
    nodes: Seq<SpecRelease>,
    q: Seq<(Seq<char>, Seq<char>)>,
    v: Seq<char>,
) -> bool {
    exists|i: int|
        0 <= i < nodes.len() && (#[trigger] nodes[i]).version == v && release_matches_query(
            nodes[i],
            q,
        )
}

/// The edges of `edges` whose endpoints both survive the node filter.
pub open spec fn kept_edges(
    edges: Seq<SpecEdge>,
    nodes: Seq<SpecRelease>,
    q: Seq<(Seq<char>, Seq<char>)>,
) -> Seq<SpecEdge> {
    edges.filter(|e: SpecEdge| version_kept(nodes, q, e.from) && version_kept(nodes, q, e.to))
}

/// The whole filter pass: matching nodes, plus the edges both of whose
/// endpoints were kept (a dangling edge is dropped with its node).
pub open spec fn filtered_graph(g: SpecGraph, q: Seq<(Seq<char>, Seq<char>)>) -> SpecGraph {
    SpecGraph { nodes: kept_nodes(g.nodes, q), edges: kept_edges(g.edges, g.nodes, q) }
}

/// A version that is kept by the node filter occurs in the filtered node set.
proof fn lemma_version_kept_contained(
    nodes: Seq<SpecRelease>,
    q: Seq<(Seq<char>, Seq<char>)>,
    v: Seq<char>,
)
    requires
        version_kept(nodes, q, v),
    ensures
        contains_version(kept_nodes(nodes, q), v),
{
    let pred = |r: SpecRelease| release_matches_query(r, q);
    let i = choose|i: int|
        0 <= i < nodes.len() && (#[trigger] nodes[i]).version == v && release_matches_query(
            nodes[i],
            q,
        );
    nodes.lemma_filter_contains(pred, i);
    let k = choose|k: int| 0 <= k < kept_nodes(nodes, q).len() && kept_nodes(nodes, q)[k] == nodes[i];
    assert(kept_nodes(nodes, q)[k].version == v);
}

/// Whether some release named `v` both exists and matches the query.
/// Versions must be unique so that the first hit decides.
fn version_kept_exec(nodes: &Vec<Release>, q: &Vec<(String, String)>, v: &String) -> (b: bool)
    requires
        unique_versions(nodes.deep_view()),
    ensures
        b == version_kept(nodes.deep_view(), q.deep_view(), v@),
{
    let n = nodes.len();
    let mut i: usize = 0;
    while i < n
        invariant
            n == nodes.len(),
            i <= n,
            unique_versions(nodes.deep_view()),
            forall|k: int| 0 <= k < i ==> (#[trigger] nodes.deep_view()[k]).version != v@,
        decreases n - i,
    {
        if string_eq(&nodes[i].version, v) {
            let m = release_matches(&nodes[i], q);
            proof {
                if m {
                    assert((#[trigger] nodes.deep_view()[i as int]).version == v@
                        && release_matches_query(nodes.deep_view()[i as int], q.deep_view()));
                }
                if !m {
                    assert forall|j: int|
                        0 <= j < nodes.deep_view().len() && (#[trigger] nodes.deep_view()[j]).version
                            == v@ implies !release_matches_query(
                        nodes.deep_view()[j],
                        q.deep_view(),
                    ) by {
                        if j != i as int {
                            assert(nodes.deep_view()[j].version != nodes.deep_view()[i as int].version);
                        }
                    }
                }
            }
            return m;
        }
        i += 1;
    }
    false
}

/// Whether some release of `nodes` carries the version `v`.
pub fn has_version(nodes: &Vec<Release>, v: &String) -> (b: bool)
    ensures
        b == contains_version(nodes.deep_view(), v@),
{
    let n = nodes.len();
    let mut i: usize = 0;
    while i < n
        invariant
            n == nodes.len(),
            i <= n,
            forall|k: int| 0 <= k < i ==> (#[trigger] nodes.deep_view()[k]).version != v@,
        decreases n - i,
    {
        if string_eq(&nodes[i].version, v) {
            proof {
                assert((#[trigger] nodes.deep_view()[i as int]).version == v@);
            }
            return true;
        }
        i += 1;
    }
    false
}

/// One read-only filter pass over a snapshot graph: keep the releases the
/// query selects, and the edges whose endpoints were both kept.
pub fn filter_graph(g: &Graph, q: &Vec<(String, String)>) -> (out: Graph)
    requires
        wf_graph(g@),
    ensures
        out@ == filtered_graph(g@, q.deep_view()),
        wf_graph(out@),
        is_subgraph(out@, g@),
{
    let ghost qv = q.deep_view();
    let ghost nv = g.nodes.deep_view();
    let ghost ev = g.edges.deep_view();
    let ghost npred = |r: SpecRelease| release_matches_query(r, qv);
    let ghost epred = |e: SpecEdge| version_kept(nv, qv, e.from) && version_kept(nv, qv, e.to);

    let mut nodes: Vec<Release> = Vec::new();
    let n = g.nodes.len();
    let mut i: usize = 0;
    proof {
        reveal(Seq::filter);
        assert(nv.take(0) =~= Seq::<SpecRelease>::empty());
        assert(nv.take(0).filter(npred) =~= Seq::<SpecRelease>::empty());
    }
    while i < n
        invariant
            n == g.nodes.len(),
            i <= n,
            nv == g.nodes.deep_view(),
            qv == q.deep_view(),
            npred == (|r: SpecRelease| release_matches_query(r, qv)),
            nodes.deep_view() == nv.take(i as int).filter(npred),
        decreases n - i,
    {
        let keep = release_matches(&g.nodes[i], q);
        proof {
            assert(nv.take(i as int + 1) =~= nv.take(i as int) + seq![nv[i as int]]);
            lemma_filter_singleton(nv[i as int], npred);
            assert(nv.take(i as int + 1).filter(npred) == nv.take(i as int).filter(npred)
                + seq![nv[i as int]].filter(npred));
        }
        if keep {
            let ghost before = nodes.deep_view();
            let r2 = duplicate_release(&g.nodes[i]);
            nodes.push(r2);
            proof {
                assert(nodes.deep_view() =~= before.push(nv[i as int]));
                assert(nodes.deep_view() =~= nv.take(i as int + 1).filter(npred));
            }
        } else {
            proof {
                assert(nv.take(i as int + 1).filter(npred) =~= nv.take(i as int).filter(npred));
            }
        }
        i += 1;
    }
    proof {
        assert(nv.take(n as int) =~= nv);
    }

    let mut edges: Vec<UpgradeEdge> = Vec::new();
    let m = g.edges.len();
    let mut k: usize = 0;
    proof {
        reveal(Seq::filter);
        assert(ev.take(0) =~= Seq::<SpecEdge>::empty());
        assert(ev.take(0).filter(epred) =~= Seq::<SpecEdge>::empty());
    }
    while k < m
        invariant
            m == g.edges.len(),
            k <= m,
            nv == g.nodes.deep_view(),
            ev == g.edges.deep_view(),
            qv == q.deep_view(),
            unique_versions(nv),
            epred == (|e: SpecEdge| version_kept(nv, qv, e.from) && version_kept(nv, qv, e.to)),
            edges.deep_view() == ev.take(k as int).filter(epred),
        decreases m - k,
    {
        let kf = version_kept_exec(&g.nodes, q, &g.edges[k].from);
        let kt = version_kept_exec(&g.nodes, q, &g.edges[k].to);
        proof {
            assert(ev.take(k as int + 1) =~= ev.take(k as int) + seq![ev[k as int]]);
            lemma_filter_singleton(ev[k as int], epred);
            assert(ev.take(k as int + 1).filter(epred) == ev.take(k as int).filter(epred)
                + seq![ev[k as int]].filter(epred));
        }
        if kf && kt {
            let ghost before = edges.deep_view();
            let e2 = duplicate_edge(&g.edges[k]);
            edges.push(e2);
            proof {
                assert(edges.deep_view() =~= before.push(ev[k as int]));
                assert(edges.deep_view() =~= ev.take(k as int + 1).filter(epred));
            }
        } else {
            proof {
                assert(ev.take(k as int + 1).filter(epred) =~= ev.take(k as int).filter(epred));
            }
        }
        k += 1;
    }
    proof {
        assert(ev.take(m as int) =~= ev);
    }

    let out = Graph { nodes, edges };
    proof {
        assert(out@.nodes == kept_nodes(nv, qv));
        assert(out@.edges == kept_edges(ev, nv, qv));
        // Well-formedness of the filtered graph.
        lemma_filter_preserves_pairwise(
            nv,
            npred,
            |a: SpecRelease, b: SpecRelease| a.version != b.version,
        );
        assert(unique_versions(out@.nodes));
        lemma_filter_preserves_pairwise(
            ev,
            epred,
            |a: SpecEdge, b: SpecEdge| !(a.from == b.from && a.to == b.to),
        );
        assert(unique_edge_pairs(out@.edges));
        lemma_filter_elements(ev, epred);
        lemma_filter_elements(nv, npred);
        assert forall|x: int| 0 <= x < out@.edges.len() implies edge_ok(
            out@.nodes,
            #[trigger] out@.edges[x],
        ) by {
            let e = out@.edges[x];
            assert(epred(e));
            lemma_version_kept_contained(nv, qv, e.from);
            lemma_version_kept_contained(nv, qv, e.to);
            let j = choose|j: int| 0 <= j < ev.len() && out@.edges[x] == ev[j];
            assert(edge_ok(g@.nodes, ev[j]));
        }
        // Subgraph inclusion.
        assert forall|x: int| 0 <= x < out@.nodes.len() implies g@.nodes.contains(
            #[trigger] out@.nodes[x],
        ) by {
            let j = choose|j: int| 0 <= j < nv.len() && out@.nodes[x] == nv[j];
        }
        assert forall|x: int| 0 <= x < out@.edges.len() implies g@.edges.contains(
            #[trigger] out@.edges[x],
        ) by {
            let j = choose|j: int| 0 <= j < ev.len() && out@.edges[x] == ev[j];
        }
    }
    out
}

/// The value of the first label named `key` on `r`, or `None`.
pub fn lookup_label(labels: &Vec<(String, String)>, key: &String) -> (r: Option<String>)
    ensures
        match r {
            Some(v) => label_value(labels.deep_view(), key@) == Some(v@),
            None => label_value(labels.deep_view(), key@) is None,
        },
{
    let n = labels.len();
    let mut i: usize = 0;
    proof {
        assert(labels.deep_view().skip(0) =~= labels.deep_view());
    }
    while i < n
        invariant
            n == labels.len(),
            i <= n,
            label_value(labels.deep_view(), key@) == label_value(
                labels.deep_view().skip(i as int),
                key@,
            ),
        decreases n - i,
    {
        proof {
            assert(labels.deep_view().skip(i as int)[0] == labels.deep_view()[i as int]);
        }
        if string_eq(&labels[i].0, key) {
            let v = labels[i].1.clone();
            return Some(v);
        }
        proof {
            assert(labels.deep_view().skip(i as int).drop_first() =~= labels.deep_view().skip(
                i as int + 1,
            ));
        }
        i += 1;
    }
    None
}

/// Whether `r` matches every parameter of the client query `q`.
pub fn release_matches(r: &Release, q: &Vec<(String, String)>) -> (b: bool)
    ensures
        b == release_matches_query(r.deep_view(), q.deep_view()),
{
    let n = q.len();
    let mut j: usize = 0;
    while j < n
        invariant
            n == q.len(),
            j <= n,
            forall|i: int|
                0 <= i < j ==> label_value(r.deep_view().labels, (#[trigger] q.deep_view()[i]).0)
                    == Some(q.deep_view()[i].1),
        decreases n - j,
    {
        proof {
            assert(q.deep_view()[j as int] == (q@[j as int].0@, q@[j as int].1@));
        }
        let ok = match lookup_label(&r.labels, &q[j].0) {
            Some(v) => string_eq(&v, &q[j].1),
            None => false,
        };
        if !ok {
            proof {
                assert(label_value(r.deep_view().labels, q.deep_view()[j as int].0) != Some(
                    q.deep_view()[j as int].1,
                ));
            }
            return false;
        }
        j += 1;
    }
    true
}

} // verus!
