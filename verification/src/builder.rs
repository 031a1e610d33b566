//! The graph builder: one refresh cycle turns raw registry metadata into a
//! consistent graph and publishes it, keeping the previous snapshot when the
//! metadata source fails; a small scheduler skips refresh ticks that would
//! overlap a cycle still running.
//!
//! Derivation schema: a metadata entry becomes a release when it carries a
//! `version` label; the `previous` label, a comma-separated list of version
//! strings, declares the predecessors of the release. A malformed entry (no
//! `version` label) is skipped; so is an entry whose version was already
//! taken by an earlier entry. A declared predecessor that names no release
//! of the cycle, or the release itself, yields no edge.

use vstd::prelude::*;
use vstd::string::*;
use crate::graph::{
    Graph, Release, SpecEdge, SpecGraph, SpecRelease, UpgradeEdge, contains_version,
    duplicate_pairs, edge_ok, has_version, label_value, lookup_label, unique_edge_pairs,
    unique_versions, wf_graph,
};
use crate::text::{split_commas, split_commas_exec, string_eq};
use crate::cache::{GraphCache, Snapshot};

verus! {

/// Raw metadata for one image tag: its labels and a content-addressed
/// reference to the image.
pub struct Entry {
    pub labels: Vec<(String, String)>,
    pub payload: String,
}

/// Mathematical model of an entry.
#[verifier::ext_equal]
pub ghost struct SpecEntry {
    pub labels: Seq<(Seq<char>, Seq<char>)>,
    pub payload: Seq<char>,
}

impl DeepView for Entry {
    type V = SpecEntry;

    open spec fn deep_view(&self) -> SpecEntry {
        SpecEntry { labels: self.labels.deep_view(), payload: self.payload@ }
    }
}

/// The version key of an entry, when it is well-formed.
pub open spec fn entry_version(e: SpecEntry) -> Option<Seq<char>> {
    label_value(e.labels, "version"@)
}

/// The releases derived from `entries`, in order: one release per entry that
/// carries a `version` label, malformed entries and repeated versions
/// skipped individually.
pub open spec fn built_nodes(entries: Seq<SpecEntry>) -> Seq<SpecRelease>
    decreases entries.len(),
{
    if entries.len() == 0 {
        Seq::empty()
    } else {
        let prefix = built_nodes(entries.drop_last());
        let e = entries.last();
        match entry_version(e) {
            Some(v) => if contains_version(prefix, v) {
                prefix
            } else {
                prefix.push(SpecRelease { version: v, labels: e.labels, payload: e.payload })
            },
            None => prefix,
        }
    }
}

pub proof fn lemma_built_nodes_unique(entries: Seq<SpecEntry>)
    ensures
        unique_versions(built_nodes(entries)),
    decreases entries.len(),
{
    if entries.len() > 0 {
        lemma_built_nodes_unique(entries.drop_last());
    }
}

/// The predecessor versions a release declares through its `previous` label.
pub open spec fn prev_list(r: SpecRelease) -> Seq<Seq<char>> {
    match label_value(r.labels, "previous"@) {
        Some(s) => split_commas(s),
        None => Seq::empty(),
    }
}

/// Some edge of `edges` connects `from` to `to`.
pub open spec fn edge_in(edges: Seq<SpecEdge>, from: Seq<char>, to: Seq<char>) -> bool {
    exists|i: int|
        0 <= i < edges.len() && (#[trigger] edges[i]).from == from && edges[i].to == to
}

/// Edge `e` is exactly what node `j` declares: `e.to` is that node's
/// version, `e.from` one of its declared predecessors that names an existing,
/// distinct release, and derived edges carry no metadata.
pub open spec fn declared_at(nodes: Seq<SpecRelease>, j: int, e: SpecEdge) -> bool {
    &&& 0 <= j < nodes.len()
    &&& nodes[j].version == e.to
    &&& prev_list(nodes[j]).contains(e.from)
    &&& contains_version(nodes, e.from)
    &&& e.from != e.to
    &&& e.metadata == Seq::<(Seq<char>, Seq<char>)>::empty()
}

pub open spec fn edge_declared(nodes: Seq<SpecRelease>, e: SpecEdge) -> bool {
    exists|j: int| declared_at(nodes, j, e)
}

/// Every declared predecessor link up to node `j`, token `t`, that names an
/// existing, distinct release is present among `edges`.
pub open spec fn edges_complete_upto(
    nodes: Seq<SpecRelease>,
    edges: Seq<SpecEdge>,
    j: int,
    t: int,
) -> bool {
    forall|a: int, b: int|
        #![trigger prev_list(nodes[a])[b]]
        0 <= a < nodes.len() && 0 <= b < prev_list(nodes[a]).len() && (a < j || (a == j && b < t))
            && contains_version(nodes, prev_list(nodes[a])[b]) && prev_list(nodes[a])[b]
            != nodes[a].version ==> edge_in(edges, prev_list(nodes[a])[b], nodes[a].version)
}

/// All declared predecessor links are present.
pub open spec fn edges_complete(nodes: Seq<SpecRelease>, edges: Seq<SpecEdge>) -> bool {
    edges_complete_upto(nodes, edges, nodes.len() as int, 0)
}

/// `g` is exactly the graph one refresh cycle derives from `entries`:
/// its nodes are the well-formed entries, and its edges are precisely the
/// declared predecessor links between releases of the cycle.
pub open spec fn derived_graph(entries: Seq<SpecEntry>, g: SpecGraph) -> bool {
    &&& g.nodes == built_nodes(entries)
    &&& wf_graph(g)
    &&& forall|i: int| 0 <= i < g.edges.len() ==> edge_declared(g.nodes, #[trigger] g.edges[i])
    &&& edges_complete(g.nodes, g.edges)
}

fn version_key() -> (s: String)
    ensures
        s@ == "version"@,
{
    String::from_str("version")
}

fn previous_key() -> (s: String)
    ensures
        s@ == "previous"@,
{
    String::from_str("previous")
}

/// Whether some edge of `edges` already connects `from` to `to`.
pub(crate) fn edge_exists(edges: &Vec<UpgradeEdge>, from: &String, to: &String) -> (b: bool)
    ensures
        b == edge_in(edges.deep_view(), from@, to@),
{
    let n = edges.len();
    let mut i: usize = 0;
    while i < n
        invariant
            n == edges.len(),
            i <= n,
            forall|k: int|
                0 <= k < i ==> !((#[trigger] edges.deep_view()[k]).from == from@
                    && edges.deep_view()[k].to == to@),
        decreases n - i,
    {
        if string_eq(&edges[i].from, from) && string_eq(&edges[i].to, to) {
            proof {
                assert((#[trigger] edges.deep_view()[i as int]).from == from@
                    && edges.deep_view()[i as int].to == to@);
            }
            return true;
        }
        i += 1;
    }
    false
}

/// Parse each entry into a candidate release, skipping malformed entries and
/// repeated versions individually.
pub fn build_nodes(entries: &Vec<Entry>) -> (out: Vec<Release>)
    ensures
        out.deep_view() == built_nodes(entries.deep_view()),
        unique_versions(out.deep_view()),
{
    let key = version_key();
    let ghost ev = entries.deep_view();
    let mut out: Vec<Release> = Vec::new();
    let n = entries.len();
    let mut i: usize = 0;
    proof {
        assert(ev.take(0) =~= Seq::<SpecEntry>::empty());
    }
    while i < n
        invariant
            n == entries.len(),
            i <= n,
            ev == entries.deep_view(),
            key@ == "version"@,
            out.deep_view() == built_nodes(ev.take(i as int)),
        decreases n - i,
    {
        proof {
            assert(ev.take(i as int + 1).drop_last() =~= ev.take(i as int));
            assert(ev.take(i as int + 1).last() == ev[i as int]);
        }
        match lookup_label(&entries[i].labels, &key) {
            Some(v) => {
                if !has_version(&out, &v) {
                    let ghost before = out.deep_view();
                    let r = Release {
                        version: v,
                        labels: duplicate_pairs(&entries[i].labels),
                        payload: entries[i].payload.clone(),
                    };
                    out.push(r);
                    proof {
                        assert(out.deep_view() =~= built_nodes(ev.take(i as int + 1)));
                    }
                }
            },
            None => {},
        }
        i += 1;
    }
    proof {
        assert(ev.take(n as int) =~= ev);
        lemma_built_nodes_unique(ev);
    }
    out
}

/// Derive the upgrade edges the releases declare: for each release, each
/// `previous` token that names an existing, distinct release becomes one
/// edge; duplicates are collapsed.
fn derive_edges(nodes: &Vec<Release>) -> (edges: Vec<UpgradeEdge>)
    requires
        unique_versions(nodes.deep_view()),
    ensures
        unique_edge_pairs(edges.deep_view()),
        forall|i: int|
            0 <= i < edges.deep_view().len() ==> edge_declared(
                nodes.deep_view(),
                #[trigger] edges.deep_view()[i],
            ),
        edges_complete(nodes.deep_view(), edges.deep_view()),
{
    let pkey = previous_key();
    let ghost nv = nodes.deep_view();
    let mut edges: Vec<UpgradeEdge> = Vec::new();
    let n = nodes.len();
    let mut j: usize = 0;
    while j < n
        invariant
            n == nodes.len(),
            j <= n,
            nv == nodes.deep_view(),
            pkey@ == "previous"@,
            unique_versions(nv),
            unique_edge_pairs(edges.deep_view()),
            forall|i: int|
                0 <= i < edges.deep_view().len() ==> edge_declared(
                    nv,
                    #[trigger] edges.deep_view()[i],
                ),
            edges_complete_upto(nv, edges.deep_view(), j as int, 0),
        decreases n - j,
    {
        let prevs: Vec<String> = match lookup_label(&nodes[j].labels, &pkey) {
            Some(s) => split_commas_exec(&s),
            None => Vec::new(),
        };
        proof {
            assert(prevs.deep_view() =~= prev_list(nv[j as int]));
        }
        let m = prevs.len();
        let mut t: usize = 0;
        while t < m
            invariant
                m == prevs.len(),
                t <= m,
                j < n == nodes.len(),
                nv == nodes.deep_view(),
                prevs.deep_view() == prev_list(nv[j as int]),
                unique_versions(nv),
                unique_edge_pairs(edges.deep_view()),
                forall|i: int|
                    0 <= i < edges.deep_view().len() ==> edge_declared(
                        nv,
                        #[trigger] edges.deep_view()[i],
                    ),
                edges_complete_upto(nv, edges.deep_view(), j as int, t as int),
            decreases m - t,
        {
            let ghost p = prevs.deep_view()[t as int];
            proof {
                assert(p == prev_list(nv[j as int])[t as int]);
            }
            if !string_eq(&prevs[t], &nodes[j].version) {
                if has_version(nodes, &prevs[t]) {
                    if !edge_exists(&edges, &prevs[t], &nodes[j].version) {
                        let ghost before = edges.deep_view();
                        let e = UpgradeEdge {
                            from: prevs[t].clone(),
                            to: nodes[j].version.clone(),
                            metadata: Vec::new(),
                        };
                        edges.push(e);
                        proof {
                            let dv = edges.deep_view();
                            assert(dv =~~= before.push(
                                SpecEdge {
                                    from: p,
                                    to: nv[j as int].version,
                                    metadata: Seq::empty(),
                                },
                            ));
                            // The new edge is declared by node j.
                            assert(prev_list(nv[j as int]).contains(p));
                            assert(declared_at(nv, j as int, dv[dv.len() - 1]));
                            // Earlier edges keep their witnesses.
                            assert forall|i: int| 0 <= i < dv.len() implies edge_declared(
                                nv,
                                #[trigger] dv[i],
                            ) by {
                                if i < before.len() {
                                    assert(dv[i] == before[i]);
                                }
                            }
                            // Distinctness: the new pair was absent.
                            assert forall|i1: int, i2: int|
                                0 <= i1 < i2 < dv.len() implies !((#[trigger] dv[i1]).from
                                == (#[trigger] dv[i2]).from && dv[i1].to == dv[i2].to) by {
                                if i2 < before.len() {
                                    assert(dv[i1] == before[i1] && dv[i2] == before[i2]);
                                } else {
                                    assert(dv[i1] == before[i1]);
                                    assert(!edge_in(before, p, nv[j as int].version));
                                }
                            }
                            // Completeness: old links keep their witnesses,
                            // and link (j, t) is the pushed edge.
                            assert forall|a: int, b: int|
                                #![trigger prev_list(nv[a])[b]]
                                0 <= a < nv.len() && 0 <= b < prev_list(nv[a]).len() && (a
                                    < j as int || (a == j as int && b <= t as int))
                                    && contains_version(nv, prev_list(nv[a])[b]) && prev_list(
                                    nv[a],
                                )[b] != nv[a].version implies edge_in(
                                dv,
                                prev_list(nv[a])[b],
                                nv[a].version,
                            ) by {
                                if a < j as int || b < t as int {
                                    assert(edge_in(before, prev_list(nv[a])[b], nv[a].version));
                                    let w = choose|w: int|
                                        0 <= w < before.len() && (#[trigger] before[w]).from
                                            == prev_list(nv[a])[b] && before[w].to == nv[a].version;
                                    assert((#[trigger] dv[w]).from == prev_list(nv[a])[b]
                                        && dv[w].to == nv[a].version);
                                } else {
                                    assert((#[trigger] dv[dv.len() - 1]).from == prev_list(
                                        nv[a],
                                    )[b] && dv[dv.len() - 1].to == nv[a].version);
                                }
                            }
                        }
                    } else {
                        proof {
                            assert(edge_in(edges.deep_view(), p, nv[j as int].version));
                        }
                    }
                }
            }
            t += 1;
        }
        proof {
            assert(edges_complete_upto(nv, edges.deep_view(), j as int + 1, 0));
        }
        j += 1;
    }
    edges
}

/// Assemble one cycle's releases and edges into a graph.
pub fn build_graph(entries: &Vec<Entry>) -> (g: Graph)
    ensures
        derived_graph(entries.deep_view(), g@),
{
    let nodes = build_nodes(entries);
    let edges = derive_edges(&nodes);
    let g = Graph { nodes, edges };
    proof {
        assert forall|i: int| 0 <= i < g@.edges.len() implies edge_ok(
            g@.nodes,
            #[trigger] g@.edges[i],
        ) by {
            let j = choose|j: int| declared_at(g@.nodes, j, g@.edges[i]);
            assert((#[trigger] g@.nodes[j]).version == g@.edges[i].to);
        }
    }
    g
}

/// What one refresh cycle got from the metadata source.
pub enum FetchOutcome {
    /// The source answered: one raw entry per available image tag.
    Entries(Vec<Entry>),
    /// The source was unreachable or unauthorized; nothing was fetched.
    Failed,
}

/// Builder-side counters, observable for monitoring.
pub struct BuilderState {
    /// Refresh cycles that failed since the last successful one.
    pub consecutive_failures: u64,
}

/// Finish one refresh cycle: on success, build the graph from the fetched
/// entries and publish a snapshot stamped with the cycle's tick time; on
/// failure, leave the previously published snapshot authoritative and count
/// the failure.
pub fn refresh_step(
    cache: &mut GraphCache,
    st: &mut BuilderState,
    outcome: FetchOutcome,
    now: u64,
)
    ensures
        outcome matches FetchOutcome::Failed ==> {
            &&& final(cache)@ == old(cache)@
            &&& final(st).consecutive_failures == (if old(st).consecutive_failures < u64::MAX {
                old(st).consecutive_failures + 1
            } else {
                u64::MAX as int
            })
        },
        outcome matches FetchOutcome::Entries(es) ==> {
            &&& final(cache)@ matches Some(snap) && snap.timestamp == now && derived_graph(
                es.deep_view(),
                snap.graph,
            )
            &&& final(st).consecutive_failures == 0
        },
{
    match outcome {
        FetchOutcome::Entries(es) => {
            let g = build_graph(&es);
            st.consecutive_failures = 0;
            cache.publish(Snapshot { graph: g, timestamp: now });
        },
        FetchOutcome::Failed => {
            if st.consecutive_failures < u64::MAX {
                st.consecutive_failures = st.consecutive_failures + 1;
            }
        },
    }
}

/// Tick-skipping state of the refresh timer: a tick that fires while a cycle
/// is still running starts nothing, and is counted instead.
pub struct Scheduler {
    pub cycle_running: bool,
    pub skipped_ticks: u64,
}

impl Scheduler {
    pub fn new() -> (s: Scheduler)
        ensures
            !s.cycle_running,
            s.skipped_ticks == 0,
    {
        Scheduler { cycle_running: false, skipped_ticks: 0 }
    }

    /// A timer tick fired: start a cycle unless one is still running, in
    /// which case the tick is skipped (never queued) and counted.
    pub fn on_tick(&mut self) -> (run: bool)
        ensures
            run == !old(self).cycle_running,
            final(self).cycle_running,
            run ==> final(self).skipped_ticks == old(self).skipped_ticks,
            !run ==> final(self).skipped_ticks == (if old(self).skipped_ticks < u64::MAX {
                old(self).skipped_ticks + 1
            } else {
                u64::MAX as int
            }),
    {
        if self.cycle_running {
            if self.skipped_ticks < u64::MAX {
                self.skipped_ticks = self.skipped_ticks + 1;
            }
            false
        } else {
            self.cycle_running = true;
            true
        }
    }

    /// The running cycle finished (successfully or not).
    pub fn on_cycle_end(&mut self)
        ensures
            !final(self).cycle_running,
            final(self).skipped_ticks == old(self).skipped_ticks,
    {
        self.cycle_running = false;
    }
}

/// A refresh cycle started at `start` and taking `duration` is still busy at
/// time `t`.
pub open spec fn cycle_busy_at(start: int, duration: int, t: int) -> bool {
    start <= t < start + duration
}

/// Timer ticks fire at multiples of the period, and a publish happens on the
/// tick that started its cycle: two publishes on distinct ticks are at least
/// one period apart.
pub proof fn lemma_publish_separation(period: int, i: int, j: int)
    requires
        period > 0,
        0 <= i < j,
    ensures
        j * period - i * period >= period,
{
    assert(j * period - i * period >= period) by (nonlinear_arith)
        requires
            period > 0,
            0 <= i < j,
    ;
}

/// A cycle that overruns one period but finishes within two: the next tick
/// fires while it is busy (and is skipped), and the tick after does not.
pub proof fn lemma_overrun_skips_one_tick(period: int, start: int, duration: int)
    requires
        0 < period < duration <= 2 * period,
    ensures
        cycle_busy_at(start, duration, start + period),
        !cycle_busy_at(start, duration, start + 2 * period),
{
}

/// A cycle that finishes within one period is not busy at the next tick:
/// nothing is skipped.
pub proof fn lemma_no_overrun_no_skip(period: int, start: int, duration: int)
    requires
        0 < duration <= period,
    ensures
        !cycle_busy_at(start, duration, start + period),
{
}

} // verus!
