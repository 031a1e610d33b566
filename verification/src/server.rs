//! The serving side: validate a client's query against the mandatory
//! parameter names, then narrow the current snapshot to that client's view.
//!
//! A request that omits a mandatory parameter is rejected before the cache
//! is read: the error it gets depends on the mandatory set and the query
//! alone, never on the snapshot.

use vstd::prelude::*;
use crate::graph::{Graph, filter_graph, filtered_graph, is_subgraph, wf_graph};
use crate::cache::GraphCache;
use crate::text::string_eq;

verus! {

/// The query carries a parameter named `k`.
pub open spec fn query_has_key(q: Seq<(Seq<char>, Seq<char>)>, k: Seq<char>) -> bool {
    exists|i: int| 0 <= i < q.len() && (#[trigger] q[i]).0 == k
}

/// Every mandatory parameter name occurs in the query.
pub open spec fn all_params_present(
    mandatory: Seq<Seq<char>>,
    q: Seq<(Seq<char>, Seq<char>)>,
) -> bool {
    forall|i: int| 0 <= i < mandatory.len() ==> query_has_key(q, #[trigger] mandatory[i])
}

/// The first mandatory name the query omits (meaningful only when one is
/// missing).
pub open spec fn first_missing(mandatory: Seq<Seq<char>>, q: Seq<(Seq<char>, Seq<char>)>) -> Seq<
    char,
>
    decreases mandatory.len(),
{
    if mandatory.len() == 0 {
        Seq::empty()
    } else if !query_has_key(q, mandatory[0]) {
        mandatory[0]
    } else {
        first_missing(mandatory.drop_first(), q)
    }
}

/// Why a request was not served.
#[derive(Debug)]
pub enum ServeError {
    /// The query omits this mandatory parameter: a client error, answered
    /// without reading the snapshot.
    MissingParameter(String),
    /// No snapshot has ever been published: the service cannot answer yet.
    NotReady,
}

fn query_contains_key(q: &Vec<(String, String)>, k: &String) -> (b: bool)
    ensures
        b == query_has_key(q.deep_view(), k@),
{
    let n = q.len();
    let mut i: usize = 0;
    while i < n
        invariant
            n == q.len(),
            i <= n,
            forall|j: int| 0 <= j < i ==> (#[trigger] q.deep_view()[j]).0 != k@,
        decreases n - i,
    {
        if string_eq(&q[i].0, k) {
            proof {
                assert((#[trigger] q.deep_view()[i as int]).0 == k@);
            }
            return true;
        }
        i += 1;
    }
    false
}

/// Check the mandatory-parameter contract: `None` when every mandatory name
/// is present, otherwise the first missing name.
pub fn validate_params(mandatory: &Vec<String>, q: &Vec<(String, String)>) -> (r: Option<String>)
    ensures
        r is None <==> all_params_present(mandatory.deep_view(), q.deep_view()),
        r matches Some(m) ==> m@ == first_missing(mandatory.deep_view(), q.deep_view())
            && !query_has_key(q.deep_view(), m@),
{
    let ghost mv = mandatory.deep_view();
    let ghost qv = q.deep_view();
    let n = mandatory.len();
    let mut i: usize = 0;
    proof {
        assert(mv.skip(0) =~= mv);
    }
    while i < n
        invariant
            n == mandatory.len(),
            i <= n,
            mv == mandatory.deep_view(),
            qv == q.deep_view(),
            forall|j: int| 0 <= j < i ==> query_has_key(qv, #[trigger] mv[j]),
            first_missing(mv, qv) == first_missing(mv.skip(i as int), qv),
        decreases n - i,
    {
        proof {
            assert(mv.skip(i as int)[0] == mv[i as int]);
        }
        if !query_contains_key(q, &mandatory[i]) {
            let m = mandatory[i].clone();
            return Some(m);
        }
        proof {
            assert(mv.skip(i as int).drop_first() =~= mv.skip(i as int + 1));
        }
        i += 1;
    }
    None
}

/// Serve one request: validate the query, read the current snapshot, and
/// return the filtered graph. A missing mandatory parameter yields a client
/// error that does not depend on the cache; with no snapshot published yet
/// the service is not ready; otherwise the answer is exactly the filter pass
/// over the published snapshot.
pub fn serve(mandatory: &Vec<String>, cache: &GraphCache, q: &Vec<(String, String)>) -> (r: Result<
    Graph,
    ServeError,
>)
    ensures
        !all_params_present(mandatory.deep_view(), q.deep_view()) ==> (r matches Err(e)
            && e matches ServeError::MissingParameter(m) && m@ == first_missing(
            mandatory.deep_view(),
            q.deep_view(),
        )),
        all_params_present(mandatory.deep_view(), q.deep_view()) && cache@ is None ==> (r matches
            Err(e) && e is NotReady),
        all_params_present(mandatory.deep_view(), q.deep_view()) ==> (cache@ matches Some(snap)
            ==> (r matches Ok(g) && g@ == filtered_graph(snap.graph, q.deep_view()) && wf_graph(g@)
            && is_subgraph(g@, snap.graph))),
{
    match validate_params(mandatory, q) {
        Some(m) => Err(ServeError::MissingParameter(m)),
        None => {
            match cache.current() {
                None => Err(ServeError::NotReady),
                Some(snap) => Ok(filter_graph(&snap.graph, q)),
            }
        },
    }
}

} // verus!
