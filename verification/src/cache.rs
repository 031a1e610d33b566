//! The snapshot cache: holds "the current snapshot" for the serving side.
//!
//! A snapshot is immutable once published; `publish` replaces the whole
//! value, so a reader sees either the old snapshot or the new one, never a
//! mixture. The process that wraps this cache hands out the published
//! snapshot behind an atomically swapped, reference-counted handle; the
//! invariant kept here is that nothing ill-formed can ever be published, so
//! every graph a reader can obtain is well-formed.

use vstd::prelude::*;
use crate::graph::{Graph, SpecGraph, wf_graph};

verus! {

/// One immutable, timestamped graph produced by a single refresh cycle.
pub struct Snapshot {
    pub graph: Graph,
    /// The time of the refresh tick that produced this snapshot, in seconds.
    pub timestamp: u64,
}

/// Mathematical model of a snapshot.
#[verifier::ext_equal]
pub ghost struct SpecSnapshot {
    pub graph: SpecGraph,
    pub timestamp: u64,
}

impl View for Snapshot {
    type V = SpecSnapshot;

    open spec fn view(&self) -> SpecSnapshot {
        SpecSnapshot { graph: self.graph@, timestamp: self.timestamp }
    }
}

/// Safe access to "the current snapshot": one writer publishes whole
/// snapshots, readers obtain the latest published one. Only well-formed
/// graphs can be published, so readers never observe a dangling edge.
pub struct GraphCache {
    current: Option<Snapshot>,
}

impl View for GraphCache {
    type V = Option<SpecSnapshot>;

    closed spec fn view(&self) -> Option<SpecSnapshot> {
        match self.current {
            Some(s) => Some(s@),
            None => None,
        }
    }
}

impl GraphCache {
    /// Every snapshot held by the cache has a well-formed graph.
    #[verifier::type_invariant]
    spec fn inv(self) -> bool {
        match self.current {
            Some(s) => wf_graph(s.graph@),
            None => true,
        }
    }

    /// An empty cache: nothing has been published yet.
    pub fn new() -> (c: GraphCache)
        ensures
            c@ is None,
    {
        GraphCache { current: None }
    }

    /// Install `s` as the current snapshot, replacing the previous one.
    pub fn publish(&mut self, s: Snapshot)
        requires
            wf_graph(s.graph@),
        ensures
            final(self)@ == Some(s@),
    {
        proof {
            use_type_invariant(&*self);
        }
        self.current = Some(s);
    }

    /// The currently published snapshot, if any. The graph behind the
    /// returned handle is immutable and well-formed.
    pub fn current(&self) -> (r: Option<&Snapshot>)
        ensures
            match r {
                Some(s) => self@ == Some(s@) && wf_graph(s@.graph),
                None => self@ is None,
            },
    {
        proof {
            use_type_invariant(self);
        }
        match &self.current {
            Some(s) => Some(s),
            None => None,
        }
    }
}

} // verus!
