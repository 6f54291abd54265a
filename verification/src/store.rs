//! The versioned graph store and the per-request context.
//!
//! The store holds at most one current snapshot and supports wholesale
//! replacement. A reader acquires a handle that owns its own copy of the
//! snapshot, so a later replacement is invisible to that reader: the handle
//! continues to observe exactly the snapshot that was current when it was
//! acquired.

use vstd::prelude::*;
use crate::graph::{Edge, Graph};

verus! {

/// Holds the current graph snapshot; empty until the first load.
pub struct VersionedStore {
    pub current: Option<Graph>,
}

/// What `replace` leaves as the store's contents, stated over snapshot
/// views: the new snapshot, whatever was there before.
pub open spec fn spec_replace(state: Option<Seq<Edge>>, g: Seq<Edge>) -> Option<Seq<Edge>> {
    Some(g)
}

/// Replacement is idempotent: installing the same snapshot twice in a row
/// leaves the store exactly as installing it once does, so any query
/// acquires the same snapshot and computes the same result either way.
pub proof fn lemma_replace_idempotent(state: Option<Seq<Edge>>, g: Seq<Edge>)
    ensures
        spec_replace(spec_replace(state, g), g) == spec_replace(state, g),
{
}

impl VersionedStore {
    /// The contents, as an optional sequence of edges.
    pub open spec fn snapshot(self) -> Option<Seq<Edge>> {
        match self.current {
            Some(g) => Some(g@),
            None => None,
        }
    }

    pub open spec fn wf(self) -> bool {
        match self.current {
            Some(g) => g.wf(),
            None => true,
        }
    }

    /// An explicitly initialized store with no snapshot installed.
    pub fn new() -> (s: VersionedStore)
        ensures
            s.snapshot() is None,
            s.wf(),
    {
        VersionedStore { current: None }
    }

    /// Installs `g` as the current snapshot. Cannot fail: the snapshot was
    /// validated at construction. Readers holding an earlier handle are
    /// untouched; they own their snapshot.
    pub fn replace(&mut self, g: Graph)
        requires
            g.wf(),
        ensures
            final(self).snapshot() == spec_replace(old(self).snapshot(), g@),
            final(self).wf(),
    {
        self.current = Some(g);
    }

    /// A handle to whichever snapshot is current now. Never fails: before
    /// the first load it reports the explicit empty state.
    pub fn acquire(&self) -> (h: SnapshotHandle)
        ensures
            h.snapshot() == self.snapshot(),
            self.wf() ==> h.wf(),
    {
        match &self.current {
            Some(g) => SnapshotHandle { graph: Some(g.duplicate()) },
            None => SnapshotHandle { graph: None },
        }
    }
}

/// A reader's stable view of one snapshot; it stays valid whatever the
/// store does afterwards.
pub struct SnapshotHandle {
    pub graph: Option<Graph>,
}

impl SnapshotHandle {
    pub open spec fn snapshot(self) -> Option<Seq<Edge>> {
        match self.graph {
            Some(g) => Some(g@),
            None => None,
        }
    }

    pub open spec fn wf(self) -> bool {
        match self.graph {
            Some(g) => g.wf(),
            None => true,
        }
    }

    pub fn has_graph(&self) -> (r: bool)
        ensures
            r == (self.snapshot() is Some),
    {
        self.graph.is_some()
    }

    pub fn graph(&self) -> (r: Option<&Graph>)
        ensures
            match r {
                Some(g) => self.snapshot() == Some(g@) && (self.wf() ==> g.wf()),
                None => self.snapshot() is None,
            },
    {
        match &self.graph {
            Some(g) => Some(g),
            None => None,
        }
    }
}

/// One in-flight computation's view of the world: the snapshot pinned at
/// construction time. Later replacements in the store are invisible here.
pub struct RequestContext {
    pub handle: SnapshotHandle,
}

impl RequestContext {
    pub open spec fn snapshot(self) -> Option<Seq<Edge>> {
        self.handle.snapshot()
    }

    pub open spec fn wf(self) -> bool {
        self.handle.wf()
    }

    /// Pins whichever snapshot is current at this moment, for this
    /// context's whole lifetime.
    pub fn new(store: &VersionedStore) -> (ctx: RequestContext)
        ensures
            ctx.snapshot() == store.snapshot(),
            store.wf() ==> ctx.wf(),
    {
        RequestContext { handle: store.acquire() }
    }

    pub fn has_graph(&self) -> (r: bool)
        ensures
            r == (self.snapshot() is Some),
    {
        self.handle.has_graph()
    }

    pub fn graph(&self) -> (r: Option<&Graph>)
        ensures
            match r {
                Some(g) => self.snapshot() == Some(g@) && (self.wf() ==> g.wf()),
                None => self.snapshot() is None,
            },
    {
        self.handle.graph()
    }
}

/// Installs a freshly loaded edge set as the current snapshot and returns
/// how many edges the snapshot holds. The decoding of the durable source
/// into edge tuples is the loader's concern, outside the core; duplicate
/// `(from, to, token)` slots must have been resolved there.
pub fn load_safes_binary(store: &mut VersionedStore, edges: Vec<Edge>) -> (count: usize)
    requires
        forall|i: int, j: int|
            0 <= i < j < edges@.len() ==> !crate::graph::same_triple(edges@[i], edges@[j]),
    ensures
        final(store).wf(),
        final(store).snapshot() matches Some(s) && {
            &&& count == s.len()
            &&& forall|e: Edge| s.contains(e) ==> edges@.contains(e)
            &&& forall|i: int|
                0 <= i < edges@.len() && (#[trigger] edges@[i]).capacity.val() > 0
                    ==> s.contains(edges@[i])
        },
{
    let g = Graph::new(edges);
    let count = g.edge_count();
    store.replace(g);
    count
}

} // verus!
