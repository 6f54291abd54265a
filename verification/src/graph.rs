//! The capacitated edge graph: an immutable collection of directed,
//! token-scoped capacity edges, built in bulk and never mutated.

use vstd::prelude::*;
use crate::account::Address;
use crate::value::U256;

verus! {

/// A directed, token-scoped capacity relation: `from` is willing to forward
/// up to `capacity` units of the claim issued by `token` toward `to`.
#[derive(Clone, Copy, PartialEq, Eq, Structural, Debug)]
pub struct Edge {
    pub from: Address,
    pub to: Address,
    pub token: Address,
    pub capacity: U256,
}

/// One elementary movement of value in a transfer plan.
#[derive(Clone, Copy, PartialEq, Eq, Structural, Debug)]
pub struct TransferStep {
    pub from: Address,
    pub to: Address,
    pub token: Address,
    pub value: U256,
}

/// Two edges address the same `(from, to, token)` capacity slot.
pub open spec fn same_triple(a: Edge, b: Edge) -> bool {
    a.from == b.from && a.to == b.to && a.token == b.token
}

/// An immutable snapshot of the whole trust graph.
pub struct Graph {
    pub edges: Vec<Edge>,
}

impl View for Graph {
    type V = Seq<Edge>;

    open spec fn view(&self) -> Seq<Edge> {
        self.edges@
    }
}

/// Every edge carries value, and each capacity slot appears once.
pub open spec fn edges_wf(edges: Seq<Edge>) -> bool {
    &&& forall|i: int| 0 <= i < edges.len() ==> (#[trigger] edges[i]).capacity.val() > 0
    &&& forall|i: int, j: int| 0 <= i < j < edges.len() ==> !same_triple(edges[i], edges[j])
}

impl Graph {
    /// Every edge carries value, and each capacity slot appears once.
    pub open spec fn wf(self) -> bool {
        edges_wf(self@)
    }

    /// Builds a snapshot from loaded edges, excluding zero-capacity edges,
    /// which are equivalent to absence. Duplicate slots must have been
    /// resolved before the edges reach the core.
    pub fn new(edges: Vec<Edge>) -> (g: Graph)
        requires
            forall|i: int, j: int|
                0 <= i < j < edges@.len() ==> !same_triple(edges@[i], edges@[j]),
        ensures
            g.wf(),
            forall|e: Edge| g@.contains(e) ==> edges@.contains(e),
            forall|i: int|
                0 <= i < edges@.len() && (#[trigger] edges@[i]).capacity.val() > 0
                    ==> g@.contains(edges@[i]),
    {
        let mut out: Vec<Edge> = Vec::new();
        let n = edges.len();
        let mut i: usize = 0;
        while i < n
            invariant
                i <= n,
                n == edges@.len(),
                forall|i0: int, j0: int|
                    0 <= i0 < j0 < edges@.len() ==> !same_triple(edges@[i0], edges@[j0]),
                forall|k: int|
                    0 <= k < out@.len() ==> (#[trigger] out@[k]).capacity.val() > 0,
                forall|k: int|
                    0 <= k < out@.len() ==> exists|j: int|
                        0 <= j < i && edges@[j] == #[trigger] out@[k],
                forall|j: int|
                    0 <= j < i && (#[trigger] edges@[j]).capacity.val() > 0 ==> out@.contains(
                        edges@[j],
                    ),
                forall|k1: int, k2: int|
                    0 <= k1 < k2 < out@.len() ==> !same_triple(out@[k1], out@[k2]),
            decreases n - i,
        {
            let e = edges[i];
            if !e.capacity.is_zero() {
                proof {
                    assert forall|k: int| 0 <= k < out@.len() implies !same_triple(
                        out@[k],
                        edges@[i as int],
                    ) by {
                        let j = choose|j: int| 0 <= j < i && edges@[j] == out@[k];
                        assert(!same_triple(edges@[j], edges@[i as int]));
                    }
                }
                let ghost pre = out@;
                out.push(e);
                proof {
                    assert forall|j: int|
                        0 <= j <= i && (#[trigger] edges@[j]).capacity.val() > 0 implies out@.contains(
                        edges@[j],
                    ) by {
                        if j < i {
                            assert(pre.contains(edges@[j]));
                            let k = choose|k: int| 0 <= k < pre.len() && pre[k] == edges@[j];
                            assert(out@[k] == edges@[j]);
                        } else {
                            assert(out@[out@.len() - 1] == edges@[j]);
                        }
                    }
                }
            }
            i = i + 1;
        }
        proof {
            assert forall|e: Edge| out@.contains(e) implies edges@.contains(e) by {
                let k = choose|k: int| 0 <= k < out@.len() && out@[k] == e;
                let j = choose|j: int| 0 <= j < i && edges@[j] == out@[k];
                assert(edges@[j] == e);
            }
        }
        Graph { edges: out }
    }

    pub fn edge_count(&self) -> (r: usize)
        ensures
            r == self@.len(),
    {
        self.edges.len()
    }

    pub fn edge_at(&self, i: usize) -> (e: Edge)
        requires
            i < self@.len(),
        ensures
            e == self@[i as int],
    {
        self.edges[i]
    }

    /// An identical snapshot with its own storage.
    pub fn duplicate(&self) -> (g: Graph)
        ensures
            g@ == self@,
    {
        let mut out: Vec<Edge> = Vec::new();
        let n = self.edges.len();
        let mut i: usize = 0;
        while i < n
            invariant
                i <= n,
                n == self@.len(),
                out@ == self@.take(i as int),
            decreases n - i,
        {
            out.push(self.edges[i]);
            proof {
                assert(out@ =~= self@.take(i as int + 1));
            }
            i = i + 1;
        }
        proof {
            assert(out@ =~= self@);
        }
        Graph { edges: out }
    }
}

} // verus!
