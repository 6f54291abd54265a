//! The flow computation engine.
//!
//! Given an immutable snapshot, the engine computes a deliverable value
//! between two accounts and its decomposition into elementary transfer
//! steps, by repeated augmenting-path search over residual capacities.
//! Capacities here express a one-time willingness to forward, so paths are
//! one-directional and no residual back-edges exist. The search is
//! depth-limited by the optional hop bound, and each search is further
//! limited by the remaining step budget, so that only whole paths enter the
//! plan and every returned plan respects the step bound.

use vstd::prelude::*;
use vstd::pervasive::VecAdditionalExecFns;
use crate::account::Address;
use crate::errors::FlowError;
use crate::graph::{edges_wf, Edge, Graph, TransferStep};
use crate::value::U256;

verus! {

/// The residual capacities as mathematical values.
pub open spec fn residual_vals(res: Seq<U256>) -> Seq<nat> {
    Seq::new(res.len(), |i: int| res[i].val())
}

/// The stored capacities of a snapshot as mathematical values.
pub open spec fn capacities(edges: Seq<Edge>) -> Seq<nat> {
    Seq::new(edges.len(), |i: int| edges[i].capacity.val())
}

/// Account `a` reaches `t` along a node-simple path of at most `fuel`
/// edges, all with positive residual value, never entering a node of
/// `avoid`.
pub open spec fn reachable(
    edges: Seq<Edge>,
    res: Seq<nat>,
    avoid: Seq<Address>,
    a: Address,
    t: Address,
    fuel: nat,
) -> bool
    decreases fuel,
{
    a == t || (fuel > 0 && exists|i: int|
        {
            &&& 0 <= i < edges.len()
            &&& (#[trigger] edges[i]).from == a
            &&& res[i] > 0
            &&& !avoid.contains(edges[i].to)
            &&& reachable(edges, res, avoid.push(edges[i].to), edges[i].to, t, (fuel - 1) as nat)
        })
}

/// `path`, a sequence of edge indices, is a node-simple path from `a` to
/// `t` over positive residuals, avoiding the nodes of `avoid`.
pub open spec fn simple_path(
    edges: Seq<Edge>,
    res: Seq<nat>,
    avoid: Seq<Address>,
    path: Seq<usize>,
    a: Address,
    t: Address,
) -> bool
    decreases path.len(),
{
    if path.len() == 0 {
        a == t
    } else {
        let i = path[0] as int;
        &&& 0 <= i < edges.len()
        &&& edges[i].from == a
        &&& res[i] > 0
        &&& !avoid.contains(edges[i].to)
        &&& simple_path(edges, res, avoid.push(edges[i].to), path.drop_first(), edges[i].to, t)
    }
}

pub proof fn lemma_push_contains(s: Seq<Address>, x: Address, y: Address)
    ensures
        s.push(x).contains(y) <==> (s.contains(y) || y == x),
{
    if s.contains(y) {
        let k = choose|k: int| 0 <= k < s.len() && s[k] == y;
        assert(s.push(x)[k] == y);
    }
    assert(s.push(x)[s.len() as int] == x);
    if s.push(x).contains(y) && y != x {
        let k = choose|k: int| 0 <= k < s.push(x).len() && s.push(x)[k] == y;
        assert(s[k] == y);
    }
}

/// A found path witnesses reachability within any fuel at least its length.
pub proof fn lemma_path_reachable(
    edges: Seq<Edge>,
    res: Seq<nat>,
    avoid: Seq<Address>,
    path: Seq<usize>,
    a: Address,
    t: Address,
    fuel: nat,
)
    requires
        simple_path(edges, res, avoid, path, a, t),
        path.len() <= fuel,
    ensures
        reachable(edges, res, avoid, a, t, fuel),
    decreases path.len(),
{
    if path.len() > 0 {
        let i = path[0] as int;
        lemma_path_reachable(
            edges,
            res,
            avoid.push(edges[i].to),
            path.drop_first(),
            edges[i].to,
            t,
            (fuel - 1) as nat,
        );
    }
}

/// The edge at one position of a node-simple path: in range, positive
/// residual, linked to its predecessor, and ending at `t` if last.
pub proof fn lemma_path_index(
    edges: Seq<Edge>,
    res: Seq<nat>,
    avoid: Seq<Address>,
    path: Seq<usize>,
    a: Address,
    t: Address,
    k: int,
)
    requires
        simple_path(edges, res, avoid, path, a, t),
        0 <= k < path.len(),
    ensures
        0 <= path[k] < edges.len(),
        res[path[k] as int] > 0,
        k == 0 ==> edges[path[k] as int].from == a,
        k >= 1 ==> edges[path[k] as int].from == edges[path[k - 1] as int].to,
        k == path.len() - 1 ==> edges[path[k] as int].to == t,
    decreases k,
{
    let i = path[0] as int;
    let b = edges[i].to;
    let rest = path.drop_first();
    if k == 0 {
        if path.len() == 1 {
            assert(simple_path(edges, res, avoid.push(b), rest, b, t));
            assert(rest.len() == 0);
            assert(b == t);
        }
    } else {
        lemma_path_index(edges, res, avoid.push(b), rest, b, t, k - 1);
        assert(rest[k - 1] == path[k]);
        if k >= 2 {
            assert(rest[k - 2] == path[k - 1]);
        }
    }
}

/// Structure of a node-simple path: indices in range over positive
/// residuals, consecutive edges linked, endpoints right.
pub proof fn lemma_path_shape(
    edges: Seq<Edge>,
    res: Seq<nat>,
    avoid: Seq<Address>,
    path: Seq<usize>,
    a: Address,
    t: Address,
)
    requires
        simple_path(edges, res, avoid, path, a, t),
    ensures
        forall|k: int| 0 <= k < path.len() ==> 0 <= #[trigger] path[k] < edges.len(),
        forall|k: int| 0 <= k < path.len() ==> res[#[trigger] path[k] as int] > 0,
        forall|k: int|
            1 <= k < path.len() ==> edges[#[trigger] path[k] as int].from == edges[path[k - 1] as int].to,
        path.len() > 0 ==> edges[path[0] as int].from == a,
        path.len() > 0 ==> edges[path[path.len() - 1] as int].to == t,
{
    assert forall|k: int| 0 <= k < path.len() implies 0 <= #[trigger] path[k] < edges.len()
        && res[path[k] as int] > 0 by {
        lemma_path_index(edges, res, avoid, path, a, t, k);
    }
    assert forall|k: int| 1 <= k < path.len() implies edges[#[trigger] path[k] as int].from
        == edges[path[k - 1] as int].to by {
        lemma_path_index(edges, res, avoid, path, a, t, k);
    }
    if path.len() > 0 {
        lemma_path_index(edges, res, avoid, path, a, t, 0);
        lemma_path_index(edges, res, avoid, path, a, t, path.len() - 1);
    }
}

/// A forwarding node after the start of a node-simple path is new: it is
/// not in `avoid`.
pub proof fn lemma_path_fresh_at(
    edges: Seq<Edge>,
    res: Seq<nat>,
    avoid: Seq<Address>,
    path: Seq<usize>,
    a: Address,
    t: Address,
    k: int,
)
    requires
        simple_path(edges, res, avoid, path, a, t),
        1 <= k < path.len(),
    ensures
        !avoid.contains(edges[path[k] as int].from),
    decreases k,
{
    let i = path[0] as int;
    let b = edges[i].to;
    let rest = path.drop_first();
    let avoid2 = avoid.push(b);
    assert(rest[k - 1] == path[k]);
    if k == 1 {
        lemma_path_index(edges, res, avoid2, rest, b, t, 0);
    } else {
        lemma_path_fresh_at(edges, res, avoid2, rest, b, t, k - 1);
        lemma_push_contains(avoid, b, edges[path[k] as int].from);
    }
}

/// Two positions of a node-simple path name distinct forwarding nodes,
/// hence distinct edge indices.
pub proof fn lemma_path_distinct_at(
    edges: Seq<Edge>,
    res: Seq<nat>,
    avoid: Seq<Address>,
    path: Seq<usize>,
    a: Address,
    t: Address,
    k1: int,
    k2: int,
)
    requires
        simple_path(edges, res, avoid, path, a, t),
        avoid.contains(a),
        0 <= k1 < k2 < path.len(),
    ensures
        edges[path[k1] as int].from != edges[path[k2] as int].from,
        path[k1] != path[k2],
    decreases k1,
{
    if k1 == 0 {
        lemma_path_index(edges, res, avoid, path, a, t, 0);
        lemma_path_fresh_at(edges, res, avoid, path, a, t, k2);
    } else {
        let i = path[0] as int;
        let b = edges[i].to;
        let rest = path.drop_first();
        let avoid2 = avoid.push(b);
        assert(avoid2[avoid.len() as int] == b);
        lemma_path_distinct_at(edges, res, avoid2, rest, b, t, k1 - 1, k2 - 1);
        assert(rest[k1 - 1] == path[k1]);
        assert(rest[k2 - 1] == path[k2]);
    }
}

/// No edge index repeats along a node-simple path.
pub proof fn lemma_path_distinct(
    edges: Seq<Edge>,
    res: Seq<nat>,
    avoid: Seq<Address>,
    path: Seq<usize>,
    a: Address,
    t: Address,
)
    requires
        simple_path(edges, res, avoid, path, a, t),
        avoid.contains(a),
    ensures
        forall|k1: int, k2: int| 0 <= k1 < k2 < path.len() ==> path[k1] != path[k2],
{
    assert forall|k1: int, k2: int| 0 <= k1 < k2 < path.len() implies path[k1] != path[k2] by {
        lemma_path_distinct_at(edges, res, avoid, path, a, t, k1, k2);
    }
}

/// Consecutive steps of a chain hand value onward from `s` to `t`.
pub open spec fn chain_linked(c: Seq<TransferStep>, s: Address, t: Address) -> bool {
    &&& c.len() > 0
    &&& c[0].from == s
    &&& c[c.len() - 1].to == t
    &&& forall|k: int| 1 <= k < c.len() ==> (#[trigger] c[k]).from == c[k - 1].to
}

/// The value one chain carries: that of its first step.
pub open spec fn chain_value(c: Seq<TransferStep>) -> nat {
    if c.len() == 0 {
        0
    } else {
        c[0].value.val()
    }
}

/// Every step of the chain carries the same value.
pub open spec fn chain_uniform(c: Seq<TransferStep>) -> bool {
    forall|k: int| 0 <= k < c.len() ==> (#[trigger] c[k]).value.val() == chain_value(c)
}

/// A chain that moves positive value from `s` to `t` in at most `hops` steps.
pub open spec fn good_chain(c: Seq<TransferStep>, s: Address, t: Address, hops: nat) -> bool {
    chain_linked(c, s, t) && chain_uniform(c) && chain_value(c) > 0 && c.len() <= hops
}

/// A plan decomposed into source-to-destination chains within the hop bound.
pub open spec fn good_decomposition(
    chains: Seq<Seq<TransferStep>>,
    s: Address,
    t: Address,
    hops: nat,
) -> bool {
    forall|q: int| 0 <= q < chains.len() ==> good_chain(#[trigger] chains[q], s, t, hops)
}

/// The total value a sequence of chains delivers.
pub open spec fn chains_value(chains: Seq<Seq<TransferStep>>) -> nat
    decreases chains.len(),
{
    if chains.len() == 0 {
        0
    } else {
        chains_value(chains.drop_last()) + chain_value(chains.last())
    }
}

/// The value the steps bring into account `a`.
pub open spec fn inflow(steps: Seq<TransferStep>, a: Address) -> nat
    decreases steps.len(),
{
    if steps.len() == 0 {
        0
    } else {
        inflow(steps.drop_last(), a) + if steps.last().to == a {
            steps.last().value.val()
        } else {
            0nat
        }
    }
}

/// The value the steps take out of account `a`.
pub open spec fn outflow(steps: Seq<TransferStep>, a: Address) -> nat
    decreases steps.len(),
{
    if steps.len() == 0 {
        0
    } else {
        outflow(steps.drop_last(), a) + if steps.last().from == a {
            steps.last().value.val()
        } else {
            0nat
        }
    }
}

/// The step moves value along an edge of the snapshot, within its capacity.
pub open spec fn step_respects_graph(edges: Seq<Edge>, st: TransferStep) -> bool {
    exists|i: int|
        {
            &&& 0 <= i < edges.len()
            &&& (#[trigger] edges[i]).from == st.from
            &&& edges[i].to == st.to
            &&& edges[i].token == st.token
            &&& st.value.val() <= edges[i].capacity.val()
        }
}

/// The total value the steps route over the capacity slot of edge `e`.
pub open spec fn routed_on(steps: Seq<TransferStep>, e: Edge) -> nat
    decreases steps.len(),
{
    if steps.len() == 0 {
        0
    } else {
        routed_on(steps.drop_last(), e) + if steps.last().from == e.from && steps.last().to
            == e.to && steps.last().token == e.token {
            steps.last().value.val()
        } else {
            0nat
        }
    }
}

/// Routed totals add up over concatenation of step sequences.
pub proof fn lemma_routed_on_concat(s1: Seq<TransferStep>, s2: Seq<TransferStep>, e: Edge)
    ensures
        routed_on(s1 + s2, e) == routed_on(s1, e) + routed_on(s2, e),
    decreases s2.len(),
{
    if s2.len() == 0 {
        assert(s1 + s2 =~= s1);
    } else {
        assert((s1 + s2).drop_last() =~= s1 + s2.drop_last());
        assert((s1 + s2).last() == s2.last());
        lemma_routed_on_concat(s1, s2.drop_last(), e);
    }
}

/// In a well-formed snapshot, one path's steps route exactly its value over
/// each edge the path uses, and nothing over any other edge.
proof fn lemma_chain_routed_on(edges: Seq<Edge>, path: Seq<usize>, v: U256, i: int)
    requires
        0 <= i < edges.len(),
        forall|k: int| 0 <= k < path.len() ==> 0 <= #[trigger] path[k] < edges.len(),
        forall|k1: int, k2: int| 0 <= k1 < k2 < path.len() ==> path[k1] != path[k2],
        forall|a: int, b: int|
            0 <= a < b < edges.len() ==> !crate::graph::same_triple(edges[a], edges[b]),
    ensures
        routed_on(path_chain(edges, path, v), edges[i]) == if index_in_prefix(
            path,
            path.len() as int,
            i,
        ) {
            v.val()
        } else {
            0nat
        },
    decreases path.len(),
{
    let chain = path_chain(edges, path, v);
    if path.len() == 0 {
        assert(!index_in_prefix(path, 0, i));
    } else {
        let pre = path.drop_last();
        assert(path_chain(edges, pre, v) =~= chain.drop_last());
        lemma_chain_routed_on(edges, pre, v, i);
        let last = path.len() - 1;
        let lastidx = path[last] as int;
        assert(chain.last() == chain[last]);
        if lastidx == i {
            assert(chain.last().from == edges[i].from && chain.last().to == edges[i].to
                && chain.last().token == edges[i].token);
            assert(!index_in_prefix(pre, pre.len() as int, i)) by {
                if index_in_prefix(pre, pre.len() as int, i) {
                    let j = choose|j: int| 0 <= j < pre.len() && #[trigger] pre[j] as int == i;
                    assert(path[j] == pre[j]);
                    assert(path[j] != path[last]);
                }
            }
            assert(index_in_prefix(path, path.len() as int, i)) by {
                assert(path[last] as int == i);
            }
        } else {
            assert(!crate::graph::same_triple(edges[lastidx], edges[i])) by {
                if lastidx < i {
                    assert(!crate::graph::same_triple(edges[lastidx], edges[i]));
                } else {
                    assert(!crate::graph::same_triple(edges[i], edges[lastidx]));
                }
            }
            assert(!(chain.last().from == edges[i].from && chain.last().to == edges[i].to
                && chain.last().token == edges[i].token));
            assert(index_in_prefix(path, path.len() as int, i) == index_in_prefix(
                pre,
                pre.len() as int,
                i,
            )) by {
                if index_in_prefix(path, path.len() as int, i) {
                    let j = choose|j: int| 0 <= j < path.len() && #[trigger] path[j] as int == i;
                    assert(j != last);
                    assert(pre[j] == path[j]);
                }
                if index_in_prefix(pre, pre.len() as int, i) {
                    let j = choose|j: int| 0 <= j < pre.len() && #[trigger] pre[j] as int == i;
                    assert(path[j] == pre[j]);
                }
            }
        }
    }
}

/// Flows add up over concatenation of step sequences.
pub proof fn lemma_flow_concat(s1: Seq<TransferStep>, s2: Seq<TransferStep>, a: Address)
    ensures
        inflow(s1 + s2, a) == inflow(s1, a) + inflow(s2, a),
        outflow(s1 + s2, a) == outflow(s1, a) + outflow(s2, a),
    decreases s2.len(),
{
    if s2.len() == 0 {
        assert(s1 + s2 =~= s1);
    } else {
        assert((s1 + s2).drop_last() =~= s1 + s2.drop_last());
        assert((s1 + s2).last() == s2.last());
        lemma_flow_concat(s1, s2.drop_last(), a);
    }
}

/// One chain's balance: its value leaves `s` and enters `t`; every other
/// account passes on exactly what it receives.
pub proof fn lemma_chain_flow(c: Seq<TransferStep>, s: Address, t: Address, a: Address)
    requires
        chain_linked(c, s, t),
        chain_uniform(c),
    ensures
        inflow(c, a) + (if a == s {
            chain_value(c)
        } else {
            0nat
        }) == outflow(c, a) + (if a == t {
            chain_value(c)
        } else {
            0nat
        }),
    decreases c.len(),
{
    let v = chain_value(c);
    assert(c[0].value.val() == v);
    if c.len() == 1 {
        assert(c.drop_last() =~= Seq::<TransferStep>::empty());
        assert(inflow(Seq::<TransferStep>::empty(), a) == 0);
        assert(outflow(Seq::<TransferStep>::empty(), a) == 0);
        assert(c.last() == c[0]);
    } else {
        let rest = c.drop_first();
        let b = c[0].to;
        assert(rest[0] == c[1]);
        assert(rest[rest.len() - 1] == c[c.len() - 1]);
        assert(chain_linked(rest, b, t)) by {
            assert forall|k: int| 1 <= k < rest.len() implies (#[trigger] rest[k]).from == rest[k
                - 1].to by {
                assert(rest[k] == c[k + 1]);
                assert(rest[k - 1] == c[k]);
            }
        }
        assert(chain_value(rest) == v);
        assert(chain_uniform(rest)) by {
            assert forall|k: int| 0 <= k < rest.len() implies (#[trigger] rest[k]).value.val()
                == chain_value(rest) by {
                assert(rest[k] == c[k + 1]);
            }
        }
        lemma_chain_flow(rest, b, t, a);
        let single = seq![c[0]];
        assert(c =~= single + rest);
        lemma_flow_concat(single, rest, a);
        assert(single.len() == 1);
        assert(single.drop_last() =~= Seq::<TransferStep>::empty());
        assert(single.last() == c[0]);
        assert(inflow(Seq::<TransferStep>::empty(), a) == 0);
        assert(outflow(Seq::<TransferStep>::empty(), a) == 0);
        assert(inflow(single, a) == if c[0].to == a { v } else { 0nat });
        assert(outflow(single, a) == if c[0].from == a { v } else { 0nat });
        assert(inflow(c, a) == inflow(single, a) + inflow(rest, a));
        assert(outflow(c, a) == outflow(single, a) + outflow(rest, a));
    }
}

/// Value conservation of a decomposed plan: at every account other than the
/// source and the destination, inbound step values sum to outbound step
/// values; the source emits and the destination absorbs the plan's total.
pub proof fn lemma_decomposition_flow(
    chains: Seq<Seq<TransferStep>>,
    s: Address,
    t: Address,
    hops: nat,
    a: Address,
)
    requires
        good_decomposition(chains, s, t, hops),
    ensures
        inflow(chains.flatten(), a) + (if a == s {
            chains_value(chains)
        } else {
            0nat
        }) == outflow(chains.flatten(), a) + (if a == t {
            chains_value(chains)
        } else {
            0nat
        }),
    decreases chains.len(),
{
    if chains.len() == 0 {
        assert(chains.flatten() =~= Seq::<TransferStep>::empty());
    } else {
        let pre = chains.drop_last();
        let last = chains.last();
        assert(good_decomposition(pre, s, t, hops)) by {
            assert forall|q: int| 0 <= q < pre.len() implies good_chain(
                #[trigger] pre[q],
                s,
                t,
                hops,
            ) by {
                assert(pre[q] == chains[q]);
            }
        }
        lemma_decomposition_flow(pre, s, t, hops, a);
        pre.lemma_flatten_push(last);
        assert(pre.push(last) =~= chains);
        lemma_flow_concat(pre.flatten(), last, a);
        lemma_chain_flow(last, s, t, a);
    }
}

/// Tests whether a vector of identifiers holds one.
fn contains_addr(v: &Vec<Address>, x: Address) -> (r: bool)
    ensures
        r == v@.contains(x),
{
    let n = v.len();
    let mut i: usize = 0;
    while i < n
        invariant
            i <= n,
            n == v@.len(),
            forall|j: int| 0 <= j < i ==> v@[j] != x,
        decreases n - i,
    {
        if v[i] == x {
            return true;
        }
        i = i + 1;
    }
    false
}

fn clone_addrs(v: &Vec<Address>) -> (r: Vec<Address>)
    ensures
        r@ == v@,
{
    let mut out: Vec<Address> = Vec::new();
    let n = v.len();
    let mut i: usize = 0;
    while i < n
        invariant
            i <= n,
            n == v@.len(),
            out@ == v@.take(i as int),
        decreases n - i,
    {
        out.push(v[i]);
        proof {
            assert(out@ =~= v@.take(i as int + 1));
        }
        i = i + 1;
    }
    proof {
        assert(out@ =~= v@);
    }
    out
}

/// Depth-first search for a node-simple augmenting path of at most `fuel`
/// edges. Finds one exactly when one exists: a `None` refutes
/// reachability within the bound.
fn find_path(
    g: &Graph,
    res: &Vec<U256>,
    visited: &Vec<Address>,
    a: Address,
    t: Address,
    fuel: u64,
) -> (r: Option<Vec<usize>>)
    requires
        res@.len() == g@.len(),
    ensures
        match r {
            Some(path) => simple_path(g@, residual_vals(res@), visited@, path@, a, t)
                && path@.len() <= fuel,
            None => !reachable(g@, residual_vals(res@), visited@, a, t, fuel as nat),
        },
    decreases fuel,
{
    if a == t {
        let path: Vec<usize> = Vec::new();
        return Some(path);
    }
    if fuel == 0 {
        return None;
    }
    let n = g.edge_count();
    let mut i: usize = 0;
    while i < n
        invariant
            i <= n,
            n == g@.len(),
            res@.len() == g@.len(),
            a != t,
            fuel >= 1,
            forall|j: int|
                0 <= j < i ==> !{
                    &&& (#[trigger] g@[j]).from == a
                    &&& residual_vals(res@)[j] > 0
                    &&& !visited@.contains(g@[j].to)
                    &&& reachable(
                        g@,
                        residual_vals(res@),
                        visited@.push(g@[j].to),
                        g@[j].to,
                        t,
                        (fuel - 1) as nat,
                    )
                },
        decreases n - i,
    {
        let e = g.edge_at(i);
        if e.from == a && !res[i].is_zero() && !contains_addr(visited, e.to) {
            let mut visited2 = clone_addrs(visited);
            visited2.push(e.to);
            match find_path(g, res, &visited2, e.to, t, fuel - 1) {
                Some(path) => {
                    let mut full: Vec<usize> = Vec::new();
                    full.push(i);
                    let mut rest = path;
                    full.append(&mut rest);
                    proof {
                        assert(full@.drop_first() =~= path@);
                        assert(full@[0] == i);
                    }
                    return Some(full);
                },
                None => {},
            }
        }
        i = i + 1;
    }
    proof {
        assert(!reachable(g@, residual_vals(res@), visited@, a, t, fuel as nat)) by {
            if reachable(g@, residual_vals(res@), visited@, a, t, fuel as nat) {
                let j = choose|j: int|
                    {
                        &&& 0 <= j < g@.len()
                        &&& (#[trigger] g@[j]).from == a
                        &&& residual_vals(res@)[j] > 0
                        &&& !visited@.contains(g@[j].to)
                        &&& reachable(
                            g@,
                            residual_vals(res@),
                            visited@.push(g@[j].to),
                            g@[j].to,
                            t,
                            (fuel - 1) as nat,
                        )
                    };
                assert(false);
            }
        }
    }
    None
}

/// The hop bound in force: the given bound, or the edge count when
/// unbounded, since a node-simple path never uses an edge twice.
pub open spec fn hop_limit(max_hops: Option<u64>, n_edges: nat) -> nat {
    match max_hops {
        Some(k) => k as nat,
        None => n_edges,
    }
}

/// The search depth still open to a plan that already holds `used` steps:
/// the hop bound in force, capped by the remaining step budget, so that any
/// found path fits the plan whole.
pub open spec fn left_fuel(
    max_hops: Option<u64>,
    max_steps: Option<u64>,
    n_edges: nat,
    used: nat,
) -> nat {
    match max_steps {
        Some(m) => if m as nat <= used {
            0
        } else if hop_limit(max_hops, n_edges) <= m as nat - used {
            hop_limit(max_hops, n_edges)
        } else {
            (m - used) as nat
        },
        None => hop_limit(max_hops, n_edges),
    }
}

/// The depth of the first augmenting search.
pub open spec fn search_fuel(max_hops: Option<u64>, max_steps: Option<u64>, n_edges: nat) -> nat {
    left_fuel(max_hops, max_steps, n_edges, 0)
}

/// The steps a found path contributes, each carrying value `v`.
pub open spec fn path_chain(edges: Seq<Edge>, path: Seq<usize>, v: U256) -> Seq<TransferStep> {
    Seq::new(
        path.len(),
        |j: int|
            TransferStep {
                from: edges[path[j] as int].from,
                to: edges[path[j] as int].to,
                token: edges[path[j] as int].token,
                value: v,
            },
    )
}

/// One of the first `k` positions of `path` names edge index `idx`.
pub open spec fn index_in_prefix(path: Seq<usize>, k: int, idx: int) -> bool {
    exists|j: int| 0 <= j < k && #[trigger] path[j] as int == idx
}

/// Routes one augmenting path: takes the bottleneck of the path's residual
/// capacities, capped by `cap`, subtracts it along the path and appends the
/// path's transfer steps. Returns the routed value.
#[verifier::rlimit(100)]
fn augment(
    graph: &Graph,
    res: &mut Vec<U256>,
    steps: &mut Vec<TransferStep>,
    path: &Vec<usize>,
    cap: U256,
    source: &Address,
    destination: &Address,
    Ghost(visited): Ghost<Seq<Address>>,
) -> (v: U256)
    requires
        old(res)@.len() == graph@.len(),
        simple_path(graph@, residual_vals(old(res)@), visited, path@, *source, *destination),
        visited.contains(*source),
        *source != *destination,
        cap.val() > 0,
        forall|j: int|
            0 <= j < graph@.len() ==> (#[trigger] old(res)@[j]).val() <= graph@[j].capacity.val(),
        forall|j: int|
            0 <= j < old(steps)@.len() ==> step_respects_graph(graph@, #[trigger] old(steps)@[j]),
    ensures
        0 < v.val() <= cap.val(),
        final(res)@.len() == graph@.len(),
        forall|j: int|
            0 <= j < graph@.len() ==> (#[trigger] final(res)@[j]).val() <= graph@[j].capacity.val(),
        final(steps)@ == old(steps)@ + path_chain(graph@, path@, v),
        good_chain(path_chain(graph@, path@, v), *source, *destination, path@.len() as nat),
        forall|j: int|
            0 <= j < path@.len() ==> (final(res)@[#[trigger] path@[j] as int]).val() == (old(
                res,
            )@[path@[j] as int]).val() - v.val(),
        forall|i: int|
            0 <= i < graph@.len() && !index_in_prefix(path@, path@.len() as int, i)
                ==> final(res)@[i] == old(res)@[i],
        forall|j: int|
            0 <= j < final(steps)@.len() ==> step_respects_graph(graph@, #[trigger] final(steps)@[j]),
        v.val() == cap.val() || exists|j: int|
            0 <= j < path@.len() && (final(res)@[#[trigger] path@[j] as int]).val() == 0,
{
    let ghost pre_res = res@;
    let ghost pre_steps = steps@;
    let n = graph.edge_count();
    proof {
        if path@.len() == 0 {
            assert(simple_path(graph@, residual_vals(pre_res), visited, path@, *source, *destination));
            assert(false);
        }
        lemma_path_shape(graph@, residual_vals(pre_res), visited, path@, *source, *destination);
        lemma_path_distinct(graph@, residual_vals(pre_res), visited, path@, *source, *destination);
    }
    let plen = path.len();
    let mut mn: U256 = res[path[0]];
    let mut mnk: usize = 0;
    let mut k: usize = 1;
    while k < plen
        invariant
            1 <= k <= plen,
            plen == path@.len(),
            res@ == pre_res,
            res@.len() == n,
            n == graph@.len(),
            forall|j: int| 0 <= j < plen ==> 0 <= #[trigger] path@[j] < n,
            forall|j: int| 0 <= j < plen ==> (res@[#[trigger] path@[j] as int]).val() > 0,
            mn.val() > 0,
            forall|j: int| 0 <= j < k ==> mn.val() <= (res@[#[trigger] path@[j] as int]).val(),
            mnk < k,
            mn == res@[path@[mnk as int] as int],
        decreases plen - k,
    {
        let idx = path[k];
        let c = res[idx];
        if c.lt(&mn) {
            mn = c;
            mnk = k;
        }
        k = k + 1;
    }
    let v = mn.min_of(cap);
    let ghost bidx = mnk as int;
    let mut k2: usize = 0;
    while k2 < plen
        invariant
            0 <= k2 <= plen,
            plen == path@.len(),
            res@.len() == n,
            pre_res.len() == n,
            n == graph@.len(),
            v.val() > 0,
            forall|j: int| 0 <= j < plen ==> 0 <= #[trigger] path@[j] < n,
            forall|j: int|
                0 <= j < plen ==> v.val() <= (pre_res[#[trigger] path@[j] as int]).val(),
            forall|j1: int, j2: int| 0 <= j1 < j2 < plen ==> path@[j1] != path@[j2],
            steps@ == pre_steps + path_chain(graph@, path@, v).take(k2 as int),
            forall|j: int|
                0 <= j < k2 ==> (res@[#[trigger] path@[j] as int]).val() == (
                pre_res[path@[j] as int]).val() - v.val(),
            forall|idx0: int|
                0 <= idx0 < n && !index_in_prefix(path@, k2 as int, idx0) ==> res@[idx0]
                    == pre_res[idx0],
        decreases plen - k2,
    {
        let idx = path[k2];
        let e = graph.edge_at(idx);
        proof {
            assert forall|j: int| 0 <= j < k2 implies #[trigger] path@[j] as int != idx as int by {}
            assert(!index_in_prefix(path@, k2 as int, idx as int));
            assert(res@[idx as int] == pre_res[idx as int]);
        }
        steps.push(TransferStep { from: e.from, to: e.to, token: e.token, value: v });
        let cur = res[idx];
        let nv = cur.sub_val(v);
        res.set(idx, nv);
        proof {
            assert(steps@ =~= pre_steps + path_chain(graph@, path@, v).take(k2 as int + 1));
            assert forall|idx0: int|
                0 <= idx0 < n && !index_in_prefix(path@, k2 as int + 1, idx0) implies res@[idx0]
                == pre_res[idx0] by {
                assert(!index_in_prefix(path@, k2 as int, idx0));
                assert(idx0 != idx as int);
            }
        }
        k2 = k2 + 1;
    }
    proof {
        let chain = path_chain(graph@, path@, v);
        assert(chain.take(plen as int) =~= chain);
        assert(steps@ == pre_steps + chain);
        assert(chain_linked(chain, *source, *destination));
        assert(chain_value(chain) == v.val());
        assert(chain_uniform(chain));
        assert forall|j: int|
            0 <= j < graph@.len() implies (#[trigger] res@[j]).val()
            <= graph@[j].capacity.val() by {
            if !index_in_prefix(path@, plen as int, j) {
                assert(res@[j] == pre_res[j]);
            } else {
                let jj = choose|jj: int| 0 <= jj < plen && #[trigger] path@[jj] as int == j;
                assert((res@[path@[jj] as int]).val() == (pre_res[path@[jj] as int]).val()
                    - v.val());
            }
        }
        assert forall|j: int| 0 <= j < steps@.len() implies step_respects_graph(
            graph@,
            #[trigger] steps@[j],
        ) by {
            if j < pre_steps.len() {
                assert(steps@[j] == pre_steps[j]);
            } else {
                let jj = j - pre_steps.len();
                let ei = path@[jj] as int;
                assert(steps@[j] == chain[jj]);
                assert(v.val() <= pre_res[ei].val());
                assert(pre_res[ei].val() <= graph@[ei].capacity.val());
                assert(graph@[ei].from == chain[jj].from && graph@[ei].to == chain[jj].to
                    && graph@[ei].token == chain[jj].token && chain[jj].value.val()
                    <= graph@[ei].capacity.val());
            }
        }
        if v.val() != cap.val() {
            assert(v.val() == mn.val());
            assert(mn == pre_res[path@[bidx] as int]);
            assert((res@[path@[bidx] as int]).val() == (pre_res[path@[bidx] as int]).val()
                - v.val());
            assert((res@[path@[bidx] as int]).val() == 0);
        }
    }
    v
}

/// Some edge that chain `c` uses is exhausted by the plan prefix `upto`:
/// the prefix routes that edge's whole capacity.
pub open spec fn chain_saturates(
    edges: Seq<Edge>,
    upto: Seq<TransferStep>,
    c: Seq<TransferStep>,
) -> bool {
    exists|k: int, i: int|
        {
            &&& 0 <= k < c.len()
            &&& 0 <= i < edges.len()
            &&& (#[trigger] c[k]).from == (#[trigger] edges[i]).from
            &&& c[k].to == edges[i].to
            &&& c[k].token == edges[i].token
            &&& routed_on(upto, edges[i]) == edges[i].capacity.val()
        }
}

/// Appending one chain keeps a plan greedy, provided the appended chain
/// itself completes the target or exhausts an edge it uses.
proof fn lemma_greedy_push(
    edges: Seq<Edge>,
    chains: Seq<Seq<TransferStep>>,
    chain: Seq<TransferStep>,
    target_val: nat,
)
    requires
        forall|q: int|
            0 <= q < chains.len() ==> (chains_value(#[trigger] chains.take(q + 1)) == target_val
                || chain_saturates(edges, chains.take(q + 1).flatten(), chains[q])),
        chains_value(chains.push(chain)) == target_val || chain_saturates(
            edges,
            chains.push(chain).flatten(),
            chain,
        ),
    ensures
        forall|q: int|
            0 <= q < chains.push(chain).len() ==> (chains_value(
                #[trigger] chains.push(chain).take(q + 1),
            ) == target_val || chain_saturates(
                edges,
                chains.push(chain).take(q + 1).flatten(),
                chains.push(chain)[q],
            )),
{
    let cs2 = chains.push(chain);
    assert forall|q: int|
        0 <= q < cs2.len() implies (chains_value(#[trigger] cs2.take(q + 1)) == target_val
        || chain_saturates(edges, cs2.take(q + 1).flatten(), cs2[q])) by {
        if q < chains.len() {
            assert(cs2.take(q + 1) =~= chains.take(q + 1));
            assert(cs2[q] == chains[q]);
        } else {
            assert(cs2.take(q + 1) =~= cs2);
            assert(cs2[q] == chain);
        }
    }
}

/// Everything a successful flow computation promises. A degenerate request
/// from an account to itself carries trivially zero flow and an empty plan.
/// Otherwise the value is positive and within the target, the destination
/// is reachable, every step respects an edge's capacity in the snapshot,
/// value is conserved at every account but the endpoints, and the steps
/// decompose into a greedy sequence of source-to-destination chains within
/// the hop bound: each chain either completes the target or exhausts an
/// edge it uses.
pub open spec fn flow_ok(
    edges: Seq<Edge>,
    source: Address,
    destination: Address,
    target_val: nat,
    max_hops: Option<u64>,
    max_steps: Option<u64>,
    flow: U256,
    steps: Seq<TransferStep>,
) -> bool {
    if source == destination {
        &&& flow.val() == 0
        &&& steps.len() == 0
    } else {
        &&& 0 < flow.val() <= target_val
        &&& reachable(
            edges,
            capacities(edges),
            seq![source],
            source,
            destination,
            search_fuel(max_hops, max_steps, edges.len()),
        )
        &&& forall|j: int| 0 <= j < steps.len() ==> step_respects_graph(edges, #[trigger] steps[j])
        &&& forall|a: Address|
            a != source && a != destination ==> inflow(steps, a) == outflow(steps, a)
        &&& outflow(steps, source) == inflow(steps, source) + flow.val()
        &&& inflow(steps, destination) == outflow(steps, destination) + flow.val()
        &&& exists|chains: Seq<Seq<TransferStep>>|
            {
                &&& steps == #[trigger] chains.flatten()
                &&& good_decomposition(
                    chains,
                    source,
                    destination,
                    hop_limit(max_hops, edges.len()),
                )
                &&& chains_value(chains) == flow.val()
                &&& (edges_wf(edges) ==> forall|q: int|
                    0 <= q < chains.len() ==> (chains_value(#[trigger] chains.take(q + 1))
                        == target_val || chain_saturates(
                        edges,
                        chains.take(q + 1).flatten(),
                        chains[q],
                    )))
            }
        &&& (edges_wf(edges) ==> forall|i: int|
            0 <= i < edges.len() ==> routed_on(steps, #[trigger] edges[i])
                <= edges[i].capacity.val())
        &&& (edges_wf(edges) && flow.val() < target_val ==> exists|rest: Seq<nat>|
            {
                &&& rest.len() == edges.len()
                &&& forall|i: int|
                    0 <= i < edges.len() ==> routed_on(steps, #[trigger] edges[i]) + rest[i]
                        == edges[i].capacity.val()
                &&& !reachable(
                    edges,
                    rest,
                    seq![source],
                    source,
                    destination,
                    left_fuel(max_hops, max_steps, edges.len(), steps.len()),
                )
            })
        &&& match max_steps {
            Some(m) => steps.len() <= m as nat,
            None => true,
        }
    }
}

/// When a flow computation owes no plan: the target is zero, or the
/// destination is out of reach within the first search's depth.
pub open spec fn flow_no_route(
    edges: Seq<Edge>,
    source: Address,
    destination: Address,
    target_val: nat,
    max_hops: Option<u64>,
    max_steps: Option<u64>,
) -> bool {
    ||| target_val == 0
    ||| !reachable(
        edges,
        capacities(edges),
        seq![source],
        source,
        destination,
        search_fuel(max_hops, max_steps, edges.len()),
    )
}

/// Computes the maximum deliverable value from `source` to `destination`
/// under the target cap and the optional hop and step bounds, with its
/// decomposition into elementary transfer steps.
///
/// Augmenting paths are searched over residual capacities; each search is
/// depth-limited by the hop bound and by the remaining step budget, so only
/// whole paths enter the plan (the step bound never truncates a path
/// half-way, and value conservation holds on every retained step). A
/// degenerate request from an account to itself returns a defined result,
/// trivially zero flow with an empty plan, without entering the algorithm.
/// Any other call succeeds exactly when the target is positive and the
/// destination is reachable within the first search's depth; otherwise it
/// fails with `NoRouteFoundError` carrying the request, and never returns
/// a zero-value success.
#[verifier::rlimit(100)]
pub fn compute_flow(
    source: &Address,
    destination: &Address,
    graph: &Graph,
    target_value: U256,
    max_hops: Option<u64>,
    max_steps: Option<u64>,
) -> (r: Result<(U256, Vec<TransferStep>), FlowError>)
    ensures
        match r {
            Ok(p) => flow_ok(
                graph@,
                *source,
                *destination,
                target_value.val(),
                max_hops,
                max_steps,
                p.0,
                p.1@,
            ),
            Err(e) => {
                &&& e == (FlowError::NoRouteFoundError {
                    requested: target_value,
                    source: *source,
                    destination: *destination,
                })
                &&& flow_no_route(
                    graph@,
                    *source,
                    *destination,
                    target_value.val(),
                    max_hops,
                    max_steps,
                )
            },
        },
{
    let no_route = FlowError::NoRouteFoundError {
        requested: target_value,
        source: *source,
        destination: *destination,
    };
    if *source == *destination {
        let steps: Vec<TransferStep> = Vec::new();
        return Ok((U256::zero(), steps));
    }
    if target_value.is_zero() {
        return Err(no_route);
    }
    let n = graph.edge_count();
    let mut res: Vec<U256> = Vec::new();
    let mut i: usize = 0;
    while i < n
        invariant
            i <= n,
            n == graph@.len(),
            res@.len() == i,
            forall|j: int| 0 <= j < i ==> res@[j] == (#[trigger] graph@[j]).capacity,
        decreases n - i,
    {
        res.push(graph.edge_at(i).capacity);
        i = i + 1;
    }
    let ghost caps = capacities(graph@);
    proof {
        assert(residual_vals(res@) =~= caps);
    }
    let fuel_base: u64 = match max_hops {
        Some(k) => k,
        None => n as u64,
    };
    let ghost hopl = hop_limit(max_hops, graph@.len());
    let ghost sfuel = search_fuel(max_hops, max_steps, graph@.len());
    let mut steps: Vec<TransferStep> = Vec::new();
    let mut routed = U256::zero();
    let ghost mut chains: Seq<Seq<TransferStep>> = Seq::empty();
    proof {
        assert(chains.flatten() =~= Seq::<TransferStep>::empty());
        assert(steps@ == chains.flatten());
        assert forall|i: int| 0 <= i < n implies routed_on(steps@, #[trigger] graph@[i]) + (
        res@[i]).val() == caps[i] by {
            assert(routed_on(steps@, graph@[i]) == 0);
        }
    }
    loop
        invariant
            n == graph@.len(),
            res@.len() == n,
            *source != *destination,
            target_value.val() > 0,
            routed.val() <= target_value.val(),
            forall|j: int| 0 <= j < n ==> (#[trigger] res@[j]).val() <= graph@[j].capacity.val(),
            steps@ == chains.flatten(),
            good_decomposition(chains, *source, *destination, hopl),
            chains_value(chains) == routed.val(),
            edges_wf(graph@) ==> forall|q: int|
                0 <= q < chains.len() ==> (chains_value(#[trigger] chains.take(q + 1))
                    == target_value.val() || chain_saturates(
                    graph@,
                    chains.take(q + 1).flatten(),
                    chains[q],
                )),
            forall|j: int|
                0 <= j < steps@.len() ==> step_respects_graph(graph@, #[trigger] steps@[j]),
            edges_wf(graph@) ==> forall|i: int|
                0 <= i < n ==> routed_on(steps@, #[trigger] graph@[i]) + (res@[i]).val()
                    == caps[i],
            match max_steps {
                Some(m) => steps@.len() <= m as nat,
                None => true,
            },
            routed.val() == 0 ==> steps@.len() == 0 && residual_vals(res@) == caps,
            routed.val() > 0 ==> reachable(
                graph@,
                caps,
                seq![*source],
                *source,
                *destination,
                sfuel,
            ),
            caps == capacities(graph@),
            hopl == hop_limit(max_hops, graph@.len()),
            sfuel == search_fuel(max_hops, max_steps, graph@.len()),
            fuel_base as nat == hopl,
        ensures
            routed.val() <= target_value.val(),
            steps@ == chains.flatten(),
            good_decomposition(chains, *source, *destination, hopl),
            chains_value(chains) == routed.val(),
            edges_wf(graph@) ==> forall|q: int|
                0 <= q < chains.len() ==> (chains_value(#[trigger] chains.take(q + 1))
                    == target_value.val() || chain_saturates(
                    graph@,
                    chains.take(q + 1).flatten(),
                    chains[q],
                )),
            forall|j: int|
                0 <= j < steps@.len() ==> step_respects_graph(graph@, #[trigger] steps@[j]),
            edges_wf(graph@) ==> forall|i: int|
                0 <= i < n ==> routed_on(steps@, #[trigger] graph@[i]) + (res@[i]).val()
                    == caps[i],
            match max_steps {
                Some(m) => steps@.len() <= m as nat,
                None => true,
            },
            routed.val() == 0 ==> !reachable(
                graph@,
                caps,
                seq![*source],
                *source,
                *destination,
                sfuel,
            ),
            routed.val() < target_value.val() ==> !reachable(
                graph@,
                residual_vals(res@),
                seq![*source],
                *source,
                *destination,
                left_fuel(max_hops, max_steps, n as nat, steps@.len()),
            ),
            routed.val() > 0 ==> reachable(
                graph@,
                caps,
                seq![*source],
                *source,
                *destination,
                sfuel,
            ),
        decreases target_value.val() - routed.val(),
    {
        let remaining = target_value.sub_val(routed);
        if remaining.is_zero() {
            break;
        }
        let fuel: u64 = match max_steps {
            Some(m) => {
                let used: u64 = steps.len() as u64;
                let budget: u64 = m - used;
                if fuel_base < budget {
                    fuel_base
                } else {
                    budget
                }
            },
            None => fuel_base,
        };
        if fuel == 0 {
            proof {
                if routed.val() == 0 {
                    assert(sfuel == 0);
                }
                assert(left_fuel(max_hops, max_steps, n as nat, steps@.len()) == 0);
                assert(!reachable(
                    graph@,
                    residual_vals(res@),
                    seq![*source],
                    *source,
                    *destination,
                    0,
                ));
            }
            break;
        }
        let mut visited: Vec<Address> = Vec::new();
        visited.push(*source);
        proof {
            assert(visited@ =~= seq![*source]);
        }
        match find_path(graph, &res, &visited, *source, *destination, fuel) {
            None => {
                proof {
                    assert(fuel as nat == left_fuel(max_hops, max_steps, n as nat, steps@.len()));
                    if routed.val() == 0 {
                        assert(fuel as nat == sfuel);
                        assert(residual_vals(res@) == caps);
                    }
                }
                break;
            },
            Some(path) => {
                proof {
                    assert(visited@[0] == *source);
                    if routed.val() == 0 {
                        assert(fuel as nat == sfuel);
                        lemma_path_reachable(
                            graph@,
                            residual_vals(res@),
                            visited@,
                            path@,
                            *source,
                            *destination,
                            fuel as nat,
                        );
                    }
                }
                let ghost pre_steps = steps@;
                let ghost res_before = res@;
                let v = augment(
                    graph,
                    &mut res,
                    &mut steps,
                    &path,
                    remaining,
                    source,
                    destination,
                    Ghost(visited@),
                );
                proof {
                    let chain = path_chain(graph@, path@, v);
                    if edges_wf(graph@) {
                        lemma_path_shape(
                            graph@,
                            residual_vals(res_before),
                            visited@,
                            path@,
                            *source,
                            *destination,
                        );
                        lemma_path_distinct(
                            graph@,
                            residual_vals(res_before),
                            visited@,
                            path@,
                            *source,
                            *destination,
                        );
                        assert forall|i: int| 0 <= i < n implies routed_on(
                            steps@,
                            #[trigger] graph@[i],
                        ) + (res@[i]).val() == caps[i] by {
                            lemma_routed_on_concat(pre_steps, chain, graph@[i]);
                            lemma_chain_routed_on(graph@, path@, v, i);
                            if index_in_prefix(path@, path@.len() as int, i) {
                                let j = choose|j: int|
                                    0 <= j < path@.len() && #[trigger] path@[j] as int == i;
                                assert((res@[path@[j] as int]).val() == (
                                res_before[path@[j] as int]).val() - v.val());
                            } else {
                                assert(res@[i] == res_before[i]);
                            }
                        }
                    }
                    let ghost old_chains = chains;
                    old_chains.lemma_flatten_push(chain);
                    chains = chains.push(chain);
                    assert(chains.drop_last() =~= old_chains);
                    assert(chains.last() == chain);
                    assert(chains_value(chains) == chains_value(old_chains) + v.val());
                    assert(good_chain(chain, *source, *destination, hopl));
                    assert forall|q: int| 0 <= q < chains.len() implies good_chain(
                        #[trigger] chains[q],
                        *source,
                        *destination,
                        hopl,
                    ) by {
                        if q < old_chains.len() {
                            assert(chains[q] == old_chains[q]);
                        } else {
                            assert(chains[q] == chain);
                        }
                    }
                    if edges_wf(graph@) {
                        assert(chains_value(chains) == target_value.val() || chain_saturates(
                            graph@,
                            steps@,
                            chain,
                        )) by {
                            if v.val() == remaining.val() {
                                assert(chains_value(chains) == target_value.val());
                            } else {
                                let j = choose|j: int|
                                    0 <= j < path@.len() && (
                                    res@[#[trigger] path@[j] as int]).val() == 0;
                                let ei = path@[j] as int;
                                assert(routed_on(steps@, graph@[ei]) + (res@[ei]).val()
                                    == caps[ei]);
                                assert(routed_on(steps@, graph@[ei])
                                    == graph@[ei].capacity.val());
                                assert(chain[j].from == graph@[ei].from && chain[j].to
                                    == graph@[ei].to && chain[j].token == graph@[ei].token);
                                assert(chain_saturates(graph@, steps@, chain));
                            }
                        }
                        lemma_greedy_push(graph@, old_chains, chain, target_value.val());
                    }
                    crate::value::lemma_val_bounds(target_value);
                }
                routed = routed.add_val(v);
            },
        }
    }
    if routed.is_zero() {
        return Err(no_route);
    }
    proof {
        if edges_wf(graph@) && routed.val() < target_value.val() {
            let rest = residual_vals(res@);
            assert(rest.len() == graph@.len());
            assert(forall|i: int|
                0 <= i < graph@.len() ==> routed_on(steps@, #[trigger] graph@[i]) + rest[i]
                    == graph@[i].capacity.val());
            assert(!reachable(
                graph@,
                rest,
                seq![*source],
                *source,
                *destination,
                left_fuel(max_hops, max_steps, graph@.len(), steps@.len()),
            ));
        }
        assert forall|a: Address| a != *source && a != *destination implies inflow(steps@, a)
            == outflow(steps@, a) by {
            lemma_decomposition_flow(chains, *source, *destination, hopl, a);
        }
        lemma_decomposition_flow(chains, *source, *destination, hopl, *source);
        lemma_decomposition_flow(chains, *source, *destination, hopl, *destination);
    }
    Ok((routed, steps))
}

} // verus!
