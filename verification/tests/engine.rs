use pathfinder::account::{validate_and_parse_ethereum_address, Address};
use pathfinder::api::compute_transfer;
use pathfinder::errors::FlowError;
use pathfinder::flow::compute_flow;
use pathfinder::graph::{Edge, Graph, TransferStep};
use pathfinder::store::{load_safes_binary, RequestContext, VersionedStore};
use pathfinder::value::U256;

fn addr(tag: u32) -> Address {
    Address { w0: 0, w1: 0, w2: tag }
}

fn edge(from: Address, to: Address, token: Address, cap: u64) -> Edge {
    Edge { from, to, token, capacity: U256::from_u64(cap) }
}

fn hex_of(tag: u32) -> String {
    // 40 hex digits, the last eight spelling `tag`.
    format!("0x{}{:08x}", "0".repeat(32), tag)
}

fn inflow(steps: &[TransferStep], a: Address) -> u64 {
    steps.iter().filter(|s| s.to == a).map(|s| s.value.l0).sum()
}

fn outflow(steps: &[TransferStep], a: Address) -> u64 {
    steps.iter().filter(|s| s.from == a).map(|s| s.value.l0).sum()
}

#[test]
fn empty_store_query_fails_no_graph_loaded() {
    let store = VersionedStore::new();
    let ctx = RequestContext::new(&store);
    assert!(!ctx.has_graph());
    let r = compute_transfer(&ctx, Some("100"), &hex_of(1), &hex_of(2), false, None);
    assert_eq!(r.err().unwrap(), FlowError::NoGraphLoadedError);
}

#[test]
fn single_edge_caps_achieved_value() {
    // A -> B with token T and capacity 50; target 100 delivers 50 in one step.
    let a = addr(1);
    let b = addr(2);
    let t = addr(9);
    let mut store = VersionedStore::new();
    let count = load_safes_binary(&mut store, vec![edge(a, b, t, 50)]);
    assert_eq!(count, 1);
    let ctx = RequestContext::new(&store);
    let resp = compute_transfer(&ctx, Some("100"), &hex_of(1), &hex_of(2), false, None).unwrap();
    assert_eq!(resp.max_flow_value, U256::from_u64(50));
    assert!(resp.final_attempt);
    assert_eq!(resp.transfer_steps.len(), 1);
    let step = resp.transfer_steps[0];
    assert_eq!(step.from, a);
    assert_eq!(step.to, b);
    assert_eq!(step.token, t);
    assert_eq!(step.value, U256::from_u64(50));
}

#[test]
fn two_hop_chain_conserves_at_intermediate() {
    // A -> B (T,30), B -> C (T,30); query A -> C, target 100, no hop bound.
    let a = addr(1);
    let b = addr(2);
    let c = addr(3);
    let t = addr(9);
    let mut store = VersionedStore::new();
    load_safes_binary(&mut store, vec![edge(a, b, t, 30), edge(b, c, t, 30)]);
    let ctx = RequestContext::new(&store);
    let resp = compute_transfer(&ctx, Some("100"), &hex_of(1), &hex_of(3), false, None).unwrap();
    assert_eq!(resp.max_flow_value, U256::from_u64(30));
    assert_eq!(resp.transfer_steps.len(), 2);
    assert_eq!(inflow(&resp.transfer_steps, b), 30);
    assert_eq!(outflow(&resp.transfer_steps, b), 30);
    assert_eq!(inflow(&resp.transfer_steps, c), 30);
    assert_eq!(outflow(&resp.transfer_steps, a), 30);
}

#[test]
fn hop_bound_excludes_indirect_route() {
    // Same chain graph; a direct route does not exist, so max_hops = 1 fails.
    let a = addr(1);
    let b = addr(2);
    let c = addr(3);
    let t = addr(9);
    let g = Graph::new(vec![edge(a, b, t, 30), edge(b, c, t, 30)]);
    let r = compute_flow(&a, &c, &g, U256::from_u64(100), Some(1), None);
    assert_eq!(
        r.err().unwrap(),
        FlowError::NoRouteFoundError { requested: U256::from_u64(100), source: a, destination: c }
    );
    // With two hops allowed the route exists again.
    let (flow, steps) = compute_flow(&a, &c, &g, U256::from_u64(100), Some(2), None).unwrap();
    assert_eq!(flow, U256::from_u64(30));
    assert_eq!(steps.len(), 2);
}

#[test]
fn invalid_hex_address_rejected_before_graph_access() {
    let bad = format!("0x{}", "Z".repeat(40));
    assert_eq!(
        validate_and_parse_ethereum_address(&bad).err().unwrap(),
        FlowError::AddressFormatError
    );
    // Through the request path, with a graph loaded, the same rejection.
    let mut store = VersionedStore::new();
    load_safes_binary(&mut store, vec![edge(addr(1), addr(2), addr(9), 50)]);
    let ctx = RequestContext::new(&store);
    let r = compute_transfer(&ctx, Some("10"), &bad, &hex_of(2), false, None);
    assert_eq!(r.err().unwrap(), FlowError::AddressFormatError);
}

#[test]
fn snapshot_isolation_under_replacement() {
    // A context pinned to snapshot S answers from S even after the store
    // installs a different snapshot S2.
    let a = addr(1);
    let b = addr(2);
    let t = addr(9);
    let mut store = VersionedStore::new();
    load_safes_binary(&mut store, vec![edge(a, b, t, 50)]);
    let ctx = RequestContext::new(&store);
    load_safes_binary(&mut store, vec![edge(a, b, t, 7)]);
    let resp = compute_transfer(&ctx, Some("100"), &hex_of(1), &hex_of(2), false, None).unwrap();
    assert_eq!(resp.max_flow_value, U256::from_u64(50));
    // A fresh context sees the replacement.
    let ctx2 = RequestContext::new(&store);
    let resp2 = compute_transfer(&ctx2, Some("100"), &hex_of(1), &hex_of(2), false, None).unwrap();
    assert_eq!(resp2.max_flow_value, U256::from_u64(7));
}

#[test]
fn replace_twice_yields_identical_results() {
    let a = addr(1);
    let b = addr(2);
    let t = addr(9);
    let mut store_once = VersionedStore::new();
    let mut store_twice = VersionedStore::new();
    store_once.replace(Graph::new(vec![edge(a, b, t, 50)]));
    store_twice.replace(Graph::new(vec![edge(a, b, t, 50)]));
    store_twice.replace(Graph::new(vec![edge(a, b, t, 50)]));
    let r1 = compute_transfer(
        &RequestContext::new(&store_once),
        Some("100"),
        &hex_of(1),
        &hex_of(2),
        false,
        None,
    )
    .unwrap();
    let r2 = compute_transfer(
        &RequestContext::new(&store_twice),
        Some("100"),
        &hex_of(1),
        &hex_of(2),
        false,
        None,
    )
    .unwrap();
    assert_eq!(r1.max_flow_value, r2.max_flow_value);
    assert_eq!(r1.transfer_steps, r2.transfer_steps);
}

#[test]
fn parallel_tokens_route_together() {
    // Two edges between the same pair for different tokens both carry value.
    let a = addr(1);
    let b = addr(2);
    let t1 = addr(8);
    let t2 = addr(9);
    let g = Graph::new(vec![edge(a, b, t1, 20), edge(a, b, t2, 30)]);
    let (flow, steps) = compute_flow(&a, &b, &g, U256::from_u64(100), None, None).unwrap();
    assert_eq!(flow, U256::from_u64(50));
    assert_eq!(steps.len(), 2);
    let mut tokens: Vec<Address> = steps.iter().map(|s| s.token).collect();
    tokens.sort_by_key(|t| t.w2);
    assert_eq!(tokens, vec![t1, t2]);
    for s in &steps {
        let cap = if s.token == t1 { 20 } else { 30 };
        assert!(s.value.l0 <= cap);
        assert!(s.value.l0 > 0);
    }
}

#[test]
fn target_reached_stops_routing() {
    // Capacity 80 available, target 10: exactly the target is delivered.
    let a = addr(1);
    let b = addr(2);
    let g = Graph::new(vec![edge(a, b, addr(9), 80)]);
    let (flow, steps) = compute_flow(&a, &b, &g, U256::from_u64(10), None, None).unwrap();
    assert_eq!(flow, U256::from_u64(10));
    assert_eq!(steps.len(), 1);
    assert_eq!(steps[0].value, U256::from_u64(10));
}

#[test]
fn max_steps_truncates_to_whole_paths() {
    // Two disjoint two-hop routes; a budget of three steps keeps only one
    // whole route (two steps), never half of the second.
    let a = addr(1);
    let b = addr(2);
    let c = addr(3);
    let d = addr(4);
    let t = addr(9);
    let g = Graph::new(vec![
        edge(a, b, t, 10),
        edge(b, d, t, 10),
        edge(a, c, t, 10),
        edge(c, d, t, 10),
    ]);
    let (flow, steps) = compute_flow(&a, &d, &g, U256::from_u64(100), None, Some(3)).unwrap();
    assert_eq!(flow, U256::from_u64(10));
    assert_eq!(steps.len(), 2);
    // With a budget of four both routes fit.
    let (flow4, steps4) = compute_flow(&a, &d, &g, U256::from_u64(100), None, Some(4)).unwrap();
    assert_eq!(flow4, U256::from_u64(20));
    assert_eq!(steps4.len(), 4);
    // Conservation holds on the truncated plan too.
    assert_eq!(inflow(&steps, b) + inflow(&steps, c), outflow(&steps, b) + outflow(&steps, c));
}

#[test]
fn source_equals_destination_returns_trivial_zero() {
    // A degenerate request from an account to itself: a defined result,
    // trivially zero flow with an empty plan, never an error.
    let a = addr(1);
    let g = Graph::new(vec![edge(a, addr(2), addr(9), 50)]);
    let (flow, steps) = compute_flow(&a, &a, &g, U256::from_u64(10), None, None).unwrap();
    assert_eq!(flow, U256::zero());
    assert!(steps.is_empty());
    // Through the request path too.
    let mut store = VersionedStore::new();
    load_safes_binary(&mut store, vec![edge(a, addr(2), addr(9), 50)]);
    let ctx = RequestContext::new(&store);
    let resp = compute_transfer(&ctx, Some("10"), &hex_of(1), &hex_of(1), false, None).unwrap();
    assert_eq!(resp.max_flow_value, U256::zero());
    assert!(resp.transfer_steps.is_empty());
}

#[test]
fn zero_target_is_no_route() {
    // A zero target routes nothing, and a zero-value plan is never reported
    // as success for distinct endpoints.
    let a = addr(1);
    let b = addr(2);
    let g = Graph::new(vec![edge(a, b, addr(9), 50)]);
    let r = compute_flow(&a, &b, &g, U256::zero(), None, None);
    assert_eq!(
        r.err().unwrap(),
        FlowError::NoRouteFoundError { requested: U256::zero(), source: a, destination: b }
    );
}

#[test]
fn zero_capacity_edges_are_excluded_on_load() {
    let a = addr(1);
    let b = addr(2);
    let mut store = VersionedStore::new();
    let count = load_safes_binary(
        &mut store,
        vec![edge(a, b, addr(8), 0), edge(a, b, addr(9), 5)],
    );
    assert_eq!(count, 1);
    let ctx = RequestContext::new(&store);
    let resp = compute_transfer(&ctx, None, &hex_of(1), &hex_of(2), false, None).unwrap();
    assert_eq!(resp.max_flow_value, U256::from_u64(5));
}

#[test]
fn diamond_graph_respects_bottleneck() {
    // A->B 10, A->C 10, B->D 4, C->D 10: deliverable is 14.
    let a = addr(1);
    let b = addr(2);
    let c = addr(3);
    let d = addr(4);
    let t = addr(9);
    let g = Graph::new(vec![
        edge(a, b, t, 10),
        edge(a, c, t, 10),
        edge(b, d, t, 4),
        edge(c, d, t, 10),
    ]);
    let (flow, steps) = compute_flow(&a, &d, &g, U256::from_u64(1000), None, None).unwrap();
    assert_eq!(flow, U256::from_u64(14));
    assert_eq!(inflow(&steps, b), outflow(&steps, b));
    assert_eq!(inflow(&steps, c), outflow(&steps, c));
    assert_eq!(inflow(&steps, d), 14);
    assert_eq!(outflow(&steps, a), 14);
    // Per-edge totals never exceed capacity.
    let routed_bd: u64 = steps.iter().filter(|s| s.from == b && s.to == d).map(|s| s.value.l0).sum();
    assert!(routed_bd <= 4);
}

#[test]
fn validation_order_matches_the_protocol() {
    // Missing snapshot wins over a malformed value; a malformed value wins
    // over a malformed address; the origin address is checked before the
    // destination.
    let store = VersionedStore::new();
    let ctx = RequestContext::new(&store);
    let r = compute_transfer(&ctx, Some("bogus"), "nope", "nope", false, None);
    assert_eq!(r.err().unwrap(), FlowError::NoGraphLoadedError);
    let mut store = VersionedStore::new();
    load_safes_binary(&mut store, vec![edge(addr(1), addr(2), addr(9), 50)]);
    let ctx = RequestContext::new(&store);
    let r = compute_transfer(&ctx, Some("bogus"), "nope", "nope", false, None);
    assert_eq!(r.err().unwrap(), FlowError::ValueFormatError);
    let r = compute_transfer(&ctx, Some("10"), "nope", &hex_of(2), false, None);
    assert_eq!(r.err().unwrap(), FlowError::AddressFormatError);
}

#[test]
fn no_route_error_carries_the_request() {
    // Two unconnected accounts: the failure names the requested value and
    // both endpoints.
    let g = Graph::new(vec![edge(addr(1), addr(2), addr(9), 50)]);
    let r = compute_flow(&addr(3), &addr(4), &g, U256::from_u64(25), None, None);
    assert_eq!(
        r.err().unwrap(),
        FlowError::NoRouteFoundError {
            requested: U256::from_u64(25),
            source: addr(3),
            destination: addr(4)
        }
    );
}
