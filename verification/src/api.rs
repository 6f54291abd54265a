//! The request-level entry point: one flow query against a pinned snapshot.
//!
//! Boundary validation runs before any graph access, in the order the
//! protocol fixes: the snapshot's presence, then the value string, then the
//! two address strings. The `iterative` flag is a caller-selectable hint;
//! the engine makes a single unbounded attempt either way, and reports that
//! the attempt was the final, unbounded one.

use vstd::prelude::*;
use crate::account::{is_valid_address_string, spec_address_of, validate_and_parse_ethereum_address};
use crate::errors::FlowError;
use crate::flow::{compute_flow, flow_no_route, flow_ok};
use crate::graph::TransferStep;
use crate::store::RequestContext;
use crate::value::{dec_value, is_decimal_numeral, validate_and_parse_u256, U256};

verus! {

/// The result of one flow query: the deliverable value, whether the bound
/// used was the final (unbounded) attempt, and the transfer plan.
pub struct FlowResponse {
    pub max_flow_value: U256,
    pub final_attempt: bool,
    pub transfer_steps: Vec<TransferStep>,
}

/// The target a query's optional value string denotes: the number it spells,
/// or the maximum representable value when absent ("unbounded").
pub open spec fn spec_target(value: Option<&str>) -> nat {
    match value {
        Some(vs) => dec_value(vs@),
        None => U256::max_val(),
    }
}

/// Answers one flow query against the context's pinned snapshot.
///
/// Fails with `NoGraphLoadedError` before any other work when no snapshot
/// has been loaded; then rejects a malformed or out-of-range value string,
/// then a malformed origin address, then a malformed destination address;
/// and otherwise computes the flow, reporting `NoRouteFoundError` when no
/// value is routable. A degenerate request from an account to itself is
/// answered with trivially zero flow and an empty plan.
#[allow(unused_variables)]
pub fn compute_transfer(
    ctx: &RequestContext,
    value: Option<&str>,
    from: &str,
    to: &str,
    iterative: bool,
    max_transfers: Option<u64>,
) -> (r: Result<FlowResponse, FlowError>)
    ensures
        match r {
            Ok(resp) => {
                &&& ctx.snapshot() matches Some(edges) && flow_ok(
                    edges,
                    spec_address_of(from@),
                    spec_address_of(to@),
                    spec_target(value),
                    None,
                    max_transfers,
                    resp.max_flow_value,
                    resp.transfer_steps@,
                )
                &&& (value matches Some(vs) ==> is_decimal_numeral(vs@) && dec_value(vs@)
                    <= U256::max_val())
                &&& is_valid_address_string(from@)
                &&& is_valid_address_string(to@)
                &&& resp.final_attempt == true
            },
            Err(e) => {
                ||| {
                    &&& e == FlowError::NoGraphLoadedError
                    &&& ctx.snapshot() is None
                }
                ||| {
                    &&& ctx.snapshot() is Some
                    &&& e == FlowError::ValueFormatError
                    &&& value matches Some(vs) && !is_decimal_numeral(vs@)
                }
                ||| {
                    &&& ctx.snapshot() is Some
                    &&& e == FlowError::ValueRangeError
                    &&& value matches Some(vs) && is_decimal_numeral(vs@) && dec_value(vs@)
                        > U256::max_val()
                }
                ||| {
                    &&& ctx.snapshot() is Some
                    &&& value matches Some(vs) ==> is_decimal_numeral(vs@) && dec_value(vs@)
                        <= U256::max_val()
                    &&& e == FlowError::AddressFormatError
                    &&& !is_valid_address_string(from@) || !is_valid_address_string(to@)
                }
                ||| {
                    &&& value matches Some(vs) ==> is_decimal_numeral(vs@) && dec_value(vs@)
                        <= U256::max_val()
                    &&& is_valid_address_string(from@)
                    &&& is_valid_address_string(to@)
                    &&& e matches FlowError::NoRouteFoundError {
                        requested,
                        source,
                        destination,
                    } && requested.val() == spec_target(value) && source == spec_address_of(from@)
                        && destination == spec_address_of(to@)
                    &&& ctx.snapshot() matches Some(edges) && flow_no_route(
                        edges,
                        spec_address_of(from@),
                        spec_address_of(to@),
                        spec_target(value),
                        None,
                        max_transfers,
                    )
                }
            },
        },
{
    let graph = match ctx.graph() {
        None => {
            return Err(FlowError::NoGraphLoadedError);
        },
        Some(g) => g,
    };
    let target = match value {
        Some(vs) => match validate_and_parse_u256(vs) {
            Ok(v) => v,
            Err(e) => {
                return Err(e);
            },
        },
        None => U256::max_value(),
    };
    let from_addr = match validate_and_parse_ethereum_address(from) {
        Ok(a) => a,
        Err(e) => {
            return Err(e);
        },
    };
    let to_addr = match validate_and_parse_ethereum_address(to) {
        Ok(a) => a,
        Err(e) => {
            return Err(e);
        },
    };
    match compute_flow(&from_addr, &to_addr, graph, target, None, max_transfers) {
        Ok((flow, steps)) => Ok(
            FlowResponse { max_flow_value: flow, final_attempt: true, transfer_steps: steps },
        ),
        Err(e) => Err(e),
    }
}

} // verus!
