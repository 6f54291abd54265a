//! The error taxonomy of the engine.
//!
//! Boundary validation failures (`ValueFormatError`, `ValueRangeError`,
//! `AddressFormatError`) are reported before any graph access. A query
//! issued before the first load fails with `NoGraphLoadedError`. A query
//! for which no value is routable fails with `NoRouteFoundError`, carrying
//! the request for diagnosis. Arithmetic invariant violations are not part
//! of this taxonomy: the verified operations exclude them.

use vstd::prelude::*;
use crate::account::Address;
use crate::value::U256;

verus! {

#[derive(Clone, Copy, PartialEq, Eq, Structural, Debug)]
pub enum FlowError {
    /// The value string is not an unsigned decimal numeral.
    ValueFormatError,
    /// The value string denotes a number above the 256-bit maximum.
    ValueRangeError,
    /// The address string does not match the fixed hexadecimal pattern.
    AddressFormatError,
    /// No snapshot has been installed yet.
    NoGraphLoadedError,
    /// No value is routable for this request.
    NoRouteFoundError { requested: U256, source: Address, destination: Address },
}

} // verus!
