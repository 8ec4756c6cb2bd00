//! Types of the crates that this library calls.

use vstd::prelude::*;

verus! {

/// The error of the `ip` crate.
#[verifier::external_type_specification]
#[verifier::external_body]
pub struct ExIpError(ip::Error);

/// The error of the decoders of the `rasn` crate.
#[verifier::external_type_specification]
#[verifier::external_body]
pub struct ExDecodeError(rasn::error::DecodeError);

} // verus!
