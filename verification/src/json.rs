//! Declarations for the outside JSON types that flow through the engine.
//!
//! Node parameters are opaque structured data (`serde_json::Value`) and a
//! node definition carries JSON schemas (`schemars::Schema`) describing its
//! input and output. The engine never looks inside these values; it stores
//! them and hands them to runners.

use vstd::prelude::*;

verus! {

/// Declares `serde_json::Value` so it can stand in fields and signatures.
#[verifier::external_type_specification]
#[verifier::external_body]
pub struct ExValue(serde_json::Value);

/// Declares `schemars::Schema` so it can stand in fields and signatures.
#[verifier::external_type_specification]
#[verifier::external_body]
pub struct ExSchema(schemars::Schema);

/// Relies on the derived `Clone` of `schemars::Schema`: the copy is the
/// same value as the original.
#[verifier::external_body]
pub fn clone_schema(s: &schemars::Schema) -> (r: schemars::Schema)
    ensures
        r == *s,
{
    s.clone()
}

} // verus!
