//! Identifiers for new rows.

use vstd::prelude::*;

verus! {

/// Draws a random identifier for a new row.
///
/// This calls `uuid::Uuid::new_v4` and renders the result with `to_string`,
/// which writes the hyphenated form: 32 lower-case hexadecimal digits in
/// groups of 8, 4, 4, 4 and 12, 36 characters in all. The length is all that
/// is claimed of the result; two calls may give any two such strings. The
/// call panics where the operating system cannot supply random bytes.
#[verifier::external_body]
pub(crate) fn fresh_id() -> (id: String)
    ensures
        id@.len() == 36,
{
    uuid::Uuid::new_v4().to_string()
}

} // verus!
