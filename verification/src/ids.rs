//! Random identifiers, made by the `uuid` crate.

use vstd::prelude::*;

verus! {

/// `uuid::Uuid::new_v4().to_string()`: a random version-4 UUID in its
/// hyphenated lowercase form, which the crate writes as 36 ASCII
/// characters. The value is random, so nothing more is stated.
#[verifier::external_body]
pub(crate) fn uuid_v4_text() -> (s: String)
    ensures
        s@.len() == 36,
{
    uuid::Uuid::new_v4().to_string()
}

} // verus!
