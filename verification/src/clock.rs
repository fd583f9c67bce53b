//! The time and fresh identifiers, as the outside world gives them.
use vstd::prelude::*;

verus! {

/// `chrono::Utc::now` and `DateTime::to_rfc3339`: the present time as a text.
/// What it says depends on the clock.
#[verifier::external_body]
pub(crate) fn now_rfc3339() -> (r: String) {
    chrono::Utc::now().to_rfc3339()
}

/// `uuid::Uuid::new_v4` in its hyphenated form, which has 36 characters. What
/// else it says depends on chance.
#[verifier::external_body]
pub(crate) fn new_uuid() -> (r: String)
    ensures
        r@.len() == 36,
{
    uuid::Uuid::new_v4().to_string()
}

} // verus!
