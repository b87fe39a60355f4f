use vstd::prelude::*;

verus! {

/// Relies on `uuid::Uuid::new_v4`, rendered through its `Display`
/// form: a randomly drawn version-4 UUID string.  The value is random,
/// so nothing is assumed of it; every caller checks the drawn id
/// against the store before using it as a fresh local id.
#[verifier::external_body]
pub(crate) fn new_local_id() -> (r: String) {
    uuid::Uuid::new_v4().to_string()
}

} // verus!
