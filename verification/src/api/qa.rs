use vstd::prelude::*;

verus! {

/// The body of a question sent to the service.
pub struct QAQuery {
    pub query: String,
}

} // verus!
