use vstd::prelude::*;

verus! {

/// The body of a query sent to the service.
pub struct Query {
    pub query: String,
}

} // verus!
