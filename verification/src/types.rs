//! The shape of the payload served by the read endpoint.
use vstd::prelude::*;

use crate::sources::Post;
use crate::sources::posts_view;

verus! {

/// The body of a successful read: the published snapshot.
pub struct JsonResponse {
    pub response: Vec<Post>,
}

impl JsonResponse {
    /// Wraps a snapshot for serving.
    pub fn new(response: Vec<Post>) -> (r: JsonResponse)
        ensures
            posts_view(r.response@) == posts_view(response@),
    {
        JsonResponse { response }
    }
}

} // verus!
