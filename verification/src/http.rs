//! The HTTP relay's data model. The relay itself is one POST with a fixed
//! five-second timeout and a `Content-Type: application/json` header; the
//! request is network work and belongs to the host program, which hands
//! the outcome back as the status code and the body text held here.

use vstd::prelude::*;

verus! {

/// What a relayed POST returned: the numeric status code and the response
/// body, lossily decoded to text.
pub struct HttpResponse {
    pub status: u16,
    pub data: String,
}

impl HttpResponse {
    /// Packs a status code and body text, unchanged.
    pub fn new(status: u16, data: String) -> (r: HttpResponse)
        ensures
            r.status == status,
            r.data@ == data@,
    {
        HttpResponse { status, data }
    }
}

} // verus!
