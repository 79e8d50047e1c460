//! The uniform envelope around query results served to callers.

use vstd::prelude::*;

verus! {

/// Metadata attached to every response.
#[derive(Debug, Clone)]
pub struct ResponseMeta {
    /// The response time, Unix seconds as a decimal string.
    pub timestamp: String,
    /// The API version.
    pub version: String,
    /// A request id for tracing, when the caller sent one.
    pub request_id: Option<String>,
}

/// The uniform envelope of a successful response.
#[derive(Debug)]
pub struct ApiResponse<T> {
    pub data: T,
    pub meta: ResponseMeta,
    pub links: Option<Vec<(String, String)>>,
}

impl<T> ApiResponse<T> {
    /// An envelope around `data`. The caller supplies its clock reading as
    /// a decimal string; the version is fixed.
    pub fn success(data: T, timestamp: String, request_id: Option<String>) -> (r: ApiResponse<T>)
        ensures
            r.data == data,
            r.meta.timestamp == timestamp,
            r.meta.version@ == "1.0"@,
            r.meta.request_id == request_id,
            r.links is None,
    {
        ApiResponse {
            data,
            meta: ResponseMeta { timestamp, version: "1.0".to_owned(), request_id },
            links: None,
        }
    }

    /// The same envelope with related-resource links attached.
    pub fn with_links(self, links: Vec<(String, String)>) -> (r: ApiResponse<T>)
        ensures
            r.data == self.data,
            r.meta == self.meta,
            r.links == Some(links),
    {
        ApiResponse { data: self.data, meta: self.meta, links: Some(links) }
    }
}

} // verus!
