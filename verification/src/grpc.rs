//! The gRPC face of the search service: how search errors become gRPC
//! statuses, and the service wrapper that the gRPC handlers are defined on.

use std::sync::Arc;

use vstd::prelude::*;

verus! {

/// The errors of the search service. The payload of the last three variants
/// is the debug rendering of the underlying error.
#[derive(Debug, PartialEq, Eq)]
pub enum SearchError {
    IndexDoesNotExist { index_id: String },
    InternalError(String),
    StorageResolverError(String),
    InvalidQuery(String),
}

/// The gRPC status codes that search errors map to.
#[derive(Clone, Copy, Debug, PartialEq, Eq)]
pub enum StatusCode {
    NotFound,
    Internal,
    InvalidArgument,
}

/// A gRPC status: a code and a message.
#[derive(Debug, PartialEq, Eq)]
pub struct GrpcStatus {
    pub code: StatusCode,
    pub message: String,
}

/// The code and the message that a search error is answered with.
pub open spec fn status_of(search_error: SearchError) -> (StatusCode, Seq<char>) {
    match search_error {
        SearchError::IndexDoesNotExist { index_id } => (
            StatusCode::NotFound,
            "Index not found "@ + index_id@,
        ),
        SearchError::InternalError(error) => (StatusCode::Internal, "Internal error: "@ + error@),
        SearchError::StorageResolverError(error) => (
            StatusCode::Internal,
            "Failed to resolve storage uri "@ + error@,
        ),
        SearchError::InvalidQuery(error) => (
            StatusCode::InvalidArgument,
            "Invalid query: "@ + error@,
        ),
    }
}

fn prefixed(prefix: &str, text: &str) -> (r: String)
    ensures
        r@ == prefix@ + text@,
{
    let mut r = String::from_str(prefix);
    r.append(text);
    r
}

/// Converts a search error into the gRPC status it is answered with.
pub fn convert_error_to_tonic_status(search_error: SearchError) -> (status: GrpcStatus)
    ensures
        (status.code, status.message@) == status_of(search_error),
{
    match search_error {
        SearchError::IndexDoesNotExist { index_id } => GrpcStatus {
            code: StatusCode::NotFound,
            message: prefixed("Index not found ", index_id.as_str()),
        },
        SearchError::InternalError(error) => GrpcStatus {
            code: StatusCode::Internal,
            message: prefixed("Internal error: ", error.as_str()),
        },
        SearchError::StorageResolverError(error) => GrpcStatus {
            code: StatusCode::Internal,
            message: prefixed("Failed to resolve storage uri ", error.as_str()),
        },
        SearchError::InvalidQuery(error) => GrpcStatus {
            code: StatusCode::InvalidArgument,
            message: prefixed("Invalid query: ", error.as_str()),
        },
    }
}

/// The gRPC search service, wrapping a search service.
pub struct GrpcSearchServiceImpl<S: ?Sized> {
    service: Arc<S>,
}

impl<S: ?Sized> GrpcSearchServiceImpl<S> {
    pub closed spec fn spec_service(&self) -> Arc<S> {
        self.service
    }

    /// The wrapped search service.
    pub fn service(&self) -> (r: &Arc<S>)
        ensures
            *r == self.spec_service(),
    {
        &self.service
    }
}

impl<S: ?Sized> From<Arc<S>> for GrpcSearchServiceImpl<S> {
    fn from(search_service_arc: Arc<S>) -> (r: GrpcSearchServiceImpl<S>)
        ensures
            r.spec_service() == search_service_arc,
    {
        GrpcSearchServiceImpl { service: search_service_arc }
    }
}

impl<S: ?Sized> vstd::std_specs::convert::FromSpecImpl<Arc<S>> for GrpcSearchServiceImpl<S> {
    open spec fn obeys_from_spec() -> bool {
        true
    }

    closed spec fn from_spec(search_service_arc: Arc<S>) -> GrpcSearchServiceImpl<S> {
        GrpcSearchServiceImpl { service: search_service_arc }
    }
}

} // verus!
