use std::sync::Arc;

use quickwit::grpc::{
    convert_error_to_tonic_status, GrpcSearchServiceImpl, GrpcStatus, SearchError, StatusCode,
};

#[test]
fn index_not_found_status() {
    let status = convert_error_to_tonic_status(SearchError::IndexDoesNotExist {
        index_id: "wiki".to_string(),
    });
    assert_eq!(
        status,
        GrpcStatus { code: StatusCode::NotFound, message: "Index not found wiki".to_string() }
    );
}

#[test]
fn internal_error_status() {
    let status = convert_error_to_tonic_status(SearchError::InternalError("boom".to_string()));
    assert_eq!(status.code, StatusCode::Internal);
    assert_eq!(status.message, "Internal error: boom");
}

#[test]
fn storage_resolver_error_status() {
    let status =
        convert_error_to_tonic_status(SearchError::StorageResolverError("bad uri".to_string()));
    assert_eq!(status.code, StatusCode::Internal);
    assert_eq!(status.message, "Failed to resolve storage uri bad uri");
}

#[test]
fn invalid_query_status() {
    let status = convert_error_to_tonic_status(SearchError::InvalidQuery("syntax".to_string()));
    assert_eq!(status.code, StatusCode::InvalidArgument);
    assert_eq!(status.message, "Invalid query: syntax");
}

#[test]
fn grpc_service_wraps_the_service() {
    let service: Arc<str> = Arc::from("search service");
    let grpc_service = GrpcSearchServiceImpl::from(service.clone());
    assert!(Arc::ptr_eq(grpc_service.service(), &service));
}
