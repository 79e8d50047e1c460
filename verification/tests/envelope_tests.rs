//! Tests for the response envelope and the handle-cloning helpers.

use std::sync::Arc;

use bllvm_node::arcutil::{arc_clone_many, arc_clone_pair};
use bllvm_node::rest::ApiResponse;

#[test]
fn test_api_response_success() {
    let r = ApiResponse::success(41u64, "1700000000".to_string(), Some("req-1".to_string()));
    assert_eq!(r.data, 41);
    assert_eq!(r.meta.timestamp, "1700000000");
    assert_eq!(r.meta.version, "1.0");
    assert_eq!(r.meta.request_id, Some("req-1".to_string()));
    assert!(r.links.is_none());
}

#[test]
fn test_api_response_with_links() {
    let r = ApiResponse::success(1u32, "0".to_string(), None)
        .with_links(vec![("self".to_string(), "/api/v1/chain/tip".to_string())]);
    let links = r.links.unwrap();
    assert_eq!(links.len(), 1);
    assert_eq!(links[0].0, "self");
    assert_eq!(links[0].1, "/api/v1/chain/tip");
}

#[test]
fn test_arc_clone_pair() {
    let a = Arc::new(5u64);
    let b = Arc::new("x".to_string());
    let (a2, b2) = arc_clone_pair((&a, &b));
    assert_eq!(*a2, 5);
    assert_eq!(*b2, "x");
    assert_eq!(Arc::strong_count(&a), 2);
}

#[test]
fn test_arc_clone_many() {
    let a = Arc::new(1u8);
    let b = Arc::new(2u16);
    let c = Arc::new(3u32);
    let (a2, b2, c2) = arc_clone_many((&a, &b, &c));
    assert_eq!(*a2, 1);
    assert_eq!(*b2, 2);
    assert_eq!(*c2, 3);
    assert_eq!(Arc::strong_count(&c), 2);
}
