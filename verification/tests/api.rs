use directive_memory::api::{api_key_accepted, default_top_k, SearchParams};
use directive_memory::error::{ApiError, CoreError, IoFailure};

#[test]
fn api_routes_reject_missing_api_key() {
    assert!(!api_key_accepted("k", None, None));
    assert!(!api_key_accepted("", Some(""), Some("Bearer ")));
}

#[test]
fn api_key_in_header_or_bearer() {
    assert!(api_key_accepted("k", Some("k"), None));
    assert!(api_key_accepted("k", None, Some("Bearer k")));
    assert!(api_key_accepted("k", Some("wrong"), Some("Bearer k")));
    assert!(!api_key_accepted("k", Some("wrong"), Some("bearer k")));
    assert!(!api_key_accepted("k", None, Some("Bearer  k")));
}

#[test]
fn search_params_become_a_query() {
    let p = SearchParams { q: "fencing".into(), top_k: default_top_k(), source_type: None, file_prefix: Some("projects/".into()) };
    let q = p.to_query();
    assert_eq!(q.query, "fencing");
    assert_eq!(q.top_k, 5);
    assert_eq!(q.filter_file, "projects/");
    assert!(q.filter_source_type.is_none());
    let p = SearchParams { q: "x".into(), top_k: 3, source_type: Some("vault".into()), file_prefix: None };
    let q = p.to_query();
    assert_eq!(q.filter_file, "");
    assert_eq!(q.filter_source_type.as_deref(), Some("vault"));
}

#[test]
fn errors_map_to_statuses() {
    let e = ApiError::from_core(&CoreError::InvalidPath("../x".into()));
    assert_eq!((e.status, e.message.as_str()), (400, "invalid path: ../x"));
    let e = ApiError::from_core(&CoreError::Io(IoFailure { not_found: true, message: "gone".into() }));
    assert_eq!((e.status, e.message.as_str()), (404, "file not found"));
    let e = ApiError::from_core(&CoreError::Io(IoFailure { not_found: false, message: "denied".into() }));
    assert_eq!((e.status, e.message.as_str()), (500, "io error: denied"));
    let e = ApiError::from_core(&CoreError::Db("locked".into()));
    assert_eq!((e.status, e.message.as_str()), (500, "database error: locked"));
    let e = ApiError::from_core(&CoreError::Other("boom".into()));
    assert_eq!((e.status, e.message.as_str()), (500, "boom"));
    assert_eq!(CoreError::Migrate("v2".into()).message(), "migration error: v2");
}
