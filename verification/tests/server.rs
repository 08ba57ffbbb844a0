use positorium::error::DatabaseError;
use positorium::server::{
    admit_script, database_error_status, effective_timeout_ms, is_exact_loopback_origin, ServerConfig, MAX_REQUEST_BODY_BYTES,
    MAX_TIMEOUT_MS,
};

#[test]
fn only_exact_loopback_origins_are_accepted() {
    for origin in ["http://localhost:8080", "https://127.0.0.1", "http://[::1]:3000"] {
        assert!(is_exact_loopback_origin(origin), "{origin}");
    }
    for origin in ["*", "http://example.com", "http://localhost.evil", "http://localhost/path", "http://user@localhost"] {
        assert!(!is_exact_loopback_origin(origin), "{origin}");
    }
}

#[test]
fn configuration_enforces_hard_caps() {
    let too_large = ServerConfig::default().with_request_body_bytes(MAX_REQUEST_BODY_BYTES + 1);
    assert!(too_large.validate().is_err());
    let too_slow = ServerConfig::default().with_default_timeout_ms(MAX_TIMEOUT_MS + 1);
    assert!(too_slow.validate().is_err());
}

#[test]
fn default_configuration_is_valid_and_allows_no_origin() {
    let config = ServerConfig::default();
    assert!(config.validate().is_ok());
    assert!(config.allowed_origins().is_empty());
}

#[test]
fn only_loopback_origins_can_be_allowed() {
    let config = ServerConfig::default().allow_loopback_origin("http://127.0.0.1:5173").unwrap();
    assert_eq!(config.allowed_origins().len(), 1);
    assert_eq!(config.allowed_origins()[0], "http://127.0.0.1:5173");
    assert!(matches!(
        ServerConfig::default().allow_loopback_origin("http://example.com"),
        Err(DatabaseError::Config(_))
    ));
}

#[test]
fn requested_timeouts_are_clamped_to_the_maximum() {
    assert_eq!(effective_timeout_ms(None, 5000), 5000);
    assert_eq!(effective_timeout_ms(Some(1234), 5000), 1234);
    assert_eq!(effective_timeout_ms(Some(MAX_TIMEOUT_MS + 10), 5000), MAX_TIMEOUT_MS);
}

#[test]
fn errors_map_to_their_http_status() {
    assert_eq!(database_error_status(&DatabaseError::Timeout), 408);
    assert_eq!(
        database_error_status(&DatabaseError::ResourceLimit { resource: "rows", limit: 1 }),
        413
    );
    assert_eq!(database_error_status(&DatabaseError::Parse { message: "x".to_string(), line: None, col: None }), 400);
    assert_eq!(database_error_status(&DatabaseError::Invariant("x".to_string())), 500);
}

#[test]
fn script_requests_are_admitted_by_version_size_and_timeout() {
    let config = ServerConfig::new().with_default_timeout_ms(2000);
    assert_eq!(admit_script(1, 3, None, &config), Ok(2000));
    assert_eq!(admit_script(1, 3, Some(500), &config), Ok(500));
    assert_eq!(admit_script(1, 3, Some(9000), &config), Ok(2000));
    assert_eq!(
        admit_script(2, 3, None, &config),
        Err((400, "unsupported Traqula version 2; supported version is 1".to_string()))
    );
    let too_many = config.max_commands + 1;
    assert_eq!(
        admit_script(1, too_many, None, &config),
        Err((413, format!("script contains {too_many} commands; maximum is {}", config.max_commands)))
    );
    assert_eq!(admit_script(1, 3, Some(0), &config), Err((400, "timeout_ms must be positive".to_string())));
}
