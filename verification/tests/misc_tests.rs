use scorecalc::auth::{check_permissions, UserPermission};
use scorecalc::config::Config;
use scorecalc::errors::GenericError;

#[test]
fn permission_check_reports_missing_bits() {
    let held = UserPermission::RESULTS_VIEW | UserPermission::SCORE_VIEW;
    // Nothing missing.
    assert!(!check_permissions(held, UserPermission::RESULTS_VIEW));
    assert!(!check_permissions(held, UserPermission::NONE));
    // Administration is missing.
    assert!(check_permissions(held, UserPermission::ADMINISTRATION));
    assert!(check_permissions(
        held,
        UserPermission::RESULTS_VIEW | UserPermission::REGISTRATION_ENTRY
    ));
}

#[test]
fn configuration_defaults() {
    let c = Config::all_defaults();
    assert_eq!(c.host, "127.0.0.1");
    assert_eq!(c.port, 8080);
    assert!(c.cors_allowed_origins.is_empty());
    assert_eq!(c.database_file, "./database.sqlite3");
    assert_eq!(c.static_file_root, "./client/dist/");
    assert_eq!(c.static_file_index, "index.html");
    assert!(c.enable_api_request_logging);
}

#[test]
fn generic_error_codes() {
    assert_eq!(GenericError::bad_request().0, 400);
    assert_eq!(GenericError::forbidden().0, 403);
    assert_eq!(GenericError::not_found().0, 404);
    assert_eq!(GenericError::conflict().0, 409);
    assert_eq!(GenericError::internal_server_error().0, 500);
}
