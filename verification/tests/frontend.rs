use std::sync::Arc;

use dynamo_serving::frontend::context::{
    FrontendExtensionContext, FrontendRouteContext, FrontendState, ModelEntry, ModelManager,
};
use dynamo_serving::frontend::routes::{
    check_unique_routes, validate_static_path, validate_status_code, FrontendRoute, RouteError,
};

fn state() -> Arc<FrontendState> {
    Arc::new(FrontendState {
        ready: true,
        cancelled: false,
        manager: Arc::new(ModelManager {
            models: vec![
                ModelEntry { display_name: "zeta".to_string(), ready_to_serve: false },
                ModelEntry { display_name: "alpha".to_string(), ready_to_serve: true },
                ModelEntry { display_name: "zeta".to_string(), ready_to_serve: true },
            ],
        }),
    })
}

#[test]
fn extension_context_reads_live_state() {
    let ctx = FrontendExtensionContext::new(state());
    assert!(ctx.is_ready());
    assert!(!ctx.is_cancelled());
    assert!(ctx.has_any_ready_model());
    assert!(ctx.is_model_ready_to_serve("alpha"));
    assert!(ctx.is_model_ready_to_serve("zeta"));
    assert!(!ctx.is_model_ready_to_serve("beta"));
    assert_eq!(ctx.model_display_names(), vec!["zeta", "alpha"]);
    assert_eq!(ctx.sorted_model_display_names(), vec!["alpha", "zeta"]);
    assert_eq!(ctx.sorted_serving_ready_display_names(), vec!["alpha", "zeta"]);
}

#[test]
fn no_ready_model_without_ready_entries() {
    let st = Arc::new(FrontendState {
        ready: false,
        cancelled: true,
        manager: Arc::new(ModelManager {
            models: vec![ModelEntry { display_name: "m".to_string(), ready_to_serve: false }],
        }),
    });
    let ctx = FrontendExtensionContext::new(st);
    assert!(!ctx.is_ready());
    assert!(ctx.is_cancelled());
    assert!(!ctx.has_any_ready_model());
    assert!(ctx.serving_ready_display_names().is_empty());
}

#[test]
fn route_context_shares_state_and_manager() {
    let st = state();
    let ctx = FrontendRouteContext::new(st.clone());
    assert!(Arc::ptr_eq(&ctx.state_clone(), &st));
    assert!(Arc::ptr_eq(&ctx.manager_clone(), &st.manager));
    assert_eq!(ctx.manager().models.len(), 3);
    assert!(ctx.is_ready());
    assert!(!ctx.is_cancelled());
}

#[test]
fn routes_accept_static_get_paths_only() {
    let route = FrontendRoute::new("get", "/v1/health".to_string(), true, false).unwrap();
    assert_eq!(route.method(), "GET");
    assert_eq!(route.path(), "/v1/health");
    assert!(matches!(FrontendRoute::new("GET", "/x".into(), false, false), Err(RouteError::HandlerNotCallable)));
    assert!(matches!(FrontendRoute::new("GET", "/x".into(), true, true), Err(RouteError::AsyncHandler)));
    assert!(matches!(FrontendRoute::new("POST", "/x".into(), true, false), Err(RouteError::UnsupportedMethod(m)) if m == "POST"));
    assert!(matches!(FrontendRoute::new("GET", "x".into(), true, false), Err(RouteError::PathNotRooted)));
}

#[test]
fn static_path_rejects_params_wildcards_whitespace_and_controls() {
    assert!(validate_static_path("/ok/path").is_ok());
    assert!(matches!(validate_static_path(""), Err(RouteError::PathNotRooted)));
    for bad in ["/{id}", "/a}", "/*", "/a b", "/a\u{2003}", "/a\u{7f}", "/\u{85}"] {
        assert!(matches!(validate_static_path(bad), Err(RouteError::PathNotStatic(p)) if p == bad));
    }
}

#[test]
fn duplicate_routes_are_refused() {
    let a = FrontendRoute::new("GET", "/a".into(), true, false).unwrap();
    let b = FrontendRoute::new("GET", "/b".into(), true, false).unwrap();
    let a2 = FrontendRoute::new("GET", "/a".into(), true, false).unwrap();
    assert!(check_unique_routes(&vec![a.clone(), b.clone()]).is_ok());
    assert!(matches!(check_unique_routes(&vec![a, b, a2]), Err(RouteError::DuplicateRoute(p)) if p == "/a"));
}

#[test]
fn status_codes_must_be_http_codes() {
    assert!(validate_status_code(100).is_ok());
    assert!(validate_status_code(999).is_ok());
    assert!(matches!(validate_status_code(99), Err(RouteError::InvalidStatus(99))));
    assert!(matches!(validate_status_code(1000), Err(RouteError::InvalidStatus(1000))));
}

#[test]
fn route_errors_explain_the_refusal() {
    assert_eq!(
        RouteError::UnsupportedMethod("POST".to_string()).message(),
        "unsupported FrontendRoute method 'POST'; only GET is supported"
    );
    assert_eq!(
        RouteError::PathNotRooted.message(),
        "FrontendRoute path must start with '/'"
    );
    assert_eq!(
        RouteError::PathNotStatic("/a/{id}".to_string()).message(),
        "FrontendRoute path '/a/{id}' must be a static path (no path parameters '{...}', wildcards '*', or whitespace)"
    );
    assert_eq!(
        RouteError::DuplicateRoute("/hello".to_string()).message(),
        "duplicate frontend route registered: GET /hello"
    );
    assert_eq!(RouteError::InvalidStatus(42).message(), "invalid status code 42: invalid status code");
    assert_eq!(
        RouteError::AsyncHandler.message(),
        "FrontendRoute handler must be synchronous; async def handlers are not supported"
    );
    assert_eq!(RouteError::HandlerNotCallable.message(), "FrontendRoute handler must be callable");
}
