use llm_wiki_web::app_state::ProjectEntry;
use llm_wiki_web::server::{
    archive_filename_stem, body_limit_for, constant_time_eq, import_archive_name, is_binary_request, is_upload_request, path_matches,
    resolve_project, route, sanitize_attachment, should_rate_limit, AuthSettings, HttpMethod, RateLimiter,
    RouteKind, RATE_LIMIT_MAX_REQUESTS,
};

fn auth(token: Option<&str>) -> AuthSettings {
    AuthSettings { allow_unauthenticated: false, api_token: token.map(|s| s.to_string()) }
}

fn h(k: &str, v: &str) -> (String, String) {
    (k.to_string(), v.to_string())
}

#[test]
fn constant_time_comparison_is_equality() {
    assert!(constant_time_eq(b"abc", b"abc"));
    assert!(!constant_time_eq(b"abc", b"abd"));
    assert!(!constant_time_eq(b"abc", b"abcd"));
    assert!(constant_time_eq(b"", b""));
}

#[test]
fn token_auth_accepts_query_and_headers_only_with_the_right_token() {
    let a = auth(Some("secret-token"));
    assert!(a.is_authorized("token=secret-token", &[]));
    assert!(!a.is_authorized("token=wrong-token", &[]));
    assert!(a.is_authorized("", &[h("X-LLM-Wiki-Token", "secret-token")]));
    assert!(a.is_authorized("", &[h("Authorization", "Bearer secret-token")]));
    assert!(!a.is_authorized("", &[h("Authorization", "secret-token")]));
    assert!(!a.is_authorized("", &[]));
    assert!(!auth(Some("")).is_authorized("token=", &[]));
    assert!(!auth(None).is_authorized("token=x", &[]));
    let open = AuthSettings { allow_unauthenticated: true, api_token: None };
    assert!(open.is_authorized("", &[]));
    assert!(!open.auth_required());
    assert!(a.auth_required() && a.auth_configured());
    assert!(!auth(Some("")).auth_configured());
}

#[test]
fn rate_limits_skip_preflight_health_and_assets() {
    assert!(!should_rate_limit(HttpMethod::Options, "/api/v1/projects"));
    assert!(!should_rate_limit(HttpMethod::Get, "/api/v1/health?x"));
    assert!(!should_rate_limit(HttpMethod::Get, "/assets/app.js"));
    assert!(should_rate_limit(HttpMethod::Get, "/api/v1/projects"));
}

#[test]
fn rate_limiter_allows_a_window_of_requests() {
    let mut r = RateLimiter::new();
    for _ in 0..RATE_LIMIT_MAX_REQUESTS {
        assert!(r.allow_request(5000));
    }
    assert!(!r.allow_request(5500));
    assert!(r.allow_request(6001));
}

#[test]
fn body_kinds_and_limits() {
    assert!(is_upload_request(HttpMethod::Post, "/api/v1/projects/p/uploads?x=1"));
    assert!(!is_upload_request(HttpMethod::Get, "/api/v1/projects/p/uploads"));
    assert!(is_binary_request(HttpMethod::Post, "/api/v1/projects/import-archive"));
    assert_eq!(body_limit_for(HttpMethod::Post, "/api/v1/projects/p/chat", 10), 40 * 1024 * 1024);
    assert_eq!(body_limit_for(HttpMethod::Get, "/api/v1/projects", 10), 10);
    assert_eq!(body_limit_for(HttpMethod::Get, "/api/v1/projects", 5 * 1024 * 1024), 1024 * 1024);
}

#[test]
fn paths_match_up_to_separators() {
    assert!(path_matches("/a/b/", "\\a\\b"));
    assert!(!path_matches("/a/b", "/a/c"));
}

#[test]
fn projects_resolve_by_id_path_or_current() {
    let projects = vec![
        ProjectEntry { id: "p1".into(), name: "One".into(), path: "/d/one".into(), current: false },
        ProjectEntry { id: "p2".into(), name: "Two".into(), path: "/d/two".into(), current: true },
    ];
    assert_eq!(resolve_project(&projects, "p1").unwrap().name, "One");
    assert_eq!(resolve_project(&projects, "%2Fd%2Fone%2F").unwrap().id, "p1");
    assert_eq!(resolve_project(&projects, "CURRENT").unwrap().id, "p2");
    assert_eq!(resolve_project(&projects, "x%20y").unwrap_err(), "Unknown project: x y");
}

#[test]
fn attachment_and_archive_names() {
    assert_eq!(sanitize_attachment("My Wiki/2"), "My_Wiki_2");
    assert_eq!(archive_filename_stem("backup.llmwiki.zip"), "backup.llmwiki");
    assert_eq!(archive_filename_stem("  .zip"), "imported-project");
    assert_eq!(archive_filename_stem(""), "imported-project");
}

#[test]
fn routes_of_the_api() {
    let r = route(HttpMethod::Get, "/api/v1/projects", true);
    assert_eq!(r.kind, RouteKind::ListProjects);
    assert_eq!(route(HttpMethod::Get, "/api/v1/projects", false).kind, RouteKind::Unauthorized);
    assert_eq!(route(HttpMethod::Get, "/api/v1/health", false).kind, RouteKind::Health);
    assert_eq!(route(HttpMethod::Get, "/index.html", false).kind, RouteKind::Static);
    let up = route(HttpMethod::Post, "/api/v1/projects/default/uploads", true);
    assert_eq!((up.kind, up.id.as_str()), (RouteKind::Upload, "default"));
    assert_eq!(route(HttpMethod::Post, "/api/v1/x/uploads", true).kind, RouteKind::NotFound);
    let by_path = route(HttpMethod::Get, "/api/v1/projects/by-path/a/b%2Fc", true);
    assert_eq!((by_path.kind, by_path.id.as_str()), (RouteKind::ProjectByPath, "a/b%2Fc"));
    let export = route(HttpMethod::Get, "/api/v1/projects/p/files/content?export=1", true);
    assert_eq!((export.kind, export.id.as_str()), (RouteKind::ExportProject, "p"));
    assert_eq!(route(HttpMethod::Get, "/api/v1/projects/p/files/content?path=a", true).kind, RouteKind::FileContent);
    assert_eq!(route(HttpMethod::Delete, "/api/v1/projects/p/files/content", true).kind, RouteKind::DeleteFile);
    let cancel = route(HttpMethod::Post, "/api/v1/projects/p/chat/s1/cancel", true);
    assert_eq!((cancel.kind, cancel.id.as_str(), cancel.sub.as_str()), (RouteKind::CancelChat, "p", "s1"));
    let patch = route(HttpMethod::Patch, "/api/v1/projects/p/reviews/r9", true);
    assert_eq!((patch.kind, patch.sub.as_str()), (RouteKind::PatchReview, "r9"));
    assert_eq!(route(HttpMethod::Post, "/api/v1/tasks", true).kind, RouteKind::EnqueueTask);
    assert_eq!(route(HttpMethod::Post, "/api/v1/tasks/t1/cancel", true).kind, RouteKind::CancelTask);
    assert_eq!(route(HttpMethod::Get, "/api/v1/events?since=3", true).kind, RouteKind::Events);
    assert_eq!(route(HttpMethod::Post, "/api/v1/projects/import-archive", true).kind, RouteKind::ImportArchive);
    assert_eq!(route(HttpMethod::Put, "/api/v1/projects", true).kind, RouteKind::NotFound);
}

#[test]
fn imported_project_name_prefers_the_form_field() {
    assert_eq!(import_archive_name(Some(b"  Team Wiki "), "x.zip"), "Team Wiki");
    assert_eq!(import_archive_name(Some(b"   "), "notes.llmwiki.zip"), "notes.llmwiki");
    assert_eq!(import_archive_name(Some(&[0xff, 0xfe]), "a.zip"), "a");
    assert_eq!(import_archive_name(None, ""), "imported-project");
}

#[test]
fn without_credentials_only_health_and_static_are_served() {
    let urls = [
        "/api/v1/projects",
        "/api/v1/projects/p1/files?root=wiki",
        "/api/v1/tasks",
        "/api/v1/projects/p1/uploads",
        "/api/v1/health",
        "/index.html",
        "/uploads",
    ];
    for url in urls {
        for method in [HttpMethod::Get, HttpMethod::Post, HttpMethod::Delete] {
            let kind = route(method, url, false).kind;
            assert!(matches!(
                kind,
                RouteKind::Health | RouteKind::Static | RouteKind::Unauthorized | RouteKind::NotFound
            ));
            assert_ne!(route(method, url, true).kind, RouteKind::Unauthorized);
        }
    }
}
