use llm_wiki_web::config::{env_bool, env_or, matches_yes, parse_u16, resolve_settings, EnvVars, FileConfig};

fn no_file() -> FileConfig {
    FileConfig {
        bind_host: None,
        port: None,
        data_dir: None,
        dist_dir: None,
        api_token: None,
        allow_unauthenticated: None,
        allow_lan_access: None,
        log_level: None,
        max_upload_bytes: None,
        max_body_bytes: None,
    }
}

fn no_env() -> EnvVars {
    EnvVars {
        allow_lan: None,
        bind_host: None,
        port: None,
        data_dir: None,
        dist_dir: None,
        api_token: None,
        allow_unauthenticated: None,
        log_level: None,
        max_upload_bytes: None,
        max_body_bytes: None,
    }
}

#[test]
fn yes_words() {
    for w in ["1", " TRUE ", "yes", "On", "y", "t"] {
        assert!(matches_yes(w), "{w}");
    }
    assert!(!matches_yes("no"));
    assert!(!matches_yes("2"));
}

#[test]
fn variables_override_unless_blank() {
    assert_eq!(env_or(Some("x".into()), Some("f".into())), Some("x".to_string()));
    assert_eq!(env_or(Some("  ".into()), Some("f".into())), Some("f".to_string()));
    assert_eq!(env_or(None, None), None);
    assert!(env_bool(&Some("yes".into()), false));
    assert!(!env_bool(&Some("nope".into()), true));
    assert!(env_bool(&None, true));
    assert_eq!(parse_u16("65535"), Some(65535));
    assert_eq!(parse_u16("65536"), None);
}

#[test]
fn defaults_without_any_configuration() {
    let s = resolve_settings(false, &no_file(), &no_env());
    assert_eq!(s.bind_host, "127.0.0.1");
    assert_eq!(s.port, 8080);
    assert_eq!(s.data_dir, "data");
    assert_eq!(s.dist_dir, "dist");
    assert_eq!(s.api_token, None);
    assert!(!s.allow_unauthenticated);
    assert!(!s.allow_lan_access);
    assert_eq!(s.log_level, "info");
    assert_eq!(s.max_upload_bytes, 1024 * 1024 * 1024);
    assert_eq!(s.max_body_bytes, 40 * 1024 * 1024);
}

#[test]
fn lan_access_binds_all_interfaces_and_variables_win() {
    let mut file = no_file();
    file.port = Some(9000);
    file.max_upload_bytes = Some(7);
    let mut env = no_env();
    env.allow_lan = Some("1".into());
    env.max_upload_bytes = Some("bad".into());
    env.api_token = Some("tok".into());
    let s = resolve_settings(false, &file, &env);
    assert_eq!(s.bind_host, "0.0.0.0");
    assert!(s.allow_lan_access);
    assert_eq!(s.port, 9000);
    assert_eq!(s.max_upload_bytes, 7);
    assert_eq!(s.api_token.as_deref(), Some("tok"));
    env.port = Some("x".into());
    assert_eq!(resolve_settings(true, &file, &env).port, 8080);
}
