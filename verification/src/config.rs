//! The backend's settings: environment variables first, then the config
//! file, then the defaults. Reading the environment and the file is the
//! caller's part.
use vstd::prelude::*;

use crate::tasks::opt_string_view;
use crate::text::{ascii_lower, chars_of, spec_parse_u64, spec_parse_usize, trim, unsigned_body};

verus! {

/// Whether a flag's text says yes: `1`, `true`, `yes`, `on`, `y` or `t`,
/// trimmed, in any ASCII case.
pub open spec fn spec_matches_yes(value: Seq<char>) -> bool {
    let t = ascii_lower(trim(value));
    ||| t == "1"@
    ||| t == "true"@
    ||| t == "yes"@
    ||| t == "on"@
    ||| t == "y"@
    ||| t == "t"@
}

pub fn matches_yes(value: &str) -> (r: bool)
    ensures
        r == spec_matches_yes(value@),
{
    let t = crate::text::ascii_lowercase(crate::text::trim_chars(chars_of(value).as_slice()).as_slice());
    let ts = t.as_slice();
    crate::text::same_chars(ts, chars_of("1").as_slice()) || crate::text::same_chars(ts, chars_of("true").as_slice())
        || crate::text::same_chars(ts, chars_of("yes").as_slice()) || crate::text::same_chars(
        ts,
        chars_of("on").as_slice(),
    ) || crate::text::same_chars(ts, chars_of("y").as_slice()) || crate::text::same_chars(
        ts,
        chars_of("t").as_slice(),
    )
}

/// An environment variable's value where it is set and not blank, else the
/// fallback.
pub open spec fn spec_env_or(value: Option<Seq<char>>, fallback: Option<Seq<char>>) -> Option<Seq<char>> {
    match value {
        Some(v) => if trim(v).len() > 0 {
            Some(v)
        } else {
            fallback
        },
        None => fallback,
    }
}

pub fn env_or(value: Option<String>, fallback: Option<String>) -> (r: Option<String>)
    ensures
        opt_string_view(r) == spec_env_or(opt_string_view(value), opt_string_view(fallback)),
{
    match value {
        Some(v) => {
            if crate::text::trim_chars(chars_of(v.as_str()).as_slice()).len() > 0 {
                Some(v)
            } else {
                fallback
            }
        },
        None => fallback,
    }
}

/// A flag from an environment variable where it is set, else the fallback.
pub open spec fn spec_env_bool(value: Option<Seq<char>>, fallback: bool) -> bool {
    match value {
        Some(v) => spec_matches_yes(v),
        None => fallback,
    }
}

pub fn env_bool(value: &Option<String>, fallback: bool) -> (r: bool)
    ensures
        r == spec_env_bool(opt_string_view(*value), fallback),
{
    match value {
        Some(v) => matches_yes(v.as_str()),
        None => fallback,
    }
}

/// `str::parse::<u16>`.
pub open spec fn spec_parse_u16(s: Seq<char>) -> Option<u16> {
    match spec_parse_u64(s) {
        Some(v) => if v <= u16::MAX {
            Some(v as u16)
        } else {
            None
        },
        None => None,
    }
}

pub fn parse_u16(s: &str) -> (r: Option<u16>)
    ensures
        r == spec_parse_u16(s@),
{
    match crate::text::parse_u64(s) {
        Some(v) => {
            if v <= 65535 {
                Some(v as u16)
            } else {
                None
            }
        },
        None => None,
    }
}

/// The settings of the config file; each is optional.
pub struct FileConfig {
    pub bind_host: Option<String>,
    pub port: Option<u16>,
    pub data_dir: Option<String>,
    pub dist_dir: Option<String>,
    pub api_token: Option<String>,
    pub allow_unauthenticated: Option<bool>,
    pub allow_lan_access: Option<bool>,
    pub log_level: Option<String>,
    pub max_upload_bytes: Option<u64>,
    pub max_body_bytes: Option<usize>,
}

/// The values of the backend's environment variables, where set.
pub struct EnvVars {
    /// `LLM_WIKI_ALLOW_LAN`
    pub allow_lan: Option<String>,
    /// `LLM_WIKI_BIND_HOST`
    pub bind_host: Option<String>,
    /// `LLM_WIKI_PORT`
    pub port: Option<String>,
    /// `LLM_WIKI_DATA_DIR`
    pub data_dir: Option<String>,
    /// `LLM_WIKI_DIST_DIR`
    pub dist_dir: Option<String>,
    /// `LLM_WIKI_API_TOKEN`
    pub api_token: Option<String>,
    /// `LLM_WIKI_ALLOW_UNAUTHENTICATED`
    pub allow_unauthenticated: Option<String>,
    /// `LLM_WIKI_LOG`
    pub log_level: Option<String>,
    /// `LLM_WIKI_MAX_UPLOAD_BYTES`
    pub max_upload_bytes: Option<String>,
    /// `LLM_WIKI_MAX_BODY_BYTES`
    pub max_body_bytes: Option<String>,
}

/// The settings the backend runs with.
pub struct Settings {
    pub bind_host: String,
    pub port: u16,
    pub data_dir: String,
    pub dist_dir: String,
    pub api_token: Option<String>,
    pub allow_unauthenticated: bool,
    pub allow_lan_access: bool,
    pub log_level: String,
    pub max_upload_bytes: u64,
    pub max_body_bytes: usize,
}

pub open spec fn or_default(o: Option<Seq<char>>, d: Seq<char>) -> Seq<char> {
    match o {
        Some(v) => v,
        None => d,
    }
}

/// LAN access: allowed by the saved app state, or by the variable or else
/// the file.
pub open spec fn spec_lan(lan_from_state: bool, file: FileConfig, env: EnvVars) -> bool {
    lan_from_state || spec_env_bool(
        opt_string_view(env.allow_lan),
        match file.allow_lan_access {
            Some(b) => b,
            None => false,
        },
    )
}

/// The host to bind: the variable, else the file, else all interfaces
/// where LAN access is allowed and loopback where not.
pub open spec fn spec_bind_host(lan_from_state: bool, file: FileConfig, env: EnvVars) -> Seq<char> {
    or_default(
        spec_env_or(
            opt_string_view(env.bind_host),
            Some(
                or_default(
                    opt_string_view(file.bind_host),
                    if spec_lan(lan_from_state, file, env) {
                        "0.0.0.0"@
                    } else {
                        "127.0.0.1"@
                    },
                ),
            ),
        ),
        "127.0.0.1"@,
    )
}

/// The port: the variable where set (8080 where it does not parse), else
/// the file, else 8080.
pub open spec fn spec_port(file: FileConfig, env: EnvVars) -> u16 {
    match opt_string_view(env.port) {
        Some(p) => match spec_parse_u16(p) {
            Some(v) => v,
            None => 8080,
        },
        None => match file.port {
            Some(v) => v,
            None => 8080,
        },
    }
}

/// The upload limit: the variable where it parses, else the file, else
/// 1 GiB.
pub open spec fn spec_max_upload(file: FileConfig, env: EnvVars) -> u64 {
    match opt_string_view(env.max_upload_bytes) {
        Some(p) if spec_parse_u64(p) is Some => spec_parse_u64(p).unwrap(),
        _ => match file.max_upload_bytes {
            Some(v) => v,
            None => 1073741824u64,
        },
    }
}

/// The body limit: the variable where it parses, else the file, else
/// 40 MiB.
pub open spec fn spec_max_body(file: FileConfig, env: EnvVars) -> usize {
    match opt_string_view(env.max_body_bytes) {
        Some(p) if spec_parse_usize(p) is Some => spec_parse_usize(p).unwrap(),
        _ => match file.max_body_bytes {
            Some(v) => v,
            None => 41943040usize,
        },
    }
}

/// The settings from the variables, the file and the saved app state's
/// LAN flag.
pub fn resolve_settings(lan_from_state: bool, file: &FileConfig, env: &EnvVars) -> (r: Settings)
    ensures
        r.allow_lan_access == spec_lan(lan_from_state, *file, *env),
        r.bind_host@ == spec_bind_host(lan_from_state, *file, *env),
        r.port == spec_port(*file, *env),
        r.data_dir@ == or_default(spec_env_or(opt_string_view(env.data_dir), opt_string_view(file.data_dir)), "data"@),
        r.dist_dir@ == or_default(spec_env_or(opt_string_view(env.dist_dir), opt_string_view(file.dist_dir)), "dist"@),
        opt_string_view(r.api_token) == spec_env_or(opt_string_view(env.api_token), opt_string_view(file.api_token)),
        r.allow_unauthenticated == spec_env_bool(
            opt_string_view(env.allow_unauthenticated),
            match file.allow_unauthenticated {
                Some(b) => b,
                None => false,
            },
        ),
        r.log_level@ == or_default(spec_env_or(opt_string_view(env.log_level), opt_string_view(file.log_level)), "info"@),
        r.max_upload_bytes == spec_max_upload(*file, *env),
        r.max_body_bytes == spec_max_body(*file, *env),
{
    let file_lan = match file.allow_lan_access {
        Some(b) => b,
        None => false,
    };
    let lan = lan_from_state || env_bool(&env.allow_lan, file_lan);
    let default_host = match &file.bind_host {
        Some(h) => h.clone(),
        None => if lan {
            "0.0.0.0".to_string()
        } else {
            "127.0.0.1".to_string()
        },
    };
    let bind_host = match env_or(env.bind_host.clone(), Some(default_host)) {
        Some(h) => h,
        None => "127.0.0.1".to_string(),
    };
    let port = match &env.port {
        Some(p) => match parse_u16(p.as_str()) {
            Some(v) => v,
            None => 8080,
        },
        None => match file.port {
            Some(v) => v,
            None => 8080,
        },
    };
    let data_dir = match env_or(env.data_dir.clone(), file.data_dir.clone()) {
        Some(d) => d,
        None => "data".to_string(),
    };
    let dist_dir = match env_or(env.dist_dir.clone(), file.dist_dir.clone()) {
        Some(d) => d,
        None => "dist".to_string(),
    };
    let api_token = env_or(env.api_token.clone(), file.api_token.clone());
    let file_unauth = match file.allow_unauthenticated {
        Some(b) => b,
        None => false,
    };
    let allow_unauthenticated = env_bool(&env.allow_unauthenticated, file_unauth);
    let log_level = match env_or(env.log_level.clone(), file.log_level.clone()) {
        Some(l) => l,
        None => "info".to_string(),
    };
    let env_upload = match &env.max_upload_bytes {
        Some(p) => crate::text::parse_u64(p.as_str()),
        None => None,
    };
    let max_upload_bytes = match env_upload {
        Some(v) => v,
        None => match file.max_upload_bytes {
            Some(v) => v,
            None => 1024 * 1024 * 1024,
        },
    };
    let env_body = match &env.max_body_bytes {
        Some(p) => crate::text::parse_usize(p.as_str()),
        None => None,
    };
    let max_body_bytes = match env_body {
        Some(v) => v,
        None => match file.max_body_bytes {
            Some(v) => v,
            None => 40 * 1024 * 1024,
        },
    };
    Settings {
        bind_host,
        port,
        data_dir,
        dist_dir,
        api_token,
        allow_unauthenticated,
        allow_lan_access: lan,
        log_level,
        max_upload_bytes,
        max_body_bytes,
    }
}

} // verus!
