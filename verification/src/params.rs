//! What the API's request parameters mean: the defaults a missing or
//! unreadable value falls back to, and the ranges the values are held to.
use vstd::prelude::*;

use crate::http::QueryParams;
use crate::text::{
    chars_of, lowercase, parse_i64, parse_u64, parse_usize, spec_parse_i64, spec_parse_u64, spec_parse_usize,
    string_of, trim, trim_chars,
};

verus! {

pub const DEFAULT_MAX_FILES: usize = 2000;
pub const HARD_MAX_FILES: usize = 10000;
pub const DEFAULT_MAX_REVIEWS: usize = 200;
pub const HARD_MAX_REVIEWS: usize = 1000;
pub const DEFAULT_GRAPH_LIMIT: usize = 200;
pub const HARD_GRAPH_LIMIT: usize = 1000;
pub const DEFAULT_TOP_K: u64 = 10;
pub const HARD_TOP_K: u64 = 50;
pub const MAX_EVENT_WAIT_MS: u64 = 25000;

/// `v` held to `lo..=hi`.
pub open spec fn clamped(v: int, lo: int, hi: int) -> int {
    if v < lo {
        lo
    } else if v > hi {
        hi
    } else {
        v
    }
}

fn clamp_usize(v: usize, lo: usize, hi: usize) -> (r: usize)
    requires
        lo <= hi,
    ensures
        r == clamped(v as int, lo as int, hi as int),
{
    if v < lo {
        lo
    } else if v > hi {
        hi
    } else {
        v
    }
}

/// The value of the parameter `name` read as a `usize`, or `default`
/// where it is missing or not a number.
pub open spec fn usize_param(p: Map<Seq<char>, Seq<char>>, name: Seq<char>, default: usize) -> usize {
    if p.contains_key(name) {
        match spec_parse_usize(p[name]) {
            Some(v) => v,
            None => default,
        }
    } else {
        default
    }
}

fn read_usize(params: &QueryParams, name: &str, default: usize) -> (r: usize)
    ensures
        r == usize_param(params@, name@, default),
{
    match params.get(name) {
        Some(v) => match parse_usize(v.as_str()) {
            Some(n) => n,
            None => default,
        },
        None => default,
    }
}

/// The value of the parameter `name`, or `default` where it is missing.
pub open spec fn text_param(p: Map<Seq<char>, Seq<char>>, name: Seq<char>, default: Seq<char>) -> Seq<char> {
    if p.contains_key(name) {
        p[name]
    } else {
        default
    }
}

fn read_text(params: &QueryParams, name: &str, default: &str) -> (r: String)
    ensures
        r@ == text_param(params@, name@, default@),
{
    match params.get(name) {
        Some(v) => v.clone(),
        None => default.to_string(),
    }
}

fn read_opt(params: &QueryParams, name: &str) -> (r: Option<String>)
    ensures
        r is Some <==> params@.contains_key(name@),
        r matches Some(v) ==> v@ == params@[name@],
{
    match params.get(name) {
        Some(v) => Some(v.clone()),
        None => None,
    }
}

/// How a file listing is asked for.
pub struct FileListingQuery {
    pub root: String,
    pub recursive: bool,
    pub max_files: usize,
}

/// A file listing reads the folder `root` (`wiki` by default), recursively
/// unless `recursive` is `false`, and lists at most `maxFiles` files
/// (2000 by default, held to 1..=10000).
pub fn file_listing_query(params: &QueryParams) -> (r: FileListingQuery)
    ensures
        r.root@ == text_param(params@, "root"@, "wiki"@),
        r.recursive == !(params@.contains_key("recursive"@) && params@["recursive"@] == "false"@),
        r.max_files == clamped(
            usize_param(params@, "maxFiles"@, DEFAULT_MAX_FILES) as int,
            1,
            HARD_MAX_FILES as int,
        ),
{
    let root = read_text(params, "root", "wiki");
    let recursive = match params.get("recursive") {
        Some(v) => !crate::text::same_chars(chars_of(v.as_str()).as_slice(), chars_of("false").as_slice()),
        None => true,
    };
    let max_files = clamp_usize(read_usize(params, "maxFiles", DEFAULT_MAX_FILES), 1, HARD_MAX_FILES);
    FileListingQuery { root, recursive, max_files }
}

/// How a review listing is asked for.
pub struct ReviewQuery {
    pub status: String,
    pub item_type: Option<String>,
    pub limit: usize,
}

/// A review listing shows the items of `status` (`unresolved` by
/// default) and of `type` where one is given, at most `limit` of them
/// (200 by default, held to 1..=1000).
pub fn review_query(params: &QueryParams) -> (r: ReviewQuery)
    ensures
        r.status@ == text_param(params@, "status"@, "unresolved"@),
        r.item_type is Some <==> params@.contains_key("type"@),
        r.item_type matches Some(t) ==> t@ == params@["type"@],
        r.limit == clamped(
            usize_param(params@, "limit"@, DEFAULT_MAX_REVIEWS) as int,
            1,
            HARD_MAX_REVIEWS as int,
        ),
{
    let status = read_text(params, "status", "unresolved");
    let item_type = read_opt(params, "type");
    let limit = clamp_usize(read_usize(params, "limit", DEFAULT_MAX_REVIEWS), 1, HARD_MAX_REVIEWS);
    ReviewQuery { status, item_type, limit }
}

/// How a graph is asked for.
pub struct GraphQuery {
    pub q: Option<String>,
    pub node_type: Option<String>,
    pub limit: usize,
}

/// A graph is filtered by the lower-cased `q` and `nodeType` where they
/// are given, and shows at most `limit` nodes (200 by default, held to
/// 1..=1000).
pub fn graph_query(params: &QueryParams) -> (r: GraphQuery)
    ensures
        r.q is Some <==> params@.contains_key("q"@),
        r.q matches Some(q) ==> q@ == lowercase(params@["q"@]),
        r.node_type is Some <==> params@.contains_key("nodeType"@),
        r.node_type matches Some(t) ==> t@ == lowercase(params@["nodeType"@]),
        r.limit == clamped(
            usize_param(params@, "limit"@, DEFAULT_GRAPH_LIMIT) as int,
            1,
            HARD_GRAPH_LIMIT as int,
        ),
{
    let q = match params.get("q") {
        Some(v) => Some(crate::text::to_lowercase(v.as_str())),
        None => None,
    };
    let node_type = match params.get("nodeType") {
        Some(v) => Some(crate::text::to_lowercase(v.as_str())),
        None => None,
    };
    let limit = clamp_usize(read_usize(params, "limit", DEFAULT_GRAPH_LIMIT), 1, HARD_GRAPH_LIMIT);
    GraphQuery { q, node_type, limit }
}

/// How the task event log is polled.
pub struct EventsQuery {
    pub since: i64,
    pub wait_ms: u64,
}

/// The events after `since` (0 where it is missing or not a number) are
/// asked for, waiting up to `wait` milliseconds (0 by default, at most
/// 25000) for one to come.
pub fn events_query(params: &QueryParams) -> (r: EventsQuery)
    ensures
        r.since == (if params@.contains_key("since"@) {
            match spec_parse_i64(params@["since"@]) {
                Some(v) => v,
                None => 0i64,
            }
        } else {
            0i64
        }),
        r.wait_ms == clamped(
            if params@.contains_key("wait"@) {
                match spec_parse_u64(params@["wait"@]) {
                    Some(v) => v as int,
                    None => 0,
                }
            } else {
                0
            },
            0,
            MAX_EVENT_WAIT_MS as int,
        ),
{
    let since = match params.get("since") {
        Some(v) => match parse_i64(v.as_str()) {
            Some(n) => n,
            None => 0,
        },
        None => 0,
    };
    let wait = match params.get("wait") {
        Some(v) => match parse_u64(v.as_str()) {
            Some(n) => n,
            None => 0,
        },
        None => 0,
    };
    let wait_ms = if wait > MAX_EVENT_WAIT_MS {
        MAX_EVENT_WAIT_MS
    } else {
        wait
    };
    EventsQuery { since, wait_ms }
}

/// The number of search results asked for: `topK` where it is given (10
/// otherwise), held to 1..=50.
pub fn search_top_k(top_k: Option<u64>) -> (r: usize)
    ensures
        r == clamped(
            match top_k {
                Some(v) => v as int,
                None => DEFAULT_TOP_K as int,
            },
            1,
            HARD_TOP_K as int,
        ),
{
    let v = match top_k {
        Some(v) => v,
        None => DEFAULT_TOP_K,
    };
    if v < 1 {
        1
    } else if v > HARD_TOP_K {
        50
    } else {
        v as usize
    }
}

/// What a request to create a project names.
pub struct NewProject {
    pub name: String,
    pub id: Option<String>,
}

/// A project is created under its trimmed name, which must be given and
/// not blank, and under the trimmed id where one is given and not blank.
pub fn new_project_request(name: Option<String>, id: Option<String>) -> (r: Result<NewProject, String>)
    ensures
        match name {
            None => r matches Err(e) && e@ == "Missing 'name'"@,
            Some(n) => if trim(n@).len() == 0 {
                r matches Err(e) && e@ == "Project name must not be empty"@
            } else {
                r matches Ok(p) && p.name@ == trim(n@) && match id {
                    Some(i) => if trim(i@).len() > 0 {
                        p.id matches Some(v) && v@ == trim(i@)
                    } else {
                        p.id is None
                    },
                    None => p.id is None,
                }
            },
        },
{
    let n = match name {
        None => {
            return Err("Missing 'name'".to_string());
        },
        Some(n) => n,
    };
    let trimmed = trim_chars(chars_of(n.as_str()).as_slice());
    if trimmed.len() == 0 {
        return Err("Project name must not be empty".to_string());
    }
    let id = match id {
        Some(i) => {
            let t = trim_chars(chars_of(i.as_str()).as_slice());
            if t.len() > 0 {
                Some(string_of(t.as_slice()))
            } else {
                None
            }
        },
        None => None,
    };
    Ok(NewProject { name: string_of(trimmed.as_slice()), id })
}

} // verus!

