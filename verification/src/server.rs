//! The HTTP front of the web backend: who may call the API, how fast,
//! with how large a body, which project a request names, and which
//! handler a request goes to. Sockets and clocks are the caller's part.
use vstd::prelude::*;
use vstd::utf8::{decode_utf8, encode_utf8, valid_utf8};

use crate::app_state::{entries_view, ProjectEntry, ProjectView};
use crate::http::{spec_parse_query, spec_percent_decode};
use crate::text::{ascii_lower, ascii_lower_char, chars_of, starts_with, string_of, trim_end_char};

verus! {

/// The most requests the rate limiter lets through per window.
pub const RATE_LIMIT_MAX_REQUESTS: usize = 240;

/// The rate limiter's window, in milliseconds.
pub const RATE_LIMIT_WINDOW_MS: u64 = 1000;

/// The prefix of every API path.
pub open spec fn api_prefix() -> Seq<char> {
    "/api/v1"@
}

/// The request methods the routes tell apart.
#[derive(Debug, Clone, Copy, PartialEq, Eq, Structural)]
pub enum HttpMethod {
    Get,
    Post,
    Put,
    Patch,
    Delete,
    Options,
    Head,
    Other,
}

proof fn lemma_or_zero(x: usize, y: usize)
    by (bit_vector)
    ensures
        (x | y) == 0 <==> (x == 0 && y == 0),
{
}

proof fn lemma_xor_bytes(a: u8, b: u8)
    by (bit_vector)
    ensures
        ((a ^ b) as usize == 0) <==> a == b,
{
}

proof fn lemma_xor_usize(a: usize, b: usize)
    by (bit_vector)
    ensures
        (a ^ b) == 0 <==> a == b,
{
}

/// Compares two byte strings in time that depends on their lengths only.
pub fn constant_time_eq(left: &[u8], right: &[u8]) -> (r: bool)
    ensures
        r == (left@ == right@),
{
    let ll = left.len();
    let rl = right.len();
    let max_len = if ll > rl {
        ll
    } else {
        rl
    };
    let mut diff: usize = ll ^ rl;
    proof {
        lemma_xor_usize(ll, rl);
    }
    let mut i: usize = 0;
    while i < max_len
        invariant
            ll == left@.len(),
            rl == right@.len(),
            max_len == if ll > rl {
                ll
            } else {
                rl
            },
            i <= max_len,
            (diff == 0) <==> (ll == rl && forall|j: int| 0 <= j < i ==> left@[j] == right@[j]),
        decreases max_len - i,
    {
        let a: u8 = if i < ll {
            left[i]
        } else {
            0
        };
        let b: u8 = if i < rl {
            right[i]
        } else {
            0
        };
        let x: usize = (a ^ b) as usize;
        proof {
            lemma_xor_bytes(a, b);
            lemma_or_zero(diff, x);
        }
        diff = diff | x;
        i += 1;
    }
    proof {
        if diff == 0 {
            assert(left@ =~= right@);
        }
    }
    diff == 0
}

/// Equal UTF-8 encodings come from equal texts.
pub proof fn lemma_encode_injective(a: Seq<char>, b: Seq<char>)
    requires
        encode_utf8(a) == encode_utf8(b),
    ensures
        a == b,
{
    vstd::utf8::encode_utf8_decode_utf8(a);
    vstd::utf8::encode_utf8_decode_utf8(b);
}

/// `constant_time_eq` on the bytes of two strings.
pub fn str_eq_constant_time(a: &str, b: &str) -> (r: bool)
    ensures
        r == (a@ == b@),
{
    let r = constant_time_eq(a.as_bytes(), b.as_bytes());
    proof {
        if r {
            lemma_encode_injective(a@, b@);
        }
    }
    r
}

/// A path with `\` read as `/` and trailing `/` dropped.
pub open spec fn normalized_path(p: Seq<char>) -> Seq<char> {
    trim_end_char(crate::http::slash_for_backslash(p), '/')
}

/// Whether two paths name the same place, up to separators and trailing
/// slashes (compared exactly, as on Unix).
pub open spec fn spec_path_matches(a: Seq<char>, b: Seq<char>) -> bool {
    normalized_path(a) == normalized_path(b)
}

fn normalize_path_chars(p: &str) -> (r: Vec<char>)
    ensures
        r@ == normalized_path(p@),
{
    let c = chars_of(p);
    let mut v: Vec<char> = Vec::new();
    let mut i: usize = 0;
    while i < c.len()
        invariant
            i <= c@.len(),
            v@ == crate::http::slash_for_backslash(c@.subrange(0, i as int)),
        decreases c@.len() - i,
    {
        v.push(if c[i] == '\\' {
            '/'
        } else {
            c[i]
        });
        i += 1;
        assert(v@ =~= crate::http::slash_for_backslash(c@.subrange(0, i as int)));
    }
    assert(c@.subrange(0, c@.len() as int) =~= c@);
    let mut n = v.len();
    assert(v@.subrange(0, n as int) =~= v@);
    while n > 0 && v[n - 1] == '/'
        invariant
            n <= v@.len(),
            trim_end_char(v@, '/') == trim_end_char(v@.subrange(0, n as int), '/'),
        decreases n,
    {
        assert(v@.subrange(0, n as int).drop_last() =~= v@.subrange(0, n - 1));
        n -= 1;
    }
    crate::text::slice_chars(v.as_slice(), 0, n)
}

pub fn path_matches(a: &str, b: &str) -> (r: bool)
    ensures
        r == spec_path_matches(a@, b@),
{
    let x = normalize_path_chars(a);
    let y = normalize_path_chars(b);
    crate::text::same_chars(x.as_slice(), y.as_slice())
}

/// Whether a request header grants access with token `t`: `x-llm-wiki-token`
/// carrying it, or `authorization` carrying `Bearer ` and it (header names
/// in any ASCII case).
pub open spec fn header_grants(h: (Seq<char>, Seq<char>), t: Seq<char>) -> bool {
    let key = ascii_lower(h.0);
    ||| key == "x-llm-wiki-token"@ && h.1 == t
    ||| key == "authorization"@ && starts_with(h.1, "Bearer "@) && h.1.subrange(7, h.1.len() as int) == t
}

pub open spec fn headers_view(v: Seq<(String, String)>) -> Seq<(Seq<char>, Seq<char>)> {
    v.map_values(|h: (String, String)| (h.0@, h.1@))
}

/// Whether a request may use the API: always where unauthenticated access
/// is allowed; else only with a non-empty token configured, given as the
/// `token` query parameter or in a granting header.
pub open spec fn spec_is_authorized(
    allow_unauthenticated: bool,
    api_token: Option<Seq<char>>,
    query: Seq<char>,
    headers: Seq<(Seq<char>, Seq<char>)>,
) -> bool {
    if allow_unauthenticated {
        true
    } else {
        match api_token {
            Some(t) => t.len() > 0 && {
                let q = spec_parse_query(query);
                ||| q.contains_key("token"@) && q["token"@] == t
                ||| exists|i: int| 0 <= i < headers.len() && header_grants(#[trigger] headers[i], t)
            },
            None => false,
        }
    }
}

/// The access settings of the backend.
pub struct AuthSettings {
    pub allow_unauthenticated: bool,
    pub api_token: Option<String>,
}

fn header_grants_exec(h: &(String, String), token: &str) -> (r: bool)
    ensures
        r == header_grants((h.0@, h.1@), token@),
{
    proof {
        reveal_strlit("x-llm-wiki-token");
        reveal_strlit("authorization");
    }
    let key = crate::text::ascii_lowercase(chars_of(h.0.as_str()).as_slice());
    let v = chars_of(h.1.as_str());
    if crate::text::same_chars(key.as_slice(), chars_of("x-llm-wiki-token").as_slice()) {
        assert(key@ == ascii_lower(h.0@));
        assert("x-llm-wiki-token"@.len() != "authorization"@.len());
        let r = str_eq_constant_time(h.1.as_str(), token);
        assert(r == (h.1@ == token@));
        return r;
    }
    if crate::text::same_chars(key.as_slice(), chars_of("authorization").as_slice()) {
        let bearer = chars_of("Bearer ");
        proof {
            reveal_strlit("Bearer ");
        }
        match crate::text::strip_prefix_chars(v.as_slice(), bearer.as_slice()) {
            Some(rest) => {
                let rs = string_of(rest.as_slice());
                return str_eq_constant_time(rs.as_str(), token);
            },
            None => {
                return false;
            },
        }
    }
    false
}

impl AuthSettings {
    /// Whether a request with this query and these headers may use the API
    /// (see `spec_is_authorized`).
    pub fn is_authorized(&self, query: &str, headers: &[(String, String)]) -> (r: bool)
        ensures
            r == spec_is_authorized(
                self.allow_unauthenticated,
                crate::tasks::opt_string_view(self.api_token),
                query@,
                headers_view(headers@),
            ),
    {
        if self.allow_unauthenticated {
            return true;
        }
        let token = match &self.api_token {
            Some(t) => t,
            None => {
                return false;
            },
        };
        if token.as_str().is_empty() {
            return false;
        }
        let params = crate::http::parse_query(query);
        match params.get("token") {
            Some(v) => {
                if str_eq_constant_time(v.as_str(), token.as_str()) {
                    return true;
                }
            },
            None => {},
        }
        let ghost hv = headers_view(headers@);
        let mut i: usize = 0;
        while i < headers.len()
            invariant
                i <= headers@.len(),
                hv == headers_view(headers@),
                !self.allow_unauthenticated,
                crate::tasks::opt_string_view(self.api_token) == Some(token@),
                token@.len() > 0,
                forall|j: int| 0 <= j < i ==> !header_grants(#[trigger] hv[j], token@),
            decreases headers@.len() - i,
        {
            if header_grants_exec(&headers[i], token.as_str()) {
                assert(header_grants(hv[i as int], token@));
                return true;
            }
            i += 1;
        }
        false
    }

    /// Whether the API asks for a token.
    pub fn auth_required(&self) -> (r: bool)
        ensures
            r == !self.allow_unauthenticated,
    {
        !self.allow_unauthenticated
    }

    /// Whether a non-empty token is configured.
    pub fn auth_configured(&self) -> (r: bool)
        ensures
            r == (self.api_token matches Some(t) && t@.len() > 0),
    {
        match &self.api_token {
            Some(t) => !t.as_str().is_empty(),
            None => false,
        }
    }
}

/// Whether a request counts against the rate limit: all but preflight
/// requests, health checks and static assets.
pub open spec fn spec_should_rate_limit(method: HttpMethod, url: Seq<char>) -> bool {
    let path = crate::http::spec_split_url(url).0;
    if method == HttpMethod::Options {
        false
    } else if path == "/health"@ || path == "/api/v1/health"@ {
        false
    } else {
        !starts_with(path, "/assets/"@) && !starts_with(path, "/static/"@)
    }
}

pub fn should_rate_limit(method: HttpMethod, url: &str) -> (r: bool)
    ensures
        r == spec_should_rate_limit(method, url@),
{
    if method == HttpMethod::Options {
        return false;
    }
    let (path, _) = crate::http::split_url(url);
    let p = chars_of(path.as_str());
    if crate::text::same_chars(p.as_slice(), chars_of("/health").as_slice()) || crate::text::same_chars(
        p.as_slice(),
        chars_of("/api/v1/health").as_slice(),
    ) {
        return false;
    }
    !crate::text::has_prefix(p.as_slice(), chars_of("/assets/").as_slice()) && !crate::text::has_prefix(
        p.as_slice(),
        chars_of("/static/").as_slice(),
    )
}

/// A `POST` to a path ending in `suffix`.
pub open spec fn post_to(method: HttpMethod, url: Seq<char>, suffix: Seq<char>) -> bool {
    method == HttpMethod::Post && crate::text::ends_with(crate::http::spec_split_url(url).0, suffix)
}

fn post_to_exec(method: HttpMethod, url: &str, suffix: &str) -> (r: bool)
    ensures
        r == post_to(method, url@, suffix@),
{
    if method != HttpMethod::Post {
        return false;
    }
    let (path, _) = crate::http::split_url(url);
    crate::text::has_suffix(chars_of(path.as_str()).as_slice(), chars_of(suffix).as_slice())
}

/// A file upload: its body is read as raw bytes.
pub fn is_upload_request(method: HttpMethod, url: &str) -> (r: bool)
    ensures
        r == post_to(method, url@, "/uploads"@),
{
    post_to_exec(method, url, "/uploads")
}

/// An archive import: its body is read as raw bytes.
pub fn is_binary_request(method: HttpMethod, url: &str) -> (r: bool)
    ensures
        r == post_to(method, url@, "/import-archive"@),
{
    post_to_exec(method, url, "/import-archive")
}

/// The most body bytes a request may send: chat posts get at least 40 MiB,
/// everything else at most 1 MiB of the configured `fallback`.
pub open spec fn spec_body_limit(method: HttpMethod, url: Seq<char>, fallback: nat) -> nat {
    let path = crate::http::spec_split_url(url).0;
    if method == HttpMethod::Post && crate::text::contains_seq(path, "/chat"@) {
        if fallback > 40 * 1024 * 1024 {
            fallback
        } else {
            40 * 1024 * 1024
        }
    } else if fallback < 1024 * 1024 {
        fallback
    } else {
        1024 * 1024
    }
}

pub fn body_limit_for(method: HttpMethod, url: &str, fallback: usize) -> (r: usize)
    ensures
        r as nat == spec_body_limit(method, url@, fallback as nat),
{
    if method == HttpMethod::Post {
        let (path, _) = crate::http::split_url(url);
        if crate::text::contains_chars(chars_of(path.as_str()).as_slice(), chars_of("/chat").as_slice()) {
            return if fallback > 40 * 1024 * 1024 {
                fallback
            } else {
                40 * 1024 * 1024
            };
        }
    }
    if fallback < 1024 * 1024 {
        fallback
    } else {
        1024 * 1024
    }
}

/// The times (in milliseconds) of the requests let through in the last
/// window, oldest first.
pub struct RateLimiter {
    stamps: Vec<u64>,
}

/// The stamps left once those before `cutoff` at the front are dropped.
pub open spec fn drop_before(s: Seq<u64>, cutoff: u64) -> Seq<u64>
    decreases s.len(),
{
    if s.len() > 0 && s[0] < cutoff {
        drop_before(s.drop_first(), cutoff)
    } else {
        s
    }
}

impl View for RateLimiter {
    type V = Seq<u64>;

    closed spec fn view(&self) -> Seq<u64> {
        self.stamps@
    }
}

impl RateLimiter {
    #[verifier::type_invariant]
    closed spec fn bounded(&self) -> bool {
        self.stamps@.len() <= RATE_LIMIT_MAX_REQUESTS
    }

    pub fn new() -> (r: RateLimiter)
        ensures
            r@ == Seq::<u64>::empty(),
    {
        RateLimiter { stamps: Vec::new() }
    }

    /// Lets a request through at time `now_ms` unless the window already
    /// holds `RATE_LIMIT_MAX_REQUESTS` requests; stamps older than the window
    /// are dropped from the front first.
    pub fn allow_request(&mut self, now_ms: u64) -> (r: bool)
        ensures
            ({
                let kept = drop_before(old(self)@, now_ms.saturating_sub(RATE_LIMIT_WINDOW_MS));
                &&& r == (kept.len() < RATE_LIMIT_MAX_REQUESTS)
                &&& final(self)@ == if r {
                    kept.push(now_ms)
                } else {
                    kept
                }
            }),
            final(self)@.len() <= RATE_LIMIT_MAX_REQUESTS,
    {
        proof {
            use_type_invariant(&*self);
        }
        let cutoff = now_ms.saturating_sub(RATE_LIMIT_WINDOW_MS);
        let mut stamps: Vec<u64> = Vec::new();
        std::mem::swap(&mut stamps, &mut self.stamps);
        let ghost s = stamps@;
        let n = stamps.len();
        let mut a: usize = 0;
        assert(s.subrange(0, n as int) =~= s);
        while a < n && stamps[a] < cutoff
            invariant
                a <= n == stamps@.len(),
                s == stamps@,
                drop_before(s, cutoff) == drop_before(s.subrange(a as int, n as int), cutoff),
            decreases n - a,
        {
            assert(s.subrange(a as int, n as int).drop_first() =~= s.subrange(a + 1, n as int));
            a += 1;
        }
        let mut kept: Vec<u64> = Vec::new();
        let mut i = a;
        while i < n
            invariant
                a <= i <= n == stamps@.len(),
                s == stamps@,
                kept@ == s.subrange(a as int, i as int),
            decreases n - i,
        {
            kept.push(stamps[i]);
            i += 1;
            assert(kept@ =~= s.subrange(a as int, i as int));
        }
        if kept.len() >= RATE_LIMIT_MAX_REQUESTS {
            assert(kept@.len() <= RATE_LIMIT_MAX_REQUESTS);
            self.stamps = kept;
            return false;
        }
        kept.push(now_ms);
        self.stamps = kept;
        true
    }
}

/// Every `_` or ASCII letter, digit or `-` kept, anything else made `_`.
pub open spec fn attachment_char(c: char) -> char {
    if crate::app_state::is_ascii_alnum(c) || c == '-' || c == '_' {
        c
    } else {
        '_'
    }
}

/// A project name made safe for a download's file name.
pub fn sanitize_attachment(name: &str) -> (r: String)
    ensures
        r@ == name@.map_values(|c: char| attachment_char(c)),
{
    let c = chars_of(name);
    let mut v: Vec<char> = Vec::new();
    let mut i: usize = 0;
    while i < c.len()
        invariant
            i <= c@.len(),
            c@ == name@,
            v@ == c@.subrange(0, i as int).map_values(|c: char| attachment_char(c)),
        decreases c@.len() - i,
    {
        let ch = c[i];
        let keep = (ch >= 'a' && ch <= 'z') || (ch >= 'A' && ch <= 'Z') || (ch >= '0' && ch <= '9') || ch == '-'
            || ch == '_';
        v.push(if keep {
            ch
        } else {
            '_'
        });
        i += 1;
        assert(v@ =~= c@.subrange(0, i as int).map_values(|c: char| attachment_char(c)));
    }
    assert(c@.subrange(0, c@.len() as int) =~= c@);
    string_of(v.as_slice())
}

/// The name an imported archive's project gets from the archive's file
/// name: its stem, trimmed, or `imported-project` where that is blank.
pub open spec fn spec_archive_filename_stem(filename: Seq<char>) -> Seq<char> {
    let stem = match crate::http::spec_file_stem(filename) {
        Some(s) => s,
        None => "imported-project"@,
    };
    if crate::text::trim(stem).len() == 0 {
        "imported-project"@
    } else {
        crate::text::trim(stem)
    }
}

pub fn archive_filename_stem(filename: &str) -> (r: String)
    ensures
        r@ == spec_archive_filename_stem(filename@),
{
    let stem = match crate::http::file_stem_chars(chars_of(filename).as_slice()) {
        Some(s) => s,
        None => chars_of("imported-project"),
    };
    let t = crate::text::trim_chars(stem.as_slice());
    if t.len() == 0 {
        "imported-project".to_string()
    } else {
        string_of(t.as_slice())
    }
}

/// The name an imported project takes: the form's `name` field, decoded
/// and trimmed, where it is valid UTF-8 and not blank; otherwise the stem
/// of the archive's file name.
pub open spec fn spec_import_name(name_field: Option<Seq<u8>>, archive_filename: Seq<char>) -> Seq<char> {
    match name_field {
        Some(b) => if valid_utf8(b) && crate::text::trim(decode_utf8(b)).len() > 0 {
            crate::text::trim(decode_utf8(b))
        } else {
            spec_archive_filename_stem(archive_filename)
        },
        None => spec_archive_filename_stem(archive_filename),
    }
}

pub fn import_archive_name(name_field: Option<&[u8]>, archive_filename: &str) -> (r: String)
    ensures
        r@ == spec_import_name(
            match name_field {
                Some(b) => Some(b@),
                None => None,
            },
            archive_filename@,
        ),
{
    if let Some(b) = name_field {
        if let Ok(text) = crate::utf8::decode_utf8_checked(b) {
            let t = crate::text::trim_chars(chars_of(text.as_str()).as_slice());
            if t.len() > 0 {
                return string_of(t.as_slice());
            }
        }
    }
    archive_filename_stem(archive_filename)
}

/// The project a request names by `project_id` (percent-decoded): the
/// first whose id is it or whose path matches it, or, for `current` in any
/// ASCII case, the current project.
pub open spec fn project_named(p: ProjectView, decoded: Seq<char>) -> bool {
    ||| p.id == decoded
    ||| spec_path_matches(p.path, decoded)
    ||| (ascii_lower(decoded) == "current"@ && p.current)
}

pub open spec fn first_named(list: Seq<ProjectView>, decoded: Seq<char>) -> Option<ProjectView>
    decreases list.len(),
{
    if list.len() == 0 {
        None
    } else if project_named(list[0], decoded) {
        Some(list[0])
    } else {
        first_named(list.drop_first(), decoded)
    }
}

/// Resolves a project reference against the listed projects; an unknown
/// one is an error naming the decoded reference.
pub fn resolve_project(projects: &[ProjectEntry], project_id: &str) -> (r: Result<ProjectEntry, String>)
    ensures
        match first_named(entries_view(projects@), spec_percent_decode(project_id@)) {
            Some(p) => r matches Ok(e) && e@ == p,
            None => r matches Err(m) && m@ == "Unknown project: "@ + spec_percent_decode(project_id@),
        },
{
    let decoded = crate::http::percent_decode(project_id);
    let d = chars_of(decoded.as_str());
    let wants_current = crate::text::same_chars(
        crate::text::ascii_lowercase(d.as_slice()).as_slice(),
        chars_of("current").as_slice(),
    );
    let ghost list = entries_view(projects@);
    let mut i: usize = 0;
    assert(list.subrange(0, list.len() as int) =~= list);
    while i < projects.len()
        invariant
            i <= projects@.len(),
            list == entries_view(projects@),
            d@ == decoded@,
            decoded@ == spec_percent_decode(project_id@),
            wants_current == (ascii_lower(decoded@) == "current"@),
            first_named(list, decoded@) == first_named(list.subrange(i as int, list.len() as int), decoded@),
        decreases projects@.len() - i,
    {
        let p = &projects[i];
        assert(list[i as int] == p@);
        let ghost tail = list.subrange(i as int, list.len() as int);
        assert(tail[0] == list[i as int]);
        if crate::text::same_chars(chars_of(p.id.as_str()).as_slice(), d.as_slice()) || path_matches(
            p.path.as_str(),
            decoded.as_str(),
        ) || (wants_current && p.current) {
            assert(project_named(list[i as int], decoded@));
            assert(first_named(tail, decoded@) == Some(list[i as int]));
            let e = p.duplicate();
            return Ok(e);
        }
        assert(!project_named(list[i as int], decoded@));
        assert(tail.drop_first() =~= list.subrange(i + 1, list.len() as int));
        i += 1;
    }
    let mut msg = chars_of("Unknown project: ");
    let mut dd = d;
    msg.append(&mut dd);
    Err(string_of(msg.as_slice()))
}


/// The non-empty `/`-separated pieces of `s` from `i` on.
pub open spec fn slash_pieces(s: Seq<char>, i: int) -> Seq<Seq<char>>
    decreases s.len() - i,
{
    if i < 0 || i > s.len() {
        Seq::empty()
    } else {
        let j = crate::text::next_sep(s, '/', i);
        proof {
            crate::text::lemma_next_sep(s, '/', i);
        }
        let piece = s.subrange(i, j);
        let rest = if j < s.len() {
            slash_pieces(s, j + 1)
        } else {
            Seq::<Seq<char>>::empty()
        };
        if piece.len() > 0 {
            seq![piece] + rest
        } else {
            rest
        }
    }
}

/// The pieces of an API path after its `/api/v1` prefix.
pub open spec fn path_parts(path: Seq<char>) -> Seq<Seq<char>> {
    slash_pieces(crate::text::trim_start_char(crate::chat::trim_start_str(path, api_prefix()), '/'), 0)
}

/// The pieces joined with `/`.
pub open spec fn join_slash(parts: Seq<Seq<char>>) -> Seq<char>
    decreases parts.len(),
{
    if parts.len() == 0 {
        Seq::empty()
    } else if parts.len() == 1 {
        parts[0]
    } else {
        join_slash(parts.drop_last()) + seq!['/'] + parts.last()
    }
}

/// What a request asks for.
#[derive(Debug, Clone, Copy, PartialEq, Eq, Structural)]
pub enum RouteKind {
    Upload,
    NotFound,
    Health,
    Static,
    Unauthorized,
    ExportProject,
    ImportArchive,
    ListProjects,
    CreateProject,
    ProjectByPath,
    ListFiles,
    FileContent,
    WriteFile,
    DeleteFile,
    Reviews,
    ResolveReviews,
    PatchReview,
    Search,
    Graph,
    Rescan,
    Chat,
    CancelChat,
    GetChat,
    Tasks,
    Events,
    GetTask,
    CancelTask,
    EnqueueTask,
}

/// A request's route: what it asks for, the project or task (or, for a
/// lookup by path, the path) it names, and the review or chat session it
/// names; empty where it names none.
pub struct Route {
    pub kind: RouteKind,
    pub id: String,
    pub sub: String,
}

pub open spec fn rt(kind: RouteKind, id: Seq<char>, sub: Seq<char>) -> (RouteKind, Seq<char>, Seq<char>) {
    (kind, id, sub)
}

/// The route of an API request past the checks on access and on exports
/// and imports (the table of the handlers).
pub open spec fn table_route(method: HttpMethod, p: Seq<Seq<char>>) -> (RouteKind, Seq<char>, Seq<char>) {
    let e = Seq::<char>::empty();
    let n = p.len();
    if method == HttpMethod::Get && n == 1 && p[0] == "projects"@ {
        rt(RouteKind::ListProjects, e, e)
    } else if method == HttpMethod::Post && n == 1 && p[0] == "projects"@ {
        rt(RouteKind::CreateProject, e, e)
    } else if method == HttpMethod::Get && n >= 2 && p[0] == "projects"@ && p[1] == "by-path"@ {
        rt(RouteKind::ProjectByPath, join_slash(p.subrange(2, n as int)), e)
    } else if method == HttpMethod::Get && n == 3 && p[0] == "projects"@ && p[2] == "files"@ {
        rt(RouteKind::ListFiles, p[1], e)
    } else if n == 4 && p[0] == "projects"@ && p[2] == "files"@ && p[3] == "content"@ && (method
        == HttpMethod::Get || method == HttpMethod::Post || method == HttpMethod::Delete) {
        rt(
            if method == HttpMethod::Get {
                RouteKind::FileContent
            } else if method == HttpMethod::Post {
                RouteKind::WriteFile
            } else {
                RouteKind::DeleteFile
            },
            p[1],
            e,
        )
    } else if method == HttpMethod::Get && n == 3 && p[0] == "projects"@ && p[2] == "reviews"@ {
        rt(RouteKind::Reviews, p[1], e)
    } else if method == HttpMethod::Post && n == 4 && p[0] == "projects"@ && p[2] == "reviews"@ && p[3]
        == "resolve"@ {
        rt(RouteKind::ResolveReviews, p[1], e)
    } else if method == HttpMethod::Patch && n == 4 && p[0] == "projects"@ && p[2] == "reviews"@ {
        rt(RouteKind::PatchReview, p[1], p[3])
    } else if method == HttpMethod::Post && n == 3 && p[0] == "projects"@ && p[2] == "search"@ {
        rt(RouteKind::Search, p[1], e)
    } else if method == HttpMethod::Get && n == 3 && p[0] == "projects"@ && p[2] == "graph"@ {
        rt(RouteKind::Graph, p[1], e)
    } else if method == HttpMethod::Post && n == 4 && p[0] == "projects"@ && p[2] == "sources"@ && p[3]
        == "rescan"@ {
        rt(RouteKind::Rescan, p[1], e)
    } else if method == HttpMethod::Post && n == 3 && p[0] == "projects"@ && p[2] == "chat"@ {
        rt(RouteKind::Chat, p[1], e)
    } else if method == HttpMethod::Post && n == 5 && p[0] == "projects"@ && p[2] == "chat"@ && p[4]
        == "cancel"@ {
        rt(RouteKind::CancelChat, p[1], p[3])
    } else if method == HttpMethod::Get && n == 4 && p[0] == "projects"@ && p[2] == "chat"@ {
        rt(RouteKind::GetChat, p[1], p[3])
    } else if method == HttpMethod::Get && n == 1 && p[0] == "tasks"@ {
        rt(RouteKind::Tasks, e, e)
    } else if method == HttpMethod::Get && n == 1 && p[0] == "events"@ {
        rt(RouteKind::Events, e, e)
    } else if method == HttpMethod::Get && n == 2 && p[0] == "tasks"@ {
        rt(RouteKind::GetTask, p[1], e)
    } else if method == HttpMethod::Post && n == 3 && p[0] == "tasks"@ && p[2] == "cancel"@ {
        rt(RouteKind::CancelTask, p[1], e)
    } else if method == HttpMethod::Post && n == 1 && p[0] == "tasks"@ {
        rt(RouteKind::EnqueueTask, e, e)
    } else {
        rt(RouteKind::NotFound, e, e)
    }
}

/// The route of a request to `url`, where `authorized` tells whether it
/// carries valid credentials: uploads (checked for access on their own),
/// health checks, static files outside the API, refused API requests,
/// exports and archive imports, then the table.
pub open spec fn spec_route(method: HttpMethod, url: Seq<char>, authorized: bool) -> (RouteKind, Seq<char>, Seq<
    char,
>) {
    let (path, query) = crate::http::spec_split_url(url);
    let p = path_parts(path);
    let e = Seq::<char>::empty();
    if method == HttpMethod::Post && crate::text::ends_with(path, "/uploads"@) {
        if p.len() == 3 && p[0] == "projects"@ && p[2] == "uploads"@ {
            if authorized {
                rt(RouteKind::Upload, p[1], e)
            } else {
                rt(RouteKind::Unauthorized, e, e)
            }
        } else {
            rt(RouteKind::NotFound, e, e)
        }
    } else if path == "/health"@ || path == "/api/v1/health"@ {
        rt(RouteKind::Health, e, e)
    } else if !starts_with(path, api_prefix()) {
        rt(RouteKind::Static, e, e)
    } else if !authorized {
        rt(RouteKind::Unauthorized, e, e)
    } else if method == HttpMethod::Get && p.len() == 4 && p[0] == "projects"@ && p[2] == "files"@ && p[3]
        == "content"@ && spec_parse_query(query).contains_key("export"@) && spec_parse_query(query)["export"@]
        == "1"@ {
        rt(RouteKind::ExportProject, p[1], e)
    } else if method == HttpMethod::Post && p.len() == 2 && p[0] == "projects"@ && p[1] == "import-archive"@ {
        rt(RouteKind::ImportArchive, e, e)
    } else {
        table_route(method, p)
    }
}

/// Without valid credentials a request reaches no project, file, review,
/// chat or task: it is answered as a health check or a static file, or
/// refused (unauthorized, or not found).
pub proof fn lemma_data_routes_need_authorization(method: HttpMethod, url: Seq<char>)
    ensures
        ({
            let k = spec_route(method, url, false).0;
            ||| k == RouteKind::Health
            ||| k == RouteKind::Static
            ||| k == RouteKind::Unauthorized
            ||| k == RouteKind::NotFound
        }),
{
}

/// With valid credentials a request is routed by what it asks for alone:
/// the refusal for missing credentials never comes.
pub proof fn lemma_authorized_is_never_refused(method: HttpMethod, url: Seq<char>)
    ensures
        spec_route(method, url, true).0 != RouteKind::Unauthorized,
{
}

proof fn lemma_next_sep_at(s: Seq<char>, c: char, i: int, j: int)
    requires
        0 <= i <= j <= s.len(),
        j < s.len() ==> s[j] == c,
        forall|k: int| i <= k < j ==> s[k] != c,
    ensures
        crate::text::next_sep(s, c, i) == j,
{
    crate::text::lemma_next_sep(s, c, i);
    let x = crate::text::next_sep(s, c, i);
    if x < j {
        assert(s[x] == c);
    } else if x > j {
        assert(s[j] != c);
    }
}

/// An authorized `POST` to `/api/v1/projects/{id}/search` asks to search
/// project `{id}`, for every project id (a non-empty piece of path without
/// `/` or `?`).
pub proof fn lemma_search_route(id: Seq<char>)
    requires
        id.len() > 0,
        forall|k: int| 0 <= k < id.len() ==> #[trigger] id[k] != '/' && id[k] != '?',
    ensures
        spec_route(HttpMethod::Post, "/api/v1/projects/"@ + id + "/search"@, true) == (
            RouteKind::Search,
            id,
            Seq::<char>::empty(),
        ),
{
    reveal_strlit("/api/v1/projects/");
    reveal_strlit("/search");
    reveal_strlit("/uploads");
    reveal_strlit("/api/v1");
    reveal_strlit("/health");
    reveal_strlit("/api/v1/health");
    reveal_strlit("projects");
    reveal_strlit("search");
    let n = id.len() as int;
    let url = "/api/v1/projects/"@ + id + "/search"@;
    assert(url.len() == 24 + n);
    assert forall|k: int| 0 <= k < url.len() implies url[k] != '?' by {
        if 17 <= k < 17 + n {
            assert(url[k] == id[k - 17]);
        }
    }
    lemma_next_sep_at(url, '?', 0, url.len() as int);
    assert(crate::http::spec_split_url(url) == (url, Seq::<char>::empty()));
    assert(url[url.len() - 1] == 'h');
    assert(!crate::text::ends_with(url, "/uploads"@)) by {
        let t = url.subrange(url.len() - 8, url.len() as int);
        assert(t[7] == 'h');
    }
    assert(url != "/health"@ && url != "/api/v1/health"@) by {
        assert(url.len() != 7 && url.len() != 14);
    }
    assert(url.subrange(0, 7) =~= api_prefix());
    assert(starts_with(url, api_prefix()));
    let rest = url.subrange(7, url.len() as int);
    assert(rest =~= "/projects/"@ + id + "/search"@) by {
        reveal_strlit("/projects/");
    }
    reveal_strlit("/projects/");
    assert(!starts_with(rest, api_prefix())) by {
        assert(rest.subrange(0, 7)[1] != api_prefix()[1]);
    }
    assert(crate::chat::trim_start_str(rest, api_prefix()) == rest);
    assert(crate::chat::trim_start_str(url, api_prefix()) == rest);
    let t = rest.drop_first();
    assert(crate::text::trim_start_char(t, '/') == t) by {
        assert(t[0] == 'p');
    }
    assert(crate::text::trim_start_char(rest, '/') == t);
    assert(t.len() == 16 + n);
    assert forall|k: int| 9 <= k < 9 + n implies t[k] == id[k - 9] by {}
    // pieces
    lemma_next_sep_at(t, '/', 0, 8);
    lemma_next_sep_at(t, '/', 9, 9 + n);
    lemma_next_sep_at(t, '/', 10 + n, t.len() as int);
    assert(t.subrange(0, 8) =~= "projects"@);
    assert(t.subrange(9, 9 + n) =~= id);
    assert(t.subrange(10 + n, t.len() as int) =~= "search"@);
    let last = slash_pieces(t, 10 + n);
    assert(last == seq!["search"@]);
    let mid = slash_pieces(t, 9);
    assert(mid == seq![id] + last);
    let all = slash_pieces(t, 0);
    assert(all == seq!["projects"@] + mid);
    let p = path_parts(url);
    assert(p == all);
    assert(p =~= seq!["projects"@, id, "search"@]);
}

pub(crate) fn pieces_of(s: &[char]) -> (r: Vec<String>)
    ensures
        crate::http::strings_view(r@) == slash_pieces(s@, 0),
{
    let n = s.len();
    let mut out: Vec<String> = Vec::new();
    let mut i: usize = 0;
    loop
        invariant
            n == s@.len(),
            i <= n,
            slash_pieces(s@, 0) == crate::http::strings_view(out@) + slash_pieces(s@, i as int),
        decreases n - i,
    {
        let j = crate::text::find_char(s, '/', i);
        proof {
            crate::text::lemma_next_sep(s@, '/', i as int);
        }
        let piece = crate::text::slice_chars(s, i, j);
        let ghost before = crate::http::strings_view(out@);
        let ghost rest = if j < n {
            slash_pieces(s@, j + 1)
        } else {
            Seq::<Seq<char>>::empty()
        };
        if piece.len() > 0 {
            out.push(string_of(piece.as_slice()));
            assert(crate::http::strings_view(out@) =~= before.push(piece@));
            assert(slash_pieces(s@, i as int) =~= seq![piece@] + rest);
            assert(before.push(piece@) + rest =~= before + (seq![piece@] + rest));
        } else {
            assert(slash_pieces(s@, i as int) =~= rest);
        }
        if j < n {
            i = j + 1;
        } else {
            assert(crate::http::strings_view(out@) + rest =~= crate::http::strings_view(out@));
            return out;
        }
    }
}

fn parts_of(path: &str) -> (r: Vec<String>)
    ensures
        crate::http::strings_view(r@) == path_parts(path@),
{
    let c = chars_of(path);
    let prefix = chars_of("/api/v1");
    let a = crate::chat::trim_start_matches_str(c.as_slice(), prefix.as_slice());
    let n = a.len();
    let mut k: usize = 0;
    assert(a@.subrange(0, n as int) =~= a@);
    while k < n && a[k] == '/'
        invariant
            k <= n == a@.len(),
            crate::text::trim_start_char(a@, '/') == crate::text::trim_start_char(a@.subrange(k as int, n as int), '/'),
        decreases n - k,
    {
        assert(a@.subrange(k as int, n as int).drop_first() =~= a@.subrange(k + 1, n as int));
        k += 1;
    }
    let b = crate::text::slice_chars(a.as_slice(), k, n);
    pieces_of(b.as_slice())
}

fn is_lit(parts: &Vec<String>, k: usize, lit: &str) -> (r: bool)
    requires
        k < parts@.len(),
    ensures
        r == (parts@[k as int]@ == lit@),
{
    crate::text::same_chars(chars_of(parts[k].as_str()).as_slice(), chars_of(lit).as_slice())
}

fn join_parts(parts: &Vec<String>, from: usize) -> (r: String)
    requires
        from <= parts@.len(),
    ensures
        r@ == join_slash(crate::http::strings_view(parts@).subrange(from as int, parts@.len() as int)),
{
    let ghost pv = crate::http::strings_view(parts@);
    let mut out: Vec<char> = Vec::new();
    let mut i = from;
    assert(pv.subrange(from as int, from as int) =~= Seq::<Seq<char>>::empty());
    while i < parts.len()
        invariant
            from <= i <= parts@.len(),
            pv == crate::http::strings_view(parts@),
            out@ == join_slash(pv.subrange(from as int, i as int)),
        decreases parts@.len() - i,
    {
        let ghost sub = pv.subrange(from as int, i + 1);
        assert(sub.drop_last() =~= pv.subrange(from as int, i as int));
        assert(sub.last() == pv[i as int]);
        let piece = chars_of(parts[i].as_str());
        if i > from {
            out.push('/');
        }
        let ghost before = out@;
        let mut pc = piece;
        out.append(&mut pc);
        proof {
            if i == from {
                assert(sub.len() == 1);
                assert(out@ =~= sub[0]);
            } else {
                assert(out@ =~= join_slash(sub.drop_last()) + seq!['/'] + sub.last());
            }
        }
        i += 1;
    }
    string_of(out.as_slice())
}

fn table_route_exec(method: HttpMethod, p: &Vec<String>) -> (r: Route)
    ensures
        (r.kind, r.id@, r.sub@) == table_route(method, crate::http::strings_view(p@)),
{
    let ghost pv = crate::http::strings_view(p@);
    let n = p.len();
    proof {
        assert(forall|k: int| 0 <= k < n ==> pv[k] == #[trigger] p@[k]@);
    }
    if method == HttpMethod::Get && n == 1 && is_lit(p, 0, "projects") {
        return Route { kind: RouteKind::ListProjects, id: String::new(), sub: String::new() };
    }
    if method == HttpMethod::Post && n == 1 && is_lit(p, 0, "projects") {
        return Route { kind: RouteKind::CreateProject, id: String::new(), sub: String::new() };
    }
    if method == HttpMethod::Get && n >= 2 && is_lit(p, 0, "projects") && is_lit(p, 1, "by-path") {
        return Route { kind: RouteKind::ProjectByPath, id: join_parts(p, 2), sub: String::new() };
    }
    if method == HttpMethod::Get && n == 3 && is_lit(p, 0, "projects") && is_lit(p, 2, "files") {
        return Route { kind: RouteKind::ListFiles, id: p[1].clone(), sub: String::new() };
    }
    if n == 4 && is_lit(p, 0, "projects") && is_lit(p, 2, "files") && is_lit(p, 3, "content") && (method
        == HttpMethod::Get || method == HttpMethod::Post || method == HttpMethod::Delete) {
        let kind = if method == HttpMethod::Get {
            RouteKind::FileContent
        } else if method == HttpMethod::Post {
            RouteKind::WriteFile
        } else {
            RouteKind::DeleteFile
        };
        return Route { kind, id: p[1].clone(), sub: String::new() };
    }
    if method == HttpMethod::Get && n == 3 && is_lit(p, 0, "projects") && is_lit(p, 2, "reviews") {
        return Route { kind: RouteKind::Reviews, id: p[1].clone(), sub: String::new() };
    }
    if method == HttpMethod::Post && n == 4 && is_lit(p, 0, "projects") && is_lit(p, 2, "reviews") && is_lit(
        p,
        3,
        "resolve",
    ) {
        return Route { kind: RouteKind::ResolveReviews, id: p[1].clone(), sub: String::new() };
    }
    if method == HttpMethod::Patch && n == 4 && is_lit(p, 0, "projects") && is_lit(p, 2, "reviews") {
        return Route { kind: RouteKind::PatchReview, id: p[1].clone(), sub: p[3].clone() };
    }
    if method == HttpMethod::Post && n == 3 && is_lit(p, 0, "projects") && is_lit(p, 2, "search") {
        return Route { kind: RouteKind::Search, id: p[1].clone(), sub: String::new() };
    }
    if method == HttpMethod::Get && n == 3 && is_lit(p, 0, "projects") && is_lit(p, 2, "graph") {
        return Route { kind: RouteKind::Graph, id: p[1].clone(), sub: String::new() };
    }
    if method == HttpMethod::Post && n == 4 && is_lit(p, 0, "projects") && is_lit(p, 2, "sources") && is_lit(
        p,
        3,
        "rescan",
    ) {
        return Route { kind: RouteKind::Rescan, id: p[1].clone(), sub: String::new() };
    }
    if method == HttpMethod::Post && n == 3 && is_lit(p, 0, "projects") && is_lit(p, 2, "chat") {
        return Route { kind: RouteKind::Chat, id: p[1].clone(), sub: String::new() };
    }
    if method == HttpMethod::Post && n == 5 && is_lit(p, 0, "projects") && is_lit(p, 2, "chat") && is_lit(
        p,
        4,
        "cancel",
    ) {
        return Route { kind: RouteKind::CancelChat, id: p[1].clone(), sub: p[3].clone() };
    }
    if method == HttpMethod::Get && n == 4 && is_lit(p, 0, "projects") && is_lit(p, 2, "chat") {
        return Route { kind: RouteKind::GetChat, id: p[1].clone(), sub: p[3].clone() };
    }
    if method == HttpMethod::Get && n == 1 && is_lit(p, 0, "tasks") {
        return Route { kind: RouteKind::Tasks, id: String::new(), sub: String::new() };
    }
    if method == HttpMethod::Get && n == 1 && is_lit(p, 0, "events") {
        return Route { kind: RouteKind::Events, id: String::new(), sub: String::new() };
    }
    if method == HttpMethod::Get && n == 2 && is_lit(p, 0, "tasks") {
        return Route { kind: RouteKind::GetTask, id: p[1].clone(), sub: String::new() };
    }
    if method == HttpMethod::Post && n == 3 && is_lit(p, 0, "tasks") && is_lit(p, 2, "cancel") {
        return Route { kind: RouteKind::CancelTask, id: p[1].clone(), sub: String::new() };
    }
    if method == HttpMethod::Post && n == 1 && is_lit(p, 0, "tasks") {
        return Route { kind: RouteKind::EnqueueTask, id: String::new(), sub: String::new() };
    }
    Route { kind: RouteKind::NotFound, id: String::new(), sub: String::new() }
}

/// Routes a request (see `spec_route`).
pub fn route(method: HttpMethod, url: &str, authorized: bool) -> (r: Route)
    ensures
        (r.kind, r.id@, r.sub@) == spec_route(method, url@, authorized),
{
    let (path, query) = crate::http::split_url(url);
    let pc = chars_of(path.as_str());
    let parts = parts_of(path.as_str());
    let ghost pv = crate::http::strings_view(parts@);
    let n = parts.len();
    proof {
        assert(forall|k: int| 0 <= k < n ==> pv[k] == #[trigger] parts@[k]@);
    }
    if method == HttpMethod::Post && crate::text::has_suffix(pc.as_slice(), chars_of("/uploads").as_slice()) {
        if n == 3 && is_lit(&parts, 0, "projects") && is_lit(&parts, 2, "uploads") {
            if authorized {
                return Route { kind: RouteKind::Upload, id: parts[1].clone(), sub: String::new() };
            }
            return Route { kind: RouteKind::Unauthorized, id: String::new(), sub: String::new() };
        }
        return Route { kind: RouteKind::NotFound, id: String::new(), sub: String::new() };
    }
    if crate::text::same_chars(pc.as_slice(), chars_of("/health").as_slice()) || crate::text::same_chars(
        pc.as_slice(),
        chars_of("/api/v1/health").as_slice(),
    ) {
        return Route { kind: RouteKind::Health, id: String::new(), sub: String::new() };
    }
    if !crate::text::has_prefix(pc.as_slice(), chars_of("/api/v1").as_slice()) {
        return Route { kind: RouteKind::Static, id: String::new(), sub: String::new() };
    }
    if !authorized {
        return Route { kind: RouteKind::Unauthorized, id: String::new(), sub: String::new() };
    }
    if method == HttpMethod::Get && n == 4 && is_lit(&parts, 0, "projects") && is_lit(&parts, 2, "files")
        && is_lit(&parts, 3, "content") {
        let params = crate::http::parse_query(query.as_str());
        let export = match params.get("export") {
            Some(v) => crate::text::same_chars(chars_of(v.as_str()).as_slice(), chars_of("1").as_slice()),
            None => false,
        };
        if export {
            return Route { kind: RouteKind::ExportProject, id: parts[1].clone(), sub: String::new() };
        }
    }
    if method == HttpMethod::Post && n == 2 && is_lit(&parts, 0, "projects") && is_lit(&parts, 1, "import-archive") {
        return Route { kind: RouteKind::ImportArchive, id: String::new(), sub: String::new() };
    }
    table_route_exec(method, &parts)
}

} // verus!
