//! Keyword search over wiki pages: page titles, query tokens, and the score
//! of a page for a query.
use vstd::prelude::*;

use crate::http::strings_view;
use vstd::string::StringSliceAdditionalSpecFns;
use vstd::utf8::{decode_utf8, encode_utf8, is_char_boundary, valid_utf8};

use crate::multipart::{find_from, find_seq, find_sequence};
use crate::text::{
    chars_of, contains_seq, find_chars_from, is_alphanumeric, lemma_next_sep, line_at, line_end, lowercase,
    starts_with, string_of, trim, trim_end_str, trim_start_char,
};

verus! {

/// The embedding settings that a search may use.
#[derive(Debug, Clone)]
pub struct SearchEmbeddingConfig {
    pub enabled: bool,
    pub endpoint: String,
    pub api_key: String,
    pub model: String,
    pub batch_size: Option<usize>,
    pub max_chars: Option<usize>,
    pub provider: Option<String>,
    /// Extra request headers, as (name, value) pairs in name order.
    pub extra_headers: Option<Vec<(String, String)>>,
}

/// An image that a search result refers to.
#[derive(Debug, Clone)]
pub struct SearchImageRef {
    pub url: String,
    pub alt: String,
}

/// The title of a page from the line at `i` on: the text after the first
/// `# ` or `#\t` heading marker (at the start of a line, after any byte
/// order marks and whitespace), trimmed.
pub open spec fn title_from(s: Seq<char>, i: int) -> Option<Seq<char>>
    decreases s.len() - i,
{
    if i < 0 || i >= s.len() {
        None
    } else {
        let t = trim(trim_start_char(line_at(s, i), '\u{feff}'));
        let j = line_end(s, i);
        proof {
            lemma_next_sep(s, '\n', i);
        }
        if starts_with(t, seq!['#', ' ']) || starts_with(t, seq!['#', '\t']) {
            Some(trim(t.subrange(2, t.len() as int)))
        } else if j < s.len() {
            title_from(s, j + 1)
        } else {
            None
        }
    }
}

/// A page's title: its first heading (see `title_from`), else the file
/// name without its `.md` suffixes.
pub open spec fn spec_extract_title(content: Seq<char>, file_name: Seq<char>) -> Seq<char> {
    match title_from(content, 0) {
        Some(t) => t,
        None => trim_end_str(file_name, ".md"@),
    }
}

fn trim_start_bom(s: &[char]) -> (r: Vec<char>)
    ensures
        r@ == trim_start_char(s@, '\u{feff}'),
{
    let n = s.len();
    let mut a: usize = 0;
    assert(s@.subrange(0, n as int) =~= s@);
    while a < n && s[a] == '\u{feff}'
        invariant
            a <= n == s@.len(),
            trim_start_char(s@, '\u{feff}') == trim_start_char(s@.subrange(a as int, n as int), '\u{feff}'),
        decreases n - a,
    {
        assert(s@.subrange(a as int, n as int).drop_first() =~= s@.subrange(a + 1, n as int));
        a += 1;
    }
    crate::text::slice_chars(s, a, n)
}

/// The title of a page (see `spec_extract_title`).
pub fn extract_title(content: &str, file_name: &str) -> (r: String)
    ensures
        r@ == spec_extract_title(content@, file_name@),
{
    let s = chars_of(content);
    let n = s.len();
    let mut i: usize = 0;
    while i < n
        invariant
            n == s@.len(),
            s@ == content@,
            i <= n,
            title_from(s@, 0) == title_from(s@, i as int),
        decreases n - i,
    {
        let (line, j) = crate::text::next_line(s.as_slice(), i);
        let t = crate::text::trim_chars(trim_start_bom(line.as_slice()).as_slice());
        let tl = t.len();
        if tl >= 2 && t[0] == '#' && (t[1] == ' ' || t[1] == '\t') {
            proof {
                if t[1] == ' ' {
                    assert(t@.subrange(0, 2) =~= seq!['#', ' ']);
                } else {
                    assert(t@.subrange(0, 2) =~= seq!['#', '\t']);
                }
            }
            let title = crate::text::trim_chars(&t[2..tl]);
            return string_of(title.as_slice());
        }
        proof {
            if starts_with(t@, seq!['#', ' ']) || starts_with(t@, seq!['#', '\t']) {
                assert(t@.subrange(0, 2)[0] == t@[0] && t@.subrange(0, 2)[1] == t@[1]);
            }
        }
        if j < n {
            i = j + 1;
        } else {
            return title_fallback(file_name);
        }
    }
    title_fallback(file_name)
}

fn title_fallback(file_name: &str) -> (r: String)
    ensures
        r@ == trim_end_str(file_name@, ".md"@),
{
    let f = chars_of(file_name);
    string_of(crate::text::trim_end_matches_str(f.as_slice(), chars_of(".md").as_slice()).as_slice())
}


/// The first character at or after `i` that is not alphanumeric, or the
/// length.
pub open spec fn next_non_alnum(s: Seq<char>, i: int) -> int
    decreases s.len() - i,
{
    if i >= s.len() {
        s.len() as int
    } else if !is_alphanumeric(s[i]) {
        i
    } else {
        next_non_alnum(s, i + 1)
    }
}

pub proof fn lemma_next_non_alnum(s: Seq<char>, i: int)
    requires
        0 <= i <= s.len(),
    ensures
        i <= next_non_alnum(s, i) <= s.len(),
        next_non_alnum(s, i) < s.len() ==> !is_alphanumeric(s[next_non_alnum(s, i)]),
        forall|k: int| i <= k < next_non_alnum(s, i) ==> is_alphanumeric(#[trigger] s[k]),
    decreases s.len() - i,
{
    if i < s.len() && is_alphanumeric(s[i]) {
        lemma_next_non_alnum(s, i + 1);
    }
}

/// The runs of alphanumeric characters of `s` from `i` on that are at
/// least `min_bytes` long in UTF-8, each lower-cased.
pub open spec fn word_tokens(s: Seq<char>, i: int, min_bytes: nat) -> Seq<Seq<char>>
    decreases s.len() - i,
{
    if i < 0 || i > s.len() {
        Seq::empty()
    } else {
        let j = next_non_alnum(s, i);
        proof {
            lemma_next_non_alnum(s, i);
        }
        let piece = s.subrange(i, j);
        let rest = if j < s.len() {
            word_tokens(s, j + 1, min_bytes)
        } else {
            Seq::<Seq<char>>::empty()
        };
        if piece.len() > 0 && encode_utf8(piece).len() >= min_bytes {
            seq![lowercase(piece)] + rest
        } else {
            rest
        }
    }
}


/// The lower-case words of `s` of at least `min_bytes` bytes, split at
/// every character that is not alphanumeric (see `word_tokens`).
pub fn word_tokens_of(s: &str, min_bytes: usize) -> (r: Vec<String>)
    ensures
        strings_view(r@) == word_tokens(s@, 0, min_bytes as nat),
{
    let c = chars_of(s);
    let n = c.len();
    let mut out: Vec<String> = Vec::new();
    let mut i: usize = 0;
    loop
        invariant
            n == c@.len(),
            c@ == s@,
            i <= n,
            word_tokens(s@, 0, min_bytes as nat) == strings_view(out@) + word_tokens(c@, i as int, min_bytes as nat),
        decreases n - i,
    {
        let mut j = i;
        while j < n && crate::text::char_is_alphanumeric(c[j])
            invariant
                i <= j <= n,
                n == c@.len(),
                next_non_alnum(c@, i as int) == next_non_alnum(c@, j as int),
            decreases n - j,
        {
            j += 1;
        }
        proof {
            lemma_next_non_alnum(c@, i as int);
        }
        let piece = crate::text::slice_chars(c.as_slice(), i, j);
        let ghost before = strings_view(out@);
        let ghost rest = if j < n {
            word_tokens(c@, j + 1, min_bytes as nat)
        } else {
            Seq::<Seq<char>>::empty()
        };
        let ps = string_of(piece.as_slice());
        let pstr = ps.as_str();
        assert(pstr@ == piece@);
        let kept = piece.len() > 0 && pstr.as_bytes().len() >= min_bytes;
        assert(kept == (piece@.len() > 0 && encode_utf8(piece@).len() >= min_bytes));
        if kept {
            let lower = crate::text::to_lowercase(ps.as_str());
            out.push(lower);
            assert(strings_view(out@) =~= before.push(lowercase(piece@)));
            assert(word_tokens(c@, i as int, min_bytes as nat) =~= seq![lowercase(piece@)] + rest);
            assert(before.push(lowercase(piece@)) + rest =~= before + (seq![lowercase(piece@)] + rest));
        } else {
            assert(word_tokens(c@, i as int, min_bytes as nat) =~= rest);
        }
        if j < n {
            i = j + 1;
        } else {
            assert(strings_view(out@) + rest =~= strings_view(out@));
            return out;
        }
    }
}

/// The tokens a search looks for: the lower-case words of the query of at
/// least two bytes.
pub open spec fn spec_query_tokens(query: Seq<char>) -> Seq<Seq<char>> {
    word_tokens(query, 0, 2)
}

pub fn query_tokens(query: &str) -> (r: Vec<String>)
    ensures
        strings_view(r@) == spec_query_tokens(query@),
{
    word_tokens_of(query, 2)
}

/// ASCII case folding of a byte.
pub open spec fn fold_byte(b: u8) -> u8 {
    if 65 <= b <= 90 {
        (b + 32) as u8
    } else {
        b
    }
}

/// `[u8]::eq_ignore_ascii_case`.
pub open spec fn bytes_eq_ignore_case(a: Seq<u8>, b: Seq<u8>) -> bool {
    a.len() == b.len() && forall|i: int| 0 <= i < a.len() ==> fold_byte(#[trigger] a[i]) == fold_byte(b[i])
}

/// The windows of `h` from byte `i` on that equal `n` but for ASCII case.
pub open spec fn occurrences_from(h: Seq<u8>, n: Seq<u8>, i: int) -> nat
    decreases h.len() - i,
{
    if n.len() == 0 || i < 0 || i + n.len() > h.len() {
        0
    } else {
        (if bytes_eq_ignore_case(h.subrange(i, i + n.len()), n) {
            1nat
        } else {
            0nat
        }) + occurrences_from(h, n, i + 1)
    }
}

/// How often `needle` occurs in `haystack`, overlaps included, comparing
/// UTF-8 bytes without regard to ASCII case; zero for an empty needle.
pub open spec fn spec_count_occurrences(haystack: Seq<char>, needle: Seq<char>) -> nat {
    occurrences_from(encode_utf8(haystack), encode_utf8(needle), 0)
}

fn fold(b: u8) -> (r: u8)
    ensures
        r == fold_byte(b),
{
    if 65 <= b && b <= 90 {
        b + 32
    } else {
        b
    }
}

pub fn count_occurrences(haystack: &str, needle: &str) -> (r: usize)
    ensures
        r as nat == spec_count_occurrences(haystack@, needle@),
{
    let h = haystack.as_bytes();
    let n = needle.as_bytes();
    let hl = h.len();
    let nl = n.len();
    if nl == 0 || nl > hl {
        return 0;
    }
    let mut count: usize = 0;
    let mut i: usize = hl - nl + 1;
    // Counted from the last window back to the first.
    while i > 0
        invariant
            hl == h@.len(),
            nl == n@.len(),
            0 < nl <= hl,
            i <= hl - nl + 1,
            count <= hl - nl + 1 - i,
            h@ == encode_utf8(haystack@),
            n@ == encode_utf8(needle@),
            count as nat == occurrences_from(h@, n@, i as int),
        decreases i,
    {
        i -= 1;
        let mut k: usize = 0;
        let mut same = true;
        while k < nl
            invariant
                k <= nl,
                i + nl <= hl,
                hl == h@.len(),
                nl == n@.len(),
                same == (forall|t: int| 0 <= t < k ==> fold_byte(#[trigger] h@[i + t]) == fold_byte(n@[t])),
            decreases nl - k,
        {
            if fold(h[i + k]) != fold(n[k]) {
                same = false;
            }
            k += 1;
        }
        proof {
            let w = h@.subrange(i as int, i + nl);
            assert(same == bytes_eq_ignore_case(w, n@)) by {
                if same {
                    assert forall|t: int| 0 <= t < w.len() implies fold_byte(#[trigger] w[t]) == fold_byte(n@[t]) by {
                        assert(w[t] == h@[i + t]);
                    }
                } else {
                    let t = choose|t: int| 0 <= t < nl && !(fold_byte(#[trigger] h@[i + t]) == fold_byte(n@[t]));
                    assert(w[t] == h@[i + t]);
                }
            }
        }
        if same {
            count += 1;
        }
    }
    count
}


/// `str::find` with a string pattern, on UTF-8 bytes: the first index
/// where `n` occurs in `h`, and 0 for an empty `n`.
pub open spec fn str_find(h: Seq<u8>, n: Seq<u8>) -> Option<int> {
    if n.len() == 0 {
        Some(0)
    } else {
        find_from(h, n, 0)
    }
}

/// The byte range of a page that a snippet shows: from 40 bytes before
/// the first case-insensitive occurrence of the query to 80 bytes after
/// it, within the page; `None` where the query does not occur.
pub open spec fn snippet_window(content: Seq<char>, query: Seq<char>) -> Option<(int, int)> {
    let lc = encode_utf8(lowercase(content));
    let lq = encode_utf8(lowercase(query));
    let cb = encode_utf8(content);
    match str_find(lc, lq) {
        None => None,
        Some(idx) => {
            let start = if idx >= 40 {
                idx - 40
            } else {
                0
            };
            let end = idx + lq.len() + 80;
            Some((start, if end < cb.len() { end } else { cb.len() as int }))
        },
    }
}

/// Whether the snippet can be cut: the window ends fit in `usize` and fall
/// on character boundaries of the page, in order. Lower-casing can change
/// byte lengths, so an occurrence found in the lower-cased page need not
/// line up with the page itself; slicing there panics.
pub open spec fn snippet_ok(content: Seq<char>, query: Seq<char>) -> bool {
    let lc = encode_utf8(lowercase(content));
    let lq = encode_utf8(lowercase(query));
    let cb = encode_utf8(content);
    match str_find(lc, lq) {
        None => true,
        Some(idx) => {
            let (a, b) = snippet_window(content, query)->0;
            &&& idx + lq.len() + 80 <= usize::MAX
            &&& a <= b
            &&& is_char_boundary(cb, a)
            &&& is_char_boundary(cb, b)
        },
    }
}

/// The first `k` lines of `s` from the line at `i`, joined by `\n`.
pub open spec fn first_lines(s: Seq<char>, i: int, k: nat) -> Seq<char>
    decreases s.len() - i,
{
    if i < 0 || i >= s.len() || k == 0 {
        Seq::empty()
    } else {
        let j = line_end(s, i);
        proof {
            lemma_next_sep(s, '\n', i);
        }
        if j + 1 < s.len() && k > 1 {
            line_at(s, i) + seq!['\n'] + first_lines(s, j + 1, (k - 1) as nat)
        } else {
            line_at(s, i)
        }
    }
}

/// A page's snippet for a query: the window around the query's first
/// occurrence, marked with `…` where it cuts the page short; else the
/// page's first three lines.
pub open spec fn spec_snippet(content: Seq<char>, query: Seq<char>) -> Seq<char> {
    let cb = encode_utf8(content);
    match snippet_window(content, query) {
        Some((a, b)) => (if a > 0 {
            seq!['\u{2026}']
        } else {
            Seq::empty()
        }) + decode_utf8(cb.subrange(a, b)) + (if b < cb.len() {
            seq!['\u{2026}']
        } else {
            Seq::empty()
        }),
        None => first_lines(content, 0, 3),
    }
}

fn first_three_lines(content: &str) -> (r: Vec<char>)
    ensures
        r@ == first_lines(content@, 0, 3),
{
    let s = chars_of(content);
    let n = s.len();
    let mut out: Vec<char> = Vec::new();
    let mut i: usize = 0;
    let mut k: usize = 3;
    while i < n && k > 0
        invariant
            n == s@.len(),
            s@ == content@,
            i <= n,
            k <= 3,
            first_lines(s@, 0, 3) == out@ + first_lines(s@, i as int, k as nat),
        decreases n - i,
    {
        let (line, j) = crate::text::next_line(s.as_slice(), i);
        let mut l = line;
        let ghost before = out@;
        out.append(&mut l);
        if j < n && j + 1 < n && k > 1 {
            out.push('\n');
            assert(out@ + first_lines(s@, j + 1, (k - 1) as nat) =~= before + (line_at(s@, i as int) + seq!['\n']
                + first_lines(s@, j + 1, (k - 1) as nat)));
            i = j + 1;
            k -= 1;
        } else {
            assert(out@ =~= before + line_at(s@, i as int));
            assert(out@ + first_lines(s@, n as int, 0) =~= out@);
            i = n;
        }
    }
    assert(out@ + first_lines(s@, i as int, k as nat) =~= out@);
    out
}

/// `str_find` on byte slices.
fn find_str(h: &[u8], n: &[u8]) -> (r: Option<usize>)
    ensures
        match r {
            Some(k) => str_find(h@, n@) == Some(k as int),
            None => str_find(h@, n@) is None,
        },
{
    if n.len() == 0 {
        return Some(0);
    }
    find_sequence(h, n)
}

/// The snippet of a page for a query (see `spec_snippet`).
pub fn build_snippet(content: &str, query: &str) -> (r: String)
    requires
        snippet_ok(content@, query@),
    ensures
        r@ == spec_snippet(content@, query@),
{
    let lower_content = crate::text::to_lowercase(content);
    let lower_query = crate::text::to_lowercase(query);
    let lc = lower_content.as_str().as_bytes();
    let lq = lower_query.as_str().as_bytes();
    let cb = content.as_bytes();
    match find_str(lc, lq) {
        Some(idx) => {
            let start = if idx >= 40 {
                idx - 40
            } else {
                0
            };
            let reach = idx + lq.len() + 80;
            let end = if reach < cb.len() {
                reach
            } else {
                cb.len()
            };
            proof {
                vstd::utf8::encode_utf8_valid_utf8(content@);
                vstd::utf8::valid_utf8_split(cb@, start as int);
                let rest = cb@.subrange(start as int, cb@.len() as int);
                assert(valid_utf8(rest));
                if end < cb@.len() {
                    vstd::utf8::is_char_boundary_iff_not_is_continuation_byte(cb@, end as int);
                    vstd::utf8::is_char_boundary_iff_not_is_continuation_byte(rest, end - start);
                    assert(rest[end - start] == cb@[end as int]);
                } else {
                    vstd::utf8::is_char_boundary_start_end_of_seq(rest);
                }
                assert(is_char_boundary(rest, end - start));
            }
            let (_, tail) = content.split_at(start);
            let (mid, _) = tail.split_at(end - start);
            proof {
                assert(mid.spec_bytes() =~= cb@.subrange(start as int, end as int));
                vstd::utf8::encode_utf8_decode_utf8(mid@);
            }
            let mut out: Vec<char> = Vec::new();
            if start > 0 {
                out.push('\u{2026}');
            }
            let mut m = chars_of(mid);
            out.append(&mut m);
            if end < cb.len() {
                out.push('\u{2026}');
            }
            proof {
                let pre: Seq<char> = if start > 0 {
                    seq!['\u{2026}']
                } else {
                    Seq::empty()
                };
                let post: Seq<char> = if end < cb@.len() {
                    seq!['\u{2026}']
                } else {
                    Seq::empty()
                };
                assert(out@ =~= pre + decode_utf8(cb@.subrange(start as int, end as int)) + post);
            }
            string_of(out.as_slice())
        },
        None => string_of(first_three_lines(content).as_slice()),
    }
}

/// `build_snippet` where the snippet can be cut, `None` where slicing the
/// page there would panic.
pub fn try_build_snippet(content: &str, query: &str) -> (r: Option<String>)
    ensures
        r is Some <==> snippet_ok(content@, query@),
        r matches Some(s) ==> s@ == spec_snippet(content@, query@),
{
    let lower_content = crate::text::to_lowercase(content);
    let lower_query = crate::text::to_lowercase(query);
    let lc = lower_content.as_str().as_bytes();
    let lq = lower_query.as_str().as_bytes();
    let cb = content.as_bytes();
    match find_str(lc, lq) {
        Some(idx) => {
            if lq.len() > usize::MAX - 80 || idx > usize::MAX - 80 - lq.len() {
                return None;
            }
            let start = if idx >= 40 {
                idx - 40
            } else {
                0
            };
            let reach = idx + lq.len() + 80;
            let end = if reach < cb.len() {
                reach
            } else {
                cb.len()
            };
            if start > end || !content.is_char_boundary(start) || !content.is_char_boundary(end) {
                return None;
            }
            Some(build_snippet(content, query))
        },
        None => Some(build_snippet(content, query)),
    }
}


/// The first line of `s`, from the line at `i` on, that starts with `# `.
pub open spec fn heading_line_from(s: Seq<char>, i: int) -> Option<Seq<char>>
    decreases s.len() - i,
{
    if i < 0 || i >= s.len() {
        None
    } else {
        let j = line_end(s, i);
        proof {
            lemma_next_sep(s, '\n', i);
        }
        if starts_with(line_at(s, i), seq!['#', ' ']) {
            Some(line_at(s, i))
        } else if j < s.len() {
            heading_line_from(s, j + 1)
        } else {
            None
        }
    }
}

/// Whether the page's first `# ` heading line contains the query, both
/// lower-cased.
pub open spec fn spec_title_match(content: Seq<char>, query: Seq<char>) -> bool {
    match heading_line_from(content, 0) {
        Some(l) => contains_seq(lowercase(l), lowercase(query)),
        None => false,
    }
}

/// Title matching ignores the query's case: two queries with the same
/// lower-case form match the same pages (a heading `# Rust Notes` matches
/// `Rust` as it matches `rust`).
pub proof fn lemma_title_match_ignores_query_case(content: Seq<char>, q1: Seq<char>, q2: Seq<char>)
    requires
        lowercase(q1) == lowercase(q2),
    ensures
        spec_title_match(content, q1) == spec_title_match(content, q2),
{
}

/// Title matching ignores the heading's case: two pages whose first `# `
/// headings have the same lower-case form match the same queries.
pub proof fn lemma_title_match_ignores_heading_case(c1: Seq<char>, c2: Seq<char>, query: Seq<char>)
    requires
        heading_line_from(c1, 0) matches Some(l1) && heading_line_from(c2, 0) matches Some(l2) && lowercase(l1)
            == lowercase(l2),
    ensures
        spec_title_match(c1, query) == spec_title_match(c2, query),
{
}

/// A search hit's title flag ignores the query's case too.
pub proof fn lemma_hit_title_flag_ignores_query_case(
    src: SearchSourceView,
    q1: Seq<char>,
    q2: Seq<char>,
    tokens: Seq<Seq<char>>,
    include_content: bool,
)
    requires
        lowercase(q1) == lowercase(q2),
    ensures
        page_hit(src, q1, tokens, include_content) matches Some(h1) ==> page_hit(src, q2, tokens, include_content)
            matches Some(h2) && h1.title_match == h2.title_match,
{
}

/// The total of the tokens' occurrence counts in `lower`, saturating at
/// `usize::MAX`.
pub open spec fn token_score(lower: Seq<char>, tokens: Seq<Seq<char>>) -> nat
    decreases tokens.len(),
{
    if tokens.len() == 0 {
        0
    } else {
        let t = token_score(lower, tokens.drop_last()) + spec_count_occurrences(lower, tokens.last());
        if t > usize::MAX {
            usize::MAX as nat
        } else {
            t
        }
    }
}

pub fn heading_line(content: &str) -> (r: Option<Vec<char>>)
    ensures
        (match r {
            Some(v) => Some(v@),
            None => None,
        }) == heading_line_from(content@, 0),
{
    let s = chars_of(content);
    let n = s.len();
    let mut i: usize = 0;
    while i < n
        invariant
            n == s@.len(),
            s@ == content@,
            i <= n,
            heading_line_from(s@, 0) == heading_line_from(s@, i as int),
        decreases n - i,
    {
        let (line, j) = crate::text::next_line(s.as_slice(), i);
        if line.len() >= 2 && line[0] == '#' && line[1] == ' ' {
            assert(line@.subrange(0, 2) =~= seq!['#', ' ']);
            return Some(line);
        }
        proof {
            if starts_with(line@, seq!['#', ' ']) {
                assert(line@.subrange(0, 2)[0] == line@[0] && line@.subrange(0, 2)[1] == line@[1]);
            }
        }
        if j < n {
            i = j + 1;
        } else {
            return None;
        }
    }
    None
}

pub fn title_match(content: &str, query: &str) -> (r: bool)
    ensures
        r == spec_title_match(content@, query@),
{
    match heading_line(content) {
        Some(line) => {
            let l = crate::text::lowercase_chars(line.as_slice());
            let q = chars_of(crate::text::to_lowercase(query).as_str());
            crate::text::contains_chars(l.as_slice(), q.as_slice())
        },
        None => false,
    }
}

/// The score of a page's lower-cased text for the query tokens.
pub fn page_score(lower: &str, tokens: &Vec<String>) -> (r: usize)
    ensures
        r as nat == token_score(lower@, strings_view(tokens@)),
{
    let ghost tv = strings_view(tokens@);
    let mut score: usize = 0;
    let mut i: usize = 0;
    assert(tv.subrange(0, 0) =~= Seq::<Seq<char>>::empty());
    while i < tokens.len()
        invariant
            i <= tokens@.len(),
            tv == strings_view(tokens@),
            score as nat == token_score(lower@, tv.subrange(0, i as int)),
        decreases tokens@.len() - i,
    {
        proof {
            assert(tv.subrange(0, i + 1).drop_last() =~= tv.subrange(0, i as int));
            assert(tv.subrange(0, i + 1).last() == tv[i as int]);
        }
        let c = count_occurrences(lower, tokens[i].as_str());
        score = score.saturating_add(c);
        i += 1;
    }
    assert(tv.subrange(0, tv.len() as int) =~= tv);
    score
}

/// A wiki page, as read from disk, that a search looks at.
pub struct SearchSource {
    /// The page's path below the wiki directory.
    pub path: String,
    pub file_name: String,
    pub content: String,
}

pub struct SearchSourceView {
    pub path: Seq<char>,
    pub file_name: Seq<char>,
    pub content: Seq<char>,
}

impl View for SearchSource {
    type V = SearchSourceView;

    open spec fn view(&self) -> SearchSourceView {
        SearchSourceView { path: self.path@, file_name: self.file_name@, content: self.content@ }
    }
}

pub open spec fn search_sources_view(v: Seq<SearchSource>) -> Seq<SearchSourceView> {
    v.map_values(|s: SearchSource| s@)
}

pub struct HitView {
    pub path: Seq<char>,
    pub title: Seq<char>,
    pub snippet: Seq<char>,
    pub title_match: bool,
    pub score: nat,
}

/// A page that matched a search.
pub struct SearchHit {
    pub path: String,
    pub title: String,
    pub snippet: String,
    pub title_match: bool,
    pub score: usize,
}

impl View for SearchHit {
    type V = HitView;

    open spec fn view(&self) -> HitView {
        HitView {
            path: self.path@,
            title: self.title@,
            snippet: self.snippet@,
            title_match: self.title_match,
            score: self.score as nat,
        }
    }
}

pub open spec fn hits_view(v: Seq<SearchHit>) -> Seq<HitView> {
    v.map_values(|h: SearchHit| h@)
}

/// The hit a page makes: where its score is positive or its heading
/// matches, with its title and either its first 2000 characters or its
/// snippet.
pub open spec fn page_hit(src: SearchSourceView, query: Seq<char>, tokens: Seq<Seq<char>>, include_content: bool) -> Option<
    HitView,
> {
    let score = token_score(lowercase(src.content), tokens);
    let tm = spec_title_match(src.content, query);
    if score == 0 && !tm {
        None
    } else {
        Some(
            HitView {
                path: src.path,
                title: spec_extract_title(src.content, src.file_name),
                snippet: if include_content {
                    if src.content.len() > 2000 {
                        src.content.take(2000)
                    } else {
                        src.content
                    }
                } else {
                    spec_snippet(src.content, query)
                },
                title_match: tm,
                score,
            },
        )
    }
}

/// The hits of the pages from `i` on, where `room` more results fit
/// before the search stops.
pub open spec fn hits_from(
    srcs: Seq<SearchSourceView>,
    i: int,
    query: Seq<char>,
    tokens: Seq<Seq<char>>,
    include_content: bool,
    room: int,
) -> Seq<HitView>
    decreases srcs.len() - i,
{
    if i < 0 || i >= srcs.len() {
        Seq::empty()
    } else {
        match page_hit(srcs[i], query, tokens, include_content) {
            None => hits_from(srcs, i + 1, query, tokens, include_content, room),
            Some(h) => if room <= 1 {
                seq![h]
            } else {
                seq![h] + hits_from(srcs, i + 1, query, tokens, include_content, room - 1)
            },
        }
    }
}

/// Whether every page the search reaches can have its snippet cut.
pub open spec fn hits_ok(
    srcs: Seq<SearchSourceView>,
    i: int,
    query: Seq<char>,
    tokens: Seq<Seq<char>>,
    include_content: bool,
    room: int,
) -> bool
    decreases srcs.len() - i,
{
    if i < 0 || i >= srcs.len() {
        true
    } else {
        match page_hit(srcs[i], query, tokens, include_content) {
            None => hits_ok(srcs, i + 1, query, tokens, include_content, room),
            Some(h) => (include_content || snippet_ok(srcs[i].content, query)) && (room <= 1 || hits_ok(
                srcs,
                i + 1,
                query,
                tokens,
                include_content,
                room - 1,
            )),
        }
    }
}

/// A keyword search over wiki pages: an error for a blank query; no hits
/// where the query has no token; else the hits of the pages in order, at
/// most `top_k` of them (at least one, where there is a hit).
pub open spec fn spec_search(srcs: Seq<SearchSourceView>, query: Seq<char>, top_k: nat, include_content: bool) -> Result<
    Seq<HitView>,
    Seq<char>,
> {
    if trim(query).len() == 0 {
        Err("query is required"@)
    } else if spec_query_tokens(query).len() == 0 {
        Ok(Seq::empty())
    } else {
        Ok(hits_from(srcs, 0, query, spec_query_tokens(query), include_content, top_k as int))
    }
}

proof fn lemma_hits_from_bounded(
    srcs: Seq<SearchSourceView>,
    i: int,
    query: Seq<char>,
    tokens: Seq<Seq<char>>,
    include_content: bool,
    room: int,
)
    ensures
        hits_from(srcs, i, query, tokens, include_content, room).len() <= if room <= 1 { 1 } else { room },
    decreases srcs.len() - i,
{
    if 0 <= i < srcs.len() {
        match page_hit(srcs[i], query, tokens, include_content) {
            None => lemma_hits_from_bounded(srcs, i + 1, query, tokens, include_content, room),
            Some(h) => if room > 1 {
                lemma_hits_from_bounded(srcs, i + 1, query, tokens, include_content, room - 1);
            },
        }
    }
}

/// A search returns at most `top_k` pages (one, where `top_k` is 0).
pub proof fn lemma_search_at_most_top_k(
    srcs: Seq<SearchSourceView>,
    query: Seq<char>,
    top_k: nat,
    include_content: bool,
)
    ensures
        spec_search(srcs, query, top_k, include_content) matches Ok(hits) ==> hits.len() <= if top_k == 0 {
            1
        } else {
            top_k
        },
{
    lemma_hits_from_bounded(srcs, 0, query, spec_query_tokens(query), include_content, top_k as int);
}

pub open spec fn search_ok(srcs: Seq<SearchSourceView>, query: Seq<char>, top_k: nat, include_content: bool) -> bool {
    trim(query).len() == 0 || spec_query_tokens(query).len() == 0 || hits_ok(
        srcs,
        0,
        query,
        spec_query_tokens(query),
        include_content,
        top_k as int,
    )
}

/// The pages that matched, and how many did (always the number of results).
pub struct SearchOutcome {
    pub results: Vec<SearchHit>,
    pub token_hits: usize,
}

fn first_chars(content: &str, limit: usize) -> (r: String)
    ensures
        r@ == (if content@.len() > limit {
            content@.take(limit as int)
        } else {
            content@
        }),
{
    let c = chars_of(content);
    if c.len() > limit {
        let t = crate::text::slice_chars(c.as_slice(), 0, limit);
        string_of(t.as_slice())
    } else {
        string_of(c.as_slice())
    }
}

/// The search, or `None` where a page it reaches cannot have its snippet
/// cut (see `snippet_ok`).
pub fn try_search_project_inner(sources: &[SearchSource], query: &str, top_k: usize, include_content: bool) -> (r: Option<
    Result<SearchOutcome, String>,
>)
    ensures
        r is Some <==> search_ok(search_sources_view(sources@), query@, top_k as nat, include_content),
        r matches Some(res) ==> match res {
            Ok(o) => spec_search(search_sources_view(sources@), query@, top_k as nat, include_content) == Ok::<
                Seq<HitView>,
                Seq<char>,
            >(hits_view(o.results@)) && o.token_hits == o.results@.len(),
            Err(e) => spec_search(search_sources_view(sources@), query@, top_k as nat, include_content) == Err::<
                Seq<HitView>,
                Seq<char>,
            >(e@),
        },
{
    let ghost srcs = search_sources_view(sources@);
    let q = chars_of(query);
    if crate::text::trim_chars(q.as_slice()).len() == 0 {
        return Some(Err("query is required".to_string()));
    }
    let tokens = query_tokens(query);
    let ghost tv = strings_view(tokens@);
    let mut results: Vec<SearchHit> = Vec::new();
    if tokens.len() == 0 {
        assert(hits_view(results@) =~= Seq::<HitView>::empty());
        return Some(Ok(SearchOutcome { results, token_hits: 0 }));
    }
    let mut i: usize = 0;
    let mut room: usize = top_k;
    let mut token_hits: usize = 0;
    while i < sources.len()
        invariant
            i <= sources@.len(),
            srcs == search_sources_view(sources@),
            tv == strings_view(tokens@),
            tv == spec_query_tokens(query@),
            tv.len() > 0,
            trim(query@).len() != 0,
            token_hits == results@.len(),
            results@.len() + room == top_k || (top_k == 0 && results@.len() == 0 && room == 0),
            hits_from(srcs, 0, query@, tv, include_content, top_k as int) == hits_view(results@) + hits_from(
                srcs,
                i as int,
                query@,
                tv,
                include_content,
                room as int,
            ),
            hits_ok(srcs, 0, query@, tv, include_content, top_k as int) == hits_ok(
                srcs,
                i as int,
                query@,
                tv,
                include_content,
                room as int,
            ),
        decreases sources@.len() - i,
    {
        let src = &sources[i];
        let lower = crate::text::to_lowercase(src.content.as_str());
        let score = page_score(lower.as_str(), &tokens);
        let tm = title_match(src.content.as_str(), query);
        assert(srcs[i as int] == src@);
        if score == 0 && !tm {
            i += 1;
        } else {
            let snippet = if include_content {
                first_chars(src.content.as_str(), 2000)
            } else {
                match try_build_snippet(src.content.as_str(), query) {
                    Some(s) => s,
                    None => {
                        return None;
                    },
                }
            };
            let hit = SearchHit {
                path: src.path.clone(),
                title: extract_title(src.content.as_str(), src.file_name.as_str()),
                snippet,
                title_match: tm,
                score,
            };
            assert(page_hit(srcs[i as int], query@, tv, include_content) == Some(hit@));
            let ghost before = hits_view(results@);
            results.push(hit);
            token_hits = results.len();
            assert(hits_view(results@) =~= before.push(hit@));
            if room <= 1 {
                assert(hits_view(results@) =~= before + seq![hit@]);
                return Some(Ok(SearchOutcome { results, token_hits }));
            }
            assert(before + (seq![hit@] + hits_from(srcs, i + 1, query@, tv, include_content, room - 1))
                =~= hits_view(results@) + hits_from(srcs, i + 1, query@, tv, include_content, room - 1));
            room -= 1;
            i += 1;
        }
    }
    assert(hits_view(results@) + Seq::<HitView>::empty() =~= hits_view(results@));
    Some(Ok(SearchOutcome { results, token_hits }))
}

/// The keyword search over the pages read from the wiki (see
/// `spec_search`).
pub fn search_project_inner(sources: &[SearchSource], query: &str, top_k: usize, include_content: bool) -> (r: Result<
    SearchOutcome,
    String,
>)
    requires
        search_ok(search_sources_view(sources@), query@, top_k as nat, include_content),
    ensures
        match r {
            Ok(o) => spec_search(search_sources_view(sources@), query@, top_k as nat, include_content) == Ok::<
                Seq<HitView>,
                Seq<char>,
            >(hits_view(o.results@)) && o.token_hits == o.results@.len(),
            Err(e) => spec_search(search_sources_view(sources@), query@, top_k as nat, include_content) == Err::<
                Seq<HitView>,
                Seq<char>,
            >(e@),
        },
{
    match try_search_project_inner(sources, query, top_k, include_content) {
        Some(r) => r,
        None => {
            proof {
                assert(false);
            }
            Err(String::new())
        },
    }
}

} // verus!
