//! Request helpers of the local HTTP API: URL splitting and query decoding,
//! the lexical checks on project-relative paths, and what the API reads
//! from wiki pages (page type, wikilinks, link targets).
use vstd::prelude::*;
use vstd::utf8::encode_utf8;

use crate::app_state::path_join;
use crate::text::{
    chars_of, find_chars_from, lemma_find_chars_from, line_at, line_end, lowercase, next_sep,
    lemma_next_sep, starts_with, string_of, trim, trim_char,
};
use crate::utf8::{decode_utf8_lossy, utf8_lossy};

verus! {

/// The path and query of a URL: split at the first `?`; the query is empty
/// where there is none.
pub open spec fn spec_split_url(url: Seq<char>) -> (Seq<char>, Seq<char>) {
    let q = next_sep(url, '?', 0);
    if q < url.len() {
        (url.subrange(0, q), url.subrange(q + 1, url.len() as int))
    } else {
        (url, seq![])
    }
}

/// Splits a URL into its path and its query (see `spec_split_url`).
pub fn split_url(url: &str) -> (r: (String, String))
    ensures
        (r.0@, r.1@) == spec_split_url(url@),
{
    let cs = chars_of(url);
    let q = crate::text::find_char(cs.as_slice(), '?', 0);
    proof {
        lemma_next_sep(cs@, '?', 0);
    }
    if q < cs.len() {
        (string_of(&cs[0..q]), string_of(&cs[q + 1..cs.len()]))
    } else {
        (string_of(cs.as_slice()), String::new())
    }
}

/// The value of a hex digit byte.
pub open spec fn hex_val(b: u8) -> Option<u8> {
    if 48 <= b <= 57 {
        Some((b - 48) as u8)
    } else if 97 <= b <= 102 {
        Some((b - 87) as u8)
    } else if 65 <= b <= 70 {
        Some((b - 55) as u8)
    } else {
        None
    }
}

fn hex_value(b: u8) -> (r: Option<u8>)
    ensures
        r == hex_val(b),
{
    if 48 <= b && b <= 57 {
        Some(b - 48)
    } else if 97 <= b && b <= 102 {
        Some(b - 87)
    } else if 65 <= b && b <= 70 {
        Some(b - 55)
    } else {
        None
    }
}

/// The bytes of a percent-decoding from index `i` on, after `acc`: `%` and
/// two hex digits give one byte, `+` gives a space, any other byte stays.
pub open spec fn pct_from(b: Seq<u8>, i: int, acc: Seq<u8>) -> Seq<u8>
    decreases b.len() - i,
{
    if i < 0 || i >= b.len() {
        acc
    } else if b[i] == 37u8 && i + 2 < b.len() && hex_val(b[i + 1]) is Some && hex_val(b[i + 2]) is Some {
        pct_from(b, i + 3, acc.push((hex_val(b[i + 1])->0 * 16 + hex_val(b[i + 2])->0) as u8))
    } else {
        pct_from(b, i + 1, acc.push(if b[i] == 43u8 { 32u8 } else { b[i] }))
    }
}

/// Percent-decoding of the UTF-8 bytes of `s`, read back as UTF-8 lossily.
pub open spec fn spec_percent_decode(s: Seq<char>) -> Seq<char> {
    utf8_lossy(pct_from(encode_utf8(s), 0, seq![]))
}

/// Decodes `%XX` escapes and `+` in a URL component (see `spec_percent_decode`).
pub fn percent_decode(input: &str) -> (r: String)
    ensures
        r@ == spec_percent_decode(input@),
{
    let bytes = input.as_bytes();
    let n = bytes.len();
    let mut out: Vec<u8> = Vec::new();
    let mut i: usize = 0;
    while i < n
        invariant
            n == bytes@.len(),
            bytes@ == encode_utf8(input@),
            i <= n,
            pct_from(bytes@, 0, seq![]) == pct_from(bytes@, i as int, out@),
        decreases n - i,
    {
        if bytes[i] == 37u8 && n >= 2 && i < n - 2 {
            match (hex_value(bytes[i + 1]), hex_value(bytes[i + 2])) {
                (Some(hi), Some(lo)) => {
                    out.push(hi * 16 + lo);
                    i += 3;
                    continue;
                },
                _ => {},
            }
        }
        out.push(if bytes[i] == 43u8 { 32u8 } else { bytes[i] });
        i += 1;
    }
    decode_utf8_lossy(out.as_slice())
}

/// Query parameters, in the order given; a later one of a name replaces an
/// earlier one.
#[derive(Debug, Clone)]
pub struct QueryParams {
    pairs: Vec<(String, String)>,
}

/// The map of a list of pairs; a later pair of a key replaces an earlier one.
pub open spec fn pairs_map(s: Seq<(Seq<char>, Seq<char>)>) -> Map<Seq<char>, Seq<char>>
    decreases s.len(),
{
    if s.len() == 0 {
        Map::empty()
    } else {
        pairs_map(s.drop_last()).insert(s.last().0, s.last().1)
    }
}

pub open spec fn string_pairs_view(v: Seq<(String, String)>) -> Seq<(Seq<char>, Seq<char>)> {
    v.map_values(|p: (String, String)| (p.0@, p.1@))
}

impl View for QueryParams {
    type V = Map<Seq<char>, Seq<char>>;

    closed spec fn view(&self) -> Map<Seq<char>, Seq<char>> {
        pairs_map(string_pairs_view(self.pairs@))
    }
}

impl QueryParams {
    /// The value of the parameter `name`.
    pub fn get(&self, name: &str) -> (r: Option<&String>)
        ensures
            r is Some <==> self@.contains_key(name@),
            r matches Some(v) ==> v@ == self@[name@],
    {
        let key = chars_of(name);
        let ghost all = string_pairs_view(self.pairs@);
        let mut i = self.pairs.len();
        assert(all.subrange(0, i as int) =~= all);
        while i > 0
            invariant
                i <= self.pairs@.len(),
                all == string_pairs_view(self.pairs@),
                key@ == name@,
                pairs_map(all).contains_key(name@) == pairs_map(all.subrange(0, i as int)).contains_key(name@),
                pairs_map(all).contains_key(name@) ==> pairs_map(all)[name@] == pairs_map(all.subrange(0, i as int))[name@],
            decreases i,
        {
            let ghost pre = all.subrange(0, i as int);
            assert(pre.last() == all[i - 1]);
            assert(pre.drop_last() =~= all.subrange(0, i - 1));
            let k = chars_of(self.pairs[i - 1].0.as_str());
            if crate::text::same_chars(k.as_slice(), key.as_slice()) {
                return Some(&self.pairs[i - 1].1);
            }
            i -= 1;
        }
        assert(all.subrange(0, 0) =~= seq![]);
        None
    }
}

/// The name and value of one `&`-separated piece: split at the first `=`;
/// the value is empty where there is none.
pub open spec fn query_pair(piece: Seq<char>) -> (Seq<char>, Seq<char>) {
    let k = next_sep(piece, '=', 0);
    if k < piece.len() {
        (piece.subrange(0, k), piece.subrange(k + 1, piece.len() as int))
    } else {
        (piece, seq![])
    }
}

/// The decoded pairs of the non-empty `&`-separated pieces from index `i` on.
pub open spec fn query_pairs_from(s: Seq<char>, i: int, acc: Seq<(Seq<char>, Seq<char>)>) -> Seq<
    (Seq<char>, Seq<char>),
>
    decreases s.len() - i,
{
    if i < 0 || i > s.len() {
        acc
    } else {
        let j = next_sep(s, '&', i);
        proof {
            lemma_next_sep(s, '&', i);
        }
        let piece = s.subrange(i, j);
        let acc2 = if piece.len() > 0 {
            let kv = query_pair(piece);
            acc.push((spec_percent_decode(kv.0), spec_percent_decode(kv.1)))
        } else {
            acc
        };
        if j < s.len() {
            query_pairs_from(s, j + 1, acc2)
        } else {
            acc2
        }
    }
}

/// The parameters of a query string, decoded.
pub open spec fn spec_parse_query(s: Seq<char>) -> Map<Seq<char>, Seq<char>> {
    pairs_map(query_pairs_from(s, 0, seq![]))
}

/// Parses a query string into its decoded parameters (see `spec_parse_query`).
pub fn parse_query(query: &str) -> (r: QueryParams)
    ensures
        r@ == spec_parse_query(query@),
{
    let s = chars_of(query);
    let n = s.len();
    let mut pairs: Vec<(String, String)> = Vec::new();
    let mut i: usize = 0;
    assert(string_pairs_view(pairs@) =~= seq![]);
    loop
        invariant
            n == s@.len(),
            s@ == query@,
            i <= n,
            query_pairs_from(s@, 0, seq![]) == query_pairs_from(s@, i as int, string_pairs_view(pairs@)),
        decreases n - i,
    {
        let j = crate::text::find_char(s.as_slice(), '&', i);
        proof {
            lemma_next_sep(s@, '&', i as int);
        }
        if j > i {
            let piece = &s[i..j];
            let k = crate::text::find_char(piece, '=', 0);
            proof {
                lemma_next_sep(piece@, '=', 0);
            }
            let (key, value) = if k < piece.len() {
                (string_of(&piece[0..k]), string_of(&piece[k + 1..piece.len()]))
            } else {
                (string_of(piece), String::new())
            };
            let ghost before = string_pairs_view(pairs@);
            let dk = percent_decode(key.as_str());
            let dv = percent_decode(value.as_str());
            pairs.push((dk, dv));
            assert(string_pairs_view(pairs@) =~= before.push((dk@, dv@)));
        }
        if j < n {
            i = j + 1;
        } else {
            let r = QueryParams { pairs };
            return r;
        }
    }
}


/// A failed file operation: the HTTP status to answer and the message.
#[derive(Debug, Clone)]
pub struct FileOpError {
    pub status: u16,
    pub message: String,
}

/// A node of a project file listing.
#[derive(Debug)]
pub struct ApiFileNode {
    pub name: String,
    pub path: String,
    pub is_dir: bool,
    pub size: Option<u64>,
    pub children: Option<Vec<ApiFileNode>>,
}

pub open spec fn slash_for_backslash(s: Seq<char>) -> Seq<char> {
    s.map_values(|c: char| if c == '\\' { '/' } else { c })
}

/// Some `/`-separated piece from index `i` on is empty or starts with `.`.
pub open spec fn hidden_or_empty_part_from(s: Seq<char>, i: int) -> bool
    decreases s.len() - i,
{
    if i < 0 || i > s.len() {
        false
    } else {
        let j = next_sep(s, '/', i);
        proof {
            lemma_next_sep(s, '/', i);
        }
        ||| j == i
        ||| s[i] == '.'
        ||| (j < s.len() && hidden_or_empty_part_from(s, j + 1))
    }
}

/// The project files the local API exposes: none with an empty or hidden
/// (`.`-prefixed) path segment; `purpose.md`, `schema.md`, and what lies
/// under `wiki/` or `raw/sources/` (compared lower-cased).
pub open spec fn spec_is_public_project_rel(rel: Seq<char>) -> bool {
    let r = crate::text::trim_start_char(slash_for_backslash(rel), '/');
    if hidden_or_empty_part_from(r, 0) {
        false
    } else {
        let l = lowercase(r);
        ||| l == "purpose.md"@
        ||| l == "schema.md"@
        ||| starts_with(l, "wiki/"@)
        ||| starts_with(l, "raw/sources/"@)
    }
}

fn hidden_or_empty_part(s: &[char]) -> (r: bool)
    ensures
        r == hidden_or_empty_part_from(s@, 0),
{
    let n = s.len();
    let mut i: usize = 0;
    loop
        invariant
            n == s@.len(),
            i <= n,
            hidden_or_empty_part_from(s@, 0) == hidden_or_empty_part_from(s@, i as int),
        decreases n - i,
    {
        let j = crate::text::find_char(s, '/', i);
        proof {
            lemma_next_sep(s@, '/', i as int);
        }
        if j == i || s[i] == '.' {
            return true;
        }
        if j < n {
            i = j + 1;
        } else {
            return false;
        }
    }
}

fn slashes(s: &[char]) -> (r: Vec<char>)
    ensures
        r@ == slash_for_backslash(s@),
{
    let mut v: Vec<char> = Vec::new();
    let mut i: usize = 0;
    while i < s.len()
        invariant
            i <= s@.len(),
            v@ == slash_for_backslash(s@.subrange(0, i as int)),
        decreases s@.len() - i,
    {
        v.push(if s[i] == '\\' { '/' } else { s[i] });
        i += 1;
        assert(v@ =~= slash_for_backslash(s@.subrange(0, i as int)));
    }
    assert(s@.subrange(0, s@.len() as int) =~= s@);
    v
}

fn trim_start_slashes(s: &[char]) -> (r: Vec<char>)
    ensures
        r@ == crate::text::trim_start_char(s@, '/'),
{
    let n = s.len();
    let mut a: usize = 0;
    assert(s@.subrange(0, n as int) =~= s@);
    while a < n && s[a] == '/'
        invariant
            a <= n == s@.len(),
            crate::text::trim_start_char(s@, '/') == crate::text::trim_start_char(s@.subrange(a as int, n as int), '/'),
        decreases n - a,
    {
        assert(s@.subrange(a as int, n as int).drop_first() =~= s@.subrange(a + 1, n as int));
        a += 1;
    }
    crate::text::slice_chars(s, a, n)
}

/// Whether the local API exposes a project-relative path (see
/// `spec_is_public_project_rel`).
pub fn is_public_project_rel(rel: &str) -> (r: bool)
    ensures
        r == spec_is_public_project_rel(rel@),
{
    let r = trim_start_slashes(slashes(chars_of(rel).as_slice()).as_slice());
    if hidden_or_empty_part(r.as_slice()) {
        return false;
    }
    let l = crate::text::lowercase_chars(r.as_slice());
    crate::text::same_chars(l.as_slice(), chars_of("purpose.md").as_slice())
        || crate::text::same_chars(l.as_slice(), chars_of("schema.md").as_slice())
        || crate::text::has_prefix(l.as_slice(), chars_of("wiki/").as_slice())
        || crate::text::has_prefix(l.as_slice(), chars_of("raw/sources/").as_slice())
}

/// The last normal component among the `/`-separated pieces from `i` on
/// (empty and `.` pieces are no components), after `cur`.
pub open spec fn last_component_from(s: Seq<char>, i: int, cur: Option<Seq<char>>) -> Option<Seq<char>>
    decreases s.len() - i,
{
    if i < 0 || i > s.len() {
        cur
    } else {
        let j = next_sep(s, '/', i);
        proof {
            lemma_next_sep(s, '/', i);
        }
        let piece = s.subrange(i, j);
        let cur2 = if piece.len() == 0 || piece == seq!['.'] {
            cur
        } else {
            Some(piece)
        };
        if j < s.len() {
            last_component_from(s, j + 1, cur2)
        } else {
            cur2
        }
    }
}

/// `Path::file_name`: the last component, unless it is `..`.
pub open spec fn spec_file_name(s: Seq<char>) -> Option<Seq<char>> {
    match last_component_from(s, 0, None) {
        Some(c) => if c == seq!['.', '.'] {
            None
        } else {
            Some(c)
        },
        None => None,
    }
}

/// The index of the last `.` in `s`, or -1.
pub open spec fn last_dot(s: Seq<char>) -> int
    decreases s.len(),
{
    if s.len() == 0 {
        -1
    } else if s.last() == '.' {
        s.len() - 1
    } else {
        last_dot(s.drop_last())
    }
}

pub proof fn lemma_last_dot(s: Seq<char>)
    ensures
        -1 <= last_dot(s) < s.len(),
        last_dot(s) >= 0 ==> s[last_dot(s)] == '.',
    decreases s.len(),
{
    if s.len() > 0 && s.last() != '.' {
        lemma_last_dot(s.drop_last());
    }
}

/// `Path::extension`: what follows the last `.` of the file name, where
/// that `.` is not its first character.
pub open spec fn spec_extension(s: Seq<char>) -> Option<Seq<char>> {
    match spec_file_name(s) {
        Some(f) => {
            let k = last_dot(f);
            if k <= 0 {
                None
            } else {
                Some(f.subrange(k + 1, f.len() as int))
            }
        },
        None => None,
    }
}

pub open spec fn opt_chars(c: Option<Vec<char>>) -> Option<Seq<char>> {
    match c {
        Some(v) => Some(v@),
        None => None,
    }
}

fn file_name_of_component(c: Option<Vec<char>>) -> (r: Option<Vec<char>>)
    ensures
        opt_chars(r) == (match opt_chars(c) {
            Some(x) => if x == seq!['.', '.'] {
                None
            } else {
                Some(x)
            },
            None => None,
        }),
{
    match c {
        Some(c) => {
            if c.len() == 2 && c[0] == '.' && c[1] == '.' {
                assert(c@ =~= seq!['.', '.']);
                None
            } else {
                proof {
                    if c@ == seq!['.', '.'] {
                        assert(c@[0] == '.' && c@[1] == '.');
                    }
                }
                Some(c)
            }
        },
        None => None,
    }
}

pub(crate) fn file_name_chars(s: &[char]) -> (r: Option<Vec<char>>)
    ensures
        opt_chars(r) == spec_file_name(s@),
{
    let n = s.len();
    let mut cur: Option<Vec<char>> = None;
    let mut i: usize = 0;
    loop
        invariant
            n == s@.len(),
            i <= n,
            last_component_from(s@, 0, None) == last_component_from(s@, i as int, opt_chars(cur)),
        decreases n - i,
    {
        let j = crate::text::find_char(s, '/', i);
        proof {
            lemma_next_sep(s@, '/', i as int);
        }
        let is_dot = j > i && j - i == 1 && s[i] == '.';
        proof {
            if j == i + 1 {
                assert(s@.subrange(i as int, j as int) =~= seq![s@[i as int]]);
            }
            if s@.subrange(i as int, j as int) == seq!['.'] {
                assert(s@.subrange(i as int, j as int)[0] == s@[i as int]);
            }
        }
        if !(j == i || is_dot) {
            cur = Some(crate::text::slice_chars(s, i, j));
        }
        if j < n {
            i = j + 1;
        } else {
            return file_name_of_component(cur);
        }
    }
}

pub(crate) fn extension_chars(s: &[char]) -> (r: Option<Vec<char>>)
    ensures
        opt_chars(r) == spec_extension(s@),
{
    match file_name_chars(s) {
        Some(f) => {
            let mut k = f.len();
            assert(f@.subrange(0, k as int) =~= f@);
            while k > 0 && f[k - 1] != '.'
                invariant
                    k <= f@.len(),
                    last_dot(f@) == last_dot(f@.subrange(0, k as int)),
                decreases k,
            {
                assert(f@.subrange(0, k as int).drop_last() =~= f@.subrange(0, k - 1));
                k -= 1;
            }
            proof {
                if k > 0 {
                    assert(f@.subrange(0, k as int).last() == '.');
                    assert(last_dot(f@) == k - 1);
                } else {
                    assert(last_dot(f@.subrange(0, 0)) == -1);
                }
            }
            if k <= 1 {
                None
            } else {
                Some(crate::text::slice_chars(f.as_slice(), k, f.len()))
            }
        },
        None => None,
    }
}

/// The extensions of text-like files.
pub open spec fn is_text_extension(e: Seq<char>) -> bool {
    ||| e == "md"@
    ||| e == "mdx"@
    ||| e == "txt"@
    ||| e == "csv"@
    ||| e == "json"@
    ||| e == "yaml"@
    ||| e == "yml"@
    ||| e == "xml"@
    ||| e == "html"@
    ||| e == "htm"@
    ||| e == "rtf"@
    ||| e == "log"@
}

/// A text-like file: the extension of the lower-cased path is one of
/// `is_text_extension`.
pub open spec fn spec_is_text_content_rel(rel: Seq<char>) -> bool {
    match spec_extension(lowercase(rel)) {
        Some(e) => is_text_extension(e),
        None => is_text_extension(seq![]),
    }
}

fn is_one_of(e: &[char], options: &[&str]) -> (r: bool)
    ensures
        r == exists|i: int| 0 <= i < options@.len() && e@ == options@[i]@,
{
    let mut i: usize = 0;
    while i < options.len()
        invariant
            i <= options@.len(),
            forall|j: int| 0 <= j < i ==> e@ != options@[j]@,
        decreases options@.len() - i,
    {
        if crate::text::same_chars(e, chars_of(options[i]).as_slice()) {
            return true;
        }
        i += 1;
    }
    false
}

/// Whether a project-relative path names a text-like file (see
/// `spec_is_text_content_rel`).
pub fn is_text_content_rel(rel: &str) -> (r: bool)
    ensures
        r == spec_is_text_content_rel(rel@),
{
    let l = crate::text::to_lowercase(rel);
    let lc = chars_of(l.as_str());
    let e = match extension_chars(lc.as_slice()) {
        Some(e) => e,
        None => Vec::new(),
    };
    let options = ["md", "mdx", "txt", "csv", "json", "yaml", "yml", "xml", "html", "htm", "rtf", "log"];
    let r = is_one_of(e.as_slice(), &options);
    proof {
        let ev = match spec_extension(lowercase(rel@)) {
            Some(x) => x,
            None => seq![],
        };
        assert(e@ == ev);
        if is_text_extension(ev) {
            if ev == "md"@ { assert(e@ == options@[0]@); }
            else if ev == "mdx"@ { assert(e@ == options@[1]@); }
            else if ev == "txt"@ { assert(e@ == options@[2]@); }
            else if ev == "csv"@ { assert(e@ == options@[3]@); }
            else if ev == "json"@ { assert(e@ == options@[4]@); }
            else if ev == "yaml"@ { assert(e@ == options@[5]@); }
            else if ev == "yml"@ { assert(e@ == options@[6]@); }
            else if ev == "xml"@ { assert(e@ == options@[7]@); }
            else if ev == "html"@ { assert(e@ == options@[8]@); }
            else if ev == "htm"@ { assert(e@ == options@[9]@); }
            else if ev == "rtf"@ { assert(e@ == options@[10]@); }
            else { assert(e@ == options@[11]@); }
        }
    }
    r
}


/// Some `/`-separated piece from index `i` on is `..`.
pub open spec fn parent_part_from(s: Seq<char>, i: int) -> bool
    decreases s.len() - i,
{
    if i < 0 || i > s.len() {
        false
    } else {
        let j = next_sep(s, '/', i);
        proof {
            lemma_next_sep(s, '/', i);
        }
        ||| s.subrange(i, j) == seq!['.', '.']
        ||| (j < s.len() && parent_part_from(s, j + 1))
    }
}

/// The lexical part of resolving a project-relative path: leading `/` are
/// dropped, a `..` component is refused, and the rest is joined to the root.
pub open spec fn spec_safe_join(root: Seq<char>, rel: Seq<char>) -> Result<Seq<char>, Seq<char>> {
    let r = crate::text::trim_start_char(rel, '/');
    if parent_part_from(r, 0) {
        Err("Path traversal is not allowed"@)
    } else {
        Ok(path_join(root, r))
    }
}

fn parent_part(s: &[char]) -> (r: bool)
    ensures
        r == parent_part_from(s@, 0),
{
    let n = s.len();
    let mut i: usize = 0;
    loop
        invariant
            n == s@.len(),
            i <= n,
            parent_part_from(s@, 0) == parent_part_from(s@, i as int),
        decreases n - i,
    {
        let j = crate::text::find_char(s, '/', i);
        proof {
            lemma_next_sep(s@, '/', i as int);
        }
        let dots = j > i && j - i == 2 && s[i] == '.' && s[i + 1] == '.';
        proof {
            let piece = s@.subrange(i as int, j as int);
            if j == i + 2 {
                assert(piece =~= seq![s@[i as int], s@[i + 1]]);
            }
            if piece == seq!['.', '.'] {
                assert(piece.len() == 2 && piece[0] == '.' && piece[1] == '.');
            }
        }
        if dots {
            return true;
        }
        if j < n {
            i = j + 1;
        } else {
            return false;
        }
    }
}

/// Joins a project-relative path to the project root, refusing `..`
/// components (see `spec_safe_join`); the caller resolves the result on
/// disk and checks that it stays under the root.
pub fn safe_join(root: &str, rel: &str) -> (r: Result<String, String>)
    ensures
        match spec_safe_join(root@, rel@) {
            Ok(p) => r matches Ok(s) && s@ == p,
            Err(m) => r matches Err(e) && e@ == m,
        },
{
    let r = trim_start_slashes(chars_of(rel).as_slice());
    if parent_part(r.as_slice()) {
        return Err("Path traversal is not allowed".to_owned());
    }
    let rs = string_of(r.as_slice());
    Ok(crate::app_state::join_path(root, rs.as_str()))
}

/// The page type of a wiki page: the value of the first line whose trimmed
/// text starts with `type:`, trimmed, unquoted and lower-cased; `other`
/// where there is none.
pub open spec fn type_from(s: Seq<char>, i: int) -> Seq<char>
    decreases s.len() - i,
{
    if i < 0 || i >= s.len() {
        "other"@
    } else {
        let t = trim(line_at(s, i));
        let key = "type:"@;
        let j = line_end(s, i);
        proof {
            lemma_next_sep(s, '\n', i);
        }
        if starts_with(t, key) {
            lowercase(
                trim_char(trim_char(trim(t.subrange(key.len() as int, t.len() as int)), '"'), '\''),
            )
        } else if j < s.len() {
            type_from(s, j + 1)
        } else {
            "other"@
        }
    }
}

pub open spec fn spec_extract_type(content: Seq<char>) -> Seq<char> {
    type_from(content, 0)
}

/// The page type declared in a page's front matter (see `type_from`).
pub fn extract_type(content: &str) -> (r: String)
    ensures
        r@ == spec_extract_type(content@),
{
    let s = chars_of(content);
    let key = chars_of("type:");
    let n = s.len();
    let mut i: usize = 0;
    while i < n
        invariant
            n == s@.len(),
            s@ == content@,
            key@ == "type:"@,
            i <= n,
            spec_extract_type(content@) == type_from(s@, i as int),
        decreases n - i,
    {
        let (line, j) = crate::text::next_line(s.as_slice(), i);
        let t = crate::text::trim_chars(line.as_slice());
        match crate::text::strip_prefix_chars(t.as_slice(), key.as_slice()) {
            Some(rest) => {
                let v0 = crate::text::trim_chars(rest.as_slice());
                let v1 = crate::text::trim_matches_char(v0.as_slice(), '"');
                let v2 = crate::text::trim_matches_char(v1.as_slice(), '\'');
                return string_of(crate::text::lowercase_chars(v2.as_slice()).as_slice());
            },
            None => {},
        }
        if j < n {
            i = j + 1;
        } else {
            return "other".to_owned();
        }
    }
    "other".to_owned()
}

pub open spec fn open_link() -> Seq<char> {
    seq!['[', '[']
}

pub open spec fn close_link() -> Seq<char> {
    seq![']', ']']
}

/// The wikilink targets from index `i` on, after `acc`: the text between
/// `[[` and the next `]]`, up to any `|`, trimmed; empty targets are skipped
/// and an unclosed `[[` ends the scan.
pub open spec fn wikilinks_from(s: Seq<char>, i: int, acc: Seq<Seq<char>>) -> Seq<Seq<char>>
    decreases s.len() + 1 - i,
{
    if i < 0 || i > s.len() {
        acc
    } else {
        proof {
            lemma_find_chars_from(s, open_link(), i);
        }
        match find_chars_from(s, open_link(), i) {
            None => acc,
            Some(st) => {
                let a = st + 2;
                proof {
                    lemma_find_chars_from(s, close_link(), a);
                }
                match find_chars_from(s, close_link(), a) {
                    None => acc,
                    Some(e) => {
                        let inner = s.subrange(a, e);
                        let target = trim(inner.subrange(0, next_sep(inner, '|', 0)));
                        let acc2 = if target.len() > 0 {
                            acc.push(target)
                        } else {
                            acc
                        };
                        wikilinks_from(s, e + 2, acc2)
                    },
                }
            },
        }
    }
}

pub open spec fn spec_extract_wikilinks(content: Seq<char>) -> Seq<Seq<char>> {
    wikilinks_from(content, 0, seq![])
}

pub open spec fn strings_view(v: Seq<String>) -> Seq<Seq<char>> {
    v.map_values(|s: String| s@)
}

/// The targets of the `[[...]]` wikilinks of a page, in order (see
/// `wikilinks_from`).
pub fn extract_wikilinks(content: &str) -> (r: Vec<String>)
    ensures
        strings_view(r@) == spec_extract_wikilinks(content@),
{
    let s = chars_of(content);
    let n = s.len();
    let mut open: Vec<char> = Vec::new();
    open.push('[');
    open.push('[');
    let mut close: Vec<char> = Vec::new();
    close.push(']');
    close.push(']');
    assert(open@ =~= open_link());
    assert(close@ =~= close_link());
    let mut out: Vec<String> = Vec::new();
    let mut i: usize = 0;
    assert(strings_view(out@) =~= seq![]);
    loop
        invariant
            n == s@.len(),
            s@ == content@,
            open@ == open_link(),
            close@ == close_link(),
            i <= n,
            spec_extract_wikilinks(content@) == wikilinks_from(s@, i as int, strings_view(out@)),
        decreases n + 1 - i,
    {
        proof {
            lemma_find_chars_from(s@, open_link(), i as int);
        }
        let st = match crate::text::find_chars(s.as_slice(), open.as_slice(), i) {
            Some(st) => st,
            None => return out,
        };
        let a = st + 2;
        proof {
            lemma_find_chars_from(s@, close_link(), a as int);
        }
        let e = match crate::text::find_chars(s.as_slice(), close.as_slice(), a) {
            Some(e) => e,
            None => return out,
        };
        let inner = crate::text::slice_chars(s.as_slice(), a, e);
        let bar = crate::text::find_char(inner.as_slice(), '|', 0);
        proof {
            lemma_next_sep(inner@, '|', 0);
        }
        let target = crate::text::trim_chars(&inner[0..bar]);
        if target.len() > 0 {
            let ghost before = strings_view(out@);
            let t = string_of(target.as_slice());
            out.push(t);
            assert(strings_view(out@) =~= before.push(target@));
        }
        i = e + 2;
    }
}

/// `raw.to_lowercase().replace(' ', "-")`.
pub open spec fn slug(raw: Seq<char>) -> Seq<char> {
    lowercase(raw).map_values(|c: char| if c == ' ' { '-' } else { c })
}

/// The first id (in the given order) that a link names case-insensitively,
/// directly or with spaces as dashes.
pub open spec fn first_loose_match(ids: Seq<Seq<char>>, raw: Seq<char>) -> Option<Seq<char>>
    decreases ids.len(),
{
    if ids.len() == 0 {
        None
    } else if lowercase(ids[0]) == slug(raw) || lowercase(ids[0]) == lowercase(raw) {
        Some(ids[0])
    } else {
        first_loose_match(ids.drop_first(), raw)
    }
}

/// The page id a wikilink names: the link itself where it is an id, else
/// `first_loose_match`.
pub open spec fn spec_resolve_link(raw: Seq<char>, ids: Seq<Seq<char>>) -> Option<Seq<char>> {
    if ids.contains(raw) {
        Some(raw)
    } else {
        first_loose_match(ids, raw)
    }
}

/// Resolves a wikilink against the page ids, given in increasing order (see
/// `spec_resolve_link`).
pub fn resolve_link(raw: &str, ids: &[String]) -> (r: Option<String>)
    ensures
        (match r {
            Some(s) => Some(s@),
            None => None,
        }) == spec_resolve_link(raw@, strings_view(ids@)),
{
    let rc = chars_of(raw);
    let ghost iv = strings_view(ids@);
    let mut i: usize = 0;
    while i < ids.len()
        invariant
            i <= ids@.len(),
            iv == strings_view(ids@),
            rc@ == raw@,
            forall|j: int| 0 <= j < i ==> iv[j] != raw@,
        decreases ids@.len() - i,
    {
        if crate::text::same_chars(chars_of(ids[i].as_str()).as_slice(), rc.as_slice()) {
            assert(iv[i as int] == raw@);
            return Some(raw.to_owned());
        }
        i += 1;
    }
    assert(!iv.contains(raw@));
    let lower_raw = crate::text::lowercase_chars(rc.as_slice());
    let mut slugged: Vec<char> = Vec::new();
    let mut k: usize = 0;
    while k < lower_raw.len()
        invariant
            k <= lower_raw@.len(),
            lower_raw@ == lowercase(raw@),
            slugged@ == lower_raw@.subrange(0, k as int).map_values(|c: char| if c == ' ' { '-' } else { c }),
        decreases lower_raw@.len() - k,
    {
        slugged.push(if lower_raw[k] == ' ' { '-' } else { lower_raw[k] });
        k += 1;
        assert(slugged@ =~= lower_raw@.subrange(0, k as int).map_values(|c: char| if c == ' ' { '-' } else { c }));
    }
    assert(lower_raw@.subrange(0, lower_raw@.len() as int) =~= lower_raw@);
    let mut j: usize = 0;
    assert(iv.subrange(0, iv.len() as int) =~= iv);
    while j < ids.len()
        invariant
            j <= ids@.len(),
            iv == strings_view(ids@),
            slugged@ == slug(raw@),
            lower_raw@ == lowercase(raw@),
            !iv.contains(raw@),
            first_loose_match(iv, raw@) == first_loose_match(iv.subrange(j as int, iv.len() as int), raw@),
        decreases ids@.len() - j,
    {
        let ghost tail = iv.subrange(j as int, iv.len() as int);
        assert(tail[0] == iv[j as int]);
        let lid = crate::text::lowercase_chars(chars_of(ids[j].as_str()).as_slice());
        if crate::text::same_chars(lid.as_slice(), slugged.as_slice()) || crate::text::same_chars(
            lid.as_slice(),
            lower_raw.as_slice(),
        ) {
            return Some(ids[j].clone());
        }
        assert(tail.drop_first() =~= iv.subrange(j + 1, iv.len() as int));
        j += 1;
    }
    None
}

/// The content type served for a file, by its lower-cased extension.
pub open spec fn mime_for(ext: Seq<char>) -> Seq<char> {
    if ext == "html"@ {
        "text/html; charset=utf-8"@
    } else if ext == "js"@ || ext == "mjs"@ {
        "application/javascript; charset=utf-8"@
    } else if ext == "css"@ {
        "text/css; charset=utf-8"@
    } else if ext == "svg"@ {
        "image/svg+xml"@
    } else if ext == "json"@ || ext == "map"@ {
        "application/json"@
    } else if ext == "png"@ {
        "image/png"@
    } else if ext == "jpg"@ || ext == "jpeg"@ {
        "image/jpeg"@
    } else if ext == "webp"@ {
        "image/webp"@
    } else if ext == "woff"@ {
        "font/woff"@
    } else if ext == "woff2"@ {
        "font/woff2"@
    } else if ext == "ttf"@ {
        "font/ttf"@
    } else if ext == "txt"@ {
        "text/plain; charset=utf-8"@
    } else {
        "application/octet-stream"@
    }
}

pub open spec fn spec_mime_from_path(path: Seq<char>) -> Seq<char> {
    mime_for(
        lowercase(
            match spec_extension(path) {
                Some(e) => e,
                None => seq![],
            },
        ),
    )
}

fn is_str(e: &[char], s: &str) -> (r: bool)
    ensures
        r == (e@ == s@),
{
    crate::text::same_chars(e, chars_of(s).as_slice())
}

/// The content type of a static file, by extension (see `mime_for`).
pub fn mime_from_path(path: &str) -> (r: String)
    ensures
        r@ == spec_mime_from_path(path@),
{
    let pc = chars_of(path);
    let e = match extension_chars(pc.as_slice()) {
        Some(e) => e,
        None => Vec::new(),
    };
    let l = crate::text::lowercase_chars(e.as_slice());
    let e = l.as_slice();
    let m = if is_str(e, "html") {
        "text/html; charset=utf-8"
    } else if is_str(e, "js") || is_str(e, "mjs") {
        "application/javascript; charset=utf-8"
    } else if is_str(e, "css") {
        "text/css; charset=utf-8"
    } else if is_str(e, "svg") {
        "image/svg+xml"
    } else if is_str(e, "json") || is_str(e, "map") {
        "application/json"
    } else if is_str(e, "png") {
        "image/png"
    } else if is_str(e, "jpg") || is_str(e, "jpeg") {
        "image/jpeg"
    } else if is_str(e, "webp") {
        "image/webp"
    } else if is_str(e, "woff") {
        "font/woff"
    } else if is_str(e, "woff2") {
        "font/woff2"
    } else if is_str(e, "ttf") {
        "font/ttf"
    } else if is_str(e, "txt") {
        "text/plain; charset=utf-8"
    } else {
        "application/octet-stream"
    };
    m.to_owned()
}


/// The project-relative path an uploaded file goes to: under
/// `raw/sources/`, inside `subdir` (its `/` trimmed) where one is given.
pub open spec fn spec_upload_rel(name: Seq<char>, subdir: Seq<char>) -> Seq<char> {
    if subdir.len() == 0 {
        "raw/sources/"@ + name
    } else {
        "raw/sources/"@ + crate::text::trim_char(subdir, '/') + "/"@ + name
    }
}

/// Where an uploaded file is saved, as its project-relative path and its
/// path under the project root; or why it is skipped: an empty name, a
/// name with a path separator or a leading dot, a file larger than
/// `max_bytes`, or a path that `safe_join` refuses.
pub open spec fn spec_plan_upload(
    name: Seq<char>,
    size: nat,
    max_bytes: nat,
    subdir: Seq<char>,
    root: Seq<char>,
) -> Result<(Seq<char>, Seq<char>), Seq<char>> {
    if name.len() == 0 {
        Err("Empty filename"@)
    } else if name.contains('/') || name.contains('\\') || name[0] == '.' {
        Err("Invalid filename"@)
    } else if size > max_bytes {
        Err("File exceeds max upload size ("@ + crate::text::decimal(max_bytes as int) + " bytes)"@)
    } else {
        let rel = spec_upload_rel(name, subdir);
        match spec_safe_join(root, rel) {
            Ok(p) => Ok((rel, p)),
            Err(e) => Err(e),
        }
    }
}

/// Decides where an uploaded file named `name` of `size` bytes goes (see
/// `spec_plan_upload`); writing it is the caller's part.
pub fn plan_upload(name: &str, size: usize, max_upload_bytes: u64, subdir: &str, root: &str) -> (r: Result<
    (String, String),
    String,
>)
    ensures
        match spec_plan_upload(name@, size as nat, max_upload_bytes as nat, subdir@, root@) {
            Ok((rel, p)) => r matches Ok((a, b)) && a@ == rel && b@ == p,
            Err(m) => r matches Err(e) && e@ == m,
        },
{
    let n = chars_of(name);
    if n.len() == 0 {
        return Err("Empty filename".to_string());
    }
    if crate::text::contains_char(n.as_slice(), '/') || crate::text::contains_char(n.as_slice(), '\\')
        || n[0] == '.' {
        return Err("Invalid filename".to_string());
    }
    if size as u64 > max_upload_bytes {
        let mut msg: Vec<char> = chars_of("File exceeds max upload size (");
        let mut d = crate::text::format_u64(max_upload_bytes);
        msg.append(&mut d);
        let mut tail = chars_of(" bytes)");
        msg.append(&mut tail);
        return Err(string_of(msg.as_slice()));
    }
    let mut rel: Vec<char> = chars_of("raw/sources/");
    let sd = chars_of(subdir);
    if sd.len() > 0 {
        let mut t = crate::text::trim_matches_char(sd.as_slice(), '/');
        rel.append(&mut t);
        rel.push('/');
        assert(seq!['/'] == "/"@) by {
            reveal_strlit("/");
        }
    }
    let mut nm = n;
    rel.append(&mut nm);
    let rel_s = string_of(rel.as_slice());
    assert(rel_s@ == spec_upload_rel(name@, subdir@));
    match safe_join(root, rel_s.as_str()) {
        Ok(p) => Ok((rel_s, p)),
        Err(e) => Err(e),
    }
}

/// The `subdir` field of an upload form, where it is valid UTF-8; else
/// empty.
pub open spec fn spec_upload_subdir(fields: Map<Seq<char>, crate::multipart::PartSpec>) -> Seq<char> {
    if fields.contains_key("subdir"@) && vstd::utf8::valid_utf8(fields["subdir"@].data) {
        vstd::utf8::decode_utf8(fields["subdir"@].data)
    } else {
        Seq::empty()
    }
}

pub fn upload_subdir(parsed: &crate::multipart::ParsedMultipart) -> (r: String)
    ensures
        r@ == spec_upload_subdir(parsed.fields@),
{
    match parsed.fields.get("subdir") {
        Some(part) => match crate::utf8::decode_utf8_checked(part.data.as_slice()) {
            Ok(s) => s,
            Err(_) => String::new(),
        },
        None => String::new(),
    }
}


/// Some `/`-separated piece of `s` from index `i` on is `.llm-wiki` or
/// `lancedb`.
pub open spec fn skipped_part_from(s: Seq<char>, i: int) -> bool
    decreases s.len() - i,
{
    if i < 0 || i > s.len() {
        false
    } else {
        let j = next_sep(s, '/', i);
        proof {
            lemma_next_sep(s, '/', i);
        }
        ||| s.subrange(i, j) == ".llm-wiki"@
        ||| s.subrange(i, j) == "lancedb"@
        ||| (j < s.len() && skipped_part_from(s, j + 1))
    }
}

/// Whether a project file, by its path relative to the project root, is
/// left out of an export: anything inside `.llm-wiki` or `lancedb`.
pub fn is_skipped_archive_rel(rel: &str) -> (r: bool)
    ensures
        r == skipped_part_from(rel@, 0),
{
    let s = chars_of(rel);
    let a = chars_of(".llm-wiki");
    let b = chars_of("lancedb");
    let n = s.len();
    let mut i: usize = 0;
    loop
        invariant
            n == s@.len(),
            s@ == rel@,
            a@ == ".llm-wiki"@,
            b@ == "lancedb"@,
            i <= n,
            skipped_part_from(s@, 0) == skipped_part_from(s@, i as int),
        decreases n - i,
    {
        let j = crate::text::find_char(s.as_slice(), '/', i);
        proof {
            lemma_next_sep(s@, '/', i as int);
        }
        let piece = crate::text::slice_chars(s.as_slice(), i, j);
        if crate::text::same_chars(piece.as_slice(), a.as_slice()) || crate::text::same_chars(
            piece.as_slice(),
            b.as_slice(),
        ) {
            return true;
        }
        if j < n {
            i = j + 1;
        } else {
            return false;
        }
    }
}

/// The project name and directory name an imported archive gets: the
/// trimmed name and its sanitized form; a blank name is refused with 400.
pub fn import_project_names(project_name: &str) -> (r: Result<(String, String), FileOpError>)
    ensures
        match r {
            Ok((name, dir)) => trim(project_name@).len() > 0 && name@ == trim(project_name@) && dir@
                == crate::app_state::spec_sanitize_dirname(trim(project_name@)),
            Err(e) => trim(project_name@).len() == 0 && e.status == 400 && e.message@ == "Project name is required"@,
        },
{
    let t = crate::text::trim_chars(chars_of(project_name).as_slice());
    if t.len() == 0 {
        return Err(FileOpError { status: 400, message: "Project name is required".to_string() });
    }
    let name = string_of(t.as_slice());
    let dir = crate::app_state::sanitize_dirname_public(name.as_str());
    Ok((name, dir))
}


/// `Path::file_stem`: the file name without its extension (see
/// `spec_extension`).
pub open spec fn spec_file_stem(s: Seq<char>) -> Option<Seq<char>> {
    match spec_file_name(s) {
        Some(f) => {
            let k = last_dot(f);
            if k <= 0 {
                Some(f)
            } else {
                Some(f.subrange(0, k))
            }
        },
        None => None,
    }
}

pub fn file_stem_chars(s: &[char]) -> (r: Option<Vec<char>>)
    ensures
        opt_chars(r) == spec_file_stem(s@),
{
    match file_name_chars(s) {
        Some(f) => {
            let mut k = f.len();
            assert(f@.subrange(0, k as int) =~= f@);
            while k > 0 && f[k - 1] != '.'
                invariant
                    k <= f@.len(),
                    last_dot(f@) == last_dot(f@.subrange(0, k as int)),
                decreases k,
            {
                assert(f@.subrange(0, k as int).drop_last() =~= f@.subrange(0, k - 1));
                k -= 1;
            }
            proof {
                if k > 0 {
                    assert(f@.subrange(0, k as int).last() == '.');
                    assert(last_dot(f@) == k - 1);
                } else {
                    assert(last_dot(f@.subrange(0, 0)) == -1);
                }
            }
            if k <= 1 {
                Some(f)
            } else {
                Some(crate::text::slice_chars(f.as_slice(), 0, k - 1))
            }
        },
        None => None,
    }
}


/// The most bytes the API returns of a file.
pub const MAX_FILE_CONTENT_BYTES: u64 = 2097152;

/// Where a file the API reads lives: only public, text-like project paths
/// that `safe_join` admits.
pub open spec fn spec_read_target(root: Seq<char>, rel: Seq<char>) -> Result<Seq<char>, (u16, Seq<char>)> {
    if !spec_is_public_project_rel(rel) {
        Err((403u16, "Path is not exposed by the local API"@))
    } else if !spec_is_text_content_rel(rel) {
        Err((415u16, "Only text-like project files can be read via this endpoint"@))
    } else {
        match spec_safe_join(root, rel) {
            Ok(p) => Ok(p),
            Err(m) => Err((400u16, m)),
        }
    }
}

/// Where a file the API writes or deletes lives: only public project paths
/// that `safe_join` admits.
pub open spec fn spec_write_target(root: Seq<char>, rel: Seq<char>) -> Result<Seq<char>, (u16, Seq<char>)> {
    if !spec_is_public_project_rel(rel) {
        Err((403u16, "Path is not exposed by the local API"@))
    } else {
        match spec_safe_join(root, rel) {
            Ok(p) => Ok(p),
            Err(m) => Err((400u16, m)),
        }
    }
}

pub open spec fn target_matches(r: Result<String, FileOpError>, s: Result<Seq<char>, (u16, Seq<char>)>) -> bool {
    match s {
        Ok(p) => r matches Ok(v) && v@ == p,
        Err((st, m)) => r matches Err(e) && e.status == st && e.message@ == m,
    }
}

/// The path of a file to read (see `spec_read_target`).
pub fn read_target(root: &str, rel: &str) -> (r: Result<String, FileOpError>)
    ensures
        target_matches(r, spec_read_target(root@, rel@)),
{
    if !is_public_project_rel(rel) {
        return Err(FileOpError { status: 403, message: "Path is not exposed by the local API".to_string() });
    }
    if !is_text_content_rel(rel) {
        return Err(
            FileOpError { status: 415, message: "Only text-like project files can be read via this endpoint".to_string() },
        );
    }
    match safe_join(root, rel) {
        Ok(p) => Ok(p),
        Err(m) => Err(FileOpError { status: 400, message: m }),
    }
}

/// The path of a file to write or delete (see `spec_write_target`).
pub fn write_target(root: &str, rel: &str) -> (r: Result<String, FileOpError>)
    ensures
        target_matches(r, spec_write_target(root@, rel@)),
{
    if !is_public_project_rel(rel) {
        return Err(FileOpError { status: 403, message: "Path is not exposed by the local API".to_string() });
    }
    match safe_join(root, rel) {
        Ok(p) => Ok(p),
        Err(m) => Err(FileOpError { status: 400, message: m }),
    }
}

/// Whether a file of `len` bytes may be returned; a larger one is refused
/// with 413.
pub fn check_content_size(len: u64) -> (r: Result<(), FileOpError>)
    ensures
        r is Ok <==> len <= MAX_FILE_CONTENT_BYTES,
        r matches Err(e) ==> e.status == 413 && e.message@ == "File is too large to return via API"@,
{
    if len > MAX_FILE_CONTENT_BYTES {
        return Err(FileOpError { status: 413, message: "File is too large to return via API".to_string() });
    }
    Ok(())
}

/// The directory a file listing starts from: `wiki`, the raw sources, or
/// (as `None`) the whole public project; any other name is refused.
pub open spec fn spec_files_root(root: Seq<char>) -> Result<Option<Seq<char>>, Seq<char>> {
    if root == "wiki"@ {
        Ok(Some("wiki"@))
    } else if root == "sources"@ || root == "raw"@ || root == "raw/sources"@ {
        Ok(Some("raw/sources"@))
    } else if root == "all"@ || root.len() == 0 {
        Ok(None)
    } else {
        Err("root must be wiki, sources, or all"@)
    }
}

pub fn files_root(root: &str) -> (r: Result<Option<String>, String>)
    ensures
        match spec_files_root(root@) {
            Ok(Some(d)) => r matches Ok(Some(v)) && v@ == d,
            Ok(None) => r matches Ok(None),
            Err(m) => r matches Err(e) && e@ == m,
        },
{
    let c = chars_of(root);
    if is_str(c.as_slice(), "wiki") {
        Ok(Some("wiki".to_string()))
    } else if is_str(c.as_slice(), "sources") || is_str(c.as_slice(), "raw") || is_str(c.as_slice(), "raw/sources") {
        Ok(Some("raw/sources".to_string()))
    } else if is_str(c.as_slice(), "all") || c.len() == 0 {
        Ok(None)
    } else {
        Err("root must be wiki, sources, or all".to_string())
    }
}

/// Whether node `a` is listed before node `b`: directories first, then by
/// name.
pub open spec fn node_before(a: ApiFileNode, b: ApiFileNode) -> bool {
    (a.is_dir && !b.is_dir) || (a.is_dir == b.is_dir && crate::text::lex_lt(a.name@, b.name@))
}

/// The position where `x` goes in a sorted listing: before the first node
/// it comes before.
pub open spec fn node_pos(s: Seq<ApiFileNode>, x: ApiFileNode) -> int
    decreases s.len(),
{
    if s.len() == 0 || node_before(x, s[0]) {
        0
    } else {
        1 + node_pos(s.drop_first(), x)
    }
}

/// The nodes in listing order, nodes that tie in their first order (the
/// stable sort of `sort_by(dirs first, then name)`).
pub open spec fn sorted_nodes(s: Seq<ApiFileNode>) -> Seq<ApiFileNode>
    decreases s.len(),
{
    if s.len() == 0 {
        Seq::empty()
    } else {
        let r = sorted_nodes(s.drop_last());
        r.insert(node_pos(r, s.last()), s.last())
    }
}

fn before_exec(a: &ApiFileNode, b: &ApiFileNode) -> (r: bool)
    ensures
        r == node_before(*a, *b),
{
    (a.is_dir && !b.is_dir) || (a.is_dir == b.is_dir && crate::text::lex_less(
        chars_of(a.name.as_str()).as_slice(),
        chars_of(b.name.as_str()).as_slice(),
    ))
}

/// Sorts a directory listing (see `sorted_nodes`).
pub fn sort_file_nodes(nodes: Vec<ApiFileNode>) -> (r: Vec<ApiFileNode>)
    ensures
        r@ == sorted_nodes(nodes@),
{
    let ghost all = nodes@;
    let mut out: Vec<ApiFileNode> = Vec::new();
    let mut rest = nodes;
    let ghost n = all.len();
    assert(all.subrange(0, 0) =~= Seq::<ApiFileNode>::empty());
    while rest.len() > 0
        invariant
            rest@.len() <= n,
            n == all.len(),
            rest@ == all.subrange(n - rest@.len(), n as int),
            out@ == sorted_nodes(all.subrange(0, n - rest@.len())),
        decreases rest@.len(),
    {
        let ghost k = n - rest@.len();
        let x = rest.remove(0);
        assert(x == all[k]);
        assert(rest@ =~= all.subrange(k + 1, n as int));
        let ghost prev = out@;
        let mut i: usize = 0;
        assert(prev.subrange(0, prev.len() as int) =~= prev);
        while i < out.len()
            invariant
                i <= out@.len(),
                out@ == prev,
                node_pos(prev, x) == i + node_pos(prev.subrange(i as int, prev.len() as int), x),
            ensures
                i <= out@.len(),
                out@ == prev,
                node_pos(prev, x) == i + node_pos(prev.subrange(i as int, prev.len() as int), x),
                i < out@.len() ==> node_before(x, prev[i as int]),
            decreases out@.len() - i,
        {
            if before_exec(&x, &out[i]) {
                break;
            }
            assert(prev.subrange(i as int, prev.len() as int).drop_first() =~= prev.subrange(i + 1, prev.len() as int));
            i += 1;
        }
        proof {
            if i < prev.len() {
                assert(prev.subrange(i as int, prev.len() as int)[0] == prev[i as int]);
            } else {
                assert(prev.subrange(i as int, prev.len() as int).len() == 0);
            }
            assert(all.subrange(0, k + 1).drop_last() =~= all.subrange(0, k));
            assert(all.subrange(0, k + 1).last() == x);
        }
        out.insert(i, x);
    }
    assert(all.subrange(0, n as int) =~= all);
    out
}

/// The error once a listing holds more than `max_files` entries.
pub fn check_file_count(count: usize, max_files: usize) -> (r: Result<(), String>)
    ensures
        r is Ok <==> count <= max_files,
        r matches Err(e) ==> e@ == "File listing exceeds maxFiles limit ("@ + crate::text::decimal(max_files as int)
            + ")"@,
{
    if count > max_files {
        let mut msg = chars_of("File listing exceeds maxFiles limit (");
        let mut d = crate::text::format_u64(max_files as u64);
        msg.append(&mut d);
        msg.push(')');
        assert(seq![')'] == ")"@) by {
            reveal_strlit(")");
        }
        return Err(string_of(msg.as_slice()));
    }
    Ok(())
}

} // verus!
