//! A `multipart/form-data` body parser: the boundary comes from the
//! `Content-Type` header or, failing that, from the body itself; each part
//! between two delimiters carries CRLF-separated headers, a blank line, and
//! its data.
use vstd::prelude::*;
use vstd::utf8::{decode_utf8, encode_utf8, valid_utf8};

use crate::text::{ascii_lower, chars_of, next_sep, lemma_next_sep, starts_with, string_of, trim, trim_char};
use crate::utf8::{decode_utf8_checked, decode_utf8_lossy, utf8_error_text, utf8_lossy};

verus! {

// ---------------------------------------------------------------------
// Byte sequences
// ---------------------------------------------------------------------

/// `n` occurs in `h` at index `i`.
pub open spec fn occurs_at(h: Seq<u8>, n: Seq<u8>, i: int) -> bool {
    0 <= i && i + n.len() <= h.len() && h.subrange(i, i + n.len()) == n
}

pub open spec fn find_from(h: Seq<u8>, n: Seq<u8>, i: int) -> Option<int>
    decreases h.len() + 1 - i,
{
    if i < 0 || i + n.len() > h.len() {
        None
    } else if occurs_at(h, n, i) {
        Some(i)
    } else {
        find_from(h, n, i + 1)
    }
}

/// The index of the first occurrence of a non-empty `n` in `h`.
pub open spec fn find_seq(h: Seq<u8>, n: Seq<u8>) -> Option<int> {
    if n.len() == 0 {
        None
    } else {
        find_from(h, n, 0)
    }
}

pub proof fn lemma_find_from(h: Seq<u8>, n: Seq<u8>, i: int)
    requires
        0 <= i,
    ensures
        find_from(h, n, i) matches Some(k) ==> i <= k && occurs_at(h, n, k) && forall|j: int|
            i <= j < k ==> !occurs_at(h, n, j),
        find_from(h, n, i) is None ==> forall|j: int| i <= j ==> !occurs_at(h, n, j),
    decreases h.len() + 1 - i,
{
    if i + n.len() > h.len() {
    } else if occurs_at(h, n, i) {
    } else {
        lemma_find_from(h, n, i + 1);
    }
}

pub proof fn lemma_find_seq(h: Seq<u8>, n: Seq<u8>)
    ensures
        find_seq(h, n) matches Some(k) ==> n.len() > 0 && occurs_at(h, n, k) && forall|j: int|
            0 <= j < k ==> !occurs_at(h, n, j),
        find_seq(h, n) is None ==> n.len() == 0 || forall|j: int| !occurs_at(h, n, j),
{
    lemma_find_from(h, n, 0);
}

fn occurs_here(h: &[u8], n: &[u8], i: usize) -> (r: bool)
    requires
        i + n@.len() <= h@.len(),
    ensures
        r == occurs_at(h@, n@, i as int),
{
    let nl = n.len();
    let hl = h.len();
    let mut k: usize = 0;
    while k < nl
        invariant
            nl == n@.len(),
            hl == h@.len(),
            i + n@.len() <= h@.len(),
            k <= n@.len(),
            h@.subrange(i as int, i + k) == n@.subrange(0, k as int),
        decreases n@.len() - k,
    {
        if h[i + k] != n[k] {
            assert(h@.subrange(i as int, i + n@.len())[k as int] != n@[k as int]);
            return false;
        }
        k += 1;
        assert(h@.subrange(i as int, i + k) =~= n@.subrange(0, k as int));
    }
    assert(n@.subrange(0, n@.len() as int) =~= n@);
    true
}

/// The index of the first occurrence of `needle` in `haystack`; `None` for
/// an empty needle.
pub fn find_sequence(haystack: &[u8], needle: &[u8]) -> (r: Option<usize>)
    ensures
        r matches Some(k) ==> find_seq(haystack@, needle@) == Some(k as int),
        r is None <==> find_seq(haystack@, needle@) is None,
        r matches Some(k) ==> occurs_at(haystack@, needle@, k as int) && forall|j: int|
            0 <= j < k ==> !occurs_at(haystack@, needle@, j),
        r is None ==> needle@.len() == 0 || forall|j: int| !occurs_at(haystack@, needle@, j),
{
    proof {
        lemma_find_seq(haystack@, needle@);
    }
    if needle.len() == 0 || haystack.len() < needle.len() {
        proof {
            lemma_find_from(haystack@, needle@, 0);
        }
        return None;
    }
    let bound = haystack.len() - needle.len() + 1;
    let mut i: usize = 0;
    while i < bound
        invariant
            needle@.len() > 0,
            bound + needle@.len() == haystack@.len() + 1,
            find_seq(haystack@, needle@) == find_from(haystack@, needle@, i as int),
        decreases bound - i,
    {
        if occurs_here(haystack, needle, i) {
            proof {
                assert(find_seq(haystack@, needle@) == Some(i as int));
                lemma_find_seq(haystack@, needle@);
            }
            return Some(i);
        }
        i += 1;
    }
    None
}


// ---------------------------------------------------------------------
// The boundary
// ---------------------------------------------------------------------

/// The bytes of `boundary=`.
pub open spec fn boundary_key() -> Seq<u8> {
    seq![98u8, 111u8, 117u8, 110u8, 100u8, 97u8, 114u8, 121u8, 61u8]
}

fn boundary_key_bytes() -> (r: Vec<u8>)
    ensures
        r@ == boundary_key(),
{
    let mut v: Vec<u8> = Vec::new();
    v.push(98u8);
    v.push(111u8);
    v.push(117u8);
    v.push(110u8);
    v.push(100u8);
    v.push(97u8);
    v.push(114u8);
    v.push(121u8);
    v.push(61u8);
    assert(v@ =~= boundary_key());
    v
}

/// A byte that ends a boundary written in the body: `;`, CR, LF, `"` or `'`.
pub open spec fn is_boundary_stop(b: u8) -> bool {
    b == 59 || b == 13 || b == 10 || b == 34 || b == 39
}

pub open spec fn is_quote_byte(b: u8) -> bool {
    b == 34 || b == 39
}

/// The first stop byte at or after `i`, or the end of `body`.
pub open spec fn boundary_end(body: Seq<u8>, i: int) -> int
    decreases body.len() - i,
{
    if i < 0 || i >= body.len() || is_boundary_stop(body[i]) {
        i
    } else {
        boundary_end(body, i + 1)
    }
}

pub proof fn lemma_boundary_end(body: Seq<u8>, i: int)
    requires
        0 <= i <= body.len(),
    ensures
        i <= boundary_end(body, i) <= body.len(),
    decreases body.len() - i,
{
    if i < body.len() && !is_boundary_stop(body[i]) {
        lemma_boundary_end(body, i + 1);
    }
}

/// The raw bytes of a boundary written in the body: after the first
/// `boundary=` and an optional quote, up to the next stop byte; `None` where
/// there is no such marker or nothing follows it.
pub open spec fn raw_boundary(body: Seq<u8>) -> Option<Seq<u8>> {
    match find_seq(body, boundary_key()) {
        None => None,
        Some(idx) => {
            let e0 = idx + boundary_key().len();
            let start = if e0 < body.len() && is_quote_byte(body[e0]) {
                e0 + 1
            } else {
                e0
            };
            let end = boundary_end(body, start);
            if end > start {
                Some(body.subrange(start, end))
            } else {
                None
            }
        },
    }
}

/// The raw bytes of the boundary of a body that opens with its first
/// delimiter line: after the leading `--`, up to the next stop byte; `None`
/// where the body does not start with `--` or nothing follows it.
pub open spec fn leading_boundary(body: Seq<u8>) -> Option<Seq<u8>> {
    if body.len() >= 2 && body[0] == 45u8 && body[1] == 45u8 {
        let end = boundary_end(body, 2);
        if end > 2 {
            Some(body.subrange(2, end))
        } else {
            None
        }
    } else {
        None
    }
}

/// The boundary found in the body: the one a `boundary=` written in it
/// gives, or, where it holds no `boundary=`, the one its opening delimiter
/// line carries; only where its bytes are valid UTF-8.
pub open spec fn spec_find_boundary(body: Seq<u8>) -> Option<Seq<char>> {
    let raw = if find_seq(body, boundary_key()) is None {
        leading_boundary(body)
    } else {
        raw_boundary(body)
    };
    match raw {
        Some(r) => if valid_utf8(r) {
            Some(decode_utf8(r))
        } else {
            None
        },
        None => None,
    }
}

/// The boundary that the opening delimiter line carries (see
/// `leading_boundary`).
fn leading_boundary_exec(body: &[u8]) -> (r: Option<String>)
    ensures
        r matches Some(s) ==> leading_boundary(body@) matches Some(b) && valid_utf8(b) && s@ == decode_utf8(b),
        r is None ==> (leading_boundary(body@) matches Some(b) ==> !valid_utf8(b)),
{
    let n = body.len();
    if n < 2 || body[0] != 45u8 || body[1] != 45u8 {
        return None;
    }
    let mut end: usize = 2;
    proof {
        lemma_boundary_end(body@, 2);
    }
    while end < n
        invariant
            n == body@.len(),
            2 <= end <= n,
            boundary_end(body@, 2) == boundary_end(body@, end as int),
        ensures
            2 <= end <= n,
            boundary_end(body@, 2) == end,
        decreases n - end,
    {
        let c = body[end];
        if c == 59u8 || c == 13u8 || c == 10u8 || c == 34u8 || c == 39u8 {
            break;
        }
        end += 1;
    }
    if end > 2 {
        match decode_utf8_checked(&body[2..end]) {
            Ok(s) => Some(s),
            Err(_) => None,
        }
    } else {
        None
    }
}

fn find_boundary(body: &[u8]) -> (r: Option<String>)
    ensures
        r matches Some(s) ==> spec_find_boundary(body@) == Some(s@),
        r is None ==> spec_find_boundary(body@) is None,
{
    let key = boundary_key_bytes();
    let idx = match find_sequence(body, key.as_slice()) {
        Some(i) => i,
        None => {
            return leading_boundary_exec(body);
        },
    };
    let n = body.len();
    let mut end = idx + key.len();
    if end < n && (body[end] == 34u8 || body[end] == 39u8) {
        end += 1;
    }
    let start = end;
    proof {
        lemma_boundary_end(body@, start as int);
    }
    while end < n
        invariant
            n == body@.len(),
            start <= end <= n,
            boundary_end(body@, start as int) == boundary_end(body@, end as int),
        ensures
            start <= end <= n,
            boundary_end(body@, start as int) == end,
        decreases n - end,
    {
        let c = body[end];
        if c == 59u8 || c == 13u8 || c == 10u8 || c == 34u8 || c == 39u8 {
            break;
        }
        end += 1;
    }
    assert(boundary_key().len() == 9);
    assert(find_seq(body@, boundary_key()) == Some(idx as int));
    if end > start {
        assert(raw_boundary(body@) == Some(body@.subrange(start as int, end as int)));
        match decode_utf8_checked(&body[start..end]) {
            Ok(s) => Some(s),
            Err(_) => None,
        }
    } else {
        None
    }
}

/// The value of a `boundary=` parameter, with surrounding whitespace and then
/// quotes removed; `None` where the piece is no such parameter or the value
/// is empty.
pub open spec fn piece_boundary(piece: Seq<char>) -> Option<Seq<char>> {
    let t = trim(piece);
    let key = "boundary="@;
    if starts_with(t, key) {
        let v = trim_char(trim_char(t.subrange(key.len() as int, t.len() as int), '"'), '\'');
        if v.len() > 0 {
            Some(v)
        } else {
            None
        }
    } else {
        None
    }
}

/// The first boundary parameter among the `;`-separated pieces that start
/// at index `i`.
pub open spec fn boundary_after(s: Seq<char>, i: int) -> Option<Seq<char>>
    decreases s.len() - i,
{
    if i < 0 || i > s.len() {
        None
    } else {
        let j = next_sep(s, ';', i);
        proof {
            lemma_next_sep(s, ';', i);
        }
        match piece_boundary(s.subrange(i, j)) {
            Some(v) => Some(v),
            None => if j < s.len() {
                boundary_after(s, j + 1)
            } else {
                None
            },
        }
    }
}

/// The boundary that a `Content-Type` value declares: the first
/// `boundary=` parameter after the media type.
pub open spec fn spec_extract_boundary(s: Seq<char>) -> Option<Seq<char>> {
    let j = next_sep(s, ';', 0);
    if j < s.len() {
        boundary_after(s, j + 1)
    } else {
        None
    }
}

fn piece_boundary_exec(piece: &[char], key: &[char]) -> (r: Option<Vec<char>>)
    requires
        key@ == "boundary="@,
    ensures
        r matches Some(v) ==> piece_boundary(piece@) == Some(v@),
        r is None ==> piece_boundary(piece@) is None,
{
    let t = crate::text::trim_chars(piece);
    match crate::text::strip_prefix_chars(t.as_slice(), key) {
        Some(rest) => {
            let v1 = crate::text::trim_matches_char(rest.as_slice(), '"');
            let v = crate::text::trim_matches_char(v1.as_slice(), '\'');
            if v.len() > 0 {
                Some(v)
            } else {
                None
            }
        },
        None => None,
    }
}

fn extract_boundary(content_type: &str) -> (r: Option<String>)
    ensures
        r matches Some(s) ==> spec_extract_boundary(content_type@) == Some(s@),
        r is None ==> spec_extract_boundary(content_type@) is None,
{
    let s = chars_of(content_type);
    let key = chars_of("boundary=");
    let n = s.len();
    let j0 = crate::text::find_char(s.as_slice(), ';', 0);
    if j0 >= n {
        return None;
    }
    let mut i = j0 + 1;
    proof {
        lemma_next_sep(s@, ';', 0);
    }
    loop
        invariant
            n == s@.len(),
            key@ == "boundary="@,
            0 < i <= n,
            spec_extract_boundary(content_type@) == boundary_after(s@, i as int),
        decreases n + 1 - i,
    {
        let j = crate::text::find_char(s.as_slice(), ';', i);
        proof {
            lemma_next_sep(s@, ';', i as int);
        }
        let piece = crate::text::slice_chars(s.as_slice(), i, j);
        match piece_boundary_exec(piece.as_slice(), key.as_slice()) {
            Some(v) => {
                return Some(string_of(v.as_slice()));
            },
            None => {},
        }
        if j < n {
            i = j + 1;
        } else {
            return None;
        }
    }
}


// ---------------------------------------------------------------------
// Part headers
// ---------------------------------------------------------------------

/// Index of the first CRLF pair at or after `i`, or `s.len()`.
pub open spec fn next_crlf(s: Seq<char>, i: int) -> int
    decreases s.len() - i,
{
    if i < 0 || i + 1 >= s.len() {
        s.len() as int
    } else if s[i] == '\r' && s[i + 1] == '\n' {
        i
    } else {
        next_crlf(s, i + 1)
    }
}

pub proof fn lemma_next_crlf(s: Seq<char>, i: int)
    requires
        0 <= i <= s.len(),
    ensures
        i <= next_crlf(s, i) <= s.len(),
        next_crlf(s, i) < s.len() ==> next_crlf(s, i) + 2 <= s.len(),
    decreases s.len() - i,
{
    if i + 1 < s.len() && !(s[i] == '\r' && s[i + 1] == '\n') {
        lemma_next_crlf(s, i + 1);
    }
}

/// A header line `Name: value` as (lower-cased trimmed name, trimmed
/// value), split at the first colon; `None` for a line without one.
pub open spec fn line_pair(line: Seq<char>) -> Option<(Seq<char>, Seq<char>)> {
    let k = next_sep(line, ':', 0);
    if k < line.len() {
        Some((ascii_lower(trim(line.subrange(0, k))), trim(line.subrange(k + 1, line.len() as int))))
    } else {
        None
    }
}

/// The header pairs of the CRLF-separated lines from index `i` on, after `acc`.
pub open spec fn header_pairs_from(s: Seq<char>, i: int, acc: Seq<(Seq<char>, Seq<char>)>) -> Seq<
    (Seq<char>, Seq<char>),
>
    decreases s.len() - i,
{
    if i < 0 || i > s.len() {
        acc
    } else {
        let j = next_crlf(s, i);
        proof {
            lemma_next_crlf(s, i);
        }
        let acc2 = match line_pair(s.subrange(i, j)) {
            Some(p) => acc.push(p),
            None => acc,
        };
        if j < s.len() {
            header_pairs_from(s, j + 2, acc2)
        } else {
            acc2
        }
    }
}

/// The header pairs of a header block, in the order of its lines.
pub open spec fn header_pairs(s: Seq<char>) -> Seq<(Seq<char>, Seq<char>)> {
    header_pairs_from(s, 0, seq![])
}

/// The value of the last pair named `key` (a later line replaces an earlier one).
pub open spec fn header_lookup(pairs: Seq<(Seq<char>, Seq<char>)>, key: Seq<char>) -> Option<
    Seq<char>,
>
    decreases pairs.len(),
{
    if pairs.len() == 0 {
        None
    } else if pairs.last().0 == key {
        Some(pairs.last().1)
    } else {
        header_lookup(pairs.drop_last(), key)
    }
}

pub open spec fn pairs_view(v: Seq<(Vec<char>, Vec<char>)>) -> Seq<(Seq<char>, Seq<char>)> {
    v.map_values(|p: (Vec<char>, Vec<char>)| (p.0@, p.1@))
}

fn find_crlf(s: &[char], i: usize) -> (r: usize)
    requires
        i <= s@.len(),
    ensures
        r == next_crlf(s@, i as int),
{
    let n = s.len();
    let mut j = i;
    while j < n && j + 1 < n && !(s[j] == '\r' && s[j + 1] == '\n')
        invariant
            n == s@.len(),
            i <= j <= n,
            next_crlf(s@, i as int) == next_crlf(s@, j as int),
        decreases n - j,
    {
        j += 1;
    }
    if j < n && j + 1 < n {
        j
    } else {
        n
    }
}

fn line_pair_exec(line: &[char]) -> (r: Option<(Vec<char>, Vec<char>)>)
    ensures
        r matches Some(p) ==> line_pair(line@) == Some((p.0@, p.1@)),
        r is None ==> line_pair(line@) is None,
{
    let n = line.len();
    let k = crate::text::find_char(line, ':', 0);
    proof {
        lemma_next_sep(line@, ':', 0);
    }
    if k < n {
        let key = crate::text::trim_chars(&line[0..k]);
        let value = crate::text::trim_chars(&line[k + 1..n]);
        Some((crate::text::ascii_lowercase(key.as_slice()), value))
    } else {
        None
    }
}

fn parse_headers(s: &[char]) -> (r: Vec<(Vec<char>, Vec<char>)>)
    ensures
        pairs_view(r@) == header_pairs(s@),
{
    let n = s.len();
    let mut out: Vec<(Vec<char>, Vec<char>)> = Vec::new();
    let mut i: usize = 0;
    assert(pairs_view(out@) =~= seq![]);
    loop
        invariant
            n == s@.len(),
            i <= n,
            header_pairs(s@) == header_pairs_from(s@, i as int, pairs_view(out@)),
        decreases n - i,
    {
        let j = find_crlf(s, i);
        proof {
            lemma_next_crlf(s@, i as int);
        }
        let ghost before = pairs_view(out@);
        match line_pair_exec(&s[i..j]) {
            Some(p) => {
                out.push(p);
                assert(pairs_view(out@) =~= before.push((p.0@, p.1@)));
            },
            None => {},
        }
        if j < n {
            i = j + 2;
        } else {
            return out;
        }
    }
}

fn header_get(pairs: &Vec<(Vec<char>, Vec<char>)>, key: &[char]) -> (r: Option<Vec<char>>)
    ensures
        r matches Some(v) ==> header_lookup(pairs_view(pairs@), key@) == Some(v@),
        r is None ==> header_lookup(pairs_view(pairs@), key@) is None,
{
    let mut i = pairs.len();
    assert(pairs@.subrange(0, i as int) =~= pairs@);
    while i > 0
        invariant
            i <= pairs@.len(),
            header_lookup(pairs_view(pairs@), key@) == header_lookup(
                pairs_view(pairs@.subrange(0, i as int)),
                key@,
            ),
        decreases i,
    {
        let ghost prefix = pairs_view(pairs@.subrange(0, i as int));
        assert(prefix.last() == (pairs@[i - 1].0@, pairs@[i - 1].1@));
        if crate::text::same_chars(pairs[i - 1].0.as_slice(), key) {
            let v = crate::text::slice_chars(pairs[i - 1].1.as_slice(), 0, pairs[i - 1].1.len());
            assert(pairs@[i - 1].1@.subrange(0, pairs@[i - 1].1@.len() as int) =~= pairs@[i - 1].1@);
            return Some(v);
        }
        assert(prefix.drop_last() =~= pairs_view(pairs@.subrange(0, i - 1)));
        i -= 1;
    }
    None
}


// ---------------------------------------------------------------------
// Content-Disposition
// ---------------------------------------------------------------------

/// `unquote`: the trimmed value, without one pair of surrounding double quotes.
pub open spec fn spec_unquote(v: Seq<char>) -> Seq<char> {
    let t = trim(v);
    if t.len() >= 2 && t[0] == '"' && t.last() == '"' {
        t.subrange(1, t.len() - 1)
    } else {
        t
    }
}

/// The `name` and `filename` parameters of the `;`-separated pieces of a
/// `Content-Disposition` value from index `i` on; a later piece replaces an
/// earlier one.
pub open spec fn disposition_from(s: Seq<char>, i: int, name: Seq<char>, filename: Seq<char>) -> (
    Seq<char>,
    Seq<char>,
)
    decreases s.len() - i,
{
    if i < 0 || i > s.len() {
        (name, filename)
    } else {
        let j = next_sep(s, ';', i);
        proof {
            lemma_next_sep(s, ';', i);
        }
        let piece = trim(s.subrange(i, j));
        let nk = "name="@;
        let fk = "filename="@;
        let name2 = if starts_with(piece, nk) {
            spec_unquote(piece.subrange(nk.len() as int, piece.len() as int))
        } else {
            name
        };
        let filename2 = if !starts_with(piece, nk) && starts_with(piece, fk) {
            spec_unquote(piece.subrange(fk.len() as int, piece.len() as int))
        } else {
            filename
        };
        if j < s.len() {
            disposition_from(s, j + 1, name2, filename2)
        } else {
            (name2, filename2)
        }
    }
}

pub open spec fn spec_disposition(s: Seq<char>) -> (Seq<char>, Seq<char>) {
    disposition_from(s, 0, seq![], seq![])
}

fn unquote(value: &[char]) -> (r: Vec<char>)
    ensures
        r@ == spec_unquote(value@),
{
    let t = crate::text::trim_chars(value);
    let n = t.len();
    if n >= 2 && t[0] == '"' && t[n - 1] == '"' {
        crate::text::slice_chars(t.as_slice(), 1, n - 1)
    } else {
        t
    }
}

fn parse_disposition(value: &[char]) -> (r: (Vec<char>, Vec<char>))
    ensures
        (r.0@, r.1@) == spec_disposition(value@),
{
    let nk = chars_of("name=");
    let fk = chars_of("filename=");
    let n = value.len();
    let mut name: Vec<char> = Vec::new();
    let mut filename: Vec<char> = Vec::new();
    let mut i: usize = 0;
    loop
        invariant
            n == value@.len(),
            i <= n,
            nk@ == "name="@,
            fk@ == "filename="@,
            spec_disposition(value@) == disposition_from(value@, i as int, name@, filename@),
        decreases n - i,
    {
        let j = crate::text::find_char(value, ';', i);
        proof {
            lemma_next_sep(value@, ';', i as int);
        }
        let piece = crate::text::trim_chars(&value[i..j]);
        match crate::text::strip_prefix_chars(piece.as_slice(), nk.as_slice()) {
            Some(rest) => {
                name = unquote(rest.as_slice());
            },
            None => {
                match crate::text::strip_prefix_chars(piece.as_slice(), fk.as_slice()) {
                    Some(rest) => {
                        filename = unquote(rest.as_slice());
                    },
                    None => {},
                }
            },
        }
        if j < n {
            i = j + 1;
        } else {
            return (name, filename);
        }
    }
}

// ---------------------------------------------------------------------
// One part
// ---------------------------------------------------------------------

/// What the parser makes of one part.
pub struct PartSpec {
    pub name: Seq<char>,
    pub filename: Seq<char>,
    pub content_type: Seq<char>,
    pub data: Seq<u8>,
}

#[derive(Debug, Clone)]
pub struct ParsedPart {
    pub name: String,
    pub filename: String,
    pub content_type: String,
    pub data: Vec<u8>,
}

impl View for ParsedPart {
    type V = PartSpec;

    open spec fn view(&self) -> PartSpec {
        PartSpec {
            name: self.name@,
            filename: self.filename@,
            content_type: self.content_type@,
            data: self.data@,
        }
    }
}

/// A parse failure, with its message.
#[derive(Debug, Clone)]
pub struct ParseError(pub String);

pub open spec fn crlfcrlf() -> Seq<u8> {
    seq![13u8, 10u8, 13u8, 10u8]
}

/// The data with every trailing CRLF pair removed.
pub open spec fn strip_crlfs(d: Seq<u8>) -> Seq<u8>
    decreases d.len(),
{
    if d.len() >= 2 && d[d.len() - 2] == 13u8 && d[d.len() - 1] == 10u8 {
        strip_crlfs(d.subrange(0, d.len() - 2))
    } else {
        d
    }
}

/// One part: headers up to the first blank line (CRLF CRLF), which must be
/// valid UTF-8; the name and filename from `Content-Disposition`; the
/// content type (`application/octet-stream` by default); and the data after
/// the blank line without trailing CRLF pairs.
pub open spec fn spec_parse_part(raw: Seq<u8>) -> Result<PartSpec, Seq<char>> {
    match find_seq(raw, crlfcrlf()) {
        None => Err("Missing header terminator"@),
        Some(he) => {
            let hb = raw.subrange(0, he);
            if !valid_utf8(hb) {
                Err("Invalid header UTF-8: "@ + utf8_error_text(hb))
            } else {
                let pairs = header_pairs(decode_utf8(hb));
                let disposition = match header_lookup(pairs, "content-disposition"@) {
                    Some(v) => v,
                    None => seq![],
                };
                let content_type = match header_lookup(pairs, "content-type"@) {
                    Some(v) => v,
                    None => "application/octet-stream"@,
                };
                let nf = spec_disposition(disposition);
                Ok(
                    PartSpec {
                        name: nf.0,
                        filename: nf.1,
                        content_type,
                        data: strip_crlfs(raw.subrange(he + 4, raw.len() as int)),
                    },
                )
            }
        },
    }
}

fn crlfcrlf_bytes() -> (r: Vec<u8>)
    ensures
        r@ == crlfcrlf(),
{
    let mut v: Vec<u8> = Vec::new();
    v.push(13u8);
    v.push(10u8);
    v.push(13u8);
    v.push(10u8);
    assert(v@ =~= crlfcrlf());
    v
}

fn copy_bytes(s: &[u8], a: usize, b: usize) -> (r: Vec<u8>)
    requires
        a <= b <= s@.len(),
    ensures
        r@ == s@.subrange(a as int, b as int),
{
    let mut out: Vec<u8> = Vec::new();
    let mut i = a;
    while i < b
        invariant
            a <= i <= b <= s@.len(),
            out@ == s@.subrange(a as int, i as int),
        decreases b - i,
    {
        out.push(s[i]);
        i += 1;
        assert(out@ =~= s@.subrange(a as int, i as int));
    }
    out
}

fn concat_string(a: &str, b: &str) -> (r: String)
    ensures
        r@ == a@ + b@,
{
    let mut v = chars_of(a);
    let mut w = chars_of(b);
    v.append(&mut w);
    string_of(v.as_slice())
}

fn parse_part(raw: &[u8]) -> (r: Result<Option<ParsedPart>, ParseError>)
    ensures
        match spec_parse_part(raw@) {
            Ok(p) => r matches Ok(Some(q)) && q@ == p,
            Err(m) => r matches Err(e) && e.0@ == m,
        },
{
    let sep = crlfcrlf_bytes();
    let header_end = match find_sequence(raw, sep.as_slice()) {
        Some(i) => i,
        None => return Err(ParseError("Missing header terminator".to_owned())),
    };
    proof {
        lemma_find_seq(raw@, crlfcrlf());
        assert(crlfcrlf().len() == 4);
    }
    let rl = raw.len();
    let header_text = match decode_utf8_checked(&raw[0..header_end]) {
        Ok(t) => t,
        Err(err) => {
            return Err(ParseError(concat_string("Invalid header UTF-8: ", err.as_str())));
        },
    };
    let text = chars_of(header_text.as_str());
    let headers = parse_headers(text.as_slice());
    let disposition = match header_get(&headers, chars_of("content-disposition").as_slice()) {
        Some(v) => v,
        None => Vec::new(),
    };
    let (name, filename) = parse_disposition(disposition.as_slice());
    let content_type = match header_get(&headers, chars_of("content-type").as_slice()) {
        Some(v) => string_of(v.as_slice()),
        None => "application/octet-stream".to_owned(),
    };
    let mut data = copy_bytes(raw, header_end + 4, rl);
    while data.len() >= 2 && data[data.len() - 2] == 13u8 && data[data.len() - 1] == 10u8
        invariant
            strip_crlfs(data@) == strip_crlfs(raw@.subrange(header_end + 4, raw@.len() as int)),
        decreases data@.len(),
    {
        let ghost before = data@;
        data.pop();
        data.pop();
        assert(data@ =~= before.subrange(0, before.len() - 2));
    }
    Ok(
        Some(
            ParsedPart {
                name: string_of(name.as_slice()),
                filename: string_of(filename.as_slice()),
                content_type,
                data,
            },
        ),
    )
}


// ---------------------------------------------------------------------
// The body
// ---------------------------------------------------------------------

pub open spec fn parts_view(v: Seq<ParsedPart>) -> Seq<PartSpec> {
    v.map_values(|p: ParsedPart| p@)
}

/// The parts from byte `pos` of `body` on, after `acc`, with delimiter `d`:
/// stop at `--` (the closing delimiter) or the end; skip one CRLF; the part
/// runs to the next delimiter or the end of the body, and an empty part
/// ends the walk; the first part that fails to parse fails the whole.
pub open spec fn parts_from(body: Seq<u8>, d: Seq<u8>, pos: int, acc: Seq<PartSpec>) -> Result<
    Seq<PartSpec>,
    Seq<char>,
>
    decreases body.len() - pos,
{
    if pos < 0 || pos >= body.len() || d.len() == 0 {
        Ok(acc)
    } else if body.len() - pos >= 2 && body[pos] == 45u8 && body[pos + 1] == 45u8 {
        Ok(acc)
    } else {
        let p = if body.len() - pos >= 2 && body[pos] == 13u8 && body[pos + 1] == 10u8 {
            pos + 2
        } else {
            pos
        };
        let rest = body.subrange(p, body.len() as int);
        let next = find_seq(rest, d);
        proof {
            lemma_find_seq(rest, d);
        }
        let end = match next {
            Some(o) => p + o,
            None => body.len() as int,
        };
        if end <= p {
            Ok(acc)
        } else {
            match spec_parse_part(body.subrange(p, end)) {
                Err(e) => Err(e),
                Ok(part) => match next {
                    Some(o) => parts_from(body, d, p + o + d.len(), acc.push(part)),
                    None => Ok(acc.push(part)),
                },
            }
        }
    }
}

fn collect_parts(body: &[u8], delim: &[u8], start: usize) -> (r: Result<Vec<ParsedPart>, ParseError>)
    requires
        start <= body@.len(),
    ensures
        match parts_from(body@, delim@, start as int, seq![]) {
            Ok(ps) => r matches Ok(v) && parts_view(v@) == ps,
            Err(m) => r matches Err(e) && e.0@ == m,
        },
{
    let n = body.len();
    let dl = delim.len();
    let mut parts: Vec<ParsedPart> = Vec::new();
    let mut pos = start;
    assert(parts_view(parts@) =~= seq![]);
    if dl == 0 {
        return Ok(parts);
    }
    loop
        invariant
            n == body@.len(),
            dl == delim@.len(),
            dl > 0,
            pos <= n,
            parts_from(body@, delim@, start as int, seq![]) == parts_from(
                body@,
                delim@,
                pos as int,
                parts_view(parts@),
            ),
        decreases n - pos,
    {
        if pos >= n {
            return Ok(parts);
        }
        if n - pos >= 2 && body[pos] == 45u8 && body[pos + 1] == 45u8 {
            return Ok(parts);
        }
        let p = if n - pos >= 2 && body[pos] == 13u8 && body[pos + 1] == 10u8 {
            pos + 2
        } else {
            pos
        };
        let next = find_sequence(&body[p..n], delim);
        proof {
            lemma_find_seq(body@.subrange(p as int, n as int), delim@);
        }
        let end = match next {
            Some(o) => p + o,
            None => n,
        };
        if end <= p {
            return Ok(parts);
        }
        let ghost before = parts_view(parts@);
        match parse_part(&body[p..end]) {
            Err(e) => {
                return Err(e);
            },
            Ok(opt) => match opt {
                Some(part) => {
                    parts.push(part);
                    assert(parts_view(parts@) =~= before.push(part@));
                },
                None => {},
            },
        }
        match next {
            Some(o) => {
                pos = p + o + dl;
            },
            None => {
                return Ok(parts);
            },
        }
    }
}


// ---------------------------------------------------------------------
// The result
// ---------------------------------------------------------------------

/// Form fields by name; inserting a name again replaces its part.
#[derive(Debug)]
pub struct FieldMap {
    entries: Vec<ParsedPart>,
}

impl FieldMap {
    #[verifier::type_invariant]
    closed spec fn names_distinct(&self) -> bool {
        forall|i: int, j: int|
            0 <= i < self.entries@.len() && 0 <= j < self.entries@.len() && i != j
                ==> #[trigger] self.entries@[i].name@ != #[trigger] self.entries@[j].name@
    }

    closed spec fn has_name(&self, k: Seq<char>, i: int) -> bool {
        0 <= i < self.entries@.len() && self.entries@[i].name@ == k
    }

    pub fn new() -> (r: Self)
        ensures
            r@ == Map::<Seq<char>, PartSpec>::empty(),
    {
        let r = FieldMap { entries: Vec::new() };
        assert(r@ =~= Map::<Seq<char>, PartSpec>::empty());
        r
    }

    /// The position of the entry named `name`.
    fn position(&self, name: &[char]) -> (r: Option<usize>)
        ensures
            r matches Some(i) ==> self.has_name(name@, i as int),
            r is None ==> forall|i: int| !self.has_name(name@, i),
    {
        let mut i: usize = 0;
        while i < self.entries.len()
            invariant
                i <= self.entries@.len(),
                forall|j: int| 0 <= j < i ==> !self.has_name(name@, j),
            decreases self.entries@.len() - i,
        {
            let k = chars_of(self.entries[i].name.as_str());
            if crate::text::same_chars(k.as_slice(), name) {
                return Some(i);
            }
            i += 1;
        }
        None
    }

    /// The part stored under `name`.
    pub fn get(&self, name: &str) -> (r: Option<&ParsedPart>)
        ensures
            r is Some <==> self@.contains_key(name@),
            r matches Some(p) ==> p@ == self@[name@],
    {
        proof {
            use_type_invariant(self);
        }
        let key = chars_of(name);
        match self.position(key.as_slice()) {
            Some(i) => {
                proof {
                    let j = choose|j: int| self.has_name(name@, j);
                    assert(self.has_name(name@, i as int));
                    if j != i {
                        assert(self.entries@[j].name@ != self.entries@[i as int].name@);
                    }
                }
                Some(&self.entries[i])
            },
            None => None,
        }
    }

    /// Stores `part` under its name, replacing any part of that name.
    pub fn insert(&mut self, part: ParsedPart)
        ensures
            final(self)@ == old(self)@.insert(part.name@, part@),
    {
        proof {
            use_type_invariant(&*self);
        }
        let key = chars_of(part.name.as_str());
        let pos = self.position(key.as_slice());
        let ghost old_map = self@;
        let ghost old_entries = self.entries@;
        let ghost pv = part@;
        let mut entries: Vec<ParsedPart> = Vec::new();
        std::mem::swap(&mut entries, &mut self.entries);
        match pos {
            Some(i) => {
                entries.set(i, part);
            },
            None => {
                entries.push(part);
            },
        }
        proof {
            let ip: int = match pos {
                Some(i) => i as int,
                None => old_entries.len() as int,
            };
            assert(forall|b: int| 0 <= b < old_entries.len() && b != ip ==> old_entries[b].name@ != pv.name) by {
                assert forall|b: int| 0 <= b < old_entries.len() && b != ip implies old_entries[b].name@ != pv.name by {
                    match pos {
                        Some(i) => {
                            assert(old_entries[i as int].name@ == pv.name);
                            assert(old_entries[b].name@ != old_entries[i as int].name@);
                        },
                        None => {
                            assert(!old(self).has_name(pv.name, b));
                        },
                    }
                }
            }
            assert(entries@[ip].name@ == pv.name);
            assert forall|a: int, b: int|
                0 <= a < entries@.len() && 0 <= b < entries@.len() && a != b implies #[trigger] entries@[a].name@
                != #[trigger] entries@[b].name@ by {
                if a != ip {
                    assert(entries@[a] == old_entries[a]);
                }
                if b != ip {
                    assert(entries@[b] == old_entries[b]);
                }
            }
        }
        self.entries = entries;
        proof {
            let new_map = self@;
            assert forall|k: Seq<char>| #[trigger] new_map.contains_key(k) == old_map.insert(pv.name, pv).contains_key(k) by {
                if k == pv.name {
                    match pos {
                        Some(i) => assert(self.has_name(k, i as int)),
                        None => assert(self.has_name(k, old_entries.len() as int)),
                    }
                } else {
                    if new_map.contains_key(k) {
                        let j = choose|j: int| self.has_name(k, j);
                        assert(self.entries@[j] == old_entries[j]);
                        assert(old(self).has_name(k, j));
                    }
                    if old_map.contains_key(k) {
                        let j = choose|j: int| old(self).has_name(k, j);
                        assert(self.has_name(k, j));
                    }
                }
            }
            assert forall|k: Seq<char>| #[trigger] new_map.contains_key(k) implies new_map[k]
                == old_map.insert(pv.name, pv)[k] by {
                let j = choose|j: int| self.has_name(k, j);
                if k == pv.name {
                    let i = match pos {
                        Some(i) => i as int,
                        None => old_entries.len() as int,
                    };
                    assert(self.has_name(k, i));
                    if j != i {
                        assert(self.entries@[j].name@ != self.entries@[i].name@);
                    }
                } else {
                    assert(self.entries@[j] == old_entries[j]);
                    assert(old(self).has_name(k, j));
                    let oj = choose|oj: int| old(self).has_name(k, oj);
                    if oj != j {
                        assert(old_entries[oj].name@ != old_entries[j].name@);
                    }
                }
            }
            assert(new_map =~= old_map.insert(pv.name, pv));
        }
    }
}

impl View for FieldMap {
    type V = Map<Seq<char>, PartSpec>;

    closed spec fn view(&self) -> Map<Seq<char>, PartSpec> {
        Map::new(
            |k: Seq<char>| exists|i: int| self.has_name(k, i),
            |k: Seq<char>| self.entries@[choose|i: int| self.has_name(k, i)]@,
        )
    }
}

/// The parsed body: file parts in order, and the other parts by name.
#[derive(Debug)]
pub struct ParsedMultipart {
    pub files: Vec<ParsedPart>,
    pub fields: FieldMap,
}

/// The parts with a non-empty filename, in order.
pub open spec fn files_of(parts: Seq<PartSpec>) -> Seq<PartSpec>
    decreases parts.len(),
{
    if parts.len() == 0 {
        seq![]
    } else {
        let earlier = files_of(parts.drop_last());
        if parts.last().filename.len() > 0 {
            earlier.push(parts.last())
        } else {
            earlier
        }
    }
}

/// A form field keeps its data where it is valid UTF-8, and otherwise the
/// UTF-8 encoding of its lossy decoding.
pub open spec fn field_value(p: PartSpec) -> PartSpec {
    PartSpec {
        data: if valid_utf8(p.data) {
            p.data
        } else {
            encode_utf8(utf8_lossy(p.data))
        },
        ..p
    }
}

/// The parts without a filename, by name; a later part replaces an earlier one.
pub open spec fn fields_of(parts: Seq<PartSpec>) -> Map<Seq<char>, PartSpec>
    decreases parts.len(),
{
    if parts.len() == 0 {
        Map::empty()
    } else {
        let earlier = fields_of(parts.drop_last());
        let p = parts.last();
        if p.filename.len() == 0 {
            earlier.insert(p.name, field_value(p))
        } else {
            earlier
        }
    }
}

/// `r` holds exactly the files and fields of `parts`.
pub open spec fn holds_parts(r: ParsedMultipart, parts: Seq<PartSpec>) -> bool {
    &&& parts_view(r.files@) == files_of(parts)
    &&& r.fields@ == fields_of(parts)
}

pub open spec fn dashes() -> Seq<u8> {
    seq![45u8, 45u8]
}

/// The delimiter line of a boundary: `--` and the boundary's UTF-8 bytes.
pub open spec fn delimiter(boundary: Seq<char>) -> Seq<u8> {
    dashes() + encode_utf8(boundary)
}

/// The boundary: from the `Content-Type` value where it declares one,
/// otherwise from the body.
pub open spec fn spec_boundary(body: Seq<u8>, content_type: Option<Seq<char>>) -> Option<Seq<char>> {
    let declared = match content_type {
        Some(c) => spec_extract_boundary(c),
        None => None,
    };
    match declared {
        Some(b) => Some(b),
        None => spec_find_boundary(body),
    }
}

/// The parts of a body: its boundary must be found, and its delimiter must
/// occur; parts follow the first delimiter.
pub open spec fn spec_multipart_parts(body: Seq<u8>, content_type: Option<Seq<char>>) -> Result<
    Seq<PartSpec>,
    Seq<char>,
> {
    match spec_boundary(body, content_type) {
        None => Err("No boundary found"@),
        Some(b) => {
            let d = delimiter(b);
            match find_seq(body, d) {
                None => Err("Boundary marker not found in body"@),
                Some(i) => parts_from(body, d, i + d.len(), seq![]),
            }
        },
    }
}

pub open spec fn opt_view(s: Option<&str>) -> Option<Seq<char>> {
    match s {
        Some(v) => Some(v@),
        None => None,
    }
}

fn field_part(part: ParsedPart) -> (r: ParsedPart)
    ensures
        r@ == field_value(part@),
{
    let text = decode_utf8_lossy(part.data.as_slice());
    let bytes = text.as_str().as_bytes();
    proof {
        if valid_utf8(part.data@) {
            vstd::utf8::decode_utf8_encode_utf8(part.data@);
        }
    }
    let data = copy_bytes(bytes, 0, bytes.len());
    assert(bytes@.subrange(0, bytes@.len() as int) =~= bytes@);
    ParsedPart { data, ..part }
}

fn assemble(parts: Vec<ParsedPart>) -> (r: ParsedMultipart)
    ensures
        holds_parts(r, parts_view(parts@)),
{
    let mut files: Vec<ParsedPart> = Vec::new();
    let mut fields = FieldMap::new();
    let ghost all = parts_view(parts@);
    assert(parts_view(files@) =~= seq![]);
    for part in it: parts
        invariant
            all == parts_view(it.seq()),
            parts_view(files@) == files_of(all.take(it.index() as int)),
            fields@ == fields_of(all.take(it.index() as int)),
    {
        let ghost i = it.index();
        assert(all.take(i + 1).drop_last() =~= all.take(i));
        assert(all.take(i + 1).last() == part@);
        if !part.filename.as_str().is_empty() {
            let ghost before = parts_view(files@);
            files.push(part);
            assert(parts_view(files@) =~= before.push(all[i]));
        } else {
            fields.insert(field_part(part));
        }
    }
    assert(all.take(all.len() as int) =~= all);
    ParsedMultipart { files, fields }
}

fn delimiter_bytes(boundary: &String) -> (r: Vec<u8>)
    ensures
        r@ == delimiter(boundary@),
{
    let b = boundary.as_str().as_bytes();
    let mut v: Vec<u8> = Vec::new();
    v.push(45u8);
    v.push(45u8);
    let mut i: usize = 0;
    while i < b.len()
        invariant
            i <= b@.len(),
            b@ == encode_utf8(boundary@),
            v@ == dashes() + b@.subrange(0, i as int),
        decreases b@.len() - i,
    {
        v.push(b[i]);
        i += 1;
        assert(v@ =~= dashes() + b@.subrange(0, i as int));
    }
    assert(b@.subrange(0, b@.len() as int) =~= b@);
    v
}

/// Parses a multipart body whose boundary is written in the body itself.
pub fn parse_multipart(body: &[u8]) -> (r: Result<ParsedMultipart, ParseError>)
    ensures
        match spec_multipart_parts(body@, None) {
            Ok(parts) => r matches Ok(m) && holds_parts(m, parts),
            Err(msg) => r matches Err(e) && e.0@ == msg,
        },
{
    parse_multipart_with_content_type(body, None)
}

/// Parses a multipart body; the boundary comes from the `Content-Type`
/// value where it declares one, otherwise from the body.
pub fn parse_multipart_with_content_type(body: &[u8], content_type: Option<&str>) -> (r: Result<
    ParsedMultipart,
    ParseError,
>)
    ensures
        match spec_multipart_parts(body@, opt_view(content_type)) {
            Ok(parts) => r matches Ok(m) && holds_parts(m, parts),
            Err(msg) => r matches Err(e) && e.0@ == msg,
        },
{
    let declared = match content_type {
        Some(ct) => extract_boundary(ct),
        None => None,
    };
    let boundary = match declared {
        Some(value) => value,
        None => match find_boundary(body) {
            Some(value) => value,
            None => return Err(ParseError("No boundary found".to_owned())),
        },
    };
    let delim = delimiter_bytes(&boundary);
    let bl = body.len();
    let first = match find_sequence(body, delim.as_slice()) {
        Some(i) => i,
        None => return Err(ParseError("Boundary marker not found in body".to_owned())),
    };
    proof {
        lemma_find_seq(body@, delim@);
    }
    let parts = collect_parts(body, delim.as_slice(), first + delim.len())?;
    Ok(assemble(parts))
}

/// Whether no CR LF pair occurs in `s`.
pub open spec fn no_crlf(s: Seq<char>) -> bool {
    forall|k: int| 0 <= k < s.len() - 1 ==> !(#[trigger] s[k] == '\r' && s[k + 1] == '\n')
}

proof fn lemma_next_crlf_le(s: Seq<char>, i: int, k: int)
    requires
        0 <= i <= k,
        k + 1 < s.len(),
        s[k] == '\r',
        s[k + 1] == '\n',
    ensures
        next_crlf(s, i) <= k,
        s[next_crlf(s, i)] == '\r' && s[next_crlf(s, i) + 1] == '\n',
    decreases k - i,
{
    if !(s[i] == '\r' && s[i + 1] == '\n') {
        lemma_next_crlf_le(s, i + 1, k);
    }
}

proof fn lemma_next_crlf_none(s: Seq<char>, i: int)
    requires
        0 <= i <= s.len(),
        forall|k: int| i <= k < s.len() - 1 ==> !(#[trigger] s[k] == '\r' && s[k + 1] == '\n'),
    ensures
        next_crlf(s, i) == s.len(),
    decreases s.len() - i,
{
    if i + 1 < s.len() {
        lemma_next_crlf_none(s, i + 1);
    }
}

/// In a header block whose last line is `line` (after a CR LF, or alone),
/// the last header pair read is that line's.
proof fn lemma_last_line_pair(s: Seq<char>, m: int, line: Seq<char>, i: int, acc: Seq<(Seq<char>, Seq<char>)>)
    requires
        0 <= m <= s.len(),
        s.subrange(m, s.len() as int) == line,
        no_crlf(line),
        m == 0 || (m >= 2 && s[m - 2] == '\r' && s[m - 1] == '\n'),
        line_pair(line) is Some,
        0 <= i <= m,
        i == m || i <= m - 2,
    ensures
        header_pairs_from(s, i, acc).len() > 0,
        header_pairs_from(s, i, acc).last() == line_pair(line)->0,
    decreases s.len() - i,
{
    lemma_next_crlf(s, i);
    if i == m {
        assert forall|k: int| m <= k < s.len() - 1 implies !(#[trigger] s[k] == '\r' && s[k + 1] == '\n') by {
            assert(s[k] == line[k - m] && s[k + 1] == line[k - m + 1]);
        }
        lemma_next_crlf_none(s, m);
        assert(s.subrange(i, next_crlf(s, i)) == line);
    } else {
        lemma_next_crlf_le(s, i, m - 2);
        let j = next_crlf(s, i);
        let acc2 = match line_pair(s.subrange(i, j)) {
            Some(p) => acc.push(p),
            None => acc,
        };
        if j + 2 == m - 1 {
            assert(s[m - 2] == '\n');
        }
        lemma_last_line_pair(s, m, line, j + 2, acc2);
    }
}

/// A header line `Name:value` whose name, trimmed and lower-cased, is
/// `content-type` gives that pair with the trimmed value.
proof fn lemma_content_type_line(name: Seq<char>, v: Seq<char>)
    requires
        forall|k: int| 0 <= k < name.len() ==> #[trigger] name[k] != ':',
        ascii_lower(trim(name)) == "content-type"@,
    ensures
        line_pair(name + seq![':'] + v) == Some((("content-type"@), trim(v))),
{
    let line = name + seq![':'] + v;
    assert forall|k: int| 0 <= k < name.len() implies line[k] != ':' by {
        assert(line[k] == name[k]);
    }
    crate::text::lemma_next_sep(line, ':', 0);
    let x = next_sep(line, ':', 0);
    if x < name.len() {
        assert(line[x] == name[x]);
    }
    assert(line[name.len() as int] == ':');
    assert(x == name.len());
    assert(line.subrange(0, x) =~= name);
    assert(line.subrange(x + 1, line.len() as int) =~= v);
}

/// A part whose header block (the bytes before its first blank line, valid
/// UTF-8) ends with a `Content-Type: V` line, in any case, keeps `V`
/// (trimmed) as its content type; `application/octet-stream` is not put in
/// its place.
pub proof fn lemma_part_keeps_its_content_type(
    raw: Seq<u8>,
    he: int,
    pre: Seq<char>,
    name: Seq<char>,
    v: Seq<char>,
)
    requires
        occurs_at(raw, crlfcrlf(), he),
        forall|j: int| 0 <= j < he ==> !occurs_at(raw, crlfcrlf(), j),
        valid_utf8(raw.subrange(0, he)),
        decode_utf8(raw.subrange(0, he)) == pre + (name + seq![':'] + v),
        pre.len() == 0 || (pre.len() >= 2 && pre[pre.len() - 2] == '\r' && pre.last() == '\n'),
        forall|k: int| 0 <= k < name.len() ==> #[trigger] name[k] != ':',
        ascii_lower(trim(name)) == "content-type"@,
        no_crlf(name + seq![':'] + v),
    ensures
        spec_parse_part(raw) matches Ok(p) && p.content_type == trim(v),
{
    lemma_find_seq(raw, crlfcrlf());
    let f = find_seq(raw, crlfcrlf());
    assert(f == Some(he)) by {
        if f is None {
            assert(!occurs_at(raw, crlfcrlf(), he));
        } else {
            let k = f->0;
            if k < he {
            } else if k > he {
                assert(!occurs_at(raw, crlfcrlf(), he));
            }
        }
    }
    let line = name + seq![':'] + v;
    let h = pre + line;
    lemma_content_type_line(name, v);
    let m = pre.len() as int;
    assert(h.subrange(m, h.len() as int) =~= line);
    if m > 0 {
        assert(h[m - 2] == pre[m - 2] && h[m - 1] == pre[m - 1]);
    }
    lemma_last_line_pair(h, m, line, 0, seq![]);
    let pairs = header_pairs(h);
    assert(pairs.last() == (("content-type"@), trim(v)));
    assert(header_lookup(pairs, "content-type"@) == Some(trim(v)));
}

} // verus!

