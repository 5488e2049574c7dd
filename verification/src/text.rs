//! Character-level helpers shared by the parsers: whitespace trimming,
//! ASCII case folding, prefix tests and separator search, each stated over
//! `Seq<char>` and implemented over `&[char]`.
use vstd::prelude::*;

verus! {

/// The Unicode `White_Space` characters, as `char::is_whitespace` documents them.
pub open spec fn is_ws(c: char) -> bool {
    let u = c as u32;
    ||| 0x09 <= u <= 0x0d
    ||| u == 0x20
    ||| u == 0x85
    ||| u == 0xa0
    ||| u == 0x1680
    ||| 0x2000 <= u <= 0x200a
    ||| u == 0x2028
    ||| u == 0x2029
    ||| u == 0x202f
    ||| u == 0x205f
    ||| u == 0x3000
}

pub fn char_is_whitespace(c: char) -> (r: bool)
    ensures
        r == is_ws(c),
{
    let u = c as u32;
    (0x09 <= u && u <= 0x0d) || u == 0x20 || u == 0x85 || u == 0xa0 || u == 0x1680 || (0x2000
        <= u && u <= 0x200a) || u == 0x2028 || u == 0x2029 || u == 0x202f || u == 0x205f || u
        == 0x3000
}

/// Leading Unicode whitespace removed (`str::trim_start`).
pub open spec fn trim_start(s: Seq<char>) -> Seq<char>
    decreases s.len(),
{
    if s.len() > 0 && is_ws(s[0]) {
        trim_start(s.drop_first())
    } else {
        s
    }
}

/// Trailing Unicode whitespace removed (`str::trim_end`).
pub open spec fn trim_end(s: Seq<char>) -> Seq<char>
    decreases s.len(),
{
    if s.len() > 0 && is_ws(s.last()) {
        trim_end(s.drop_last())
    } else {
        s
    }
}

/// `str::trim`: leading and trailing Unicode whitespace removed.
pub open spec fn trim(s: Seq<char>) -> Seq<char> {
    trim_end(trim_start(s))
}

/// `str::trim_start_matches(ch)`: every leading `ch` removed.
pub open spec fn trim_start_char(s: Seq<char>, ch: char) -> Seq<char>
    decreases s.len(),
{
    if s.len() > 0 && s[0] == ch {
        trim_start_char(s.drop_first(), ch)
    } else {
        s
    }
}

/// `str::trim_end_matches(ch)`: every trailing `ch` removed.
pub open spec fn trim_end_char(s: Seq<char>, ch: char) -> Seq<char>
    decreases s.len(),
{
    if s.len() > 0 && s.last() == ch {
        trim_end_char(s.drop_last(), ch)
    } else {
        s
    }
}

/// `str::trim_matches(ch)`: every leading and trailing `ch` removed.
pub open spec fn trim_char(s: Seq<char>, ch: char) -> Seq<char> {
    trim_end_char(trim_start_char(s, ch), ch)
}

pub open spec fn ascii_lower_char(c: char) -> char {
    if 'A' <= c <= 'Z' {
        ((c as u32) + 32) as char
    } else {
        c
    }
}

/// `str::to_ascii_lowercase`.
pub open spec fn ascii_lower(s: Seq<char>) -> Seq<char> {
    s.map_values(|c: char| ascii_lower_char(c))
}

pub open spec fn starts_with(s: Seq<char>, p: Seq<char>) -> bool {
    p.len() <= s.len() && s.subrange(0, p.len() as int) == p
}

pub open spec fn ends_with(s: Seq<char>, p: Seq<char>) -> bool {
    p.len() <= s.len() && s.subrange(s.len() - p.len(), s.len() as int) == p
}

/// Index of the first `c` at or after `i`, or `s.len()` where there is none.
pub open spec fn next_sep(s: Seq<char>, c: char, i: int) -> int
    decreases s.len() - i,
{
    if i >= s.len() {
        s.len() as int
    } else if s[i] == c {
        i
    } else {
        next_sep(s, c, i + 1)
    }
}

pub proof fn lemma_next_sep(s: Seq<char>, c: char, i: int)
    requires
        0 <= i <= s.len(),
    ensures
        i <= next_sep(s, c, i) <= s.len(),
        next_sep(s, c, i) < s.len() ==> s[next_sep(s, c, i)] == c,
        forall|k: int| i <= k < next_sep(s, c, i) ==> s[k] != c,
    decreases s.len() - i,
{
    if i < s.len() && s[i] != c {
        lemma_next_sep(s, c, i + 1);
    }
}

pub fn char_is_ascii_upper(c: char) -> (r: bool)
    ensures
        r == ('A' <= c <= 'Z'),
{
    'A' <= c && c <= 'Z'
}

pub fn to_ascii_lower_char(c: char) -> (r: char)
    ensures
        r == ascii_lower_char(c),
{
    if 'A' <= c && c <= 'Z' {
        let b = (c as u8) + 32;
        b as char
    } else {
        c
    }
}

/// The characters of a string slice, in order.
pub fn chars_of(s: &str) -> (r: Vec<char>)
    ensures
        r@ == s@,
{
    let mut out: Vec<char> = Vec::new();
    for c in it: s.chars()
        invariant
            out@ == it.seq().take(it.index() as int),
            it.seq() == s@,
    {
        out.push(c);
    }
    out
}

/// Builds a `String` from its characters (`FromIterator<char>` for `String`).
#[verifier::external_body]
pub(crate) fn string_of(cs: &[char]) -> (r: String)
    ensures
        r@ == cs@,
{
    cs.iter().collect()
}

/// A copy of `s[a..b]`.
pub fn slice_chars(s: &[char], a: usize, b: usize) -> (r: Vec<char>)
    requires
        a <= b <= s@.len(),
    ensures
        r@ == s@.subrange(a as int, b as int),
{
    let mut out: Vec<char> = Vec::new();
    let mut i = a;
    while i < b
        invariant
            a <= i <= b <= s@.len(),
            out@ == s@.subrange(a as int, i as int),
        decreases b - i,
    {
        out.push(s[i]);
        i += 1;
        assert(out@ =~= s@.subrange(a as int, i as int));
    }
    out
}

pub fn trim_chars(s: &[char]) -> (r: Vec<char>)
    ensures
        r@ == trim(s@),
{
    let n = s.len();
    let mut a: usize = 0;
    assert(s@.subrange(0, n as int) =~= s@);
    while a < n && char_is_whitespace(s[a])
        invariant
            a <= n == s@.len(),
            trim_start(s@) == trim_start(s@.subrange(a as int, n as int)),
        decreases n - a,
    {
        assert(s@.subrange(a as int, n as int).drop_first() =~= s@.subrange(a + 1, n as int));
        a += 1;
    }
    let mut b: usize = n;
    assert(trim_start(s@) == s@.subrange(a as int, n as int));
    while b > a && char_is_whitespace(s[b - 1])
        invariant
            a <= b <= n == s@.len(),
            trim(s@) == trim_end(s@.subrange(a as int, b as int)),
        decreases b - a,
    {
        assert(s@.subrange(a as int, b as int).drop_last() =~= s@.subrange(a as int, b - 1));
        b -= 1;
    }
    slice_chars(s, a, b)
}

pub fn trim_matches_char(s: &[char], ch: char) -> (r: Vec<char>)
    ensures
        r@ == trim_char(s@, ch),
{
    let n = s.len();
    let mut a: usize = 0;
    assert(s@.subrange(0, n as int) =~= s@);
    while a < n && s[a] == ch
        invariant
            a <= n == s@.len(),
            trim_start_char(s@, ch) == trim_start_char(s@.subrange(a as int, n as int), ch),
        decreases n - a,
    {
        assert(s@.subrange(a as int, n as int).drop_first() =~= s@.subrange(a + 1, n as int));
        a += 1;
    }
    let mut b: usize = n;
    assert(trim_start_char(s@, ch) == s@.subrange(a as int, n as int));
    while b > a && s[b - 1] == ch
        invariant
            a <= b <= n == s@.len(),
            trim_char(s@, ch) == trim_end_char(s@.subrange(a as int, b as int), ch),
        decreases b - a,
    {
        assert(s@.subrange(a as int, b as int).drop_last() =~= s@.subrange(a as int, b - 1));
        b -= 1;
    }
    slice_chars(s, a, b)
}

pub fn ascii_lowercase(s: &[char]) -> (r: Vec<char>)
    ensures
        r@ == ascii_lower(s@),
{
    let mut out: Vec<char> = Vec::new();
    let mut i: usize = 0;
    while i < s.len()
        invariant
            i <= s@.len(),
            out@ == ascii_lower(s@.subrange(0, i as int)),
        decreases s@.len() - i,
    {
        out.push(to_ascii_lower_char(s[i]));
        i += 1;
        assert(out@ =~= ascii_lower(s@.subrange(0, i as int)));
    }
    assert(s@.subrange(0, s@.len() as int) =~= s@);
    out
}

pub fn has_prefix(s: &[char], p: &[char]) -> (r: bool)
    ensures
        r == starts_with(s@, p@),
{
    if p.len() > s.len() {
        return false;
    }
    let mut i: usize = 0;
    while i < p.len()
        invariant
            p@.len() <= s@.len(),
            i <= p@.len(),
            s@.subrange(0, i as int) == p@.subrange(0, i as int),
        decreases p@.len() - i,
    {
        if s[i] != p[i] {
            assert(s@.subrange(0, p@.len() as int)[i as int] != p@[i as int]);
            return false;
        }
        i += 1;
        assert(s@.subrange(0, i as int) =~= p@.subrange(0, i as int));
    }
    assert(p@.subrange(0, p@.len() as int) =~= p@);
    true
}

pub fn has_suffix(s: &[char], p: &[char]) -> (r: bool)
    ensures
        r == ends_with(s@, p@),
{
    if p.len() > s.len() {
        return false;
    }
    let n = s.len();
    let off = n - p.len();
    let mut i: usize = 0;
    while i < p.len()
        invariant
            n == s@.len(),
            p@.len() <= s@.len(),
            off + p@.len() == s@.len(),
            i <= p@.len(),
            s@.subrange(off as int, off + i) == p@.subrange(0, i as int),
        decreases p@.len() - i,
    {
        if s[off + i] != p[i] {
            assert(s@.subrange(off as int, s@.len() as int)[i as int] != p@[i as int]);
            return false;
        }
        i += 1;
        assert(s@.subrange(off as int, off + i) =~= p@.subrange(0, i as int));
    }
    assert(p@.subrange(0, p@.len() as int) =~= p@);
    true
}

pub fn same_chars(s: &[char], t: &[char]) -> (r: bool)
    ensures
        r == (s@ == t@),
{
    if s.len() != t.len() {
        return false;
    }
    let r = has_prefix(s, t);
    assert(s@.subrange(0, t@.len() as int) =~= s@);
    r
}

/// `s.strip_prefix(p)`.
pub fn strip_prefix_chars(s: &[char], p: &[char]) -> (r: Option<Vec<char>>)
    ensures
        r is Some <==> starts_with(s@, p@),
        r matches Some(v) ==> v@ == s@.subrange(p@.len() as int, s@.len() as int),
{
    if has_prefix(s, p) {
        Some(slice_chars(s, p.len(), s.len()))
    } else {
        None
    }
}

pub fn find_char(s: &[char], c: char, i: usize) -> (r: usize)
    requires
        i <= s@.len(),
    ensures
        r == next_sep(s@, c, i as int),
{
    let mut j = i;
    while j < s.len() && s[j] != c
        invariant
            i <= j <= s@.len(),
            next_sep(s@, c, i as int) == next_sep(s@, c, j as int),
        decreases s@.len() - j,
    {
        j += 1;
    }
    j
}

pub fn contains_char(s: &[char], c: char) -> (r: bool)
    ensures
        r == s@.contains(c),
{
    let j = find_char(s, c, 0);
    proof {
        lemma_next_sep(s@, c, 0);
        if j < s@.len() {
            assert(s@[j as int] == c);
        }
    }
    j < s.len()
}


/// Lexicographic order by code point: the order of `String`'s `Ord`, since
/// UTF-8 byte order agrees with code point order.
pub open spec fn lex_lt(a: Seq<char>, b: Seq<char>) -> bool
    decreases a.len(),
{
    if a.len() == 0 {
        b.len() > 0
    } else if b.len() == 0 {
        false
    } else if a[0] != b[0] {
        a[0] < b[0]
    } else {
        lex_lt(a.drop_first(), b.drop_first())
    }
}

pub proof fn lemma_lex_irreflexive(a: Seq<char>)
    ensures
        !lex_lt(a, a),
    decreases a.len(),
{
    if a.len() > 0 {
        lemma_lex_irreflexive(a.drop_first());
    }
}

/// Exactly one of `a < b`, `a == b`, `b < a`.
pub proof fn lemma_lex_trichotomy(a: Seq<char>, b: Seq<char>)
    ensures
        lex_lt(a, b) || a == b || lex_lt(b, a),
        !(lex_lt(a, b) && lex_lt(b, a)),
        !lex_lt(a, a),
    decreases a.len(),
{
    lemma_lex_irreflexive(a);
    if a.len() > 0 && b.len() > 0 {
        if a[0] == b[0] {
            lemma_lex_trichotomy(a.drop_first(), b.drop_first());
            if a.drop_first() == b.drop_first() {
                assert(a =~= seq![a[0]] + a.drop_first());
                assert(b =~= seq![b[0]] + b.drop_first());
            }
        }
    } else if a.len() == 0 && b.len() == 0 {
        assert(a =~= b);
    }
}

pub proof fn lemma_lex_transitive(a: Seq<char>, b: Seq<char>, c: Seq<char>)
    requires
        lex_lt(a, b),
        lex_lt(b, c),
    ensures
        lex_lt(a, c),
    decreases a.len(),
{
    if a.len() > 0 && b.len() > 0 && c.len() > 0 {
        if a[0] == b[0] && b[0] == c[0] {
            lemma_lex_transitive(a.drop_first(), b.drop_first(), c.drop_first());
        }
    }
}

pub fn lex_less(a: &[char], b: &[char]) -> (r: bool)
    ensures
        r == lex_lt(a@, b@),
{
    let mut i: usize = 0;
    assert(a@.subrange(0, a@.len() as int) =~= a@);
    assert(b@.subrange(0, b@.len() as int) =~= b@);
    while i < a.len() && i < b.len() && a[i] == b[i]
        invariant
            i <= a@.len(),
            i <= b@.len(),
            lex_lt(a@, b@) == lex_lt(a@.subrange(i as int, a@.len() as int), b@.subrange(i as int, b@.len() as int)),
        decreases a@.len() - i,
    {
        let ghost sa = a@.subrange(i as int, a@.len() as int);
        let ghost sb = b@.subrange(i as int, b@.len() as int);
        assert(sa.drop_first() =~= a@.subrange(i + 1, a@.len() as int));
        assert(sb.drop_first() =~= b@.subrange(i + 1, b@.len() as int));
        i += 1;
    }
    let ghost sa = a@.subrange(i as int, a@.len() as int);
    let ghost sb = b@.subrange(i as int, b@.len() as int);
    if i == a.len() {
        i < b.len()
    } else if i == b.len() {
        false
    } else {
        assert(sa[0] == a@[i as int] && sb[0] == b@[i as int]);
        a[i] < b[i]
    }
}


/// The characters of `str::to_lowercase` of a string: Unicode lowercase mapping.
pub uninterp spec fn lowercase(s: Seq<char>) -> Seq<char>;

/// Calls `str::to_lowercase`. Trusted: the result depends on the
/// characters alone; which mapping Unicode gives each character is left unsaid.
#[verifier::external_body]
pub(crate) fn to_lowercase(s: &str) -> (r: String)
    ensures
        r@ == lowercase(s@),
{
    s.to_lowercase()
}

/// Whether `char::is_alphanumeric` holds: Unicode `Alphabetic` or `Numeric`.
pub uninterp spec fn is_alphanumeric(c: char) -> bool;

/// Calls `char::is_alphanumeric`. Trusted: the answer depends on the
/// character alone; the Unicode tables are left unsaid.
#[verifier::external_body]
pub(crate) fn char_is_alphanumeric(c: char) -> (r: bool)
    ensures
        r == is_alphanumeric(c),
{
    c.is_alphanumeric()
}

/// `lowercase` of a character sequence, computed through `str::to_lowercase`.
pub fn lowercase_chars(s: &[char]) -> (r: Vec<char>)
    ensures
        r@ == lowercase(s@),
{
    let st = string_of(s);
    let l = to_lowercase(st.as_str());
    chars_of(l.as_str())
}

/// The end of the line that starts at `i`: the next `\n`, or the end.
pub open spec fn line_end(s: Seq<char>, i: int) -> int {
    next_sep(s, '\n', i)
}

/// The line that starts at `i`, as `str::lines` yields it: without its `\n`,
/// and without a `\r` just before that `\n`.
pub open spec fn line_at(s: Seq<char>, i: int) -> Seq<char> {
    let j = line_end(s, i);
    if j < s.len() && j > i && s[j - 1] == '\r' {
        s.subrange(i, j - 1)
    } else {
        s.subrange(i, j)
    }
}

/// The line at `i` as a vector, and where it ends (the `\n` after it, or
/// the end of `s`).
pub fn next_line(s: &[char], i: usize) -> (r: (Vec<char>, usize))
    requires
        i < s@.len(),
    ensures
        r.0@ == line_at(s@, i as int),
        r.1 == line_end(s@, i as int),
        i <= r.1 <= s@.len(),
{
    let j = find_char(s, '\n', i);
    proof {
        lemma_next_sep(s@, '\n', i as int);
    }
    let line = if j < s.len() && j > i && s[j - 1] == '\r' {
        slice_chars(s, i, j - 1)
    } else {
        slice_chars(s, i, j)
    };
    (line, j)
}

/// `str::trim_end_matches(p)` for a non-empty string pattern `p`.
pub open spec fn trim_end_str(s: Seq<char>, p: Seq<char>) -> Seq<char>
    decreases s.len(),
{
    if p.len() > 0 && ends_with(s, p) {
        trim_end_str(s.subrange(0, s.len() - p.len()), p)
    } else {
        s
    }
}

pub fn trim_end_matches_str(s: &[char], p: &[char]) -> (r: Vec<char>)
    ensures
        r@ == trim_end_str(s@, p@),
{
    let mut n = s.len();
    assert(s@.subrange(0, n as int) =~= s@);
    while p.len() > 0 && has_suffix(&s[0..n], p)
        invariant
            n <= s@.len(),
            trim_end_str(s@, p@) == trim_end_str(s@.subrange(0, n as int), p@),
        decreases n,
    {
        assert(s@.subrange(0, n as int).subrange(0, n - p@.len()) =~= s@.subrange(0, n - p@.len()));
        n = n - p.len();
    }
    slice_chars(s, 0, n)
}


/// The first index at or after `i` where the non-empty `n` occurs in `h`.
pub open spec fn find_chars_from(h: Seq<char>, n: Seq<char>, i: int) -> Option<int>
    decreases h.len() + 1 - i,
{
    if i < 0 || n.len() == 0 || i + n.len() > h.len() {
        None
    } else if h.subrange(i, i + n.len()) == n {
        Some(i)
    } else {
        find_chars_from(h, n, i + 1)
    }
}

pub proof fn lemma_find_chars_from(h: Seq<char>, n: Seq<char>, i: int)
    requires
        0 <= i,
    ensures
        find_chars_from(h, n, i) matches Some(k) ==> i <= k && k + n.len() <= h.len() && h.subrange(k, k + n.len()) == n,
    decreases h.len() + 1 - i,
{
    if n.len() > 0 && i + n.len() <= h.len() && h.subrange(i, i + n.len()) != n {
        lemma_find_chars_from(h, n, i + 1);
    }
}

pub fn find_chars(h: &[char], n: &[char], i: usize) -> (r: Option<usize>)
    ensures
        r matches Some(k) ==> find_chars_from(h@, n@, i as int) == Some(k as int),
        r is None ==> find_chars_from(h@, n@, i as int) is None,
{
    let hl = h.len();
    let nl = n.len();
    if nl == 0 {
        return None;
    }
    let mut k = i;
    while k <= hl && nl <= hl - k
        invariant
            hl == h@.len(),
            nl == n@.len(),
            nl > 0,
            i <= k,
            find_chars_from(h@, n@, i as int) == find_chars_from(h@, n@, k as int),
        decreases hl + 1 - k,
    {
        if same_chars(&h[k..k + nl], n) {
            return Some(k);
        }
        k += 1;
    }
    None
}


pub open spec fn digit_char(d: nat) -> char {
    ((48 + d) as u8) as char
}

/// The decimal digits of `n`, without leading zeros (`0` for zero).
pub open spec fn decimal_digits(n: nat) -> Seq<char>
    decreases n,
{
    if n < 10 {
        seq![digit_char(n)]
    } else {
        decimal_digits(n / 10).push(digit_char(n % 10))
    }
}

/// The `Display` text of an integer: a `-` before negative numbers.
pub open spec fn decimal(n: int) -> Seq<char> {
    if n < 0 {
        seq!['-'] + decimal_digits((-n) as nat)
    } else {
        decimal_digits(n as nat)
    }
}

fn digits_u64(n: u64) -> (r: Vec<char>)
    ensures
        r@ == decimal_digits(n as nat),
    decreases n,
{
    if n < 10 {
        let mut v: Vec<char> = Vec::new();
        v.push(((48 + n) as u8) as char);
        assert(v@ =~= decimal_digits(n as nat));
        v
    } else {
        let mut v = digits_u64(n / 10);
        v.push(((48 + n % 10) as u8) as char);
        v
    }
}

/// The decimal text of an `i64` (its `Display`).
pub fn format_i64(n: i64) -> (r: Vec<char>)
    ensures
        r@ == decimal(n as int),
{
    if n < 0 {
        let m: u64 = if n == i64::MIN {
            9223372036854775808u64
        } else {
            (-n) as u64
        };
        let d = digits_u64(m);
        let mut v: Vec<char> = Vec::new();
        v.push('-');
        let mut w = d;
        let ghost dv = w@;
        v.append(&mut w);
        assert(v@ =~= seq!['-'] + dv);
        v
    } else {
        digits_u64(n as u64)
    }
}

/// The decimal text of a `u64` (its `Display`).
pub fn format_u64(n: u64) -> (r: Vec<char>)
    ensures
        r@ == decimal(n as int),
{
    digits_u64(n)
}

/// `a` followed by `b`, as a `String`.
pub fn concat_strs(a: &str, b: &str) -> (r: String)
    ensures
        r@ == a@ + b@,
{
    let mut v = chars_of(a);
    let mut w = chars_of(b);
    v.append(&mut w);
    string_of(v.as_slice())
}

/// Whether `needle` occurs in `hay` (`str::contains` with a string pattern).
pub open spec fn contains_seq(hay: Seq<char>, needle: Seq<char>) -> bool {
    exists|i: int| 0 <= i && i + needle.len() <= hay.len() && #[trigger] hay.subrange(i, i + needle.len()) == needle
}

pub fn contains_chars(hay: &[char], needle: &[char]) -> (r: bool)
    ensures
        r == contains_seq(hay@, needle@),
{
    let hl = hay.len();
    let nl = needle.len();
    if nl > hl {
        return false;
    }
    let mut i: usize = 0;
    loop
        invariant
            hl == hay@.len(),
            nl == needle@.len(),
            nl <= hl,
            i <= hl - nl,
            forall|j: int| 0 <= j < i ==> #[trigger] hay@.subrange(j, j + nl) != needle@,
        decreases hl - nl - i,
    {
        if same_chars(&hay[i..i + nl], needle) {
            return true;
        }
        if i == hl - nl {
            assert(forall|j: int| 0 <= j && j + nl <= hl ==> #[trigger] hay@.subrange(j, j + nl) != needle@);
            return false;
        }
        i += 1;
    }
}


/// Whether every character is an ASCII digit.
pub open spec fn all_digits(s: Seq<char>) -> bool {
    forall|i: int| 0 <= i < s.len() ==> '0' <= #[trigger] s[i] <= '9'
}

/// The number an ASCII digit string writes.
pub open spec fn digits_value(s: Seq<char>) -> nat
    decreases s.len(),
{
    if s.len() == 0 {
        0
    } else {
        digits_value(s.drop_last()) * 10 + ((s.last() as u32) - 48) as nat
    }
}

/// The digits after an optional leading `sign`.
pub open spec fn unsigned_body(s: Seq<char>, sign: char) -> Seq<char> {
    if s.len() > 0 && s[0] == sign {
        s.drop_first()
    } else {
        s
    }
}

/// `str::parse::<u64>`: an optional `+`, then one or more ASCII digits,
/// within range.
pub open spec fn spec_parse_u64(s: Seq<char>) -> Option<u64> {
    let body = unsigned_body(s, '+');
    if body.len() == 0 || !all_digits(body) || digits_value(body) > u64::MAX {
        None
    } else {
        Some(digits_value(body) as u64)
    }
}

fn digits_of(body: &[char], limit: u64) -> (r: Option<u64>)
    ensures
        match r {
            Some(v) => body@.len() > 0 && all_digits(body@) && digits_value(body@) <= limit && v == digits_value(
                body@,
            ),
            None => body@.len() == 0 || !all_digits(body@) || digits_value(body@) > limit,
        },
{
    let n = body.len();
    if n == 0 {
        return None;
    }
    let mut v: u64 = 0;
    let mut i: usize = 0;
    assert(body@.subrange(0, 0) =~= Seq::<char>::empty());
    while i < n
        invariant
            n == body@.len(),
            i <= n,
            all_digits(body@.subrange(0, i as int)),
            v == digits_value(body@.subrange(0, i as int)),
            v <= limit,
        decreases n - i,
    {
        let c = body[i];
        proof {
            assert(body@.subrange(0, i + 1).drop_last() =~= body@.subrange(0, i as int));
            assert(body@.subrange(0, i + 1).last() == c);
        }
        if c < '0' || c > '9' {
            assert(!all_digits(body@)) by {
                assert(body@[i as int] == c);
            }
            return None;
        }
        let d = (c as u32 - 48) as u64;
        assert(d == (c as u32 - 48) as nat);
        if d > limit || v > (limit - d) / 10 {
            proof {
                assert(digits_value(body@.subrange(0, i + 1)) == v * 10 + d);
                if d <= limit {
                    assert(v * 10 + d > limit) by (nonlinear_arith)
                        requires
                            v > (limit - d) / 10,
                            d <= limit,
                    ;
                }
                if all_digits(body@) {
                    lemma_digits_grow(body@, i as int + 1);
                }
            }
            return None;
        }
        proof {
            assert(v * 10 + d <= limit) by (nonlinear_arith)
                requires
                    v <= (limit - d) / 10,
                    d <= limit,
            ;
        }
        v = v * 10 + d;
        i += 1;
        proof {
            assert forall|k: int| 0 <= k < i implies '0' <= #[trigger] body@.subrange(0, i as int)[k] <= '9' by {
                if k < i - 1 {
                    assert(body@.subrange(0, i as int)[k] == body@.subrange(0, i - 1)[k]);
                }
            }
        }
    }
    assert(body@.subrange(0, n as int) =~= body@);
    Some(v)
}

/// A longer digit string writes at least as large a number.
proof fn lemma_digits_grow(s: Seq<char>, k: int)
    requires
        0 <= k <= s.len(),
        all_digits(s),
    ensures
        digits_value(s) >= digits_value(s.subrange(0, k)),
    decreases s.len() - k,
{
    if k < s.len() {
        lemma_digits_grow(s, k + 1);
        assert(s.subrange(0, k + 1).drop_last() =~= s.subrange(0, k));
        assert(s.subrange(0, k + 1).last() == s[k]);
    } else {
        assert(s.subrange(0, k) =~= s);
    }
}

pub fn parse_u64(s: &str) -> (r: Option<u64>)
    ensures
        r == spec_parse_u64(s@),
{
    let c = chars_of(s);
    let body = if c.len() > 0 && c[0] == '+' {
        slice_chars(c.as_slice(), 1, c.len())
    } else {
        c
    };
    assert(body@ == unsigned_body(s@, '+'));
    digits_of(body.as_slice(), u64::MAX)
}


/// `str::parse::<usize>`: as `spec_parse_u64`, within `usize`.
pub open spec fn spec_parse_usize(s: Seq<char>) -> Option<usize> {
    let body = unsigned_body(s, '+');
    if body.len() == 0 || !all_digits(body) || digits_value(body) > usize::MAX {
        None
    } else {
        Some(digits_value(body) as usize)
    }
}

pub fn parse_usize(s: &str) -> (r: Option<usize>)
    ensures
        r == spec_parse_usize(s@),
{
    let c = chars_of(s);
    let body = if c.len() > 0 && c[0] == '+' {
        slice_chars(c.as_slice(), 1, c.len())
    } else {
        c
    };
    assert(body@ == unsigned_body(s@, '+'));
    match digits_of(body.as_slice(), usize::MAX as u64) {
        Some(v) => Some(v as usize),
        None => None,
    }
}

/// `str::parse::<i64>`: an optional sign, then one or more ASCII digits,
/// within range.
pub open spec fn spec_parse_i64(s: Seq<char>) -> Option<i64> {
    if s.len() > 0 && s[0] == '-' {
        let body = s.drop_first();
        if body.len() == 0 || !all_digits(body) || digits_value(body) > 0x8000_0000_0000_0000 {
            None
        } else {
            Some((0 - digits_value(body)) as i64)
        }
    } else {
        let body = unsigned_body(s, '+');
        if body.len() == 0 || !all_digits(body) || digits_value(body) > i64::MAX {
            None
        } else {
            Some(digits_value(body) as i64)
        }
    }
}

pub fn parse_i64(s: &str) -> (r: Option<i64>)
    ensures
        r == spec_parse_i64(s@),
{
    let c = chars_of(s);
    if c.len() > 0 && c[0] == '-' {
        let body = slice_chars(c.as_slice(), 1, c.len());
        assert(body@ == s@.drop_first());
        match digits_of(body.as_slice(), 0x8000_0000_0000_0000u64) {
            Some(v) => {
                if v == 0x8000_0000_0000_0000u64 {
                    Some(i64::MIN)
                } else {
                    Some(-(v as i64))
                }
            },
            None => None,
        }
    } else {
        let body = if c.len() > 0 && c[0] == '+' {
            slice_chars(c.as_slice(), 1, c.len())
        } else {
            c
        };
        assert(body@ == unsigned_body(s@, '+'));
        match digits_of(body.as_slice(), i64::MAX as u64) {
            Some(v) => Some(v as i64),
            None => None,
        }
    }
}

} // verus!
