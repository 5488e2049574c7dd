//! What the file watcher acts on: which changed files matter, which
//! project a changed file belongs to, and which changes come too soon
//! after the last one of the same file. Watching the disk is the caller's
//! part.
use vstd::prelude::*;

use crate::app_state::{entries_view, ProjectEntry, ProjectView};
use crate::http::spec_extension;
use crate::server::slash_pieces;
use crate::text::{chars_of, contains_seq, lowercase, starts_with, string_of, trim_end_char};

verus! {

/// Whether a changed file is a document the wiki ingests: nothing under
/// `.llm-wiki` or `lancedb` (case-insensitively), and a known document
/// extension in any case.
pub open spec fn spec_should_handle(path: Seq<char>) -> bool {
    let lower = lowercase(path);
    let ext = lowercase(
        match spec_extension(path) {
            Some(e) => e,
            None => Seq::empty(),
        },
    );
    if contains_seq(lower, ".llm-wiki"@) || contains_seq(lower, "lancedb"@) {
        false
    } else {
        ||| ext == "md"@
        ||| ext == "markdown"@
        ||| ext == "txt"@
        ||| ext == "pdf"@
        ||| ext == "docx"@
        ||| ext == "doc"@
        ||| ext == "pptx"@
        ||| ext == "xlsx"@
        ||| ext == "html"@
        ||| ext == "htm"@
        ||| ext == "epub"@
    }
}

fn is_one_of(e: &[char], names: &Vec<Vec<char>>) -> (r: bool)
    ensures
        r == exists|i: int| 0 <= i < names@.len() && #[trigger] names@[i]@ == e@,
{
    let mut i: usize = 0;
    while i < names.len()
        invariant
            i <= names@.len(),
            forall|j: int| 0 <= j < i ==> #[trigger] names@[j]@ != e@,
        decreases names@.len() - i,
    {
        if crate::text::same_chars(names[i].as_slice(), e) {
            return true;
        }
        i += 1;
    }
    false
}

pub fn should_handle(path: &str) -> (r: bool)
    ensures
        r == spec_should_handle(path@),
{
    let lower = chars_of(crate::text::to_lowercase(path).as_str());
    if crate::text::contains_chars(lower.as_slice(), chars_of(".llm-wiki").as_slice())
        || crate::text::contains_chars(lower.as_slice(), chars_of("lancedb").as_slice()) {
        return false;
    }
    let ext = match crate::http::extension_chars(chars_of(path).as_slice()) {
        Some(e) => e,
        None => Vec::new(),
    };
    let le = crate::text::lowercase_chars(ext.as_slice());
    let mut names: Vec<Vec<char>> = Vec::new();
    names.push(chars_of("md"));
    names.push(chars_of("markdown"));
    names.push(chars_of("txt"));
    names.push(chars_of("pdf"));
    names.push(chars_of("docx"));
    names.push(chars_of("doc"));
    names.push(chars_of("pptx"));
    names.push(chars_of("xlsx"));
    names.push(chars_of("html"));
    names.push(chars_of("htm"));
    names.push(chars_of("epub"));
    let r = is_one_of(le.as_slice(), &names);
    proof {
        if r {
            let i = choose|i: int| 0 <= i < names@.len() && #[trigger] names@[i]@ == le@;
            assert(0 <= i < 11);
        } else {
            assert(names@[0]@ != le@ && names@[1]@ != le@ && names@[2]@ != le@ && names@[3]@ != le@);
            assert(names@[4]@ != le@ && names@[5]@ != le@ && names@[6]@ != le@ && names@[7]@ != le@);
            assert(names@[8]@ != le@ && names@[9]@ != le@ && names@[10]@ != le@);
        }
    }
    r
}

/// The first listed project whose lower-cased path starts the changed
/// file's lower-cased path (trailing `/` dropped).
pub open spec fn project_for_path(list: Seq<ProjectView>, path: Seq<char>) -> Option<ProjectView>
    decreases list.len(),
{
    if list.len() == 0 {
        None
    } else if starts_with(lowercase(trim_end_char(path, '/')), lowercase(list[0].path)) {
        Some(list[0])
    } else {
        project_for_path(list.drop_first(), path)
    }
}

pub fn find_project_for_path(projects: &[ProjectEntry], path: &str) -> (r: Option<ProjectEntry>)
    ensures
        match project_for_path(entries_view(projects@), path@) {
            Some(p) => r matches Some(e) && e@ == p,
            None => r is None,
        },
{
    let c = chars_of(path);
    let mut n = c.len();
    assert(c@.subrange(0, n as int) =~= c@);
    while n > 0 && c[n - 1] == '/'
        invariant
            n <= c@.len(),
            c@ == path@,
            trim_end_char(c@, '/') == trim_end_char(c@.subrange(0, n as int), '/'),
        decreases n,
    {
        assert(c@.subrange(0, n as int).drop_last() =~= c@.subrange(0, n - 1));
        n -= 1;
    }
    let trimmed = crate::text::slice_chars(c.as_slice(), 0, n);
    let normalized = crate::text::lowercase_chars(trimmed.as_slice());
    let ghost list = entries_view(projects@);
    let mut i: usize = 0;
    assert(list.subrange(0, list.len() as int) =~= list);
    while i < projects.len()
        invariant
            i <= projects@.len(),
            list == entries_view(projects@),
            normalized@ == lowercase(trim_end_char(path@, '/')),
            project_for_path(list, path@) == project_for_path(list.subrange(i as int, list.len() as int), path@),
        decreases projects@.len() - i,
    {
        let p = &projects[i];
        assert(list[i as int] == p@);
        let ghost tail = list.subrange(i as int, list.len() as int);
        assert(tail[0] == list[i as int]);
        let root = crate::text::lowercase_chars(chars_of(p.path.as_str()).as_slice());
        if crate::text::has_prefix(normalized.as_slice(), root.as_slice()) {
            return Some(p.duplicate());
        }
        assert(tail.drop_first() =~= list.subrange(i + 1, list.len() as int));
        i += 1;
    }
    None
}

/// How `Path` equality sees a path: whether it is absolute, whether it
/// starts with a `.` component, and its other components (empty and `.`
/// pieces are none).
pub open spec fn path_key(p: Seq<char>) -> (bool, bool, Seq<Seq<char>>) {
    (
        p.len() > 0 && p[0] == '/',
        p == seq!['.'] || starts_with(p, seq!['.', '/']),
        drop_dots(slash_pieces(p, 0)),
    )
}

/// The pieces other than `.`.
pub open spec fn drop_dots(s: Seq<Seq<char>>) -> Seq<Seq<char>>
    decreases s.len(),
{
    if s.len() == 0 {
        s
    } else if s.last() == seq!['.'] {
        drop_dots(s.drop_last())
    } else {
        drop_dots(s.drop_last()).push(s.last())
    }
}

/// The changes the watcher acted on last, by path: the path and the time
/// (in milliseconds) of its last change that was let through.
pub struct Debouncer {
    entries: Vec<(String, u64)>,
}

/// The last time a change of a path with this key was let through.
pub open spec fn last_seen(entries: Seq<(Seq<char>, u64)>, key: (bool, bool, Seq<Seq<char>>)) -> Option<u64>
    decreases entries.len(),
{
    if entries.len() == 0 {
        None
    } else if path_key(entries.last().0) == key {
        Some(entries.last().1)
    } else {
        last_seen(entries.drop_last(), key)
    }
}

pub open spec fn stamp_entries_view(v: Seq<(String, u64)>) -> Seq<(Seq<char>, u64)> {
    v.map_values(|e: (String, u64)| (e.0@, e.1))
}

impl View for Debouncer {
    type V = Seq<(Seq<char>, u64)>;

    closed spec fn view(&self) -> Seq<(Seq<char>, u64)> {
        stamp_entries_view(self.entries@)
    }
}

/// The window in which a second change of the same file is ignored, in
/// milliseconds.
pub const DEBOUNCE_MS: u64 = 750;

fn path_key_parts(p: &str) -> (r: (bool, bool, Vec<String>))
    ensures
        (r.0, r.1, crate::http::strings_view(r.2@)) == path_key(p@),
{
    let c = chars_of(p);
    let absolute = c.len() > 0 && c[0] == '/';
    let curdir = (c.len() == 1 && c[0] == '.') || (c.len() >= 2 && c[0] == '.' && c[1] == '/');
    proof {
        if c@.len() == 1 && c@[0] == '.' {
            assert(c@ =~= seq!['.']);
        }
        if c@ == seq!['.'] {
            assert(c@[0] == '.');
        }
        if c@.len() >= 2 && c@[0] == '.' && c@[1] == '/' {
            assert(c@.subrange(0, 2) =~= seq!['.', '/']);
        }
        if starts_with(c@, seq!['.', '/']) {
            assert(c@.subrange(0, 2)[0] == c@[0] && c@.subrange(0, 2)[1] == c@[1]);
        }
    }
    let pieces = crate::server::pieces_of(c.as_slice());
    let ghost pv = crate::http::strings_view(pieces@);
    let mut kept: Vec<String> = Vec::new();
    let mut i: usize = 0;
    assert(pv.subrange(0, 0) =~= Seq::<Seq<char>>::empty());
    while i < pieces.len()
        invariant
            i <= pieces@.len(),
            pv == crate::http::strings_view(pieces@),
            crate::http::strings_view(kept@) == drop_dots(pv.subrange(0, i as int)),
        decreases pieces@.len() - i,
    {
        let piece = chars_of(pieces[i].as_str());
        proof {
            assert(pv.subrange(0, i + 1).drop_last() =~= pv.subrange(0, i as int));
            assert(pv.subrange(0, i + 1).last() == pv[i as int]);
            assert(pv[i as int] == piece@);
            if piece@.len() == 1 && piece@[0] == '.' {
                assert(piece@ =~= seq!['.']);
            }
            if piece@ == seq!['.'] {
                assert(piece@[0] == '.');
            }
        }
        let ghost before = crate::http::strings_view(kept@);
        if !(piece.len() == 1 && piece[0] == '.') {
            kept.push(pieces[i].clone());
            assert(crate::http::strings_view(kept@) =~= before.push(piece@));
        }
        i += 1;
    }
    assert(pv.subrange(0, pv.len() as int) =~= pv);
    (absolute, curdir, kept)
}

fn same_key(a: &(bool, bool, Vec<String>), b: &(bool, bool, Vec<String>)) -> (r: bool)
    ensures
        r == ((a.0, a.1, crate::http::strings_view(a.2@)) == (b.0, b.1, crate::http::strings_view(b.2@))),
{
    if a.0 != b.0 || a.1 != b.1 || a.2.len() != b.2.len() {
        proof {
            if a.2.len() != b.2.len() {
                assert(crate::http::strings_view(a.2@).len() != crate::http::strings_view(b.2@).len());
            }
        }
        return false;
    }
    let ghost av = crate::http::strings_view(a.2@);
    let ghost bv = crate::http::strings_view(b.2@);
    let mut i: usize = 0;
    while i < a.2.len()
        invariant
            i <= a.2@.len(),
            a.2@.len() == b.2@.len(),
            av == crate::http::strings_view(a.2@),
            bv == crate::http::strings_view(b.2@),
            forall|j: int| 0 <= j < i ==> av[j] == bv[j],
        decreases a.2@.len() - i,
    {
        if !crate::text::same_chars(chars_of(a.2[i].as_str()).as_slice(), chars_of(b.2[i].as_str()).as_slice()) {
            assert(av[i as int] != bv[i as int]);
            return false;
        }
        i += 1;
    }
    assert(av =~= bv);
    true
}

impl Debouncer {
    fn last_stamp(&self, key: &(bool, bool, Vec<String>), path: &str) -> (r: Option<u64>)
        requires
            (key.0, key.1, crate::http::strings_view(key.2@)) == path_key(path@),
        ensures
            r == last_seen(self@, path_key(path@)),
    {
        let ghost s = self@;
        let mut i = self.entries.len();
        assert(s.subrange(0, i as int) =~= s);
        while i > 0
            invariant
                i <= self.entries@.len(),
                s == stamp_entries_view(self.entries@),
                (key.0, key.1, crate::http::strings_view(key.2@)) == path_key(path@),
                last_seen(s, path_key(path@)) == last_seen(s.subrange(0, i as int), path_key(path@)),
            decreases i,
        {
            let entry = &self.entries[i - 1];
            proof {
                assert(s.subrange(0, i as int).drop_last() =~= s.subrange(0, i - 1));
                assert(s.subrange(0, i as int).last() == s[i - 1]);
                assert(s[i - 1] == (entry.0@, entry.1));
            }
            let ek = path_key_parts(entry.0.as_str());
            if same_key(&ek, key) {
                return Some(entry.1);
            }
            i -= 1;
        }
        None
    }

    pub fn new() -> (r: Debouncer)
        ensures
            r@ == Seq::<(Seq<char>, u64)>::empty(),
    {
        let r = Debouncer { entries: Vec::new() };
        assert(r@ =~= Seq::<(Seq<char>, u64)>::empty());
        r
    }

    /// Whether a change of `path` at `now_ms` comes within `DEBOUNCE_MS` of
    /// the last change of the same path let through, and is ignored; where
    /// it does not, it is let through and remembered.
    pub fn should_debounce(&mut self, path: &str, now_ms: u64) -> (r: bool)
        ensures
            r == (last_seen(old(self)@, path_key(path@)) matches Some(t) && now_ms.saturating_sub(t)
                < DEBOUNCE_MS),
            final(self)@ == if r {
                old(self)@
            } else {
                old(self)@.push((path@, now_ms))
            },
    {
        let key = path_key_parts(path);
        let found = self.last_stamp(&key, path);
        let hit = match found {
            Some(t) => now_ms.saturating_sub(t) < DEBOUNCE_MS,
            None => false,
        };
        if hit {
            return true;
        }
        let ghost before = stamp_entries_view(self.entries@);
        self.entries.push((path.to_string(), now_ms));
        assert(stamp_entries_view(self.entries@) =~= before.push((path@, now_ms)));
        false
    }
}

/// Whether `prefix` is where `s` starts.
pub open spec fn pieces_prefix(prefix: Seq<Seq<char>>, s: Seq<Seq<char>>) -> bool {
    prefix.len() <= s.len() && s.subrange(0, prefix.len() as int) == prefix
}

/// `Path::starts_with`: whether the components of `root` begin those of
/// `path` (the root `/`, a leading `.`, then the other components).
pub open spec fn spec_path_within(path: Seq<char>, root: Seq<char>) -> bool {
    let (pa, pc, pp) = path_key(path);
    let (ra, rc, rp) = path_key(root);
    if !ra && !rc {
        rp.len() == 0 || (!pa && !pc && pieces_prefix(rp, pp))
    } else {
        pa == ra && pc == rc && pieces_prefix(rp, pp)
    }
}

/// Whether `path` lies within `root`, component by component, as
/// `Path::starts_with` has it; used on canonical paths to keep file work
/// inside a project.
pub fn path_within(path: &str, root: &str) -> (r: bool)
    ensures
        r == spec_path_within(path@, root@),
{
    let p = path_key_parts(path);
    let q = path_key_parts(root);
    let ghost pp = crate::http::strings_view(p.2@);
    let ghost rp = crate::http::strings_view(q.2@);
    let prefix_ok = if q.2.len() > p.2.len() {
        false
    } else {
        let mut i: usize = 0;
        let mut same = true;
        while i < q.2.len()
            invariant
                i <= q.2@.len(),
                q.2@.len() <= p.2@.len(),
                pp == crate::http::strings_view(p.2@),
                rp == crate::http::strings_view(q.2@),
                same == (forall|j: int| 0 <= j < i ==> pp[j] == rp[j]),
            decreases q.2@.len() - i,
        {
            let eq = crate::text::same_chars(chars_of(p.2[i].as_str()).as_slice(), chars_of(q.2[i].as_str()).as_slice());
            proof {
                assert(pp[i as int] == p.2@[i as int]@ && rp[i as int] == q.2@[i as int]@);
            }
            same = same && eq;
            i += 1;
        }
        proof {
            if same {
                assert(pp.subrange(0, rp.len() as int) =~= rp);
            } else {
                let j = choose|j: int| 0 <= j < rp.len() && !(pp[j] == rp[j]);
                assert(pp.subrange(0, rp.len() as int)[j] == pp[j]);
            }
        }
        same
    };
    if !q.0 && !q.1 {
        q.2.len() == 0 || (!p.0 && !p.1 && prefix_ok)
    } else {
        p.0 == q.0 && p.1 == q.1 && prefix_ok
    }
}

} // verus!

