//! The project registry of the application state: registered projects keyed
//! by id, the recently opened list, and the current project. The state is
//! read from and written to disk by the caller; this module decides what it
//! becomes.
use vstd::prelude::*;

use crate::text::{ascii_lower, chars_of, lex_lt, string_of, trim_end_char};

verus! {

/// A project as the registry describes it.
pub struct ProjectView {
    pub id: Seq<char>,
    pub name: Seq<char>,
    pub path: Seq<char>,
    pub current: bool,
}

#[derive(Debug, Clone)]
pub struct ProjectEntry {
    pub id: String,
    pub name: String,
    pub path: String,
    pub current: bool,
}

impl View for ProjectEntry {
    type V = ProjectView;

    open spec fn view(&self) -> ProjectView {
        ProjectView { id: self.id@, name: self.name@, path: self.path@, current: self.current }
    }
}

impl ProjectEntry {
    /// A copy of the entry.
    pub fn duplicate(&self) -> (r: ProjectEntry)
        ensures
            r@ == self@,
    {
        ProjectEntry {
            id: self.id.clone(),
            name: self.name.clone(),
            path: self.path.clone(),
            current: self.current,
        }
    }
}

pub open spec fn entries_view(v: Seq<ProjectEntry>) -> Seq<ProjectView> {
    v.map_values(|e: ProjectEntry| e@)
}

/// The key a list is ordered by: the path where `by_path`, else the id.
pub open spec fn key_of(p: ProjectView, by_path: bool) -> Seq<char> {
    if by_path {
        p.path
    } else {
        p.id
    }
}

/// The first position whose key is not below `key`.
pub open spec fn insert_pos(s: Seq<ProjectView>, key: Seq<char>, by_path: bool) -> int
    decreases s.len(),
{
    if s.len() == 0 || !lex_lt(key_of(s[0], by_path), key) {
        0
    } else {
        1 + insert_pos(s.drop_first(), key, by_path)
    }
}

/// An ordered map's insert on a list kept in key order: the entry with the
/// same key is replaced (where `replace`) or kept, else `e` goes in at its
/// place in the order.
pub open spec fn put(s: Seq<ProjectView>, e: ProjectView, by_path: bool, replace: bool) -> Seq<
    ProjectView,
> {
    let k = insert_pos(s, key_of(e, by_path), by_path);
    if 0 <= k < s.len() && key_of(s[k], by_path) == key_of(e, by_path) {
        if replace {
            s.update(k, e)
        } else {
            s
        }
    } else {
        s.insert(k, e)
    }
}

/// Keys strictly increase along the list.
pub open spec fn ordered(s: Seq<ProjectView>, by_path: bool) -> bool {
    forall|i: int, j: int|
        0 <= i < j < s.len() ==> lex_lt(#[trigger] key_of(s[i], by_path), #[trigger] key_of(s[j], by_path))
}

pub proof fn lemma_insert_pos(s: Seq<ProjectView>, key: Seq<char>, by_path: bool)
    ensures
        0 <= insert_pos(s, key, by_path) <= s.len(),
        forall|i: int| 0 <= i < insert_pos(s, key, by_path) ==> lex_lt(#[trigger] key_of(s[i], by_path), key),
        insert_pos(s, key, by_path) < s.len() ==> !lex_lt(key_of(s[insert_pos(s, key, by_path)], by_path), key),
    decreases s.len(),
{
    if s.len() > 0 && lex_lt(key_of(s[0], by_path), key) {
        lemma_insert_pos(s.drop_first(), key, by_path);
        let k = insert_pos(s, key, by_path);
        assert forall|i: int| 0 <= i < k implies lex_lt(#[trigger] key_of(s[i], by_path), key) by {
            if i > 0 {
                assert(s[i] == s.drop_first()[i - 1]);
            }
        }
    }
}

/// `put` keeps a list ordered.
pub proof fn lemma_put_ordered(s: Seq<ProjectView>, e: ProjectView, by_path: bool, replace: bool)
    requires
        ordered(s, by_path),
    ensures
        ordered(put(s, e, by_path, replace), by_path),
{
    let key = key_of(e, by_path);
    let k = insert_pos(s, key, by_path);
    lemma_insert_pos(s, key, by_path);
    let r = put(s, e, by_path, replace);
    if 0 <= k < s.len() && key_of(s[k], by_path) == key {
        assert forall|i: int, j: int| 0 <= i < j < r.len() implies lex_lt(
            #[trigger] key_of(r[i], by_path),
            #[trigger] key_of(r[j], by_path),
        ) by {
            assert(key_of(r[i], by_path) == key_of(s[i], by_path));
            assert(key_of(r[j], by_path) == key_of(s[j], by_path));
        }
    } else {
        assert forall|i: int, j: int| 0 <= i < j < r.len() implies lex_lt(
            #[trigger] key_of(r[i], by_path),
            #[trigger] key_of(r[j], by_path),
        ) by {
            if k < s.len() {
                crate::text::lemma_lex_trichotomy(key_of(s[k], by_path), key);
            }
            if j == k {
                assert(lex_lt(key_of(s[i], by_path), key));
            } else if i == k {
                assert(r[j] == s[j - 1]);
                if j - 1 > k {
                    crate::text::lemma_lex_transitive(key, key_of(s[k], by_path), key_of(s[j - 1], by_path));
                }
            } else if i < k && j < k {
            } else if i < k && j > k {
                assert(r[j] == s[j - 1]);
            } else {
                assert(r[i] == s[i - 1]);
                assert(r[j] == s[j - 1]);
            }
        }
    }
}

fn key_chars(e: &ProjectEntry, by_path: bool) -> (r: Vec<char>)
    ensures
        r@ == key_of(e@, by_path),
{
    if by_path {
        chars_of(e.path.as_str())
    } else {
        chars_of(e.id.as_str())
    }
}

/// Inserts `e` into a list kept in key order (see `put`).
fn put_entry(v: &mut Vec<ProjectEntry>, e: ProjectEntry, by_path: bool, replace: bool)
    ensures
        entries_view(final(v)@) == put(entries_view(old(v)@), e@, by_path, replace),
{
    let key = key_chars(&e, by_path);
    let ghost s = entries_view(v@);
    let mut k: usize = 0;
    assert(s.subrange(0, s.len() as int) =~= s);
    while k < v.len()
        invariant
            k <= v@.len(),
            s == entries_view(v@),
            key@ == key_of(e@, by_path),
            insert_pos(s, key@, by_path) == k + insert_pos(s.subrange(k as int, s.len() as int), key@, by_path),
        ensures
            k <= v@.len(),
            s == entries_view(v@),
            insert_pos(s, key@, by_path) == k + insert_pos(s.subrange(k as int, s.len() as int), key@, by_path),
            k < v@.len() ==> !lex_lt(key_of(s[k as int], by_path), key@),
        decreases v@.len() - k,
    {
        let kk = key_chars(&v[k], by_path);
        if !crate::text::lex_less(kk.as_slice(), key.as_slice()) {
            break;
        }
        assert(s.subrange(k as int, s.len() as int).drop_first() =~= s.subrange(k + 1, s.len() as int));
        k += 1;
    }
    proof {
        if k < v@.len() {
            assert(s.subrange(k as int, s.len() as int)[0] == s[k as int]);
            assert(insert_pos(s.subrange(k as int, s.len() as int), key@, by_path) == 0);
        } else {
            assert(s.subrange(k as int, s.len() as int).len() == 0);
        }
    }
    if k < v.len() && crate::text::same_chars(key_chars(&v[k], by_path).as_slice(), key.as_slice()) {
        if replace {
            v.set(k, e);
            assert(entries_view(v@) =~= s.update(k as int, e@));
        }
    } else {
        v.insert(k, e);
        assert(entries_view(v@) =~= s.insert(k as int, e@));
    }
}

/// The registry part of the application state file.
#[derive(Debug, Clone)]
pub struct AppStateFile {
    /// Registered projects, in increasing order of id.
    pub project_registry: Vec<ProjectEntry>,
    /// Recently opened projects, most recent first.
    pub recent_projects: Vec<ProjectEntry>,
    /// The id of the current project, or empty.
    pub current_project: String,
}

impl AppStateFile {
    /// No project registered, none recent, none current.
    pub fn empty() -> (r: AppStateFile)
        ensures
            r.project_registry@.len() == 0,
            r.recent_projects@.len() == 0,
            r.current_project@.len() == 0,
    {
        AppStateFile {
            project_registry: Vec::new(),
            recent_projects: Vec::new(),
            current_project: String::new(),
        }
    }
}


/// Folds `put` over `items`, in order.
pub open spec fn fold_put(acc: Seq<ProjectView>, items: Seq<ProjectView>, by_path: bool, replace: bool) -> Seq<
    ProjectView,
>
    decreases items.len(),
{
    if items.len() == 0 {
        acc
    } else {
        fold_put(put(acc, items[0], by_path, replace), items.drop_first(), by_path, replace)
    }
}

pub proof fn lemma_fold_put_ordered(acc: Seq<ProjectView>, items: Seq<ProjectView>, by_path: bool, replace: bool)
    requires
        ordered(acc, by_path),
    ensures
        ordered(fold_put(acc, items, by_path, replace), by_path),
    decreases items.len(),
{
    if items.len() > 0 {
        lemma_put_ordered(acc, items[0], by_path, replace);
        lemma_fold_put_ordered(put(acc, items[0], by_path, replace), items.drop_first(), by_path, replace);
    }
}

/// Each project marked current exactly when its id is the (non-empty) current id.
pub open spec fn mark_current(s: Seq<ProjectView>, current: Seq<char>) -> Seq<ProjectView> {
    s.map_values(|p: ProjectView| ProjectView { current: current.len() > 0 && p.id == current, ..p })
}

/// The project list: one entry per path, in path order; a registered
/// project wins over a recent one of the same path, and of two registered
/// ones with one path the later in id order wins.
pub open spec fn spec_list_projects(
    registry: Seq<ProjectView>,
    recent: Seq<ProjectView>,
    current: Seq<char>,
) -> Seq<ProjectView> {
    mark_current(fold_put(fold_put(seq![], registry, true, true), recent, true, false), current)
}

/// `path.replace('\\', "/").trim_end_matches('/').to_ascii_lowercase()`.
pub open spec fn spec_normalize_path(s: Seq<char>) -> Seq<char> {
    ascii_lower(trim_end_char(s.map_values(|c: char| if c == '\\' { '/' } else { c }), '/'))
}

/// The first project whose normalized path is `np`.
pub open spec fn first_with_path(list: Seq<ProjectView>, np: Seq<char>) -> Option<ProjectView>
    decreases list.len(),
{
    if list.len() == 0 {
        None
    } else if spec_normalize_path(list[0].path) == np {
        Some(list[0])
    } else {
        first_with_path(list.drop_first(), np)
    }
}

/// The recent list without the entries that share `id` or `path`.
pub open spec fn retain_others(s: Seq<ProjectView>, id: Seq<char>, path: Seq<char>) -> Seq<ProjectView>
    decreases s.len(),
{
    if s.len() == 0 {
        seq![]
    } else {
        let rest = retain_others(s.drop_first(), id, path);
        if s[0].id != id && s[0].path != path {
            seq![s[0]] + rest
        } else {
            rest
        }
    }
}

/// `a.join(b)` for a relative `b` on Unix: a separator goes between them
/// unless `a` is empty or already ends with one.
pub open spec fn path_join(a: Seq<char>, b: Seq<char>) -> Seq<char> {
    if a.len() == 0 {
        b
    } else if a.last() == '/' {
        a + b
    } else {
        a + seq!['/'] + b
    }
}

pub fn join_path(a: &str, b: &str) -> (r: String)
    ensures
        r@ == path_join(a@, b@),
{
    let mut v = chars_of(a);
    let mut w = chars_of(b);
    if v.len() > 0 && v[v.len() - 1] != '/' {
        v.push('/');
    }
    v.append(&mut w);
    string_of(v.as_slice())
}

fn normalize_chars(s: &[char]) -> (r: Vec<char>)
    ensures
        r@ == spec_normalize_path(s@),
{
    let mut v: Vec<char> = Vec::new();
    let mut i: usize = 0;
    while i < s.len()
        invariant
            i <= s@.len(),
            v@ == s@.subrange(0, i as int).map_values(|c: char| if c == '\\' { '/' } else { c }),
        decreases s@.len() - i,
    {
        v.push(if s[i] == '\\' { '/' } else { s[i] });
        i += 1;
        assert(v@ =~= s@.subrange(0, i as int).map_values(|c: char| if c == '\\' { '/' } else { c }));
    }
    assert(s@.subrange(0, s@.len() as int) =~= s@);
    let mut n = v.len();
    let ghost m = v@;
    assert(m.subrange(0, n as int) =~= m);
    while n > 0 && v[n - 1] == '/'
        invariant
            n <= v@.len(),
            v@ == m,
            trim_end_char(m, '/') == trim_end_char(m.subrange(0, n as int), '/'),
        decreases n,
    {
        assert(m.subrange(0, n as int).drop_last() =~= m.subrange(0, n - 1));
        n -= 1;
    }
    crate::text::ascii_lowercase(&v[0..n])
}

/// `path.replace('\\', "/").trim_end_matches('/').to_ascii_lowercase()`.
pub fn normalize_project_path(path: &str) -> (r: String)
    ensures
        r@ == spec_normalize_path(path@),
{
    let c = chars_of(path);
    string_of(normalize_chars(c.as_slice()).as_slice())
}

/// The application state: where its data lives, and the registry loaded
/// from its state file.
#[derive(Debug, Clone)]
pub struct AppState {
    pub data_dir: String,
    pub state: AppStateFile,
}

impl AppState {
    pub fn new(data_dir: String, state: AppStateFile) -> (r: AppState)
        ensures
            r.data_dir == data_dir,
            r.state == state,
    {
        AppState { data_dir, state }
    }

    pub fn data_dir(&self) -> (r: &str)
        ensures
            r@ == self.data_dir@,
    {
        self.data_dir.as_str()
    }

    /// The directory that holds the projects: `projects` under the data directory.
    pub fn projects_dir(&self) -> (r: String)
        ensures
            r@ == path_join(self.data_dir@, "projects"@),
    {
        join_path(self.data_dir.as_str(), "projects")
    }

    /// The known projects, one per path, in path order, each marked current
    /// exactly when its id is the current project's.
    pub fn list_projects(&self) -> (r: Vec<ProjectEntry>)
        ensures
            entries_view(r@) == spec_list_projects(
                entries_view(self.state.project_registry@),
                entries_view(self.state.recent_projects@),
                self.state.current_project@,
            ),
            ordered(entries_view(r@), true),
    {
        let reg = &self.state.project_registry;
        let rec = &self.state.recent_projects;
        let ghost rv = entries_view(reg@);
        let ghost cv = entries_view(rec@);
        let mut by_path: Vec<ProjectEntry> = Vec::new();
        assert(entries_view(by_path@) =~= seq![]);
        assert(rv.subrange(0, rv.len() as int) =~= rv);
        let mut i: usize = 0;
        while i < reg.len()
            invariant
                i <= reg@.len(),
                rv == entries_view(reg@),
                fold_put(seq![], rv, true, true) == fold_put(entries_view(by_path@), rv.subrange(i as int, rv.len() as int), true, true),
            decreases reg@.len() - i,
        {
            assert(rv.subrange(i as int, rv.len() as int).drop_first() =~= rv.subrange(i + 1, rv.len() as int));
            put_entry(&mut by_path, reg[i].duplicate(), true, true);
            i += 1;
        }
        assert(rv.subrange(i as int, rv.len() as int) =~= seq![]);
        let ghost after_reg = entries_view(by_path@);
        assert(cv.subrange(0, cv.len() as int) =~= cv);
        let mut j: usize = 0;
        while j < rec.len()
            invariant
                j <= rec@.len(),
                cv == entries_view(rec@),
                fold_put(after_reg, cv, true, false) == fold_put(entries_view(by_path@), cv.subrange(j as int, cv.len() as int), true, false),
            decreases rec@.len() - j,
        {
            assert(cv.subrange(j as int, cv.len() as int).drop_first() =~= cv.subrange(j + 1, cv.len() as int));
            put_entry(&mut by_path, rec[j].duplicate(), true, false);
            j += 1;
        }
        assert(cv.subrange(j as int, cv.len() as int) =~= seq![]);
        proof {
            lemma_fold_put_ordered(seq![], rv, true, true);
            lemma_fold_put_ordered(after_reg, cv, true, false);
        }
        let ghost merged = entries_view(by_path@);
        let cur = chars_of(self.state.current_project.as_str());
        let has_current = cur.len() > 0;
        let mut out: Vec<ProjectEntry> = Vec::new();
        let mut k: usize = 0;
        while k < by_path.len()
            invariant
                k <= by_path@.len(),
                merged == entries_view(by_path@),
                cur@ == self.state.current_project@,
                has_current == (cur@.len() > 0),
                entries_view(out@) == mark_current(merged.subrange(0, k as int), cur@),
            decreases by_path@.len() - k,
        {
            let mut e = by_path[k].duplicate();
            let idc = chars_of(e.id.as_str());
            e.current = has_current && crate::text::same_chars(idc.as_slice(), cur.as_slice());
            assert(e@ == (ProjectView { current: cur@.len() > 0 && merged[k as int].id == cur@, ..merged[k as int] }));
            let ghost before = entries_view(out@);
            out.push(e);
            assert(entries_view(out@) =~= before.push(e@));
            k += 1;
            assert(entries_view(out@) =~= mark_current(merged.subrange(0, k as int), cur@));
        }
        assert(merged.subrange(0, k as int) =~= merged);
        proof {
            let r = entries_view(out@);
            assert forall|a: int, b: int| 0 <= a < b < r.len() implies lex_lt(
                #[trigger] key_of(r[a], true),
                #[trigger] key_of(r[b], true),
            ) by {
                assert(key_of(r[a], true) == key_of(merged[a], true));
                assert(key_of(r[b], true) == key_of(merged[b], true));
            }
        }
        out
    }

    /// Registers (or re-registers) a project under `id`; it moves to the
    /// front of the recent list, which drops other entries of the same id
    /// or path, and becomes current where `make_current`.
    pub fn register_project(&mut self, id: &str, name: &str, path: &str, make_current: bool) -> (r:
        ProjectEntry)
        ensures
            r@ == (ProjectView { id: id@, name: name@, path: path@, current: make_current }),
            entries_view(final(self).state.project_registry@) == put(
                entries_view(old(self).state.project_registry@),
                r@,
                false,
                true,
            ),
            entries_view(final(self).state.recent_projects@) == seq![r@] + retain_others(
                entries_view(old(self).state.recent_projects@),
                id@,
                path@,
            ),
            final(self).state.current_project@ == (if make_current {
                id@
            } else {
                old(self).state.current_project@
            }),
            final(self).data_dir == old(self).data_dir,
    {
        let entry = ProjectEntry {
            id: id.to_owned(),
            name: name.to_owned(),
            path: path.to_owned(),
            current: make_current,
        };
        put_entry(&mut self.state.project_registry, entry.duplicate(), false, true);
        let idc = chars_of(id);
        let pc = chars_of(path);
        let ghost old_recent = entries_view(self.state.recent_projects@);
        let mut kept: Vec<ProjectEntry> = Vec::new();
        let mut i = self.state.recent_projects.len();
        assert(entries_view(kept@) =~= seq![]);
        while i > 0
            invariant
                i <= self.state.recent_projects@.len(),
                old_recent == entries_view(self.state.recent_projects@),
                idc@ == id@,
                pc@ == path@,
                entries_view(kept@) == retain_others(old_recent.subrange(i as int, old_recent.len() as int), id@, path@),
            decreases i,
        {
            i -= 1;
            let ghost tail = old_recent.subrange(i as int, old_recent.len() as int);
            assert(tail.drop_first() =~= old_recent.subrange(i + 1, old_recent.len() as int));
            let p = &self.state.recent_projects[i];
            let pid = chars_of(p.id.as_str());
            let ppath = chars_of(p.path.as_str());
            if !crate::text::same_chars(pid.as_slice(), idc.as_slice()) && !crate::text::same_chars(
                ppath.as_slice(),
                pc.as_slice(),
            ) {
                let ghost before = entries_view(kept@);
                kept.insert(0, p.duplicate());
                assert(entries_view(kept@) =~= seq![tail[0]] + before);
            }
        }
        assert(old_recent.subrange(0, old_recent.len() as int) =~= old_recent);
        let ghost rest = entries_view(kept@);
        kept.insert(0, entry.duplicate());
        assert(entries_view(kept@) =~= seq![entry@] + rest);
        self.state.recent_projects = kept;
        if make_current {
            self.state.current_project = id.to_owned();
        }
        entry
    }

    /// The same as `register_project`.
    pub fn register_project_public(&mut self, id: &str, name: &str, path: &str, make_current: bool) -> (r:
        ProjectEntry)
        ensures
            r@ == (ProjectView { id: id@, name: name@, path: path@, current: make_current }),
            entries_view(final(self).state.project_registry@) == put(
                entries_view(old(self).state.project_registry@),
                r@,
                false,
                true,
            ),
            entries_view(final(self).state.recent_projects@) == seq![r@] + retain_others(
                entries_view(old(self).state.recent_projects@),
                id@,
                path@,
            ),
            final(self).state.current_project@ == (if make_current {
                id@
            } else {
                old(self).state.current_project@
            }),
            final(self).data_dir == old(self).data_dir,
    {
        self.register_project(id, name, path, make_current)
    }

    /// Makes `id` the current project id; nothing else changes.
    pub fn set_current_project(&mut self, id: &str)
        ensures
            final(self).state.current_project@ == id@,
            final(self).state.project_registry == old(self).state.project_registry,
            final(self).state.recent_projects == old(self).state.recent_projects,
            final(self).data_dir == old(self).data_dir,
    {
        self.state.current_project = id.to_owned();
    }

    /// The first listed project whose path is `path` once both are normalized.
    pub fn find_project_by_path(&self, path: &str) -> (r: Option<ProjectEntry>)
        ensures
            (match r {
                Some(e) => Some(e@),
                None => None,
            }) == first_with_path(
                spec_list_projects(
                    entries_view(self.state.project_registry@),
                    entries_view(self.state.recent_projects@),
                    self.state.current_project@,
                ),
                spec_normalize_path(path@),
            ),
    {
        let target = normalize_chars(chars_of(path).as_slice());
        let list = self.list_projects();
        let ghost lv = entries_view(list@);
        let mut i: usize = 0;
        assert(lv.subrange(0, lv.len() as int) =~= lv);
        while i < list.len()
            invariant
                i <= list@.len(),
                lv == entries_view(list@),
                lv == spec_list_projects(
                    entries_view(self.state.project_registry@),
                    entries_view(self.state.recent_projects@),
                    self.state.current_project@,
                ),
                target@ == spec_normalize_path(path@),
                first_with_path(lv, target@) == first_with_path(lv.subrange(i as int, lv.len() as int), target@),
            decreases list@.len() - i,
        {
            let np = normalize_chars(chars_of(list[i].path.as_str()).as_slice());
            let ghost tail = lv.subrange(i as int, lv.len() as int);
            assert(tail[0] == lv[i as int]);
            if crate::text::same_chars(np.as_slice(), target.as_slice()) {
                assert(first_with_path(tail, target@) == Some(tail[0]));
                return Some(list[i].duplicate());
            }
            assert(tail.drop_first() =~= lv.subrange(i + 1, lv.len() as int));
            i += 1;
        }
        None
    }
}


pub open spec fn is_ascii_alnum(c: char) -> bool {
    ('0' <= c <= '9') || ('a' <= c <= 'z') || ('A' <= c <= 'Z')
}

/// Characters kept in a directory name; every other one becomes `_`.
pub open spec fn sanitize_char(c: char) -> char {
    if is_ascii_alnum(c) || c == '-' || c == '_' || c == '.' || c == ' ' {
        c
    } else {
        '_'
    }
}

/// A directory name for a project name: unsafe characters replaced by `_`,
/// surrounding whitespace removed, `untitled` where nothing is left.
pub open spec fn spec_sanitize_dirname(name: Seq<char>) -> Seq<char> {
    let cleaned = crate::text::trim(name.map_values(|c: char| sanitize_char(c)));
    if cleaned.len() == 0 {
        "untitled"@
    } else {
        cleaned
    }
}

fn sanitize_dirname(name: &str) -> (r: String)
    ensures
        r@ == spec_sanitize_dirname(name@),
{
    let cs = chars_of(name);
    let mut mapped: Vec<char> = Vec::new();
    let mut i: usize = 0;
    while i < cs.len()
        invariant
            i <= cs@.len(),
            cs@ == name@,
            mapped@ == cs@.subrange(0, i as int).map_values(|c: char| sanitize_char(c)),
        decreases cs@.len() - i,
    {
        let c = cs[i];
        let keep = ('0' <= c && c <= '9') || ('a' <= c && c <= 'z') || ('A' <= c && c <= 'Z') || c
            == '-' || c == '_' || c == '.' || c == ' ';
        mapped.push(if keep { c } else { '_' });
        i += 1;
        assert(mapped@ =~= cs@.subrange(0, i as int).map_values(|c: char| sanitize_char(c)));
    }
    assert(cs@.subrange(0, cs@.len() as int) =~= cs@);
    let cleaned = crate::text::trim_chars(mapped.as_slice());
    if cleaned.len() == 0 {
        "untitled".to_owned()
    } else {
        string_of(cleaned.as_slice())
    }
}

/// The characters a project's directory name may hold.
pub open spec fn dirname_char(c: char) -> bool {
    is_ascii_alnum(c) || c == '-' || c == '_' || c == '.' || c == ' '
}

pub open spec fn all_dirname_chars(s: Seq<char>) -> bool {
    forall|i: int| 0 <= i < s.len() ==> dirname_char(#[trigger] s[i])
}

proof fn lemma_trim_keeps_dirname_chars(s: Seq<char>)
    requires
        all_dirname_chars(s),
    ensures
        all_dirname_chars(crate::text::trim_start(s)),
        all_dirname_chars(crate::text::trim_end(s)),
    decreases s.len(),
{
    if s.len() > 0 {
        assert(all_dirname_chars(s.drop_first())) by {
            assert forall|i: int| 0 <= i < s.drop_first().len() implies dirname_char(#[trigger] s.drop_first()[i]) by {
                assert(s.drop_first()[i] == s[i + 1]);
            }
        }
        assert(all_dirname_chars(s.drop_last())) by {
            assert forall|i: int| 0 <= i < s.drop_last().len() implies dirname_char(#[trigger] s.drop_last()[i]) by {
                assert(s.drop_last()[i] == s[i]);
            }
        }
        lemma_trim_keeps_dirname_chars(s.drop_first());
        lemma_trim_keeps_dirname_chars(s.drop_last());
    }
}

/// A project's directory name is never empty and holds only ASCII letters
/// and digits, `-`, `_`, `.` and spaces: in particular no `/` or `\`, so
/// it is a single path component.
pub proof fn lemma_dirname_is_one_component(name: Seq<char>)
    ensures
        spec_sanitize_dirname(name).len() > 0,
        all_dirname_chars(spec_sanitize_dirname(name)),
        !spec_sanitize_dirname(name).contains('/'),
        !spec_sanitize_dirname(name).contains('\\'),
{
    let mapped = name.map_values(|c: char| sanitize_char(c));
    assert(all_dirname_chars(mapped));
    lemma_trim_keeps_dirname_chars(mapped);
    lemma_trim_keeps_dirname_chars(crate::text::trim_start(mapped));
    reveal_strlit("untitled");
    let r = spec_sanitize_dirname(name);
    assert(all_dirname_chars(r));
    if r.contains('/') {
        let i = choose|i: int| 0 <= i < r.len() && r[i] == '/';
        assert(dirname_char(r[i]));
    }
    if r.contains('\\') {
        let i = choose|i: int| 0 <= i < r.len() && r[i] == '\\';
        assert(dirname_char(r[i]));
    }
}

proof fn lemma_dirname_char_not_ws(c: char)
    requires
        dirname_char(c),
        c != ' ',
    ensures
        !crate::text::is_ws(c),
{
}

/// A name made only of ASCII letters and digits, `-`, `_`, `.` and inner
/// spaces, and not empty, is its own directory name (such as `my-wiki`).
pub proof fn lemma_safe_name_is_its_own_dirname(name: Seq<char>)
    requires
        name.len() > 0,
        all_dirname_chars(name),
        name[0] != ' ',
        name.last() != ' ',
    ensures
        spec_sanitize_dirname(name) == name,
{
    let mapped = name.map_values(|c: char| sanitize_char(c));
    assert(mapped =~= name) by {
        assert forall|i: int| 0 <= i < name.len() implies mapped[i] == name[i] by {
            assert(dirname_char(name[i]));
        }
    }
    lemma_dirname_char_not_ws(name[0]);
    lemma_dirname_char_not_ws(name.last());
    assert(crate::text::trim_start(name) == name);
    assert(crate::text::trim_end(name) == name);
}

/// A directory name for a project name (see `spec_sanitize_dirname`).
pub fn sanitize_dirname_public(name: &str) -> (r: String)
    ensures
        r@ == spec_sanitize_dirname(name@),
{
    sanitize_dirname(name)
}

/// The `count` low bytes of `n`, most significant first.
pub open spec fn be_bytes(n: nat, count: nat) -> Seq<u8>
    decreases count,
{
    if count == 0 {
        seq![]
    } else {
        be_bytes(n / 256, (count - 1) as nat).push((n % 256) as u8)
    }
}

/// A lowercase hexadecimal digit.
pub open spec fn hex_digit(d: u8) -> char {
    if d < 10 {
        (48 + d) as char
    } else {
        (87 + d) as char
    }
}

/// Two lowercase hex digits per byte (`{:02x}`).
pub open spec fn hex_of(bytes: Seq<u8>) -> Seq<char>
    decreases bytes.len(),
{
    if bytes.len() == 0 {
        seq![]
    } else {
        hex_of(bytes.drop_last()) + seq![hex_digit(bytes.last() / 16), hex_digit(bytes.last() % 16)]
    }
}

/// A project id: `project-`, then the hex of the 16 big-endian bytes of the
/// timestamp in nanoseconds, then the hex of the entropy bytes.
pub open spec fn spec_generate_id(nanos: u128, entropy: Seq<u8>) -> Seq<char> {
    "project-"@ + hex_of(be_bytes(nanos as nat, 16) + entropy)
}

fn hex_char(d: u8) -> (r: char)
    requires
        d < 16,
    ensures
        r == hex_digit(d),
{
    if d < 10 {
        (48u8 + d) as char
    } else {
        (87u8 + d) as char
    }
}

/// A project id from the time in nanoseconds since the epoch and some
/// entropy bytes (see `spec_generate_id`).
pub fn generate_id_public(nanos: u128, entropy: &[u8]) -> (r: String)
    ensures
        r@ == spec_generate_id(nanos, entropy@),
{
    let mut bytes: Vec<u8> = Vec::new();
    let mut k: u32 = 0;
    let mut n = nanos;
    let mut rev: Vec<u8> = Vec::new();
    assert(pow256(0) == 1);
    assert(be_bytes(nanos as nat, 16) =~= be_bytes(n as nat, 16) + rev@.reverse());
    while k < 16
        invariant
            k <= 16,
            n as nat == (nanos as nat) / pow256(k as nat),
            be_bytes(nanos as nat, 16) == be_bytes(n as nat, (16 - k) as nat) + rev@.reverse(),
            rev@.len() == k,
        decreases 16 - k,
    {
        proof {
            lemma_be_bytes_step(nanos as nat, n as nat, k as nat);
        }
        rev.push((n % 256) as u8);
        n = n / 256;
        k += 1;
        assert(rev@.reverse() =~= seq![rev@[k - 1]] + rev@.subrange(0, k - 1).reverse());
    }
    let mut i = rev.len();
    while i > 0
        invariant
            i <= rev@.len(),
            bytes@ == rev@.subrange(i as int, rev@.len() as int).reverse(),
        decreases i,
    {
        i -= 1;
        bytes.push(rev[i]);
        assert(bytes@ =~= rev@.subrange(i as int, rev@.len() as int).reverse());
    }
    assert(be_bytes(n as nat, 0) =~= seq![]);
    let mut j: usize = 0;
    while j < entropy.len()
        invariant
            j <= entropy@.len(),
            bytes@ == be_bytes(nanos as nat, 16) + entropy@.subrange(0, j as int),
        decreases entropy@.len() - j,
    {
        bytes.push(entropy[j]);
        j += 1;
        assert(bytes@ =~= be_bytes(nanos as nat, 16) + entropy@.subrange(0, j as int));
    }
    assert(entropy@.subrange(0, entropy@.len() as int) =~= entropy@);
    let mut out = chars_of("project-");
    let ghost prefix = out@;
    let mut t: usize = 0;
    while t < bytes.len()
        invariant
            t <= bytes@.len(),
            out@ == prefix + hex_of(bytes@.subrange(0, t as int)),
        decreases bytes@.len() - t,
    {
        let b = bytes[t];
        out.push(hex_char(b / 16));
        out.push(hex_char(b % 16));
        t += 1;
        assert(bytes@.subrange(0, t as int).drop_last() =~= bytes@.subrange(0, t - 1));
        assert(out@ =~= prefix + hex_of(bytes@.subrange(0, t as int)));
    }
    assert(bytes@.subrange(0, bytes@.len() as int) =~= bytes@);
    string_of(out.as_slice())
}

pub open spec fn pow256(k: nat) -> nat
    decreases k,
{
    if k == 0 {
        1
    } else {
        256 * pow256((k - 1) as nat)
    }
}

proof fn lemma_be_bytes_step(nanos: nat, n: nat, k: nat)
    requires
        k < 16,
        n == nanos / pow256(k),
    ensures
        n / 256 == nanos / pow256(k + 1),
        be_bytes(n, (16 - k) as nat) == be_bytes(n / 256, (16 - k - 1) as nat).push((n % 256) as u8),
{
    assert(pow256(k + 1) == 256 * pow256(k));
    lemma_pow256_pos(k);
    vstd::arithmetic::div_mod::lemma_div_denominator(nanos as int, pow256(k) as int, 256);
    assert(pow256(k) * 256 == 256 * pow256(k)) by (nonlinear_arith);
}

proof fn lemma_pow256_pos(k: nat)
    ensures
        pow256(k) > 0,
    decreases k,
{
    if k > 0 {
        lemma_pow256_pos((k - 1) as nat);
    }
}


/// The research log a new project starts with, dated `today`.
pub open spec fn spec_log_md(name: Seq<char>, today: Seq<char>) -> Seq<char> {
    "# Research Log\n\n## "@ + today + "\n\n- Project `"@ + name + "` created\n"@
}

pub fn log_md(name: &str, today: &str) -> (r: String)
    ensures
        r@ == spec_log_md(name@, today@),
{
    let mut v: Vec<char> = chars_of("# Research Log\n\n## ");
    let mut t = chars_of(today);
    v.append(&mut t);
    let mut m = chars_of("\n\n- Project `");
    v.append(&mut m);
    let mut n = chars_of(name);
    v.append(&mut n);
    let mut e = chars_of("` created\n");
    v.append(&mut e);
    string_of(v.as_slice())
}


/// Some entry of `s` has key `k`.
pub open spec fn has_key(s: Seq<ProjectView>, k: Seq<char>, by_path: bool) -> bool {
    exists|i: int| 0 <= i < s.len() && #[trigger] key_of(s[i], by_path) == k
}

/// `put` keeps every key and adds the new entry's; where it replaces, the
/// new entry itself is in the list.
proof fn lemma_put_keys(s: Seq<ProjectView>, e: ProjectView, by_path: bool, replace: bool)
    ensures
        has_key(put(s, e, by_path, replace), key_of(e, by_path), by_path),
        forall|k: Seq<char>| has_key(s, k, by_path) ==> has_key(put(s, e, by_path, replace), k, by_path),
        replace ==> exists|i: int| 0 <= i < put(s, e, by_path, replace).len() && put(s, e, by_path, replace)[i] == e,
{
    let key = key_of(e, by_path);
    let k = insert_pos(s, key, by_path);
    lemma_insert_pos(s, key, by_path);
    let r = put(s, e, by_path, replace);
    if 0 <= k < s.len() && key_of(s[k], by_path) == key {
        if replace {
            assert(r[k] == e);
        }
        assert(key_of(r[k], by_path) == key);
        assert forall|k2: Seq<char>| has_key(s, k2, by_path) implies has_key(r, k2, by_path) by {
            let j = choose|j: int| 0 <= j < s.len() && #[trigger] key_of(s[j], by_path) == k2;
            if replace && j == k {
                assert(key_of(r[k], by_path) == k2);
            } else {
                assert(key_of(r[j], by_path) == k2);
            }
        }
    } else {
        assert(r[k] == e);
        assert(key_of(r[k], by_path) == key);
        assert forall|k2: Seq<char>| has_key(s, k2, by_path) implies has_key(r, k2, by_path) by {
            let j = choose|j: int| 0 <= j < s.len() && #[trigger] key_of(s[j], by_path) == k2;
            if j < k {
                assert(r[j] == s[j]);
                assert(key_of(r[j], by_path) == k2);
            } else {
                assert(r[j + 1] == s[j]);
                assert(key_of(r[j + 1], by_path) == k2);
            }
        }
    }
}

/// Folding `put` keeps the keys it started with and adds every item's.
proof fn lemma_fold_put_keys(acc: Seq<ProjectView>, items: Seq<ProjectView>, by_path: bool, replace: bool)
    ensures
        forall|k: Seq<char>| has_key(acc, k, by_path) ==> has_key(fold_put(acc, items, by_path, replace), k, by_path),
        forall|i: int|
            0 <= i < items.len() ==> has_key(fold_put(acc, items, by_path, replace), #[trigger] key_of(items[i], by_path), by_path),
    decreases items.len(),
{
    if items.len() > 0 {
        let next = put(acc, items[0], by_path, replace);
        lemma_put_keys(acc, items[0], by_path, replace);
        lemma_fold_put_keys(next, items.drop_first(), by_path, replace);
        assert forall|i: int| 0 <= i < items.len() implies has_key(
            fold_put(acc, items, by_path, replace),
            #[trigger] key_of(items[i], by_path),
            by_path,
        ) by {
            if i > 0 {
                assert(items[i] == items.drop_first()[i - 1]);
            }
        }
    }
}

proof fn lemma_first_with_path_found(list: Seq<ProjectView>, np: Seq<char>, i: int)
    requires
        0 <= i < list.len(),
        spec_normalize_path(list[i].path) == np,
    ensures
        first_with_path(list, np) is Some,
    decreases list.len(),
{
    if spec_normalize_path(list[0].path) != np {
        assert(list.drop_first()[i - 1] == list[i]);
        lemma_first_with_path_found(list.drop_first(), np, i - 1);
    }
}

/// Once a project is registered, looking up its path finds a project,
/// whatever the recent list and the current project.
pub proof fn lemma_register_then_find(
    registry: Seq<ProjectView>,
    recent: Seq<ProjectView>,
    current: Seq<char>,
    r: ProjectView,
)
    ensures
        first_with_path(
            spec_list_projects(put(registry, r, false, true), recent, current),
            spec_normalize_path(r.path),
        ) is Some,
{
    let reg2 = put(registry, r, false, true);
    lemma_put_keys(registry, r, false, true);
    let i = choose|i: int| 0 <= i < reg2.len() && reg2[i] == r;
    let by_path = fold_put(seq![], reg2, true, true);
    lemma_fold_put_keys(seq![], reg2, true, true);
    assert(key_of(reg2[i], true) == r.path);
    assert(has_key(by_path, r.path, true));
    let merged = fold_put(by_path, recent, true, false);
    lemma_fold_put_keys(by_path, recent, true, false);
    assert(has_key(merged, r.path, true));
    let j = choose|j: int| 0 <= j < merged.len() && #[trigger] key_of(merged[j], true) == r.path;
    let list = spec_list_projects(reg2, recent, current);
    assert(list == mark_current(merged, current));
    assert(list[j].path == merged[j].path);
    lemma_first_with_path_found(list, spec_normalize_path(r.path), j);
}

/// Every entry of `put(s, e, ..)` is `e` or an entry of `s`.
proof fn lemma_put_keeps(
    s: Seq<ProjectView>,
    e: ProjectView,
    by_path: bool,
    replace: bool,
    q: spec_fn(ProjectView) -> bool,
)
    requires
        forall|i: int| 0 <= i < s.len() ==> #[trigger] q(s[i]),
        q(e),
    ensures
        forall|j: int| 0 <= j < put(s, e, by_path, replace).len() ==> #[trigger] q(put(s, e, by_path, replace)[j]),
{
    let k = insert_pos(s, key_of(e, by_path), by_path);
    lemma_insert_pos(s, key_of(e, by_path), by_path);
    let r = put(s, e, by_path, replace);
    assert forall|j: int| 0 <= j < r.len() implies #[trigger] q(r[j]) by {
        if 0 <= k < s.len() && key_of(s[k], by_path) == key_of(e, by_path) {
            if replace && j == k {
                assert(r[j] == e);
            } else {
                assert(r[j] == s[j]);
            }
        } else {
            if j < k {
                assert(r[j] == s[j]);
            } else if j == k {
                assert(r[j] == e);
            } else {
                assert(r[j] == s[j - 1]);
            }
        }
    }
}

/// In a registry ordered by id, `put` by id replaces the entry with the
/// new entry's id: every entry of the result is the new one or an entry of
/// another id.
proof fn lemma_put_by_id_keeps(s: Seq<ProjectView>, e: ProjectView, q: spec_fn(ProjectView) -> bool)
    requires
        ordered(s, false),
        forall|i: int| 0 <= i < s.len() && s[i].id != e.id ==> #[trigger] q(s[i]),
        q(e),
    ensures
        forall|j: int| 0 <= j < put(s, e, false, true).len() ==> #[trigger] q(put(s, e, false, true)[j]),
{
    let key = e.id;
    let k = insert_pos(s, key, false);
    lemma_insert_pos(s, key, false);
    let r = put(s, e, false, true);
    let found = 0 <= k < s.len() && s[k].id == key;
    if k < s.len() && !found {
        crate::text::lemma_lex_trichotomy(s[k].id, key);
    }
    crate::text::lemma_lex_irreflexive(key);
    assert forall|j: int| 0 <= j < r.len() implies #[trigger] q(r[j]) by {
        if found {
            if j == k {
                assert(r[j] == e);
            } else {
                assert(r[j] == s[j]);
                if j < k {
                    assert(lex_lt(key_of(s[j], false), key));
                } else {
                    assert(lex_lt(key_of(s[k], false), key_of(s[j], false)));
                }
                assert(s[j].id != key);
                assert(q(s[j]));
            }
        } else {
            if j < k {
                assert(r[j] == s[j]);
                assert(lex_lt(key_of(s[j], false), key));
                assert(s[j].id != key);
                assert(q(s[j]));
            } else if j == k {
                assert(r[j] == e);
            } else {
                assert(r[j] == s[j - 1]);
                if j - 1 > k {
                    assert(lex_lt(key_of(s[k], false), key_of(s[j - 1], false)));
                    crate::text::lemma_lex_transitive(key, s[k].id, s[j - 1].id);
                }
                assert(lex_lt(key, s[j - 1].id));
                assert(s[j - 1].id != key);
                assert(q(s[j - 1]));
            }
        }
    }
}

proof fn lemma_fold_put_keeps(
    acc: Seq<ProjectView>,
    items: Seq<ProjectView>,
    by_path: bool,
    replace: bool,
    q: spec_fn(ProjectView) -> bool,
)
    requires
        forall|i: int| 0 <= i < acc.len() ==> #[trigger] q(acc[i]),
        forall|i: int| 0 <= i < items.len() ==> #[trigger] q(items[i]),
    ensures
        forall|j: int|
            0 <= j < fold_put(acc, items, by_path, replace).len() ==> #[trigger] q(
                fold_put(acc, items, by_path, replace)[j],
            ),
    decreases items.len(),
{
    if items.len() > 0 {
        assert(q(items[0]));
        lemma_put_keeps(acc, items[0], by_path, replace, q);
        assert forall|i: int| 0 <= i < items.drop_first().len() implies #[trigger] q(items.drop_first()[i]) by {
            assert(items.drop_first()[i] == items[i + 1]);
        }
        lemma_fold_put_keeps(put(acc, items[0], by_path, replace), items.drop_first(), by_path, replace, q);
        assert(fold_put(acc, items, by_path, replace) == fold_put(
            put(acc, items[0], by_path, replace),
            items.drop_first(),
            by_path,
            replace,
        ));
    }
}

proof fn lemma_retain_keeps(s: Seq<ProjectView>, id: Seq<char>, path: Seq<char>, q: spec_fn(ProjectView) -> bool)
    requires
        forall|i: int| 0 <= i < s.len() && s[i].id != id && s[i].path != path ==> #[trigger] q(s[i]),
    ensures
        forall|j: int| 0 <= j < retain_others(s, id, path).len() ==> #[trigger] q(retain_others(s, id, path)[j]),
    decreases s.len(),
{
    if s.len() > 0 {
        assert forall|i: int|
            0 <= i < s.drop_first().len() && s.drop_first()[i].id != id && s.drop_first()[i].path != path implies #[trigger] q(
            s.drop_first()[i],
        ) by {
            assert(s.drop_first()[i] == s[i + 1]);
        }
        lemma_retain_keeps(s.drop_first(), id, path, q);
        let rest = retain_others(s.drop_first(), id, path);
        if s[0].id != id && s[0].path != path {
            assert forall|j: int| 0 <= j < (seq![s[0]] + rest).len() implies #[trigger] q((seq![s[0]] + rest)[j]) by {
                if j > 0 {
                    assert((seq![s[0]] + rest)[j] == rest[j - 1]);
                } else {
                    assert(q(s[0]));
                }
            }
        }
    }
}

proof fn lemma_first_with_path_is_entry(list: Seq<ProjectView>, np: Seq<char>, i: int)
    requires
        0 <= i < list.len(),
        spec_normalize_path(list[i].path) == np,
    ensures
        first_with_path(list, np) matches Some(x) && spec_normalize_path(x.path) == np && exists|k: int|
            0 <= k < list.len() && #[trigger] list[k] == x,
    decreases list.len(),
{
    if spec_normalize_path(list[0].path) != np {
        assert(list.drop_first()[i - 1] == list[i]);
        lemma_first_with_path_is_entry(list.drop_first(), np, i - 1);
        let x = first_with_path(list, np)->0;
        let k = choose|k: int| 0 <= k < list.drop_first().len() && #[trigger] list.drop_first()[k] == x;
        assert(list[k + 1] == x);
    } else {
        assert(list[0] == first_with_path(list, np)->0);
    }
}

/// A project registered as current, under a non-empty id, is found again
/// by its path with the fields it was registered with, where no other
/// project, registered or recent, has a path that normalizes the same.
/// The project's own earlier entries may: the registry entry with its id
/// is replaced, and the recent ones with its id or path are dropped. The
/// registry is ordered by id, as every registry is (one entry per id). The
/// arguments are the registry, recent list and current id that
/// `register_project(id, name, path, true)` leaves (see its `ensures`).
pub proof fn lemma_register_current_then_find(registry: Seq<ProjectView>, recent: Seq<ProjectView>, r: ProjectView)
    requires
        r.id.len() > 0,
        r.current,
        ordered(registry, false),
        forall|i: int|
            0 <= i < registry.len() && registry[i].id != r.id ==> spec_normalize_path(#[trigger] registry[i].path)
                != spec_normalize_path(r.path),
        forall|i: int|
            0 <= i < recent.len() && recent[i].id != r.id && recent[i].path != r.path ==> spec_normalize_path(
                #[trigger] recent[i].path,
            ) != spec_normalize_path(r.path),
    ensures
        first_with_path(
            spec_list_projects(put(registry, r, false, true), seq![r] + retain_others(recent, r.id, r.path), r.id),
            spec_normalize_path(r.path),
        ) == Some(r),
{
    let np = spec_normalize_path(r.path);
    let q = |x: ProjectView| spec_normalize_path(x.path) == np ==> x == r;
    let reg2 = put(registry, r, false, true);
    let rec2 = seq![r] + retain_others(recent, r.id, r.path);
    assert forall|i: int| 0 <= i < registry.len() && registry[i].id != r.id implies #[trigger] q(registry[i]) by {}
    lemma_put_by_id_keeps(registry, r, q);
    lemma_put_keys(registry, r, false, true);
    let by_path = fold_put(seq![], reg2, true, true);
    lemma_fold_put_keeps(seq![], reg2, true, true, q);
    assert forall|i: int| 0 <= i < recent.len() && recent[i].id != r.id && recent[i].path != r.path implies #[trigger] q(
        recent[i],
    ) by {}
    lemma_retain_keeps(recent, r.id, r.path, q);
    let kept = retain_others(recent, r.id, r.path);
    assert forall|i: int| 0 <= i < rec2.len() implies #[trigger] q(rec2[i]) by {
        if i > 0 {
            assert(rec2[i] == kept[i - 1]);
        }
    }
    let merged = fold_put(by_path, rec2, true, false);
    lemma_fold_put_keeps(by_path, rec2, true, false, q);
    let i = choose|i: int| 0 <= i < reg2.len() && reg2[i] == r;
    lemma_fold_put_keys(seq![], reg2, true, true);
    assert(key_of(reg2[i], true) == r.path);
    lemma_fold_put_keys(by_path, rec2, true, false);
    assert(has_key(merged, r.path, true));
    let j = choose|j: int| 0 <= j < merged.len() && #[trigger] key_of(merged[j], true) == r.path;
    let list = spec_list_projects(reg2, rec2, r.id);
    assert(list == mark_current(merged, r.id));
    assert(q(merged[j]));
    assert(merged[j] == r);
    assert(list[j] == r);
    lemma_first_with_path_is_entry(list, np, j);
    let x = first_with_path(list, np)->0;
    let k = choose|k: int| 0 <= k < list.len() && #[trigger] list[k] == x;
    assert(list[k] == (ProjectView { current: r.id.len() > 0 && merged[k].id == r.id, ..merged[k] }));
    assert(q(merged[k]));
    assert(merged[k] == r);
}

} // verus!

