//! The background task registry: tasks by id, their status changes, and a
//! bounded log of task events. Times come from the caller, in milliseconds
//! since the epoch; running the work and saving the registry is the
//! caller's part.
use vstd::prelude::*;

use crate::http::strings_view;

use crate::text::{
    chars_of, contains_seq, decimal, ends_with, format_i64, is_ws, lex_lt, line_at, line_end, lowercase,
    starts_with, string_of, trim,
};

verus! {

#[derive(Debug, Clone, Copy, PartialEq, Eq, Structural)]
pub enum TaskKind {
    Ingest,
    Rescan,
    Lint,
    Sweep,
    Enrich,
    Chat,
}

pub open spec fn kind_name(k: TaskKind) -> Seq<char> {
    match k {
        TaskKind::Ingest => "ingest"@,
        TaskKind::Rescan => "rescan"@,
        TaskKind::Lint => "lint"@,
        TaskKind::Sweep => "sweep"@,
        TaskKind::Enrich => "enrich"@,
        TaskKind::Chat => "chat"@,
    }
}

impl TaskKind {
    /// The lower-case name of the kind.
    pub fn as_str(self) -> (r: &'static str)
        ensures
            r@ == kind_name(self),
    {
        match self {
            TaskKind::Ingest => "ingest",
            TaskKind::Rescan => "rescan",
            TaskKind::Lint => "lint",
            TaskKind::Sweep => "sweep",
            TaskKind::Enrich => "enrich",
            TaskKind::Chat => "chat",
        }
    }
}

#[derive(Debug, Clone, Copy, PartialEq, Eq, Structural)]
pub enum TaskStatus {
    Pending,
    Running,
    Done,
    Failed,
    Cancelled,
}

pub open spec fn status_name(s: TaskStatus) -> Seq<char> {
    match s {
        TaskStatus::Pending => "pending"@,
        TaskStatus::Running => "running"@,
        TaskStatus::Done => "done"@,
        TaskStatus::Failed => "failed"@,
        TaskStatus::Cancelled => "cancelled"@,
    }
}

/// Done, failed and cancelled tasks are finished.
pub open spec fn is_finished(s: TaskStatus) -> bool {
    s == TaskStatus::Done || s == TaskStatus::Failed || s == TaskStatus::Cancelled
}

impl TaskStatus {
    /// The lower-case name of the status.
    pub fn as_str(self) -> (r: &'static str)
        ensures
            r@ == status_name(self),
    {
        match self {
            TaskStatus::Pending => "pending",
            TaskStatus::Running => "running",
            TaskStatus::Done => "done",
            TaskStatus::Failed => "failed",
            TaskStatus::Cancelled => "cancelled",
        }
    }

    pub fn finished(self) -> (r: bool)
        ensures
            r == is_finished(self),
    {
        match self {
            TaskStatus::Done | TaskStatus::Failed | TaskStatus::Cancelled => true,
            _ => false,
        }
    }
}

pub open spec fn opt_string_view(o: Option<String>) -> Option<Seq<char>> {
    match o {
        Some(s) => Some(s@),
        None => None,
    }
}

pub fn copy_opt_string(o: &Option<String>) -> (r: Option<String>)
    ensures
        opt_string_view(r) == opt_string_view(*o),
{
    match o {
        Some(s) => Some(s.clone()),
        None => None,
    }
}

pub struct TaskView {
    pub id: Seq<char>,
    pub project_id: Seq<char>,
    pub kind: TaskKind,
    pub target: Seq<char>,
    pub status: TaskStatus,
    pub message: Option<Seq<char>>,
    pub error: Option<Seq<char>>,
    pub started_at: i64,
    pub finished_at: Option<i64>,
}

/// A background task.
#[derive(Debug, Clone)]
pub struct Task {
    pub id: String,
    pub project_id: String,
    pub kind: TaskKind,
    pub target: String,
    pub status: TaskStatus,
    pub message: Option<String>,
    pub error: Option<String>,
    pub started_at: i64,
    pub finished_at: Option<i64>,
}

impl View for Task {
    type V = TaskView;

    open spec fn view(&self) -> TaskView {
        TaskView {
            id: self.id@,
            project_id: self.project_id@,
            kind: self.kind,
            target: self.target@,
            status: self.status,
            message: opt_string_view(self.message),
            error: opt_string_view(self.error),
            started_at: self.started_at,
            finished_at: self.finished_at,
        }
    }
}

impl Task {
    pub fn duplicate(&self) -> (r: Task)
        ensures
            r@ == self@,
    {
        Task {
            id: self.id.clone(),
            project_id: self.project_id.clone(),
            kind: self.kind,
            target: self.target.clone(),
            status: self.status,
            message: copy_opt_string(&self.message),
            error: copy_opt_string(&self.error),
            started_at: self.started_at,
            finished_at: self.finished_at,
        }
    }
}

pub struct EventView {
    pub id: Seq<char>,
    pub task_id: Seq<char>,
    pub project_id: Seq<char>,
    pub kind: TaskKind,
    pub status: TaskStatus,
    pub at: i64,
    pub message: Option<Seq<char>>,
}

/// A change of a task's status, as the event log records it.
#[derive(Debug, Clone)]
pub struct TaskEvent {
    pub id: String,
    pub task_id: String,
    pub project_id: String,
    pub kind: TaskKind,
    pub status: TaskStatus,
    pub at: i64,
    pub message: Option<String>,
}

impl View for TaskEvent {
    type V = EventView;

    open spec fn view(&self) -> EventView {
        EventView {
            id: self.id@,
            task_id: self.task_id@,
            project_id: self.project_id@,
            kind: self.kind,
            status: self.status,
            at: self.at,
            message: opt_string_view(self.message),
        }
    }
}

impl TaskEvent {
    pub fn duplicate(&self) -> (r: TaskEvent)
        ensures
            r@ == self@,
    {
        TaskEvent {
            id: self.id.clone(),
            task_id: self.task_id.clone(),
            project_id: self.project_id.clone(),
            kind: self.kind,
            status: self.status,
            at: self.at,
            message: copy_opt_string(&self.message),
        }
    }
}

pub open spec fn tasks_view(v: Seq<Task>) -> Seq<TaskView> {
    v.map_values(|t: Task| t@)
}

pub open spec fn events_view(v: Seq<TaskEvent>) -> Seq<EventView> {
    v.map_values(|e: TaskEvent| e@)
}

/// The most events the log keeps.
pub const EVENT_LOG_MAX: usize = 1024;

/// The log after trimming: only its last `EVENT_LOG_MAX` events.
pub open spec fn trimmed(s: Seq<EventView>) -> Seq<EventView> {
    if s.len() > EVENT_LOG_MAX {
        s.subrange(s.len() - EVENT_LOG_MAX, s.len() as int)
    } else {
        s
    }
}

/// Drops the oldest events beyond `EVENT_LOG_MAX`.
pub fn trim_events(events: &mut Vec<TaskEvent>)
    ensures
        events_view(final(events)@) == trimmed(events_view(old(events)@)),
        final(events)@.len() <= EVENT_LOG_MAX,
{
    let n = events.len();
    if n > EVENT_LOG_MAX {
        let drop_count = n - EVENT_LOG_MAX;
        let ghost before = events@;
        let mut kept: Vec<TaskEvent> = Vec::new();
        let mut i = drop_count;
        let mut old_events: Vec<TaskEvent> = Vec::new();
        std::mem::swap(&mut old_events, events);
        while i < n
            invariant
                drop_count <= i <= n,
                n == old_events@.len(),
                old_events@ == before,
                kept@.len() == i - drop_count,
                forall|j: int| 0 <= j < kept@.len() ==> #[trigger] kept@[j]@ == before[drop_count + j]@,
            decreases n - i,
        {
            kept.push(old_events[i].duplicate());
            i += 1;
        }
        *events = kept;
        assert(events_view(events@) =~= trimmed(events_view(before)));
    }
}


/// The first position whose id is not below `id`.
pub open spec fn task_insert_pos(s: Seq<TaskView>, id: Seq<char>) -> int
    decreases s.len(),
{
    if s.len() == 0 || !lex_lt(s[0].id, id) {
        0
    } else {
        1 + task_insert_pos(s.drop_first(), id)
    }
}

/// The insert of an ordered map keyed by id on a list kept in id order:
/// the task with the same id is replaced, else `t` goes in at its place.
pub open spec fn put_task(s: Seq<TaskView>, t: TaskView) -> Seq<TaskView> {
    let k = task_insert_pos(s, t.id);
    if 0 <= k < s.len() && s[k].id == t.id {
        s.update(k, t)
    } else {
        s.insert(k, t)
    }
}

/// Ids strictly increase along the list.
pub open spec fn ids_ordered(s: Seq<TaskView>) -> bool {
    forall|i: int, j: int| 0 <= i < j < s.len() ==> lex_lt(#[trigger] s[i].id, #[trigger] s[j].id)
}

/// The first position of the task with id `id`, or the length.
pub open spec fn task_pos(s: Seq<TaskView>, id: Seq<char>) -> int
    decreases s.len(),
{
    if s.len() == 0 || s[0].id == id {
        0
    } else {
        1 + task_pos(s.drop_first(), id)
    }
}

/// The task with id `id`.
pub open spec fn find_task(s: Seq<TaskView>, id: Seq<char>) -> Option<TaskView> {
    let k = task_pos(s, id);
    if k < s.len() {
        Some(s[k])
    } else {
        None
    }
}

pub proof fn lemma_task_insert_pos(s: Seq<TaskView>, id: Seq<char>)
    ensures
        0 <= task_insert_pos(s, id) <= s.len(),
        forall|i: int| 0 <= i < task_insert_pos(s, id) ==> lex_lt(#[trigger] s[i].id, id),
        task_insert_pos(s, id) < s.len() ==> !lex_lt(s[task_insert_pos(s, id)].id, id),
    decreases s.len(),
{
    if s.len() > 0 && lex_lt(s[0].id, id) {
        lemma_task_insert_pos(s.drop_first(), id);
        let k = task_insert_pos(s, id);
        assert forall|i: int| 0 <= i < k implies lex_lt(#[trigger] s[i].id, id) by {
            if i > 0 {
                assert(s[i] == s.drop_first()[i - 1]);
            }
        }
    }
}

pub proof fn lemma_task_pos(s: Seq<TaskView>, id: Seq<char>)
    ensures
        0 <= task_pos(s, id) <= s.len(),
        forall|i: int| 0 <= i < task_pos(s, id) ==> #[trigger] s[i].id != id,
        task_pos(s, id) < s.len() ==> s[task_pos(s, id)].id == id,
    decreases s.len(),
{
    if s.len() > 0 && s[0].id != id {
        lemma_task_pos(s.drop_first(), id);
        let k = task_pos(s, id);
        assert forall|i: int| 0 <= i < k implies #[trigger] s[i].id != id by {
            if i > 0 {
                assert(s[i] == s.drop_first()[i - 1]);
            }
        }
    }
}

/// In an ordered list the task at `k` is the one found under its id.
pub proof fn lemma_find_at(s: Seq<TaskView>, k: int)
    requires
        ids_ordered(s),
        0 <= k < s.len(),
    ensures
        find_task(s, s[k].id) == Some(s[k]),
{
    lemma_task_pos(s, s[k].id);
    let p = task_pos(s, s[k].id);
    if p != k {
        assert(p < k);
        assert(lex_lt(s[p].id, s[k].id));
        crate::text::lemma_lex_irreflexive(s[k].id);
    }
}

/// No task carries `id`: nothing is found under it.
pub proof fn lemma_find_none(s: Seq<TaskView>, id: Seq<char>)
    requires
        forall|i: int| 0 <= i < s.len() ==> #[trigger] s[i].id != id,
    ensures
        find_task(s, id) is None,
{
    lemma_task_pos(s, id);
}

/// `put_task` keeps a list ordered.
pub proof fn lemma_put_task_ordered(s: Seq<TaskView>, t: TaskView)
    requires
        ids_ordered(s),
    ensures
        ids_ordered(put_task(s, t)),
{
    let key = t.id;
    let k = task_insert_pos(s, key);
    lemma_task_insert_pos(s, key);
    let r = put_task(s, t);
    if 0 <= k < s.len() && s[k].id == key {
        assert forall|i: int, j: int| 0 <= i < j < r.len() implies lex_lt(#[trigger] r[i].id, #[trigger] r[j].id) by {
            assert(r[i].id == s[i].id);
            assert(r[j].id == s[j].id);
        }
    } else {
        assert forall|i: int, j: int| 0 <= i < j < r.len() implies lex_lt(#[trigger] r[i].id, #[trigger] r[j].id) by {
            if k < s.len() {
                crate::text::lemma_lex_trichotomy(s[k].id, key);
            }
            if j == k {
                assert(lex_lt(s[i].id, key));
            } else if i == k {
                assert(r[j] == s[j - 1]);
                if j - 1 > k {
                    crate::text::lemma_lex_transitive(key, s[k].id, s[j - 1].id);
                }
            } else if i < k && j < k {
            } else if i < k && j > k {
                assert(r[j] == s[j - 1]);
            } else {
                assert(r[i] == s[i - 1]);
                assert(r[j] == s[j - 1]);
            }
        }
    }
}

/// A task written with `put_task` is what a lookup of its id gives back,
/// and the lookup of every other id is unchanged.
pub proof fn lemma_put_then_find(s: Seq<TaskView>, t: TaskView, id: Seq<char>)
    requires
        ids_ordered(s),
    ensures
        find_task(put_task(s, t), t.id) == Some(t),
        id != t.id ==> find_task(put_task(s, t), id) == find_task(s, id),
{
    let k = task_insert_pos(s, t.id);
    lemma_task_insert_pos(s, t.id);
    lemma_put_task_ordered(s, t);
    let r = put_task(s, t);
    let replaced = 0 <= k < s.len() && s[k].id == t.id;
    assert(r[k] == t);
    lemma_find_at(r, k);
    if id != t.id {
        lemma_task_pos(s, id);
        let p = task_pos(s, id);
        if p < s.len() {
            let q = if replaced || p < k { p } else { p + 1 };
            assert(r[q] == s[p]);
            lemma_find_at(r, q);
            lemma_find_at(s, p);
        } else {
            assert forall|i: int| 0 <= i < r.len() implies #[trigger] r[i].id != id by {
                if replaced || i < k {
                    if i != k {
                        assert(r[i] == s[i]);
                    }
                } else if i > k {
                    assert(r[i] == s[i - 1]);
                }
            }
            lemma_find_none(r, id);
        }
    }
}


/// The position of the task with id `id` (the length where there is none).
fn task_position(v: &Vec<Task>, id: &[char]) -> (r: usize)
    ensures
        r == task_pos(tasks_view(v@), id@),
{
    let ghost s = tasks_view(v@);
    let mut k: usize = 0;
    assert(s.subrange(0, s.len() as int) =~= s);
    while k < v.len()
        invariant
            k <= v@.len(),
            s == tasks_view(v@),
            task_pos(s, id@) == k + task_pos(s.subrange(k as int, s.len() as int), id@),
        ensures
            k <= v@.len(),
            task_pos(s, id@) == k + task_pos(s.subrange(k as int, s.len() as int), id@),
            k < v@.len() ==> s[k as int].id == id@,
        decreases v@.len() - k,
    {
        let kk = chars_of(v[k].id.as_str());
        if crate::text::same_chars(kk.as_slice(), id) {
            break;
        }
        assert(s.subrange(k as int, s.len() as int).drop_first() =~= s.subrange(k + 1, s.len() as int));
        k += 1;
    }
    proof {
        if k < v@.len() {
            assert(s.subrange(k as int, s.len() as int)[0] == s[k as int]);
        } else {
            assert(s.subrange(k as int, s.len() as int).len() == 0);
        }
    }
    k
}

/// Writes `t` into a list kept in id order (see `put_task`).
fn put_task_vec(v: &mut Vec<Task>, t: Task)
    ensures
        tasks_view(final(v)@) == put_task(tasks_view(old(v)@), t@),
{
    let key = chars_of(t.id.as_str());
    let ghost s = tasks_view(v@);
    let mut k: usize = 0;
    assert(s.subrange(0, s.len() as int) =~= s);
    while k < v.len()
        invariant
            k <= v@.len(),
            s == tasks_view(v@),
            key@ == t@.id,
            task_insert_pos(s, key@) == k + task_insert_pos(s.subrange(k as int, s.len() as int), key@),
        ensures
            k <= v@.len(),
            s == tasks_view(v@),
            task_insert_pos(s, key@) == k + task_insert_pos(s.subrange(k as int, s.len() as int), key@),
            k < v@.len() ==> !lex_lt(s[k as int].id, key@),
        decreases v@.len() - k,
    {
        let kk = chars_of(v[k].id.as_str());
        if !crate::text::lex_less(kk.as_slice(), key.as_slice()) {
            break;
        }
        assert(s.subrange(k as int, s.len() as int).drop_first() =~= s.subrange(k + 1, s.len() as int));
        k += 1;
    }
    proof {
        if k < v@.len() {
            assert(s.subrange(k as int, s.len() as int)[0] == s[k as int]);
            assert(task_insert_pos(s.subrange(k as int, s.len() as int), key@) == 0);
        } else {
            assert(s.subrange(k as int, s.len() as int).len() == 0);
        }
    }
    if k < v.len() && crate::text::same_chars(chars_of(v[k].id.as_str()).as_slice(), key.as_slice()) {
        v.set(k, t);
        assert(tasks_view(v@) =~= s.update(k as int, t@));
    } else {
        v.insert(k, t);
        assert(tasks_view(v@) =~= s.insert(k as int, t@));
    }
}


/// The id of a task queued at `now`: `task-{kind}-{now}`.
pub open spec fn task_id_text(kind: TaskKind, now: i64) -> Seq<char> {
    "task-"@ + kind_name(kind) + "-"@ + decimal(now as int)
}

/// The id of an event logged at `now`: `evt-{now}`.
pub open spec fn event_id_text(now: i64) -> Seq<char> {
    "evt-"@ + decimal(now as int)
}

/// The task that `enqueue` makes.
pub open spec fn queued_task(
    project_id: Seq<char>,
    kind: TaskKind,
    target: Seq<char>,
    message: Option<Seq<char>>,
    now: i64,
) -> TaskView {
    TaskView {
        id: task_id_text(kind, now),
        project_id,
        kind,
        target,
        status: TaskStatus::Pending,
        message,
        error: None,
        started_at: now,
        finished_at: None,
    }
}

/// The event that records a newly queued task.
pub open spec fn queued_event(t: TaskView) -> EventView {
    EventView {
        id: event_id_text(t.started_at),
        task_id: t.id,
        project_id: t.project_id,
        kind: t.kind,
        status: TaskStatus::Pending,
        at: t.started_at,
        message: Some("Queued "@ + kind_name(t.kind) + " task for "@ + t.target),
    }
}

/// A task cancelled at `now` with the note `note`.
pub open spec fn cancelled(t: TaskView, now: i64, note: Seq<char>) -> TaskView {
    TaskView { status: TaskStatus::Cancelled, finished_at: Some(now), message: Some(note), ..t }
}

/// The event that records the cancellation of `t` at `now`.
pub open spec fn cancel_event(t: TaskView, now: i64) -> EventView {
    EventView {
        id: event_id_text(now),
        task_id: t.id,
        project_id: t.project_id,
        kind: t.kind,
        status: TaskStatus::Cancelled,
        at: now,
        message: Some("Cancelled"@),
    }
}

/// Whether `cancel_session` cancels `t`: an unfinished chat task of the
/// project whose target mentions the session.
pub open spec fn session_match(t: TaskView, project_id: Seq<char>, session_id: Seq<char>) -> bool {
    &&& t.project_id == project_id
    &&& t.kind == TaskKind::Chat
    &&& contains_seq(t.target, session_id)
    &&& !is_finished(t.status)
}

/// The tasks after `cancel_session`.
pub open spec fn session_cancelled(s: Seq<TaskView>, project_id: Seq<char>, session_id: Seq<char>, now: i64) -> Seq<
    TaskView,
> {
    s.map_values(
        |t: TaskView|
            if session_match(t, project_id, session_id) {
                cancelled(t, now, "Cancelled by chat-cancel"@)
            } else {
                t
            },
    )
}

/// The events `cancel_session` logs, one per cancelled task, in id order.
pub open spec fn session_events(s: Seq<TaskView>, project_id: Seq<char>, session_id: Seq<char>, now: i64) -> Seq<
    EventView,
>
    decreases s.len(),
{
    if s.len() == 0 {
        Seq::empty()
    } else {
        let r = session_events(s.drop_last(), project_id, session_id, now);
        if session_match(s.last(), project_id, session_id) {
            r.push(cancel_event(s.last(), now))
        } else {
            r
        }
    }
}

/// A task after its worker reported `status`, with `message` where one came.
pub open spec fn status_updated(t: TaskView, status: TaskStatus, message: Option<Seq<char>>, now: i64) -> TaskView {
    TaskView {
        status,
        message: if message is Some {
            message
        } else {
            t.message
        },
        finished_at: if is_finished(status) {
            Some(now)
        } else {
            t.finished_at
        },
        ..t
    }
}

/// The event that records a status report.
pub open spec fn status_event(
    task_id: Seq<char>,
    t: TaskView,
    status: TaskStatus,
    message: Option<Seq<char>>,
    now: i64,
) -> EventView {
    EventView {
        id: event_id_text(now),
        task_id,
        project_id: t.project_id,
        kind: t.kind,
        status,
        at: now,
        message,
    }
}

/// Appends the characters of `s`.
fn push_str(v: &mut Vec<char>, s: &str)
    ensures
        final(v)@ == old(v)@ + s@,
{
    let mut w = chars_of(s);
    v.append(&mut w);
}

/// `evt-{now}`.
fn event_id(now: i64) -> (r: String)
    ensures
        r@ == event_id_text(now),
{
    let mut v: Vec<char> = Vec::new();
    push_str(&mut v, "evt-");
    let mut d = format_i64(now);
    v.append(&mut d);
    string_of(v.as_slice())
}

/// Appends `e` to the log and trims it.
fn log_event(events: &mut Vec<TaskEvent>, e: TaskEvent)
    ensures
        events_view(final(events)@) == trimmed(events_view(old(events)@).push(e@)),
        final(events)@.len() <= EVENT_LOG_MAX,
{
    let ghost before = events_view(events@);
    events.push(e);
    assert(events_view(events@) =~= before.push(e@));
    trim_events(events);
}

/// What a registry holds: its tasks in id order, and its event log.
pub struct RegistryView {
    pub tasks: Seq<TaskView>,
    pub events: Seq<EventView>,
}

/// A task that was running when the registry was last saved goes back to
/// pending, so that a worker picks it up again.
pub open spec fn resumed(t: TaskView) -> TaskView {
    if t.status == TaskStatus::Running {
        TaskView { status: TaskStatus::Pending, ..t }
    } else {
        t
    }
}

/// The tasks of a registry restored from `items`, in that order: a later
/// task replaces an earlier one with the same id.
pub open spec fn restored(items: Seq<TaskView>) -> Seq<TaskView>
    decreases items.len(),
{
    if items.len() == 0 {
        Seq::empty()
    } else {
        put_task(restored(items.drop_last()), resumed(items.last()))
    }
}

/// Whether a task passes the filters of `list`.
pub open spec fn list_match(t: TaskView, project: Option<Seq<char>>, status: Option<Seq<char>>) -> bool {
    &&& match project {
        Some(p) => t.project_id == p,
        None => true,
    }
    &&& match status {
        Some(x) => status_name(t.status) == x,
        None => true,
    }
}

/// The tasks that pass the filters, in id order.
pub open spec fn select_tasks(s: Seq<TaskView>, project: Option<Seq<char>>, status: Option<Seq<char>>) -> Seq<
    TaskView,
>
    decreases s.len(),
{
    if s.len() == 0 {
        Seq::empty()
    } else {
        let r = select_tasks(s.drop_last(), project, status);
        if list_match(s.last(), project, status) {
            r.push(s.last())
        } else {
            r
        }
    }
}

/// The events logged after `last`.
pub open spec fn events_after(s: Seq<EventView>, last: i64) -> Seq<EventView>
    decreases s.len(),
{
    if s.len() == 0 {
        Seq::empty()
    } else {
        let r = events_after(s.drop_last(), last);
        if s.last().at > last {
            r.push(s.last())
        } else {
            r
        }
    }
}

/// The id of the last task, in id order, of this project, target and kind;
/// empty where there is none.
pub open spec fn last_match_id(s: Seq<TaskView>, project_id: Seq<char>, target: Seq<char>, kind: TaskKind) -> Seq<
    char,
>
    decreases s.len(),
{
    if s.len() == 0 {
        Seq::empty()
    } else if s.last().project_id == project_id && s.last().target == target && s.last().kind == kind {
        s.last().id
    } else {
        last_match_id(s.drop_last(), project_id, target, kind)
    }
}

pub open spec fn opt_task_view(o: Option<Task>) -> Option<TaskView> {
    match o {
        Some(t) => Some(t@),
        None => None,
    }
}

/// The registry of background tasks and their event log.
pub struct TaskRegistry {
    tasks: Vec<Task>,
    events: Vec<TaskEvent>,
}

impl View for TaskRegistry {
    type V = RegistryView;

    closed spec fn view(&self) -> RegistryView {
        RegistryView { tasks: tasks_view(self.tasks@), events: events_view(self.events@) }
    }
}

impl TaskRegistry {
    #[verifier::type_invariant]
    closed spec fn well_formed(&self) -> bool {
        &&& ids_ordered(tasks_view(self.tasks@))
        &&& self.events@.len() <= EVENT_LOG_MAX
    }

    /// An empty registry.
    pub fn new() -> (r: TaskRegistry)
        ensures
            r@.tasks == Seq::<TaskView>::empty(),
            r@.events == Seq::<EventView>::empty(),
    {
        let r = TaskRegistry { tasks: Vec::new(), events: Vec::new() };
        assert(r@.tasks =~= Seq::<TaskView>::empty());
        assert(r@.events =~= Seq::<EventView>::empty());
        r
    }

    /// A registry holding the saved tasks `persisted`; a task that was
    /// running resumes as pending. The event log starts empty.
    pub fn restore(persisted: Vec<Task>) -> (r: TaskRegistry)
        ensures
            r@.tasks == restored(tasks_view(persisted@)),
            r@.events == Seq::<EventView>::empty(),
            ids_ordered(r@.tasks),
    {
        let ghost items = tasks_view(persisted@);
        let mut tasks: Vec<Task> = Vec::new();
        let mut i: usize = 0;
        assert(tasks_view(tasks@) =~= restored(items.subrange(0, 0)));
        while i < persisted.len()
            invariant
                i <= persisted@.len(),
                items == tasks_view(persisted@),
                tasks_view(tasks@) == restored(items.subrange(0, i as int)),
                ids_ordered(tasks_view(tasks@)),
            decreases persisted@.len() - i,
        {
            let mut t = persisted[i].duplicate();
            if t.status == TaskStatus::Running {
                t.status = TaskStatus::Pending;
            }
            proof {
                lemma_put_task_ordered(tasks_view(tasks@), t@);
                assert(items.subrange(0, i + 1).drop_last() =~= items.subrange(0, i as int));
                assert(items.subrange(0, i + 1).last() == items[i as int]);
            }
            put_task_vec(&mut tasks, t);
            i += 1;
        }
        assert(items.subrange(0, items.len() as int) =~= items);
        let r = TaskRegistry { tasks, events: Vec::new() };
        assert(r@.events =~= Seq::<EventView>::empty());
        r
    }

    /// The task with id `task_id`.
    pub fn get(&self, task_id: &str) -> (r: Option<Task>)
        ensures
            opt_task_view(r) == find_task(self@.tasks, task_id@),
    {
        let key = chars_of(task_id);
        let k = task_position(&self.tasks, key.as_slice());
        if k < self.tasks.len() {
            Some(self.tasks[k].duplicate())
        } else {
            None
        }
    }

    /// The tasks that belong to `project_filter` and have the status named
    /// `status_filter`, where these are given, in id order.
    pub fn list(&self, project_filter: Option<String>, status_filter: Option<String>) -> (r: Vec<Task>)
        ensures
            tasks_view(r@) == select_tasks(
                self@.tasks,
                opt_string_view(project_filter),
                opt_string_view(status_filter),
            ),
    {
        let ghost s = self@.tasks;
        let ghost pf = opt_string_view(project_filter);
        let ghost sf = opt_string_view(status_filter);
        let pk: Option<Vec<char>> = match &project_filter {
            Some(p) => Some(chars_of(p.as_str())),
            None => None,
        };
        let sk: Option<Vec<char>> = match &status_filter {
            Some(x) => Some(chars_of(x.as_str())),
            None => None,
        };
        let mut out: Vec<Task> = Vec::new();
        let mut i: usize = 0;
        assert(s.subrange(0, 0) =~= Seq::<TaskView>::empty());
        while i < self.tasks.len()
            invariant
                i <= self.tasks@.len(),
                s == tasks_view(self.tasks@),
                pf == opt_string_view(project_filter),
                sf == opt_string_view(status_filter),
                match pk {
                    Some(p) => pf == Some(p@),
                    None => pf is None,
                },
                match sk {
                    Some(x) => sf == Some(x@),
                    None => sf is None,
                },
                tasks_view(out@) == select_tasks(s.subrange(0, i as int), pf, sf),
            decreases self.tasks@.len() - i,
        {
            let t = &self.tasks[i];
            let keep_project = match &pk {
                Some(p) => crate::text::same_chars(chars_of(t.project_id.as_str()).as_slice(), p.as_slice()),
                None => true,
            };
            let keep_status = match &sk {
                Some(x) => crate::text::same_chars(chars_of(t.status.as_str()).as_slice(), x.as_slice()),
                None => true,
            };
            proof {
                assert(s.subrange(0, i + 1).drop_last() =~= s.subrange(0, i as int));
                assert(s.subrange(0, i + 1).last() == s[i as int]);
            }
            if keep_project && keep_status {
                out.push(t.duplicate());
                assert(tasks_view(out@) =~= select_tasks(s.subrange(0, i as int), pf, sf).push(s[i as int]));
            }
            i += 1;
        }
        assert(s.subrange(0, s.len() as int) =~= s);
        out
    }

    /// A copy of the event log, which in every state of the registry holds
    /// at most `EVENT_LOG_MAX` events.
    pub fn snapshot_events(&self) -> (r: Vec<TaskEvent>)
        ensures
            events_view(r@) == self@.events,
            r@.len() <= EVENT_LOG_MAX,
    {
        proof {
            use_type_invariant(self);
        }
        let mut out: Vec<TaskEvent> = Vec::new();
        let mut i: usize = 0;
        while i < self.events.len()
            invariant
                i <= self.events@.len(),
                out@.len() == i,
                forall|j: int| 0 <= j < i ==> #[trigger] out@[j]@ == self.events@[j]@,
            decreases self.events@.len() - i,
        {
            out.push(self.events[i].duplicate());
            i += 1;
        }
        assert(events_view(out@) =~= self@.events);
        out
    }

    /// The logged events that happened after `last_at_ms`, oldest first.
    pub fn events_since(&self, last_at_ms: i64) -> (r: Vec<TaskEvent>)
        ensures
            events_view(r@) == events_after(self@.events, last_at_ms),
    {
        let ghost s = self@.events;
        let mut out: Vec<TaskEvent> = Vec::new();
        let mut i: usize = 0;
        assert(s.subrange(0, 0) =~= Seq::<EventView>::empty());
        while i < self.events.len()
            invariant
                i <= self.events@.len(),
                s == events_view(self.events@),
                events_view(out@) == events_after(s.subrange(0, i as int), last_at_ms),
            decreases self.events@.len() - i,
        {
            let e = &self.events[i];
            proof {
                assert(s.subrange(0, i + 1).drop_last() =~= s.subrange(0, i as int));
                assert(s.subrange(0, i + 1).last() == s[i as int]);
            }
            if e.at > last_at_ms {
                out.push(e.duplicate());
                assert(events_view(out@) =~= events_after(s.subrange(0, i as int), last_at_ms).push(s[i as int]));
            }
            i += 1;
        }
        assert(s.subrange(0, s.len() as int) =~= s);
        out
    }

    /// The id of the newest task, in id order, of this project, target and
    /// kind: the task a worker started for them runs under it. Empty where
    /// there is none.
    pub fn worker_task_id(&self, project_id: &str, target: &str, kind: TaskKind) -> (r: String)
        ensures
            r@ == last_match_id(self@.tasks, project_id@, target@, kind),
    {
        let ghost s = self@.tasks;
        let pk = chars_of(project_id);
        let tk = chars_of(target);
        let mut i: usize = self.tasks.len();
        assert(s.subrange(0, i as int) =~= s);
        while i > 0
            invariant
                i <= self.tasks@.len(),
                s == tasks_view(self.tasks@),
                pk@ == project_id@,
                tk@ == target@,
                last_match_id(s, project_id@, target@, kind) == last_match_id(s.subrange(0, i as int), project_id@, target@, kind),
            decreases i,
        {
            let t = &self.tasks[i - 1];
            proof {
                assert(s.subrange(0, i as int).drop_last() =~= s.subrange(0, i - 1));
                assert(s.subrange(0, i as int).last() == s[i - 1]);
            }
            if crate::text::same_chars(chars_of(t.project_id.as_str()).as_slice(), pk.as_slice())
                && crate::text::same_chars(chars_of(t.target.as_str()).as_slice(), tk.as_slice())
                && t.kind == kind {
                return t.id.clone();
            }
            i -= 1;
        }
        String::new()
    }
}


impl TaskRegistry {
    /// Queues a task of `kind` on `target` for a project at time `now` (in
    /// milliseconds), logs that it was queued, and returns it. A task with
    /// the same id is replaced. Starting its worker is the caller's part.
    pub fn enqueue(
        &mut self,
        project_id: &str,
        kind: TaskKind,
        target: &str,
        message: Option<String>,
        now: i64,
    ) -> (r: Task)
        ensures
            r@ == queued_task(project_id@, kind, target@, opt_string_view(message), now),
            final(self)@.tasks == put_task(old(self)@.tasks, r@),
            final(self)@.events == trimmed(old(self)@.events.push(queued_event(r@))),
            ids_ordered(final(self)@.tasks),
            final(self)@.events.len() <= EVENT_LOG_MAX,
    {
        proof {
            use_type_invariant(&*self);
        }
        let mut idv: Vec<char> = Vec::new();
        push_str(&mut idv, "task-");
        push_str(&mut idv, kind.as_str());
        push_str(&mut idv, "-");
        let mut d = format_i64(now);
        idv.append(&mut d);
        let id = string_of(idv.as_slice());
        let task = Task {
            id,
            project_id: project_id.to_string(),
            kind,
            target: target.to_string(),
            status: TaskStatus::Pending,
            message,
            error: None,
            started_at: now,
            finished_at: None,
        };
        let mut note: Vec<char> = Vec::new();
        push_str(&mut note, "Queued ");
        push_str(&mut note, kind.as_str());
        push_str(&mut note, " task for ");
        push_str(&mut note, target);
        let event = TaskEvent {
            id: event_id(now),
            task_id: task.id.clone(),
            project_id: task.project_id.clone(),
            kind,
            status: TaskStatus::Pending,
            at: now,
            message: Some(string_of(note.as_slice())),
        };
        assert(event@ == queued_event(task@));
        let mut tasks: Vec<Task> = Vec::new();
        std::mem::swap(&mut tasks, &mut self.tasks);
        let mut events: Vec<TaskEvent> = Vec::new();
        std::mem::swap(&mut events, &mut self.events);
        proof {
            lemma_put_task_ordered(tasks_view(tasks@), task@);
        }
        put_task_vec(&mut tasks, task.duplicate());
        log_event(&mut events, event);
        self.tasks = tasks;
        self.events = events;
        task
    }

    /// Cancels the task with id `task_id` at time `now`: `None` where there
    /// is no such task, `Some(false)` where it has already finished (and
    /// nothing changes), else `Some(true)`, with the task cancelled by the
    /// user and the cancellation logged.
    pub fn cancel(&mut self, task_id: &str, now: i64) -> (r: Option<bool>)
        ensures
            match find_task(old(self)@.tasks, task_id@) {
                None => r is None && final(self)@ == old(self)@,
                Some(t) => if is_finished(t.status) {
                    r == Some(false) && final(self)@ == old(self)@
                } else {
                    &&& r == Some(true)
                    &&& final(self)@.tasks == put_task(old(self)@.tasks, cancelled(t, now, "Cancelled by user"@))
                    &&& final(self)@.events == trimmed(old(self)@.events.push(cancel_event(t, now)))
                },
            },
            ids_ordered(final(self)@.tasks),
            final(self)@.events.len() <= EVENT_LOG_MAX,
    {
        proof {
            use_type_invariant(&*self);
        }
        let key = chars_of(task_id);
        let k = task_position(&self.tasks, key.as_slice());
        if k >= self.tasks.len() {
            return None;
        }
        if self.tasks[k].status.finished() {
            return Some(false);
        }
        let ghost t = self.tasks@[k as int]@;
        let mut c = self.tasks[k].duplicate();
        c.status = TaskStatus::Cancelled;
        c.finished_at = Some(now);
        c.message = Some("Cancelled by user".to_string());
        assert(c@ == cancelled(t, now, "Cancelled by user"@));
        let event = TaskEvent {
            id: event_id(now),
            task_id: c.id.clone(),
            project_id: c.project_id.clone(),
            kind: c.kind,
            status: TaskStatus::Cancelled,
            at: now,
            message: Some("Cancelled".to_string()),
        };
        assert(event@ == cancel_event(t, now));
        let mut tasks: Vec<Task> = Vec::new();
        std::mem::swap(&mut tasks, &mut self.tasks);
        let mut events: Vec<TaskEvent> = Vec::new();
        std::mem::swap(&mut events, &mut self.events);
        proof {
            lemma_put_task_ordered(tasks_view(tasks@), c@);
        }
        put_task_vec(&mut tasks, c);
        log_event(&mut events, event);
        self.tasks = tasks;
        self.events = events;
        Some(true)
    }

    /// Cancels, at time `now`, every unfinished chat task of the project
    /// whose target mentions `session_id`, logging one event for each, in id
    /// order. Returns whether any task was cancelled.
    pub fn cancel_session(&mut self, project_id: &str, session_id: &str, now: i64) -> (r: bool)
        ensures
            final(self)@.tasks == session_cancelled(old(self)@.tasks, project_id@, session_id@, now),
            final(self)@.events == trimmed(
                old(self)@.events + session_events(old(self)@.tasks, project_id@, session_id@, now),
            ),
            r == (session_events(old(self)@.tasks, project_id@, session_id@, now).len() > 0),
            ids_ordered(final(self)@.tasks),
            final(self)@.events.len() <= EVENT_LOG_MAX,
    {
        proof {
            use_type_invariant(&*self);
        }
        let ghost s = self@.tasks;
        let ghost p = project_id@;
        let ghost sid = session_id@;
        let pk = chars_of(project_id);
        let sk = chars_of(session_id);
        let mut tasks: Vec<Task> = Vec::new();
        std::mem::swap(&mut tasks, &mut self.tasks);
        let mut events: Vec<TaskEvent> = Vec::new();
        std::mem::swap(&mut events, &mut self.events);
        let ghost old_events = events_view(events@);
        let mut i: usize = 0;
        let mut any = false;
        assert(s.subrange(0, 0) =~= Seq::<TaskView>::empty());
        while i < tasks.len()
            invariant
                i <= tasks@.len(),
                tasks@.len() == s.len(),
                pk@ == p,
                sk@ == sid,
                forall|j: int| 0 <= j < i ==> #[trigger] tasks@[j]@ == session_cancelled(s, p, sid, now)[j],
                forall|j: int| i <= j < s.len() ==> #[trigger] tasks@[j]@ == s[j],
                events_view(events@) == old_events + session_events(s.subrange(0, i as int), p, sid, now),
                any == (session_events(s.subrange(0, i as int), p, sid, now).len() > 0),
            decreases tasks@.len() - i,
        {
            let ghost t = s[i as int];
            proof {
                assert(s.subrange(0, i + 1).drop_last() =~= s.subrange(0, i as int));
                assert(s.subrange(0, i + 1).last() == t);
                assert(tasks@[i as int]@ == t);
            }
            let hit = {
                let tk = &tasks[i];
                crate::text::same_chars(chars_of(tk.project_id.as_str()).as_slice(), pk.as_slice())
                    && tk.kind == TaskKind::Chat
                    && crate::text::contains_chars(chars_of(tk.target.as_str()).as_slice(), sk.as_slice())
                    && !tk.status.finished()
            };
            assert(hit == session_match(t, p, sid));
            if hit {
                let mut c = tasks[i].duplicate();
                c.status = TaskStatus::Cancelled;
                c.finished_at = Some(now);
                c.message = Some("Cancelled by chat-cancel".to_string());
                let event = TaskEvent {
                    id: event_id(now),
                    task_id: c.id.clone(),
                    project_id: c.project_id.clone(),
                    kind: c.kind,
                    status: TaskStatus::Cancelled,
                    at: now,
                    message: Some("Cancelled".to_string()),
                };
                assert(event@ == cancel_event(t, now));
                let ghost before = events_view(events@);
                events.push(event);
                assert(events_view(events@) =~= before.push(cancel_event(t, now)));
                tasks.set(i, c);
                any = true;
            }
            i += 1;
        }
        proof {
            assert(s.subrange(0, s.len() as int) =~= s);
            assert(tasks_view(tasks@) =~= session_cancelled(s, p, sid, now));
            assert forall|a: int, b: int| 0 <= a < b < s.len() implies lex_lt(
                #[trigger] tasks_view(tasks@)[a].id,
                #[trigger] tasks_view(tasks@)[b].id,
            ) by {
                assert(tasks_view(tasks@)[a].id == s[a].id);
                assert(tasks_view(tasks@)[b].id == s[b].id);
            }
        }
        trim_events(&mut events);
        self.tasks = tasks;
        self.events = events;
        any
    }

    /// Records that the worker of task `task_id` reported `status` (with
    /// `message`, where one came) at time `now`, and logs it. A finished
    /// task gets `now` as its finishing time. Returns whether the task
    /// exists; where it does not, nothing changes.
    pub fn update_status(&mut self, task_id: &str, status: TaskStatus, message: Option<String>, now: i64) -> (r: bool)
        ensures
            match find_task(old(self)@.tasks, task_id@) {
                None => !r && final(self)@ == old(self)@,
                Some(t) => {
                    &&& r
                    &&& final(self)@.tasks == put_task(
                        old(self)@.tasks,
                        status_updated(t, status, opt_string_view(message), now),
                    )
                    &&& final(self)@.events == trimmed(
                        old(self)@.events.push(status_event(task_id@, t, status, opt_string_view(message), now)),
                    )
                },
            },
            ids_ordered(final(self)@.tasks),
            final(self)@.events.len() <= EVENT_LOG_MAX,
    {
        proof {
            use_type_invariant(&*self);
        }
        let key = chars_of(task_id);
        let k = task_position(&self.tasks, key.as_slice());
        if k >= self.tasks.len() {
            return false;
        }
        let ghost t = self.tasks@[k as int]@;
        let mut c = self.tasks[k].duplicate();
        c.status = status;
        match &message {
            Some(m) => {
                c.message = Some(m.clone());
            },
            None => {},
        }
        if status.finished() {
            c.finished_at = Some(now);
        }
        assert(c@ == status_updated(t, status, opt_string_view(message), now));
        let event = TaskEvent {
            id: event_id(now),
            task_id: task_id.to_string(),
            project_id: c.project_id.clone(),
            kind: c.kind,
            status,
            at: now,
            message,
        };
        let mut tasks: Vec<Task> = Vec::new();
        std::mem::swap(&mut tasks, &mut self.tasks);
        let mut events: Vec<TaskEvent> = Vec::new();
        std::mem::swap(&mut events, &mut self.events);
        proof {
            lemma_put_task_ordered(tasks_view(tasks@), c@);
        }
        put_task_vec(&mut tasks, c);
        log_event(&mut events, event);
        self.tasks = tasks;
        self.events = events;
        true
    }
}


/// Once cancelled, a task is finished: a second `cancel` of it answers
/// `Some(false)` and changes nothing.
pub proof fn lemma_cancelled_is_finished(s: Seq<TaskView>, t: TaskView, now: i64, note: Seq<char>)
    requires
        ids_ordered(s),
    ensures
        find_task(put_task(s, cancelled(t, now, note)), t.id) matches Some(c) && is_finished(c.status),
{
    lemma_put_then_find(s, cancelled(t, now, note), t.id);
}

/// Every task of `put_task(s, t)` is `t` or a task of `s`.
proof fn lemma_put_task_members(s: Seq<TaskView>, t: TaskView, i: int)
    requires
        0 <= i < put_task(s, t).len(),
    ensures
        put_task(s, t)[i] == t || exists|j: int| 0 <= j < s.len() && s[j] == put_task(s, t)[i],
{
    let k = task_insert_pos(s, t.id);
    lemma_task_insert_pos(s, t.id);
    let r = put_task(s, t);
    if 0 <= k < s.len() && s[k].id == t.id {
        if i != k {
            assert(r[i] == s[i]);
        }
    } else if i < k {
        assert(r[i] == s[i]);
    } else if i > k {
        assert(r[i] == s[i - 1]);
    }
}

/// A restored registry holds no running task, and its ids are in order.
pub proof fn lemma_restored_none_running(items: Seq<TaskView>)
    ensures
        ids_ordered(restored(items)),
        forall|i: int| 0 <= i < restored(items).len() ==> #[trigger] restored(items)[i].status != TaskStatus::Running,
    decreases items.len(),
{
    if items.len() > 0 {
        let prev = restored(items.drop_last());
        lemma_restored_none_running(items.drop_last());
        lemma_put_task_ordered(prev, resumed(items.last()));
        assert forall|i: int| 0 <= i < restored(items).len() implies #[trigger] restored(items)[i].status
            != TaskStatus::Running by {
            lemma_put_task_members(prev, resumed(items.last()), i);
        }
    }
}


/// Whether a changed file, by its project-relative path, is queued by a
/// rescan: the purpose and schema files, wiki pages and raw sources, but
/// nothing hidden and nothing under `.llm-wiki/` (case-insensitively).
pub open spec fn spec_should_rescan_rel(rel: Seq<char>) -> bool {
    let lower = lowercase(rel);
    if rel.len() == 0 || rel[0] == '.' {
        false
    } else if starts_with(lower, ".llm-wiki/"@) || contains_seq(lower, "/.llm-wiki/"@) {
        false
    } else if lower == "purpose.md"@ || lower == "schema.md"@ {
        true
    } else if starts_with(lower, "wiki/"@) && ends_with(lower, ".md"@) {
        true
    } else {
        starts_with(lower, "raw/sources/"@)
    }
}

pub fn should_rescan_rel(rel: &str) -> (r: bool)
    ensures
        r == spec_should_rescan_rel(rel@),
{
    let s = chars_of(rel);
    if s.len() == 0 || s[0] == '.' {
        return false;
    }
    let lower = chars_of(crate::text::to_lowercase(rel).as_str());
    let l = lower.as_slice();
    if crate::text::has_prefix(l, chars_of(".llm-wiki/").as_slice())
        || crate::text::contains_chars(l, chars_of("/.llm-wiki/").as_slice()) {
        return false;
    }
    if crate::text::same_chars(l, chars_of("purpose.md").as_slice()) || crate::text::same_chars(
        l,
        chars_of("schema.md").as_slice(),
    ) {
        return true;
    }
    if crate::text::has_prefix(l, chars_of("wiki/").as_slice()) && crate::text::has_suffix(
        l,
        chars_of(".md").as_slice(),
    ) {
        return true;
    }
    crate::text::has_prefix(l, chars_of("raw/sources/").as_slice())
}

/// The first `,` or `;` at or after `i`, or the length.
pub open spec fn next_list_sep(s: Seq<char>, i: int) -> int
    decreases s.len() - i,
{
    if i >= s.len() {
        s.len() as int
    } else if s[i] == ',' || s[i] == ';' {
        i
    } else {
        next_list_sep(s, i + 1)
    }
}

pub proof fn lemma_next_list_sep(s: Seq<char>, i: int)
    requires
        0 <= i <= s.len(),
    ensures
        i <= next_list_sep(s, i) <= s.len(),
        next_list_sep(s, i) < s.len() ==> (s[next_list_sep(s, i)] == ',' || s[next_list_sep(s, i)] == ';'),
    decreases s.len() - i,
{
    if i < s.len() && s[i] != ',' && s[i] != ';' {
        lemma_next_list_sep(s, i + 1);
    }
}

/// The pieces of `s` from `i` on, split at `,` and `;`, trimmed, empty
/// pieces left out.
pub open spec fn list_pieces(s: Seq<char>, i: int) -> Seq<Seq<char>>
    decreases s.len() - i,
{
    if i < 0 || i > s.len() {
        Seq::empty()
    } else {
        let j = next_list_sep(s, i);
        proof {
            lemma_next_list_sep(s, i);
        }
        let piece = trim(s.subrange(i, j));
        let rest = if j < s.len() {
            list_pieces(s, j + 1)
        } else {
            Seq::<Seq<char>>::empty()
        };
        if piece.len() > 0 {
            seq![piece] + rest
        } else {
            rest
        }
    }
}

/// The files an ingest task names: `None` for `all` or an empty target
/// (every source file), else the comma- or semicolon-separated names.
pub open spec fn spec_ingest_targets(target: Seq<char>) -> Option<Seq<Seq<char>>> {
    if target == "all"@ || target.len() == 0 {
        None
    } else {
        Some(list_pieces(target, 0))
    }
}


pub fn ingest_targets(target: &str) -> (r: Option<Vec<String>>)
    ensures
        match r {
            Some(v) => spec_ingest_targets(target@) == Some(strings_view(v@)),
            None => spec_ingest_targets(target@) is None,
        },
{
    let s = chars_of(target);
    if s.len() == 0 || crate::text::same_chars(s.as_slice(), chars_of("all").as_slice()) {
        return None;
    }
    let n = s.len();
    let mut pieces: Vec<String> = Vec::new();
    let mut i: usize = 0;
    loop
        invariant
            n == s@.len(),
            s@ == target@,
            target@ != "all"@,
            n > 0,
            i <= n,
            list_pieces(s@, 0) == strings_view(pieces@) + list_pieces(s@, i as int),
        decreases n - i,
    {
        let mut j = i;
        while j < n && s[j] != ',' && s[j] != ';'
            invariant
                i <= j <= n,
                n == s@.len(),
                next_list_sep(s@, i as int) == next_list_sep(s@, j as int),
            decreases n - j,
        {
            j += 1;
        }
        proof {
            lemma_next_list_sep(s@, i as int);
        }
        let piece = crate::text::trim_chars(crate::text::slice_chars(s.as_slice(), i, j).as_slice());
        let ghost before = strings_view(pieces@);
        if piece.len() > 0 {
            pieces.push(string_of(piece.as_slice()));
            assert(strings_view(pieces@) =~= before.push(piece@));
            assert(before.push(piece@) + list_pieces(s@, i as int).drop_first() =~= before + list_pieces(s@, i as int));
        }
        if j < n {
            proof {
                if piece.len() > 0 {
                    assert(list_pieces(s@, i as int).drop_first() =~= list_pieces(s@, j + 1));
                }
            }
            i = j + 1;
        } else {
            proof {
                if piece.len() == 0 {
                    assert(list_pieces(s@, i as int) =~= Seq::<Seq<char>>::empty());
                    assert(list_pieces(s@, 0) =~= strings_view(pieces@));
                } else {
                    assert(list_pieces(s@, i as int) =~= seq![piece@]);
                    assert(list_pieces(s@, 0) =~= strings_view(pieces@));
                }
            }
            return Some(pieces);
        }
    }
}

/// How many lines of `s`, from the line at `i` on, open a wikilink (`[[`)
/// and close none (`]]`).
pub open spec fn unbalanced_from(s: Seq<char>, i: int) -> nat
    decreases s.len() - i,
{
    if i < 0 || i >= s.len() {
        0
    } else {
        let line = line_at(s, i);
        let here: nat = if contains_seq(line, "[["@) && !contains_seq(line, "]]"@) {
            1
        } else {
            0
        };
        let j = line_end(s, i);
        proof {
            crate::text::lemma_next_sep(s, '\n', i);
        }
        if j < s.len() {
            here + unbalanced_from(s, j + 1)
        } else {
            here
        }
    }
}

/// The number of lines of a page that open a wikilink and close none, as
/// the lint task counts them.
pub fn unbalanced_wikilink_lines(content: &str) -> (r: usize)
    ensures
        r == unbalanced_from(content@, 0),
{
    let s = chars_of(content);
    let open = chars_of("[[");
    let close = chars_of("]]");
    let n = s.len();
    let mut i: usize = 0;
    let mut count: usize = 0;
    while i < n
        invariant
            n == s@.len(),
            s@ == content@,
            open@ == "[["@,
            close@ == "]]"@,
            i <= n,
            count <= i,
            unbalanced_from(content@, 0) == count + unbalanced_from(s@, i as int),
        decreases n - i,
    {
        let (line, j) = crate::text::next_line(s.as_slice(), i);
        if crate::text::contains_chars(line.as_slice(), open.as_slice()) && !crate::text::contains_chars(
            line.as_slice(),
            close.as_slice(),
        ) {
            count += 1;
        }
        if j < n {
            i = j + 1;
        } else {
            i = n;
        }
    }
    count
}


/// The kind a task request names: the kinds a client may queue itself
/// (every kind but chat), by their lower-case names; any other name is
/// refused.
pub open spec fn spec_parse_task_kind(name: Seq<char>) -> Result<TaskKind, Seq<char>> {
    if name == "ingest"@ {
        Ok(TaskKind::Ingest)
    } else if name == "rescan"@ {
        Ok(TaskKind::Rescan)
    } else if name == "lint"@ {
        Ok(TaskKind::Lint)
    } else if name == "sweep"@ {
        Ok(TaskKind::Sweep)
    } else if name == "enrich"@ {
        Ok(TaskKind::Enrich)
    } else {
        Err("Unsupported task kind: "@ + name)
    }
}

pub fn parse_task_kind(name: &str) -> (r: Result<TaskKind, String>)
    ensures
        match spec_parse_task_kind(name@) {
            Ok(k) => r == Ok::<TaskKind, String>(k),
            Err(m) => r matches Err(e) && e@ == m,
        },
{
    let c = chars_of(name);
    let cs = c.as_slice();
    if crate::text::same_chars(cs, chars_of("ingest").as_slice()) {
        Ok(TaskKind::Ingest)
    } else if crate::text::same_chars(cs, chars_of("rescan").as_slice()) {
        Ok(TaskKind::Rescan)
    } else if crate::text::same_chars(cs, chars_of("lint").as_slice()) {
        Ok(TaskKind::Lint)
    } else if crate::text::same_chars(cs, chars_of("sweep").as_slice()) {
        Ok(TaskKind::Sweep)
    } else if crate::text::same_chars(cs, chars_of("enrich").as_slice()) {
        Ok(TaskKind::Enrich)
    } else {
        let mut msg: Vec<char> = Vec::new();
        push_str(&mut msg, "Unsupported task kind: ");
        push_str(&mut msg, name);
        Err(string_of(msg.as_slice()))
    }
}

/// The latest time among the events, or `since` where there are none.
pub open spec fn latest_at(events: Seq<EventView>, since: i64) -> i64
    decreases events.len(),
{
    if events.len() == 0 {
        since
    } else {
        let r = latest_at(events.drop_last(), since);
        if events.len() == 1 || events.last().at > r {
            events.last().at
        } else {
            r
        }
    }
}

/// The time a client resumes an event stream from: the latest of the
/// events' times, or `since` where there are none.
pub fn max_event_at(events: &Vec<TaskEvent>, since: i64) -> (r: i64)
    ensures
        r == latest_at(events_view(events@), since),
{
    let ghost ev = events_view(events@);
    let mut best = since;
    let mut i: usize = 0;
    assert(ev.subrange(0, 0) =~= Seq::<EventView>::empty());
    while i < events.len()
        invariant
            i <= events@.len(),
            ev == events_view(events@),
            best == latest_at(ev.subrange(0, i as int), since),
        decreases events@.len() - i,
    {
        proof {
            assert(ev.subrange(0, i + 1).drop_last() =~= ev.subrange(0, i as int));
            assert(ev.subrange(0, i + 1).last() == ev[i as int]);
        }
        if i == 0 || events[i].at > best {
            best = events[i].at;
        }
        i += 1;
    }
    assert(ev.subrange(0, ev.len() as int) =~= ev);
    best
}

} // verus!
