use llm_wiki_web::tasks::{
    ingest_targets, max_event_at, parse_task_kind, should_rescan_rel, trim_events, unbalanced_wikilink_lines, Task,
    TaskEvent, TaskKind, TaskRegistry, TaskStatus, EVENT_LOG_MAX,
};

fn task(id: &str, status: TaskStatus) -> Task {
    Task {
        id: id.to_string(),
        project_id: "p".to_string(),
        kind: TaskKind::Chat,
        target: "session-1".to_string(),
        status,
        message: None,
        error: None,
        started_at: 1,
        finished_at: None,
    }
}

#[test]
fn kind_and_status_names() {
    assert_eq!(TaskKind::Ingest.as_str(), "ingest");
    assert_eq!(TaskKind::Chat.as_str(), "chat");
    assert_eq!(TaskStatus::Cancelled.as_str(), "cancelled");
    assert!(TaskStatus::Done.finished());
    assert!(!TaskStatus::Running.finished());
}

#[test]
fn enqueue_then_get_returns_the_task() {
    let mut reg = TaskRegistry::new();
    let t = reg.enqueue("p", TaskKind::Rescan, "all", None, 1700);
    assert_eq!(t.id, "task-rescan-1700");
    assert_eq!(t.status, TaskStatus::Pending);
    assert_eq!(t.started_at, 1700);
    let got = reg.get("task-rescan-1700").unwrap();
    assert_eq!(got.target, "all");
    assert_eq!(got.project_id, "p");
    let events = reg.snapshot_events();
    assert_eq!(events.len(), 1);
    assert_eq!(events[0].id, "evt-1700");
    assert_eq!(events[0].message.as_deref(), Some("Queued rescan task for all"));
    assert!(reg.get("nope").is_none());
}

#[test]
fn list_filters_by_project_and_status_in_id_order() {
    let mut reg = TaskRegistry::new();
    reg.enqueue("p", TaskKind::Lint, "x", None, 2);
    reg.enqueue("q", TaskKind::Ingest, "y", Some("hi".to_string()), 1);
    reg.enqueue("p", TaskKind::Ingest, "z", None, 3);
    let all = reg.list(None, None);
    let ids: Vec<&str> = all.iter().map(|t| t.id.as_str()).collect();
    assert_eq!(ids, vec!["task-ingest-1", "task-ingest-3", "task-lint-2"]);
    assert_eq!(all[0].message.as_deref(), Some("hi"));
    assert_eq!(reg.list(Some("p".to_string()), None).len(), 2);
    assert_eq!(reg.list(None, Some("pending".to_string())).len(), 3);
    assert_eq!(reg.list(None, Some("done".to_string())).len(), 0);
}

#[test]
fn cancel_outcomes() {
    let mut reg = TaskRegistry::new();
    let t = reg.enqueue("p", TaskKind::Sweep, "all", None, 5);
    assert_eq!(reg.cancel("missing", 6), None);
    assert_eq!(reg.cancel(&t.id, 7), Some(true));
    let c = reg.get(&t.id).unwrap();
    assert_eq!(c.status, TaskStatus::Cancelled);
    assert_eq!(c.finished_at, Some(7));
    assert_eq!(c.message.as_deref(), Some("Cancelled by user"));
    assert_eq!(reg.cancel(&t.id, 8), Some(false));
    let events = reg.snapshot_events();
    assert_eq!(events.len(), 2);
    assert_eq!(events[1].status, TaskStatus::Cancelled);
    assert_eq!(events[1].message.as_deref(), Some("Cancelled"));
}

#[test]
fn cancel_session_cancels_unfinished_chats_of_the_session() {
    let mut reg = TaskRegistry::restore(vec![
        task("a", TaskStatus::Pending),
        task("b", TaskStatus::Done),
        task("c", TaskStatus::Running),
    ]);
    assert!(reg.cancel_session("p", "session-1", 9));
    assert_eq!(reg.get("a").unwrap().status, TaskStatus::Cancelled);
    assert_eq!(reg.get("b").unwrap().status, TaskStatus::Done);
    assert_eq!(reg.get("c").unwrap().message.as_deref(), Some("Cancelled by chat-cancel"));
    assert_eq!(reg.snapshot_events().len(), 2);
    assert!(!reg.cancel_session("p", "session-1", 10));
    assert!(!reg.cancel_session("other", "session-1", 10));
}

#[test]
fn restore_resumes_running_tasks_as_pending() {
    let reg = TaskRegistry::restore(vec![task("b", TaskStatus::Running), task("a", TaskStatus::Failed)]);
    let list = reg.list(None, None);
    assert_eq!(list[0].id, "a");
    assert_eq!(list[1].status, TaskStatus::Pending);
    assert!(reg.snapshot_events().is_empty());
}

#[test]
fn status_updates_are_recorded_and_logged() {
    let mut reg = TaskRegistry::new();
    let t = reg.enqueue("p", TaskKind::Enrich, "all", None, 1);
    assert!(reg.update_status(&t.id, TaskStatus::Running, None, 2));
    assert_eq!(reg.get(&t.id).unwrap().finished_at, None);
    assert!(reg.update_status(&t.id, TaskStatus::Failed, Some("not supported".to_string()), 3));
    let f = reg.get(&t.id).unwrap();
    assert_eq!(f.finished_at, Some(3));
    assert_eq!(f.message.as_deref(), Some("not supported"));
    assert!(!reg.update_status("missing", TaskStatus::Done, None, 4));
    assert_eq!(reg.events_since(2).len(), 1);
    assert_eq!(reg.events_since(0).len(), 3);
    assert_eq!(max_event_at(&reg.snapshot_events(), 0), 3);
    assert_eq!(max_event_at(&Vec::new(), 42), 42);
}

#[test]
fn event_log_keeps_only_the_newest_entries() {
    let mut reg = TaskRegistry::new();
    for i in 0..(EVENT_LOG_MAX as i64 + 10) {
        reg.enqueue("p", TaskKind::Lint, "x", None, i);
    }
    let events = reg.snapshot_events();
    assert_eq!(events.len(), EVENT_LOG_MAX);
    assert_eq!(events[0].at, 10);
    let mut log: Vec<TaskEvent> = events.clone();
    log.push(events[0].clone());
    trim_events(&mut log);
    assert_eq!(log.len(), EVENT_LOG_MAX);
    assert_eq!(log[0].at, 11);
}

#[test]
fn worker_task_id_finds_the_latest_matching_task() {
    let mut reg = TaskRegistry::new();
    reg.enqueue("p", TaskKind::Ingest, "a.md", None, 10);
    reg.enqueue("p", TaskKind::Ingest, "a.md", None, 20);
    assert_eq!(reg.worker_task_id("p", "a.md", TaskKind::Ingest), "task-ingest-20");
    assert_eq!(reg.worker_task_id("p", "b.md", TaskKind::Ingest), "");
}

#[test]
fn rescan_paths() {
    assert!(should_rescan_rel("purpose.md"));
    assert!(should_rescan_rel("Wiki/Page.MD"));
    assert!(should_rescan_rel("raw/sources/x.pdf"));
    assert!(!should_rescan_rel(".hidden"));
    assert!(!should_rescan_rel("raw/sources/.llm-wiki/x"));
    assert!(!should_rescan_rel("wiki/page.txt"));
    assert!(!should_rescan_rel(""));
}

#[test]
fn ingest_targets_split_on_commas_and_semicolons() {
    assert_eq!(ingest_targets("all"), None);
    assert_eq!(ingest_targets(""), None);
    assert_eq!(
        ingest_targets(" a.md , b.md;;c.md; "),
        Some(vec!["a.md".to_string(), "b.md".to_string(), "c.md".to_string()])
    );
}

#[test]
fn unbalanced_wikilinks_are_counted_per_line() {
    assert_eq!(unbalanced_wikilink_lines("[[a]]\n[[b\nc]]\r\n[[d"), 2);
    assert_eq!(unbalanced_wikilink_lines(""), 0);
}

#[test]
fn task_kinds_a_client_may_queue() {
    assert_eq!(parse_task_kind("lint"), Ok(TaskKind::Lint));
    assert_eq!(parse_task_kind("chat"), Err("Unsupported task kind: chat".to_string()));
}
