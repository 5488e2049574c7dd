use llm_wiki_web::watcher::path_within;
use llm_wiki_web::app_state::ProjectEntry;
use llm_wiki_web::watcher::{find_project_for_path, should_handle, Debouncer};

#[test]
fn documents_are_handled_but_internal_files_are_not() {
    assert!(should_handle("/d/p/raw/sources/Report.PDF"));
    assert!(should_handle("/d/p/wiki/page.md"));
    assert!(!should_handle("/d/p/wiki/image.png"));
    assert!(!should_handle("/d/p/.llm-wiki/x.md"));
    assert!(!should_handle("/d/p/LanceDB/t.md"));
}

#[test]
fn changed_file_belongs_to_the_first_project_prefix() {
    let projects = vec![
        ProjectEntry { id: "a".into(), name: "A".into(), path: "/D/Proj".into(), current: false },
        ProjectEntry { id: "b".into(), name: "B".into(), path: "/d/other".into(), current: false },
    ];
    assert_eq!(find_project_for_path(&projects, "/d/proj/wiki/x.md").unwrap().id, "a");
    assert_eq!(find_project_for_path(&projects, "/d/other/").unwrap().id, "b");
    assert!(find_project_for_path(&projects, "/elsewhere").is_none());
}

#[test]
fn repeated_changes_within_the_window_are_debounced() {
    let mut d = Debouncer::new();
    assert!(!d.should_debounce("/d/p/a.md", 1000));
    assert!(d.should_debounce("/d/p//a.md", 1500));
    assert!(!d.should_debounce("/d/p/b.md", 1500));
    assert!(!d.should_debounce("/d/p/a.md", 1750));
    assert!(d.should_debounce("/d/p/a.md", 2000));
}

#[test]
fn containment_goes_by_whole_components() {
    assert!(path_within("/data/projects/a/wiki/x.md", "/data/projects/a"));
    assert!(path_within("/data/projects/a", "/data/projects/a/"));
    assert!(!path_within("/data/projects/ab/x.md", "/data/projects/a"));
    assert!(!path_within("/etc/passwd", "/data/projects/a"));
    assert!(!path_within("data/projects/a/x", "/data/projects/a"));
    assert!(path_within("/data//projects/./a/x", "/data/projects/a"));
    assert!(path_within("/anything", ""));
}
