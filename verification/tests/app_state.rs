use llm_wiki_web::app_state::{
    generate_id_public, log_md, normalize_project_path, sanitize_dirname_public, AppState, AppStateFile,
    ProjectEntry,
};

fn entry(id: &str, name: &str, path: &str) -> ProjectEntry {
    ProjectEntry { id: id.to_string(), name: name.to_string(), path: path.to_string(), current: false }
}

#[test]
fn empty_state_lists_nothing() {
    let state = AppState::new("/data".to_string(), AppStateFile::empty());
    assert!(state.list_projects().is_empty());
    assert_eq!(state.data_dir(), "/data");
    assert_eq!(state.projects_dir(), "/data/projects");
}

#[test]
fn registered_project_is_listed_and_current() {
    let mut state = AppState::new("/data".to_string(), AppStateFile::empty());
    let e = state.register_project("p1", "One", "/data/projects/one", true);
    assert_eq!(e.id, "p1");
    assert!(e.current);
    let list = state.list_projects();
    assert_eq!(list.len(), 1);
    assert_eq!(list[0].id, "p1");
    assert_eq!(list[0].name, "One");
    assert!(list[0].current);
    assert_eq!(state.state.current_project, "p1");
    assert_eq!(state.state.recent_projects[0].id, "p1");
}

#[test]
fn list_is_ordered_by_path_with_one_entry_per_path() {
    let mut file = AppStateFile::empty();
    file.project_registry.push(entry("a", "A", "/z"));
    file.project_registry.push(entry("b", "B", "/m"));
    file.recent_projects.push(entry("c", "C", "/m"));
    file.recent_projects.push(entry("d", "D", "/a"));
    file.current_project = "b".to_string();
    let state = AppState::new("/data".to_string(), file);
    let list = state.list_projects();
    let paths: Vec<&str> = list.iter().map(|p| p.path.as_str()).collect();
    assert_eq!(paths, vec!["/a", "/m", "/z"]);
    assert_eq!(list[1].id, "b");
    assert!(list[1].current);
    assert!(!list[0].current && !list[2].current);
}

#[test]
fn reregistering_moves_project_to_front_of_recent() {
    let mut state = AppState::new("/d".to_string(), AppStateFile::empty());
    state.register_project("x", "X", "/px", false);
    state.register_project("y", "Y", "/py", false);
    state.register_project("x", "X2", "/px", true);
    let recent: Vec<&str> = state.state.recent_projects.iter().map(|p| p.id.as_str()).collect();
    assert_eq!(recent, vec!["x", "y"]);
    assert_eq!(state.state.recent_projects[0].name, "X2");
    assert_eq!(state.state.current_project, "x");
    let pub_entry = state.register_project_public("z", "Z", "/pz", false);
    assert_eq!(pub_entry.path, "/pz");
    assert_eq!(state.state.current_project, "x");
}

#[test]
fn find_by_path_normalizes_separators_and_case() {
    let mut state = AppState::new("/d".to_string(), AppStateFile::empty());
    state.register_project("x", "X", "/Data/Projects/Round Trip", true);
    let found = state.find_project_by_path("\\data\\projects\\round trip\\").unwrap();
    assert_eq!(found.id, "x");
    assert!(state.find_project_by_path("/this/path/does/not/exist").is_none());
}

#[test]
fn set_current_project_changes_only_current() {
    let mut state = AppState::new("/d".to_string(), AppStateFile::empty());
    state.register_project("x", "X", "/px", true);
    state.set_current_project("other");
    assert_eq!(state.state.current_project, "other");
    assert!(!state.list_projects()[0].current);
}

#[test]
fn sanitize_dirname_keeps_safe_characters() {
    assert_eq!(sanitize_dirname_public("My Research"), "My Research");
    assert_eq!(sanitize_dirname_public("  a/b:c  "), "a_b_c");
    assert_eq!(sanitize_dirname_public("   "), "untitled");
    assert_eq!(sanitize_dirname_public("é"), "_");
    let d = sanitize_dirname_public("..\\evil/../x");
    assert_eq!(d, ".._evil_.._x");
    assert!(!d.contains('/') && !d.contains('\\'));
}

#[test]
fn generated_id_is_hex_of_time_and_entropy() {
    let id = generate_id_public(1, &[0xab, 0x01]);
    assert_eq!(id, format!("project-{}01ab01", "00".repeat(15)));
    assert_eq!(generate_id_public(0, &[]).len(), "project-".len() + 32);
}

#[test]
fn normalized_project_path() {
    assert_eq!(normalize_project_path("C:\\Foo\\Bar\\"), "c:/foo/bar");
}

#[test]
fn research_log_names_project_and_day() {
    assert_eq!(log_md("Wiki", "2024-01-02"), "# Research Log\n\n## 2024-01-02\n\n- Project `Wiki` created\n");
}

#[test]
fn project_registered_as_current_is_found_with_its_fields() {
    let mut state = AppState::new("/d".to_string(), AppStateFile::empty());
    state.register_project("a", "A", "/pa", true);
    state.register_project("old", "Old", "/pq", false);
    state.register_project("q", "Q", "/pq2", true);
    let found = state.find_project_by_path("/pq2").unwrap();
    assert_eq!(found.id, "q");
    assert_eq!(found.name, "Q");
    assert_eq!(found.path, "/pq2");
    assert!(found.current);
    let other = state.find_project_by_path("/pa").unwrap();
    assert!(!other.current);
}

#[test]
fn created_project_is_found_by_its_directory_path() {
    let mut state = AppState::new("/d".to_string(), AppStateFile::empty());
    state.register_project("default-id", "default", "/d/projects/default", false);
    let dir = format!("/d/projects/{}", sanitize_dirname_public("Round Trip"));
    assert_eq!(dir, "/d/projects/Round Trip");
    state.register_project("rt-id", "Round Trip", &dir, true);
    let found = state.find_project_by_path("/d/projects/round trip").unwrap();
    assert_eq!(found.name, "Round Trip");
    assert!(found.current);
    assert!(state.find_project_by_path("this/path/does/not/exist").is_none());
}

#[test]
fn reregistering_the_same_project_is_found_again() {
    let mut state = AppState::new("/d".to_string(), AppStateFile::empty());
    state.register_project("x", "X", "/px", true);
    state.register_project("y", "Y", "/py", true);
    state.register_project("x", "X2", "/px", true);
    let found = state.find_project_by_path("/px").unwrap();
    assert_eq!((found.id.as_str(), found.name.as_str(), found.current), ("x", "X2", true));
}
