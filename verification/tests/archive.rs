use llm_wiki_web::archive::{
    export_archive, import_item, next_import_item, open_import_archive, ExportEntry, ZipEntryRead,
};

fn entry(rel: &str, is_dir: bool, is_file: bool, data: &[u8]) -> ExportEntry {
    ExportEntry { rel: rel.to_string(), is_dir, is_file, data: data.to_vec() }
}

#[test]
fn export_then_import_gives_back_the_files() {
    let entries = vec![
        entry("", true, false, b""),
        entry("wiki", true, false, b""),
        entry("wiki/a.md", false, true, b"# A\nhello"),
        entry("wiki/link", false, false, b""),
        entry("purpose.md", false, true, b"why"),
    ];
    let bytes = export_archive(&entries).ok().unwrap();
    let mut archive = open_import_archive(&bytes).ok().unwrap();
    assert_eq!(archive.len(), 3);
    let dir = next_import_item(&mut archive, 0, "/data/p").ok().unwrap().unwrap();
    assert!(dir.is_dir);
    assert!(dir.path.starts_with("/data/p/wiki"));
    let file = next_import_item(&mut archive, 1, "/data/p").ok().unwrap().unwrap();
    assert!(!file.is_dir);
    assert_eq!(file.name, "wiki/a.md");
    assert_eq!(file.path, "/data/p/wiki/a.md");
    assert_eq!(file.data.ok().unwrap(), b"# A\nhello".to_vec());
    let last = next_import_item(&mut archive, 2, "/data/p/").ok().unwrap().unwrap();
    assert_eq!(last.path, "/data/p/purpose.md");
    assert_eq!(last.data.ok().unwrap(), b"why".to_vec());
}

#[test]
fn empty_export_is_still_an_archive() {
    let bytes = export_archive(&[]).ok().unwrap();
    let archive = open_import_archive(&bytes).ok().unwrap();
    assert_eq!(archive.len(), 0);
}

#[test]
fn exporting_a_name_twice_fails_at_the_start_of_the_entry() {
    let entries = vec![entry("a.md", false, true, b"1"), entry("a.md", false, true, b"2")];
    let err = export_archive(&entries).err().unwrap();
    assert_eq!(err.status, 500);
    assert!(err.message.starts_with("Failed to start archive entry: "));
}

#[test]
fn bytes_that_are_not_an_archive_are_refused() {
    let err = open_import_archive(b"not a zip").err().unwrap();
    assert_eq!(err.status, 400);
    assert!(err.message.starts_with("Invalid zip archive: "));
}

#[test]
fn import_item_outcomes() {
    let read = |name: Option<&str>| ZipEntryRead { name: name.map(|s| s.to_string()), is_dir: false, data: Ok(vec![1]) };
    assert!(import_item(Ok(read(None)), "/t").ok().unwrap().is_none());
    let e = import_item(Err("boom".to_string()), "/t").err().unwrap();
    assert_eq!((e.status, e.message.as_str()), (400, "Failed to read zip entry: boom"));
    let t = import_item(Ok(read(Some("a/../../x"))), "/t").err().unwrap();
    assert_eq!((t.status, t.message.as_str()), (400, "Path traversal is not allowed"));
    let ok = import_item(Ok(read(Some("/notes/x.md"))), "/t").ok().unwrap().unwrap();
    assert_eq!(ok.path, "/t/notes/x.md");
    assert_eq!(ok.name, "/notes/x.md");
}

#[test]
fn reading_past_the_last_entry_is_an_error() {
    let bytes = export_archive(&[entry("a.md", false, true, b"x")]).ok().unwrap();
    let mut archive = open_import_archive(&bytes).ok().unwrap();
    let err = next_import_item(&mut archive, 1, "/t").err().unwrap();
    assert_eq!(err.status, 400);
    assert!(err.message.starts_with("Failed to read zip entry: "));
    assert!(next_import_item(&mut archive, 0, "/t").ok().unwrap().is_some());
}
