use llm_wiki_web::http::{
    extract_type, extract_wikilinks, import_project_names, is_public_project_rel, is_skipped_archive_rel,
    is_text_content_rel, mime_from_path, parse_query, percent_decode, plan_upload, resolve_link, safe_join,
    split_url, upload_subdir,
};
use llm_wiki_web::multipart::parse_multipart;

#[test]
fn split_url_at_first_question_mark() {
    assert_eq!(split_url("/a/b?x=1?y"), ("/a/b".to_string(), "x=1?y".to_string()));
    assert_eq!(split_url("/plain"), ("/plain".to_string(), String::new()));
}

#[test]
fn percent_decoding_handles_escapes_plus_and_bad_escapes() {
    assert_eq!(percent_decode("a%20b+c"), "a b c");
    assert_eq!(percent_decode("this%2Fpath"), "this/path");
    assert_eq!(percent_decode("100%"), "100%");
    assert_eq!(percent_decode("%zz"), "%zz");
    assert_eq!(percent_decode("%ff"), "\u{fffd}");
}

#[test]
fn query_parameters_are_decoded_and_later_wins() {
    let q = parse_query("a=1&b=x%20y&&c&a=2");
    assert_eq!(q.get("a").unwrap(), "2");
    assert_eq!(q.get("b").unwrap(), "x y");
    assert_eq!(q.get("c").unwrap(), "");
    assert!(q.get("d").is_none());
}

#[test]
fn public_project_paths() {
    assert!(is_public_project_rel("wiki/page.md"));
    assert!(is_public_project_rel("/raw/sources/a.pdf"));
    assert!(is_public_project_rel("Purpose.md"));
    assert!(!is_public_project_rel("wiki/.hidden/a.md"));
    assert!(!is_public_project_rel("wiki//a.md"));
    assert!(!is_public_project_rel(".llm-wiki/review.json"));
    assert!(!is_public_project_rel("other/file.md"));
    assert!(is_public_project_rel("wiki\\page.md"));
}

#[test]
fn text_content_by_extension() {
    assert!(is_text_content_rel("wiki/Page.MD"));
    assert!(is_text_content_rel("data.json"));
    assert!(!is_text_content_rel("image.png"));
    assert!(!is_text_content_rel(".md"));
    assert!(!is_text_content_rel("noext"));
}

#[test]
fn safe_join_refuses_parent_components() {
    assert_eq!(safe_join("/root", "/wiki/a.md"), Ok("/root/wiki/a.md".to_string()));
    assert_eq!(safe_join("/root", "wiki/../../etc"), Err("Path traversal is not allowed".to_string()));
    assert_eq!(safe_join("/root", "wiki/..x/a"), Ok("/root/wiki/..x/a".to_string()));
}

#[test]
fn page_type_from_front_matter() {
    assert_eq!(extract_type("---\n  type: \"Entity\"\n---"), "entity");
    assert_eq!(extract_type("type:'Concept'"), "concept");
    assert_eq!(extract_type("# no type"), "other");
}

#[test]
fn wikilinks_are_extracted_with_aliases_dropped() {
    let links = extract_wikilinks("see [[Alpha]] and [[beta|the B]] and [[ ]] and [[open");
    assert_eq!(links, vec!["Alpha".to_string(), "beta".to_string()]);
}

#[test]
fn links_resolve_exactly_then_loosely() {
    let ids = vec!["alpha".to_string(), "big-idea".to_string(), "Mixed".to_string()];
    assert_eq!(resolve_link("alpha", &ids), Some("alpha".to_string()));
    assert_eq!(resolve_link("Big Idea", &ids), Some("big-idea".to_string()));
    assert_eq!(resolve_link("mixed", &ids), Some("Mixed".to_string()));
    assert_eq!(resolve_link("missing", &ids), None);
}

#[test]
fn mime_types_by_extension() {
    assert_eq!(mime_from_path("dist/index.HTML"), "text/html; charset=utf-8");
    assert_eq!(mime_from_path("a/b.woff2"), "font/woff2");
    assert_eq!(mime_from_path("a/b"), "application/octet-stream");
}

#[test]
fn upload_plans_refuse_bad_names_and_large_files() {
    assert_eq!(plan_upload("", 1, 10, "", "/p"), Err("Empty filename".to_string()));
    assert_eq!(plan_upload("a/b.txt", 1, 10, "", "/p"), Err("Invalid filename".to_string()));
    assert_eq!(plan_upload(".env", 1, 10, "", "/p"), Err("Invalid filename".to_string()));
    assert_eq!(plan_upload("a.txt", 11, 10, "", "/p"), Err("File exceeds max upload size (10 bytes)".to_string()));
    assert_eq!(
        plan_upload("hello.txt", 5, 10, "", "/p"),
        Ok(("raw/sources/hello.txt".to_string(), "/p/raw/sources/hello.txt".to_string()))
    );
    assert_eq!(
        plan_upload("a.txt", 5, 10, "/docs/", "/p"),
        Ok(("raw/sources/docs/a.txt".to_string(), "/p/raw/sources/docs/a.txt".to_string()))
    );
    assert_eq!(plan_upload("a.txt", 5, 10, "../x", "/p"), Err("Path traversal is not allowed".to_string()));
}

#[test]
fn upload_subdir_comes_from_the_form() {
    let body = b"--b\r\nContent-Disposition: form-data; name=\"subdir\"\r\n\r\nnotes\r\n--b--";
    assert_eq!(upload_subdir(&parse_multipart(body).unwrap()), "notes");
    let none = b"--b\r\nContent-Disposition: form-data; name=\"x\"\r\n\r\n1\r\n--b--";
    assert_eq!(upload_subdir(&parse_multipart(none).unwrap()), "");
}

#[test]
fn archive_export_skips_internal_directories() {
    assert!(is_skipped_archive_rel(".llm-wiki/review.json"));
    assert!(is_skipped_archive_rel("wiki/lancedb/x"));
    assert!(!is_skipped_archive_rel("wiki/lancedb.md"));
    assert!(!is_skipped_archive_rel("wiki/a.md"));
}

#[test]
fn import_names_need_a_non_blank_name() {
    let err = import_project_names("   ").unwrap_err();
    assert_eq!(err.status, 400);
    assert_eq!(err.message, "Project name is required");
    assert_eq!(
        import_project_names("  My/Wiki ").unwrap(),
        ("My/Wiki".to_string(), "My_Wiki".to_string())
    );
}
