use llm_wiki_web::http::parse_query;
use llm_wiki_web::params::{
    events_query, file_listing_query, graph_query, new_project_request, review_query, search_top_k,
};

#[test]
fn file_listing_defaults_and_clamps() {
    let d = file_listing_query(&parse_query(""));
    assert_eq!((d.root.as_str(), d.recursive, d.max_files), ("wiki", true, 2000));
    let q = file_listing_query(&parse_query("root=raw&recursive=false&maxFiles=999999"));
    assert_eq!((q.root.as_str(), q.recursive, q.max_files), ("raw", false, 10000));
    let z = file_listing_query(&parse_query("recursive=no&maxFiles=0"));
    assert_eq!((z.recursive, z.max_files), (true, 1));
    let bad = file_listing_query(&parse_query("maxFiles=lots"));
    assert_eq!(bad.max_files, 2000);
}

#[test]
fn review_listing_defaults_and_clamps() {
    let d = review_query(&parse_query(""));
    assert_eq!((d.status.as_str(), d.item_type.clone(), d.limit), ("unresolved", None, 200));
    let q = review_query(&parse_query("status=all&type=missing-page&limit=5000"));
    assert_eq!((q.status.as_str(), q.item_type.as_deref(), q.limit), ("all", Some("missing-page"), 1000));
}

#[test]
fn graph_filters_are_lower_cased() {
    let q = graph_query(&parse_query("q=Rust&nodeType=Concept&limit=0"));
    assert_eq!(q.q.as_deref(), Some("rust"));
    assert_eq!(q.node_type.as_deref(), Some("concept"));
    assert_eq!(q.limit, 1);
    let d = graph_query(&parse_query(""));
    assert_eq!((d.q, d.node_type, d.limit), (None, None, 200));
}

#[test]
fn events_poll_defaults_and_cap() {
    let d = events_query(&parse_query(""));
    assert_eq!((d.since, d.wait_ms), (0, 0));
    let q = events_query(&parse_query("since=-5&wait=60000"));
    assert_eq!((q.since, q.wait_ms), (-5, 25000));
    let bad = events_query(&parse_query("since=x&wait=y"));
    assert_eq!((bad.since, bad.wait_ms), (0, 0));
}

#[test]
fn search_top_k_defaults_and_clamps() {
    assert_eq!(search_top_k(None), 10);
    assert_eq!(search_top_k(Some(0)), 1);
    assert_eq!(search_top_k(Some(7)), 7);
    assert_eq!(search_top_k(Some(500)), 50);
}

#[test]
fn new_project_names_are_trimmed_and_required() {
    assert_eq!(new_project_request(None, None).err().unwrap(), "Missing 'name'");
    assert_eq!(new_project_request(Some("   ".to_string()), None).err().unwrap(), "Project name must not be empty");
    let p = new_project_request(Some("  My Wiki ".to_string()), Some("  ".to_string())).ok().unwrap();
    assert_eq!((p.name.as_str(), p.id), ("My Wiki", None));
    let q = new_project_request(Some("A".to_string()), Some(" id-1 ".to_string())).ok().unwrap();
    assert_eq!(q.id.as_deref(), Some("id-1"));
}
