use llm_wiki_web::search::{
    build_snippet, count_occurrences, extract_title, page_score, query_tokens, search_project_inner, title_match,
    try_build_snippet, try_search_project_inner, SearchSource,
};

fn src(path: &str, content: &str) -> SearchSource {
    SearchSource {
        path: path.to_string(),
        file_name: path.rsplit('/').next().unwrap().to_string(),
        content: content.to_string(),
    }
}

#[test]
fn titles_come_from_the_first_heading_or_the_file_name() {
    assert_eq!(extract_title("intro\n# Main Title  \n# Other", "x.md"), "Main Title");
    assert_eq!(extract_title("\u{feff}#\tTabbed", "x.md"), "Tabbed");
    assert_eq!(extract_title("no heading", "notes.md.md"), "notes");
}

#[test]
fn query_tokens_are_lowercase_words_of_two_bytes() {
    assert_eq!(query_tokens("Rust, a LANG!"), vec!["rust".to_string(), "lang".to_string()]);
    assert_eq!(query_tokens("é"), vec!["é".to_string()]);
    assert!(query_tokens("a b c").is_empty());
}

#[test]
fn occurrences_overlap_and_ignore_ascii_case() {
    assert_eq!(count_occurrences("aaaa", "aa"), 3);
    assert_eq!(count_occurrences("Rust rust RUST", "rust"), 3);
    assert_eq!(count_occurrences("abc", ""), 0);
    assert_eq!(count_occurrences("ab", "abc"), 0);
}

#[test]
fn page_score_adds_token_counts() {
    let tokens = vec!["rust".to_string(), "wiki".to_string()];
    assert_eq!(page_score("rust wiki rust", &tokens), 3);
}

#[test]
fn title_match_looks_at_the_first_heading_line() {
    assert!(title_match("text\n# Rust Notes\n", "rust"));
    assert!(!title_match("#NoSpace Rust", "rust"));
    assert!(!title_match("plain", "plain"));
}

#[test]
fn snippet_around_the_first_occurrence() {
    let content = format!("{}needle{}", "x".repeat(50), "y".repeat(100));
    let s = build_snippet(&content, "NEEDLE");
    assert_eq!(s, format!("\u{2026}{}needle{}\u{2026}", "x".repeat(40), "y".repeat(80)));
    assert_eq!(build_snippet("short needle here", "needle"), "short needle here");
}

#[test]
fn snippet_without_occurrence_is_the_first_three_lines() {
    assert_eq!(build_snippet("a\r\nb\n\nc\nd", "zzz"), "a\nb\n");
    assert_eq!(build_snippet("one\n", "zzz"), "one");
}

#[test]
fn snippet_that_would_cut_a_character_is_refused() {
    // Lower-casing `İ` takes three bytes for its two, so the window found in
    // the lower-cased page starts inside an `İ` of the page.
    let content = format!("{}xab", "İ".repeat(30));
    assert_eq!(try_build_snippet(&content, "ab"), None);
    assert!(try_search_project_inner(&[src("p.md", &content)], "ab", 5, false).is_none());
    assert!(try_search_project_inner(&[src("p.md", &content)], "ab", 5, true).is_some());
    assert_eq!(try_build_snippet("plain text", "text"), Some("plain text".to_string()));
}

#[test]
fn blank_query_is_an_error() {
    let r = search_project_inner(&[], "   ", 5, false);
    assert_eq!(r.err(), Some("query is required".to_string()));
}

#[test]
fn search_returns_matching_pages_up_to_top_k() {
    let pages = vec![
        src("a.md", "# Alpha\nabout rust"),
        src("b.md", "nothing here"),
        src("c.md", "rust and more rust"),
        src("d.md", "rust again"),
    ];
    let out = search_project_inner(&pages, "rust", 2, true).unwrap();
    assert_eq!(out.token_hits, 2);
    assert_eq!(out.results.len(), 2);
    assert_eq!(out.results[0].path, "a.md");
    assert_eq!(out.results[0].title, "Alpha");
    assert_eq!(out.results[0].score, 1);
    assert_eq!(out.results[1].path, "c.md");
    assert_eq!(out.results[1].score, 2);
    assert_eq!(out.results[1].snippet, "rust and more rust");
}

#[test]
fn title_match_alone_makes_a_hit() {
    let pages = vec![src("t.md", "# Big Topic\nbody")];
    let out = try_search_project_inner(&pages, "big topic", 5, false).unwrap().unwrap();
    assert_eq!(out.results.len(), 1);
    assert!(out.results[0].title_match);
    assert_eq!(out.results[0].score, 2);
}

#[test]
fn query_without_tokens_finds_nothing() {
    let pages = vec![src("t.md", "a b c")];
    let out = search_project_inner(&pages, "a", 5, false).unwrap();
    assert!(out.results.is_empty());
}

#[test]
fn top_k_zero_still_returns_the_first_hit() {
    let pages = vec![src("a.md", "rust"), src("b.md", "rust rust")];
    let out = search_project_inner(&pages, "rust", 0, false).unwrap();
    assert_eq!(out.results.len(), 1);
    assert_eq!(out.results[0].path, "a.md");
}
