use llm_wiki_web::chat::{
    agent_provider_from, agent_reply, build_keyword_chat_reply, chat_turn, endpoint_from_parts, needs_fallback,
    parse_chat_response,
    provider_endpoint, provider_request_head, system_prompt, ChatPage, UrlParts,
};

fn page(rel: &str, content: &str) -> ChatPage {
    ChatPage { rel: rel.to_string(), stem: Some(rel.trim_end_matches(".md").to_string()), content: content.to_string() }
}

#[test]
fn fallback_without_a_wiki() {
    assert_eq!(
        build_keyword_chat_reply("Demo", "hi", false, &[]),
        "[keyword fallback] No wiki pages exist yet for project 'Demo'. Import sources from the Sources view to start the wiki."
    );
}

#[test]
fn fallback_lists_matching_pages_by_label() {
    let pages = vec![
        page("a.md", "# # Apples\nrust and wiki"),
        page("b.md", "nothing"),
        page("c.md", "all about RUST"),
    ];
    let reply = build_keyword_chat_reply("Demo", "Tell me about rust wiki", true, &pages);
    assert_eq!(
        reply,
        "[keyword fallback] Found 2 matching wiki page(s):\n\n- c (2 matches) \u{2014} `wiki/c.md`\n- Apples (2 matches) \u{2014} `wiki/a.md`\n"
    );
}

#[test]
fn fallback_without_matches_quotes_the_message() {
    let long = "x".repeat(100);
    let reply = build_keyword_chat_reply("Demo", &long, true, &[page("a.md", "nothing")]);
    assert_eq!(
        reply,
        format!("[keyword fallback] Searched the wiki for '{}' but found no matching pages. The headless server has no LLM; for richer answers run the desktop app.", "x".repeat(80))
    );
}

#[test]
fn fallback_keeps_at_most_five_pages() {
    let pages: Vec<ChatPage> = (0..7).map(|i| page(&format!("p{i}.md"), "rust")).collect();
    let reply = build_keyword_chat_reply("Demo", "rust", true, &pages);
    assert!(reply.starts_with("[keyword fallback] Found 5 matching wiki page(s):"));
    assert!(reply.contains("- p6 (1 matches)"));
    assert!(reply.contains("- p2 (1 matches)"));
    assert!(!reply.contains("- p1 "));
}

#[test]
fn chat_response_text_is_read_from_the_body() {
    let ok = "HTTP/1.1 200 OK\r\nContent-Type: application/json\r\n\r\n{\"choices\":[{\"message\":{\"content\":\"hello\"}}]}";
    assert_eq!(parse_chat_response(ok), Ok("hello".to_string()));
    let alt = "HTTP/1.1 200 OK\r\n\r\n{\"output\":[{\"content\":[{\"text\":\"alt\"}]}]}";
    assert_eq!(parse_chat_response(alt), Ok("alt".to_string()));
    assert_eq!(
        parse_chat_response("HTTP/1.1 500 Oops\r\nX: y\r\n\r\n{}"),
        Err("Agent HTTP error: HTTP/1.1 500 Oops".to_string())
    );
    assert_eq!(parse_chat_response("no separator"), Err("HTTP response missing body separator".to_string()));
    assert_eq!(
        parse_chat_response("HTTP/1.1 200 OK\r\n\r\n{}"),
        Err("Agent response did not include a recognised text field".to_string())
    );
    let bad = parse_chat_response("HTTP/1.1 200 OK\r\n\r\nnot json").unwrap_err();
    assert!(bad.starts_with("Agent response is not JSON: "));
}

#[test]
fn agent_reply_prefers_the_model() {
    assert_eq!(agent_reply(Some(Ok("hi".to_string())), "fb"), "hi");
    assert_eq!(agent_reply(Some(Ok("  ".to_string())), "fb"), "fb");
    assert_eq!(agent_reply(None, "fb"), "fb");
    assert_eq!(agent_reply(Some(Err("boom".to_string())), "fb"), "[agent error] boom\n\nfb");
    assert!(!needs_fallback(&Some(Ok("hi".to_string()))));
    assert!(needs_fallback(&Some(Err("x".to_string()))));
}

#[test]
fn provider_defaults() {
    assert!(agent_provider_from(Some("  ".to_string()), None, None, None).is_none());
    let p = agent_provider_from(Some("http://h".to_string()), None, Some("".to_string()), Some("OpenAI".to_string()))
        .unwrap();
    assert_eq!(p.base_url, "http://h");
    assert_eq!(p.api_key, "");
    assert_eq!(p.model, "gpt-4o-mini");
    assert_eq!(p.kind, "openai");
}

#[test]
fn provider_endpoint_reads_host_port_and_path() {
    let e = provider_endpoint("http://localhost:8080/v1/chat/completions").ok().unwrap();
    assert_eq!(e.host, "localhost");
    assert_eq!(e.port, 8080);
    assert_eq!(e.path, "/v1/chat/completions");
    let d = provider_endpoint("http://example.com").ok().unwrap();
    assert_eq!(d.host, "example.com");
    assert_eq!(d.port, 80);
    assert_eq!(d.path, "/");
}

#[test]
fn provider_endpoint_refusals() {
    assert_eq!(
        provider_endpoint("https://api.example.com/v1").err().unwrap(),
        "HTTPS agent endpoints are not yet supported by the headless web server; set LLM_WIKI_AGENT_BASE_URL to an http:// endpoint."
    );
    assert_eq!(provider_endpoint("not a url").err().unwrap(), "Invalid agent base URL: relative URL without a base");
    assert_eq!(provider_endpoint("unix:/run/agent.socket").err().unwrap(), "Agent base URL is missing a host");
}

#[test]
fn endpoint_defaults_port_and_path() {
    let parts = UrlParts { scheme: "foo".to_string(), host: Some("h".to_string()), port: None, path: String::new() };
    let e = endpoint_from_parts(Ok(parts)).ok().unwrap();
    assert_eq!((e.host.as_str(), e.port, e.path.as_str()), ("h", 443, "/"));
    let wss = UrlParts { scheme: "wss".to_string(), host: Some("h".to_string()), port: Some(1), path: "/x".to_string() };
    assert!(endpoint_from_parts(Ok(wss)).is_err());
}

#[test]
fn request_head_carries_length_and_optional_bearer() {
    assert_eq!(
        provider_request_head("/v1", "h", 42, ""),
        "POST /v1 HTTP/1.1\r\nHost: h\r\nContent-Type: application/json\r\nContent-Length: 42\r\nConnection: close\r\n\r\n"
    );
    assert_eq!(
        provider_request_head("/", "h", 0, "k"),
        "POST / HTTP/1.1\r\nHost: h\r\nContent-Type: application/json\r\nContent-Length: 0\r\nConnection: close\r\nAuthorization: Bearer k\r\n\r\n"
    );
    assert_eq!(
        system_prompt("Demo"),
        "You are the headless LLM Wiki assistant for project 'Demo'. Answer concisely and ground your reply in the project's wiki when possible."
    );
}

#[test]
fn chat_turn_prefers_payload_then_body() {
    let s = |v: &str| Some(v.to_string());
    let t = chat_turn(s("hi"), s("body"), None, s("sess-1"), 5).ok().unwrap();
    assert_eq!((t.message.as_str(), t.session.as_str()), ("hi", "sess-1"));
    let u = chat_turn(None, s("from body"), None, None, 1700000000000).ok().unwrap();
    assert_eq!((u.message.as_str(), u.session.as_str()), ("from body", "web-1700000000000"));
    assert_eq!(chat_turn(s(""), s("ignored"), None, None, 0).err().unwrap(), "Missing chat message");
    assert_eq!(chat_turn(None, None, s("x"), None, 0).err().unwrap(), "Missing chat message");
}
