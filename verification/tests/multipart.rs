use llm_wiki_web::multipart::{parse_multipart, parse_multipart_with_content_type, ParsedPart};

#[test]
fn parses_simple_text_field() {
    let body = b"--abc\r\nContent-Disposition: form-data; name=\"hello\"\r\n\r\nworld\r\n--abc--\r\n";
    let parsed = parse_multipart(body).unwrap();
    assert_eq!(parsed.files.len(), 0);
    let field = parsed.fields.get("hello").unwrap();
    assert_eq!(field.data, b"world");
}

#[test]
fn parses_file_with_filename() {
    let body = b"--abc\r\nContent-Disposition: form-data; name=\"file\"; filename=\"a.txt\"\r\nContent-Type: text/plain\r\n\r\nbody\r\n--abc--\r\n";
    let parsed = parse_multipart(body).unwrap();
    assert_eq!(parsed.files.len(), 1);
    assert_eq!(parsed.files[0].filename, "a.txt");
    assert_eq!(parsed.files[0].data, b"body");
}

#[test]
fn preserves_binary_bytes() {
    let mut body = b"--abc\r\nContent-Disposition: form-data; name=\"file\"; filename=\"x.bin\"\r\nContent-Type: application/octet-stream\r\n\r\n".to_vec();
    body.extend_from_slice(&[0u8, 1, 2, 255, 254, 0, 0]);
    body.extend_from_slice(b"\r\n--abc--\r\n");
    let parsed = parse_multipart(&body).unwrap();
    assert_eq!(parsed.files[0].data, vec![0u8, 1, 2, 255, 254, 0, 0]);
}

fn file<'a>(parts: &'a [ParsedPart], i: usize) -> &'a ParsedPart {
    &parts[i]
}

#[test]
fn content_type_header_supplies_the_boundary() {
    let body = b"--xyz\r\nContent-Disposition: form-data; name=\"a\"\r\n\r\n1\r\n--xyz\r\nContent-Disposition: form-data; name=\"f\"; filename=\"n.md\"\r\n\r\n# T\r\n--xyz--\r\n";
    let parsed =
        parse_multipart_with_content_type(body, Some("multipart/form-data; boundary=\"xyz\"")).unwrap();
    assert_eq!(parsed.files.len(), 1);
    let f = file(&parsed.files, 0);
    assert_eq!(f.name, "f");
    assert_eq!(f.filename, "n.md");
    assert_eq!(f.content_type, "application/octet-stream");
    assert_eq!(f.data, b"# T");
    assert_eq!(parsed.fields.get("a").unwrap().data, b"1");
    assert!(parsed.fields.get("f").is_none());
}

#[test]
fn later_field_replaces_earlier_one() {
    let body = b"--b\r\nContent-Disposition: form-data; name=\"k\"\r\n\r\none\r\n--b\r\nContent-Disposition: form-data; name=\"k\"\r\n\r\ntwo\r\n--b--";
    let parsed = parse_multipart(body).unwrap();
    assert_eq!(parsed.fields.get("k").unwrap().data, b"two");
}

#[test]
fn invalid_field_bytes_are_decoded_lossily() {
    let mut body = b"--b\r\nContent-Disposition: form-data; name=\"k\"\r\n\r\n".to_vec();
    body.extend_from_slice(&[b'a', 0xff, b'b']);
    body.extend_from_slice(b"\r\n--b--");
    let parsed = parse_multipart(&body).unwrap();
    assert_eq!(parsed.fields.get("k").unwrap().data, "a\u{fffd}b".as_bytes());
}

#[test]
fn missing_boundary_is_an_error() {
    let err = parse_multipart(b"no delimiter here").unwrap_err();
    assert_eq!(err.0, "No boundary found");
}

#[test]
fn boundary_marker_must_occur() {
    let err = parse_multipart_with_content_type(b"--other\r\n", Some("multipart/form-data; boundary=abc"))
        .unwrap_err();
    assert_eq!(err.0, "Boundary marker not found in body");
}

#[test]
fn part_without_blank_line_is_an_error() {
    let err = parse_multipart(b"--abc\r\nContent-Disposition: form-data; name=\"x\"\r\n--abc--").unwrap_err();
    assert_eq!(err.0, "Missing header terminator");
}

#[test]
fn invalid_header_bytes_are_an_error() {
    let mut body = b"--abc\r\nX: ".to_vec();
    body.push(0xff);
    body.extend_from_slice(b"\r\n\r\ndata\r\n--abc--");
    let err = parse_multipart(&body).unwrap_err();
    assert!(err.0.starts_with("Invalid header UTF-8: "));
}

#[test]
fn boundary_found_in_body_text() {
    let body = b"boundary=q\r\n--q\r\nContent-Disposition: form-data; name=\"n\"\r\n\r\nv\r\n--q--";
    let parsed = parse_multipart(body).unwrap();
    assert_eq!(parsed.fields.get("n").unwrap().data, b"v");
}
