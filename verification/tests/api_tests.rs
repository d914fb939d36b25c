use mdrender::api::{
    format_archived_json, format_archives_json, format_failure_json, format_file_json,
    format_preview_json, format_response_head, format_status_json, parse_header_line,
    parse_request_line, reason_phrase, route_request, HeaderLine, Request, CONTENT_JSON,
    INVALID_JSON_BODY, MISSING_FOLDER_BODY, NOT_FOUND_BODY,
};

#[test]
fn request_line_words() {
    let (m, t) = parse_request_line("GET /api/status HTTP/1.1\r\n").unwrap();
    assert_eq!(m, "GET");
    assert_eq!(t, "/api/status");
    let (m, t) = parse_request_line("  POST\t/x  ").unwrap();
    assert_eq!((m.as_str(), t.as_str()), ("POST", "/x"));
    assert!(parse_request_line("GET").is_none());
    assert!(parse_request_line("   \r\n").is_none());
}

#[test]
fn header_lines() {
    assert_eq!(parse_header_line("\r\n"), HeaderLine::End);
    assert_eq!(parse_header_line("Content-Length: 42\r\n"), HeaderLine::ContentLength(42));
    assert_eq!(parse_header_line("content-LENGTH:+7"), HeaderLine::ContentLength(7));
    assert_eq!(parse_header_line("Content-Length: abc"), HeaderLine::ContentLength(0));
    assert_eq!(parse_header_line("Content-Length: 99999999999999999999999"), HeaderLine::ContentLength(0));
    assert_eq!(parse_header_line("Content-Length: -1"), HeaderLine::ContentLength(0));
    assert_eq!(parse_header_line("Host: x:1"), HeaderLine::Other);
    assert_eq!(parse_header_line("no colon"), HeaderLine::Other);
}

#[test]
fn routes_without_body() {
    assert!(matches!(route_request("GET", "/", ""), Request::Dashboard));
    assert!(matches!(route_request("GET", "/index.html?x=1", ""), Request::Dashboard));
    assert!(matches!(route_request("GET", "/api/status", ""), Request::Status));
    assert!(matches!(route_request("POST", "/api/build", ""), Request::Build));
    assert!(matches!(route_request("GET", "/api/archives", ""), Request::ListArchives));
    match route_request("GET", "/api/file?path=..%2Fguide%2Fa.md", "") {
        Request::ReadFile { rel_path, target } => {
            assert_eq!(rel_path, "../guide/a.md");
            assert_eq!(target, "guide/a.md");
        }
        _ => panic!("expected a file read"),
    }
    match route_request("DELETE", "/api/file?path=x.md", "") {
        Request::DeleteFile { target } => assert_eq!(target, "x.md"),
        _ => panic!("expected a delete"),
    }
    match route_request("GET", "/output/guide/../a.html", "") {
        Request::OutputFile { target } => assert_eq!(target, "guide/a.html"),
        _ => panic!("expected an output file"),
    }
    match route_request("POST", "/", "") {
        Request::Reply { status, content_type, body } => {
            assert_eq!(status, 404);
            assert_eq!(content_type, "text/plain");
            assert_eq!(body, NOT_FOUND_BODY);
        }
        _ => panic!("expected not found"),
    }
    assert!(matches!(route_request("GET", "/output", ""), Request::Reply { status: 404, .. }));
}

#[test]
fn routes_with_body() {
    match route_request("POST", "/api/file", "{\"path\":\"a/b.md\",\"content\":\"# Hi\\n\"}") {
        Request::WriteFile { target, content } => {
            assert_eq!(target, "a/b.md");
            assert_eq!(content, "# Hi\n");
        }
        _ => panic!("expected a write"),
    }
    match route_request("POST", "/api/file", "{\"path\":\"a.md\"}") {
        Request::Reply { status, content_type, body } => {
            assert_eq!(status, 400);
            assert_eq!(content_type, CONTENT_JSON);
            assert_eq!(body, INVALID_JSON_BODY);
        }
        _ => panic!("expected a bad request"),
    }
    match route_request("POST", "/api/archive", "{}") {
        Request::Archive { name } => assert_eq!(name, "Archive"),
        _ => panic!("expected an archive"),
    }
    match route_request("POST", "/api/archive", "{\"name\":\"Notes\"}") {
        Request::Archive { name } => assert_eq!(name, "Notes"),
        _ => panic!("expected an archive"),
    }
    match route_request("POST", "/api/restore", "{\"folder\":\"../003_X\"}") {
        Request::Restore { folder } => assert_eq!(folder, "003_X"),
        _ => panic!("expected a restore"),
    }
    match route_request("POST", "/api/restore", "") {
        Request::Reply { status, body, .. } => {
            assert_eq!(status, 400);
            assert_eq!(body, MISSING_FOLDER_BODY);
        }
        _ => panic!("expected a bad request"),
    }
    match route_request("POST", "/api/preview", "{}") {
        Request::Preview { markdown } => assert_eq!(markdown, ""),
        _ => panic!("expected a preview"),
    }
}

#[test]
fn response_heads() {
    assert_eq!(reason_phrase(500), "Internal Server Error");
    assert_eq!(reason_phrase(302), "Status");
    assert_eq!(
        format_response_head(404, "text/plain", 9),
        "HTTP/1.1 404 Not Found\r\nContent-Type: text/plain\r\nContent-Length: 9\r\nAccess-Control-Allow-Origin: *\r\nConnection: close\r\n\r\n"
    );
}

#[test]
fn json_replies() {
    assert_eq!(format_file_json("a\"b.md", "x\ny"), "{\"path\":\"a\\\"b.md\",\"content\":\"x\\ny\"}");
    assert_eq!(format_failure_json("bad \\ path"), "{\"success\":false,\"error\":\"bad \\\\ path\"}");
    assert_eq!(format_archived_json("003_X"), "{\"success\":true,\"folder\":\"003_X\"}");
    assert_eq!(format_preview_json("<p>\"hi\"</p>\n"), "{\"html\":\"<p>\\\"hi\\\"</p>\\n\"}");
}

#[test]
fn archive_list_newest_first() {
    let folders = vec!["002_B".to_string(), "010_C".to_string(), "001_A".to_string()];
    assert_eq!(
        format_archives_json(&folders),
        "{\"archives\":[{\"folder\":\"010_C\"},{\"folder\":\"002_B\"},{\"folder\":\"001_A\"}]}"
    );
    let none: Vec<String> = vec![];
    assert_eq!(format_archives_json(&none), "{\"archives\":[]}");
}

#[test]
fn status_reply() {
    let files = vec!["guide\\b.md".to_string(), "a.md".to_string(), "guide/a.md".to_string()];
    assert_eq!(
        format_status_json(&files, 2, true),
        "{\"input_files\":[\"a.md\",\"guide/a.md\",\"guide/b.md\"],\"archive_count\":2,\"output_ready\":true}"
    );
    let none: Vec<String> = vec![];
    assert_eq!(
        format_status_json(&none, 0, false),
        "{\"input_files\":[],\"archive_count\":0,\"output_ready\":false}"
    );
}
