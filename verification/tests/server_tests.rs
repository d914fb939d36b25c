use mdrender::server::{
    extract_json_string_field, extract_query_param, guess_mime_type, json_escape, sanitize_rel_path,
    urlencoding_decode,
};

#[test]
fn test_json_escape_and_extract() {
    let raw = "Line 1\nLine 2 with \"quotes\" and \\backslash\\";
    let escaped = json_escape(raw);
    let json = format!(r#"{{"name":"test","content":"{}"}}"#, escaped);

    assert_eq!(extract_json_string_field(&json, "name").as_deref(), Some("test"));
    assert_eq!(extract_json_string_field(&json, "content").as_deref(), Some(raw));
}

#[test]
fn test_sanitize_rel_path() {
    assert_eq!(sanitize_rel_path("guide/intro.md"), "guide/intro.md");
    assert_eq!(sanitize_rel_path("../../etc/passwd"), "etc/passwd");
    assert_eq!(sanitize_rel_path("/root/file.md"), "root/file.md");
}

#[test]
fn sanitize_decodes_and_drops_dots() {
    assert_eq!(sanitize_rel_path("a/./b/../c"), "a/b/c");
    assert_eq!(sanitize_rel_path("%2E%2E%2Fsecret"), "secret");
    assert_eq!(sanitize_rel_path("my+file.md"), "my file.md");
    assert_eq!(sanitize_rel_path(""), "");
    assert_eq!(sanitize_rel_path("//x//"), "x");
}

#[test]
fn json_escape_control_characters() {
    assert_eq!(json_escape("tab\there\r\u{1}"), "tab\\there\\r\\u0001");
    assert_eq!(json_escape("\u{1f}é"), "\\u001fé");
}

#[test]
fn json_field_edge_cases() {
    assert_eq!(extract_json_string_field("{\"a\": \"x\\u0041y\"}", "a").as_deref(), Some("xAy"));
    assert_eq!(extract_json_string_field("{\"a\":\"\\ud800z\"}", "a").as_deref(), Some("z"));
    assert_eq!(extract_json_string_field("{\"a\":\"\\q\"}", "a").as_deref(), Some("\\q"));
    assert_eq!(extract_json_string_field("{\"a\": 5}", "a"), None);
    assert_eq!(extract_json_string_field("{\"a\":\"open", "a"), None);
    assert_eq!(extract_json_string_field("{\"b\":\"x\"}", "a"), None);
    assert_eq!(extract_json_string_field("{\"a\"}", "a"), None);
}

#[test]
fn url_decoding() {
    assert_eq!(urlencoding_decode("a%20b+c"), "a b c");
    assert_eq!(urlencoding_decode("100%"), "100%");
    assert_eq!(urlencoding_decode("%zz"), "%zz");
    assert_eq!(urlencoding_decode("%41%42"), "AB");
}

#[test]
fn query_parameters() {
    assert_eq!(extract_query_param("path=guide%2Fa.md&x=1", "path").as_deref(), Some("guide/a.md"));
    assert_eq!(extract_query_param("x=1&path=b", "path").as_deref(), Some("b"));
    assert_eq!(extract_query_param("path", "path"), None);
    assert_eq!(extract_query_param("", "path"), None);
    assert_eq!(extract_query_param("path=&path=z", "path").as_deref(), Some(""));
}

#[test]
fn mime_types() {
    assert_eq!(guess_mime_type("site/index.html"), "text/html; charset=utf-8");
    assert_eq!(guess_mime_type("a.htm"), "text/html; charset=utf-8");
    assert_eq!(guess_mime_type("assets/style.css"), "text/css; charset=utf-8");
    assert_eq!(guess_mime_type("assets/theme.js"), "application/javascript; charset=utf-8");
    assert_eq!(guess_mime_type("pic.jpeg"), "image/jpeg");
    assert_eq!(guess_mime_type("data.json"), "application/json");
    assert_eq!(guess_mime_type("noext"), "application/octet-stream");
    assert_eq!(guess_mime_type(".hidden"), "application/octet-stream");
    assert_eq!(guess_mime_type("a.PNG"), "application/octet-stream");
}
