//! The studio's HTTP API: reading a request's first line and headers,
//! choosing what the request asks for, and the bodies of the replies.
use vstd::prelude::*;
use crate::server::{
    extract_json_string_field, extract_query_param, json_escape, json_escaped, json_string_field,
    query_param, sanitize_rel_path, sanitized_path,
};
use crate::text::{
    all_digits, ascii_lower, chars_eq, chars_of, digit_value, digits_value, find, find_char,
    is_space, is_whitespace, lemma_find_from, push_decimal, decimal, string_of_range, to_ascii_lowercase, trim,
    trim_bounds, vec_range, join, push_join, sort_asc, sort_strings, string_of, string_views, views,
};

verus! {

// ---------------------------------------------------------------------------
// The request line
// ---------------------------------------------------------------------------

/// The first index at or after `i` that holds no whitespace (or the end).
pub open spec fn skip_ws(s: Seq<char>, i: int) -> int
    decreases s.len() - i,
{
    if 0 <= i < s.len() && is_space(s[i]) {
        skip_ws(s, i + 1)
    } else {
        i
    }
}

/// The first index at or after `i` that holds whitespace (or the end).
pub open spec fn skip_word(s: Seq<char>, i: int) -> int
    decreases s.len() - i,
{
    if 0 <= i < s.len() && !is_space(s[i]) {
        skip_word(s, i + 1)
    } else {
        i
    }
}

/// The first two whitespace-separated words of a request line (the method
/// and the target), or `None` when the line has fewer than two.
pub open spec fn request_words(line: Seq<char>) -> Option<(Seq<char>, Seq<char>)> {
    let a = skip_ws(line, 0);
    let b = skip_word(line, a);
    let c = skip_ws(line, b);
    let d = skip_word(line, c);
    if c < line.len() {
        Some((line.subrange(a, b), line.subrange(c, d)))
    } else {
        None
    }
}

proof fn lemma_skip_ws(s: Seq<char>, i: int)
    requires
        0 <= i <= s.len(),
    ensures
        i <= skip_ws(s, i) <= s.len(),
        i <= skip_word(s, i) <= s.len(),
    decreases s.len() - i,
{
    if i < s.len() {
        lemma_skip_ws(s, i + 1);
    }
}

fn scan_ws(v: &Vec<char>, i: usize) -> (r: usize)
    requires
        i <= v.len(),
    ensures
        r == skip_ws(v@, i as int),
        i <= r <= v.len(),
{
    let mut j = i;
    while j < v.len() && is_whitespace(v[j])
        invariant
            i <= j <= v.len(),
            skip_ws(v@, i as int) == skip_ws(v@, j as int),
        decreases v.len() - j,
    {
        j += 1;
    }
    j
}

fn scan_word(v: &Vec<char>, i: usize) -> (r: usize)
    requires
        i <= v.len(),
    ensures
        r == skip_word(v@, i as int),
        i <= r <= v.len(),
{
    let mut j = i;
    while j < v.len() && !is_whitespace(v[j])
        invariant
            i <= j <= v.len(),
            skip_word(v@, i as int) == skip_word(v@, j as int),
        decreases v.len() - j,
    {
        j += 1;
    }
    j
}

/// Splits an HTTP request line into its method and target: its first two
/// whitespace-separated words.
pub fn parse_request_line(line: &str) -> (r: Option<(String, String)>)
    ensures
        match r {
            Some((m, t)) => request_words(line@) == Some((m@, t@)),
            None => request_words(line@) is None,
        },
{
    let v = chars_of(line);
    let a = scan_ws(&v, 0);
    let b = scan_word(&v, a);
    let c = scan_ws(&v, b);
    let d = scan_word(&v, c);
    if c < v.len() {
        Some((string_of_range(&v, a, b), string_of_range(&v, c, d)))
    } else {
        None
    }
}

// ---------------------------------------------------------------------------
// Headers
// ---------------------------------------------------------------------------

/// `str::eq_ignore_ascii_case`.
pub open spec fn eq_ignore_ascii_case(a: Seq<char>, b: Seq<char>) -> bool {
    a.len() == b.len() && forall|i: int| 0 <= i < a.len() ==> ascii_lower(#[trigger] a[i]) == ascii_lower(b[i])
}

/// `str::parse::<usize>`: an optional `+`, then one or more ASCII digits
/// whose value fits in a `usize`.
pub open spec fn parse_usize(s: Seq<char>) -> Option<usize> {
    let d = if s.len() > 0 && s[0] == '+' {
        s.drop_first()
    } else {
        s
    };
    if d.len() > 0 && all_digits(d) && digits_value(d) <= usize::MAX {
        Some(digits_value(d) as usize)
    } else {
        None
    }
}

/// What a header line tells the reader.
#[derive(Debug, PartialEq, Eq, Structural)]
pub enum HeaderLine {
    /// The blank line that ends the headers.
    End,
    /// A `Content-Length` header, with the length it gives (0 when the value
    /// is not a number).
    ContentLength(usize),
    /// Any other line.
    Other,
}

/// The meaning of a header line: blank once trimmed, a `Content-Length`
/// header (name compared without regard to ASCII case, both sides of the
/// first `:` trimmed), or something else.
pub open spec fn header_line(line: Seq<char>) -> HeaderLine {
    let t = trim(line);
    if t.len() == 0 {
        HeaderLine::End
    } else {
        match find(t, seq![':']) {
            Some(i) => if eq_ignore_ascii_case(trim(t.take(i)), "content-length"@) {
                HeaderLine::ContentLength(
                    match parse_usize(trim(t.skip(i + 1))) {
                        Some(n) => n,
                        None => 0,
                    },
                )
            } else {
                HeaderLine::Other
            },
            None => HeaderLine::Other,
        }
    }
}

fn eq_ignore_case(v: &Vec<char>, lo: usize, hi: usize, b: &Vec<char>) -> (r: bool)
    requires
        lo <= hi <= v.len(),
    ensures
        r == eq_ignore_ascii_case(v@.subrange(lo as int, hi as int), b@),
{
    if hi - lo != b.len() {
        return false;
    }
    let mut i: usize = 0;
    while i < b.len()
        invariant
            hi - lo == b.len(),
            lo <= hi <= v.len(),
            0 <= i <= b.len(),
            forall|k: int| 0 <= k < i ==> ascii_lower(v@[lo + k]) == ascii_lower(b@[k]),
        decreases b.len() - i,
    {
        if to_ascii_lowercase(v[lo + i]) != to_ascii_lowercase(b[i]) {
            assert(ascii_lower(v@.subrange(lo as int, hi as int)[i as int]) != ascii_lower(
                b@[i as int],
            ));
            return false;
        }
        i += 1;
    }
    assert forall|k: int| 0 <= k < hi - lo implies ascii_lower(
        #[trigger] v@.subrange(lo as int, hi as int)[k],
    ) == ascii_lower(b@[k]) by {
        assert(v@.subrange(lo as int, hi as int)[k] == v@[lo + k]);
    }
    true
}

/// `str::parse::<usize>` on `v[lo..hi]`.
fn parse_usize_range(v: &Vec<char>, lo: usize, hi: usize) -> (r: Option<usize>)
    requires
        lo <= hi <= v.len(),
    ensures
        r == parse_usize(v@.subrange(lo as int, hi as int)),
{
    let ghost s = v@.subrange(lo as int, hi as int);
    let mut i = lo;
    if i < hi && v[i] == '+' {
        i += 1;
    }
    let ghost d = v@.subrange(i as int, hi as int);
    assert(d == (if s.len() > 0 && s[0] == '+' {
        s.drop_first()
    } else {
        s
    }));
    if i == hi {
        return None;
    }
    let start = i;
    let mut acc: usize = 0;
    while i < hi
        invariant
            lo <= start <= i <= hi <= v.len(),
            start < hi,
            s == v@.subrange(lo as int, hi as int),
            d == (if s.len() > 0 && s[0] == '+' {
                s.drop_first()
            } else {
                s
            }),
            d == v@.subrange(start as int, hi as int),
            all_digits(v@.subrange(start as int, i as int)),
            acc == digits_value(v@.subrange(start as int, i as int)),
        decreases hi - i,
    {
        let c = v[i];
        if !('0' <= c && c <= '9') {
            assert(!crate::text::is_digit(d[i - start]));
            return None;
        }
        let ghost pre = v@.subrange(start as int, i as int);
        assert(v@.subrange(start as int, i + 1).drop_last() == pre);
        assert(v@.subrange(start as int, i + 1) == pre.push(c));
        let dv = (c as u32 - '0' as u32) as usize;
        assert(dv == digit_value(c));
        if acc > (usize::MAX - dv) / 10 {
            proof {
                lemma_digits_grow(v@.subrange(start as int, hi as int), (i - start + 1) as int);
                assert(v@.subrange(start as int, hi as int).take((i - start + 1) as int) == v@.subrange(
                    start as int,
                    i + 1,
                ));
            }
            assert(digits_value(v@.subrange(start as int, i + 1)) > usize::MAX) by (nonlinear_arith)
                requires
                    digits_value(v@.subrange(start as int, i + 1)) == acc * 10 + dv,
                    acc > (usize::MAX - dv) / 10,
                    dv < 10,
            ;
            return None;
        }
        acc = acc * 10 + dv;
        i += 1;
    }
    Some(acc)
}

/// The value of a digit string is at least that of each of its prefixes.
proof fn lemma_digits_grow(s: Seq<char>, k: int)
    requires
        0 <= k <= s.len(),
    ensures
        digits_value(s.take(k)) <= digits_value(s),
    decreases s.len() - k,
{
    if k < s.len() {
        lemma_digits_grow(s, k + 1);
        assert(s.take(k + 1).drop_last() == s.take(k));
    } else {
        assert(s.take(k) == s);
    }
}

/// Reads one header line.
pub fn parse_header_line(line: &str) -> (r: HeaderLine)
    ensures
        r == header_line(line@),
{
    let v = chars_of(line);
    let (lo, hi) = trim_bounds(&v, 0, v.len());
    assert(v@.subrange(0, v.len() as int) == v@);
    let ghost t = trim(line@);
    if lo == hi {
        return HeaderLine::End;
    }
    let tv = vec_range(&v, lo, hi);
    assert(tv@ == t);
    match find_char(&tv, ':', 0) {
        Some(i) => {
            proof {
                lemma_find_from(t, seq![':'], 0);
            }
            let (klo, khi) = trim_bounds(&tv, 0, i);
            let name = chars_of("content-length");
            assert(tv@.subrange(0, i as int) == t.take(i as int));
            if eq_ignore_case(&tv, klo, khi, &name) {
                let (vlo, vhi) = trim_bounds(&tv, i + 1, tv.len());
                assert(tv@.subrange(i + 1, tv.len() as int) == t.skip(i + 1));
                match parse_usize_range(&tv, vlo, vhi) {
                    Some(n) => HeaderLine::ContentLength(n),
                    None => HeaderLine::ContentLength(0),
                }
            } else {
                HeaderLine::Other
            }
        },
        None => HeaderLine::Other,
    }
}


// ---------------------------------------------------------------------------
// Routing
// ---------------------------------------------------------------------------

pub const CONTENT_HTML: &'static str = "text/html; charset=utf-8";

pub const CONTENT_JSON: &'static str = "application/json";

pub const CONTENT_TEXT: &'static str = "text/plain";

pub const SUCCESS_BODY: &'static str = "{\"success\":true}";

pub const INVALID_JSON_BODY: &'static str = "{\"error\":\"Invalid JSON\"}";

pub const MISSING_FOLDER_BODY: &'static str = "{\"error\":\"Missing folder\"}";

pub const FILE_NOT_FOUND_BODY: &'static str = "{\"error\":\"File not found\"}";

pub const ARCHIVE_INPUT_NOT_FOUND_BODY: &'static str = "{\"error\":\"Archive input not found\"}";

pub const OUTPUT_NOT_FOUND_BODY: &'static str = "File not found in output";

pub const NOT_FOUND_BODY: &'static str = "Not Found";

/// What a request asks the studio to do. Paths are already sanitized, so
/// that they can be joined under the folder they belong to.
pub enum Request {
    /// Serve the dashboard page.
    Dashboard,
    /// Report the input files, the number of archives and whether a site
    /// has been built.
    Status,
    /// Send a source file: its path as requested, and where it lies under
    /// the input folder.
    ReadFile { rel_path: String, target: String },
    /// Write a source file under the input folder.
    WriteFile { target: String, content: String },
    /// Delete a source file under the input folder.
    DeleteFile { target: String },
    /// Build the site.
    Build,
    /// Archive the input and output folders under the given name.
    Archive { name: String },
    /// List the archive folders.
    ListArchives,
    /// Restore the input folder of an archive folder.
    Restore { folder: String },
    /// Render Markdown for the live preview.
    Preview { markdown: String },
    /// Send a file of the built site, under the output folder.
    OutputFile { target: String },
    /// Reply at once.
    Reply { status: u16, content_type: &'static str, body: &'static str },
}

pub enum RequestView {
    Dashboard,
    Status,
    ReadFile { rel_path: Seq<char>, target: Seq<char> },
    WriteFile { target: Seq<char>, content: Seq<char> },
    DeleteFile { target: Seq<char> },
    Build,
    Archive { name: Seq<char> },
    ListArchives,
    Restore { folder: Seq<char> },
    Preview { markdown: Seq<char> },
    OutputFile { target: Seq<char> },
    Reply { status: u16, content_type: Seq<char>, body: Seq<char> },
}

impl Request {
    pub open spec fn view(&self) -> RequestView {
        match self {
            Request::Dashboard => RequestView::Dashboard,
            Request::Status => RequestView::Status,
            Request::ReadFile { rel_path, target } => RequestView::ReadFile {
                rel_path: rel_path@,
                target: target@,
            },
            Request::WriteFile { target, content } => RequestView::WriteFile {
                target: target@,
                content: content@,
            },
            Request::DeleteFile { target } => RequestView::DeleteFile { target: target@ },
            Request::Build => RequestView::Build,
            Request::Archive { name } => RequestView::Archive { name: name@ },
            Request::ListArchives => RequestView::ListArchives,
            Request::Restore { folder } => RequestView::Restore { folder: folder@ },
            Request::Preview { markdown } => RequestView::Preview { markdown: markdown@ },
            Request::OutputFile { target } => RequestView::OutputFile { target: target@ },
            Request::Reply { status, content_type, body } => RequestView::Reply {
                status: *status,
                content_type: content_type@,
                body: body@,
            },
        }
    }
}

/// The target split at its first `?` into the route and the query.
pub open spec fn split_target(t: Seq<char>) -> (Seq<char>, Seq<char>) {
    match find(t, seq!['?']) {
        Some(i) => (t.take(i), t.skip(i + 1)),
        None => (t, seq![]),
    }
}

pub open spec fn or_empty(o: Option<Seq<char>>) -> Seq<char> {
    match o {
        Some(x) => x,
        None => seq![],
    }
}

/// The file path of a `/api/file` query.
pub open spec fn query_path(query: Seq<char>) -> Seq<char> {
    or_empty(query_param(query, "path"@))
}

/// What a request with this method, target and body asks for.
pub open spec fn route_of(method: Seq<char>, target: Seq<char>, body: Seq<char>) -> RequestView {
    let route = split_target(target).0;
    let query = split_target(target).1;
    let get = method == "GET"@;
    let post = method == "POST"@;
    if get && (route == "/"@ || route == "/index.html"@) {
        RequestView::Dashboard
    } else if get && route == "/api/status"@ {
        RequestView::Status
    } else if get && route == "/api/file"@ {
        RequestView::ReadFile {
            rel_path: query_path(query),
            target: sanitized_path(query_path(query)),
        }
    } else if post && route == "/api/file"@ {
        match (json_string_field(body, "path"@), json_string_field(body, "content"@)) {
            (Some(p), Some(c)) => RequestView::WriteFile { target: sanitized_path(p), content: c },
            _ => RequestView::Reply {
                status: 400,
                content_type: CONTENT_JSON@,
                body: INVALID_JSON_BODY@,
            },
        }
    } else if method == "DELETE"@ && route == "/api/file"@ {
        RequestView::DeleteFile { target: sanitized_path(query_path(query)) }
    } else if post && route == "/api/build"@ {
        RequestView::Build
    } else if post && route == "/api/archive"@ {
        RequestView::Archive {
            name: match json_string_field(body, "name"@) {
                Some(n) => n,
                None => "Archive"@,
            },
        }
    } else if get && route == "/api/archives"@ {
        RequestView::ListArchives
    } else if post && route == "/api/restore"@ {
        match json_string_field(body, "folder"@) {
            Some(f) => RequestView::Restore { folder: sanitized_path(f) },
            None => RequestView::Reply {
                status: 400,
                content_type: CONTENT_JSON@,
                body: MISSING_FOLDER_BODY@,
            },
        }
    } else if post && route == "/api/preview"@ {
        RequestView::Preview { markdown: or_empty(json_string_field(body, "markdown"@)) }
    } else if get && route.len() >= 8 && route.take(8) == "/output/"@ {
        RequestView::OutputFile { target: sanitized_path(route.skip(8)) }
    } else {
        RequestView::Reply { status: 404, content_type: CONTENT_TEXT@, body: NOT_FOUND_BODY@ }
    }
}

/// Routing law: each route of the API, with its method, asks for what it
/// names, with the values taken from the right place: the `path` query
/// parameter for reading and deleting a file; the `path` and `content` body
/// fields for writing one (a 400 reply when either is missing); the `name`
/// field (default `Archive`) for an archive; the `folder` field for a
/// restore (a 400 reply when missing); the `markdown` field (default empty)
/// for a preview; the rest of the path after `/output/` for a built file.
pub proof fn law_api_routes(target: Seq<char>, body: Seq<char>)
    ensures
        ({
            let route = split_target(target).0;
            let query = split_target(target).1;
            let path = or_empty(query_param(query, "path"@));
            &&& (route == "/"@ || route == "/index.html"@) ==> route_of("GET"@, target, body)
                == RequestView::Dashboard
            &&& route == "/api/status"@ ==> route_of("GET"@, target, body) == RequestView::Status
            &&& route == "/api/file"@ ==> route_of("GET"@, target, body) == RequestView::ReadFile {
                rel_path: path,
                target: sanitized_path(path),
            }
            &&& route == "/api/file"@ && json_string_field(body, "path"@) is Some && json_string_field(
                body,
                "content"@,
            ) is Some ==> route_of("POST"@, target, body) == RequestView::WriteFile {
                target: sanitized_path(json_string_field(body, "path"@)->0),
                content: json_string_field(body, "content"@)->0,
            }
            &&& route == "/api/file"@ && (json_string_field(body, "path"@) is None
                || json_string_field(body, "content"@) is None) ==> route_of("POST"@, target, body)
                == RequestView::Reply {
                status: 400,
                content_type: CONTENT_JSON@,
                body: INVALID_JSON_BODY@,
            }
            &&& route == "/api/file"@ ==> route_of("DELETE"@, target, body) == RequestView::DeleteFile {
                target: sanitized_path(path),
            }
            &&& route == "/api/build"@ ==> route_of("POST"@, target, body) == RequestView::Build
            &&& route == "/api/archive"@ ==> route_of("POST"@, target, body) == RequestView::Archive {
                name: match json_string_field(body, "name"@) {
                    Some(n) => n,
                    None => "Archive"@,
                },
            }
            &&& route == "/api/archives"@ ==> route_of("GET"@, target, body)
                == RequestView::ListArchives
            &&& route == "/api/restore"@ && json_string_field(body, "folder"@) is Some ==> route_of(
                "POST"@,
                target,
                body,
            ) == RequestView::Restore { folder: sanitized_path(json_string_field(body, "folder"@)->0) }
            &&& route == "/api/restore"@ && json_string_field(body, "folder"@) is None ==> route_of(
                "POST"@,
                target,
                body,
            ) == RequestView::Reply {
                status: 400,
                content_type: CONTENT_JSON@,
                body: MISSING_FOLDER_BODY@,
            }
            &&& route == "/api/preview"@ ==> route_of("POST"@, target, body) == RequestView::Preview {
                markdown: or_empty(json_string_field(body, "markdown"@)),
            }
            &&& route.len() >= 8 && route.take(8) == "/output/"@ ==> route_of("GET"@, target, body)
                == RequestView::OutputFile { target: sanitized_path(route.skip(8)) }
        }),
{
    reveal_strlit("GET");
    reveal_strlit("POST");
    reveal_strlit("DELETE");
    reveal_strlit("/");
    reveal_strlit("/index.html");
    reveal_strlit("/api/status");
    reveal_strlit("/api/file");
    reveal_strlit("/api/build");
    reveal_strlit("/api/archive");
    reveal_strlit("/api/archives");
    reveal_strlit("/api/restore");
    reveal_strlit("/api/preview");
    reveal_strlit("/output/");
    assert("/index.html"@ != "/api/status"@) by {
        assert("/index.html"@[1] != "/api/status"@[1]);
    }
    assert("/api/archive"@ != "/api/preview"@) by {
        assert("/api/archive"@[5] != "/api/preview"@[5]);
    }
    assert("/api/restore"@ != "/api/preview"@) by {
        assert("/api/restore"@[5] != "/api/preview"@[5]);
    }
    assert("/api/restore"@ != "/api/archive"@) by {
        assert("/api/restore"@[5] != "/api/archive"@[5]);
    }
    assert("GET"@ != "POST"@) by {
        assert("GET"@.len() != "POST"@.len());
    }
    assert("GET"@ != "DELETE"@) by {
        assert("GET"@.len() != "DELETE"@.len());
    }
    assert("POST"@ != "DELETE"@) by {
        assert("POST"@.len() != "DELETE"@.len());
    }
    let route = split_target(target).0;
    if route.len() >= 8 && route.take(8) == "/output/"@ {
        assert(route[1] == route.take(8)[1]);
        assert(route[1] == 'o');
    }
}

/// Whether `v` holds exactly the characters of `lit`.
fn is_text(v: &Vec<char>, lit: &str) -> (r: bool)
    ensures
        r == (v@ == lit@),
{
    let l = chars_of(lit);
    chars_eq(v, &l)
}

/// The path that a `/api/file` query names (empty when it names none).
fn query_path_of(query: &str) -> (r: String)
    ensures
        r@ == query_path(query@),
{
    match extract_query_param(query, "path") {
        Some(p) => p,
        None => String::new(),
    }
}

/// Chooses what a request asks for, from its method, its target (path and
/// query) and its body.
pub fn route_request(method: &str, target: &str, body: &str) -> (r: Request)
    ensures
        r@ == route_of(method@, target@, body@),
{
    let mv = chars_of(method);
    let tv = chars_of(target);
    let (route, query) = match find_char(&tv, '?', 0) {
        Some(i) => {
            proof {
                lemma_find_from(tv@, seq!['?'], 0);
            }
            (vec_range(&tv, 0, i), string_of_range(&tv, i + 1, tv.len()))
        },
        None => {
            assert(tv@.subrange(0, tv.len() as int) == tv@);
            (vec_range(&tv, 0, tv.len()), String::new())
        },
    };
    assert(route@ == split_target(target@).0);
    assert(query@ == split_target(target@).1);
    let get = is_text(&mv, "GET");
    let post = is_text(&mv, "POST");
    if get && (is_text(&route, "/") || is_text(&route, "/index.html")) {
        Request::Dashboard
    } else if get && is_text(&route, "/api/status") {
        Request::Status
    } else if get && is_text(&route, "/api/file") {
        let rel_path = query_path_of(query.as_str());
        let target = sanitize_rel_path(rel_path.as_str());
        Request::ReadFile { rel_path, target }
    } else if post && is_text(&route, "/api/file") {
        let p = extract_json_string_field(body, "path");
        let c = extract_json_string_field(body, "content");
        match (p, c) {
            (Some(p), Some(c)) => Request::WriteFile {
                target: sanitize_rel_path(p.as_str()),
                content: c,
            },
            _ => Request::Reply { status: 400, content_type: CONTENT_JSON, body: INVALID_JSON_BODY },
        }
    } else if is_text(&mv, "DELETE") && is_text(&route, "/api/file") {
        let rel_path = query_path_of(query.as_str());
        Request::DeleteFile { target: sanitize_rel_path(rel_path.as_str()) }
    } else if post && is_text(&route, "/api/build") {
        Request::Build
    } else if post && is_text(&route, "/api/archive") {
        let name = match extract_json_string_field(body, "name") {
            Some(n) => n,
            None => String::from_str("Archive"),
        };
        Request::Archive { name }
    } else if get && is_text(&route, "/api/archives") {
        Request::ListArchives
    } else if post && is_text(&route, "/api/restore") {
        match extract_json_string_field(body, "folder") {
            Some(f) => Request::Restore { folder: sanitize_rel_path(f.as_str()) },
            None => Request::Reply {
                status: 400,
                content_type: CONTENT_JSON,
                body: MISSING_FOLDER_BODY,
            },
        }
    } else if post && is_text(&route, "/api/preview") {
        let markdown = match extract_json_string_field(body, "markdown") {
            Some(m) => m,
            None => String::new(),
        };
        Request::Preview { markdown }
    } else if get && route.len() >= 8 && is_text(&vec_range(&route, 0, 8), "/output/") {
        let rel = string_of_range(&route, 8, route.len());
        assert(route@.subrange(0, 8) == route@.take(8));
        assert(rel@ == route@.skip(8));
        Request::OutputFile { target: sanitize_rel_path(rel.as_str()) }
    } else {
        proof {
            if get && route.len() >= 8 {
                assert(route@.subrange(0, 8) == route@.take(8));
            }
        }
        Request::Reply { status: 404, content_type: CONTENT_TEXT, body: NOT_FOUND_BODY }
    }
}


// ---------------------------------------------------------------------------
// Replies
// ---------------------------------------------------------------------------

/// The reason phrase sent with a status code.
pub open spec fn status_text(status: u16) -> Seq<char> {
    if status == 200 {
        "OK"@
    } else if status == 400 {
        "Bad Request"@
    } else if status == 404 {
        "Not Found"@
    } else if status == 500 {
        "Internal Server Error"@
    } else {
        "Status"@
    }
}

/// The reason phrase sent with a status code.
pub fn reason_phrase(status: u16) -> (r: &'static str)
    ensures
        r@ == status_text(status),
{
    if status == 200 {
        "OK"
    } else if status == 400 {
        "Bad Request"
    } else if status == 404 {
        "Not Found"
    } else if status == 500 {
        "Internal Server Error"
    } else {
        "Status"
    }
}

/// The status line and headers of a reply, up to the blank line.
pub open spec fn response_head(status: u16, content_type: Seq<char>, body_len: nat) -> Seq<char> {
    "HTTP/1.1 "@ + decimal(status as nat) + " "@ + status_text(status) + "\r\nContent-Type: "@
        + content_type + "\r\nContent-Length: "@ + decimal(body_len)
        + "\r\nAccess-Control-Allow-Origin: *\r\nConnection: close\r\n\r\n"@
}

/// Writes the status line and headers of a reply whose body has `body_len`
/// bytes.
pub fn format_response_head(status: u16, content_type: &str, body_len: usize) -> (r: String)
    ensures
        r@ == response_head(status, content_type@, body_len as nat),
{
    let mut out = String::new();
    out.append("HTTP/1.1 ");
    push_decimal(&mut out, status as u64);
    out.append(" ");
    out.append(reason_phrase(status));
    out.append("\r\nContent-Type: ");
    out.append(content_type);
    out.append("\r\nContent-Length: ");
    push_decimal(&mut out, body_len as u64);
    out.append("\r\nAccess-Control-Allow-Origin: *\r\nConnection: close\r\n\r\n");
    out
}

/// Appends `s` JSON-escaped.
fn push_escaped(out: &mut String, s: &str)
    ensures
        final(out)@ == old(out)@ + json_escaped(s@),
{
    let e = json_escape(s);
    out.append(e.as_str());
}

/// The reply to a request for a source file.
pub open spec fn file_json(rel_path: Seq<char>, content: Seq<char>) -> Seq<char> {
    "{\"path\":\""@ + json_escaped(rel_path) + "\",\"content\":\""@ + json_escaped(content)
        + "\"}"@
}

pub fn format_file_json(rel_path: &str, content: &str) -> (r: String)
    ensures
        r@ == file_json(rel_path@, content@),
{
    let mut out = String::new();
    out.append("{\"path\":\"");
    push_escaped(&mut out, rel_path);
    out.append("\",\"content\":\"");
    push_escaped(&mut out, content);
    out.append("\"}");
    out
}

/// The reply to a build or an archive run that failed with `message`.
pub open spec fn failure_json(message: Seq<char>) -> Seq<char> {
    "{\"success\":false,\"error\":\""@ + json_escaped(message) + "\"}"@
}

pub fn format_failure_json(message: &str) -> (r: String)
    ensures
        r@ == failure_json(message@),
{
    let mut out = String::new();
    out.append("{\"success\":false,\"error\":\"");
    push_escaped(&mut out, message);
    out.append("\"}");
    out
}

/// The reply to an archive run that created `folder`.
pub open spec fn archived_json(folder: Seq<char>) -> Seq<char> {
    "{\"success\":true,\"folder\":\""@ + json_escaped(folder) + "\"}"@
}

pub fn format_archived_json(folder: &str) -> (r: String)
    ensures
        r@ == archived_json(folder@),
{
    let mut out = String::new();
    out.append("{\"success\":true,\"folder\":\"");
    push_escaped(&mut out, folder);
    out.append("\"}");
    out
}

/// The reply to a preview request.
pub open spec fn preview_json(html: Seq<char>) -> Seq<char> {
    "{\"html\":\""@ + json_escaped(html) + "\"}"@
}

pub fn format_preview_json(html: &str) -> (r: String)
    ensures
        r@ == preview_json(html@),
{
    let mut out = String::new();
    out.append("{\"html\":\"");
    push_escaped(&mut out, html);
    out.append("\"}");
    out
}

/// One entry of the archive list.
pub open spec fn folder_item(folder: Seq<char>) -> Seq<char> {
    "{\"folder\":\""@ + json_escaped(folder) + "\"}"@
}

/// The reply listing the archive folders, newest (largest name) first.
pub open spec fn archives_json(folders: Seq<Seq<char>>) -> Seq<char> {
    "{\"archives\":["@ + join(
        sort_asc(folders).reverse().map_values(|f: Seq<char>| folder_item(f)),
        ","@,
    ) + "]}"@
}

/// Lists the archive folders in descending order of their names.
pub fn format_archives_json(folders: &Vec<String>) -> (r: String)
    ensures
        r@ == archives_json(string_views(folders@)),
{
    let ghost fv = string_views(folders@);
    let mut names: Vec<Vec<char>> = Vec::new();
    let mut i: usize = 0;
    while i < folders.len()
        invariant
            0 <= i <= folders.len(),
            fv == string_views(folders@),
            views(names@) == fv.take(i as int),
        decreases folders.len() - i,
    {
        let ghost before = names@;
        let c = chars_of(folders[i].as_str());
        names.push(c);
        assert(views(names@) =~= views(before).push(c@));
        assert(fv.take(i + 1) =~= fv.take(i as int).push(fv[i as int]));
        assert(views(names@) =~= fv.take(i + 1));
        i += 1;
    }
    assert(fv.take(folders.len() as int) == fv);
    let sorted = sort_strings(names);
    let ghost sv = views(sorted@);
    let ghost want = sort_asc(fv).reverse().map_values(|f: Seq<char>| folder_item(f));
    let n = sorted.len();
    let mut items: Vec<Vec<char>> = Vec::new();
    let mut k: usize = 0;
    while k < n
        invariant
            n == sorted.len(),
            sv == views(sorted@),
            sv == sort_asc(fv),
            want == sort_asc(fv).reverse().map_values(|f: Seq<char>| folder_item(f)),
            0 <= k <= n,
            views(items@) == want.take(k as int),
        decreases n - k,
    {
        let f = string_of(&sorted[n - 1 - k]);
        let mut item = String::new();
        item.append("{\"folder\":\"");
        push_escaped(&mut item, f.as_str());
        item.append("\"}");
        assert(want[k as int] == folder_item(sv[n - 1 - k]));
        let ghost before = items@;
        let c = chars_of(item.as_str());
        items.push(c);
        assert(views(items@) =~= views(before).push(c@));
        assert(want.take(k + 1) =~= want.take(k as int).push(want[k as int]));
        assert(views(items@) =~= want.take(k + 1));
        k += 1;
    }
    assert(want.take(n as int) == want);
    let mut out = String::new();
    out.append("{\"archives\":[");
    push_join(&mut out, &items, ",");
    out.append("]}");
    out
}

/// `\` turned into `/`.
pub open spec fn forward_slashes(s: Seq<char>) -> Seq<char> {
    s.map_values(|c: char| if c == '\\' { '/' } else { c })
}

/// A source path as it appears in the status reply: slashes forward,
/// escaped and quoted.
pub open spec fn quoted_path(p: Seq<char>) -> Seq<char> {
    seq!['"'] + json_escaped(forward_slashes(p)) + seq!['"']
}

/// The status reply: the source files (sorted as quoted strings), the
/// number of archive folders, and whether the output holds an `index.html`.
pub open spec fn status_json(files: Seq<Seq<char>>, archive_count: nat, output_ready: bool) -> Seq<
    char,
> {
    "{\"input_files\":["@ + join(sort_asc(files.map_values(|f: Seq<char>| quoted_path(f))), ","@)
        + "],\"archive_count\":"@ + decimal(archive_count) + ",\"output_ready\":"@ + (if output_ready {
        "true"@
    } else {
        "false"@
    }) + "}"@
}

/// Writes the status reply from the paths of the source files relative to
/// the input folder, the number of archive folders and whether the built
/// site has an index page.
pub fn format_status_json(files: &Vec<String>, archive_count: usize, output_ready: bool) -> (r:
    String)
    ensures
        r@ == status_json(string_views(files@), archive_count as nat, output_ready),
{
    let ghost fv = string_views(files@);
    let ghost want = fv.map_values(|f: Seq<char>| quoted_path(f));
    let mut items: Vec<Vec<char>> = Vec::new();
    let mut i: usize = 0;
    while i < files.len()
        invariant
            0 <= i <= files.len(),
            fv == string_views(files@),
            want == fv.map_values(|f: Seq<char>| quoted_path(f)),
            views(items@) == want.take(i as int),
        decreases files.len() - i,
    {
        let v = chars_of(files[i].as_str());
        let mut fixed = String::new();
        let mut j: usize = 0;
        while j < v.len()
            invariant
                0 <= j <= v.len(),
                fixed@ == forward_slashes(v@.take(j as int)),
            decreases v.len() - j,
        {
            if v[j] == '\\' {
                fixed.push('/');
            } else {
                fixed.push(v[j]);
            }
            assert(v@.take(j + 1) == v@.take(j as int).push(v@[j as int]));
            j += 1;
        }
        assert(v@.take(v.len() as int) == v@);
        assert(v@ == fv[i as int]);
        let mut item = String::new();
        item.push('"');
        push_escaped(&mut item, fixed.as_str());
        item.push('"');
        assert(fixed@ == forward_slashes(fv[i as int]));
        assert(item@ == quoted_path(fv[i as int]));
        assert(want[i as int] == quoted_path(fv[i as int]));
        let ghost before = items@;
        let c = chars_of(item.as_str());
        items.push(c);
        assert(views(items@) =~= views(before).push(c@));
        assert(want.take(i + 1) =~= want.take(i as int).push(want[i as int]));
        assert(views(items@) =~= want.take(i + 1));
        i += 1;
    }
    assert(want.take(files.len() as int) == want);
    let sorted = sort_strings(items);
    let mut out = String::new();
    out.append("{\"input_files\":[");
    push_join(&mut out, &sorted, ",");
    out.append("],\"archive_count\":");
    push_decimal(&mut out, archive_count as u64);
    out.append(",\"output_ready\":");
    if output_ready {
        out.append("true");
    } else {
        out.append("false");
    }
    out.append("}");
    out
}

} // verus!
