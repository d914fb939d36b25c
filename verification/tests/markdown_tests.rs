use mdrender::markdown::{parse_frontmatter, plan_markdown, process_callouts, render_markdown, slugify, Emit, MdEvent};

#[test]
fn test_slugify() {
    assert_eq!(slugify("Hello World!"), "hello-world");
    assert_eq!(slugify("Quick-Start Guide (v1.0)"), "quick-start-guide-v1-0");
    assert_eq!(slugify("   Spaces   "), "spaces");
}

#[test]
fn test_frontmatter() {
    let md = "---\ntitle: Test Page\ndate: 2026-09-09\ntags: [rust, cli]\n---\n# Main Heading\nContent";
    let (fm, body) = parse_frontmatter(md);
    assert_eq!(fm.title.as_deref(), Some("Test Page"));
    assert_eq!(fm.date.as_deref(), Some("2026-09-09"));
    assert_eq!(fm.tags, vec!["rust", "cli"]);
    assert!(body.starts_with("# Main Heading"));
}

#[test]
fn test_markdown_rendering() {
    let md = "# Title\n\n## Section One\n\nSome text with `inline code`.\n\n```rust\nfn main() {}\n```\n";
    let rendered = render_markdown(md, "Fallback");
    assert_eq!(rendered.title, "Title");
    assert_eq!(rendered.toc.len(), 1);
    assert_eq!(rendered.toc[0].title, "Section One");
    assert_eq!(rendered.toc[0].id, "section-one");
    assert!(rendered.html_content.contains("code-block-wrapper"));
    assert!(rendered.html_content.contains("copy-btn"));
}

#[test]
fn slugs_of_odd_text() {
    assert_eq!(slugify(""), "section");
    assert_eq!(slugify("!!!"), "section");
    assert_eq!(slugify("--a--b--"), "a-b");
    assert_eq!(slugify("Über Straße"), "Über-straße");
    assert_eq!(slugify("C++ & Rust"), "c-rust");
}

#[test]
fn frontmatter_absent_or_open() {
    let (fm, body) = parse_frontmatter("# Just text");
    assert!(fm.title.is_none() && fm.tags.is_empty());
    assert_eq!(body, "# Just text");
    let (fm, body) = parse_frontmatter("---\ntitle: Never closed\n");
    assert!(fm.title.is_none());
    assert_eq!(body, "---\ntitle: Never closed\n");
}

#[test]
fn frontmatter_quotes_and_extra_keys() {
    let md = "---\ntitle: \"Quoted\"\nauthor: 'Ann'\ndescription: Plain words\nlayout: wide\nlayout: narrow\n---\nBody";
    let (fm, body) = parse_frontmatter(md);
    assert_eq!(fm.title.as_deref(), Some("Quoted"));
    assert_eq!(fm.author.as_deref(), Some("Ann"));
    assert_eq!(fm.description.as_deref(), Some("Plain words"));
    assert_eq!(fm.extra.len(), 1);
    assert_eq!(fm.extra[0].0, "layout");
    assert_eq!(fm.extra[0].1, "narrow");
    assert_eq!(body, "Body");
}

#[test]
fn callouts_become_boxes() {
    let html = "<blockquote>\n<p>[!NOTE]\nRemember this.</p>\n</blockquote>\n";
    let out = process_callouts(html);
    assert!(out.contains("<div class=\"callout callout-note\">"));
    assert!(out.contains("<span>ℹ️</span> Note</div>"));
    assert!(out.contains("Remember this.</p>"));
    assert!(!out.contains("<blockquote>"));
    let lower = process_callouts("<blockquote>\n<p>[!tip] Hi</p>\n</blockquote>");
    assert!(lower.contains("callout-tip"));
    let brief = process_callouts("<blockquote>\n<p>[!NOTE]\nbe brief</p>\n</blockquote>");
    assert!(brief.starts_with("<div class=\"callout callout-note\">"));
    assert!(brief.contains("<p>be brief</p>"));
    let broken = process_callouts("<blockquote>\n<p>[!TIP]<br />\n<br>rules /path</p>\n</blockquote>");
    assert!(broken.ends_with("<p>rules /path</p>\n</div>"));
    let open = "<blockquote>\n<p>[!WARNING] never closed";
    assert_eq!(process_callouts(open), open);
}

#[test]
fn plan_of_headings_and_code() {
    let events = vec![
        MdEvent::HeadingStart(1),
        MdEvent::Text("Top".to_string()),
        MdEvent::HeadingEnd,
        MdEvent::HeadingStart(2),
        MdEvent::Text("Part".to_string()),
        MdEvent::HeadingEnd,
        MdEvent::HeadingStart(2),
        MdEvent::Text("Part".to_string()),
        MdEvent::HeadingEnd,
        MdEvent::CodeBlockStart(Some(" ".to_string())),
        MdEvent::Text("x".to_string()),
        MdEvent::CodeBlockEnd,
        MdEvent::Other,
    ];
    let plan = plan_markdown(&events);
    assert_eq!(plan.detected_title.as_deref(), Some("Top"));
    assert_eq!(plan.toc.len(), 2);
    assert_eq!(plan.toc[0].id, "part");
    assert_eq!(plan.toc[1].id, "part-2");
    assert_eq!(plan.toc[1].level, 2);
    let html: Vec<String> = plan
        .emits
        .iter()
        .filter_map(|e| match e {
            Emit::Html(h) => Some(h.clone()),
            Emit::Source(_) => None,
        })
        .collect();
    assert!(html[0].starts_with("<h1 id=\"top\">Top<a href=\"#top\""));
    assert!(html[3].contains("<span class=\"code-lang\">text</span>"));
    assert!(matches!(plan.emits.last(), Some(Emit::Source(12))));
}

#[test]
fn rendering_uses_frontmatter_title_and_tables() {
    let md = "---\ntitle: From Front\n---\n# Heading\n\n| a | b |\n|---|---|\n| 1 | 2 |\n\n> [!CAUTION]\n> Careful\n";
    let r = render_markdown(md, "Fallback");
    assert_eq!(r.title, "From Front");
    assert!(r.html_content.contains("<div class=\"table-wrapper\">"));
    assert!(r.html_content.contains("<table>"));
    assert!(r.html_content.contains("callout-caution"));
    let plain = render_markdown("just words", "Fallback");
    assert_eq!(plain.title, "Fallback");
    assert!(plain.toc.is_empty());
    assert_eq!(plain.html_content, "<p>just words</p>\n");
}

#[test]
fn rendering_escapes_heading_text() {
    let r = render_markdown("## A <b> & `c`\n", "F");
    assert_eq!(r.toc[0].title, "A  & c");
}

#[test]
fn slugs_are_stable() {
    for text in ["Hello World!", "Quick-Start Guide (v1.0)", "", "Über Straße", "a--b", "x_y.z"] {
        let once = slugify(text);
        assert_eq!(slugify(&once), once);
    }
}
