use mdrender::builder::{
    assemble_site, discover_markdown, format_section_name, format_title_from_stem,
    generate_portal_index, is_markdown_file, nav_items_of, needs_write, render_site_page,
    sort_navigation,
};

#[test]
fn section_names() {
    assert_eq!(format_section_name("getting-started/advanced"), "Getting / Started / Advanced");
    assert_eq!(format_section_name("guide"), "Guide");
    assert_eq!(format_section_name("a__b\\c"), "A / B / C");
    assert_eq!(format_section_name("ñandú"), "Ñandú");
    assert_eq!(format_section_name(""), "");
}

#[test]
fn titles_from_stems() {
    assert_eq!(format_title_from_stem("getting-started"), "Getting Started");
    assert_eq!(format_title_from_stem("my_page  name"), "My Page Name");
    assert_eq!(format_title_from_stem("ßig"), "SSig");
    assert_eq!(format_title_from_stem("--"), "");
}

#[test]
fn markdown_files() {
    assert!(is_markdown_file("guide/intro.md"));
    assert!(is_markdown_file("notes.MarkDown"));
    assert!(is_markdown_file("a.MD"));
    assert!(!is_markdown_file("image.png"));
    assert!(!is_markdown_file("README"));
    assert!(!is_markdown_file(".md"));
    assert!(!is_markdown_file("dir.md/file"));
}

#[test]
fn discovering_pages() {
    let d = discover_markdown("guide/getting-started.md", "Plain text".to_string());
    assert_eq!(d.rel_html_path, "guide/getting-started.html");
    assert_eq!(d.title, "Getting Started");
    assert_eq!(d.section, "Guide");
    let d = discover_markdown("index.md", "---\ntitle: Home\n---\n# Hi".to_string());
    assert_eq!(d.rel_html_path, "index.html");
    assert_eq!(d.title, "Home");
    assert_eq!(d.section, "General");
    let d = discover_markdown("notes.v2.markdown", String::new());
    assert_eq!(d.rel_html_path, "notes.v2.html");
    assert_eq!(d.title, "Notes.v2");
}

#[test]
fn portal_lists_pages_by_section() {
    let docs = vec![
        discover_markdown("guide/b.md", "x".to_string()),
        discover_markdown("guide/a.md", "---\ndescription: First\n---\n".to_string()),
    ];
    let portal = generate_portal_index(&docs, "Site");
    assert_eq!(portal.rel_html_path, "index.html");
    assert_eq!(portal.title, "Overview");
    assert!(portal.raw_content.starts_with("# Site\n"));
    assert!(portal.raw_content.contains("## Guide\n\n- [B](guide/b.html) - Documentation page\n- [A](guide/a.html) - First\n"));
    assert_eq!(portal.frontmatter.description.as_deref(), Some("Overview and directory for Site"));
}

#[test]
fn navigation_order() {
    let docs = vec![
        discover_markdown("zeta.md", String::new()),
        discover_markdown("guide/b.md", String::new()),
        discover_markdown("index.md", String::new()),
        discover_markdown("alpha.md", String::new()),
    ];
    let sorted = sort_navigation(docs);
    let paths: Vec<&str> = sorted.iter().map(|d| d.rel_html_path.as_str()).collect();
    assert_eq!(paths, vec!["index.html", "alpha.html", "zeta.html", "guide/b.html"]);
}

#[test]
fn site_gets_portal_first() {
    let docs = vec![
        discover_markdown("b.md", String::new()),
        discover_markdown("a.md", String::new()),
    ];
    let site = assemble_site(docs, "Docs");
    assert_eq!(site.len(), 3);
    assert_eq!(site[0].rel_html_path, "index.html");
    assert_eq!(site[0].title, "Overview");
    assert_eq!(site[1].rel_html_path, "a.html");
    let empty = assemble_site(Vec::new(), "Docs");
    assert!(empty.is_empty());
    let with_index = assemble_site(vec![discover_markdown("index.md", String::new())], "Docs");
    assert_eq!(with_index.len(), 1);
    assert_eq!(with_index[0].title, "Index");
}

#[test]
fn pages_render_with_navigation() {
    let site = assemble_site(
        vec![discover_markdown("guide/intro.md", "# Intro\n\n## Step\n".to_string())],
        "Docs",
    );
    let nav = nav_items_of(&site);
    assert_eq!(nav.len(), 2);
    assert_eq!(nav[1].section, "Guide");
    let page = render_site_page(&site[1], &nav, "Docs");
    assert!(page.contains("<title>Intro - Docs</title>"));
    assert!(page.contains("href=\"../index.html\""));
    assert!(page.contains("<h2 id=\"step\">"));
    assert!(page.contains("../assets/theme.js"));
}

#[test]
fn asset_writes() {
    assert!(needs_write(&None, b"abc"));
    assert!(!needs_write(&Some(b"abc".to_vec()), b"abc"));
    assert!(needs_write(&Some(b"abd".to_vec()), b"abc"));
    assert!(needs_write(&Some(Vec::new()), b"a"));
}

#[test]
fn asset_written_once_settles() {
    let content = b"body { color: red; }".to_vec();
    assert!(needs_write(&None, &content));
    let written = Some(content.clone());
    assert!(!needs_write(&written, &content));
}
