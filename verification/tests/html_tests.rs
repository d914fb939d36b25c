use mdrender::html::{compute_assets_prefix, compute_relative_link, html_escape, render_html_page, NavItem, PageContext};
use mdrender::markdown::{FrontMatter, TocItem};

#[test]
fn test_assets_prefix() {
    assert_eq!(compute_assets_prefix("index.html"), "./assets/");
    assert_eq!(compute_assets_prefix("guide/intro.html"), "../assets/");
    assert_eq!(compute_assets_prefix("a/b/c.html"), "../../assets/");
}

#[test]
fn test_relative_link() {
    assert_eq!(compute_relative_link("index.html", "index.html"), "#");
    assert_eq!(
        compute_relative_link("guide/getting-started.html", "index.html"),
        "../index.html"
    );
    assert_eq!(
        compute_relative_link("index.html", "guide/getting-started.html"),
        "guide/getting-started.html"
    );
    assert_eq!(compute_relative_link("guide/a.html", "guide/b.html"), "b.html");
}

#[test]
fn relative_link_between_folders() {
    assert_eq!(compute_relative_link("a/b/c.html", "a/d/e.html"), "../d/e.html");
    assert_eq!(compute_relative_link("a/b/c.html", "x.html"), "../../x.html");
    assert_eq!(compute_relative_link("guide/a.html", "guide"), ".");
}

#[test]
fn assets_prefix_ignores_dot_segments() {
    assert_eq!(compute_assets_prefix("./a/b.html"), "../../assets/");
    assert_eq!(compute_assets_prefix("a//b.html"), "../assets/");
}

#[test]
fn escaping_html() {
    assert_eq!(html_escape("<a href=\"x\">Tom & Jerry's</a>"), "&lt;a href=&quot;x&quot;&gt;Tom &amp; Jerry&#39;s&lt;/a&gt;");
    assert_eq!(html_escape("plain"), "plain");
}

fn item(title: &str, path: &str, section: &str) -> NavItem {
    NavItem { title: title.to_string(), rel_html_path: path.to_string(), section: section.to_string() }
}

#[test]
fn page_holds_navigation_and_content() {
    let mut fm = FrontMatter::empty();
    fm.description = Some("About <things>".to_string());
    fm.tags = vec!["rust".to_string()];
    let toc = vec![TocItem { level: 2, title: "Part".to_string(), id: "part".to_string() }];
    let nav = vec![
        item("Overview", "index.html", "General"),
        item("Intro", "guide/intro.html", "Guide"),
    ];
    let ctx = PageContext {
        site_title: "Docs",
        page_title: "Intro",
        frontmatter: &fm,
        content_html: "<p>Body</p>",
        toc: &toc,
        current_rel_path: "guide/intro.html",
        nav_items: &nav,
    };
    let page = render_html_page(&ctx);
    assert!(page.contains("<p>Body</p>"));
    assert!(page.contains("../assets/style.css"));
    assert!(page.contains("href=\"../index.html\""));
    assert!(page.contains("href=\"#part\""));
    assert!(page.contains("About &lt;things&gt;"));
    assert!(page.contains("rust"));
    assert!(page.contains(" active"));
    assert!(page.find(">General<").unwrap() < page.find(">Guide<").unwrap());
}
