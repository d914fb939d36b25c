//! The site: which files are pages, their titles, sections and output
//! paths, the generated index portal, the navigation order, and the pages
//! themselves.
use vstd::prelude::*;
use crate::html::{
    html_escaped, law_page_title_first, page_html, render_html_page, NavItem, PageContext, PAGE_HEAD,
    PAGE_TITLE_END, PAGE_TITLE_SEP,
};
use crate::markdown::{
    callouts, front_matter_of, markdown_events, page_title, parse_frontmatter, plan_events,
    planned_html, render_markdown, FrontMatter, FrontMatterView, PAGE_OPTIONS,
};
use crate::server::{last_index_of, lemma_last_index_of, rfind_char};
use crate::text::{
    chars_eq, chars_of, is_space, is_whitespace, join, lex_less, lex_lt, lower_of, split_by, split_seps, string_of,
    string_of_range, to_lowercase, to_uppercase, upper_of, vec_range, views,
};

verus! {

// ---------------------------------------------------------------------------
// Names
// ---------------------------------------------------------------------------

/// A word with its first character uppercased (`char::to_uppercase`).
pub open spec fn capitalized(w: Seq<char>) -> Seq<char> {
    if w.len() == 0 {
        seq![]
    } else {
        upper_of(w[0]) + w.drop_first()
    }
}

/// The non-empty pieces, each capitalized.
pub open spec fn capitalized_words(pieces: Seq<Seq<char>>) -> Seq<Seq<char>>
    decreases pieces.len(),
{
    if pieces.len() == 0 {
        seq![]
    } else if pieces.last().len() == 0 {
        capitalized_words(pieces.drop_last())
    } else {
        capitalized_words(pieces.drop_last()).push(capitalized(pieces.last()))
    }
}

/// The section name of a folder path: split at `/`, `\`, `-` and `_`, empty
/// pieces dropped, each piece capitalized, joined with ` / `.
pub open spec fn section_name(s: Seq<char>) -> Seq<char> {
    join(capitalized_words(split_seps(s, seq!['/', '\\', '-', '_'])), " / "@)
}

/// A separator of title words: whitespace, `-` or `_`.
pub open spec fn title_sep(c: char) -> bool {
    is_space(c) || c == '-' || c == '_'
}

/// The pieces of `s` between title separators, empty pieces included.
pub open spec fn title_pieces(s: Seq<char>) -> Seq<Seq<char>>
    decreases s.len(),
{
    if s.len() == 0 {
        seq![seq![]]
    } else {
        let rest = title_pieces(s.drop_last());
        if title_sep(s.last()) {
            rest.push(seq![])
        } else {
            rest.update(rest.len() - 1, rest.last().push(s.last()))
        }
    }
}

/// The title made from a file stem: `-` and `_` read as spaces, split into
/// words at whitespace, each word capitalized, joined with single spaces.
pub open spec fn title_from_stem(stem: Seq<char>) -> Seq<char> {
    join(capitalized_words(title_pieces(stem)), " "@)
}

proof fn lemma_title_pieces_nonempty(s: Seq<char>)
    ensures
        title_pieces(s).len() > 0,
    decreases s.len(),
{
    if s.len() > 0 {
        lemma_title_pieces_nonempty(s.drop_last());
    }
}

/// Appends the capitalized form of a non-empty word.
fn push_capitalized(out: &mut String, w: &Vec<char>)
    requires
        w.len() > 0,
    ensures
        final(out)@ == old(out)@ + capitalized(w@),
{
    let up = to_uppercase(w[0]);
    out.append(up.as_str());
    crate::text::push_range(out, w, 1, w.len());
    assert(w@.subrange(1, w.len() as int) =~= w@.drop_first());
    assert(final(out)@ =~= old(out)@ + capitalized(w@));
}

/// Joins the capitalized non-empty pieces with `sep`.
fn join_capitalized(pieces: &Vec<Vec<char>>, sep: &str) -> (r: String)
    ensures
        r@ == join(capitalized_words(views(pieces@)), sep@),
{
    let ghost ps = views(pieces@);
    let mut out = String::new();
    let mut first = true;
    let mut i: usize = 0;
    assert(ps.take(0) =~= Seq::<Seq<char>>::empty());
    while i < pieces.len()
        invariant
            0 <= i <= pieces.len(),
            ps == views(pieces@),
            out@ == join(capitalized_words(ps.take(i as int)), sep@),
            first <==> capitalized_words(ps.take(i as int)).len() == 0,
        decreases pieces.len() - i,
    {
        assert(ps.take(i + 1).drop_last() =~= ps.take(i as int));
        assert(ps.take(i + 1).last() == pieces@[i as int]@);
        let w = &pieces[i];
        if w.len() > 0 {
            let ghost words = capitalized_words(ps.take(i as int));
            if !first {
                out.append(sep);
            }
            push_capitalized(&mut out, w);
            proof {
                let nw = words.push(capitalized(w@));
                assert(nw.drop_last() =~= words);
                if words.len() == 0 {
                    assert(out@ =~= join(nw, sep@));
                }
            }
            first = false;
        }
        i += 1;
    }
    assert(ps.take(pieces.len() as int) =~= ps);
    out
}

/// Formats a folder path as a section name, e.g. `getting-started/advanced`
/// gives `Getting / Started / Advanced`.
pub fn format_section_name(s: &str) -> (r: String)
    ensures
        r@ == section_name(s@),
{
    let v = chars_of(s);
    let seps = vec!['/', '\\', '-', '_'];
    assert(seps@ =~= seq!['/', '\\', '-', '_']);
    let pieces = split_by(&v, &seps);
    join_capitalized(&pieces, " / ")
}

/// The pieces of `v` between title separators.
fn split_title(v: &Vec<char>) -> (r: Vec<Vec<char>>)
    ensures
        views(r@) == title_pieces(v@),
{
    let mut out: Vec<Vec<char>> = Vec::new();
    out.push(Vec::new());
    let mut i: usize = 0;
    assert(v@.take(0) =~= Seq::<char>::empty());
    assert(views(out@) =~= seq![Seq::<char>::empty()]);
    while i < v.len()
        invariant
            0 <= i <= v.len(),
            out.len() > 0,
            views(out@) == title_pieces(v@.take(i as int)),
        decreases v.len() - i,
    {
        assert(v@.take(i + 1).drop_last() =~= v@.take(i as int));
        let c = v[i];
        let ghost before = views(out@);
        if is_whitespace(c) || c == '-' || c == '_' {
            out.push(Vec::new());
            assert(views(out@) =~= before.push(seq![]));
        } else {
            let last = out.len() - 1;
            let mut w = out.pop().unwrap();
            w.push(c);
            out.push(w);
            assert(views(out@) =~= before.update(last as int, before.last().push(c)));
        }
        i += 1;
    }
    assert(v@.take(v.len() as int) =~= v@);
    out
}

/// Makes a title from a file stem, e.g. `getting-started` gives
/// `Getting Started`.
pub fn format_title_from_stem(stem: &str) -> (r: String)
    ensures
        r@ == title_from_stem(stem@),
{
    let v = chars_of(stem);
    let pieces = split_title(&v);
    join_capitalized(&pieces, " ")
}

} // verus!

verus! {

// ---------------------------------------------------------------------------
// Pages
// ---------------------------------------------------------------------------

/// A markdown page found in the input folder.
pub struct DiscoveredMarkdown {
    /// The page's path relative to the input folder, `/`-separated.
    pub rel_md_path: String,
    /// The output path, e.g. `guide/intro.html`.
    pub rel_html_path: String,
    pub raw_content: String,
    pub title: String,
    pub section: String,
    pub frontmatter: FrontMatter,
}

pub struct DocView {
    pub rel_md_path: Seq<char>,
    pub rel_html_path: Seq<char>,
    pub raw_content: Seq<char>,
    pub title: Seq<char>,
    pub section: Seq<char>,
    pub frontmatter: FrontMatterView,
}

impl DiscoveredMarkdown {
    pub open spec fn view(&self) -> DocView {
        DocView {
            rel_md_path: self.rel_md_path@,
            rel_html_path: self.rel_html_path@,
            raw_content: self.raw_content@,
            title: self.title@,
            section: self.section@,
            frontmatter: self.frontmatter.view(),
        }
    }
}

pub open spec fn doc_views(v: Seq<DiscoveredMarkdown>) -> Seq<DocView> {
    v.map_values(|d: DiscoveredMarkdown| d.view())
}

/// The file name of a `/`-separated path: what follows its last `/`.
pub open spec fn base_name(p: Seq<char>) -> Seq<char> {
    match last_index_of(p, '/') {
        Some(k) => p.skip(k + 1),
        None => p,
    }
}

/// The index in `base_name(p)` of the dot that starts its extension: the
/// last `.`, unless that dot starts the name.
pub open spec fn name_dot(p: Seq<char>) -> Option<int> {
    match last_index_of(base_name(p), '.') {
        Some(k) => if k > 0 {
            Some(k)
        } else {
            None
        },
        None => None,
    }
}

/// `Path::extension` of a relative path that ends with its file name.
pub open spec fn file_extension(p: Seq<char>) -> Option<Seq<char>> {
    match name_dot(p) {
        Some(k) => Some(base_name(p).skip(k + 1)),
        None => None,
    }
}

/// `Path::file_stem` of a relative path that ends with its file name.
pub open spec fn file_stem(p: Seq<char>) -> Seq<char> {
    match name_dot(p) {
        Some(k) => base_name(p).take(k),
        None => base_name(p),
    }
}

/// Whether a file is a page: its extension, lowercased, is `md` or `markdown`.
pub open spec fn is_markdown_path(rel_path: Seq<char>) -> bool {
    match file_extension(rel_path) {
        Some(e) => lower_of(e) == "md"@ || lower_of(e) == "markdown"@,
        None => false,
    }
}

/// The part of a `/`-separated path before its last `/` (empty without one).
pub open spec fn parent_text(p: Seq<char>) -> Seq<char> {
    match last_index_of(p, '/') {
        Some(k) => p.take(k),
        None => seq![],
    }
}

/// The output path of a page (`PathBuf::with_extension("html")`): the
/// extension replaced by `html`, or added when there is none; backslashes
/// then turned into `/`.
pub open spec fn html_path_of(p: Seq<char>) -> Seq<char> {
    let swapped = match name_dot(p) {
        Some(k) => p.take(p.len() - base_name(p).len() + k) + ".html"@,
        None => p + ".html"@,
    };
    swapped.map_values(|c: char| if c == '\\' { '/' } else { c })
}

/// Where the file name of `p` starts, and the index in `p` of the dot that
/// starts its extension.
fn name_parts(p: &Vec<char>) -> (r: (usize, Option<usize>))
    ensures
        r.0 <= p.len(),
        base_name(p@) == p@.skip(r.0 as int),
        match name_dot(p@) {
            Some(k) => r.1 == Some((r.0 + k) as usize) && r.0 + k < p.len(),
            None => r.1 is None,
        },
{
    proof {
        lemma_last_index_of(p@, '/');
    }
    let start = match rfind_char(p, '/') {
        Some(k) => k + 1,
        None => 0,
    };
    assert(p@.skip(0) =~= p@);
    let name = vec_range(p, start, p.len());
    assert(name@ =~= p@.skip(start as int));
    proof {
        lemma_last_index_of(name@, '.');
    }
    match rfind_char(&name, '.') {
        Some(k) => {
            if k > 0 {
                (start, Some(start + k))
            } else {
                (start, None)
            }
        },
        None => (start, None),
    }
}

/// Whether the file at `rel_path` is a markdown page.
pub fn is_markdown_file(rel_path: &str) -> (r: bool)
    ensures
        r == is_markdown_path(rel_path@),
{
    let p = chars_of(rel_path);
    let (start, dot) = name_parts(&p);
    match dot {
        Some(d) => {
            let es = string_of_range(&p, d + 1, p.len());
            assert(es@ =~= base_name(p@).skip(name_dot(p@)->0 + 1));
            let lower = to_lowercase(es.as_str());
            let lv = chars_of(lower.as_str());
            let md = chars_of("md");
            let markdown = chars_of("markdown");
            chars_eq(&lv, &md) || chars_eq(&lv, &markdown)
        },
        None => false,
    }
}

/// The section of a page: `General` at the top level, else the section name
/// of its folder.
pub open spec fn section_of(rel_path: Seq<char>) -> Seq<char> {
    if parent_text(rel_path).len() == 0 {
        "General"@
    } else {
        section_name(parent_text(rel_path))
    }
}

/// The page found at `rel_path` with the given content: its output path,
/// section and front matter, and its title (the front matter title, else one
/// made from the file stem, else `Untitled`).
pub open spec fn discovered(rel_path: Seq<char>, raw: Seq<char>) -> DocView {
    let fm = front_matter_of(raw).0;
    let fallback = title_from_stem(file_stem(rel_path));
    DocView {
        rel_md_path: rel_path,
        rel_html_path: html_path_of(rel_path),
        raw_content: raw,
        title: match fm.title {
            Some(t) => t,
            None => fallback,
        },
        section: section_of(rel_path),
        frontmatter: fm,
    }
}

} // verus!

verus! {

/// The page found at `rel_path` (relative to the input folder,
/// `/`-separated) with the given content.
pub fn discover_markdown(rel_path: &str, raw_content: String) -> (r: DiscoveredMarkdown)
    ensures
        r.view() == discovered(rel_path@, raw_content@),
{
    let p = chars_of(rel_path);
    let (start, dot) = name_parts(&p);
    // output path
    let mut hp: Vec<char> = Vec::new();
    match dot {
        Some(d) => {
            crate::text::push_vec(&mut hp, &p, 0, d);
            assert(p@.subrange(0, d as int) =~= p@.take(
                p@.len() - base_name(p@).len() + name_dot(p@)->0,
            ));
        },
        None => {
            crate::text::push_vec(&mut hp, &p, 0, p.len());
            assert(p@.subrange(0, p.len() as int) =~= p@);
        },
    }
    crate::text::push_str_chars(&mut hp, ".html");
    let ghost swapped = hp@;
    let mut i: usize = 0;
    while i < hp.len()
        invariant
            0 <= i <= hp.len(),
            hp.len() == swapped.len(),
            forall|j: int|
                0 <= j < hp.len() ==> hp@[j] == if j < i {
                    if swapped[j] == '\\' {
                        '/'
                    } else {
                        swapped[j]
                    }
                } else {
                    swapped[j]
                },
        decreases hp.len() - i,
    {
        if hp[i] == '\\' {
            hp.set(i, '/');
        }
        i += 1;
    }
    assert(hp@ =~= html_path_of(p@));
    let rel_html_path = string_of(&hp);
    // section
    proof {
        lemma_last_index_of(p@, '/');
    }
    let section = match rfind_char(&p, '/') {
        Some(k) => {
            if k == 0 {
                String::from_str("General")
            } else {
                let parent = string_of_range(&p, 0, k);
                assert(parent@ =~= parent_text(p@));
                format_section_name(parent.as_str())
            }
        },
        None => String::from_str("General"),
    };
    // front matter and title
    let (fm, _body) = parse_frontmatter(raw_content.as_str());
    let stem_end = match dot {
        Some(d) => d,
        None => p.len(),
    };
    let stem = string_of_range(&p, start, stem_end);
    assert(stem@ =~= file_stem(p@));
    let title = match &fm.title {
        Some(t) => t.clone(),
        None => format_title_from_stem(stem.as_str()),
    };
    let md = String::from_str(rel_path);
    DiscoveredMarkdown {
        rel_md_path: md,
        rel_html_path,
        raw_content,
        title,
        section,
        frontmatter: fm,
    }
}

} // verus!

verus! {

// ---------------------------------------------------------------------------
// The index portal
// ---------------------------------------------------------------------------

/// The portal's list of pages: a `##` heading whenever the section changes
/// from the page before (the first page starts from no section), then one
/// link line per page with its description (or `Documentation page`).
/// Gives the text and the last section.
pub open spec fn portal_lines(docs: Seq<DocView>) -> (Seq<char>, Seq<char>)
    decreases docs.len(),
{
    if docs.len() == 0 {
        (seq![], seq![])
    } else {
        let (c, cur) = portal_lines(docs.drop_last());
        let d = docs.last();
        let (c2, cur2) = if d.section != cur {
            (c + "## "@ + d.section + "\n\n"@, d.section)
        } else {
            (c, cur)
        };
        let desc = match d.frontmatter.description {
            Some(x) => x,
            None => "Documentation page"@,
        };
        (c2 + "- ["@ + d.title + "]("@ + d.rel_html_path + ") - "@ + desc + "\n"@, cur2)
    }
}

/// The generated `index.html` page listing all pages.
pub open spec fn portal_doc(docs: Seq<DocView>, site_title: Seq<char>) -> DocView {
    DocView {
        rel_md_path: "index.md"@,
        rel_html_path: "index.html"@,
        raw_content: "# "@ + site_title
            + "\n\nWelcome to the documentation portal. Below are the available documents:\n\n"@
            + portal_lines(docs).0,
        title: "Overview"@,
        section: "General"@,
        frontmatter: FrontMatterView {
            title: Some("Overview"@),
            description: Some("Overview and directory for "@ + site_title),
            date: None,
            author: None,
            tags: seq![],
            extra: seq![],
        },
    }
}

/// Generates the index portal for a site without a root `index.md`.
pub fn generate_portal_index(docs: &[DiscoveredMarkdown], site_title: &str) -> (r: DiscoveredMarkdown)
    ensures
        r.view() == portal_doc(doc_views(docs@), site_title@),
{
    let mut content = String::new();
    content.append("# ");
    content.append(site_title);
    content.append(
        "\n\nWelcome to the documentation portal. Below are the available documents:\n\n",
    );
    let ghost head = content@;
    let ghost dv = doc_views(docs@);
    let mut current = String::new();
    let mut i: usize = 0;
    assert(dv.take(0) =~= Seq::<DocView>::empty());
    assert(content@ =~= head + portal_lines(dv.take(0)).0);
    while i < docs.len()
        invariant
            0 <= i <= docs.len(),
            dv == doc_views(docs@),
            content@ == head + portal_lines(dv.take(i as int)).0,
            current@ == portal_lines(dv.take(i as int)).1,
        decreases docs.len() - i,
    {
        assert(dv.take(i + 1).drop_last() =~= dv.take(i as int));
        assert(dv.take(i + 1).last() == docs@[i as int].view());
        let d = &docs[i];
        let ghost before = content@;
        if !(d.section == current) {
            current = d.section.clone();
            content.append("## ");
            content.append(current.as_str());
            content.append("\n\n");
        }
        content.append("- [");
        content.append(d.title.as_str());
        content.append("](");
        content.append(d.rel_html_path.as_str());
        content.append(") - ");
        match &d.frontmatter.description {
            Some(x) => content.append(x.as_str()),
            None => content.append("Documentation page"),
        }
        content.append("\n");
        assert(content@ =~= head + portal_lines(dv.take(i + 1)).0);
        i += 1;
    }
    assert(dv.take(docs.len() as int) =~= dv);
    let mut description = String::new();
    description.append("Overview and directory for ");
    description.append(site_title);
    let mut fm = FrontMatter::empty();
    fm.title = Some(String::from_str("Overview"));
    fm.description = Some(description);
    assert(Seq::<char>::empty() + "Overview and directory for "@ + site_title@ =~= "Overview and directory for "@ + site_title@);
    assert(Seq::<char>::empty() + "# "@ =~= "# "@);
    DiscoveredMarkdown {
        rel_md_path: String::from_str("index.md"),
        rel_html_path: String::from_str("index.html"),
        raw_content: content,
        title: String::from_str("Overview"),
        section: String::from_str("General"),
        frontmatter: fm,
    }
}

// ---------------------------------------------------------------------------
// Navigation order
// ---------------------------------------------------------------------------

pub open spec fn is_index(d: DocView) -> bool {
    d.rel_html_path == "index.html"@
}

/// The navigation order: the root index first, then by section, then by
/// title (`String` order).
pub open spec fn doc_before(a: DocView, b: DocView) -> bool {
    if is_index(a) && !is_index(b) {
        true
    } else if !is_index(a) && is_index(b) {
        false
    } else if a.section != b.section {
        lex_lt(a.section, b.section)
    } else {
        lex_lt(a.title, b.title)
    }
}

/// Where a stable insertion puts `x` in a sorted list: after every entry
/// that `x` does not come before.
pub open spec fn stable_pos(sorted: Seq<DocView>, x: DocView) -> int
    decreases sorted.len(),
{
    if sorted.len() == 0 {
        0
    } else if doc_before(x, sorted[0]) {
        0
    } else {
        1 + stable_pos(sorted.drop_first(), x)
    }
}

/// The pages in navigation order; pages that compare equal keep their order
/// (the result of a stable sort).
pub open spec fn sort_docs(docs: Seq<DocView>) -> Seq<DocView>
    decreases docs.len(),
{
    if docs.len() == 0 {
        seq![]
    } else {
        let s = sort_docs(docs.drop_last());
        s.insert(stable_pos(s, docs.last()), docs.last())
    }
}

/// Whether some page is the root `index.html`.
pub open spec fn has_root_index(docs: Seq<DocView>) -> bool {
    exists|i: int| 0 <= i < docs.len() && is_index(#[trigger] docs[i])
}

/// The pages of the site: when there is at least one page and none is the
/// root index, the generated portal is added in front; then all are sorted
/// into navigation order.
pub open spec fn site_docs(docs: Seq<DocView>, site_title: Seq<char>) -> Seq<DocView> {
    if !has_root_index(docs) && docs.len() > 0 {
        sort_docs(seq![portal_doc(docs, site_title)] + docs)
    } else {
        sort_docs(docs)
    }
}

proof fn lemma_sort_docs_index_first(docs: Seq<DocView>)
    requires
        has_root_index(docs),
    ensures
        sort_docs(docs).len() == docs.len(),
        is_index(sort_docs(docs)[0]),
    decreases docs.len(),
{
    let init = docs.drop_last();
    let x = docs.last();
    lemma_sort_docs_len(init);
    let t = sort_docs(init);
    if has_root_index(init) {
        lemma_sort_docs_index_first(init);
    } else {
        let i = choose|i: int| 0 <= i < docs.len() && is_index(#[trigger] docs[i]);
        if i < docs.len() - 1 {
            assert(init[i] == docs[i]);
            assert(false);
        }
    }
    let p = stable_pos(t, x);
    lemma_stable_pos_bound(t, x);
    if !has_root_index(init) && t.len() > 0 {
        broadcast use vstd::seq_lib::to_multiset_contains;

        assert(t.contains(t[0]));
        assert(t.to_multiset().count(t[0]) > 0);
        assert(init.to_multiset().count(t[0]) > 0);
        assert(init.contains(t[0]));
        let j = choose|j: int| 0 <= j < init.len() && init[j] == t[0];
        assert(!is_index(init[j]));
    }
    if p > 0 {
        assert(t.insert(p, x)[0] == t[0]);
    }
}

proof fn lemma_stable_pos_bound(sorted: Seq<DocView>, x: DocView)
    ensures
        0 <= stable_pos(sorted, x) <= sorted.len(),
        sorted.len() > 0 ==> (doc_before(x, sorted[0]) <==> stable_pos(sorted, x) == 0),
    decreases sorted.len(),
{
    if sorted.len() > 0 && !doc_before(x, sorted[0]) {
        lemma_stable_pos_bound(sorted.drop_first(), x);
    }
}

proof fn lemma_sort_docs_len(docs: Seq<DocView>)
    ensures
        sort_docs(docs).len() == docs.len(),
        sort_docs(docs).to_multiset() == docs.to_multiset(),
    decreases docs.len(),
{
    broadcast use vstd::seq_lib::to_multiset_build, vstd::seq_lib::to_multiset_insert;

    if docs.len() == 0 {
        assert(sort_docs(docs) =~= docs);
    } else {
        lemma_sort_docs_len(docs.drop_last());
        lemma_stable_pos_bound(sort_docs(docs.drop_last()), docs.last());
        assert(docs =~= docs.drop_last().push(docs.last()));
    }
}

/// Navigation law: the pages of a site with at least one page are its pages
/// (with the generated portal when it has no root index), each as often as
/// before, and the root index page comes first.
pub proof fn law_site_index_first(docs: Seq<DocView>, site_title: Seq<char>)
    requires
        docs.len() > 0,
    ensures
        is_index(site_docs(docs, site_title)[0]),
        has_root_index(docs) ==> site_docs(docs, site_title).to_multiset() == docs.to_multiset(),
        !has_root_index(docs) ==> site_docs(docs, site_title).to_multiset() == (seq![
            portal_doc(docs, site_title),
        ] + docs).to_multiset(),
{
    if has_root_index(docs) {
        lemma_sort_docs_index_first(docs);
        lemma_sort_docs_len(docs);
    } else {
        let all = seq![portal_doc(docs, site_title)] + docs;
        assert(is_index(all[0]));
        lemma_sort_docs_index_first(all);
        lemma_sort_docs_len(all);
    }
}

fn is_root_index(d: &DiscoveredMarkdown) -> (r: bool)
    ensures
        r == is_index(d.view()),
{
    let p = chars_of(d.rel_html_path.as_str());
    let idx = chars_of("index.html");
    chars_eq(&p, &idx)
}

fn comes_before(a: &DiscoveredMarkdown, b: &DiscoveredMarkdown) -> (r: bool)
    ensures
        r == doc_before(a.view(), b.view()),
{
    let ai = is_root_index(a);
    let bi = is_root_index(b);
    if ai && !bi {
        true
    } else if !ai && bi {
        false
    } else {
        let sa = chars_of(a.section.as_str());
        let sb = chars_of(b.section.as_str());
        if !chars_eq(&sa, &sb) {
            lex_less(&sa, &sb)
        } else {
            let ta = chars_of(a.title.as_str());
            let tb = chars_of(b.title.as_str());
            lex_less(&ta, &tb)
        }
    }
}

/// Puts the pages into navigation order (a stable insertion sort).
pub fn sort_navigation(docs: Vec<DiscoveredMarkdown>) -> (r: Vec<DiscoveredMarkdown>)
    ensures
        doc_views(r@) == sort_docs(doc_views(docs@)),
{
    let ghost all = doc_views(docs@);
    let mut rest = docs;
    let mut sorted: Vec<DiscoveredMarkdown> = Vec::new();
    let mut i: usize = 0;
    let n = rest.len();
    assert(all.take(0) =~= Seq::<DocView>::empty());
    assert(doc_views(sorted@) =~= Seq::<DocView>::empty());
    while rest.len() > 0
        invariant
            i + rest.len() == n,
            n == all.len(),
            doc_views(rest@) == all.skip(i as int),
            doc_views(sorted@) == sort_docs(all.take(i as int)),
        decreases rest.len(),
    {
        let ghost rv = doc_views(rest@);
        let ghost old_rest = rest@;
        let d = rest.remove(0);
        assert(d == old_rest[0]);
        assert(rv[0] == old_rest[0].view());
        assert(rv[0] == all.skip(i as int)[0]);
        assert(d.view() == all[i as int]);
        assert(rest@ =~= old_rest.remove(0));
        assert(doc_views(rest@) =~= rv.drop_first());
        assert(rv.drop_first() =~= all.skip(i + 1));
        let ghost sv = doc_views(sorted@);
        let mut p: usize = 0;
        assert(sv.skip(0) =~= sv);
        while p < sorted.len() && !comes_before(&d, &sorted[p])
            invariant
                0 <= p <= sorted.len(),
                sv == doc_views(sorted@),
                stable_pos(sv, d.view()) == p + stable_pos(sv.skip(p as int), d.view()),
            decreases sorted.len() - p,
        {
            assert(sv.skip(p as int).drop_first() =~= sv.skip(p + 1));
            assert(sv.skip(p as int)[0] == sorted@[p as int].view());
            p += 1;
        }
        proof {
            if p < sorted.len() {
                assert(sv.skip(p as int)[0] == sorted@[p as int].view());
            }
        }
        sorted.insert(p, d);
        assert(all.take(i + 1).drop_last() =~= all.take(i as int));
        assert(all.take(i + 1).last() == all[i as int]);
        assert(doc_views(sorted@) =~= sv.insert(p as int, all[i as int]));
        i += 1;
    }
    assert(all.take(n as int) =~= all);
    sorted
}

/// Adds the portal when the site has pages but no root index, and sorts the
/// pages into navigation order.
pub fn assemble_site(docs: Vec<DiscoveredMarkdown>, site_title: &str) -> (r: Vec<
    DiscoveredMarkdown,
>)
    ensures
        doc_views(r@) == site_docs(doc_views(docs@), site_title@),
{
    let ghost dv = doc_views(docs@);
    let mut has_index = false;
    let mut i: usize = 0;
    while i < docs.len()
        invariant
            0 <= i <= docs.len(),
            dv == doc_views(docs@),
            has_index <==> exists|j: int| 0 <= j < i && is_index(#[trigger] dv[j]),
        decreases docs.len() - i,
    {
        if is_root_index(&docs[i]) {
            assert(is_index(dv[i as int]));
            has_index = true;
        }
        i += 1;
    }
    if !has_index && docs.len() > 0 {
        let portal = generate_portal_index(docs.as_slice(), site_title);
        let mut all: Vec<DiscoveredMarkdown> = Vec::new();
        all.push(portal);
        let mut rest = docs;
        let ghost tail = rest@;
        all.append(&mut rest);
        assert(doc_views(all@) =~= seq![portal_doc(dv, site_title@)] + dv);
        sort_navigation(all)
    } else {
        sort_navigation(docs)
    }
}

/// The navigation entries of the pages, in order.
pub fn nav_items_of(docs: &Vec<DiscoveredMarkdown>) -> (r: Vec<NavItem>)
    ensures
        r.len() == docs.len(),
        forall|i: int|
            0 <= i < docs.len() ==> (#[trigger] r@[i]).title@ == docs@[i].title@
                && r@[i].rel_html_path@ == docs@[i].rel_html_path@ && r@[i].section@
                == docs@[i].section@,
{
    let mut out: Vec<NavItem> = Vec::new();
    let mut i: usize = 0;
    while i < docs.len()
        invariant
            0 <= i <= docs.len(),
            out.len() == i,
            forall|j: int|
                0 <= j < i ==> (#[trigger] out@[j]).title@ == docs@[j].title@
                    && out@[j].rel_html_path@ == docs@[j].rel_html_path@ && out@[j].section@
                    == docs@[j].section@,
        decreases docs.len() - i,
    {
        let d = &docs[i];
        out.push(
            NavItem {
                title: d.title.clone(),
                rel_html_path: d.rel_html_path.clone(),
                section: d.section.clone(),
            },
        );
        i += 1;
    }
    out
}

} // verus!

verus! {

/// The HTML page of a site page: its markdown rendered (with the page's
/// title as the fallback title), framed with the site title, the page's own
/// front matter and the site navigation.
pub open spec fn site_page(doc: DocView, nav: Seq<NavItem>, site_title: Seq<char>) -> Seq<char> {
    let (fm, body) = front_matter_of(doc.raw_content);
    let st = plan_events(markdown_events(body, PAGE_OPTIONS));
    page_html(
        site_title,
        page_title(fm.title, st.title, doc.title),
        doc.frontmatter,
        callouts(planned_html(body, PAGE_OPTIONS, st.out)),
        st.toc,
        doc.rel_html_path,
        nav,
    )
}

/// Page title law: a site page begins with the fixed head and, inside
/// `<title>`, the page's rendered title (its front matter title, else the
/// text of the first level-1 heading of its body, else the title the page
/// was discovered with), escaped, then ` - ` and the escaped site title.
pub proof fn law_site_page_title(doc: DocView, nav: Seq<NavItem>, site_title: Seq<char>)
    ensures
        ({
            let fm = front_matter_of(doc.raw_content).0;
            let body = front_matter_of(doc.raw_content).1;
            let first_h1 = plan_events(markdown_events(body, PAGE_OPTIONS)).title;
            let t = match fm.title {
                Some(x) => x,
                None => match first_h1 {
                    Some(h) => h,
                    None => doc.title,
                },
            };
            let head = PAGE_HEAD@ + html_escaped(t) + PAGE_TITLE_SEP@ + html_escaped(site_title)
                + PAGE_TITLE_END@;
            site_page(doc, nav, site_title).len() >= head.len() && site_page(
                doc,
                nav,
                site_title,
            ).take(head.len() as int) == head
        }),
{
    let (fm, body) = front_matter_of(doc.raw_content);
    let st = plan_events(markdown_events(body, PAGE_OPTIONS));
    law_page_title_first(
        site_title,
        page_title(fm.title, st.title, doc.title),
        doc.frontmatter,
        callouts(planned_html(body, PAGE_OPTIONS, st.out)),
        st.toc,
        doc.rel_html_path,
        nav,
    );
}

/// Renders one page of the site.
pub fn render_site_page(doc: &DiscoveredMarkdown, nav_items: &[NavItem], site_title: &str) -> (r:
    String)
    ensures
        r@ == site_page(doc.view(), nav_items@, site_title@),
{
    let rendered = render_markdown(doc.raw_content.as_str(), doc.title.as_str());
    let ctx = PageContext {
        site_title: site_title,
        page_title: rendered.title.as_str(),
        frontmatter: &doc.frontmatter,
        content_html: rendered.html_content.as_str(),
        toc: rendered.toc.as_slice(),
        current_rel_path: doc.rel_html_path.as_str(),
        nav_items: nav_items,
    };
    render_html_page(&ctx)
}


// ---------------------------------------------------------------------------
// Shared assets
// ---------------------------------------------------------------------------

/// Whether an asset file must be written: when it could not be read
/// (`None`, also when it does not exist) or holds other bytes.
pub open spec fn asset_needs_write(existing: Option<Seq<u8>>, content: Seq<u8>) -> bool {
    match existing {
        Some(e) => e != content,
        None => true,
    }
}

/// Asset law: once an asset has been written, checking it again finds
/// nothing to write; an asset that is missing or differs is always written.
pub proof fn law_asset_write_settles(content: Seq<u8>, other: Seq<u8>)
    ensures
        !asset_needs_write(Some(content), content),
        asset_needs_write(None, content),
        other != content ==> asset_needs_write(Some(other), content),
{
}

/// Decides whether an asset is rewritten, from the bytes the file holds now
/// (if it exists and could be read) and the bytes it should hold.
pub fn needs_write(existing: &Option<Vec<u8>>, content: &[u8]) -> (r: bool)
    ensures
        r == asset_needs_write(
            match existing {
                Some(e) => Some(e@),
                None => None,
            },
            content@,
        ),
{
    match existing {
        None => true,
        Some(e) => !bytes_equal(e, content),
    }
}

fn bytes_equal(a: &Vec<u8>, b: &[u8]) -> (r: bool)
    ensures
        r == (a@ == b@),
{
    if a.len() != b.len() {
        return false;
    }
    let mut i: usize = 0;
    while i < a.len()
        invariant
            a.len() == b.len(),
            0 <= i <= a.len(),
            forall|k: int| 0 <= k < i ==> a@[k] == b@[k],
        decreases a.len() - i,
    {
        if a[i] != b[i] {
            assert(a@[i as int] != b@[i as int]);
            return false;
        }
        i += 1;
    }
    assert(a@ == b@);
    true
}

} // verus!
