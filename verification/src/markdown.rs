//! Markdown pages: front matter, heading slugs, the rendering of a page
//! through pulldown-cmark, and GitHub-style callouts.
use vstd::prelude::*;
use pulldown_cmark::CodeBlockKind::{Fenced, Indented};
use pulldown_cmark::Event::{Code, End, Start, Text};
use pulldown_cmark::{CowStr, Event, Options, Parser, Tag, TagEnd};
use crate::text::{
    ascii_lower, chars_eq, chars_of, find, find_char, find_from, is_alnum, is_alphanumeric, is_space,
    is_whitespace, lemma_find_from, lemma_find_skip, lower_of, split_by, split_seps, string_of, string_of_range,
    to_ascii_lowercase, to_lowercase, trim, trim_bounds, trim_start, skip_space, views,
    vec_range, find_in, occurs_at,
};

verus! {

// ---------------------------------------------------------------------------
// Types
// ---------------------------------------------------------------------------

/// Metadata from a page's front matter block.
pub struct FrontMatter {
    pub title: Option<String>,
    pub description: Option<String>,
    pub date: Option<String>,
    pub author: Option<String>,
    pub tags: Vec<String>,
    /// Other `key: value` lines, one entry per key (a later line replaces an
    /// earlier value).
    pub extra: Vec<(String, String)>,
}

/// The mathematical content of a `FrontMatter`.
pub struct FrontMatterView {
    pub title: Option<Seq<char>>,
    pub description: Option<Seq<char>>,
    pub date: Option<Seq<char>>,
    pub author: Option<Seq<char>>,
    pub tags: Seq<Seq<char>>,
    pub extra: Seq<(Seq<char>, Seq<char>)>,
}

pub open spec fn opt_view(o: Option<String>) -> Option<Seq<char>> {
    match o {
        Some(s) => Some(s@),
        None => None,
    }
}

pub open spec fn string_views(v: Seq<String>) -> Seq<Seq<char>> {
    v.map_values(|s: String| s@)
}

pub open spec fn pair_views(v: Seq<(String, String)>) -> Seq<(Seq<char>, Seq<char>)> {
    v.map_values(|p: (String, String)| (p.0@, p.1@))
}

impl FrontMatter {
    pub open spec fn view(&self) -> FrontMatterView {
        FrontMatterView {
            title: opt_view(self.title),
            description: opt_view(self.description),
            date: opt_view(self.date),
            author: opt_view(self.author),
            tags: string_views(self.tags@),
            extra: pair_views(self.extra@),
        }
    }

    /// Front matter with no field set.
    pub fn empty() -> (r: FrontMatter)
        ensures
            r.view() == empty_front_matter(),
    {
        let r = FrontMatter {
            title: None,
            description: None,
            date: None,
            author: None,
            tags: Vec::new(),
            extra: Vec::new(),
        };
        assert(r.view().tags =~= Seq::<Seq<char>>::empty());
        assert(r.view().extra =~= Seq::<(Seq<char>, Seq<char>)>::empty());
        r
    }
}

pub open spec fn empty_front_matter() -> FrontMatterView {
    FrontMatterView {
        title: None,
        description: None,
        date: None,
        author: None,
        tags: seq![],
        extra: seq![],
    }
}

// ---------------------------------------------------------------------------
// Slugs
// ---------------------------------------------------------------------------

/// What `slugify` has built after reading some characters: the slug so far
/// and whether it ends in a dash it wrote.
pub open spec fn slug_state(s: Seq<char>) -> (Seq<char>, bool)
    decreases s.len(),
{
    if s.len() == 0 {
        (seq![], false)
    } else {
        let (slug, prev_dash) = slug_state(s.drop_last());
        let c = s.last();
        if is_alnum(c) {
            (slug.push(ascii_lower(c)), false)
        } else if is_space(c) || c == '-' || c == '_' || c == '.' {
            if !prev_dash && slug.len() > 0 {
                (slug.push('-'), true)
            } else {
                (slug, prev_dash)
            }
        } else {
            (slug, prev_dash)
        }
    }
}

/// The slug of a heading: alphanumeric characters lowercased (ASCII
/// letters), each run of whitespace, `-`, `_` or `.` after some text made a
/// single `-`, other characters dropped, a trailing `-` removed, and
/// `section` when nothing is left.
pub open spec fn slug_of(s: Seq<char>) -> Seq<char> {
    let raw = slug_state(s).0;
    let trimmed = if raw.len() > 0 && raw.last() == '-' {
        raw.drop_last()
    } else {
        raw
    };
    if trimmed.len() == 0 {
        seq!['s', 'e', 'c', 't', 'i', 'o', 'n']
    } else {
        trimmed
    }
}

/// A slug character: alphanumeric with no ASCII capital, or `-`.
pub open spec fn slug_char(c: char) -> bool {
    c == '-' || (is_alnum(c) && !('A' <= c && c <= 'Z'))
}

proof fn lemma_slug_state(s: Seq<char>)
    ensures
        slug_state(s).1 <==> (slug_state(s).0.len() > 0 && slug_state(s).0.last() == '-'),
        slug_state(s).0.len() > 0 ==> slug_state(s).0[0] != '-',
        forall|i: int|
            0 <= i < slug_state(s).0.len() ==> slug_char(#[trigger] slug_state(s).0[i]),
        forall|i: int|
            0 <= i < slug_state(s).0.len() - 1 ==> !(#[trigger] slug_state(s).0[i] == '-'
                && slug_state(s).0[i + 1] == '-'),
    decreases s.len(),
{
    if s.len() > 0 {
        lemma_slug_state(s.drop_last());
        let c = s.last();
        if is_alnum(c) {
            let l = ascii_lower(c);
            assert(is_alnum(l) && !('A' <= l && l <= 'Z'));
        }
    }
}

/// Law: a slug is never empty, holds only lowercase alphanumerics and `-`,
/// and has no dash at either end and no two dashes in a row.
pub proof fn law_slug_shape(s: Seq<char>)
    ensures
        slug_of(s).len() > 0,
        forall|i: int| 0 <= i < slug_of(s).len() ==> slug_char(#[trigger] slug_of(s)[i]),
        slug_of(s)[0] != '-',
        slug_of(s).last() != '-',
        forall|i: int|
            0 <= i < slug_of(s).len() - 1 ==> !(#[trigger] slug_of(s)[i] == '-' && slug_of(s)[i
                + 1] == '-'),
{
    lemma_slug_state(s);
    let raw = slug_state(s).0;
    if raw.len() > 0 && raw.last() == '-' {
        let t = raw.drop_last();
        if t.len() > 0 {
            assert(t[0] == raw[0]);
            assert(t.last() == raw[raw.len() - 2]);
        }
    }
    let w = seq!['s', 'e', 'c', 't', 'i', 'o', 'n'];
    assert forall|i: int| 0 <= i < w.len() implies slug_char(#[trigger] w[i]) by {
        assert(is_alnum(w[i]));
    }
}

/// Reading a well-formed slug up to `k` rebuilds it unchanged.
proof fn lemma_slug_state_of_slug(t: Seq<char>, k: int)
    requires
        0 <= k <= t.len(),
        t.len() > 0 ==> t[0] != '-',
        forall|i: int| 0 <= i < t.len() ==> slug_char(#[trigger] t[i]),
        forall|i: int| 0 <= i < t.len() - 1 ==> !(#[trigger] t[i] == '-' && t[i + 1] == '-'),
    ensures
        slug_state(t.take(k)) == (t.take(k), k > 0 && t[k - 1] == '-'),
    decreases k,
{
    if k > 0 {
        lemma_slug_state_of_slug(t, k - 1);
        assert(t.take(k).drop_last() == t.take(k - 1));
        assert(t.take(k).last() == t[k - 1]);
        let c = t[k - 1];
        assert(slug_char(c));
        if c == '-' {
            assert(k - 1 > 0);
            assert(!(t[k - 2] == '-' && t[k - 1] == '-'));
        } else {
            assert(ascii_lower(c) == c);
        }
        assert(t.take(k - 1).push(c) == t.take(k));
    } else {
        assert(t.take(0) == Seq::<char>::empty());
    }
}

/// Slug law: a slug is its own slug, so `slugify` applied twice gives what
/// it gives once.
pub proof fn law_slug_idempotent(s: Seq<char>)
    ensures
        slug_of(slug_of(s)) == slug_of(s),
{
    let t = slug_of(s);
    law_slug_shape(s);
    lemma_slug_state_of_slug(t, t.len() as int);
    assert(t.take(t.len() as int) == t);
    assert(t[t.len() - 1] == t.last());
}

/// Generates a URL-friendly slug from heading text.
pub fn slugify(text: &str) -> (r: String)
    ensures
        r@ == slug_of(text@),
{
    let mut slug: Vec<char> = Vec::new();
    let mut prev_dash = false;
    for c in it: text.chars()
        invariant
            it.seq() == text@,
            (slug@, prev_dash) == slug_state(it.seq().take(it.index())),
    {
        proof {
            assert(it.seq().take(it.index() + 1).drop_last() =~= it.seq().take(it.index()));
        }
        if is_alphanumeric(c) {
            slug.push(to_ascii_lowercase(c));
            prev_dash = false;
        } else if is_whitespace(c) || c == '-' || c == '_' || c == '.' {
            if !prev_dash && slug.len() > 0 {
                slug.push('-');
                prev_dash = true;
            }
        }
    }
    assert(text@.take(text@.len() as int) =~= text@);
    if slug.len() > 0 && slug[slug.len() - 1] == '-' {
        slug.pop();
    }
    if slug.len() == 0 {
        let mut s = String::new();
        s.push('s');
        s.push('e');
        s.push('c');
        s.push('t');
        s.push('i');
        s.push('o');
        s.push('n');
        assert(s@ =~= seq!['s', 'e', 'c', 't', 'i', 'o', 'n']);
        s
    } else {
        string_of(&slug)
    }
}

} // verus!

verus! {

// ---------------------------------------------------------------------------
// Front matter
// ---------------------------------------------------------------------------

/// `s` with leading `[` and `]` characters removed.
pub open spec fn strip_brackets_start(s: Seq<char>) -> Seq<char>
    decreases s.len(),
{
    if s.len() > 0 && (s[0] == '[' || s[0] == ']') {
        strip_brackets_start(s.drop_first())
    } else {
        s
    }
}

/// `s` with trailing `[` and `]` characters removed.
pub open spec fn strip_brackets_end(s: Seq<char>) -> Seq<char>
    decreases s.len(),
{
    if s.len() > 0 && (s.last() == '[' || s.last() == ']') {
        strip_brackets_end(s.drop_last())
    } else {
        s
    }
}

/// The trimmed, non-empty pieces among `pieces`, in order.
pub open spec fn tag_list(pieces: Seq<Seq<char>>) -> Seq<Seq<char>>
    decreases pieces.len(),
{
    if pieces.len() == 0 {
        seq![]
    } else {
        let t = trim(pieces.last());
        let rest = tag_list(pieces.drop_last());
        if t.len() > 0 {
            rest.push(t)
        } else {
            rest
        }
    }
}

/// The tags of a `tags:` value: brackets at either end removed, split at
/// commas, each piece trimmed, empty pieces dropped.
pub open spec fn tags_of(val: Seq<char>) -> Seq<Seq<char>> {
    tag_list(split_seps(strip_brackets_end(strip_brackets_start(val)), seq![',']))
}

/// The position of key `k` among the pairs.
pub open spec fn key_index(pairs: Seq<(Seq<char>, Seq<char>)>, k: Seq<char>) -> Option<int>
    decreases pairs.len(),
{
    if pairs.len() == 0 {
        None
    } else if pairs.last().0 == k {
        Some(pairs.len() - 1)
    } else {
        key_index(pairs.drop_last(), k)
    }
}

/// Map insertion: the value of an existing key is replaced, a new key is added.
pub open spec fn extra_insert(pairs: Seq<(Seq<char>, Seq<char>)>, k: Seq<char>, v: Seq<char>) -> Seq<
    (Seq<char>, Seq<char>),
> {
    match key_index(pairs, k) {
        Some(i) => pairs.update(i, (k, v)),
        None => pairs.push((k, v)),
    }
}

/// A front matter value with one pair of matching surrounding quotes removed.
pub open spec fn unquote(v: Seq<char>) -> Seq<char> {
    if v.len() >= 2 && ((v[0] == '"' && v.last() == '"') || (v[0] == '\'' && v.last() == '\'')) {
        v.subrange(1, v.len() - 1)
    } else {
        v
    }
}

/// The effect of one (trimmed) front matter line: blank lines, `#` comments
/// and lines without `:` change nothing; `key: value` sets `title`,
/// `description`, `date`, `author` or `tags` (keys are trimmed and
/// lowercased, values trimmed and unquoted), and any other key goes to `extra`.
pub open spec fn apply_line(fm: FrontMatterView, line: Seq<char>) -> FrontMatterView {
    if line.len() == 0 || line[0] == '#' {
        fm
    } else {
        match find(line, seq![':']) {
            None => fm,
            Some(i) => {
                let key = lower_of(trim(line.take(i)));
                let val = unquote(trim(line.skip(i + 1)));
                if key == "title"@ {
                    FrontMatterView { title: Some(val), ..fm }
                } else if key == "description"@ {
                    FrontMatterView { description: Some(val), ..fm }
                } else if key == "date"@ {
                    FrontMatterView { date: Some(val), ..fm }
                } else if key == "author"@ {
                    FrontMatterView { author: Some(val), ..fm }
                } else if key == "tags"@ {
                    FrontMatterView { tags: tags_of(val), ..fm }
                } else {
                    FrontMatterView { extra: extra_insert(fm.extra, key, val), ..fm }
                }
            },
        }
    }
}

/// The front matter read from the lines of a block, in order.
pub open spec fn read_lines(lines: Seq<Seq<char>>) -> FrontMatterView
    decreases lines.len(),
{
    if lines.len() == 0 {
        empty_front_matter()
    } else {
        apply_line(read_lines(lines.drop_last()), trim(lines.last()))
    }
}

/// No two pairs have the same key.
pub open spec fn distinct_keys(pairs: Seq<(Seq<char>, Seq<char>)>) -> bool {
    forall|i: int, j: int| 0 <= i < j < pairs.len() ==> #[trigger] pairs[i].0 != #[trigger] pairs[j].0
}

proof fn lemma_key_index(pairs: Seq<(Seq<char>, Seq<char>)>, k: Seq<char>)
    ensures
        key_index(pairs, k) matches Some(i) ==> 0 <= i < pairs.len() && pairs[i].0 == k,
        key_index(pairs, k) is None ==> forall|i: int| 0 <= i < pairs.len() ==> #[trigger] pairs[i].0 != k,
    decreases pairs.len(),
{
    if pairs.len() > 0 && pairs.last().0 != k {
        lemma_key_index(pairs.drop_last(), k);
        assert forall|i: int| 0 <= i < pairs.len() - 1 implies #[trigger] pairs[i] == pairs.drop_last()[i] by {}
    }
}

proof fn lemma_extra_insert_distinct(pairs: Seq<(Seq<char>, Seq<char>)>, k: Seq<char>, v: Seq<char>)
    requires
        distinct_keys(pairs),
    ensures
        distinct_keys(extra_insert(pairs, k, v)),
{
    lemma_key_index(pairs, k);
    let r = extra_insert(pairs, k, v);
    match key_index(pairs, k) {
        Some(idx) => {
            assert forall|i: int, j: int| 0 <= i < j < r.len() implies #[trigger] r[i].0 != #[trigger] r[j].0 by {
                assert(pairs[i].0 != pairs[j].0);
                if i == idx {
                    assert(r[i].0 == pairs[i].0);
                }
                if j == idx {
                    assert(r[j].0 == pairs[j].0);
                }
            }
        },
        None => {
            assert forall|i: int, j: int| 0 <= i < j < r.len() implies #[trigger] r[i].0 != #[trigger] r[j].0 by {
                if j < pairs.len() {
                    assert(pairs[i].0 != pairs[j].0);
                } else {
                    assert(r[j].0 == k);
                    assert(pairs[i].0 != k);
                }
            }
        },
    }
}

proof fn lemma_read_lines_distinct(lines: Seq<Seq<char>>)
    ensures
        distinct_keys(read_lines(lines).extra),
    decreases lines.len(),
{
    if lines.len() > 0 {
        lemma_read_lines_distinct(lines.drop_last());
        let fm = read_lines(lines.drop_last());
        let line = trim(lines.last());
        if !(line.len() == 0 || line[0] == '#') {
            if let Some(i) = find(line, seq![':']) {
                lemma_extra_insert_distinct(
                    fm.extra,
                    lower_of(trim(line.take(i))),
                    unquote(trim(line.skip(i + 1))),
                );
            }
        }
    }
}

/// Front matter keys law: the other keys of a front matter block are kept
/// one entry per key, as in a map.
pub proof fn law_front_matter_keys_distinct(content: Seq<char>)
    ensures
        distinct_keys(front_matter_of(content).0.extra),
{
    match front_matter_split(content) {
        None => {},
        Some((block, _)) => {
            lemma_read_lines_distinct(split_seps(block, seq!['\n']));
        },
    }
}

/// Where a front matter block sits in `content`, if it has one: the block
/// starts (after leading whitespace) with a line holding only `---`, ends at
/// the next line starting with `---`, and the body begins after that marker
/// (and after one line feed right behind it). Gives the block's text and the
/// index where the body starts.
pub open spec fn front_matter_split(content: Seq<char>) -> Option<(Seq<char>, int)> {
    let trimmed = trim_start(content);
    let t0 = content.len() - trimmed.len();
    if !(trimmed.len() >= 3 && trimmed.take(3) == seq!['-', '-', '-']) {
        None
    } else {
        match find(trimmed, seq!['\n']) {
            None => None,
            Some(fle) => if trim(trimmed.take(fle)) != seq!['-', '-', '-'] {
                None
            } else {
                let rest = trimmed.skip(fle + 1);
                match find(rest, seq!['\n', '-', '-', '-']) {
                    None => None,
                    Some(end_idx) => {
                        let b = end_idx + 4;
                        let body_start = if b < rest.len() && rest[b] == '\n' {
                            b + 1
                        } else {
                            b
                        };
                        Some((rest.take(end_idx), t0 + fle + 1 + body_start))
                    },
                }
            },
        }
    }
}

/// `parse_frontmatter`: the metadata and the body that follows the block;
/// without a block, no metadata and the whole content.
pub open spec fn front_matter_of(content: Seq<char>) -> (FrontMatterView, Seq<char>) {
    match front_matter_split(content) {
        None => (empty_front_matter(), content),
        Some((block, body_start)) => (
            read_lines(split_seps(block, seq!['\n'])),
            content.skip(body_start),
        ),
    }
}

} // verus!

verus! {

fn lit_eq(v: &Vec<char>, s: &str) -> (r: bool)
    ensures
        r == (v@ == s@),
{
    let w = chars_of(s);
    chars_eq(v, &w)
}

/// `v[lo..hi]` with `trim_matches` of `[` and `]`.
fn strip_brackets(v: &Vec<char>) -> (r: Vec<char>)
    ensures
        r@ == strip_brackets_end(strip_brackets_start(v@)),
{
    let mut a: usize = 0;
    assert(v@.skip(0) =~= v@);
    while a < v.len() && (v[a] == '[' || v[a] == ']')
        invariant
            0 <= a <= v.len(),
            strip_brackets_start(v@) == strip_brackets_start(v@.skip(a as int)),
        decreases v.len() - a,
    {
        assert(v@.skip(a as int).drop_first() =~= v@.skip(a + 1));
        a += 1;
    }
    let mut b: usize = v.len();
    assert(v@.subrange(a as int, b as int) =~= v@.skip(a as int));
    while b > a && (v[b - 1] == '[' || v[b - 1] == ']')
        invariant
            a <= b <= v.len(),
            strip_brackets_end(v@.subrange(a as int, v.len() as int)) == strip_brackets_end(
                v@.subrange(a as int, b as int),
            ),
        decreases b - a,
    {
        assert(v@.subrange(a as int, b as int).drop_last() =~= v@.subrange(a as int, b - 1));
        b -= 1;
    }
    vec_range(v, a, b)
}

fn tags_from(val: &Vec<char>) -> (r: Vec<String>)
    ensures
        string_views(r@) == tags_of(val@),
{
    let clean = strip_brackets(val);
    let seps = vec![','];
    assert(seps@ =~= seq![',']);
    let pieces = split_by(&clean, &seps);
    let ghost ps = views(pieces@);
    let mut out: Vec<String> = Vec::new();
    let mut i: usize = 0;
    while i < pieces.len()
        invariant
            0 <= i <= pieces.len(),
            ps == views(pieces@),
            string_views(out@) == tag_list(ps.take(i as int)),
        decreases pieces.len() - i,
    {
        let p = &pieces[i];
        let (a, b) = trim_bounds(p, 0, p.len());
        assert(p@.subrange(0, p@.len() as int) =~= p@);
        assert(ps.take(i + 1).drop_last() =~= ps.take(i as int));
        assert(ps.take(i + 1).last() == p@);
        if a < b {
            let t = string_of_range(p, a, b);
            let ghost before = out@;
            out.push(t);
            assert(string_views(out@) =~= string_views(before).push(t@));
        }
        i += 1;
    }
    assert(ps.take(pieces.len() as int) =~= ps);
    out
}

/// Map insertion on the `extra` pairs.
fn insert_extra(extra: &mut Vec<(String, String)>, k: String, v: String)
    ensures
        pair_views(final(extra)@) == extra_insert(pair_views(old(extra)@), k@, v@),
{
    let ghost pv = pair_views(extra@);
    let mut j = extra.len();
    assert(pv.take(j as int) =~= pv);
    while j > 0
        invariant
            j <= extra.len(),
            pv == pair_views(extra@),
            pv == pair_views(old(extra)@),
            key_index(pv, k@) == key_index(pv.take(j as int), k@),
        decreases j,
    {
        assert(pv.take(j as int).drop_last() =~= pv.take(j - 1));
        if extra[j - 1].0 == k {
            assert(pv.take(j as int).last() == pv[j - 1]);
            assert(pv[j - 1].0 == k@);
            assert(key_index(pv, k@) == Some(j - 1));
            let ghost kv = k@;
            let ghost vv = v@;
            extra.set(j - 1, (k, v));
            assert(pair_views(extra@) =~= pv.update(j - 1, (kv, vv)));
            return;
        }
        j -= 1;
    }
    extra.push((k, v));
    assert(pair_views(extra@) =~= pv.push((k@, v@)));
}

/// Applies one trimmed front matter line.
fn apply_line_exec(fm: &mut FrontMatter, line: &Vec<char>)
    ensures
        final(fm).view() == apply_line(old(fm).view(), line@),
{
    if line.len() == 0 || line[0] == '#' {
        return;
    }
    let i = match find_char(line, ':', 0) {
        Some(i) => i,
        None => return,
    };
    proof {
        lemma_find_from(line@, seq![':'], 0);
    }
    let (ka, kb) = trim_bounds(line, 0, i);
    assert(line@.subrange(0, i as int) =~= line@.take(i as int));
    let key_raw = string_of_range(line, ka, kb);
    let key_s = to_lowercase(key_raw.as_str());
    let key = chars_of(key_s.as_str());
    let (va, vb) = trim_bounds(line, i + 1, line.len());
    assert(line@.subrange(i + 1, line.len() as int) =~= line@.skip(i + 1));
    let ghost tv = line@.subrange(va as int, vb as int);
    let (qa, qb) = if vb - va >= 2 && ((line[va] == '"' && line[vb - 1] == '"') || (line[va]
        == '\'' && line[vb - 1] == '\'')) {
        (va + 1, vb - 1)
    } else {
        (va, vb)
    };
    assert(line@.subrange(qa as int, qb as int) =~= unquote(tv));
    let val = string_of_range(line, qa, qb);
    if lit_eq(&key, "title") {
        fm.title = Some(val);
    } else if lit_eq(&key, "description") {
        fm.description = Some(val);
    } else if lit_eq(&key, "date") {
        fm.date = Some(val);
    } else if lit_eq(&key, "author") {
        fm.author = Some(val);
    } else if lit_eq(&key, "tags") {
        let vv = vec_range(line, qa, qb);
        fm.tags = tags_from(&vv);
    } else {
        insert_extra(&mut fm.extra, key_s, val);
    }
}

/// Locates the front matter block in `cv`: the index where the block's text
/// starts, where it ends, and where the body starts.
#[verifier::spinoff_prover]
#[verifier::rlimit(30)]
fn locate_front_matter(cv: &Vec<char>) -> (r: Option<(usize, usize, usize)>)
    ensures
        match front_matter_split(cv@) {
            None => r is None,
            Some((block, body_start)) => r matches Some((r0, e, s)) && r0 <= e <= cv.len()
                && s <= cv.len() && block == cv@.subrange(r0 as int, e as int) && body_start
                == s,
        },
{
    let n = cv.len();
    let t0 = skip_space(cv, 0, n);
    let ghost trimmed = cv@.skip(t0 as int);
    assert(cv@.subrange(0, n as int) =~= cv@);
    assert(cv@.subrange(t0 as int, n as int) =~= trimmed);
    if !(n - t0 >= 3 && cv[t0] == '-' && cv[t0 + 1] == '-' && cv[t0 + 2] == '-') {
        proof {
            if trimmed.len() >= 3 && trimmed.take(3) == seq!['-', '-', '-'] {
                assert(trimmed.take(3)[0] == '-' && trimmed.take(3)[1] == '-' && trimmed.take(
                    3,
                )[2] == '-');
            }
        }
        return None;
    }
    assert(trimmed.take(3) =~= seq!['-', '-', '-']);
    proof {
        lemma_find_skip(cv@, seq!['\n'], t0 as int, t0 as int);
        lemma_find_from(cv@, seq!['\n'], t0 as int);
    }
    let nl = match find_char(cv, '\n', t0) {
        Some(k) => k,
        None => return None,
    };
    let fle = nl - t0;
    let (la, lb) = trim_bounds(cv, t0, nl);
    assert(cv@.subrange(t0 as int, nl as int) =~= trimmed.take(fle as int));
    if !(lb - la == 3 && cv[la] == '-' && cv[la + 1] == '-' && cv[la + 2] == '-') {
        proof {
            let tl = cv@.subrange(la as int, lb as int);
            if tl == seq!['-', '-', '-'] {
                assert(tl.len() == 3 && tl[0] == '-' && tl[1] == '-' && tl[2] == '-');
            }
        }
        return None;
    }
    assert(cv@.subrange(la as int, lb as int) =~= seq!['-', '-', '-']);
    let r0 = nl + 1;
    let ghost rest = trimmed.skip(fle + 1);
    assert(rest =~= cv@.skip(r0 as int));
    let marker = vec!['\n', '-', '-', '-'];
    assert(marker@ =~= seq!['\n', '-', '-', '-']);
    proof {
        lemma_find_skip(cv@, marker@, r0 as int, r0 as int);
        lemma_find_from(cv@, marker@, r0 as int);
    }
    let e = match find_in(cv, &marker, r0) {
        Some(e) => e,
        None => return None,
    };
    let end_idx = e - r0;
    let b = end_idx + 4;
    let body_start = if b < n - r0 && cv[r0 + b] == '\n' {
        b + 1
    } else {
        b
    };
    assert(cv@.subrange(r0 as int, e as int) =~= rest.take(end_idx as int));
    Some((r0, e, r0 + body_start))
}

/// Reads the metadata from the text of a front matter block.
fn read_block(block: &Vec<char>) -> (fm: FrontMatter)
    ensures
        fm.view() == read_lines(split_seps(block@, seq!['\n'])),
{
    let seps = vec!['\n'];
    assert(seps@ =~= seq!['\n']);
    let lines = split_by(block, &seps);
    let ghost ls = views(lines@);
    let mut fm = FrontMatter::empty();
    let mut i: usize = 0;
    assert(ls.take(0) =~= Seq::<Seq<char>>::empty());
    while i < lines.len()
        invariant
            0 <= i <= lines.len(),
            ls == views(lines@),
            fm.view() == read_lines(ls.take(i as int)),
        decreases lines.len() - i,
    {
        let piece = &lines[i];
        let (a, z) = trim_bounds(piece, 0, piece.len());
        assert(piece@.subrange(0, piece@.len() as int) =~= piece@);
        let line = vec_range(piece, a, z);
        apply_line_exec(&mut fm, &line);
        assert(ls.take(i + 1).drop_last() =~= ls.take(i as int));
        assert(ls.take(i + 1).last() == piece@);
        i += 1;
    }
    assert(ls.take(lines.len() as int) =~= ls);
    fm
}

/// Parses an optional front matter block (`---` ... `---`) at the start of a
/// page and returns its metadata with the body that follows it; without a
/// block the body is the whole content.
pub fn parse_frontmatter<'a>(content: &'a str) -> (r: (FrontMatter, &'a str))
    ensures
        (r.0.view(), r.1@) == front_matter_of(content@),
        forall|i: int, j: int|
            0 <= i < j < r.0.extra.len() ==> #[trigger] r.0.extra@[i].0@ != #[trigger] r.0.extra@[j].0@,
{
    proof {
        law_front_matter_keys_distinct(content@);
    }
    let cv = chars_of(content);
    let r = match locate_front_matter(&cv) {
        None => (FrontMatter::empty(), content),
        Some((r0, e, start)) => {
            let block = vec_range(&cv, r0, e);
            let fm = read_block(&block);
            let body = content.substring_char(start, cv.len());
            assert(cv@.subrange(start as int, cv.len() as int) =~= content@.skip(start as int));
            (fm, body)
        },
    };
    proof {
        let pv = pair_views(r.0.extra@);
        assert forall|i: int, j: int| 0 <= i < j < r.0.extra.len() implies #[trigger] r.0.extra@[i].0@
            != #[trigger] r.0.extra@[j].0@ by {
            assert(pv[i].0 != pv[j].0);
        }
    }
    r
}

} // verus!

verus! {

// ---------------------------------------------------------------------------
// Callouts
// ---------------------------------------------------------------------------

/// The number of times `c` occurs in `s`.
pub open spec fn count_char(s: Seq<char>, c: char) -> nat
    decreases s.len(),
{
    if s.len() == 0 {
        0
    } else {
        count_char(s.drop_last(), c) + if s.last() == c {
            1nat
        } else {
            0nat
        }
    }
}

proof fn lemma_count_add(a: Seq<char>, b: Seq<char>, c: char)
    ensures
        count_char(a + b, c) == count_char(a, c) + count_char(b, c),
    decreases b.len(),
{
    if b.len() == 0 {
        assert(a + b =~= a);
    } else {
        assert((a + b).drop_last() =~= a + b.drop_last());
        lemma_count_add(a, b.drop_last(), c);
    }
}

proof fn lemma_count_none(s: Seq<char>, c: char)
    requires
        forall|i: int| 0 <= i < s.len() ==> s[i] != c,
    ensures
        count_char(s, c) == 0,
    decreases s.len(),
{
    if s.len() > 0 {
        lemma_count_none(s.drop_last(), c);
    }
}

proof fn lemma_count_some(s: Seq<char>, c: char, k: int)
    requires
        0 <= k < s.len(),
        s[k] == c,
    ensures
        count_char(s, c) >= 1,
    decreases s.len(),
{
    if k < s.len() - 1 {
        lemma_count_some(s.drop_last(), c, k);
    }
}

proof fn lemma_count_skip(s: Seq<char>, k: int, c: char)
    requires
        0 <= k <= s.len(),
    ensures
        count_char(s.skip(k), c) <= count_char(s, c),
{
    assert(s =~= s.take(k) + s.skip(k));
    lemma_count_add(s.take(k), s.skip(k), c);
}

/// The length of a `<br>`, `<br/>` or `<br />` tag that starts at index `i`
/// of `s`, or 0 when none does.
pub open spec fn br_tag_at(s: Seq<char>, i: int) -> int {
    if occurs_at(s, seq!['<', 'b', 'r', '>'], i) {
        4
    } else if occurs_at(s, seq!['<', 'b', 'r', '/', '>'], i) {
        5
    } else if occurs_at(s, seq!['<', 'b', 'r', ' ', '/', '>'], i) {
        6
    } else {
        0
    }
}

/// Where the text of a callout starts, from index `i` of its inner HTML on:
/// whitespace and whole `<br>`, `<br/>` and `<br />` tags are passed over;
/// the first other character is where the text starts.
pub open spec fn callout_text_start(s: Seq<char>, i: int) -> int
    decreases s.len() - i,
{
    if 0 <= i < s.len() && is_space(s[i]) {
        callout_text_start(s, i + 1)
    } else if 0 <= i && br_tag_at(s, i) > 0 {
        callout_text_start(s, i + br_tag_at(s, i))
    } else {
        i
    }
}

/// The text of a callout: its inner HTML without the whitespace and line
/// break tags in front. Letters of the text are never removed.
pub open spec fn callout_text(s: Seq<char>) -> Seq<char> {
    s.skip(callout_text_start(s, 0))
}

proof fn lemma_callout_text_start(s: Seq<char>, i: int)
    requires
        0 <= i <= s.len(),
    ensures
        i <= callout_text_start(s, i) <= s.len(),
    decreases s.len() - i,
{
    if i < s.len() && is_space(s[i]) {
        lemma_callout_text_start(s, i + 1);
    } else if br_tag_at(s, i) > 0 {
        lemma_callout_text_start(s, i + br_tag_at(s, i));
    }
}

/// Callout text law: a callout's text that starts with neither whitespace
/// nor `<` is kept whole.
pub proof fn law_callout_text_keeps_letters(s: Seq<char>)
    requires
        s.len() > 0,
        !is_space(s[0]),
        s[0] != '<',
    ensures
        callout_text(s) == s,
{
    assert(!occurs_at(s, seq!['<', 'b', 'r', '>'], 0)) by {
        if occurs_at(s, seq!['<', 'b', 'r', '>'], 0) {
            assert(s.subrange(0, 4)[0] == s[0]);
        }
    }
    assert(!occurs_at(s, seq!['<', 'b', 'r', '/', '>'], 0)) by {
        if occurs_at(s, seq!['<', 'b', 'r', '/', '>'], 0) {
            assert(s.subrange(0, 5)[0] == s[0]);
        }
    }
    assert(!occurs_at(s, seq!['<', 'b', 'r', ' ', '/', '>'], 0)) by {
        if occurs_at(s, seq!['<', 'b', 'r', ' ', '/', '>'], 0) {
            assert(s.subrange(0, 6)[0] == s[0]);
        }
    }
    assert(s.skip(0) == s);
}

/// The HTML that replaces a callout blockquote.
pub open spec fn callout_html(
    class: Seq<char>,
    icon: Seq<char>,
    label: Seq<char>,
    inner: Seq<char>,
) -> Seq<char> {
    "<div class=\"callout "@ + class + "\">\n  <div class=\"callout-title\"><span>"@ + icon
        + "</span> "@ + label + "</div>\n  <p>"@ + inner + "</div>"@
}

/// Replaces the first blockquote that starts with `pat`, up to the first
/// `</blockquote>` after it; `None` when either is missing.
pub open spec fn replace_first_callout(
    s: Seq<char>,
    pat: Seq<char>,
    class: Seq<char>,
    icon: Seq<char>,
    label: Seq<char>,
) -> Option<Seq<char>> {
    match find(s, pat) {
        None => None,
        Some(p) => {
            let a = p + pat.len();
            match find_from(s, "</blockquote>"@, a) {
                None => None,
                Some(e) => Some(
                    s.take(p) + callout_html(class, icon, label, callout_text(s.subrange(a, e)))
                        + s.skip(e + "</blockquote>"@.len()),
                ),
            }
        },
    }
}

/// Replaces blockquotes that start with `pat` one after another, each time
/// searching from the start, until none is left or one is not closed. Each
/// replacement removes the `q` of `</blockquote>` and adds none, so the count
/// of `q` falls every time (the guard on it always holds).
pub open spec fn replace_callouts(
    s: Seq<char>,
    pat: Seq<char>,
    class: Seq<char>,
    icon: Seq<char>,
    label: Seq<char>,
) -> Seq<char>
    decreases count_char(s, 'q'),
{
    match replace_first_callout(s, pat, class, icon, label) {
        None => s,
        Some(t) => if count_char(t, 'q') < count_char(s, 'q') {
            replace_callouts(t, pat, class, icon, label)
        } else {
            t
        },
    }
}

/// The callouts of GitHub-style alerts: a blockquote whose first paragraph
/// starts with `[!NOTE]`, `[!TIP]`, `[!IMPORTANT]`, `[!WARNING]` or
/// `[!CAUTION]` (or the lowercase tag) becomes a titled `callout` box.
pub open spec fn callouts(html: Seq<char>) -> Seq<char> {
    let s1 = replace_callouts(html, "<blockquote>\n<p>[!NOTE]"@, "callout-note"@, "ℹ️"@, "Note"@);
    let s2 = replace_callouts(s1, "<blockquote>\n<p>[!note]"@, "callout-note"@, "ℹ️"@, "Note"@);
    let s3 = replace_callouts(s2, "<blockquote>\n<p>[!TIP]"@, "callout-tip"@, "💡"@, "Tip"@);
    let s4 = replace_callouts(s3, "<blockquote>\n<p>[!tip]"@, "callout-tip"@, "💡"@, "Tip"@);
    let s5 = replace_callouts(
        s4,
        "<blockquote>\n<p>[!IMPORTANT]"@,
        "callout-important"@,
        "🟣"@,
        "Important"@,
    );
    let s6 = replace_callouts(
        s5,
        "<blockquote>\n<p>[!important]"@,
        "callout-important"@,
        "🟣"@,
        "Important"@,
    );
    let s7 = replace_callouts(
        s6,
        "<blockquote>\n<p>[!WARNING]"@,
        "callout-warning"@,
        "⚠️"@,
        "Warning"@,
    );
    let s8 = replace_callouts(
        s7,
        "<blockquote>\n<p>[!warning]"@,
        "callout-warning"@,
        "⚠️"@,
        "Warning"@,
    );
    let s9 = replace_callouts(
        s8,
        "<blockquote>\n<p>[!CAUTION]"@,
        "callout-caution"@,
        "🛑"@,
        "Caution"@,
    );
    replace_callouts(s9, "<blockquote>\n<p>[!caution]"@, "callout-caution"@, "🛑"@, "Caution"@)
}

proof fn lemma_template_has_no_q()
    ensures
        count_char("<div class=\"callout "@, 'q') == 0,
        count_char("\">\n  <div class=\"callout-title\"><span>"@, 'q') == 0,
        count_char("</span> "@, 'q') == 0,
        count_char("</div>\n  <p>"@, 'q') == 0,
        count_char("</div>"@, 'q') == 0,
        count_char("</blockquote>"@, 'q') >= 1,
{
    reveal_strlit("<div class=\"callout ");
    reveal_strlit("\">\n  <div class=\"callout-title\"><span>");
    reveal_strlit("</span> ");
    reveal_strlit("</div>\n  <p>");
    reveal_strlit("</div>");
    reveal_strlit("</blockquote>");
    lemma_count_none("<div class=\"callout "@, 'q');
    lemma_count_none("\">\n  <div class=\"callout-title\"><span>"@, 'q');
    lemma_count_none("</span> "@, 'q');
    lemma_count_none("</div>\n  <p>"@, 'q');
    lemma_count_none("</div>"@, 'q');
    lemma_count_some("</blockquote>"@, 'q', 7);
}

proof fn lemma_callout_shrinks(
    s: Seq<char>,
    pat: Seq<char>,
    class: Seq<char>,
    icon: Seq<char>,
    label: Seq<char>,
)
    requires
        count_char(class, 'q') == 0,
        count_char(icon, 'q') == 0,
        count_char(label, 'q') == 0,
    ensures
        replace_first_callout(s, pat, class, icon, label) matches Some(t) ==> count_char(t, 'q')
            < count_char(s, 'q'),
{
    if let Some(t) = replace_first_callout(s, pat, class, icon, label) {
        let p = find(s, pat)->0;
        lemma_find_from(s, pat, 0);
        let a = p + pat.len();
        let close = "</blockquote>"@;
        let e = find_from(s, close, a)->0;
        lemma_find_from(s, close, a);
        let inner = s.subrange(a, e);
        let clean = callout_text(inner);
        let k = callout_text_start(inner, 0);
        lemma_callout_text_start(inner, 0);
        lemma_count_skip(inner, k, 'q');
        lemma_template_has_no_q();
        let rest = s.skip(e + close.len());
        assert(s =~= s.take(p) + s.subrange(p, a) + inner + s.subrange(e, e + close.len()) + rest);
        assert(s.subrange(e, e + close.len()) == close);
        lemma_count_add(s.take(p) + s.subrange(p, a) + inner + close, rest, 'q');
        lemma_count_add(s.take(p) + s.subrange(p, a) + inner, close, 'q');
        lemma_count_add(s.take(p) + s.subrange(p, a), inner, 'q');
        lemma_count_add(s.take(p), s.subrange(p, a), 'q');
        let l1 = "<div class=\"callout "@;
        let l2 = "\">\n  <div class=\"callout-title\"><span>"@;
        let l3 = "</span> "@;
        let l4 = "</div>\n  <p>"@;
        let l5 = "</div>"@;
        let h = callout_html(class, icon, label, clean);
        assert(h == l1 + class + l2 + icon + l3 + label + l4 + clean + l5);
        lemma_count_add(l1 + class + l2 + icon + l3 + label + l4 + clean, l5, 'q');
        lemma_count_add(l1 + class + l2 + icon + l3 + label + l4, clean, 'q');
        lemma_count_add(l1 + class + l2 + icon + l3 + label, l4, 'q');
        lemma_count_add(l1 + class + l2 + icon + l3, label, 'q');
        lemma_count_add(l1 + class + l2 + icon, l3, 'q');
        lemma_count_add(l1 + class + l2, icon, 'q');
        lemma_count_add(l1 + class, l2, 'q');
        lemma_count_add(l1, class, 'q');
        lemma_count_add(s.take(p) + h, rest, 'q');
        lemma_count_add(s.take(p), h, 'q');
    }
}

} // verus!

verus! {

/// The length of a line break tag at index `j` of `v`, or 0.
fn br_tag_len(v: &Vec<char>, j: usize) -> (r: usize)
    ensures
        r == br_tag_at(v@, j as int),
{
    let t4 = vec!['<', 'b', 'r', '>'];
    let t5 = vec!['<', 'b', 'r', '/', '>'];
    let t6 = vec!['<', 'b', 'r', ' ', '/', '>'];
    assert(t4@ == seq!['<', 'b', 'r', '>']);
    assert(t5@ == seq!['<', 'b', 'r', '/', '>']);
    assert(t6@ == seq!['<', 'b', 'r', ' ', '/', '>']);
    if crate::text::matches_at(v, &t4, j) {
        4
    } else if crate::text::matches_at(v, &t5, j) {
        5
    } else if crate::text::matches_at(v, &t6, j) {
        6
    } else {
        0
    }
}

/// Where the callout text inside `v[lo..hi]` starts.
fn skip_callout_start(v: &Vec<char>, lo: usize, hi: usize) -> (r: usize)
    requires
        lo <= hi <= v.len(),
    ensures
        lo <= r <= hi,
        v@.subrange(r as int, hi as int) == callout_text(v@.subrange(lo as int, hi as int)),
{
    let sub = crate::text::vec_range(v, lo, hi);
    let n = sub.len();
    let mut j: usize = 0;
    loop
        invariant
            n == sub.len(),
            sub@ == v@.subrange(lo as int, hi as int),
            j <= n,
            callout_text_start(sub@, j as int) == callout_text_start(sub@, 0),
        ensures
            n == sub.len(),
            sub@ == v@.subrange(lo as int, hi as int),
            j <= n,
            callout_text_start(sub@, 0) == j,
        decreases n - j,
    {
        if j < n && is_whitespace(sub[j]) {
            j += 1;
        } else {
            let b = br_tag_len(&sub, j);
            if b == 0 {
                break;
            }
            assert(j + b <= n);
            j += b;
        }
    }
    proof {
        lemma_callout_text_start(sub@, 0);
        assert(sub@.skip(j as int) =~= v@.subrange(lo + j, hi as int));
    }
    lo + j
}

/// One pass of `replace_callouts` for one pattern.
fn replace_callouts_exec(
    s: Vec<char>,
    pat: &str,
    class: &str,
    icon: &str,
    label: &str,
) -> (r: Vec<char>)
    requires
        count_char(class@, 'q') == 0,
        count_char(icon@, 'q') == 0,
        count_char(label@, 'q') == 0,
    ensures
        r@ == replace_callouts(s@, pat@, class@, icon@, label@),
{
    let pv = chars_of(pat);
    let close = chars_of("</blockquote>");
    let mut cur = s;
    loop
        invariant
            pv@ == pat@,
            close@ == "</blockquote>"@,
            count_char(class@, 'q') == 0,
            count_char(icon@, 'q') == 0,
            count_char(label@, 'q') == 0,
            replace_callouts(s@, pat@, class@, icon@, label@) == replace_callouts(
                cur@,
                pat@,
                class@,
                icon@,
                label@,
            ),
        decreases count_char(cur@, 'q'),
    {
        proof {
            lemma_callout_shrinks(cur@, pat@, class@, icon@, label@);
            lemma_find_from(cur@, pat@, 0);
        }
        let p = match find_in(&cur, &pv, 0) {
            Some(p) => p,
            None => return cur,
        };
        assert(occurs_at(cur@, pv@, p as int));
        let clen = cur.len();
        assert(p + pv@.len() <= clen);
        let a = p + pv.len();
        proof {
            lemma_find_from(cur@, close@, a as int);
        }
        let e = match find_in(&cur, &close, a) {
            Some(e) => e,
            None => return cur,
        };
        let k = skip_callout_start(&cur, a, e);
        let mut next: Vec<char> = Vec::new();
        crate::text::push_vec(&mut next, &cur, 0, p);
        crate::text::push_str_chars(&mut next, "<div class=\"callout ");
        crate::text::push_str_chars(&mut next, class);
        crate::text::push_str_chars(&mut next, "\">\n  <div class=\"callout-title\"><span>");
        crate::text::push_str_chars(&mut next, icon);
        crate::text::push_str_chars(&mut next, "</span> ");
        crate::text::push_str_chars(&mut next, label);
        crate::text::push_str_chars(&mut next, "</div>\n  <p>");
        crate::text::push_vec(&mut next, &cur, k, e);
        crate::text::push_str_chars(&mut next, "</div>");
        crate::text::push_vec(&mut next, &cur, e + close.len(), cur.len());
        proof {
            assert(cur@.subrange(0, p as int) =~= cur@.take(p as int));
            assert(cur@.subrange(e + close.len(), cur.len() as int) =~= cur@.skip(
                e + close.len(),
            ));
            assert(next@ =~= cur@.take(p as int) + callout_html(
                class@,
                icon@,
                label@,
                callout_text(cur@.subrange(a as int, e as int)),
            ) + cur@.skip(e + "</blockquote>"@.len()));
        }
        cur = next;
    }
}

proof fn lemma_labels_have_no_q()
    ensures
        count_char("callout-note"@, 'q') == 0,
        count_char("ℹ️"@, 'q') == 0,
        count_char("Note"@, 'q') == 0,
        count_char("callout-tip"@, 'q') == 0,
        count_char("💡"@, 'q') == 0,
        count_char("Tip"@, 'q') == 0,
        count_char("callout-important"@, 'q') == 0,
        count_char("🟣"@, 'q') == 0,
        count_char("Important"@, 'q') == 0,
        count_char("callout-warning"@, 'q') == 0,
        count_char("⚠️"@, 'q') == 0,
        count_char("Warning"@, 'q') == 0,
        count_char("callout-caution"@, 'q') == 0,
        count_char("🛑"@, 'q') == 0,
        count_char("Caution"@, 'q') == 0,
{
    reveal_strlit("callout-note");
    reveal_strlit("ℹ️");
    reveal_strlit("Note");
    reveal_strlit("callout-tip");
    reveal_strlit("💡");
    reveal_strlit("Tip");
    reveal_strlit("callout-important");
    reveal_strlit("🟣");
    reveal_strlit("Important");
    reveal_strlit("callout-warning");
    reveal_strlit("⚠️");
    reveal_strlit("Warning");
    reveal_strlit("callout-caution");
    reveal_strlit("🛑");
    reveal_strlit("Caution");
    lemma_count_none("callout-note"@, 'q');
    lemma_count_none("ℹ️"@, 'q');
    lemma_count_none("Note"@, 'q');
    lemma_count_none("callout-tip"@, 'q');
    lemma_count_none("💡"@, 'q');
    lemma_count_none("Tip"@, 'q');
    lemma_count_none("callout-important"@, 'q');
    lemma_count_none("🟣"@, 'q');
    lemma_count_none("Important"@, 'q');
    lemma_count_none("callout-warning"@, 'q');
    lemma_count_none("⚠️"@, 'q');
    lemma_count_none("Warning"@, 'q');
    lemma_count_none("callout-caution"@, 'q');
    lemma_count_none("🛑"@, 'q');
    lemma_count_none("Caution"@, 'q');
}

/// Converts GitHub-style callouts in blockquotes
/// (`<blockquote>\n<p>[!NOTE]` ... `</blockquote>`) into callout boxes.
pub fn process_callouts(html: &str) -> (r: String)
    ensures
        r@ == callouts(html@),
{
    proof {
        lemma_labels_have_no_q();
    }
    let s0 = chars_of(html);
    let s1 = replace_callouts_exec(s0, "<blockquote>\n<p>[!NOTE]", "callout-note", "ℹ️", "Note");
    let s2 = replace_callouts_exec(s1, "<blockquote>\n<p>[!note]", "callout-note", "ℹ️", "Note");
    let s3 = replace_callouts_exec(s2, "<blockquote>\n<p>[!TIP]", "callout-tip", "💡", "Tip");
    let s4 = replace_callouts_exec(s3, "<blockquote>\n<p>[!tip]", "callout-tip", "💡", "Tip");
    let s5 = replace_callouts_exec(
        s4,
        "<blockquote>\n<p>[!IMPORTANT]",
        "callout-important",
        "🟣",
        "Important",
    );
    let s6 = replace_callouts_exec(
        s5,
        "<blockquote>\n<p>[!important]",
        "callout-important",
        "🟣",
        "Important",
    );
    let s7 = replace_callouts_exec(
        s6,
        "<blockquote>\n<p>[!WARNING]",
        "callout-warning",
        "⚠️",
        "Warning",
    );
    let s8 = replace_callouts_exec(
        s7,
        "<blockquote>\n<p>[!warning]",
        "callout-warning",
        "⚠️",
        "Warning",
    );
    let s9 = replace_callouts_exec(
        s8,
        "<blockquote>\n<p>[!CAUTION]",
        "callout-caution",
        "🛑",
        "Caution",
    );
    let s10 = replace_callouts_exec(
        s9,
        "<blockquote>\n<p>[!caution]",
        "callout-caution",
        "🛑",
        "Caution",
    );
    string_of(&s10)
}

} // verus!

verus! {

// ---------------------------------------------------------------------------
// Rendering through pulldown-cmark
// ---------------------------------------------------------------------------

/// An entry of a page's table of contents.
pub struct TocItem {
    pub level: u32,
    pub title: String,
    pub id: String,
}

pub struct TocView {
    pub level: nat,
    pub title: Seq<char>,
    pub id: Seq<char>,
}

impl TocItem {
    pub open spec fn view(&self) -> TocView {
        TocView { level: self.level as nat, title: self.title@, id: self.id@ }
    }
}

pub open spec fn toc_views(v: Seq<TocItem>) -> Seq<TocView> {
    v.map_values(|t: TocItem| t.view())
}

/// A rendered page.
pub struct RenderedMarkdown {
    pub frontmatter: FrontMatter,
    pub title: String,
    pub html_content: String,
    pub toc: Vec<TocItem>,
}

/// What the rendering needs to know of one pulldown-cmark event.
pub enum MdEvent {
    /// The start of a heading of the given level (1 to 6).
    HeadingStart(u8),
    HeadingEnd,
    /// Text or inline code.
    Text(String),
    /// The start of a code block: the info string of a fenced block, `None`
    /// for an indented one.
    CodeBlockStart(Option<String>),
    CodeBlockEnd,
    TableStart,
    TableEnd,
    /// Any other event.
    Other,
}

pub enum MdEv {
    HeadingStart(nat),
    HeadingEnd,
    Text(Seq<char>),
    CodeBlockStart(Option<Seq<char>>),
    CodeBlockEnd,
    TableStart,
    TableEnd,
    Other,
}

impl MdEvent {
    pub open spec fn view(&self) -> MdEv {
        match self {
            MdEvent::HeadingStart(l) => MdEv::HeadingStart(*l as nat),
            MdEvent::HeadingEnd => MdEv::HeadingEnd,
            MdEvent::Text(t) => MdEv::Text(t@),
            MdEvent::CodeBlockStart(k) => MdEv::CodeBlockStart(opt_view(*k)),
            MdEvent::CodeBlockEnd => MdEv::CodeBlockEnd,
            MdEvent::TableStart => MdEv::TableStart,
            MdEvent::TableEnd => MdEv::TableEnd,
            MdEvent::Other => MdEv::Other,
        }
    }
}

pub open spec fn md_views(v: Seq<MdEvent>) -> Seq<MdEv> {
    v.map_values(|e: MdEvent| e.view())
}

/// One event of the output stream: raw HTML, or the event at an index of
/// the parsed input.
pub enum Emit {
    Html(String),
    Source(usize),
}

pub enum EmitView {
    Html(Seq<char>),
    Source(nat),
}

impl Emit {
    pub open spec fn view(&self) -> EmitView {
        match self {
            Emit::Html(s) => EmitView::Html(s@),
            Emit::Source(i) => EmitView::Source(*i as nat),
        }
    }
}

pub open spec fn emit_views(v: Seq<Emit>) -> Seq<EmitView> {
    v.map_values(|e: Emit| e.view())
}

/// The pulldown-cmark options that pages are parsed with, as `Options`
/// bits: tables (`1 << 1`), footnotes (`1 << 2`), strikethrough (`1 << 3`),
/// task lists (`1 << 4`) and heading attributes (`1 << 6`).
pub const PAGE_OPTIONS: u32 = 2 | 4 | 8 | 16 | 64;

/// The events pulldown-cmark's parser yields for a page body under the
/// given option bits.
pub uninterp spec fn markdown_events(body: Seq<char>, options: u32) -> Seq<MdEv>;

/// The HTML that pulldown-cmark's `push_html` writes for the output stream
/// `plan` over the events of `body` parsed under `options`.
pub uninterp spec fn planned_html(body: Seq<char>, options: u32, plan: Seq<EmitView>) -> Seq<char>;

/// Runs `pulldown_cmark::Parser::new_ext` over `body` with the option bits
/// `options` and records each event as an `MdEvent` (heading levels as
/// numbers, text and inline code as text, fenced code blocks with their info
/// string). Claimed: the result is the named event sequence of `body` under
/// `options`, and heading levels lie in 1..=6 (the six variants of
/// `HeadingLevel`).
#[verifier::external_body]
fn parse_markdown_events(body: &str, options: u32) -> (r: Vec<MdEvent>)
    ensures
        md_views(r@) == markdown_events(body@, options),
        forall|i: int|
            0 <= i < r@.len() ==> (#[trigger] r@[i] matches MdEvent::HeadingStart(l) ==> 1 <= l
                <= 6),
{
    let mut out = Vec::new();
    for e in Parser::new_ext(body, Options::from_bits_truncate(options)) {
        out.push(match e {
            Start(Tag::Heading { level, .. }) => MdEvent::HeadingStart(level as u8),
            End(TagEnd::Heading(_)) => MdEvent::HeadingEnd,
            Text(t) | Code(t) => MdEvent::Text(t.to_string()),
            Start(Tag::CodeBlock(Fenced(l))) => MdEvent::CodeBlockStart(Some(l.to_string())),
            Start(Tag::CodeBlock(Indented)) => MdEvent::CodeBlockStart(None),
            End(TagEnd::CodeBlock) => MdEvent::CodeBlockEnd,
            Start(Tag::Table(_)) => MdEvent::TableStart,
            End(TagEnd::Table) => MdEvent::TableEnd,
            _ => MdEvent::Other,
        });
    }
    out
}

/// Parses `body` again with `Parser::new_ext` under `options`, builds the
/// output stream of `plan` (`Event::Html` for raw HTML, a clone of the
/// parsed event for an index) and writes it with
/// `pulldown_cmark::html::push_html` into an empty string. Claimed: the
/// result is the named HTML of `body`, `options` and `plan`.
#[verifier::external_body]
fn render_planned(body: &str, options: u32, plan: &Vec<Emit>) -> (r: String)
    requires
        forall|i: int|
            0 <= i < plan@.len() ==> (#[trigger] plan@[i] matches Emit::Source(k) ==> k
                < markdown_events(body@, options).len()),
    ensures
        r@ == planned_html(body@, options, emit_views(plan@)),
{
    let events: Vec<Event> = Parser::new_ext(body, Options::from_bits_truncate(options)).collect();
    let mut out = Vec::new();
    for p in plan {
        out.push(match p {
            Emit::Html(s) => Event::Html(CowStr::from(s.clone())),
            Emit::Source(i) => events[*i].clone(),
        });
    }
    let mut html_output = String::new();
    pulldown_cmark::html::push_html(&mut html_output, out.into_iter());
    html_output
}

} // verus!

verus! {

/// The state of the event transformation.
pub struct PlanState {
    pub in_heading: bool,
    pub level: nat,
    pub buffer: Seq<char>,
    pub title: Option<Seq<char>>,
    pub slugs: Seq<Seq<char>>,
    pub toc: Seq<TocView>,
    pub out: Seq<EmitView>,
}

pub open spec fn initial_plan() -> PlanState {
    PlanState {
        in_heading: false,
        level: 1,
        buffer: seq![],
        title: None,
        slugs: seq![],
        toc: seq![],
        out: seq![],
    }
}

/// How many times `s` occurs in `v`.
pub open spec fn occurrences(v: Seq<Seq<char>>, s: Seq<char>) -> nat
    decreases v.len(),
{
    if v.len() == 0 {
        0
    } else {
        occurrences(v.drop_last(), s) + if v.last() == s {
            1nat
        } else {
            0nat
        }
    }
}

/// The id of a heading whose base slug is `base`, given the base slugs of
/// the headings before it: the base itself the first time, then `base-2`,
/// `base-3`, and so on.
pub open spec fn heading_id(slugs: Seq<Seq<char>>, base: Seq<char>) -> Seq<char> {
    let count = occurrences(slugs, base) + 1;
    if count > 1 {
        base + seq!['-'] + crate::text::decimal(count)
    } else {
        base
    }
}

proof fn lemma_occurrences_concat(a: Seq<Seq<char>>, b: Seq<Seq<char>>, s: Seq<char>)
    ensures
        occurrences(a + b, s) == occurrences(a, s) + occurrences(b, s),
    decreases b.len(),
{
    if b.len() == 0 {
        assert(a + b == a);
    } else {
        lemma_occurrences_concat(a, b.drop_last(), s);
        assert((a + b).drop_last() == a + b.drop_last());
        assert((a + b).last() == b.last());
    }
}

/// Heading id law: a heading gets an id different from that of every
/// earlier heading of the page with the same base slug.
#[verifier::spinoff_prover]
#[verifier::rlimit(30)]
pub proof fn law_heading_ids_distinct(earlier: Seq<Seq<char>>, between: Seq<Seq<char>>, base: Seq<char>)
    ensures
        heading_id(earlier, base) != heading_id(earlier.push(base) + between, base),
{
    let later = earlier.push(base) + between;
    lemma_occurrences_concat(earlier.push(base), between, base);
    assert(earlier.push(base).drop_last() == earlier);
    let c1 = occurrences(earlier, base) + 1;
    let c2 = occurrences(later, base) + 1;
    assert(c2 > c1);
    let id1 = heading_id(earlier, base);
    let id2 = heading_id(later, base);
    let pre = base + seq!['-'];
    crate::text::lemma_decimal_value(c2);
    if c1 <= 1 {
        assert(id1.len() < id2.len());
    } else {
        crate::text::lemma_decimal_value(c1);
        if id1 == id2 {
            let d1 = crate::text::decimal(c1);
            let d2 = crate::text::decimal(c2);
            assert(id1 == pre + d1);
            assert(id2 == pre + d2);
            assert(d1 == id1.skip(pre.len() as int));
            assert(d2 == id2.skip(pre.len() as int));
        }
    }
}

/// The HTML of a heading with an anchor link.
pub open spec fn heading_html(level: nat, id: Seq<char>, title: Seq<char>) -> Seq<char> {
    "<h"@ + crate::text::decimal(level) + " id=\""@ + id + "\">"@ + crate::html::html_escaped(title)
        + "<a href=\"#"@ + id + "\" class=\"header-anchor\" aria-label=\"Link to section\">#</a></h"@
        + crate::text::decimal(level) + ">"@
}

/// The language shown for a code block.
pub open spec fn code_lang(info: Option<Seq<char>>) -> Seq<char> {
    match info {
        Some(l) => if trim(l).len() == 0 {
            "text"@
        } else {
            trim(l)
        },
        None => "text"@,
    }
}

/// The HTML that opens a code block's wrapper with its language label and
/// copy button.
pub open spec fn code_block_open(lang: Seq<char>) -> Seq<char> {
    "<div class=\"code-block-wrapper\">\n  <div class=\"code-block-header\">\n    <span class=\"code-lang\">"@
        + crate::html::html_escaped(lang)
        + "</span>\n    <button class=\"copy-btn\" type=\"button\" aria-label=\"Copy code\">Copy</button>\n  </div>\n"@
}

/// One step of the transformation, for event `ev` at index `idx`: heading
/// starts are dropped and heading text collected; a heading's end becomes
/// its HTML with a unique id (and, for levels 2 to 4, a table of contents
/// entry; the first level-1 heading gives the title); code blocks and tables
/// are wrapped in a `div`; every other event passes through.
pub open spec fn plan_step(st: PlanState, ev: MdEv, idx: nat) -> PlanState {
    match ev {
        MdEv::HeadingStart(l) => PlanState { in_heading: true, level: l, buffer: seq![], ..st },
        MdEv::Text(t) => if st.in_heading {
            PlanState { buffer: st.buffer + t, ..st }
        } else {
            PlanState { out: st.out.push(EmitView::Source(idx)), ..st }
        },
        MdEv::HeadingEnd => {
            let title_text = trim(st.buffer);
            let base = slug_of(title_text);
            let id = heading_id(st.slugs, base);
            PlanState {
                in_heading: false,
                title: if st.title is None && st.level == 1 {
                    Some(title_text)
                } else {
                    st.title
                },
                slugs: st.slugs.push(base),
                toc: if 2 <= st.level <= 4 {
                    st.toc.push(TocView { level: st.level, title: title_text, id: id })
                } else {
                    st.toc
                },
                out: st.out.push(EmitView::Html(heading_html(st.level, id, title_text))),
                ..st
            }
        },
        MdEv::CodeBlockStart(info) => PlanState {
            out: st.out.push(EmitView::Html(code_block_open(code_lang(info)))).push(
                EmitView::Source(idx),
            ),
            ..st
        },
        MdEv::CodeBlockEnd => PlanState {
            out: st.out.push(EmitView::Source(idx)).push(EmitView::Html("</div>\n"@)),
            ..st
        },
        MdEv::TableStart => PlanState {
            out: st.out.push(EmitView::Html("<div class=\"table-wrapper\">\n"@)).push(
                EmitView::Source(idx),
            ),
            ..st
        },
        MdEv::TableEnd => PlanState {
            out: st.out.push(EmitView::Source(idx)).push(EmitView::Html("</div>\n"@)),
            ..st
        },
        MdEv::Other => PlanState { out: st.out.push(EmitView::Source(idx)), ..st },
    }
}

/// The transformation of a whole event sequence.
pub open spec fn plan_events(evs: Seq<MdEv>) -> PlanState
    decreases evs.len(),
{
    if evs.len() == 0 {
        initial_plan()
    } else {
        plan_step(plan_events(evs.drop_last()), evs.last(), (evs.len() - 1) as nat)
    }
}

/// The events of a heading of level `l` whose text is `t`.
pub open spec fn heading_events(l: nat, t: Seq<char>) -> Seq<MdEv> {
    seq![MdEv::HeadingStart(l), MdEv::Text(t), MdEv::HeadingEnd]
}

/// Heading law: a heading of level 2, 3 or 4 adds exactly one entry to the
/// table of contents, with its level, its trimmed text and its id, and a
/// heading of any other level adds none; every heading is written as an
/// anchored heading with that id; the first level-1 heading gives the page
/// title and later headings leave it.
pub proof fn law_heading_in_plan(evs: Seq<MdEv>, l: nat, t: Seq<char>)
    ensures
        2 <= l <= 4 ==> plan_events(evs + heading_events(l, t)).toc == plan_events(evs).toc.push(
            TocView {
                level: l,
                title: trim(t),
                id: heading_id(plan_events(evs).slugs, slug_of(trim(t))),
            },
        ),
        !(2 <= l <= 4) ==> plan_events(evs + heading_events(l, t)).toc == plan_events(evs).toc,
        plan_events(evs + heading_events(l, t)).out == plan_events(evs).out.push(
            EmitView::Html(
                heading_html(l, heading_id(plan_events(evs).slugs, slug_of(trim(t))), trim(t)),
            ),
        ),
        l == 1 && plan_events(evs).title is None ==> plan_events(evs + heading_events(l, t)).title
            == Some(trim(t)),
        !(l == 1 && plan_events(evs).title is None) ==> plan_events(
            evs + heading_events(l, t),
        ).title == plan_events(evs).title,
{
    let all = evs + heading_events(l, t);
    let e1 = evs.push(MdEv::HeadingStart(l));
    let e2 = e1.push(MdEv::Text(t));
    assert(all == e2.push(MdEv::HeadingEnd));
    assert(all.drop_last() == e2);
    assert(e2.drop_last() == e1);
    assert(e1.drop_last() == evs);
    let s0 = plan_events(evs);
    let s1 = plan_events(e1);
    let s2 = plan_events(e2);
    assert(s1 == plan_step(s0, MdEv::HeadingStart(l), evs.len()));
    assert(s2 == plan_step(s1, MdEv::Text(t), (e2.len() - 1) as nat));
    assert(s2.buffer == seq![] + t);
    assert(seq![] + t == t);
    assert(plan_events(all) == plan_step(s2, MdEv::HeadingEnd, (all.len() - 1) as nat));
}

/// The result of the event transformation.
pub struct MarkdownPlan {
    /// The output event stream.
    pub emits: Vec<Emit>,
    /// The table of contents (headings of levels 2 to 4).
    pub toc: Vec<TocItem>,
    /// The text of the first level-1 heading.
    pub detected_title: Option<String>,
}

/// Law: every table of contents entry comes from a heading of level 2 to 4,
/// and every event index in the output stream points into the input.
pub proof fn law_plan_shape(evs: Seq<MdEv>)
    ensures
        forall|i: int|
            0 <= i < plan_events(evs).toc.len() ==> 2 <= (#[trigger] plan_events(evs).toc[i]).level
                <= 4,
        forall|i: int|
            0 <= i < plan_events(evs).out.len() ==> (#[trigger] plan_events(evs).out[i] matches EmitView::Source(
                k,
            ) ==> k < evs.len()),
    decreases evs.len(),
{
    if evs.len() > 0 {
        law_plan_shape(evs.drop_last());
    }
}

} // verus!

verus! {

pub open spec fn plan_view(
    in_heading: bool,
    level: u8,
    buffer: Seq<char>,
    title: Option<String>,
    slugs: Seq<Vec<char>>,
    toc: Seq<TocItem>,
    out: Seq<Emit>,
) -> PlanState {
    PlanState {
        in_heading: in_heading,
        level: level as nat,
        buffer: buffer,
        title: opt_view(title),
        slugs: views(slugs),
        toc: toc_views(toc),
        out: emit_views(out),
    }
}

/// How many entries of `v` equal `s`.
fn count_equal(v: &Vec<Vec<char>>, s: &Vec<char>) -> (r: usize)
    ensures
        r == occurrences(views(v@), s@),
        r <= v.len(),
{
    let mut n: usize = 0;
    let mut i: usize = 0;
    assert(views(v@).take(0) =~= Seq::<Seq<char>>::empty());
    while i < v.len()
        invariant
            0 <= i <= v.len(),
            n <= i,
            n == occurrences(views(v@).take(i as int), s@),
        decreases v.len() - i,
    {
        assert(views(v@).take(i + 1).drop_last() =~= views(v@).take(i as int));
        if chars_eq(&v[i], s) {
            n += 1;
        }
        i += 1;
    }
    assert(views(v@).take(v.len() as int) =~= views(v@));
    n
}

/// The HTML of a heading, built from its parts.
fn build_heading_html(level: u8, id: &String, title: &String) -> (r: String)
    ensures
        r@ == heading_html(level as nat, id@, title@),
{
    let mut h = String::new();
    h.append("<h");
    crate::text::push_decimal(&mut h, level as u64);
    h.append(" id=\"");
    h.append(id.as_str());
    h.append("\">");
    let esc = crate::html::html_escape(title.as_str());
    h.append(esc.as_str());
    h.append("<a href=\"#");
    h.append(id.as_str());
    h.append("\" class=\"header-anchor\" aria-label=\"Link to section\">#</a></h");
    crate::text::push_decimal(&mut h, level as u64);
    h.append(">");
    assert(h@ =~= heading_html(level as nat, id@, title@));
    h
}

/// The HTML that opens a code block.
fn build_code_open(info: &Option<String>) -> (r: String)
    ensures
        r@ == code_block_open(code_lang(opt_view(*info))),
{
    let mut lang = String::new();
    match info {
        Some(l) => {
            let lv = chars_of(l.as_str());
            let (a, b) = trim_bounds(&lv, 0, lv.len());
            assert(lv@.subrange(0, lv@.len() as int) =~= lv@);
            if a == b {
                lang.append("text");
            } else {
                lang = string_of_range(&lv, a, b);
            }
        },
        None => {
            lang.append("text");
        },
    }
    assert(Seq::<char>::empty() + "text"@ =~= "text"@);
    let mut h = String::new();
    h.append(
        "<div class=\"code-block-wrapper\">\n  <div class=\"code-block-header\">\n    <span class=\"code-lang\">",
    );
    let esc = crate::html::html_escape(lang.as_str());
    h.append(esc.as_str());
    h.append(
        "</span>\n    <button class=\"copy-btn\" type=\"button\" aria-label=\"Copy code\">Copy</button>\n  </div>\n",
    );
    assert(h@ =~= code_block_open(code_lang(opt_view(*info))));
    h
}

fn html_emit(s: &str) -> (r: Emit)
    ensures
        r.view() == EmitView::Html(s@),
{
    Emit::Html(String::from_str(s))
}

/// Transforms the events of a page: collects heading text and replaces each
/// heading by HTML with a unique slug id and an anchor link, records the
/// table of contents (levels 2 to 4) and the first level-1 heading, wraps
/// code blocks (with a language label and copy button) and tables in `div`s,
/// and passes all other events through by index.
pub fn plan_markdown(events: &Vec<MdEvent>) -> (r: MarkdownPlan)
    ensures
        emit_views(r.emits@) == plan_events(md_views(events@)).out,
        toc_views(r.toc@) == plan_events(md_views(events@)).toc,
        opt_view(r.detected_title) == plan_events(md_views(events@)).title,
{
    let ghost evs = md_views(events@);
    let mut in_heading = false;
    let mut level: u8 = 1;
    let mut buffer = String::new();
    let mut title: Option<String> = None;
    let mut slugs: Vec<Vec<char>> = Vec::new();
    let mut toc: Vec<TocItem> = Vec::new();
    let mut out: Vec<Emit> = Vec::new();
    let mut i: usize = 0;
    proof {
        assert(evs.take(0) =~= Seq::<MdEv>::empty());
        assert(views(slugs@) =~= Seq::<Seq<char>>::empty());
        assert(toc_views(toc@) =~= Seq::<TocView>::empty());
        assert(emit_views(out@) =~= Seq::<EmitView>::empty());
        assert(plan_view(in_heading, level, buffer@, title, slugs@, toc@, out@) == initial_plan());
    }
    while i < events.len()
        invariant
            0 <= i <= events.len(),
            slugs.len() <= i,
            evs == md_views(events@),
            plan_view(in_heading, level, buffer@, title, slugs@, toc@, out@) == plan_events(
                evs.take(i as int),
            ),
        decreases events.len() - i,
    {
        let ghost st = plan_events(evs.take(i as int));
        proof {
            assert(evs.take(i + 1).drop_last() =~= evs.take(i as int));
            assert(evs.take(i + 1).last() == events@[i as int].view());
        }
        let ghost old_out = out@;
        let ghost old_toc = toc@;
        let ghost old_slugs = slugs@;
        match &events[i] {
            MdEvent::HeadingStart(l) => {
                in_heading = true;
                level = *l;
                buffer = String::new();
            },
            MdEvent::Text(t) => {
                if in_heading {
                    buffer.append(t.as_str());
                } else {
                    out.push(Emit::Source(i));
                    assert(emit_views(out@) =~= emit_views(old_out).push(EmitView::Source(i as nat)));
                }
            },
            MdEvent::HeadingEnd => {
                in_heading = false;
                let bv = chars_of(buffer.as_str());
                let (a, b) = trim_bounds(&bv, 0, bv.len());
                assert(bv@.subrange(0, bv@.len() as int) =~= bv@);
                let title_text = string_of_range(&bv, a, b);
                let base_s = slugify(title_text.as_str());
                let base = chars_of(base_s.as_str());
                let count = count_equal(&slugs, &base) + 1;
                let mut id = String::new();
                id.append(base_s.as_str());
                if count > 1 {
                    id.push('-');
                    crate::text::push_decimal(&mut id, count as u64);
                }
                assert(id@ =~= heading_id(views(old_slugs), base@));
                let h = build_heading_html(level, &id, &title_text);
                if title.is_none() && level == 1 {
                    title = Some(String::from_str(title_text.as_str()));
                }
                slugs.push(base);
                assert(views(slugs@) =~= views(old_slugs).push(base_s@));
                if 2 <= level && level <= 4 {
                    toc.push(TocItem { level: level as u32, title: title_text, id: id });
                    assert(toc_views(toc@) =~= toc_views(old_toc).push(
                        TocView {
                            level: level as nat,
                            title: trim(st.buffer),
                            id: heading_id(st.slugs, slug_of(trim(st.buffer))),
                        },
                    ));
                }
                out.push(Emit::Html(h));
                assert(emit_views(out@) =~= emit_views(old_out).push(
                    EmitView::Html(heading_html(st.level, heading_id(st.slugs, slug_of(trim(st.buffer))), trim(st.buffer))),
                ));
            },
            MdEvent::CodeBlockStart(info) => {
                let h = build_code_open(info);
                out.push(Emit::Html(h));
                out.push(Emit::Source(i));
                assert(emit_views(out@) =~= emit_views(old_out).push(
                    EmitView::Html(code_block_open(code_lang(opt_view(*info)))),
                ).push(EmitView::Source(i as nat)));
            },
            MdEvent::CodeBlockEnd => {
                out.push(Emit::Source(i));
                out.push(html_emit("</div>\n"));
                assert(emit_views(out@) =~= emit_views(old_out).push(EmitView::Source(i as nat)).push(
                    EmitView::Html("</div>\n"@),
                ));
            },
            MdEvent::TableStart => {
                out.push(html_emit("<div class=\"table-wrapper\">\n"));
                out.push(Emit::Source(i));
                assert(emit_views(out@) =~= emit_views(old_out).push(
                    EmitView::Html("<div class=\"table-wrapper\">\n"@),
                ).push(EmitView::Source(i as nat)));
            },
            MdEvent::TableEnd => {
                out.push(Emit::Source(i));
                out.push(html_emit("</div>\n"));
                assert(emit_views(out@) =~= emit_views(old_out).push(EmitView::Source(i as nat)).push(
                    EmitView::Html("</div>\n"@),
                ));
            },
            MdEvent::Other => {
                out.push(Emit::Source(i));
                assert(emit_views(out@) =~= emit_views(old_out).push(EmitView::Source(i as nat)));
            },
        }
        i += 1;
    }
    assert(evs.take(events.len() as int) =~= evs);
    MarkdownPlan { emits: out, toc: toc, detected_title: title }
}

} // verus!

verus! {

/// A page's title: the front matter title, else the first level-1 heading,
/// else the fallback.
pub open spec fn page_title(
    fm_title: Option<Seq<char>>,
    detected: Option<Seq<char>>,
    fallback: Seq<char>,
) -> Seq<char> {
    match fm_title {
        Some(t) => t,
        None => match detected {
            Some(t) => t,
            None => fallback,
        },
    }
}

/// Parses and renders a page to HTML: the front matter is read, the body is
/// parsed by pulldown-cmark (tables, footnotes, strikethrough, task lists),
/// headings get slug ids and anchor links, a table of contents is kept,
/// code blocks get a copy button, tables a scrolling wrapper, and GitHub-style
/// callouts become callout boxes.
pub fn render_markdown(raw_input: &str, fallback_title: &str) -> (r: RenderedMarkdown)
    ensures
        r.frontmatter.view() == front_matter_of(raw_input@).0,
        r.html_content@ == callouts(
            planned_html(
                front_matter_of(raw_input@).1,
                PAGE_OPTIONS,
                plan_events(markdown_events(front_matter_of(raw_input@).1, PAGE_OPTIONS)).out,
            ),
        ),
        toc_views(r.toc@) == plan_events(markdown_events(front_matter_of(raw_input@).1, PAGE_OPTIONS)).toc,
        r.title@ == page_title(
            front_matter_of(raw_input@).0.title,
            plan_events(markdown_events(front_matter_of(raw_input@).1, PAGE_OPTIONS)).title,
            fallback_title@,
        ),
{
    let (frontmatter, body) = parse_frontmatter(raw_input);
    let events = parse_markdown_events(body, PAGE_OPTIONS);
    let plan = plan_markdown(&events);
    proof {
        law_plan_shape(md_views(events@));
        assert forall|i: int| 0 <= i < plan.emits@.len() implies (#[trigger] plan.emits@[i] matches Emit::Source(
            k,
        ) ==> k < markdown_events(body@, PAGE_OPTIONS).len()) by {
            assert(emit_views(plan.emits@)[i] == plan.emits@[i].view());
        }
    }
    let html_output = render_planned(body, PAGE_OPTIONS, &plan.emits);
    let processed = process_callouts(html_output.as_str());
    let title = match &frontmatter.title {
        Some(t) => t.clone(),
        None => match plan.detected_title {
            Some(t) => t,
            None => String::from_str(fallback_title),
        },
    };
    RenderedMarkdown { frontmatter, title, html_content: processed, toc: plan.toc }
}

} // verus!

verus! {

// ---------------------------------------------------------------------------
// What callouts become
// ---------------------------------------------------------------------------

/// `s` holds no `!`.
pub open spec fn no_bang(s: Seq<char>) -> bool {
    forall|j: int| 0 <= j < s.len() ==> s[j] != '!'
}

/// The callout kinds: the text that opens the blockquote of each (upper and
/// lower case tag), and the class, icon and label of its box.
pub open spec fn callout_kind(k: int) -> (Seq<char>, Seq<char>, Seq<char>, Seq<char>) {
    if k == 0 {
        ("<blockquote>\n<p>[!NOTE]"@, "callout-note"@, "ℹ️"@, "Note"@)
    } else if k == 1 {
        ("<blockquote>\n<p>[!note]"@, "callout-note"@, "ℹ️"@, "Note"@)
    } else if k == 2 {
        ("<blockquote>\n<p>[!TIP]"@, "callout-tip"@, "💡"@, "Tip"@)
    } else if k == 3 {
        ("<blockquote>\n<p>[!tip]"@, "callout-tip"@, "💡"@, "Tip"@)
    } else if k == 4 {
        ("<blockquote>\n<p>[!IMPORTANT]"@, "callout-important"@, "🟣"@, "Important"@)
    } else if k == 5 {
        ("<blockquote>\n<p>[!important]"@, "callout-important"@, "🟣"@, "Important"@)
    } else if k == 6 {
        ("<blockquote>\n<p>[!WARNING]"@, "callout-warning"@, "⚠️"@, "Warning"@)
    } else if k == 7 {
        ("<blockquote>\n<p>[!warning]"@, "callout-warning"@, "⚠️"@, "Warning"@)
    } else if k == 8 {
        ("<blockquote>\n<p>[!CAUTION]"@, "callout-caution"@, "🛑"@, "Caution"@)
    } else {
        ("<blockquote>\n<p>[!caution]"@, "callout-caution"@, "🛑"@, "Caution"@)
    }
}

/// The first letter of the tag of each kind.
pub open spec fn callout_letter(k: int) -> char {
    if k == 0 {
        'N'
    } else if k == 1 {
        'n'
    } else if k == 2 {
        'T'
    } else if k == 3 {
        't'
    } else if k == 4 {
        'I'
    } else if k == 5 {
        'i'
    } else if k == 6 {
        'W'
    } else if k == 7 {
        'w'
    } else if k == 8 {
        'C'
    } else {
        'c'
    }
}

proof fn lemma_callout_kind(k: int)
    requires
        0 <= k < 10,
    ensures
        callout_kind(k).0.len() >= 19,
        callout_kind(k).0[17] == '!',
        callout_kind(k).0[18] == callout_letter(k),
        forall|m: int| 0 <= m < callout_kind(k).0.len() && m != 17 ==> callout_kind(k).0[m] != '!',
        no_bang(callout_kind(k).1),
        no_bang(callout_kind(k).2),
        no_bang(callout_kind(k).3),
{
    reveal_strlit("<blockquote>\n<p>[!NOTE]");
    reveal_strlit("<blockquote>\n<p>[!note]");
    reveal_strlit("<blockquote>\n<p>[!TIP]");
    reveal_strlit("<blockquote>\n<p>[!tip]");
    reveal_strlit("<blockquote>\n<p>[!IMPORTANT]");
    reveal_strlit("<blockquote>\n<p>[!important]");
    reveal_strlit("<blockquote>\n<p>[!WARNING]");
    reveal_strlit("<blockquote>\n<p>[!warning]");
    reveal_strlit("<blockquote>\n<p>[!CAUTION]");
    reveal_strlit("<blockquote>\n<p>[!caution]");
    reveal_strlit("callout-note");
    reveal_strlit("ℹ️");
    reveal_strlit("Note");
    reveal_strlit("callout-tip");
    reveal_strlit("💡");
    reveal_strlit("Tip");
    reveal_strlit("callout-important");
    reveal_strlit("🟣");
    reveal_strlit("Important");
    reveal_strlit("callout-warning");
    reveal_strlit("⚠️");
    reveal_strlit("Warning");
    reveal_strlit("callout-caution");
    reveal_strlit("🛑");
    reveal_strlit("Caution");
}

proof fn lemma_callout_html_no_bang(c: Seq<char>, i: Seq<char>, l: Seq<char>, inner: Seq<char>)
    requires
        no_bang(c),
        no_bang(i),
        no_bang(l),
        no_bang(inner),
    ensures
        no_bang(callout_html(c, i, l, inner)),
{
    reveal_strlit("<div class=\"callout ");
    reveal_strlit("\">\n  <div class=\"callout-title\"><span>");
    reveal_strlit("</span> ");
    reveal_strlit("</div>\n  <p>");
    reveal_strlit("</div>");
    let h = callout_html(c, i, l, inner);
    assert forall|j: int| 0 <= j < h.len() implies h[j] != '!' by {
        let l1 = "<div class=\"callout "@;
        let l2 = "\">\n  <div class=\"callout-title\"><span>"@;
        let l3 = "</span> "@;
        let l4 = "</div>\n  <p>"@;
        let l5 = "</div>"@;
        assert(h == l1 + c + l2 + i + l3 + l + l4 + inner + l5);
    }
}

proof fn lemma_no_bang_concat(a: Seq<char>, b: Seq<char>)
    requires
        no_bang(a),
        no_bang(b),
    ensures
        no_bang(a + b),
{
    assert forall|j: int| 0 <= j < (a + b).len() implies (a + b)[j] != '!' by {
        if j >= a.len() {
            assert((a + b)[j] == b[j - a.len()]);
        }
    }
}

/// No opening pattern occurs where the only `!` (at `b`, if any) is not
/// followed by the pattern's tag letter.
proof fn lemma_no_callout(s: Seq<char>, q: Seq<char>, b: int)
    requires
        q.len() >= 19,
        q[17] == '!',
        forall|j: int| 0 <= j < s.len() && s[j] == '!' ==> j == b,
        b >= 0 && b + 1 < s.len() ==> s[b + 1] != q[18],
    ensures
        find(s, q) is None,
{
    lemma_find_from(s, q, 0);
    if let Some(k) = find(s, q) {
        assert(s.subrange(k, k + q.len())[17] == s[k + 17]);
        assert(s.subrange(k, k + q.len())[18] == s[k + 18]);
    }
}

proof fn lemma_find_first(s: Seq<char>, q: Seq<char>, i: int, from: int)
    requires
        0 <= from <= i,
        occurs_at(s, q, i),
        forall|j: int| from <= j < i ==> !occurs_at(s, q, j),
    ensures
        find_from(s, q, from) == Some(i),
    decreases i - from,
{
    if from < i {
        lemma_find_first(s, q, i, from + 1);
    }
}

/// A pass over a string with no matching opening pattern changes nothing.
proof fn lemma_pass_unchanged(
    s: Seq<char>,
    q: Seq<char>,
    c: Seq<char>,
    i: Seq<char>,
    l: Seq<char>,
    b: int,
)
    requires
        q.len() >= 19,
        q[17] == '!',
        forall|j: int| 0 <= j < s.len() && s[j] == '!' ==> j == b,
        b >= 0 && b + 1 < s.len() ==> s[b + 1] != q[18],
    ensures
        replace_callouts(s, q, c, i, l) == s,
{
    lemma_no_callout(s, q, b);
}

/// The one callout of `pre + p + inner + </blockquote> + post` is replaced.
proof fn lemma_callout_replaced(
    pre: Seq<char>,
    inner: Seq<char>,
    post: Seq<char>,
    p: Seq<char>,
    c: Seq<char>,
    i: Seq<char>,
    l: Seq<char>,
)
    requires
        p.len() >= 19,
        p[17] == '!',
        forall|m: int| 0 <= m < p.len() && m != 17 ==> p[m] != '!',
        no_bang(pre),
        no_bang(inner),
        no_bang(post),
        no_bang(c),
        no_bang(i),
        no_bang(l),
        find(inner + "</blockquote>"@, "</blockquote>"@) == Some(inner.len() as int),
    ensures
        replace_callouts(pre + p + inner + "</blockquote>"@ + post, p, c, i, l) == pre
            + callout_html(c, i, l, callout_text(inner)) + post,
        no_bang(pre + callout_html(c, i, l, callout_text(inner)) + post),
{
    reveal_strlit("</blockquote>");
    let close = "</blockquote>"@;
    let html = pre + p + inner + close + post;
    let p0 = pre.len() as int;
    // The opening pattern is found where it stands.
    assert(html.subrange(p0, p0 + p.len()) =~= p);
    assert forall|j: int| 0 <= j < p0 implies !occurs_at(html, p, j) by {
        if occurs_at(html, p, j) {
            assert(html.subrange(j, j + p.len())[17] == html[j + 17]);
            if j + 17 < p0 {
                assert(html[j + 17] == pre[j + 17]);
            } else {
                assert(html[j + 17] == p[j + 17 - p0]);
            }
        }
    }
    lemma_find_first(html, p, p0, 0);
    // The first `</blockquote>` after it closes the inner text.
    let a = p0 + p.len();
    let e = a + inner.len();
    let ic = inner + close;
    lemma_find_from(ic, close, 0);
    assert(html.subrange(e, e + close.len()) =~= close);
    assert forall|j: int| a <= j < e implies !occurs_at(html, close, j) by {
        if occurs_at(html, close, j) {
            assert(html.subrange(j, j + close.len()) =~= ic.subrange(j - a, j - a + close.len()));
            assert(occurs_at(ic, close, j - a));
        }
    }
    lemma_find_first(html, close, e, a);
    assert(html.take(p0) =~= pre);
    assert(html.subrange(a, e) =~= inner);
    assert(html.skip(e + close.len()) =~= post);
    let text = callout_text(inner);
    lemma_callout_text_start(inner, 0);
    assert(no_bang(text)) by {
        let k = callout_text_start(inner, 0);
        assert forall|j: int| 0 <= j < text.len() implies text[j] != '!' by {
            assert(text[j] == inner[j + k]);
        }
    }
    lemma_callout_html_no_bang(c, i, l, text);
    let t = pre + callout_html(c, i, l, text) + post;
    lemma_no_bang_concat(pre, callout_html(c, i, l, text));
    lemma_no_bang_concat(pre + callout_html(c, i, l, text), post);
    assert(replace_first_callout(html, p, c, i, l) == Some(t));
    lemma_pass_unchanged(t, p, c, i, l, -1);
}

/// One pass of `callouts`, over the page before or after its callout is
/// replaced.
proof fn lemma_pass_step(
    cur: Seq<char>,
    j: int,
    k: int,
    pre: Seq<char>,
    inner: Seq<char>,
    post: Seq<char>,
)
    requires
        0 <= j < 10,
        0 <= k < 10,
        no_bang(pre),
        no_bang(inner),
        no_bang(post),
        find(inner + "</blockquote>"@, "</blockquote>"@) == Some(inner.len() as int),
        cur == pre + callout_kind(k).0 + inner + "</blockquote>"@ + post || cur == pre
            + callout_html(callout_kind(k).1, callout_kind(k).2, callout_kind(k).3, callout_text(inner))
            + post,
    ensures
        replace_callouts(cur, callout_kind(j).0, callout_kind(j).1, callout_kind(j).2, callout_kind(j).3)
            == if cur == pre + callout_kind(k).0 + inner + "</blockquote>"@ + post && j == k {
            pre + callout_html(callout_kind(k).1, callout_kind(k).2, callout_kind(k).3, callout_text(inner))
                + post
        } else {
            cur
        },
{
    reveal_strlit("</blockquote>");
    lemma_callout_kind(j);
    lemma_callout_kind(k);
    let (p, c, i, l) = callout_kind(k);
    let (q, qc, qi, ql) = callout_kind(j);
    let html = pre + p + inner + "</blockquote>"@ + post;
    let t = pre + callout_html(c, i, l, callout_text(inner)) + post;
    lemma_callout_replaced(pre, inner, post, p, c, i, l);
    if cur == html {
        if j == k {
        } else {
            let b: int = pre.len() as int + 17;
            assert forall|m: int| 0 <= m < html.len() && html[m] == '!' implies m == b by {
                if m < pre.len() {
                    assert(html[m] == pre[m]);
                } else if m < pre.len() + p.len() {
                    assert(html[m] == p[m - pre.len()]);
                } else if m < pre.len() + p.len() + inner.len() {
                    assert(html[m] == inner[m - pre.len() - p.len()]);
                } else if m < pre.len() + p.len() + inner.len() + 13 {
                    assert(html[m] == "</blockquote>"@[m - pre.len() - p.len() - inner.len()]);
                } else {
                    assert(html[m] == post[m - pre.len() - p.len() - inner.len() - 13]);
                }
            }
            assert(html[b + 1] == p[18]);
            assert(callout_letter(j) != callout_letter(k));
            lemma_pass_unchanged(html, q, qc, qi, ql, b);
        }
    } else {
        assert forall|m: int| 0 <= m < t.len() && t[m] == '!' implies m == -1 by {}
        lemma_pass_unchanged(t, q, qc, qi, ql, -1);
    }
}

/// Callout law: a closed blockquote that opens with one of the ten callout
/// markers (`[!NOTE]`, `[!TIP]`, `[!IMPORTANT]`, `[!WARNING]`, `[!CAUTION]`,
/// upper or lower case) becomes the box of that kind, holding the callout's
/// text, and the text around it is kept; no marker is left. Stated for
/// text without other `!` whose first `</blockquote>` after the marker
/// closes the callout.
pub proof fn law_callout_converted(pre: Seq<char>, inner: Seq<char>, post: Seq<char>, k: int)
    requires
        0 <= k < 10,
        no_bang(pre),
        no_bang(inner),
        no_bang(post),
        find(inner + "</blockquote>"@, "</blockquote>"@) == Some(inner.len() as int),
    ensures
        callouts(pre + callout_kind(k).0 + inner + "</blockquote>"@ + post) == pre + callout_html(
            callout_kind(k).1,
            callout_kind(k).2,
            callout_kind(k).3,
            callout_text(inner),
        ) + post,
        no_bang(callouts(pre + callout_kind(k).0 + inner + "</blockquote>"@ + post)),
{
    let html = pre + callout_kind(k).0 + inner + "</blockquote>"@ + post;
    let s1 = replace_callouts(html, callout_kind(0).0, callout_kind(0).1, callout_kind(0).2, callout_kind(0).3);
    lemma_pass_step(html, 0, k, pre, inner, post);
    let s2 = replace_callouts(s1, callout_kind(1).0, callout_kind(1).1, callout_kind(1).2, callout_kind(1).3);
    lemma_pass_step(s1, 1, k, pre, inner, post);
    let s3 = replace_callouts(s2, callout_kind(2).0, callout_kind(2).1, callout_kind(2).2, callout_kind(2).3);
    lemma_pass_step(s2, 2, k, pre, inner, post);
    let s4 = replace_callouts(s3, callout_kind(3).0, callout_kind(3).1, callout_kind(3).2, callout_kind(3).3);
    lemma_pass_step(s3, 3, k, pre, inner, post);
    let s5 = replace_callouts(s4, callout_kind(4).0, callout_kind(4).1, callout_kind(4).2, callout_kind(4).3);
    lemma_pass_step(s4, 4, k, pre, inner, post);
    let s6 = replace_callouts(s5, callout_kind(5).0, callout_kind(5).1, callout_kind(5).2, callout_kind(5).3);
    lemma_pass_step(s5, 5, k, pre, inner, post);
    let s7 = replace_callouts(s6, callout_kind(6).0, callout_kind(6).1, callout_kind(6).2, callout_kind(6).3);
    lemma_pass_step(s6, 6, k, pre, inner, post);
    let s8 = replace_callouts(s7, callout_kind(7).0, callout_kind(7).1, callout_kind(7).2, callout_kind(7).3);
    lemma_pass_step(s7, 7, k, pre, inner, post);
    let s9 = replace_callouts(s8, callout_kind(8).0, callout_kind(8).1, callout_kind(8).2, callout_kind(8).3);
    lemma_pass_step(s8, 8, k, pre, inner, post);
    let s10 = replace_callouts(s9, callout_kind(9).0, callout_kind(9).1, callout_kind(9).2, callout_kind(9).3);
    lemma_pass_step(s9, 9, k, pre, inner, post);
    assert(callouts(html) == s10);
    let (p, c, i, l) = callout_kind(k);
    lemma_callout_kind(k);
    lemma_callout_replaced(pre, inner, post, p, c, i, l);
}

} // verus!
