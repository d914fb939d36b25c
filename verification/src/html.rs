//! Page assembly: relative links between pages, the asset prefix and the HTML
//! page around rendered content.
use vstd::prelude::*;
use crate::paths::{
    comp_text, comp_views, components, lemma_components_of_pushed_names, lemma_components_valid,
    linkable, names_valid, parent_components, path_components, push_comp, push_comps, Comp,
    PathComp,
};
use crate::markdown::{toc_views, FrontMatter, FrontMatterView, TocItem, TocView};
use crate::text::{
    occurs_at, chars_eq, chars_of, decimal, has_part, lemma_has_part_extend, lemma_has_part_middle, lex_lt,
    string_of,
};

verus! {

// ---------------------------------------------------------------------------
// HTML escaping
// ---------------------------------------------------------------------------

/// How `html_escape` writes one character.
pub open spec fn html_escape_char(c: char) -> Seq<char> {
    if c == '&' {
        seq!['&', 'a', 'm', 'p', ';']
    } else if c == '<' {
        seq!['&', 'l', 't', ';']
    } else if c == '>' {
        seq!['&', 'g', 't', ';']
    } else if c == '"' {
        seq!['&', 'q', 'u', 'o', 't', ';']
    } else if c == '\'' {
        seq!['&', '#', '3', '9', ';']
    } else {
        seq![c]
    }
}

/// `s` with `&`, `<`, `>`, `"` and `'` replaced by their HTML entities.
pub open spec fn html_escaped(s: Seq<char>) -> Seq<char>
    decreases s.len(),
{
    if s.len() == 0 {
        seq![]
    } else {
        html_escaped(s.drop_last()) + html_escape_char(s.last())
    }
}

/// Escapes the characters that are special in HTML text and attributes.
pub fn html_escape(s: &str) -> (r: String)
    ensures
        r@ == html_escaped(s@),
{
    let mut out = String::new();
    for c in it: s.chars()
        invariant
            it.seq() == s@,
            out@ == html_escaped(it.seq().take(it.index())),
    {
        let ghost before = out@;
        if c == '&' {
            out.push('&');
            out.push('a');
            out.push('m');
            out.push('p');
            out.push(';');
        } else if c == '<' {
            out.push('&');
            out.push('l');
            out.push('t');
            out.push(';');
        } else if c == '>' {
            out.push('&');
            out.push('g');
            out.push('t');
            out.push(';');
        } else if c == '"' {
            out.push('&');
            out.push('q');
            out.push('u');
            out.push('o');
            out.push('t');
            out.push(';');
        } else if c == '\'' {
            out.push('&');
            out.push('#');
            out.push('3');
            out.push('9');
            out.push(';');
        } else {
            out.push(c);
        }
        proof {
            let t = it.seq().take(it.index() + 1);
            assert(t.drop_last() =~= it.seq().take(it.index()));
            assert(out@ =~= before + html_escape_char(c));
        }
    }
    assert(s@.take(s@.len() as int) =~= s@);
    out
}

/// Law: escaped text holds none of `<`, `>`, `"` or `'`, and every `&` in it
/// starts an entity.
pub proof fn law_html_escape_safe(s: Seq<char>)
    ensures
        forall|i: int|
            0 <= i < html_escaped(s).len() ==> {
                let c = #[trigger] html_escaped(s)[i];
                c != '<' && c != '>' && c != '"' && c != '\''
            },
    decreases s.len(),
{
    if s.len() > 0 {
        law_html_escape_safe(s.drop_last());
        let a = html_escaped(s.drop_last());
        let b = html_escape_char(s.last());
        assert forall|i: int| 0 <= i < (a + b).len() implies {
            let c = #[trigger] (a + b)[i];
            c != '<' && c != '>' && c != '"' && c != '\''
        } by {
            if i >= a.len() {
                assert((a + b)[i] == b[i - a.len()]);
            } else {
                assert((a + b)[i] == a[i]);
            }
        }
    }
}

// ---------------------------------------------------------------------------
// Links between pages
// ---------------------------------------------------------------------------

/// `n` copies of `s` one after another.
pub open spec fn repeat(s: Seq<char>, n: nat) -> Seq<char>
    decreases n,
{
    if n == 0 {
        seq![]
    } else {
        repeat(s, (n - 1) as nat) + s
    }
}

/// The prefix that leads from a page at `rel_path` to the shared `assets/`
/// folder: `./assets/` at the top level, else one `../` per folder level.
pub open spec fn assets_prefix(rel_path: Seq<char>) -> Seq<char> {
    let depth = parent_components(rel_path).len();
    if depth == 0 {
        seq!['.', '/', 'a', 's', 's', 'e', 't', 's', '/']
    } else {
        repeat(seq!['.', '.', '/'], depth) + seq!['a', 's', 's', 'e', 't', 's', '/']
    }
}

/// The components of `Path::new(p).parent()` (none when there is no parent).
fn parent_comps(p: &Vec<char>) -> (r: Vec<PathComp>)
    ensures
        comp_views(r@) == parent_components(p@),
{
    let mut c = path_components(p);
    let n = c.len();
    if n > 0 {
        let is_root = match &c[n - 1] {
            PathComp::Root => true,
            _ => false,
        };
        if !is_root {
            let ghost before = c@;
            c.pop();
            assert(c@ =~= before.drop_last());
            assert(comp_views(c@) =~= comp_views(before).drop_last());
            return c;
        }
    }
    let e: Vec<PathComp> = Vec::new();
    assert(comp_views(e@) =~= Seq::<Comp>::empty());
    e
}

/// Computes the relative asset prefix based on nesting depth, e.g.
/// `index.html` gives `./assets/`, `guide/intro.html` gives `../assets/`
/// and `a/b/c.html` gives `../../assets/`.
pub fn compute_assets_prefix(rel_path: &str) -> (r: String)
    ensures
        r@ == assets_prefix(rel_path@),
{
    let p = chars_of(rel_path);
    let depth = parent_comps(&p).len();
    let mut out: Vec<char> = Vec::new();
    if depth == 0 {
        out.push('.');
        out.push('/');
    } else {
        let mut i: usize = 0;
        while i < depth
            invariant
                0 <= i <= depth,
                out@ == repeat(seq!['.', '.', '/'], i as nat),
            decreases depth - i,
        {
            out.push('.');
            out.push('.');
            out.push('/');
            assert(out@ =~= repeat(seq!['.', '.', '/'], (i + 1) as nat));
            i += 1;
        }
    }
    let ghost before = out@;
    out.push('a');
    out.push('s');
    out.push('s');
    out.push('e');
    out.push('t');
    out.push('s');
    out.push('/');
    assert(out@ =~= before + seq!['a', 's', 's', 'e', 't', 's', '/']);
    string_of(&out)
}

/// The length of the longest common prefix of two component lists.
pub open spec fn common_prefix_len(a: Seq<Comp>, b: Seq<Comp>) -> nat
    decreases a.len(),
{
    if a.len() > 0 && b.len() > 0 && a[0] == b[0] {
        1 + common_prefix_len(a.drop_first(), b.drop_first())
    } else {
        0
    }
}

/// The components a relative link pushes: one `..` for each folder of the
/// source page below the common ancestor, then the rest of the target.
pub open spec fn link_pieces(from: Seq<char>, to: Seq<char>) -> Seq<Comp> {
    let f = parent_components(from);
    let t = components(to);
    let k = common_prefix_len(f, t);
    Seq::new((f.len() - k) as nat, |i: int| Comp::Parent) + t.skip(k as int)
}

/// The link from the page `from` to the file `to`: `#` for the page itself,
/// else the pieces pushed onto an empty path (`.` when that stays empty).
pub open spec fn relative_link(from: Seq<char>, to: Seq<char>) -> Seq<char> {
    if from == to {
        seq!['#']
    } else {
        let r = push_comps(seq![], link_pieces(from, to));
        if r.len() == 0 {
            seq!['.']
        } else {
            r
        }
    }
}

/// Following one component from a folder: the root starts over, `.` stays,
/// `..` goes up (not above the top), a name goes down.
pub open spec fn follow(base: Seq<Comp>, c: Comp) -> Seq<Comp> {
    match c {
        Comp::Root => seq![Comp::Root],
        Comp::Cur => base,
        Comp::Parent => if base.len() > 0 {
            base.drop_last()
        } else {
            base
        },
        Comp::Normal(_) => base.push(c),
    }
}

/// Following the components of a relative path from the folder `base`.
pub open spec fn resolve(base: Seq<Comp>, steps: Seq<Comp>) -> Seq<Comp>
    decreases steps.len(),
{
    if steps.len() == 0 {
        base
    } else {
        resolve(follow(base, steps[0]), steps.drop_first())
    }
}

/// Every component is a name component.
pub open spec fn all_normal(cs: Seq<Comp>) -> bool {
    forall|i: int| 0 <= i < cs.len() ==> #[trigger] cs[i] is Normal
}

proof fn lemma_resolve_ups(base: Seq<Comp>, n: nat, rest: Seq<Comp>)
    requires
        n <= base.len(),
    ensures
        resolve(base, Seq::new(n, |i: int| Comp::Parent) + rest) == resolve(
            base.take(base.len() - n),
            rest,
        ),
    decreases n,
{
    let steps = Seq::new(n, |i: int| Comp::Parent) + rest;
    if n == 0 {
        assert(steps == rest);
        assert(base.take(base.len() as int) == base);
    } else {
        assert(steps[0] == Comp::Parent);
        assert(steps.drop_first() == Seq::new((n - 1) as nat, |i: int| Comp::Parent) + rest);
        lemma_resolve_ups(base.drop_last(), (n - 1) as nat, rest);
        assert(base.drop_last().take(base.len() - 1 - (n - 1)) == base.take(base.len() - n));
    }
}

proof fn lemma_resolve_names(base: Seq<Comp>, rest: Seq<Comp>)
    requires
        all_normal(rest),
    ensures
        resolve(base, rest) == base + rest,
    decreases rest.len(),
{
    if rest.len() == 0 {
        assert(base + rest == base);
    } else {
        assert(rest[0] is Normal);
        let r2 = rest.drop_first();
        assert(all_normal(r2)) by {
            assert forall|i: int| 0 <= i < r2.len() implies #[trigger] r2[i] is Normal by {
                assert(r2[i] == rest[i + 1]);
            }
        }
        lemma_resolve_names(base.push(rest[0]), r2);
        assert(base.push(rest[0]) + r2 == base + rest);
    }
}

proof fn lemma_common_prefix_facts(a: Seq<Comp>, b: Seq<Comp>)
    ensures
        common_prefix_len(a, b) <= a.len(),
        common_prefix_len(a, b) <= b.len(),
        a.take(common_prefix_len(a, b) as int) == b.take(common_prefix_len(a, b) as int),
    decreases a.len(),
{
    if a.len() > 0 && b.len() > 0 && a[0] == b[0] {
        lemma_common_prefix_facts(a.drop_first(), b.drop_first());
        let k = common_prefix_len(a, b) as int;
        assert(a.take(k) == seq![a[0]] + a.drop_first().take(k - 1));
        assert(b.take(k) == seq![b[0]] + b.drop_first().take(k - 1));
    }
}

/// Link law: between two different pages whose paths hold only name
/// components, the relative link, read as a path and followed from the
/// folder of the first page, leads to the second page.
pub proof fn law_relative_link_resolves(from: Seq<char>, to: Seq<char>)
    requires
        from != to,
        all_normal(parent_components(from)),
        all_normal(components(to)),
    ensures
        resolve(parent_components(from), components(relative_link(from, to))) == components(to),
{
    let f = parent_components(from);
    let t = components(to);
    let k = common_prefix_len(f, t);
    lemma_common_prefix_facts(f, t);
    let ups = Seq::new((f.len() - k) as nat, |i: int| Comp::Parent);
    let tail = t.skip(k as int);
    let pieces = link_pieces(from, to);
    assert(pieces == ups + tail);
    lemma_components_valid(to);
    assert(all_normal(tail)) by {
        assert forall|i: int| 0 <= i < tail.len() implies #[trigger] tail[i] is Normal by {
            assert(tail[i] == t[i + k]);
        }
    }
    assert(linkable(pieces)) by {
        assert forall|i: int| 0 <= i < pieces.len() implies #[trigger] pieces[i] == Comp::Parent || (
        pieces[i] matches Comp::Normal(n) && crate::paths::valid_name(n)) by {
            if i >= ups.len() {
                assert(pieces[i] == t[i - ups.len() + k]);
                assert(t[i - ups.len() + k] is Normal);
            }
        }
    }
    lemma_components_of_pushed_names(pieces);
    lemma_resolve_ups(f, (f.len() - k) as nat, tail);
    assert(f.take(f.len() - (f.len() - k)) == f.take(k as int));
    lemma_resolve_names(f.take(k as int), tail);
    assert(t.take(k as int) + tail == t);
    let r = push_comps(seq![], pieces);
    if r.len() == 0 {
        // Nothing to push: the link is `.`, which stays in the folder.
        let e = Seq::<char>::empty();
        assert(crate::text::first_sep(e, seq!['/']) is None);
        assert(crate::text::split_seps(e, seq!['/']) == seq![e]);
        assert(seq![e].drop_first() == Seq::<Seq<char>>::empty());
        assert(crate::paths::seg_comps(Seq::<Seq<char>>::empty()) == Seq::<Comp>::empty());
        assert(seq![e][0].len() == 0);
        assert(components(e) == Seq::<Comp>::empty());
        assert(r == e);
        assert(pieces.len() == 0);
        let dot = seq!['.'];
        assert(crate::text::first_sep(dot, seq!['/']) is None) by {
            assert(!crate::text::is_sep(seq!['/'], dot[0]));
            assert(dot.drop_first() == Seq::<char>::empty());
        }
        assert(crate::text::split_seps(dot, seq!['/']) == seq![dot]);
        assert(seq![dot].drop_first() == Seq::<Seq<char>>::empty());
        assert(crate::paths::seg_comps(Seq::<Seq<char>>::empty()) == Seq::<Comp>::empty());
        assert(components(dot) == seq![Comp::Cur] + Seq::<Comp>::empty());
        assert(components(dot) == seq![Comp::Cur]);
        assert(seq![Comp::Cur].drop_first() == Seq::<Comp>::empty());
    }
}

proof fn lemma_repeat_front(s: Seq<char>, n: nat)
    ensures
        repeat(s, n + 1) == s + repeat(s, n),
    decreases n,
{
    if n > 0 {
        lemma_repeat_front(s, (n - 1) as nat);
        assert(repeat(s, n + 1) == repeat(s, n) + s);
        assert(s + repeat(s, (n - 1) as nat) + s == s + (repeat(s, (n - 1) as nat) + s));
    } else {
        assert(repeat(s, 0) == Seq::<char>::empty());
        assert(repeat(s, 1) == repeat(s, 0) + s);
        assert(s + Seq::<char>::empty() == s);
    }
}

proof fn lemma_split_at(x: Seq<char>, k: int)
    requires
        0 <= k < x.len(),
        x[k] == '/',
        forall|j: int| 0 <= j < k ==> x[j] != '/',
    ensures
        crate::text::split_seps(x, seq!['/']) == seq![x.take(k)] + crate::text::split_seps(
            x.skip(k + 1),
            seq!['/'],
        ),
{
    assert(crate::text::no_sep(x.take(k), seq!['/'])) by {
        assert forall|j: int| 0 <= j < k implies !crate::text::is_sep(seq!['/'], #[trigger] x.take(k)[j]) by {
            assert(x.take(k)[j] == x[j]);
            if seq!['/'].contains(x[j]) {
                let m = choose|m: int| 0 <= m < 1 && seq!['/'][m] == x[j];
                assert(seq!['/'][m] == '/');
            }
        }
    }
    assert(seq!['/'][0] == '/');
    assert(crate::text::is_sep(seq!['/'], x[k]));
    crate::text::lemma_first_sep(x, seq!['/'], k);
}

/// The pieces of `"assets/"` split at `/`.
proof fn lemma_split_assets()
    ensures
        crate::text::split_seps(seq!['a', 's', 's', 'e', 't', 's', '/'], seq!['/']) == seq![
            seq!['a', 's', 's', 'e', 't', 's'],
            Seq::<char>::empty(),
        ],
{
    let a = seq!['a', 's', 's', 'e', 't', 's', '/'];
    lemma_split_at(a, 6);
    assert(a.take(6) == seq!['a', 's', 's', 'e', 't', 's']);
    let e = a.skip(7);
    assert(e == Seq::<char>::empty());
    assert(crate::text::first_sep(e, seq!['/']) is None);
}

/// The pieces of `"../" * d + "assets/"` split at `/`.
proof fn lemma_split_ups(d: nat)
    ensures
        crate::text::split_seps(
            repeat(seq!['.', '.', '/'], d) + seq!['a', 's', 's', 'e', 't', 's', '/'],
            seq!['/'],
        ) == Seq::new(d, |i: int| seq!['.', '.']) + seq![
            seq!['a', 's', 's', 'e', 't', 's'],
            Seq::<char>::empty(),
        ],
    decreases d,
{
    let a = seq!['a', 's', 's', 'e', 't', 's', '/'];
    if d == 0 {
        assert(repeat(seq!['.', '.', '/'], 0) + a == a);
        lemma_split_assets();
        assert(Seq::new(0, |i: int| seq!['.', '.']) + seq![
            seq!['a', 's', 's', 'e', 't', 's'],
            Seq::<char>::empty(),
        ] == seq![seq!['a', 's', 's', 'e', 't', 's'], Seq::<char>::empty()]);
    } else {
        lemma_split_ups((d - 1) as nat);
        lemma_repeat_front(seq!['.', '.', '/'], (d - 1) as nat);
        let rest = repeat(seq!['.', '.', '/'], (d - 1) as nat) + a;
        let x = repeat(seq!['.', '.', '/'], d) + a;
        assert(x == seq!['.', '.', '/'] + rest);
        lemma_split_at(x, 2);
        assert(x.take(2) == seq!['.', '.']);
        assert(x.skip(3) == rest);
        assert(Seq::new(d, |i: int| seq!['.', '.']) + seq![
            seq!['a', 's', 's', 'e', 't', 's'],
            Seq::<char>::empty(),
        ] == seq![seq!['.', '.']] + (Seq::new((d - 1) as nat, |i: int| seq!['.', '.']) + seq![
            seq!['a', 's', 's', 'e', 't', 's'],
            Seq::<char>::empty(),
        ]));
    }
}

/// The components of the pieces `".." * d, "assets", ""`.
proof fn lemma_seg_comps_ups(d: nat)
    ensures
        crate::paths::seg_comps(
            Seq::new(d, |i: int| seq!['.', '.']) + seq![
                seq!['a', 's', 's', 'e', 't', 's'],
                Seq::<char>::empty(),
            ],
        ) == Seq::new(d, |i: int| Comp::Parent) + seq![
            Comp::Normal(seq!['a', 's', 's', 'e', 't', 's']),
        ],
    decreases d,
{
    let tail = seq![seq!['a', 's', 's', 'e', 't', 's'], Seq::<char>::empty()];
    if d == 0 {
        assert(Seq::new(0, |i: int| seq!['.', '.']) + tail == tail);
        assert(tail.drop_first() == seq![Seq::<char>::empty()]);
        assert(seq![Seq::<char>::empty()].drop_first() == Seq::<Seq<char>>::empty());
        assert(crate::paths::seg_comps(Seq::<Seq<char>>::empty()) == Seq::<Comp>::empty());
        assert(seq![Seq::<char>::empty()][0].len() == 0);
        assert(seq!['a', 's', 's', 'e', 't', 's'] != seq!['.']) by {
            assert(seq!['a', 's', 's', 'e', 't', 's'].len() != 1);
        }
        assert(seq!['a', 's', 's', 'e', 't', 's'] != seq!['.', '.']) by {
            assert(seq!['a', 's', 's', 'e', 't', 's'].len() != 2);
        }
        assert(Seq::new(0, |i: int| Comp::Parent) + seq![
            Comp::Normal(seq!['a', 's', 's', 'e', 't', 's']),
        ] == seq![Comp::Normal(seq!['a', 's', 's', 'e', 't', 's'])]);
        assert(seq![Comp::Normal(seq!['a', 's', 's', 'e', 't', 's'])] + Seq::<Comp>::empty()
            == seq![Comp::Normal(seq!['a', 's', 's', 'e', 't', 's'])]);
        assert(crate::paths::seg_comps(seq![Seq::<char>::empty()]) == Seq::<Comp>::empty());
        assert(tail[0] == seq!['a', 's', 's', 'e', 't', 's']);
        assert(crate::paths::seg_comps(tail) == seq![
            Comp::Normal(seq!['a', 's', 's', 'e', 't', 's']),
        ] + crate::paths::seg_comps(tail.drop_first()));
    } else {
        lemma_seg_comps_ups((d - 1) as nat);
        let segs = Seq::new(d, |i: int| seq!['.', '.']) + tail;
        assert(segs[0] == seq!['.', '.']);
        assert(segs.drop_first() == Seq::new((d - 1) as nat, |i: int| seq!['.', '.']) + tail);
        assert(seq!['.', '.'] != seq!['.']) by {
            assert(seq!['.', '.'].len() != 1);
        }
        assert(segs[0].len() == 2);
        assert(crate::paths::seg_comps(segs) == seq![Comp::Parent] + crate::paths::seg_comps(
            segs.drop_first(),
        ));
        assert(Seq::new(d, |i: int| Comp::Parent) + seq![
            Comp::Normal(seq!['a', 's', 's', 'e', 't', 's']),
        ] == seq![Comp::Parent] + (Seq::new((d - 1) as nat, |i: int| Comp::Parent) + seq![
            Comp::Normal(seq!['a', 's', 's', 'e', 't', 's']),
        ]));
    }
}

/// Asset law: for a page whose path holds only name components, the asset
/// prefix, read as a path and followed from the page's folder, leads to the
/// `assets` folder at the top of the site.
pub proof fn law_assets_prefix_resolves(rel_path: Seq<char>)
    requires
        all_normal(parent_components(rel_path)),
    ensures
        resolve(parent_components(rel_path), components(assets_prefix(rel_path))) == seq![
            Comp::Normal(seq!['a', 's', 's', 'e', 't', 's']),
        ],
{
    let f = parent_components(rel_path);
    let d = f.len();
    let assets = seq![Comp::Normal(seq!['a', 's', 's', 'e', 't', 's'])];
    assert(all_normal(assets));
    lemma_resolve_names(Seq::<Comp>::empty(), assets);
    assert(Seq::<Comp>::empty() + assets == assets);
    if d == 0 {
        let x = seq!['.', '/', 'a', 's', 's', 'e', 't', 's', '/'];
        assert(assets_prefix(rel_path) == x);
        lemma_split_at(x, 1);
        assert(x.take(1) == seq!['.']);
        assert(x.skip(2) == seq!['a', 's', 's', 'e', 't', 's', '/']);
        lemma_split_assets();
        let segs = crate::text::split_seps(x, seq!['/']);
        assert(segs[0] == seq!['.']);
        assert(segs.drop_first() == seq![seq!['a', 's', 's', 'e', 't', 's'], Seq::<char>::empty()]);
        lemma_seg_comps_ups(0);
        assert(Seq::new(0, |i: int| seq!['.', '.']) + seq![
            seq!['a', 's', 's', 'e', 't', 's'],
            Seq::<char>::empty(),
        ] == segs.drop_first());
        assert(Seq::new(0, |i: int| Comp::Parent) + assets == assets);
        assert(components(x) == seq![Comp::Cur] + assets);
        assert((seq![Comp::Cur] + assets)[0] == Comp::Cur);
        assert((seq![Comp::Cur] + assets).drop_first() == assets);
        assert(f == Seq::<Comp>::empty());
    } else {
        let x = repeat(seq!['.', '.', '/'], d) + seq!['a', 's', 's', 'e', 't', 's', '/'];
        assert(assets_prefix(rel_path) == x);
        lemma_split_ups(d);
        lemma_seg_comps_ups(d);
        lemma_repeat_front(seq!['.', '.', '/'], (d - 1) as nat);
        assert(x[0] == '.');
        let segs = crate::text::split_seps(x, seq!['/']);
        assert(segs[0] == seq!['.', '.']);
        assert(seq!['.', '.'] != seq!['.']) by {
            assert(seq!['.', '.'].len() != 1);
        }
        assert(components(x) == Seq::new(d, |i: int| Comp::Parent) + assets);
        lemma_resolve_ups(f, d, assets);
        assert(f.take(0) == Seq::<Comp>::empty());
    }
}

proof fn lemma_common_prefix(a: Seq<Comp>, b: Seq<Comp>, k: int)
    requires
        0 <= k <= a.len(),
        k <= b.len(),
        forall|j: int| 0 <= j < k ==> a[j] == b[j],
        k == a.len() || k == b.len() || a[k] != b[k],
    ensures
        common_prefix_len(a, b) == k,
    decreases k,
{
    if k > 0 {
        lemma_common_prefix(a.drop_first(), b.drop_first(), k - 1);
    }
}

fn comp_eq(a: &PathComp, b: &PathComp) -> (r: bool)
    ensures
        r == (a.view() == b.view()),
{
    match (a, b) {
        (PathComp::Root, PathComp::Root) => true,
        (PathComp::Cur, PathComp::Cur) => true,
        (PathComp::Parent, PathComp::Parent) => true,
        (PathComp::Normal(x), PathComp::Normal(y)) => chars_eq(x, y),
        _ => false,
    }
}

/// `PathBuf::push` of one component, on characters.
fn push_path_comp(buf: &mut Vec<char>, c: &PathComp)
    ensures
        final(buf)@ == push_comp(old(buf)@, c.view()),
{
    match c {
        PathComp::Root => {
            buf.clear();
            buf.push('/');
            assert(buf@ =~= seq!['/']);
        },
        _ => {
            if buf.len() > 0 && buf[buf.len() - 1] != '/' {
                buf.push('/');
            }
            let ghost before = buf@;
            match c {
                PathComp::Cur => {
                    buf.push('.');
                },
                PathComp::Parent => {
                    buf.push('.');
                    buf.push('.');
                },
                PathComp::Normal(n) => {
                    let mut i: usize = 0;
                    while i < n.len()
                        invariant
                            0 <= i <= n.len(),
                            buf@ == before + n@.take(i as int),
                        decreases n.len() - i,
                    {
                        buf.push(n[i]);
                        assert(n@.take(i + 1) =~= n@.take(i as int).push(n@[i as int]));
                        i += 1;
                    }
                    assert(n@.take(n.len() as int) =~= n@);
                },
                PathComp::Root => {},
            }
            assert(buf@ =~= before + comp_text(c.view()));
        },
    }
}

/// Computes the relative link from one page of the site to another, e.g.
/// from `guide/getting-started.html` to `index.html` gives `../index.html`,
/// from `guide/getting-started.html` to `guide/faq.html` gives `faq.html`,
/// and a page links to itself with `#`.
#[verifier::rlimit(40)]
pub fn compute_relative_link(from_file: &str, to_file: &str) -> (r: String)
    ensures
        r@ == relative_link(from_file@, to_file@),
{
    let fv = chars_of(from_file);
    let tv = chars_of(to_file);
    if chars_eq(&fv, &tv) {
        let mut h = String::new();
        h.push('#');
        assert(h@ =~= seq!['#']);
        return h;
    }
    let f = parent_comps(&fv);
    let t = path_components(&tv);
    let mut common: usize = 0;
    while common < f.len() && common < t.len() && comp_eq(&f[common], &t[common])
        invariant
            0 <= common <= f.len(),
            common <= t.len(),
            forall|j: int| 0 <= j < common ==> comp_views(f@)[j] == comp_views(t@)[j],
        decreases f.len() - common,
    {
        common += 1;
    }
    proof {
        lemma_common_prefix(comp_views(f@), comp_views(t@), common as int);
    }
    let ghost pieces = link_pieces(from_file@, to_file@);
    let ghost ups = (f.len() - common) as int;
    assert(pieces.len() == ups + (t.len() - common));
    let mut buf: Vec<char> = Vec::new();
    let mut i: usize = common;
    assert(pieces.skip(0) =~= pieces);
    while i < f.len()
        invariant
            common <= i <= f.len(),
            common <= t.len(),
            ups == f.len() - common,
            pieces == link_pieces(from_file@, to_file@),
            pieces.len() == ups + (t.len() - common),
            forall|j: int| 0 <= j < ups ==> pieces[j] == Comp::Parent,
            push_comps(seq![], pieces) == push_comps(buf@, pieces.skip(i - common)),
        decreases f.len() - i,
    {
        let ghost old_buf = buf@;
        push_path_comp(&mut buf, &PathComp::Parent);
        proof {
            let a = i - common;
            assert(0 <= a < pieces.len());
            let s1 = pieces.skip(a);
            assert(s1.len() > 0);
            assert(s1[0] == Comp::Parent);
            assert(s1.drop_first() =~= pieces.skip(a + 1));
            assert(push_comps(old_buf, s1) == push_comps(push_comp(old_buf, s1[0]), s1.drop_first()));
            assert(buf@ == push_comp(old_buf, Comp::Parent));
            assert(push_comps(buf@, pieces.skip(a + 1)) == push_comps(old_buf, s1));
        }
        i += 1;
    }
    let mut j: usize = common;
    while j < t.len()
        invariant
            common <= j <= t.len(),
            common <= f.len(),
            ups == f.len() - common,
            pieces == link_pieces(from_file@, to_file@),
            pieces.len() == ups + (t.len() - common),
            forall|m: int| ups <= m < pieces.len() ==> pieces[m] == comp_views(t@)[m - ups + common],
            push_comps(seq![], pieces) == push_comps(buf@, pieces.skip(ups + j - common)),
        decreases t.len() - j,
    {
        let ghost old_buf = buf@;
        push_path_comp(&mut buf, &t[j]);
        proof {
            let a = ups + j - common;
            assert(0 <= a < pieces.len());
            let s1 = pieces.skip(a);
            assert(s1.len() > 0);
            assert(s1[0] == comp_views(t@)[j as int]);
            assert(s1.drop_first() =~= pieces.skip(a + 1));
            assert(push_comps(old_buf, s1) == push_comps(push_comp(old_buf, s1[0]), s1.drop_first()));
        }
        j += 1;
    }
    assert(pieces.skip(pieces.len() as int) =~= Seq::<Comp>::empty());
    if buf.len() == 0 {
        let mut d = String::new();
        d.push('.');
        assert(d@ =~= seq!['.']);
        return d;
    }
    string_of(&buf)
}

} // verus!

verus! {

// ---------------------------------------------------------------------------
// The page
// ---------------------------------------------------------------------------

/// An entry of the site navigation.
pub struct NavItem {
    pub title: String,
    /// e.g. `index.html` or `guide/getting-started.html`
    pub rel_html_path: String,
    /// e.g. `General` or `Guide`
    pub section: String,
}

/// Everything a page is made of.
pub struct PageContext<'a> {
    pub site_title: &'a str,
    pub page_title: &'a str,
    pub frontmatter: &'a FrontMatter,
    pub content_html: &'a str,
    pub toc: &'a [TocItem],
    /// e.g. `guide/getting-started.html`
    pub current_rel_path: &'a str,
    pub nav_items: &'a [NavItem],
}

// The fixed text of a page, between the places where values go.
pub const PAGE_HEAD: &'static str = "<!DOCTYPE html>\n<html lang=\"en\">\n<head>\n  <meta charset=\"UTF-8\">\n  <meta name=\"viewport\" content=\"width=device-width, initial-scale=1.0\">\n  <title>";

pub const PAGE_TITLE_SEP: &'static str = " - ";

pub const PAGE_TITLE_END: &'static str = "</title>\n  ";

pub const PAGE_STYLESHEET: &'static str = "<link rel=\"stylesheet\" href=\"";

pub const PAGE_HEADER: &'static str = "style.css\">\n  <!-- Anti-FOUC theme pre-hydration -->\n  <script>\n    (function() {\n      const theme = localStorage.getItem('mdrender-theme') || 'github';\n      const savedMode = localStorage.getItem('mdrender-mode') || 'auto';\n      const mode = savedMode === 'auto'\n        ? (window.matchMedia('(prefers-color-scheme: dark)').matches ? 'dark' : 'light')\n        : savedMode;\n      document.documentElement.setAttribute('data-theme', theme);\n      document.documentElement.setAttribute('data-mode', mode);\n    })();\n  </script>\n</head>\n<body>\n  <div class=\"app-container\">\n    <header class=\"top-header\">\n      <div class=\"header-left\">\n        <button class=\"mobile-nav-toggle\" type=\"button\" aria-label=\"Toggle navigation\">☰</button>\n        <a class=\"site-title\" href=\"";

pub const PAGE_SITE_TITLE: &'static str = "\">\n          <span>📖</span>\n          <span>";

pub const PAGE_SIDEBAR: &'static str = "</span>\n        </a>\n      </div>\n      <div class=\"header-right\">\n        <select id=\"theme-select\" class=\"control-select\" aria-label=\"Select Theme\">\n          <option value=\"github\">GitHub</option>\n          <option value=\"dracula\">Dracula</option>\n          <option value=\"nord\">Nord</option>\n          <option value=\"solarized\">Solarized</option>\n          <option value=\"sepia\">Sepia</option>\n        </select>\n        <button id=\"mode-toggle\" class=\"control-btn mode-toggle-btn\" type=\"button\" aria-label=\"Toggle dark/light mode\">\n          💻 Auto\n        </button>\n      </div>\n    </header>\n\n    <div class=\"layout-body\">\n      <div class=\"sidebar-backdrop\"></div>\n      <aside class=\"sidebar\">\n        <div class=\"sidebar-search\">\n          <input type=\"text\" class=\"search-input\" placeholder=\"Search pages...\" aria-label=\"Filter navigation\">\n        </div>\n";

pub const PAGE_MAIN: &'static str = "\n      </aside>\n\n      <main class=\"content-area\">\n";

pub const PAGE_ARTICLE: &'static str = "        <article>\n";

pub const PAGE_FOOTER: &'static str = "\n        </article>\n        <footer class=\"page-footer\">\n          <span>Generated with <strong>MDRender</strong></span>\n          <a href=\"#top\" class=\"back-to-top\">↑ Back to top</a>\n        </footer>\n      </main>\n\n";

pub const PAGE_SCRIPT: &'static str = "\n    </div>\n  </div>\n\n  <script src=\"";

pub const PAGE_END: &'static str = "theme.js\"></script>\n</body>\n</html>\n";

/// The number of sections before which `x` goes in a sorted list.
pub open spec fn insert_pos(list: Seq<Seq<char>>, x: Seq<char>) -> int
    decreases list.len(),
{
    if list.len() == 0 {
        0
    } else if lex_lt(list[0], x) {
        1 + insert_pos(list.drop_first(), x)
    } else {
        0
    }
}

/// Adds `x` to a sorted list of distinct names unless it is there already.
pub open spec fn insert_unique(list: Seq<Seq<char>>, x: Seq<char>) -> Seq<Seq<char>> {
    if list.contains(x) {
        list
    } else {
        list.insert(insert_pos(list, x), x)
    }
}

/// The section names of the navigation, each once, in `String` order (the
/// keys of the `BTreeMap` that groups them).
pub open spec fn section_names(items: Seq<NavItem>) -> Seq<Seq<char>>
    decreases items.len(),
{
    if items.len() == 0 {
        seq![]
    } else {
        insert_unique(section_names(items.drop_last()), items.last().section@)
    }
}

/// The navigation entry of one page.
pub open spec fn nav_item_html(item: NavItem, current: Seq<char>) -> Seq<char> {
    "    <li class=\"nav-item\"><a class=\"nav-link"@ + (if item.rel_html_path@ == current {
        " active"@
    } else {
        ""@
    }) + "\" href=\""@ + html_escaped(relative_link(current, item.rel_html_path@)) + "\">"@
        + html_escaped(item.title@) + "</a></li>\n"@
}

/// The entries of the pages of one section, in navigation order.
pub open spec fn section_items_html(items: Seq<NavItem>, name: Seq<char>, current: Seq<char>) -> Seq<
    char,
>
    decreases items.len(),
{
    if items.len() == 0 {
        seq![]
    } else {
        section_items_html(items.drop_last(), name, current) + if items.last().section@ == name {
            nav_item_html(items.last(), current)
        } else {
            seq![]
        }
    }
}

/// The navigation block of one section.
pub open spec fn section_html(items: Seq<NavItem>, name: Seq<char>, current: Seq<char>) -> Seq<char> {
    "  <div class=\"nav-section-title\">"@ + html_escaped(name) + "</div>\n  <ul class=\"nav-list\">\n"@
        + section_items_html(items, name, current) + "  </ul>\n"@
}

/// The blocks of the given sections, in order.
pub open spec fn sections_html(
    names: Seq<Seq<char>>,
    items: Seq<NavItem>,
    current: Seq<char>,
) -> Seq<char>
    decreases names.len(),
{
    if names.len() == 0 {
        seq![]
    } else {
        sections_html(names.drop_last(), items, current) + section_html(items, names.last(), current)
    }
}

/// The sidebar navigation: the pages grouped by section, sections in
/// `String` order, pages in the given order, the current page marked active.
pub open spec fn nav_html(items: Seq<NavItem>, current: Seq<char>) -> Seq<char> {
    sections_html(section_names(items), items, current)
}

/// The entries of the table of contents.
pub open spec fn toc_items_html(toc: Seq<TocView>) -> Seq<char>
    decreases toc.len(),
{
    if toc.len() == 0 {
        seq![]
    } else {
        toc_items_html(toc.drop_last()) + "    <li class=\"toc-item depth-"@ + decimal(
            toc.last().level,
        ) + "\"><a class=\"toc-link\" href=\"#"@ + html_escaped(toc.last().id) + "\">"@
            + html_escaped(toc.last().title) + "</a></li>\n"@
    }
}

/// The table of contents sidebar (nothing when there are no entries).
pub open spec fn toc_html(toc: Seq<TocView>) -> Seq<char> {
    if toc.len() == 0 {
        seq![]
    } else {
        "<aside class=\"toc-sidebar\">\n"@ + "  <div class=\"toc-title\">On this page</div>\n"@
            + "  <ul class=\"toc-list\">\n"@ + toc_items_html(toc) + "  </ul>\n"@ + "</aside>\n"@
    }
}

/// The tags as `<code>` elements separated by spaces.
pub open spec fn tags_html(tags: Seq<Seq<char>>) -> Seq<char>
    decreases tags.len(),
{
    if tags.len() == 0 {
        seq![]
    } else if tags.len() == 1 {
        "<code>"@ + html_escaped(tags[0]) + "</code>"@
    } else {
        tags_html(tags.drop_last()) + " "@ + "<code>"@ + html_escaped(tags.last()) + "</code>"@
    }
}

/// The metadata card: date, author and tags, when any of them is present.
pub open spec fn meta_card_html(fm: FrontMatterView) -> Seq<char> {
    if fm.date is Some || fm.author is Some || fm.tags.len() > 0 {
        "<div class=\"metadata-box\">\n"@ + (match fm.date {
            Some(d) => "  <div class=\"metadata-item\"><span class=\"metadata-label\">Date:</span> <span>"@
                + html_escaped(d) + "</span></div>\n"@,
            None => ""@,
        }) + (match fm.author {
            Some(a) => "  <div class=\"metadata-item\"><span class=\"metadata-label\">Author:</span> <span>"@
                + html_escaped(a) + "</span></div>\n"@,
            None => ""@,
        }) + (if fm.tags.len() > 0 {
            "  <div class=\"metadata-item\"><span class=\"metadata-label\">Tags:</span> <span>"@
                + tags_html(fm.tags) + "</span></div>\n"@
        } else {
            ""@
        }) + "</div>\n"@
    } else {
        ""@
    }
}

/// Where the code item of tag `k` stands in `tags_html(tags)`.
proof fn lemma_tags_html_pos(tags: Seq<Seq<char>>, k: int, m: Seq<char>) -> (i: int)
    requires
        0 <= k < tags.len(),
        m == "<code>"@ + html_escaped(tags[k]) + "</code>"@,
    ensures
        occurs_at(tags_html(tags), m, i),
    decreases tags.len(),
{
    let whole = tags_html(tags);
    if tags.len() == 1 {
        assert(whole == m);
        assert(whole.subrange(0, m.len() as int) =~= m);
        0
    } else {
        let init = tags_html(tags.drop_last());
        let last = "<code>"@ + html_escaped(tags.last()) + "</code>"@;
        assert(whole =~= init + " "@ + last);
        if k == tags.len() - 1 {
            let i = whole.len() - m.len();
            assert(whole.subrange(i, i + m.len()) =~= m);
            i
        } else {
            assert(tags.drop_last()[k] == tags[k]);
            let j = lemma_tags_html_pos(tags.drop_last(), k, m);
            assert(whole.subrange(j, j + m.len()) =~= init.subrange(j, j + m.len()));
            j
        }
    }
}

proof fn lemma_tags_html_holds(tags: Seq<Seq<char>>, k: int)
    requires
        0 <= k < tags.len(),
    ensures
        has_part(tags_html(tags), "<code>"@ + html_escaped(tags[k]) + "</code>"@),
{
    let i = lemma_tags_html_pos(tags, k, "<code>"@ + html_escaped(tags[k]) + "</code>"@);
}

/// The item of the metadata card that shows a date.
pub open spec fn date_item(d: Seq<char>) -> Seq<char> {
    "  <div class=\"metadata-item\"><span class=\"metadata-label\">Date:</span> <span>"@
        + html_escaped(d) + "</span></div>\n"@
}

/// The item of the metadata card that shows an author.
pub open spec fn author_item(a: Seq<char>) -> Seq<char> {
    "  <div class=\"metadata-item\"><span class=\"metadata-label\">Author:</span> <span>"@
        + html_escaped(a) + "</span></div>\n"@
}

/// Metadata law: the page shows the front matter's date and author, each
/// escaped in its labelled item of the metadata card, and every tag,
/// escaped, as code.
pub proof fn law_page_shows_metadata(
    site_title: Seq<char>,
    page_title: Seq<char>,
    fm: FrontMatterView,
    content_html: Seq<char>,
    toc: Seq<TocView>,
    current: Seq<char>,
    nav: Seq<NavItem>,
)
    ensures
        fm.date is Some ==> has_part(
            page_html(site_title, page_title, fm, content_html, toc, current, nav),
            date_item(fm.date->0),
        ),
        fm.author is Some ==> has_part(
            page_html(site_title, page_title, fm, content_html, toc, current, nav),
            author_item(fm.author->0),
        ),
        forall|k: int|
            0 <= k < fm.tags.len() ==> has_part(
                page_html(site_title, page_title, fm, content_html, toc, current, nav),
                "<code>"@ + html_escaped(#[trigger] fm.tags[k]) + "</code>"@,
            ),
{
    let prefix = assets_prefix(current);
    let page = page_html(site_title, page_title, fm, content_html, toc, current, nav);
    let before = PAGE_HEAD@ + html_escaped(page_title) + PAGE_TITLE_SEP@ + html_escaped(site_title)
        + PAGE_TITLE_END@ + description_meta(fm) + PAGE_STYLESHEET@ + prefix + PAGE_HEADER@
        + html_escaped(relative_link(current, "index.html"@)) + PAGE_SITE_TITLE@ + html_escaped(
        site_title,
    ) + PAGE_SIDEBAR@ + nav_html(nav, current) + PAGE_MAIN@;
    let after = PAGE_ARTICLE@ + content_html + PAGE_FOOTER@ + toc_html(toc) + PAGE_SCRIPT@ + prefix
        + PAGE_END@;
    let card = meta_card_html(fm);
    assert(page =~= before + card + after);
    let open = "<div class=\"metadata-box\">\n"@;
    let d = match fm.date {
        Some(x) => date_item(x),
        None => ""@,
    };
    let a = match fm.author {
        Some(x) => author_item(x),
        None => ""@,
    };
    let t = if fm.tags.len() > 0 {
        "  <div class=\"metadata-item\"><span class=\"metadata-label\">Tags:</span> <span>"@
            + tags_html(fm.tags) + "</span></div>\n"@
    } else {
        ""@
    };
    let close = "</div>\n"@;
    if fm.date is Some || fm.author is Some || fm.tags.len() > 0 {
        assert(card == open + d + a + t + close);
        if fm.date is Some {
            lemma_has_part_middle(open, d, a + t + close);
            assert(open + d + (a + t + close) =~= card);
            lemma_has_part_extend(before, card, after, d);
        }
        if fm.author is Some {
            lemma_has_part_middle(open + d, a, t + close);
            assert(open + d + a + (t + close) =~= card);
            lemma_has_part_extend(before, card, after, a);
        }
        assert forall|k: int| 0 <= k < fm.tags.len() implies has_part(
            page,
            "<code>"@ + html_escaped(#[trigger] fm.tags[k]) + "</code>"@,
        ) by {
            let m = "<code>"@ + html_escaped(fm.tags[k]) + "</code>"@;
            let tl = "  <div class=\"metadata-item\"><span class=\"metadata-label\">Tags:</span> <span>"@;
            let tr = "</span></div>\n"@;
            lemma_tags_html_holds(fm.tags, k);
            lemma_has_part_extend(tl, tags_html(fm.tags), tr, m);
            lemma_has_part_extend(open + d + a, t, close, m);
            assert(open + d + a + t + close == card);
            lemma_has_part_extend(before, card, after, m);
        }
    }
}

#[verifier::spinoff_prover]
#[verifier::rlimit(60)]
/// Title law: a page begins with the fixed head, then its escaped title,
/// ` - ` and the escaped site title inside `<title>`.
pub proof fn law_page_title_first(
    site_title: Seq<char>,
    page_title: Seq<char>,
    fm: FrontMatterView,
    content_html: Seq<char>,
    toc: Seq<TocView>,
    current: Seq<char>,
    nav: Seq<NavItem>,
)
    ensures
        ({
            let head = PAGE_HEAD@ + html_escaped(page_title) + PAGE_TITLE_SEP@ + html_escaped(
                site_title,
            ) + PAGE_TITLE_END@;
            page_html(site_title, page_title, fm, content_html, toc, current, nav).len() >= head.len()
                && page_html(site_title, page_title, fm, content_html, toc, current, nav).take(
                head.len() as int,
            ) == head
        }),
{
    let prefix = assets_prefix(current);
    let head = PAGE_HEAD@ + html_escaped(page_title) + PAGE_TITLE_SEP@ + html_escaped(site_title)
        + PAGE_TITLE_END@;
    let rest = description_meta(fm) + PAGE_STYLESHEET@ + prefix + PAGE_HEADER@ + html_escaped(
        relative_link(current, "index.html"@),
    ) + PAGE_SITE_TITLE@ + html_escaped(site_title) + PAGE_SIDEBAR@ + nav_html(nav, current)
        + PAGE_MAIN@ + meta_card_html(fm) + PAGE_ARTICLE@ + content_html + PAGE_FOOTER@ + toc_html(
        toc,
    ) + PAGE_SCRIPT@ + prefix + PAGE_END@;
    let page = page_html(site_title, page_title, fm, content_html, toc, current, nav);
    assert(page =~= head + rest);
    assert((head + rest).take(head.len() as int) =~= head);
}

/// The description `<meta>` tag, when there is a description.
pub open spec fn description_meta(fm: FrontMatterView) -> Seq<char> {
    match fm.description {
        Some(d) => "<meta name=\"description\" content=\""@ + html_escaped(d) + "\">\n"@,
        None => ""@,
    }
}

/// The whole page.
pub open spec fn page_html(
    site_title: Seq<char>,
    page_title: Seq<char>,
    fm: FrontMatterView,
    content_html: Seq<char>,
    toc: Seq<TocView>,
    current: Seq<char>,
    nav: Seq<NavItem>,
) -> Seq<char> {
    let prefix = assets_prefix(current);
    PAGE_HEAD@ + html_escaped(page_title) + PAGE_TITLE_SEP@ + html_escaped(site_title)
        + PAGE_TITLE_END@ + description_meta(fm) + PAGE_STYLESHEET@ + prefix + PAGE_HEADER@
        + html_escaped(relative_link(current, "index.html"@)) + PAGE_SITE_TITLE@ + html_escaped(
        site_title,
    ) + PAGE_SIDEBAR@ + nav_html(nav, current) + PAGE_MAIN@ + meta_card_html(fm) + PAGE_ARTICLE@
        + content_html + PAGE_FOOTER@ + toc_html(toc) + PAGE_SCRIPT@ + prefix + PAGE_END@
}

} // verus!

verus! {

fn contains_name(list: &Vec<Vec<char>>, x: &Vec<char>) -> (r: bool)
    ensures
        r == crate::text::views(list@).contains(x@),
{
    let ghost vs = crate::text::views(list@);
    let mut i: usize = 0;
    while i < list.len()
        invariant
            0 <= i <= list.len(),
            vs == crate::text::views(list@),
            forall|j: int| 0 <= j < i ==> vs[j] != x@,
        decreases list.len() - i,
    {
        if chars_eq(&list[i], x) {
            assert(vs[i as int] == x@);
            return true;
        }
        i += 1;
    }
    false
}

fn find_insert_pos(list: &Vec<Vec<char>>, x: &Vec<char>) -> (r: usize)
    ensures
        r == insert_pos(crate::text::views(list@), x@),
        r <= list.len(),
{
    let ghost vs = crate::text::views(list@);
    let mut i: usize = 0;
    assert(vs.skip(0) =~= vs);
    while i < list.len() && crate::text::lex_less(&list[i], x)
        invariant
            0 <= i <= list.len(),
            vs == crate::text::views(list@),
            insert_pos(vs, x@) == i + insert_pos(vs.skip(i as int), x@),
        decreases list.len() - i,
    {
        assert(vs.skip(i as int).drop_first() =~= vs.skip(i + 1));
        assert(vs.skip(i as int)[0] == list@[i as int]@);
        i += 1;
    }
    proof {
        if i < list.len() {
            assert(vs.skip(i as int)[0] == list@[i as int]@);
        }
    }
    i
}

/// The section names of the navigation, sorted and without repeats.
fn collect_section_names(items: &[NavItem]) -> (r: Vec<Vec<char>>)
    ensures
        crate::text::views(r@) == section_names(items@),
{
    let mut names: Vec<Vec<char>> = Vec::new();
    let mut i: usize = 0;
    assert(items@.take(0) =~= Seq::<NavItem>::empty());
    assert(crate::text::views(names@) =~= Seq::<Seq<char>>::empty());
    while i < items.len()
        invariant
            0 <= i <= items.len(),
            crate::text::views(names@) == section_names(items@.take(i as int)),
        decreases items.len() - i,
    {
        assert(items@.take(i + 1).drop_last() =~= items@.take(i as int));
        let x = chars_of(items[i].section.as_str());
        let ghost before = crate::text::views(names@);
        if !contains_name(&names, &x) {
            let p = find_insert_pos(&names, &x);
            names.insert(p, x);
            assert(crate::text::views(names@) =~= before.insert(p as int, x@));
        }
        i += 1;
    }
    assert(items@.take(items.len() as int) =~= items@);
    names
}

fn push_nav_item(out: &mut String, item: &NavItem, current: &str)
    ensures
        final(out)@ == old(out)@ + nav_item_html(*item, current@),
{
    out.append("    <li class=\"nav-item\"><a class=\"nav-link");
    let a = chars_of(item.rel_html_path.as_str());
    let b = chars_of(current);
    if chars_eq(&a, &b) {
        out.append(" active");
    } else {
        out.append("");
    }
    out.append("\" href=\"");
    let href = compute_relative_link(current, item.rel_html_path.as_str());
    let eh = html_escape(href.as_str());
    out.append(eh.as_str());
    out.append("\">");
    let et = html_escape(item.title.as_str());
    out.append(et.as_str());
    out.append("</a></li>\n");
    assert(final(out)@ =~= old(out)@ + nav_item_html(*item, current@));
}

/// The sidebar navigation.
fn build_nav_html(items: &[NavItem], current: &str) -> (r: String)
    ensures
        r@ == nav_html(items@, current@),
{
    let names = collect_section_names(items);
    let ghost ns = crate::text::views(names@);
    let mut out = String::new();
    let mut k: usize = 0;
    assert(ns.take(0) =~= Seq::<Seq<char>>::empty());
    while k < names.len()
        invariant
            0 <= k <= names.len(),
            ns == crate::text::views(names@),
            ns == section_names(items@),
            out@ == sections_html(ns.take(k as int), items@, current@),
        decreases names.len() - k,
    {
        let name = &names[k];
        let ghost before = out@;
        out.append("  <div class=\"nav-section-title\">");
        let ns_s = string_of(name);
        let en = html_escape(ns_s.as_str());
        out.append(en.as_str());
        out.append("</div>\n  <ul class=\"nav-list\">\n");
        let ghost mid = out@;
        let mut i: usize = 0;
        assert(items@.take(0) =~= Seq::<NavItem>::empty());
        while i < items.len()
            invariant
                0 <= i <= items.len(),
                out@ == mid + section_items_html(items@.take(i as int), name@, current@),
            decreases items.len() - i,
        {
            assert(items@.take(i + 1).drop_last() =~= items@.take(i as int));
            let sec = chars_of(items[i].section.as_str());
            if chars_eq(&sec, name) {
                push_nav_item(&mut out, &items[i], current);
            }
            i += 1;
        }
        assert(items@.take(items.len() as int) =~= items@);
        out.append("  </ul>\n");
        assert(ns.take(k + 1).drop_last() =~= ns.take(k as int));
        assert(out@ =~= before + section_html(items@, name@, current@));
        k += 1;
    }
    assert(ns.take(names.len() as int) =~= ns);
    out
}

/// The table of contents sidebar.
fn build_toc_html(toc: &[TocItem]) -> (r: String)
    ensures
        r@ == toc_html(toc_views(toc@)),
{
    let mut out = String::new();
    if toc.len() == 0 {
        return out;
    }
    out.append("<aside class=\"toc-sidebar\">\n");
    out.append("  <div class=\"toc-title\">On this page</div>\n");
    out.append("  <ul class=\"toc-list\">\n");
    let ghost head = out@;
    let mut i: usize = 0;
    assert(toc@.take(0) =~= Seq::<TocItem>::empty());
    while i < toc.len()
        invariant
            0 <= i <= toc.len(),
            out@ == head + toc_items_html(toc_views(toc@.take(i as int))),
        decreases toc.len() - i,
    {
        assert(toc@.take(i + 1).drop_last() =~= toc@.take(i as int));
        assert(toc_views(toc@.take(i + 1)).drop_last() =~= toc_views(toc@.take(i as int)));
        let ghost before = out@;
        out.append("    <li class=\"toc-item depth-");
        crate::text::push_decimal(&mut out, toc[i].level as u64);
        out.append("\"><a class=\"toc-link\" href=\"#");
        let ei = html_escape(toc[i].id.as_str());
        out.append(ei.as_str());
        out.append("\">");
        let et = html_escape(toc[i].title.as_str());
        out.append(et.as_str());
        out.append("</a></li>\n");
        assert(out@ =~= head + toc_items_html(toc_views(toc@.take(i + 1))));
        i += 1;
    }
    assert(toc@.take(toc.len() as int) =~= toc@);
    out.append("  </ul>\n");
    out.append("</aside>\n");
    assert(out@ =~= toc_html(toc_views(toc@)));
    out
}

/// The metadata card.
fn build_meta_card(fm: &FrontMatter) -> (r: String)
    ensures
        r@ == meta_card_html(fm.view()),
{
    let mut out = String::new();
    if !(fm.date.is_some() || fm.author.is_some() || fm.tags.len() > 0) {
        out.append("");
        return out;
    }
    out.append("<div class=\"metadata-box\">\n");
    match &fm.date {
        Some(d) => {
            out.append(
                "  <div class=\"metadata-item\"><span class=\"metadata-label\">Date:</span> <span>",
            );
            let e = html_escape(d.as_str());
            out.append(e.as_str());
            out.append("</span></div>\n");
        },
        None => {
            out.append("");
        },
    }
    match &fm.author {
        Some(a) => {
            out.append(
                "  <div class=\"metadata-item\"><span class=\"metadata-label\">Author:</span> <span>",
            );
            let e = html_escape(a.as_str());
            out.append(e.as_str());
            out.append("</span></div>\n");
        },
        None => {
            out.append("");
        },
    }
    if fm.tags.len() > 0 {
        out.append(
            "  <div class=\"metadata-item\"><span class=\"metadata-label\">Tags:</span> <span>",
        );
        let ghost head = out@;
        let ghost tv = crate::markdown::string_views(fm.tags@);
        let mut i: usize = 0;
        assert(tv.take(0) =~= Seq::<Seq<char>>::empty());
        while i < fm.tags.len()
            invariant
                0 <= i <= fm.tags.len(),
                tv == crate::markdown::string_views(fm.tags@),
                out@ == head + tags_html(tv.take(i as int)),
            decreases fm.tags.len() - i,
        {
            assert(tv.take(i + 1).drop_last() =~= tv.take(i as int));
            if i > 0 {
                out.append(" ");
            }
            out.append("<code>");
            let e = html_escape(fm.tags[i].as_str());
            out.append(e.as_str());
            out.append("</code>");
            assert(out@ =~= head + tags_html(tv.take(i + 1)));
            i += 1;
        }
        assert(tv.take(fm.tags.len() as int) =~= tv);
        out.append("</span></div>\n");
    } else {
        out.append("");
    }
    out.append("</div>\n");
    assert(out@ =~= meta_card_html(fm.view()));
    out
}

/// Renders a complete HTML page: head with title, description and the shared
/// stylesheet, the header with the theme controls, the sidebar navigation,
/// the metadata card, the content, the table of contents and the shared
/// script. Asset links are relative to the page's nesting depth.
pub fn render_html_page(ctx: &PageContext) -> (r: String)
    ensures
        r@ == page_html(
            ctx.site_title@,
            ctx.page_title@,
            ctx.frontmatter.view(),
            ctx.content_html@,
            toc_views(ctx.toc@),
            ctx.current_rel_path@,
            ctx.nav_items@,
        ),
{
    let assets_prefix = compute_assets_prefix(ctx.current_rel_path);
    let home_link = compute_relative_link(ctx.current_rel_path, "index.html");
    let nav = build_nav_html(ctx.nav_items, ctx.current_rel_path);
    let toc = build_toc_html(ctx.toc);
    let meta = build_meta_card(ctx.frontmatter);
    let mut desc = String::new();
    match &ctx.frontmatter.description {
        Some(d) => {
            desc.append("<meta name=\"description\" content=\"");
            let e = html_escape(d.as_str());
            desc.append(e.as_str());
            desc.append("\">\n");
        },
        None => {
            desc.append("");
        },
    }
    assert(desc@ =~= description_meta(ctx.frontmatter.view()));
    let mut out = String::new();
    out.append(PAGE_HEAD);
    let e1 = html_escape(ctx.page_title);
    out.append(e1.as_str());
    out.append(PAGE_TITLE_SEP);
    let e2 = html_escape(ctx.site_title);
    out.append(e2.as_str());
    out.append(PAGE_TITLE_END);
    out.append(desc.as_str());
    out.append(PAGE_STYLESHEET);
    out.append(assets_prefix.as_str());
    out.append(PAGE_HEADER);
    let e3 = html_escape(home_link.as_str());
    out.append(e3.as_str());
    out.append(PAGE_SITE_TITLE);
    out.append(e2.as_str());
    out.append(PAGE_SIDEBAR);
    out.append(nav.as_str());
    out.append(PAGE_MAIN);
    out.append(meta.as_str());
    out.append(PAGE_ARTICLE);
    out.append(ctx.content_html);
    out.append(PAGE_FOOTER);
    out.append(toc.as_str());
    out.append(PAGE_SCRIPT);
    out.append(assets_prefix.as_str());
    out.append(PAGE_END);
    assert(out@ =~= page_html(
        ctx.site_title@,
        ctx.page_title@,
        ctx.frontmatter.view(),
        ctx.content_html@,
        toc_views(ctx.toc@),
        ctx.current_rel_path@,
        ctx.nav_items@,
    ));
    out
}

} // verus!
