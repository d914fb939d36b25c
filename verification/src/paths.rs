//! Relative `/`-separated paths, read as `std::path::Path` reads them on Unix.
use vstd::prelude::*;
use crate::text::{chars_of, push_chars, split_by, split_seps, views};

verus! {

/// A path component, as `std::path::Component` (Unix: no prefixes).
pub enum Comp {
    Root,
    Cur,
    Parent,
    Normal(Seq<char>),
}

/// A path component held by executable code.
pub enum PathComp {
    Root,
    Cur,
    Parent,
    Normal(Vec<char>),
}

impl PathComp {
    pub open spec fn view(&self) -> Comp {
        match self {
            PathComp::Root => Comp::Root,
            PathComp::Cur => Comp::Cur,
            PathComp::Parent => Comp::Parent,
            PathComp::Normal(v) => Comp::Normal(v@),
        }
    }
}

pub open spec fn comp_views(v: Seq<PathComp>) -> Seq<Comp> {
    v.map_values(|c: PathComp| c.view())
}

/// The components that the `/`-separated pieces `segs` give: empty pieces and
/// `.` are dropped, `..` is the parent directory, the rest are names.
pub open spec fn seg_comps(segs: Seq<Seq<char>>) -> Seq<Comp>
    decreases segs.len(),
{
    if segs.len() == 0 {
        seq![]
    } else {
        let s = segs[0];
        let rest = seg_comps(segs.drop_first());
        if s.len() == 0 || s == seq!['.'] {
            rest
        } else if s == seq!['.', '.'] {
            seq![Comp::Parent] + rest
        } else {
            seq![Comp::Normal(s)] + rest
        }
    }
}

/// `Path::components`: a leading `/` is the root, a leading `.` is the
/// current directory, repeated separators, inner `.` and a trailing `/` are
/// normalised away.
pub open spec fn components(s: Seq<char>) -> Seq<Comp> {
    let segs = split_seps(s, seq!['/']);
    if s.len() > 0 && s[0] == '/' {
        seq![Comp::Root] + seg_comps(segs)
    } else if segs.len() > 0 && segs[0] == seq!['.'] {
        seq![Comp::Cur] + seg_comps(segs.drop_first())
    } else {
        seg_comps(segs)
    }
}

/// The components of `Path::parent` (none when there is no parent).
pub open spec fn parent_components(s: Seq<char>) -> Seq<Comp> {
    let c = components(s);
    if c.len() > 0 && c.last() != Comp::Root {
        c.drop_last()
    } else {
        seq![]
    }
}

/// The text `PathBuf::push` adds for a component.
pub open spec fn comp_text(c: Comp) -> Seq<char> {
    match c {
        Comp::Root => seq!['/'],
        Comp::Cur => seq!['.'],
        Comp::Parent => seq!['.', '.'],
        Comp::Normal(n) => n,
    }
}

/// `PathBuf::push` of one component: the root replaces the path; otherwise a
/// `/` is added unless the path is empty or already ends with one.
pub open spec fn push_comp(buf: Seq<char>, c: Comp) -> Seq<char> {
    if c == Comp::Root {
        seq!['/']
    } else if buf.len() > 0 && buf.last() != '/' {
        buf + seq!['/'] + comp_text(c)
    } else {
        buf + comp_text(c)
    }
}

/// Pushes the components in order.
pub open spec fn push_comps(buf: Seq<char>, cs: Seq<Comp>) -> Seq<char>
    decreases cs.len(),
{
    if cs.len() == 0 {
        buf
    } else {
        push_comps(push_comp(buf, cs[0]), cs.drop_first())
    }
}

proof fn lemma_seg_comps_push(segs: Seq<Seq<char>>, s: Seq<char>)
    ensures
        seg_comps(segs.push(s)) == seg_comps(segs) + seg_comps(seq![s]),
    decreases segs.len(),
{
    if segs.len() == 0 {
        assert(segs.push(s) =~= seq![s]);
        assert(seg_comps(segs) =~= Seq::<Comp>::empty());
        assert(seg_comps(segs) + seg_comps(seq![s]) =~= seg_comps(seq![s]));
    } else {
        assert(segs.push(s).drop_first() =~= segs.drop_first().push(s));
        lemma_seg_comps_push(segs.drop_first(), s);
        let r1 = seg_comps(segs.drop_first());
        let r2 = seg_comps(seq![s]);
        assert(seq![Comp::Parent] + (r1 + r2) =~= seq![Comp::Parent] + r1 + r2);
        assert(seq![Comp::Normal(segs[0])] + (r1 + r2) =~= seq![Comp::Normal(segs[0])] + r1 + r2);
    }
}

/// The components of the `/`-separated pieces `segs[from..]`.
fn comps_of_segs(segs: &Vec<Vec<char>>, from: usize) -> (r: Vec<PathComp>)
    requires
        from <= segs.len(),
    ensures
        comp_views(r@) == seg_comps(views(segs@).skip(from as int)),
{
    let mut out: Vec<PathComp> = Vec::new();
    let mut i = from;
    assert(views(segs@).skip(from as int).take(0) =~= Seq::<Seq<char>>::empty());
    while i < segs.len()
        invariant
            from <= i <= segs.len(),
            comp_views(out@) == seg_comps(views(segs@).skip(from as int).take(i - from)),
        decreases segs.len() - i,
    {
        let s = &segs[i];
        let ghost before = out@;
        let ghost vs = views(segs@).skip(from as int);
        proof {
            assert(vs.take(i + 1 - from) =~= vs.take(i - from).push(s@));
            lemma_seg_comps_push(vs.take(i - from), s@);
            assert(seq![s@].drop_first() =~= Seq::<Seq<char>>::empty());
        }
        assert(seg_comps(Seq::<Seq<char>>::empty()) =~= Seq::<Comp>::empty());
        if s.len() == 0 || (s.len() == 1 && s[0] == '.') {
            proof {
                if s.len() == 1 {
                    assert(s@ =~= seq!['.']);
                }
                assert(seg_comps(seq![s@]) =~= Seq::<Comp>::empty());
                assert(comp_views(out@) =~= comp_views(before) + seg_comps(seq![s@]));
            }
        } else if s.len() == 2 && s[0] == '.' && s[1] == '.' {
            assert(s@ =~= seq!['.', '.']);
            out.push(PathComp::Parent);
            assert(seg_comps(seq![s@]) =~= seq![Comp::Parent]);
            assert(comp_views(out@) =~= comp_views(before) + seg_comps(seq![s@]));
        } else {
            proof {
                if s@ == seq!['.'] {
                    assert(s@[0] == '.');
                }
                if s@ == seq!['.', '.'] {
                    assert(s@[0] == '.' && s@[1] == '.');
                }
            }
            let copy = crate::text::vec_range(s, 0, s.len());
            assert(copy@ =~= s@);
            out.push(PathComp::Normal(copy));
            assert(seg_comps(seq![s@]) =~= seq![Comp::Normal(s@)]);
            assert(comp_views(out@) =~= comp_views(before) + seg_comps(seq![s@]));
        }
        i += 1;
    }
    assert(views(segs@).skip(from as int).take(segs.len() - from) =~= views(segs@).skip(
        from as int,
    ));
    out
}

/// `Path::components` of a path given as characters.
pub fn path_components(s: &Vec<char>) -> (r: Vec<PathComp>)
    ensures
        comp_views(r@) == components(s@),
{
    let seps = vec!['/'];
    assert(seps@ =~= seq!['/']);
    let segs = split_by(s, &seps);
    if s.len() > 0 && s[0] == '/' {
        let rest = comps_of_segs(&segs, 0);
        assert(views(segs@).skip(0) =~= views(segs@));
        let mut out: Vec<PathComp> = Vec::new();
        out.push(PathComp::Root);
        let mut rest = rest;
        let ghost tail = rest@;
        out.append(&mut rest);
        assert(out@ =~= seq![PathComp::Root] + tail);
        assert(comp_views(out@) =~= seq![Comp::Root] + comp_views(tail));
        return out;
    }
    let ghost sv = views(segs@);
    if segs.len() > 0 && segs[0].len() == 1 && segs[0][0] == '.' {
        assert(segs@[0]@ =~= seq!['.']);
        let mut rest = comps_of_segs(&segs, 1);
        assert(sv.skip(1) =~= sv.drop_first());
        let mut out: Vec<PathComp> = Vec::new();
        out.push(PathComp::Cur);
        let ghost tail = rest@;
        out.append(&mut rest);
        assert(out@ =~= seq![PathComp::Cur] + tail);
        assert(comp_views(out@) =~= seq![Comp::Cur] + comp_views(tail));
        return out;
    }
    proof {
        if sv.len() > 0 && sv[0] == seq!['.'] {
            assert(sv[0][0] == '.');
        }
    }
    let out = comps_of_segs(&segs, 0);
    assert(sv.skip(0) =~= sv);
    out
}


// ---------------------------------------------------------------------------
// Reading back joined names
// ---------------------------------------------------------------------------

/// A name that `Path::components` yields as a `Normal` component: not empty,
/// without `/`, and neither `.` nor `..`.
pub open spec fn valid_name(n: Seq<char>) -> bool {
    n.len() > 0 && !n.contains('/') && n != seq!['.'] && n != seq!['.', '.']
}

/// Every component is a name component with a valid name.
pub open spec fn all_valid_names(cs: Seq<Comp>) -> bool {
    forall|i: int| 0 <= i < cs.len() ==> (#[trigger] cs[i] matches Comp::Normal(n) && valid_name(n))
}

/// Every name component has a valid name.
pub open spec fn names_valid(cs: Seq<Comp>) -> bool {
    forall|i: int| 0 <= i < cs.len() ==> (#[trigger] cs[i] matches Comp::Normal(n) ==> valid_name(n))
}

/// Every component is `..` or a name component with a valid name: what a
/// relative link between two pages of a site is made of.
pub open spec fn linkable(cs: Seq<Comp>) -> bool {
    forall|i: int|
        0 <= i < cs.len() ==> #[trigger] cs[i] == Comp::Parent || (cs[i] matches Comp::Normal(n)
            && valid_name(n))
}

proof fn lemma_linkable_text(c: Comp)
    requires
        c == Comp::Parent || (c matches Comp::Normal(n) && valid_name(n)),
    ensures
        comp_text(c).len() > 0,
        !comp_text(c).contains('/'),
        comp_text(c).last() != '/',
        comp_text(c)[0] != '/',
        comp_text(c) != seq!['.'],
        seg_comps(seq![comp_text(c)]) == seq![c],
{
    let t = comp_text(c);
    assert(seq![t].drop_first() == Seq::<Seq<char>>::empty());
    assert(seg_comps(Seq::<Seq<char>>::empty()) == Seq::<Comp>::empty());
    if c == Comp::Parent {
        assert(t == seq!['.', '.']);
        assert(!t.contains('/')) by {
            if t.contains('/') {
                let k = choose|k: int| 0 <= k < t.len() && t[k] == '/';
                assert(t[k] == '.');
            }
        }
        assert(t != seq!['.']) by {
            assert(t.len() != seq!['.'].len());
        }
        assert(seq![Comp::Parent] + Seq::<Comp>::empty() == seq![Comp::Parent]);
    } else {
        assert(t[t.len() - 1] == t.last());
        if t.last() == '/' {
            assert(t.contains('/'));
        }
        if t[0] == '/' {
            assert(t.contains('/'));
        }
        assert(seq![c] + Seq::<Comp>::empty() == seq![c]);
    }
}

/// Valid names are linkable.
pub proof fn lemma_valid_names_linkable(cs: Seq<Comp>)
    requires
        all_valid_names(cs),
    ensures
        linkable(cs),
{
    assert forall|i: int| 0 <= i < cs.len() implies #[trigger] cs[i] == Comp::Parent || (
    cs[i] matches Comp::Normal(n) && valid_name(n)) by {
        assert(cs[i] matches Comp::Normal(n) && valid_name(n));
    }
}

/// The names joined with `/`.
pub open spec fn slash_join(names: Seq<Seq<char>>) -> Seq<char>
    decreases names.len(),
{
    if names.len() == 0 {
        seq![]
    } else if names.len() == 1 {
        names[0]
    } else {
        names[0] + seq!['/'] + slash_join(names.drop_first())
    }
}

pub open spec fn comp_names(cs: Seq<Comp>) -> Seq<Seq<char>> {
    cs.map_values(|c: Comp| comp_text(c))
}

proof fn lemma_first_sep_facts(s: Seq<char>, seps: Seq<char>)
    ensures
        match crate::text::first_sep(s, seps) {
            Some(i) => 0 <= i < s.len() && crate::text::is_sep(seps, s[i])
                && crate::text::no_sep(s.take(i), seps),
            None => crate::text::no_sep(s, seps),
        },
    decreases s.len(),
{
    if s.len() > 0 && !crate::text::is_sep(seps, s[0]) {
        lemma_first_sep_facts(s.drop_first(), seps);
        match crate::text::first_sep(s.drop_first(), seps) {
            Some(i) => {
                assert forall|j: int| 0 <= j < i + 1 implies !crate::text::is_sep(
                    seps,
                    #[trigger] s.take(i + 1)[j],
                ) by {
                    if j > 0 {
                        assert(s.take(i + 1)[j] == s.drop_first().take(i)[j - 1]);
                    }
                }
            },
            None => {
                assert forall|j: int| 0 <= j < s.len() implies !crate::text::is_sep(
                    seps,
                    #[trigger] s[j],
                ) by {
                    if j > 0 {
                        assert(s[j] == s.drop_first()[j - 1]);
                    }
                }
            },
        }
    }
}

/// No piece of a split holds a separator.
proof fn lemma_split_no_sep(s: Seq<char>, seps: Seq<char>)
    ensures
        forall|i: int|
            0 <= i < split_seps(s, seps).len() ==> crate::text::no_sep(
                #[trigger] split_seps(s, seps)[i],
                seps,
            ),
    decreases s.len(),
{
    lemma_first_sep_facts(s, seps);
    match crate::text::first_sep(s, seps) {
        Some(i) => {
            lemma_split_no_sep(s.skip(i + 1), seps);
            let rest = split_seps(s.skip(i + 1), seps);
            assert forall|j: int| 0 <= j < split_seps(s, seps).len() implies crate::text::no_sep(
                #[trigger] split_seps(s, seps)[j],
                seps,
            ) by {
                if j > 0 {
                    assert(split_seps(s, seps)[j] == rest[j - 1]);
                }
            }
        },
        None => {},
    }
}

/// The name components of pieces without `/` have valid names.
proof fn lemma_seg_comps_valid(segs: Seq<Seq<char>>)
    requires
        forall|i: int| 0 <= i < segs.len() ==> !(#[trigger] segs[i]).contains('/'),
    ensures
        names_valid(seg_comps(segs)),
    decreases segs.len(),
{
    if segs.len() > 0 {
        lemma_seg_comps_valid(segs.drop_first());
        let rest = seg_comps(segs.drop_first());
        let s = segs[0];
        assert(!s.contains('/'));
        let r = seg_comps(segs);
        assert forall|i: int| 0 <= i < r.len() implies (#[trigger] r[i] matches Comp::Normal(n)
            ==> valid_name(n)) by {
            if s.len() == 0 || s == seq!['.'] {
                assert(r[i] == rest[i]);
            } else if i > 0 {
                assert(r[i] == rest[i - 1]);
            }
        }
    }
}

/// The name components that `Path::components` yields have valid names.
pub proof fn lemma_components_valid(s: Seq<char>)
    ensures
        names_valid(components(s)),
{
    let segs = split_seps(s, seq!['/']);
    lemma_split_no_sep(s, seq!['/']);
    assert forall|i: int| 0 <= i < segs.len() implies !(#[trigger] segs[i]).contains('/') by {
        if segs[i].contains('/') {
            let k = choose|k: int| 0 <= k < segs[i].len() && segs[i][k] == '/';
            assert(seq!['/'][0] == '/');
            assert(crate::text::is_sep(seq!['/'], segs[i][k]));
        }
    }
    lemma_seg_comps_valid(segs);
    if segs.len() > 0 {
        assert forall|i: int| 0 <= i < segs.drop_first().len() implies !(
        #[trigger] segs.drop_first()[i]).contains('/') by {
            assert(segs.drop_first()[i] == segs[i + 1]);
        }
        lemma_seg_comps_valid(segs.drop_first());
    }
    let c = components(s);
    let r = if s.len() > 0 && s[0] == '/' {
        seg_comps(segs)
    } else if segs.len() > 0 && segs[0] == seq!['.'] {
        seg_comps(segs.drop_first())
    } else {
        seg_comps(segs)
    };
    assert forall|i: int| 0 <= i < c.len() implies (#[trigger] c[i] matches Comp::Normal(n)
        ==> valid_name(n)) by {
        if (s.len() > 0 && s[0] == '/') || (segs.len() > 0 && segs[0] == seq!['.']) {
            if i > 0 {
                assert(c[i] == r[i - 1]);
            }
        }
    }
}

proof fn lemma_linkable_rest(cs: Seq<Comp>)
    requires
        linkable(cs),
        cs.len() > 0,
    ensures
        linkable(cs.drop_first()),
        cs[0] == Comp::Parent || (cs[0] matches Comp::Normal(n) && valid_name(n)),
{
    let rest = cs.drop_first();
    assert forall|i: int| 0 <= i < rest.len() implies #[trigger] rest[i] == Comp::Parent || (
    rest[i] matches Comp::Normal(n) && valid_name(n)) by {
        assert(rest[i] == cs[i + 1]);
    }
}

/// Pushing linkable components onto a path that ends in a name adds them
/// joined with `/`.
proof fn lemma_push_names(buf: Seq<char>, cs: Seq<Comp>)
    requires
        linkable(cs),
        buf.len() > 0,
        buf.last() != '/',
    ensures
        push_comps(buf, cs) == if cs.len() == 0 {
            buf
        } else {
            buf + seq!['/'] + slash_join(comp_names(cs))
        },
    decreases cs.len(),
{
    if cs.len() > 0 {
        lemma_linkable_rest(cs);
        let c0 = cs[0];
        lemma_linkable_text(c0);
        let n0 = comp_text(c0);
        let rest = cs.drop_first();
        let nb = buf + seq!['/'] + n0;
        assert(nb.last() == n0.last());
        lemma_push_names(nb, rest);
        assert(comp_names(cs).drop_first() == comp_names(rest));
        if rest.len() == 0 {
            assert(slash_join(comp_names(cs)) == n0);
        } else {
            assert(slash_join(comp_names(cs)) == n0 + seq!['/'] + slash_join(comp_names(rest)));
        }
    }
}

/// Pushing linkable components onto an empty path joins their texts with `/`.
proof fn lemma_push_names_empty(cs: Seq<Comp>)
    requires
        linkable(cs),
    ensures
        push_comps(seq![], cs) == slash_join(comp_names(cs)),
{
    if cs.len() > 0 {
        lemma_linkable_rest(cs);
        let c0 = cs[0];
        lemma_linkable_text(c0);
        let n0 = comp_text(c0);
        let rest = cs.drop_first();
        assert(c0 != Comp::Root);
        assert(push_comp(seq![], c0) == n0);
        lemma_push_names(n0, rest);
        assert(comp_names(cs).drop_first() == comp_names(rest));
    }
}

/// Splitting names joined with `/` at `/` gives the names back.
proof fn lemma_split_slash_join(names: Seq<Seq<char>>)
    requires
        names.len() > 0,
        forall|i: int| 0 <= i < names.len() ==> !(#[trigger] names[i]).contains('/'),
    ensures
        split_seps(slash_join(names), seq!['/']) == names,
    decreases names.len(),
{
    let n0 = names[0];
    let s = slash_join(names);
    assert(crate::text::no_sep(n0, seq!['/'])) by {
        assert forall|j: int| 0 <= j < n0.len() implies !crate::text::is_sep(
            seq!['/'],
            #[trigger] n0[j],
        ) by {
            if n0[j] == '/' {
                assert(n0.contains('/'));
            }
        }
    }
    if names.len() == 1 {
        assert(s.take(s.len() as int) == n0);
        crate::text::lemma_first_sep(s, seq!['/'], s.len() as int);
    } else {
        let rest = names.drop_first();
        assert(forall|i: int| 0 <= i < rest.len() ==> #[trigger] rest[i] == names[i + 1]);
        lemma_split_slash_join(rest);
        let k = n0.len() as int;
        assert(s.take(k) == n0);
        assert(s[k] == '/');
        crate::text::lemma_first_sep(s, seq!['/'], k);
        assert(s.skip(k + 1) == slash_join(rest));
    }
}

/// Linkable components read back as themselves.
proof fn lemma_seg_comps_names(cs: Seq<Comp>)
    requires
        linkable(cs),
    ensures
        seg_comps(comp_names(cs)) == cs,
    decreases cs.len(),
{
    if cs.len() > 0 {
        lemma_linkable_rest(cs);
        let rest = cs.drop_first();
        lemma_seg_comps_names(rest);
        assert(comp_names(cs).drop_first() == comp_names(rest));
        lemma_linkable_text(cs[0]);
        let t = comp_text(cs[0]);
        assert(seg_comps(seq![t]) == seq![cs[0]]);
        assert(cs == seq![cs[0]] + rest);
        if cs[0] == Comp::Parent {
            assert(t == seq!['.', '.']);
        } else {
            assert(t != seq!['.', '.']);
        }
    }
}

/// Reading back: pushing linkable components onto an empty path and
/// reading the result with `Path::components` gives the same components.
pub proof fn lemma_components_of_pushed_names(cs: Seq<Comp>)
    requires
        linkable(cs),
    ensures
        components(push_comps(seq![], cs)) == cs,
{
    lemma_push_names_empty(cs);
    let names = comp_names(cs);
    let s = slash_join(names);
    if cs.len() == 0 {
        assert(s == Seq::<char>::empty());
        assert(crate::text::first_sep(s, seq!['/']) is None);
        assert(split_seps(s, seq!['/']) == seq![s]);
        assert(seg_comps(seq![s]) == Seq::<Comp>::empty()) by {
            assert(seq![s].drop_first() == Seq::<Seq<char>>::empty());
            assert(seg_comps(Seq::<Seq<char>>::empty()) == Seq::<Comp>::empty());
            assert(seq![s][0].len() == 0);
        }
    } else {
        assert forall|i: int| 0 <= i < names.len() implies !(#[trigger] names[i]).contains('/') by {
            lemma_linkable_text(cs[i]);
        }
        lemma_split_slash_join(names);
        lemma_seg_comps_names(cs);
        lemma_linkable_text(cs[0]);
        let n0 = names[0];
        assert(s[0] == n0[0]) by {
            if names.len() > 1 {
                assert(s == n0 + seq!['/'] + slash_join(names.drop_first()));
            }
        }
    }
}

} // verus!
