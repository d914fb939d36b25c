//! Character and string primitives shared by the rest of the library.
//!
//! Text is modelled by its view, the sequence of `char`s. Most algorithms
//! copy a string into a `Vec<char>`, work on indices and build the result
//! with `String::push` and `append`.
use vstd::prelude::*;

verus! {

/// `String::push` appends one character.
pub assume_specification[ String::push ](s: &mut String, ch: char)
    ensures
        final(s)@ == old(s)@.push(ch),
;

// ---------------------------------------------------------------------------
// Character classes
// ---------------------------------------------------------------------------

pub open spec fn is_ascii_char(c: char) -> bool {
    (c as u32) < 128
}

pub open spec fn is_digit(c: char) -> bool {
    '0' <= c && c <= '9'
}

pub open spec fn is_ascii_letter(c: char) -> bool {
    ('a' <= c && c <= 'z') || ('A' <= c && c <= 'Z')
}

pub open spec fn is_ascii_alnum(c: char) -> bool {
    is_ascii_letter(c) || is_digit(c)
}


/// `char::to_ascii_lowercase`.
pub open spec fn ascii_lower(c: char) -> char {
    if 'A' <= c && c <= 'Z' {
        ((c as u32) + 32) as char
    } else {
        c
    }
}

pub open spec fn ascii_upper(c: char) -> char {
    if 'a' <= c && c <= 'z' {
        ((c as u32) - 32) as char
    } else {
        c
    }
}

/// Whether `char::is_alphanumeric` holds of a non-ASCII `c` (Unicode
/// `Alphabetic` or `Numeric`).
pub uninterp spec fn unicode_alphanumeric(c: char) -> bool;

/// The characters that `char::to_uppercase` yields for a non-ASCII `c`.
pub uninterp spec fn unicode_uppercase(c: char) -> Seq<char>;

/// The characters of `str::to_lowercase` applied to a string that holds a
/// non-ASCII character.
pub uninterp spec fn unicode_lowercase(s: Seq<char>) -> Seq<char>;

/// `char::is_whitespace`: the characters of Unicode's `White_Space`
/// property (tab to carriage return, space, next line, no-break space,
/// ogham space mark, the spaces U+2000 to U+200A, line and paragraph
/// separators, narrow no-break space, medium mathematical space and
/// ideographic space).
pub open spec fn is_space(c: char) -> bool {
    ('\t' <= c && c <= '\r') || c == ' ' || c == '\u{85}' || c == '\u{a0}' || c == '\u{1680}'
        || ('\u{2000}' <= c && c <= '\u{200a}') || c == '\u{2028}' || c == '\u{2029}'
        || c == '\u{202f}' || c == '\u{205f}' || c == '\u{3000}'
}

/// `char::is_alphanumeric`.
pub open spec fn is_alnum(c: char) -> bool {
    if is_ascii_char(c) {
        is_ascii_alnum(c)
    } else {
        unicode_alphanumeric(c)
    }
}

/// `char::to_uppercase`, collected.
pub open spec fn upper_of(c: char) -> Seq<char> {
    if is_ascii_char(c) {
        seq![ascii_upper(c)]
    } else {
        unicode_uppercase(c)
    }
}

pub open spec fn all_ascii(s: Seq<char>) -> bool {
    forall|i: int| 0 <= i < s.len() ==> is_ascii_char(#[trigger] s[i])
}

/// `str::to_lowercase`.
pub open spec fn lower_of(s: Seq<char>) -> Seq<char> {
    if all_ascii(s) {
        s.map_values(|c: char| ascii_lower(c))
    } else {
        unicode_lowercase(s)
    }
}

/// `char::is_whitespace`.
pub fn is_whitespace(c: char) -> (r: bool)
    ensures
        r == is_space(c),
{
    ('\t' <= c && c <= '\r') || c == ' ' || c == '\u{85}' || c == '\u{a0}' || c == '\u{1680}'
        || ('\u{2000}' <= c && c <= '\u{200a}') || c == '\u{2028}' || c == '\u{2029}'
        || c == '\u{202f}' || c == '\u{205f}' || c == '\u{3000}'
}

/// Calls `char::is_alphanumeric`. Claimed: on ASCII the result holds exactly
/// of letters and digits; elsewhere it is named.
#[verifier::external_body]
pub(crate) fn is_alphanumeric(c: char) -> (r: bool)
    ensures
        is_ascii_char(c) ==> (r <==> is_ascii_alnum(c)),
        !is_ascii_char(c) ==> r == unicode_alphanumeric(c),
{
    c.is_alphanumeric()
}

/// Calls `char::to_uppercase` and collects the characters it yields.
/// Claimed: an ASCII character maps to the single character
/// `to_ascii_uppercase` gives; other characters map as named.
#[verifier::external_body]
pub(crate) fn to_uppercase(c: char) -> (r: String)
    ensures
        is_ascii_char(c) ==> r@ == seq![ascii_upper(c)],
        !is_ascii_char(c) ==> r@ == unicode_uppercase(c),
{
    c.to_uppercase().collect::<String>()
}

/// Calls `str::to_lowercase`. Claimed: an all-ASCII input is lowercased
/// character by character; other inputs map as named.
#[verifier::external_body]
pub(crate) fn to_lowercase(s: &str) -> (r: String)
    ensures
        all_ascii(s@) ==> r@ == s@.map_values(|c: char| ascii_lower(c)),
        !all_ascii(s@) ==> r@ == unicode_lowercase(s@),
{
    s.to_lowercase()
}

/// Calls `char::from_u32`. Claimed: the result is `Some` exactly for Unicode
/// scalar values (below 0x110000 and outside the surrogates 0xD800..=0xDFFF),
/// holding the character with that code.
#[verifier::external_body]
pub(crate) fn char_from_u32(code: u32) -> (r: Option<char>)
    ensures
        r == (if code < 0xD800 || (0xE000 <= code && code < 0x110000) {
            Some(code as char)
        } else {
            None
        }),
{
    char::from_u32(code)
}

pub fn to_ascii_lowercase(c: char) -> (r: char)
    ensures
        r == ascii_lower(c),
{
    if 'A' <= c && c <= 'Z' {
        ((c as u8) + 32) as char
    } else {
        c
    }
}

// ---------------------------------------------------------------------------
// Conversions between `str`, `String` and `Vec<char>`
// ---------------------------------------------------------------------------

/// The characters of a string slice, in order.
pub fn chars_of(s: &str) -> (v: Vec<char>)
    ensures
        v@ == s@,
{
    let mut v: Vec<char> = Vec::new();
    for c in it: s.chars()
        invariant
            v@ == it.seq().take(it.index()),
            it.seq() == s@,
    {
        v.push(c);
    }
    v
}

/// Appends the characters `v[lo..hi]` to `out`.
pub fn push_range(out: &mut String, v: &Vec<char>, lo: usize, hi: usize)
    requires
        lo <= hi <= v.len(),
    ensures
        final(out)@ == old(out)@ + v@.subrange(lo as int, hi as int),
{
    let ghost start = out@;
    let mut i = lo;
    while i < hi
        invariant
            lo <= i <= hi <= v.len(),
            out@ == start + v@.subrange(lo as int, i as int),
        decreases hi - i,
    {
        out.push(v[i]);
        assert(v@.subrange(lo as int, i + 1) == v@.subrange(lo as int, i as int).push(v@[i as int]));
        i += 1;
    }
}

/// Appends all of `v` to `out`.
pub fn push_chars(out: &mut String, v: &Vec<char>)
    ensures
        final(out)@ == old(out)@ + v@,
{
    push_range(out, v, 0, v.len());
    assert(v@.subrange(0, v@.len() as int) == v@);
}

/// A string holding exactly the given characters.
pub fn string_of(v: &Vec<char>) -> (s: String)
    ensures
        s@ == v@,
{
    let mut s = String::new();
    push_chars(&mut s, v);
    assert(Seq::<char>::empty() + v@ == v@);
    s
}

/// A string holding `v[lo..hi]`.
pub fn string_of_range(v: &Vec<char>, lo: usize, hi: usize) -> (s: String)
    requires
        lo <= hi <= v.len(),
    ensures
        s@ == v@.subrange(lo as int, hi as int),
{
    let mut s = String::new();
    push_range(&mut s, v, lo, hi);
    assert(Seq::<char>::empty() + v@.subrange(lo as int, hi as int) == v@.subrange(lo as int, hi as int));
    s
}

/// `v[lo..hi]` as a vector.
pub fn vec_range(v: &Vec<char>, lo: usize, hi: usize) -> (r: Vec<char>)
    requires
        lo <= hi <= v.len(),
    ensures
        r@ == v@.subrange(lo as int, hi as int),
{
    let mut r: Vec<char> = Vec::new();
    let mut i = lo;
    while i < hi
        invariant
            lo <= i <= hi <= v.len(),
            r@ == v@.subrange(lo as int, i as int),
        decreases hi - i,
    {
        r.push(v[i]);
        assert(v@.subrange(lo as int, i + 1) == v@.subrange(lo as int, i as int).push(v@[i as int]));
        i += 1;
    }
    r
}

/// Appends the characters of `s` to `out`.
pub fn push_str_chars(out: &mut Vec<char>, s: &str)
    ensures
        final(out)@ == old(out)@ + s@,
{
    let v = chars_of(s);
    push_vec(out, &v, 0, v.len());
    assert(v@.subrange(0, v@.len() as int) =~= s@);
}

/// Appends `v[lo..hi]` to `out`.
pub fn push_vec(out: &mut Vec<char>, v: &Vec<char>, lo: usize, hi: usize)
    requires
        lo <= hi <= v.len(),
    ensures
        final(out)@ == old(out)@ + v@.subrange(lo as int, hi as int),
{
    let ghost start = out@;
    let mut i = lo;
    while i < hi
        invariant
            lo <= i <= hi <= v.len(),
            out@ == start + v@.subrange(lo as int, i as int),
        decreases hi - i,
    {
        out.push(v[i]);
        assert(v@.subrange(lo as int, i + 1) == v@.subrange(lo as int, i as int).push(v@[i as int]));
        i += 1;
    }
}

/// Whether two character vectors are equal.
pub fn chars_eq(a: &Vec<char>, b: &Vec<char>) -> (r: bool)
    ensures
        r == (a@ == b@),
{
    if a.len() != b.len() {
        return false;
    }
    let mut i: usize = 0;
    while i < a.len()
        invariant
            a.len() == b.len(),
            0 <= i <= a.len(),
            a@.take(i as int) == b@.take(i as int),
        decreases a.len() - i,
    {
        if a[i] != b[i] {
            assert(a@[i as int] != b@[i as int]);
            return false;
        }
        assert(a@.take(i + 1) == a@.take(i as int).push(a@[i as int]));
        assert(b@.take(i + 1) == b@.take(i as int).push(b@[i as int]));
        i += 1;
    }
    assert(a@ == a@.take(a.len() as int));
    assert(b@ == b@.take(b.len() as int));
    true
}

// ---------------------------------------------------------------------------
// Searching
// ---------------------------------------------------------------------------

/// `p` occurs in `s` at index `i`.
pub open spec fn occurs_at(s: Seq<char>, p: Seq<char>, i: int) -> bool {
    0 <= i && i + p.len() <= s.len() && s.subrange(i, i + p.len()) == p
}

/// The first index at or after `i` where `p` occurs in `s`.
pub open spec fn find_from(s: Seq<char>, p: Seq<char>, i: int) -> Option<int>
    decreases s.len() + 1 - i,
{
    if i < 0 || i + p.len() > s.len() {
        None
    } else if occurs_at(s, p, i) {
        Some(i)
    } else {
        find_from(s, p, i + 1)
    }
}

/// `str::find`: the first index where `p` occurs in `s`, counted in characters.
pub open spec fn find(s: Seq<char>, p: Seq<char>) -> Option<int> {
    find_from(s, p, 0)
}

pub proof fn lemma_find_from(s: Seq<char>, p: Seq<char>, i: int)
    requires
        0 <= i,
    ensures
        find_from(s, p, i) matches Some(k) ==> i <= k && occurs_at(s, p, k) && forall|j: int|
            i <= j < k ==> !occurs_at(s, p, j),
        find_from(s, p, i) is None ==> forall|j: int| i <= j ==> !occurs_at(s, p, j),
    decreases s.len() + 1 - i,
{
    if i + p.len() > s.len() {
    } else if occurs_at(s, p, i) {
    } else {
        lemma_find_from(s, p, i + 1);
    }
}

pub proof fn lemma_find_skip(s: Seq<char>, p: Seq<char>, a: int, i: int)
    requires
        0 <= a <= i,
        a <= s.len(),
    ensures
        find_from(s.skip(a), p, i - a) == match find_from(s, p, i) {
            Some(k) => Some(k - a),
            None => None,
        },
    decreases s.len() + 1 - i,
{
    let t = s.skip(a);
    if i + p.len() > s.len() {
    } else {
        assert(occurs_at(t, p, i - a) == occurs_at(s, p, i)) by {
            if i + p.len() <= s.len() {
                assert(t.subrange(i - a, i - a + p.len()) =~= s.subrange(i, i + p.len()));
            }
        }
        if !occurs_at(s, p, i) {
            lemma_find_skip(s, p, a, i + 1);
        }
    }
}

/// `m` occurs somewhere in `s`.
pub open spec fn has_part(s: Seq<char>, m: Seq<char>) -> bool {
    exists|i: int| occurs_at(s, m, i)
}

/// A sequence holds what stands in its middle.
pub proof fn lemma_has_part_middle(a: Seq<char>, m: Seq<char>, b: Seq<char>)
    ensures
        has_part(a + m + b, m),
{
    assert((a + m + b).subrange(a.len() as int, (a.len() + m.len()) as int) =~= m);
    assert(occurs_at(a + m + b, m, a.len() as int));
}

/// What a part holds, the whole holds.
pub proof fn lemma_has_part_extend(a: Seq<char>, x: Seq<char>, b: Seq<char>, m: Seq<char>)
    requires
        has_part(x, m),
    ensures
        has_part(a + x + b, m),
{
    let i = choose|i: int| occurs_at(x, m, i);
    let s = a + x + b;
    assert(s.subrange(a.len() + i, a.len() + i + m.len()) =~= x.subrange(i, i + m.len()));
    assert(occurs_at(s, m, a.len() + i));
}

/// Whether `p` occurs in `s` at index `i`.
pub fn matches_at(s: &Vec<char>, p: &Vec<char>, i: usize) -> (r: bool)
    ensures
        r == occurs_at(s@, p@, i as int),
{
    if i > s.len() || p.len() > s.len() - i {
        return false;
    }
    let mut k: usize = 0;
    while k < p.len()
        invariant
            i + p.len() <= s.len(),
            0 <= k <= p.len(),
            forall|j: int| 0 <= j < k ==> s@[i + j] == p@[j],
        decreases p.len() - k,
    {
        if s[i + k] != p[k] {
            assert(s@.subrange(i as int, i + p.len())[k as int] != p@[k as int]);
            return false;
        }
        k += 1;
    }
    assert(s@.subrange(i as int, i + p.len()) == p@);
    true
}

/// The first index at or after `from` where `p` occurs in `s`.
pub fn find_in(s: &Vec<char>, p: &Vec<char>, from: usize) -> (r: Option<usize>)
    ensures
        r matches Some(k) ==> find_from(s@, p@, from as int) == Some(k as int),
        r is None ==> find_from(s@, p@, from as int) is None,
{
    let mut i = from;
    loop
        invariant
            from <= i,
            find_from(s@, p@, from as int) == find_from(s@, p@, i as int),
        decreases s.len() + 1 - i,
    {
        if i > s.len() || p.len() > s.len() - i {
            return None;
        }
        if matches_at(s, p, i) {
            return Some(i);
        }
        proof {
            if p.len() == 0 {
                assert(s@.subrange(i as int, i as int) =~= p@);
            }
        }
        i += 1;
    }
}

/// The first index at or after `from` where the character `c` occurs.
pub fn find_char(s: &Vec<char>, c: char, from: usize) -> (r: Option<usize>)
    ensures
        r matches Some(k) ==> find_from(s@, seq![c], from as int) == Some(k as int),
        r is None ==> find_from(s@, seq![c], from as int) is None,
{
    let p = vec![c];
    assert(p@ == seq![c]);
    find_in(s, &p, from)
}

// ---------------------------------------------------------------------------
// Trimming
// ---------------------------------------------------------------------------

/// `str::trim_start`.
pub open spec fn trim_start(s: Seq<char>) -> Seq<char>
    decreases s.len(),
{
    if s.len() > 0 && is_space(s[0]) {
        trim_start(s.drop_first())
    } else {
        s
    }
}

/// `str::trim_end`.
pub open spec fn trim_end(s: Seq<char>) -> Seq<char>
    decreases s.len(),
{
    if s.len() > 0 && is_space(s.last()) {
        trim_end(s.drop_last())
    } else {
        s
    }
}

/// `str::trim`.
pub open spec fn trim(s: Seq<char>) -> Seq<char> {
    trim_end(trim_start(s))
}

/// The index of the first non-whitespace character of `v[lo..hi]` (or `hi`).
pub fn skip_space(v: &Vec<char>, lo: usize, hi: usize) -> (r: usize)
    requires
        lo <= hi <= v.len(),
    ensures
        lo <= r <= hi,
        v@.subrange(r as int, hi as int) == trim_start(v@.subrange(lo as int, hi as int)),
{
    let mut i = lo;
    while i < hi && is_whitespace(v[i])
        invariant
            lo <= i <= hi <= v.len(),
            trim_start(v@.subrange(i as int, hi as int)) == trim_start(
                v@.subrange(lo as int, hi as int),
            ),
        decreases hi - i,
    {
        assert(v@.subrange(i as int, hi as int).drop_first() == v@.subrange(i + 1, hi as int));
        i += 1;
    }
    proof {
        lemma_trim_start_stops(v@, i as int, hi as int);
    }
    i
}

proof fn lemma_trim_start_stops(v: Seq<char>, i: int, hi: int)
    requires
        0 <= i <= hi <= v.len(),
        i < hi ==> !is_space(v[i]),
    ensures
        trim_start(v.subrange(i, hi)) == v.subrange(i, hi),
{
}

/// The end of `v[lo..hi]` once trailing whitespace is removed.
pub fn skip_space_back(v: &Vec<char>, lo: usize, hi: usize) -> (r: usize)
    requires
        lo <= hi <= v.len(),
    ensures
        lo <= r <= hi,
        v@.subrange(lo as int, r as int) == trim_end(v@.subrange(lo as int, hi as int)),
{
    let mut j = hi;
    while j > lo && is_whitespace(v[j - 1])
        invariant
            lo <= j <= hi <= v.len(),
            trim_end(v@.subrange(lo as int, j as int)) == trim_end(
                v@.subrange(lo as int, hi as int),
            ),
        decreases j - lo,
    {
        assert(v@.subrange(lo as int, j as int).drop_last() == v@.subrange(lo as int, j - 1));
        j -= 1;
    }
    j
}

/// The bounds of `trim(v[lo..hi])` inside `v`.
pub fn trim_bounds(v: &Vec<char>, lo: usize, hi: usize) -> (r: (usize, usize))
    requires
        lo <= hi <= v.len(),
    ensures
        lo <= r.0 <= r.1 <= hi,
        v@.subrange(r.0 as int, r.1 as int) == trim(v@.subrange(lo as int, hi as int)),
{
    let a = skip_space(v, lo, hi);
    let b = skip_space_back(v, a, hi);
    (a, b)
}

// ---------------------------------------------------------------------------
// Decimal numerals
// ---------------------------------------------------------------------------

pub open spec fn digit_char(d: nat) -> char {
    if d == 0 {
        '0'
    } else if d == 1 {
        '1'
    } else if d == 2 {
        '2'
    } else if d == 3 {
        '3'
    } else if d == 4 {
        '4'
    } else if d == 5 {
        '5'
    } else if d == 6 {
        '6'
    } else if d == 7 {
        '7'
    } else if d == 8 {
        '8'
    } else {
        '9'
    }
}

/// The decimal numeral of `n`, without leading zeros.
pub open spec fn decimal(n: nat) -> Seq<char>
    decreases n,
{
    if n < 10 {
        seq![digit_char(n)]
    } else {
        decimal(n / 10).push(digit_char(n % 10))
    }
}

/// `s` padded on the left with `'0'` to at least `w` characters (`{:0w}`).
pub open spec fn zero_pad(s: Seq<char>, w: nat) -> Seq<char> {
    if s.len() >= w {
        s
    } else {
        Seq::new((w - s.len()) as nat, |i: int| '0') + s
    }
}

/// The value of a digit character.
pub open spec fn digit_value(c: char) -> nat {
    ((c as u32) - ('0' as u32)) as nat
}

/// The value of a sequence of decimal digits (0 for the empty sequence).
pub open spec fn digits_value(s: Seq<char>) -> nat
    decreases s.len(),
{
    if s.len() == 0 {
        0
    } else {
        digits_value(s.drop_last()) * 10 + digit_value(s.last())
    }
}

pub open spec fn all_digits(s: Seq<char>) -> bool {
    forall|i: int| 0 <= i < s.len() ==> is_digit(#[trigger] s[i])
}

fn digit_of(d: u64) -> (c: char)
    requires
        d < 10,
    ensures
        c == digit_char(d as nat),
{
    if d == 0 {
        '0'
    } else if d == 1 {
        '1'
    } else if d == 2 {
        '2'
    } else if d == 3 {
        '3'
    } else if d == 4 {
        '4'
    } else if d == 5 {
        '5'
    } else if d == 6 {
        '6'
    } else if d == 7 {
        '7'
    } else if d == 8 {
        '8'
    } else {
        '9'
    }
}

pub proof fn lemma_digit_char(d: nat)
    requires
        d < 10,
    ensures
        is_digit(digit_char(d)),
        digit_value(digit_char(d)) == d,
{
}

/// The decimal numeral of `n` is made of digits and has the value `n`.
pub proof fn lemma_decimal_value(n: nat)
    ensures
        all_digits(decimal(n)),
        digits_value(decimal(n)) == n,
        decimal(n).len() > 0,
    decreases n,
{
    lemma_digit_char(n % 10);
    if n >= 10 {
        lemma_decimal_value(n / 10);
        let s = decimal(n / 10);
        assert(decimal(n).drop_last() == s);
        assert(decimal(n).last() == digit_char(n % 10));
        assert(n == (n / 10) * 10 + n % 10);
        assert(digits_value(s) == n / 10);
        assert(digits_value(decimal(n)) == digits_value(s) * 10 + digit_value(decimal(n).last()));
    } else {
        lemma_digit_char(n);
        assert(decimal(n).drop_last() == Seq::<char>::empty());
        assert(digits_value(decimal(n)) == digits_value(Seq::<char>::empty()) * 10 + digit_value(
            decimal(n).last(),
        ));
    }
}

/// Appends the decimal numeral of `n` to `out`.
pub fn push_decimal(out: &mut String, n: u64)
    ensures
        final(out)@ == old(out)@ + decimal(n as nat),
    decreases n,
{
    if n >= 10 {
        push_decimal(out, n / 10);
    }
    let c = digit_of(n % 10);
    out.push(c);
    assert(old(out)@ + decimal(n as nat) == old(out)@ + decimal((n / 10) as nat) + seq![c]
        || n < 10);
}

} // verus!

verus! {

// ---------------------------------------------------------------------------
// Splitting and joining
// ---------------------------------------------------------------------------

/// Whether `c` is one of the separators.
pub open spec fn is_sep(seps: Seq<char>, c: char) -> bool {
    seps.contains(c)
}

/// `s` holds no separator.
pub open spec fn no_sep(s: Seq<char>, seps: Seq<char>) -> bool {
    forall|i: int| 0 <= i < s.len() ==> !is_sep(seps, #[trigger] s[i])
}

/// The index of the first separator in `s`, if any.
pub open spec fn first_sep(s: Seq<char>, seps: Seq<char>) -> Option<int>
    decreases s.len(),
{
    if s.len() == 0 {
        None
    } else if is_sep(seps, s[0]) {
        Some(0)
    } else {
        match first_sep(s.drop_first(), seps) {
            Some(i) => Some(i + 1),
            None => None,
        }
    }
}

pub proof fn lemma_first_sep(s: Seq<char>, seps: Seq<char>, k: int)
    requires
        0 <= k <= s.len(),
        no_sep(s.take(k), seps),
    ensures
        k < s.len() && is_sep(seps, s[k]) ==> first_sep(s, seps) == Some(k),
        k == s.len() ==> first_sep(s, seps) is None,
    decreases k,
{
    if k > 0 {
        assert(!is_sep(seps, s.take(k)[0]));
        assert(s.drop_first().take(k - 1) =~= s.take(k).drop_first());
        lemma_first_sep(s.drop_first(), seps, k - 1);
    }
}

/// `str::split` with a set of separator characters: the pieces between
/// separators, empty pieces included.
pub open spec fn split_seps(s: Seq<char>, seps: Seq<char>) -> Seq<Seq<char>>
    decreases s.len(),
{
    match first_sep(s, seps) {
        None => seq![s],
        Some(i) => if 0 <= i < s.len() {
            seq![s.take(i)] + split_seps(s.skip(i + 1), seps)
        } else {
            seq![s]
        },
    }
}

/// `parts` joined with `sep` between neighbours.
pub open spec fn join(parts: Seq<Seq<char>>, sep: Seq<char>) -> Seq<char>
    decreases parts.len(),
{
    if parts.len() == 0 {
        seq![]
    } else if parts.len() == 1 {
        parts[0]
    } else {
        join(parts.drop_last(), sep) + sep + parts.last()
    }
}

/// The views of a vector of character vectors.
pub open spec fn views(v: Seq<Vec<char>>) -> Seq<Seq<char>> {
    v.map_values(|x: Vec<char>| x@)
}

/// The first index at or after `from` whose character is a separator, or `v.len()`.
pub fn next_sep(v: &Vec<char>, seps: &Vec<char>, from: usize) -> (r: usize)
    requires
        from <= v.len(),
    ensures
        from <= r <= v.len(),
        r < v.len() ==> is_sep(seps@, v@[r as int]),
        no_sep(v@.subrange(from as int, r as int), seps@),
{
    let mut i = from;
    while i < v.len()
        invariant
            from <= i <= v.len(),
            no_sep(v@.subrange(from as int, i as int), seps@),
        decreases v.len() - i,
    {
        let c = v[i];
        let mut k: usize = 0;
        while k < seps.len()
            invariant
                from <= i < v.len(),
                c == v@[i as int],
                no_sep(v@.subrange(from as int, i as int), seps@),
                0 <= k <= seps.len(),
                forall|j: int| 0 <= j < k ==> seps@[j] != c,
            decreases seps.len() - k,
        {
            if seps[k] == c {
                assert(seps@[k as int] == c);
                assert(seps@.contains(c));
                return i;
            }
            k += 1;
        }
        assert(!seps@.contains(c));
        assert(no_sep(v@.subrange(from as int, i + 1), seps@)) by {
            assert forall|j: int| 0 <= j < i + 1 - from implies !is_sep(
                seps@,
                #[trigger] v@.subrange(from as int, i + 1)[j],
            ) by {
                if j < i - from {
                    assert(v@.subrange(from as int, i + 1)[j] == v@.subrange(from as int, i as int)[j]);
                }
            }
        }
        i += 1;
    }
    i
}

/// `str::split` with a set of separator characters.
pub fn split_by(v: &Vec<char>, seps: &Vec<char>) -> (r: Vec<Vec<char>>)
    ensures
        views(r@) == split_seps(v@, seps@),
{
    let mut out: Vec<Vec<char>> = Vec::new();
    let mut start: usize = 0;
    assert(v@.skip(0) =~= v@);
    assert(views(out@) + split_seps(v@, seps@) =~= split_seps(v@, seps@));
    loop
        invariant
            start <= v.len(),
            views(out@) + split_seps(v@.skip(start as int), seps@) == split_seps(v@, seps@),
        decreases v.len() - start,
    {
        let j = next_sep(v, seps, start);
        let ghost rest = v@.skip(start as int);
        proof {
            assert(rest.take(j - start) =~= v@.subrange(start as int, j as int));
            lemma_first_sep(rest, seps@, j - start);
        }
        let piece = vec_range(v, start, j);
        let ghost before = out@;
        out.push(piece);
        proof {
            assert(out@ =~= before.push(piece));
            assert(views(out@) =~= views(before).push(piece@));
        }
        if j == v.len() {
            proof {
                assert(rest.take(j - start) =~= rest);
                assert(views(out@) =~= views(before) + seq![piece@]);
            }
            return out;
        }
        proof {
            assert(rest.skip(j - start + 1) =~= v@.skip(j + 1));
            assert(views(before) + (seq![piece@] + split_seps(v@.skip(j + 1), seps@)) =~= views(out@) + split_seps(v@.skip(j + 1), seps@));
        }
        start = j + 1;
    }
}

} // verus!

verus! {

// ---------------------------------------------------------------------------
// Ordering
// ---------------------------------------------------------------------------

/// Lexicographic order by character code, the order of `String`'s `Ord`
/// (UTF-8 byte order and code point order agree).
pub open spec fn lex_lt(a: Seq<char>, b: Seq<char>) -> bool
    decreases a.len(),
{
    if a.len() == 0 {
        b.len() > 0
    } else if b.len() == 0 {
        false
    } else if a[0] != b[0] {
        a[0] < b[0]
    } else {
        lex_lt(a.drop_first(), b.drop_first())
    }
}

/// Whether `a` comes before `b` in `lex_lt` order.
pub fn lex_less(a: &Vec<char>, b: &Vec<char>) -> (r: bool)
    ensures
        r == lex_lt(a@, b@),
{
    let mut i: usize = 0;
    assert(a@.skip(0) =~= a@);
    assert(b@.skip(0) =~= b@);
    loop
        invariant
            i <= a.len(),
            i <= b.len(),
            lex_lt(a@, b@) == lex_lt(a@.skip(i as int), b@.skip(i as int)),
        decreases a.len() - i,
    {
        if i == a.len() {
            return i < b.len();
        }
        if i == b.len() {
            return false;
        }
        if a[i] != b[i] {
            return a[i] < b[i];
        }
        assert(a@.skip(i as int).drop_first() =~= a@.skip(i + 1));
        assert(b@.skip(i as int).drop_first() =~= b@.skip(i + 1));
        i += 1;
    }
}

pub proof fn lemma_lex_irreflexive(a: Seq<char>)
    ensures
        !lex_lt(a, a),
    decreases a.len(),
{
    if a.len() > 0 {
        lemma_lex_irreflexive(a.drop_first());
    }
}

pub proof fn lemma_lex_transitive(a: Seq<char>, b: Seq<char>, c: Seq<char>)
    requires
        lex_lt(a, b),
        lex_lt(b, c),
    ensures
        lex_lt(a, c),
    decreases a.len(),
{
    if a.len() > 0 && b.len() > 0 && c.len() > 0 && a[0] == b[0] && b[0] == c[0] {
        lemma_lex_transitive(a.drop_first(), b.drop_first(), c.drop_first());
    }
}

pub proof fn lemma_lex_total(a: Seq<char>, b: Seq<char>)
    ensures
        lex_lt(a, b) || lex_lt(b, a) || a == b,
    decreases a.len(),
{
    if a.len() > 0 && b.len() > 0 {
        if a[0] == b[0] {
            lemma_lex_total(a.drop_first(), b.drop_first());
            if a.drop_first() == b.drop_first() {
                assert(a =~= seq![a[0]] + a.drop_first());
                assert(b =~= seq![b[0]] + b.drop_first());
            }
        }
    } else if a.len() == 0 && b.len() == 0 {
        assert(a =~= b);
    }
}


// ---------------------------------------------------------------------------
// Sorting strings
// ---------------------------------------------------------------------------

/// Where an insertion puts `x` in a sorted list: before the first entry that
/// `x` comes before.
pub open spec fn sorted_pos(sorted: Seq<Seq<char>>, x: Seq<char>) -> int
    decreases sorted.len(),
{
    if sorted.len() == 0 {
        0
    } else if lex_lt(x, sorted[0]) {
        0
    } else {
        1 + sorted_pos(sorted.drop_first(), x)
    }
}

/// The strings in ascending `lex_lt` order (`slice::sort` on strings).
pub open spec fn sort_asc(s: Seq<Seq<char>>) -> Seq<Seq<char>>
    decreases s.len(),
{
    if s.len() == 0 {
        seq![]
    } else {
        let t = sort_asc(s.drop_last());
        t.insert(sorted_pos(t, s.last()), s.last())
    }
}

/// No entry comes before an earlier one.
pub open spec fn is_sorted_asc(s: Seq<Seq<char>>) -> bool {
    forall|i: int, j: int| 0 <= i < j < s.len() ==> !lex_lt(#[trigger] s[j], #[trigger] s[i])
}

proof fn lemma_sorted_pos(t: Seq<Seq<char>>, x: Seq<char>)
    ensures
        0 <= sorted_pos(t, x) <= t.len(),
        forall|k: int| 0 <= k < sorted_pos(t, x) ==> !lex_lt(x, #[trigger] t[k]),
        sorted_pos(t, x) < t.len() ==> lex_lt(x, t[sorted_pos(t, x)]),
    decreases t.len(),
{
    if t.len() > 0 && !lex_lt(x, t[0]) {
        lemma_sorted_pos(t.drop_first(), x);
        assert forall|k: int| 0 <= k < sorted_pos(t, x) implies !lex_lt(x, #[trigger] t[k]) by {
            if k > 0 {
                assert(t[k] == t.drop_first()[k - 1]);
            }
        }
    }
}

proof fn lemma_insert_sorted(t: Seq<Seq<char>>, x: Seq<char>)
    requires
        is_sorted_asc(t),
    ensures
        is_sorted_asc(t.insert(sorted_pos(t, x), x)),
{
    lemma_sorted_pos(t, x);
    let p = sorted_pos(t, x);
    let u = t.insert(p, x);
    assert forall|i: int, j: int| 0 <= i < j < u.len() implies !lex_lt(#[trigger] u[j], #[trigger] u[i]) by {
        if i < p && j < p {
            assert(u[i] == t[i] && u[j] == t[j]);
        } else if i < p && j == p {
            assert(u[i] == t[i]);
        } else if i < p {
            assert(u[i] == t[i] && u[j] == t[j - 1]);
        } else if i == p {
            assert(u[j] == t[j - 1]);
            if lex_lt(u[j], x) {
                if j - 1 > p {
                    lemma_lex_total(t[p], t[j - 1]);
                    if t[p] != t[j - 1] {
                        lemma_lex_transitive(t[j - 1], x, t[p]);
                    }
                }
                lemma_lex_irreflexive(x);
                lemma_lex_transitive(x, t[p], x);
            }
        } else {
            assert(u[i] == t[i - 1] && u[j] == t[j - 1]);
        }
    }
}

/// Sorting law: `sort_asc` orders the strings and keeps each of them as
/// often as it occurs.
pub proof fn law_sort_asc(s: Seq<Seq<char>>)
    ensures
        is_sorted_asc(sort_asc(s)),
        sort_asc(s).to_multiset() == s.to_multiset(),
    decreases s.len(),
{
    broadcast use vstd::seq_lib::to_multiset_build, vstd::seq_lib::to_multiset_insert;

    if s.len() == 0 {
        assert(sort_asc(s) =~= s);
    } else {
        let init = s.drop_last();
        law_sort_asc(init);
        let t = sort_asc(init);
        lemma_sorted_pos(t, s.last());
        lemma_insert_sorted(t, s.last());
        assert(s =~= init.push(s.last()));
    }
}

/// Sorts strings into ascending order, by insertion.
pub fn sort_strings(v: Vec<Vec<char>>) -> (r: Vec<Vec<char>>)
    ensures
        views(r@) == sort_asc(views(v@)),
{
    let ghost all = views(v@);
    let mut sorted: Vec<Vec<char>> = Vec::new();
    let mut rest = v;
    let n = rest.len();
    let mut i: usize = 0;
    assert(views(sorted@) =~= sort_asc(all.take(0)));
    while rest.len() > 0
        invariant
            i + rest.len() == n,
            n == all.len(),
            views(rest@) == all.skip(i as int),
            views(sorted@) == sort_asc(all.take(i as int)),
        decreases rest.len(),
    {
        let ghost old_rest = rest@;
        let x = rest.remove(0);
        assert(x@ == all[i as int]) by {
            assert(views(old_rest)[0] == all.skip(i as int)[0]);
        }
        assert(views(rest@) =~= all.skip(i + 1)) by {
            assert(rest@ =~= old_rest.remove(0));
            assert(views(rest@) =~= views(old_rest).drop_first());
            assert(all.skip(i as int).drop_first() =~= all.skip(i + 1));
        }
        let ghost sv = views(sorted@);
        let mut p: usize = 0;
        assert(sv.skip(0) =~= sv);
        while p < sorted.len() && !lex_less(&x, &sorted[p])
            invariant
                0 <= p <= sorted.len(),
                sv == views(sorted@),
                sorted_pos(sv, x@) == p + sorted_pos(sv.skip(p as int), x@),
            decreases sorted.len() - p,
        {
            assert(sv.skip(p as int).drop_first() =~= sv.skip(p + 1));
            assert(sv.skip(p as int)[0] == sorted@[p as int]@);
            p += 1;
        }
        proof {
            if p < sorted.len() {
                assert(sv.skip(p as int)[0] == sorted@[p as int]@);
            }
        }
        sorted.insert(p, x);
        assert(all.take(i + 1).drop_last() =~= all.take(i as int));
        assert(views(sorted@) =~= sv.insert(p as int, all[i as int]));
        i += 1;
    }
    assert(all.take(n as int) =~= all);
    sorted
}

/// Appends the parts joined with `sep` (`slice::join`).
pub fn push_join(out: &mut String, parts: &Vec<Vec<char>>, sep: &str)
    ensures
        final(out)@ == old(out)@ + join(views(parts@), sep@),
{
    let ghost start = out@;
    let ghost pv = views(parts@);
    let mut i: usize = 0;
    while i < parts.len()
        invariant
            0 <= i <= parts.len(),
            pv == views(parts@),
            out@ == start + join(pv.take(i as int), sep@),
        decreases parts.len() - i,
    {
        let ghost before = out@;
        if i > 0 {
            out.append(sep);
        }
        push_chars(out, &parts[i]);
        assert(pv.take(i + 1).drop_last() == pv.take(i as int));
        assert(pv.take(i + 1).last() == parts@[i as int]@);
        if i == 0 {
            assert(join(pv.take(1), sep@) == pv.take(1)[0]);
            assert(out@ == start + join(pv.take(i + 1), sep@));
        } else {
            assert(out@ == start + join(pv.take(i as int), sep@) + sep@ + parts@[i as int]@);
        }
        i += 1;
    }
    assert(pv.take(parts.len() as int) == pv);
}

/// The views of a list of strings.
pub open spec fn string_views(names: Seq<String>) -> Seq<Seq<char>> {
    names.map_values(|s: String| s@)
}

} // verus!
