//! The request handling of the web dashboard: JSON and URL text handling,
//! request parsing, routing and the bodies of the responses.
use vstd::prelude::*;
use vstd::utf8::encode_utf8;
use crate::paths::{
    all_valid_names, comp_views, components, lemma_components_of_pushed_names, lemma_components_valid,
    names_valid, lemma_valid_names_linkable, path_components, push_comp, push_comps, valid_name, Comp, PathComp,
};
use crate::text::{
    char_from_u32, chars_eq, chars_of, digit_char, find, find_char, find_from, find_in,
    lemma_find_from, lemma_find_skip, occurs_at, skip_space, string_of, string_of_range, trim_start, vec_range,
};

verus! {

// ---------------------------------------------------------------------------
// JSON string escaping
// ---------------------------------------------------------------------------

/// A lowercase hexadecimal digit.
pub open spec fn hex_char(d: nat) -> char {
    if d < 10 {
        digit_char(d)
    } else if d == 10 {
        'a'
    } else if d == 11 {
        'b'
    } else if d == 12 {
        'c'
    } else if d == 13 {
        'd'
    } else if d == 14 {
        'e'
    } else {
        'f'
    }
}

/// How `json_escape` writes one character.
pub open spec fn escape_char(c: char) -> Seq<char> {
    if c == '"' {
        seq!['\\', '"']
    } else if c == '\\' {
        seq!['\\', '\\']
    } else if c == '\n' {
        seq!['\\', 'n']
    } else if c == '\r' {
        seq!['\\', 'r']
    } else if c == '\t' {
        seq!['\\', 't']
    } else if (c as u32) < 32 {
        seq!['\\', 'u', '0', '0', hex_char((c as u32 / 16) as nat), hex_char((c as u32 % 16) as nat)]
    } else {
        seq![c]
    }
}

/// The JSON string-literal body of `s` (without the surrounding quotes).
pub open spec fn json_escaped(s: Seq<char>) -> Seq<char>
    decreases s.len(),
{
    if s.len() == 0 {
        seq![]
    } else {
        escape_char(s[0]) + json_escaped(s.drop_first())
    }
}

pub proof fn lemma_json_escaped_push(s: Seq<char>, c: char)
    ensures
        json_escaped(s.push(c)) == json_escaped(s) + escape_char(c),
    decreases s.len(),
{
    if s.len() == 0 {
        assert(s.push(c).drop_first() =~= seq![]);
        assert(json_escaped(s.push(c)) =~= escape_char(c) + json_escaped(seq![]));
    } else {
        assert(s.push(c).drop_first() =~= s.drop_first().push(c));
        lemma_json_escaped_push(s.drop_first(), c);
        assert(json_escaped(s.push(c)) =~= escape_char(s[0]) + (json_escaped(s.drop_first())
            + escape_char(c)));
    }
}

fn hex_digit(d: u32) -> (c: char)
    requires
        d < 16,
    ensures
        c == hex_char(d as nat),
{
    if d == 0 {
        '0'
    } else if d == 1 {
        '1'
    } else if d == 2 {
        '2'
    } else if d == 3 {
        '3'
    } else if d == 4 {
        '4'
    } else if d == 5 {
        '5'
    } else if d == 6 {
        '6'
    } else if d == 7 {
        '7'
    } else if d == 8 {
        '8'
    } else if d == 9 {
        '9'
    } else if d == 10 {
        'a'
    } else if d == 11 {
        'b'
    } else if d == 12 {
        'c'
    } else if d == 13 {
        'd'
    } else if d == 14 {
        'e'
    } else {
        'f'
    }
}

/// Appends the escaped form of `c` to `out`.
fn push_escaped(out: &mut String, c: char)
    ensures
        final(out)@ == old(out)@ + escape_char(c),
{
    if c == '"' {
        out.push('\\');
        out.push('"');
    } else if c == '\\' {
        out.push('\\');
        out.push('\\');
    } else if c == '\n' {
        out.push('\\');
        out.push('n');
    } else if c == '\r' {
        out.push('\\');
        out.push('r');
    } else if c == '\t' {
        out.push('\\');
        out.push('t');
    } else if (c as u32) < 32 {
        let code = c as u32;
        out.push('\\');
        out.push('u');
        out.push('0');
        out.push('0');
        out.push(hex_digit(code / 16));
        out.push(hex_digit(code % 16));
    } else {
        out.push(c);
    }
    assert(final(out)@ =~= old(out)@ + escape_char(c));
}

/// Escapes a string for use inside a JSON string literal: `"` and `\` are
/// backslash-escaped, line feed, carriage return and tab become `\n`, `\r`,
/// `\t`, other control characters become `\u00XX`, and all else is kept.
pub fn json_escape(s: &str) -> (r: String)
    ensures
        r@ == json_escaped(s@),
{
    let mut out = String::new();
    for c in it: s.chars()
        invariant
            it.seq() == s@,
            out@ == json_escaped(it.seq().take(it.index())),
    {
        proof {
            lemma_json_escaped_push(it.seq().take(it.index()), c);
            assert(it.seq().take(it.index() + 1) =~= it.seq().take(it.index()).push(c));
        }
        push_escaped(&mut out, c);
    }
    assert(s@.take(s@.len() as int) =~= s@);
    out
}

// ---------------------------------------------------------------------------
// Reading a string field back out of JSON text
// ---------------------------------------------------------------------------

/// The value of a hexadecimal digit (either case).
pub open spec fn hex_value(c: char) -> Option<nat> {
    if '0' <= c && c <= '9' {
        Some(((c as u32) - ('0' as u32)) as nat)
    } else if 'a' <= c && c <= 'f' {
        Some(((c as u32) - ('a' as u32) + 10) as nat)
    } else if 'A' <= c && c <= 'F' {
        Some(((c as u32) - ('A' as u32) + 10) as nat)
    } else {
        None
    }
}

/// The value of a sequence of hexadecimal digits (0 when empty).
pub open spec fn hex_digits_value(s: Seq<char>) -> Option<nat>
    decreases s.len(),
{
    if s.len() == 0 {
        Some(0)
    } else {
        match (hex_digits_value(s.drop_last()), hex_value(s.last())) {
            (Some(a), Some(b)) => Some(a * 16 + b),
            _ => None,
        }
    }
}

/// `u32::from_str_radix(s, 16)` for at most four characters: an optional
/// `+` and then one or more hexadecimal digits.
pub open spec fn parse_hex(s: Seq<char>) -> Option<nat> {
    if s.len() == 0 {
        None
    } else if s[0] == '+' {
        if s.len() == 1 {
            None
        } else {
            hex_digits_value(s.drop_first())
        }
    } else {
        hex_digits_value(s)
    }
}

/// A Unicode scalar value, the codes `char::from_u32` accepts.
pub open spec fn is_scalar(code: nat) -> bool {
    code < 0xD800 || (0xE000 <= code && code < 0x110000)
}

/// What a backslash escape other than `\u` stands for.
pub open spec fn unescape(e: char) -> Seq<char> {
    if e == '"' {
        seq!['"']
    } else if e == '\\' {
        seq!['\\']
    } else if e == '/' {
        seq!['/']
    } else if e == 'n' {
        seq!['\n']
    } else if e == 'r' {
        seq!['\r']
    } else if e == 't' {
        seq!['\t']
    } else {
        seq!['\\', e]
    }
}

/// Reads the body of a JSON string literal from `v` (just after its opening
/// quote), with `acc` holding what was read so far: `Some` of the value once
/// an unescaped `"` is met, `None` if the text ends first. A `\u` escape takes
/// the next four characters (fewer at the end) and adds the character they
/// name when they form a number that is a Unicode scalar value.
pub open spec fn decode_json_string(v: Seq<char>, acc: Seq<char>) -> Option<Seq<char>>
    decreases v.len(),
{
    if v.len() == 0 {
        None
    } else if v[0] == '"' {
        Some(acc)
    } else if v[0] != '\\' {
        decode_json_string(v.drop_first(), acc.push(v[0]))
    } else if v.len() == 1 {
        None
    } else if v[1] == 'u' {
        let rest = v.skip(2);
        let n = if rest.len() < 4 {
            rest.len() as int
        } else {
            4
        };
        let acc2 = match parse_hex(rest.take(n)) {
            Some(code) => if is_scalar(code) {
                acc.push((code as u32) as char)
            } else {
                acc
            },
            None => acc,
        };
        decode_json_string(rest.skip(n), acc2)
    } else {
        decode_json_string(v.skip(2), acc + unescape(v[1]))
    }
}

/// The string value of `"field"` in `json`: the first occurrence of the
/// quoted field name, then the first `:` after it, then optional whitespace,
/// then a string literal.
pub open spec fn json_string_field(json: Seq<char>, field: Seq<char>) -> Option<Seq<char>> {
    let pat = seq!['"'] + field + seq!['"'];
    match find(json, pat) {
        None => None,
        Some(k) => match find_from(json, seq![':'], k + pat.len()) {
            None => None,
            Some(c) => {
                let after_colon = trim_start(json.skip(c + 1));
                if after_colon.len() > 0 && after_colon[0] == '"' {
                    decode_json_string(after_colon.drop_first(), seq![])
                } else {
                    None
                }
            },
        },
    }
}

/// The value of `v[lo..hi]` read as by `parse_hex`.
fn parse_hex_range(v: &Vec<char>, lo: usize, hi: usize) -> (r: Option<u32>)
    requires
        lo <= hi <= v.len(),
        hi - lo <= 4,
    ensures
        match parse_hex(v@.subrange(lo as int, hi as int)) {
            Some(x) => r == Some(x as u32) && x < 0x10000,
            None => r is None,
        },
{
    let ghost s = v@.subrange(lo as int, hi as int);
    if lo == hi {
        return None;
    }
    let mut start = lo;
    if v[lo] == '+' {
        if hi - lo == 1 {
            return None;
        }
        start = lo + 1;
        assert(s.drop_first() =~= v@.subrange(start as int, hi as int));
    }
    assert(parse_hex(s) == hex_digits_value(v@.subrange(start as int, hi as int)));
    let mut acc: u32 = 0;
    let mut i = start;
    assert(v@.subrange(start as int, i as int) =~= seq![]);
    while i < hi
        invariant
            lo <= start <= i <= hi <= v.len(),
            hi - start <= 4,
            start < hi,
            s == v@.subrange(lo as int, hi as int),
            parse_hex(s) == hex_digits_value(v@.subrange(start as int, hi as int)),
            hex_digits_value(v@.subrange(start as int, i as int)) == Some(acc as nat),
            acc < pow16(i - start),
        decreases hi - i,
    {
        let c = v[i];
        let d: u32 = match hex_digit_value(c) {
            Some(d) => d,
            None => {
                proof {
                    assert(v@.subrange(start as int, i + 1).drop_last() =~= v@.subrange(
                        start as int,
                        i as int,
                    ));
                    lemma_hex_none_extends(v@, start as int, i + 1, hi as int);
                }
                return None;
            },
        };
        assert(v@.subrange(start as int, i + 1).drop_last() =~= v@.subrange(start as int, i as int));
        proof {
            lemma_pow16_bound((i - start) as nat);
        }
        acc = acc * 16 + d;
        i += 1;
    }
    assert(v@.subrange(start as int, i as int) =~= v@.subrange(start as int, hi as int));
    proof {
        lemma_pow16_bound((hi - start - 1) as nat);
    }
    Some(acc)
}

fn hex_digit_value(c: char) -> (r: Option<u32>)
    ensures
        match hex_value(c) {
            Some(x) => r == Some(x as u32) && x < 16,
            None => r is None,
        },
{
    if '0' <= c && c <= '9' {
        Some((c as u32) - ('0' as u32))
    } else if 'a' <= c && c <= 'f' {
        Some((c as u32) - ('a' as u32) + 10)
    } else if 'A' <= c && c <= 'F' {
        Some((c as u32) - ('A' as u32) + 10)
    } else {
        None
    }
}

pub open spec fn pow16(n: int) -> nat
    decreases n,
{
    if n <= 0 {
        1
    } else {
        16 * pow16(n - 1)
    }
}

proof fn lemma_pow16_bound(n: nat)
    requires
        n < 4,
    ensures
        pow16(n as int) <= 4096,
        16 * pow16(n as int) == pow16(n + 1int),
        pow16(n + 1int) <= 65536,
{
    reveal_with_fuel(pow16, 5);
}

proof fn lemma_hex_none_extends(v: Seq<char>, a: int, b: int, c: int)
    requires
        0 <= a < b <= c <= v.len(),
        hex_digits_value(v.subrange(a, b)) is None,
    ensures
        hex_digits_value(v.subrange(a, c)) is None,
    decreases c - b,
{
    if c > b {
        lemma_hex_none_extends(v, a, b, c - 1);
        assert(v.subrange(a, c).drop_last() =~= v.subrange(a, c - 1));
    }
}

/// Reads the string field `field` from a flat JSON object: finds the quoted
/// field name, the colon after it and the string literal that follows, and
/// returns its value with escapes resolved; `None` when any of these is
/// missing or the literal is not closed.
pub fn extract_json_string_field(json: &str, field: &str) -> (r: Option<String>)
    ensures
        match r {
            Some(x) => json_string_field(json@, field@) == Some(x@),
            None => json_string_field(json@, field@) is None,
        },
{
    let jv = chars_of(json);
    let fv = chars_of(field);
    let mut pat: Vec<char> = Vec::new();
    pat.push('"');
    let mut i: usize = 0;
    while i < fv.len()
        invariant
            0 <= i <= fv.len(),
            pat@ == seq!['"'] + fv@.take(i as int),
        decreases fv.len() - i,
    {
        pat.push(fv[i]);
        assert(fv@.take(i + 1) =~= fv@.take(i as int).push(fv@[i as int]));
        i += 1;
    }
    pat.push('"');
    assert(fv@.take(fv.len() as int) =~= fv@);
    assert(pat@ =~= seq!['"'] + field@ + seq!['"']);
    let k = match find_in(&jv, &pat, 0) {
        Some(k) => k,
        None => return None,
    };
    proof {
        lemma_find_from(jv@, pat@, 0);
    }
    assert(k + pat.len() <= jv.len());
    let c = match find_char(&jv, ':', k + pat.len()) {
        Some(c) => c,
        None => return None,
    };
    proof {
        lemma_find_from(jv@, seq![':'], (k + pat.len()) as int);
    }
    let start = skip_space(&jv, c + 1, jv.len());
    assert(jv@.subrange(c + 1, jv.len() as int) =~= jv@.skip(c + 1));
    if start >= jv.len() || jv[start] != '"' {
        return None;
    }
    assert(jv@.subrange(start as int, jv.len() as int).drop_first() =~= jv@.skip(start + 1));
    decode_string_at(&jv, start + 1)
}

/// Decodes the string literal body that starts at `v[from]`.
fn decode_string_at(v: &Vec<char>, from: usize) -> (r: Option<String>)
    requires
        from <= v.len(),
    ensures
        match r {
            Some(x) => decode_json_string(v@.skip(from as int), seq![]) == Some(x@),
            None => decode_json_string(v@.skip(from as int), seq![]) is None,
        },
{
    let mut out = String::new();
    let mut i = from;
    loop
        invariant
            from <= i <= v.len(),
            decode_json_string(v@.skip(from as int), seq![]) == decode_json_string(
                v@.skip(i as int),
                out@,
            ),
        decreases v.len() - i,
    {
        let ghost rest = v@.skip(i as int);
        if i >= v.len() {
            return None;
        }
        let c = v[i];
        if c == '"' {
            return Some(out);
        }
        if c != '\\' {
            out.push(c);
            assert(rest.drop_first() =~= v@.skip(i + 1));
            i += 1;
        } else if i + 1 >= v.len() {
            return None;
        } else {
            let e = v[i + 1];
            if e == 'u' {
                let avail = v.len() - (i + 2);
                let n = if avail < 4 {
                    avail
                } else {
                    4
                };
                assert(rest.skip(2).take(n as int) =~= v@.subrange(i + 2, i + 2 + n));
                match parse_hex_range(v, i + 2, i + 2 + n) {
                    Some(code) => {
                        match char_from_u32(code) {
                            Some(ch) => out.push(ch),
                            None => {},
                        }
                    },
                    None => {},
                }
                assert(rest.skip(2).skip(n as int) =~= v@.skip(i + 2 + n));
                i = i + 2 + n;
            } else {
                let ghost before = out@;
                if e == '"' {
                    out.push('"');
                } else if e == '\\' {
                    out.push('\\');
                } else if e == '/' {
                    out.push('/');
                } else if e == 'n' {
                    out.push('\n');
                } else if e == 'r' {
                    out.push('\r');
                } else if e == 't' {
                    out.push('\t');
                } else {
                    out.push('\\');
                    out.push(e);
                }
                assert(out@ =~= before + unescape(e));
                assert(rest.skip(2) =~= v@.skip(i + 2));
                i += 2;
            }
        }
    }
}

} // verus!

verus! {

proof fn lemma_hex_char_value(d: nat)
    requires
        d < 16,
    ensures
        hex_value(hex_char(d)) == Some(d),
{
}

proof fn lemma_decode_one(c: char, x: Seq<char>, acc: Seq<char>)
    ensures
        decode_json_string(escape_char(c) + x, acc) == decode_json_string(x, acc.push(c)),
{
    let v = escape_char(c) + x;
    if c == '"' || c == '\\' || c == '\n' || c == '\r' || c == '\t' {
        assert(v.skip(2) =~= x);
        assert(acc + unescape(v[1]) =~= acc.push(c));
    } else if (c as u32) < 32 {
        let code = c as u32;
        let d1 = (code / 16) as nat;
        let d2 = (code % 16) as nat;
        lemma_hex_char_value(d1);
        lemma_hex_char_value(d2);
        let rest = v.skip(2);
        let h = rest.take(4);
        assert(h =~= seq!['0', '0', hex_char(d1), hex_char(d2)]);
        assert(h.drop_last() =~= seq!['0', '0', hex_char(d1)]);
        assert(h.drop_last().drop_last() =~= seq!['0', '0']);
        assert(h.drop_last().drop_last().drop_last() =~= seq!['0']);
        assert(h.drop_last().drop_last().drop_last().drop_last() =~= Seq::<char>::empty());
        assert(seq!['0'].drop_last() =~= Seq::<char>::empty());
        assert(seq!['0', '0'].drop_last() =~= seq!['0']);
        assert(seq!['0', '0', hex_char(d1)].drop_last() =~= seq!['0', '0']);
        assert(hex_digits_value(Seq::<char>::empty()) == Some(0nat));
        assert(hex_value('0') == Some(0nat));
        assert(hex_digits_value(seq!['0']) == Some(0nat));
        assert(hex_digits_value(seq!['0', '0']) == Some(0nat));
        assert(hex_digits_value(seq!['0', '0', hex_char(d1)]) == Some(d1));
        assert(hex_digits_value(h) == Some(d1 * 16 + d2));
        assert(parse_hex(h) == Some(code as nat));
        assert(rest.skip(4) =~= x);
        assert(((code as nat) as u32) as char == c);
    } else {
        assert(v.drop_first() =~= x);
    }
}

proof fn lemma_decode_escaped(s: Seq<char>, rest: Seq<char>, acc: Seq<char>)
    ensures
        decode_json_string(json_escaped(s) + seq!['"'] + rest, acc) == Some(acc + s),
    decreases s.len(),
{
    if s.len() == 0 {
        assert(json_escaped(s) + seq!['"'] + rest =~= seq!['"'] + rest);
        assert(acc + s =~= acc);
    } else {
        let c = s[0];
        let x = json_escaped(s.drop_first()) + seq!['"'] + rest;
        assert(json_escaped(s) + seq!['"'] + rest =~= escape_char(c) + x);
        lemma_decode_one(c, x, acc);
        lemma_decode_escaped(s.drop_first(), rest, acc.push(c));
        assert(acc.push(c) + s.drop_first() =~= acc + s);
    }
}

/// Law: reading a field back out of a JSON object whose value was written
/// with `json_escape` gives the original string back, whatever the string,
/// the field name and the text after the value.
pub proof fn law_json_escape_roundtrip(field: Seq<char>, s: Seq<char>, tail: Seq<char>)
    ensures
        json_string_field(
            seq!['{', '"'] + field + seq!['"', ':', '"'] + json_escaped(s) + seq!['"'] + tail,
            field,
        ) == Some(s),
{
    let json = seq!['{', '"'] + field + seq!['"', ':', '"'] + json_escaped(s) + seq!['"'] + tail;
    let pat = seq!['"'] + field + seq!['"'];
    assert(!occurs_at(json, pat, 0)) by {
        if occurs_at(json, pat, 0) {
            assert(json.subrange(0, pat.len() as int)[0] == pat[0]);
        }
    }
    assert(json.subrange(1, 1 + pat.len() as int) =~= pat);
    assert(occurs_at(json, pat, 1));
    assert(find_from(json, pat, 1) == Some(1int));
    assert(find(json, pat) == Some(1int));
    let a: int = 1 + pat.len() as int;
    assert(json[a] == ':');
    assert(json.subrange(a, a + 1) =~= seq![':']);
    assert(find_from(json, seq![':'], a) == Some(a));
    let after = json.skip(a + 1);
    assert(after[0] == '"');
    assert(trim_start(after) == after);
    assert(after.drop_first() =~= json_escaped(s) + seq!['"'] + tail);
    lemma_decode_escaped(s, tail, seq![]);
    assert(Seq::<char>::empty() + s =~= s);
}

} // verus!

verus! {

// ---------------------------------------------------------------------------
// URL decoding, query parameters and request paths
// ---------------------------------------------------------------------------

/// `u8::from_str_radix` of the two-byte string `b1 b2` in base 16: an
/// optional `+` and then hexadecimal digits.
pub open spec fn parse_hex_pair(b1: u8, b2: u8) -> Option<nat> {
    if b1 == 43 {
        hex_value(b2 as char)
    } else {
        match (hex_value(b1 as char), hex_value(b2 as char)) {
            (Some(x), Some(y)) => Some(x * 16 + y),
            _ => None,
        }
    }
}

/// URL decoding of the UTF-8 bytes of a string: `%` and two hexadecimal
/// digits give the byte they spell, `+` gives a space, and every other byte
/// stays; each byte becomes the character with that code.
pub open spec fn url_decoded(b: Seq<u8>) -> Seq<char>
    decreases b.len(),
{
    if b.len() == 0 {
        seq![]
    } else if b[0] == 37 && b.len() >= 3 && parse_hex_pair(b[1], b[2]) is Some {
        seq![((parse_hex_pair(b[1], b[2])->0) as u8) as char] + url_decoded(b.skip(3))
    } else if b[0] == 43 {
        seq![' '] + url_decoded(b.skip(1))
    } else {
        seq![b[0] as char] + url_decoded(b.skip(1))
    }
}

/// The URL-decoded form of the string `s`.
pub open spec fn url_decode_str(s: Seq<char>) -> Seq<char> {
    url_decoded(encode_utf8(s))
}

fn hex_byte(b: u8) -> (r: Option<u32>)
    ensures
        match hex_value(b as char) {
            Some(x) => r == Some(x as u32) && x < 16,
            None => r is None,
        },
{
    if 48 <= b && b <= 57 {
        Some((b - 48) as u32)
    } else if 97 <= b && b <= 102 {
        Some((b - 97 + 10) as u32)
    } else if 65 <= b && b <= 70 {
        Some((b - 65 + 10) as u32)
    } else {
        None
    }
}

fn hex_pair(b1: u8, b2: u8) -> (r: Option<u8>)
    ensures
        match parse_hex_pair(b1, b2) {
            Some(x) => r == Some(x as u8) && x < 256,
            None => r is None,
        },
{
    if b1 == 43 {
        match hex_byte(b2) {
            Some(y) => Some(y as u8),
            None => None,
        }
    } else {
        match (hex_byte(b1), hex_byte(b2)) {
            (Some(x), Some(y)) => Some((x * 16 + y) as u8),
            _ => None,
        }
    }
}

/// Decodes `%XX` escapes and `+` in a URL component; bytes are read one by
/// one as characters.
pub fn urlencoding_decode(input: &str) -> (r: String)
    ensures
        r@ == url_decode_str(input@),
{
    let bytes = input.as_bytes();
    let ghost all = bytes@;
    let mut out = String::new();
    let mut i: usize = 0;
    assert(all.skip(0) =~= all);
    while i < bytes.len()
        invariant
            0 <= i <= bytes@.len(),
            bytes@ == all,
            url_decoded(all) == out@ + url_decoded(all.skip(i as int)),
        decreases bytes.len() - i,
    {
        let ghost rest = all.skip(i as int);
        let ghost before = out@;
        let b = bytes[i];
        if b == 37 && bytes.len() - i >= 3 {
            match hex_pair(bytes[i + 1], bytes[i + 2]) {
                Some(v) => {
                    out.push(v as char);
                    assert(rest.skip(3) =~= all.skip(i + 3));
                    assert(out@ + url_decoded(all.skip(i + 3)) =~= before + (seq![v as char]
                        + url_decoded(rest.skip(3))));
                    i += 3;
                    continue;
                },
                None => {},
            }
        } else if b == 43 {
            out.push(' ');
            assert(rest.skip(1) =~= all.skip(i + 1));
            assert(out@ + url_decoded(all.skip(i + 1)) =~= before + (seq![' '] + url_decoded(
                rest.skip(1),
            )));
            i += 1;
            continue;
        }
        out.push(b as char);
        assert(rest.skip(1) =~= all.skip(i + 1));
        assert(out@ + url_decoded(all.skip(i + 1)) =~= before + (seq![b as char] + url_decoded(
            rest.skip(1),
        )));
        i += 1;
    }
    assert(all.skip(all.len() as int) =~= Seq::<u8>::empty());
    assert(out@ + Seq::<char>::empty() =~= out@);
    out
}

/// `str::split_once('=')`'s halves of one `&`-separated query piece, if it has a `=`.
pub open spec fn query_pair(part: Seq<char>) -> Option<(Seq<char>, Seq<char>)> {
    match find(part, seq!['=']) {
        Some(e) => Some((part.take(e), part.skip(e + 1))),
        None => None,
    }
}

/// The decoded value of the first `key=value` piece of `query` (pieces are
/// separated by `&`) whose key is `key`.
pub open spec fn query_param(query: Seq<char>, key: Seq<char>) -> Option<Seq<char>>
    decreases query.len(),
{
    let end = match find(query, seq!['&']) {
        Some(j) => j,
        None => query.len() as int,
    };
    let part = query.take(end);
    let hit = match query_pair(part) {
        Some((k, v)) => if k == key {
            Some(url_decode_str(v))
        } else {
            None
        },
        None => None,
    };
    if hit is Some {
        hit
    } else if 0 <= end < query.len() {
        query_param(query.skip(end + 1), key)
    } else {
        None
    }
}

/// Finds the value of `key` in a URL query string and URL-decodes it.
pub fn extract_query_param(query: &str, key: &str) -> (r: Option<String>)
    ensures
        match r {
            Some(x) => query_param(query@, key@) == Some(x@),
            None => query_param(query@, key@) is None,
        },
{
    let q = chars_of(query);
    let kv = chars_of(key);
    let mut start: usize = 0;
    assert(q@.skip(0) =~= q@);
    loop
        invariant
            start <= q.len(),
            query_param(q@, kv@) == query_param(q@.skip(start as int), kv@),
            kv@ == key@,
            q@ == query@,
        decreases q.len() - start,
    {
        let ghost rest = q@.skip(start as int);
        let end = match find_char(&q, '&', start) {
            Some(j) => j,
            None => q.len(),
        };
        proof {
            lemma_find_skip(q@, seq!['&'], start as int, start as int);
            lemma_find_from(q@, seq!['&'], start as int);
        }
        let ghost spec_end = match find(rest, seq!['&']) {
            Some(j) => j,
            None => rest.len() as int,
        };
        assert(spec_end == end - start);
        let part = vec_range(&q, start, end);
        assert(part@ =~= rest.take(spec_end));
        match find_char(&part, '=', 0) {
            Some(e) => {
                proof {
                    lemma_find_from(part@, seq!['='], 0);
                }
                let k = vec_range(&part, 0, e);
                if chars_eq(&k, &kv) {
                    let v = string_of_range(&part, e + 1, part.len());
                    assert(k@ =~= part@.take(e as int));
                    assert(v@ =~= part@.skip(e + 1));
                    return Some(urlencoding_decode(v.as_str()));
                }
                assert(k@ =~= part@.take(e as int));
            },
            None => {},
        }
        if end >= q.len() {
            return None;
        }
        assert(rest.skip(spec_end + 1) =~= q@.skip(end + 1));
        start = end + 1;
    }
}

/// Keeps the name components.
pub open spec fn normal_only(cs: Seq<Comp>) -> Seq<Comp>
    decreases cs.len(),
{
    if cs.len() == 0 {
        seq![]
    } else if cs[0] is Normal {
        seq![cs[0]] + normal_only(cs.drop_first())
    } else {
        normal_only(cs.drop_first())
    }
}

/// The request path `p` made safe to join under a served folder: it is
/// URL-decoded and only its name components are kept, joined with `/`, so
/// that no root, `.` or `..` survives.
pub open spec fn sanitized_path(p: Seq<char>) -> Seq<char> {
    push_comps(seq![], normal_only(components(url_decode_str(p))))
}

/// Decodes a request path and keeps only its name components.
pub fn sanitize_rel_path(p: &str) -> (r: String)
    ensures
        r@ == sanitized_path(p@),
{
    let decoded = urlencoding_decode(p);
    let dv = chars_of(decoded.as_str());
    let comps = path_components(&dv);
    let ghost cs = comp_views(comps@);
    let mut buf: Vec<char> = Vec::new();
    let mut i: usize = 0;
    assert(cs.skip(0) =~= cs);
    while i < comps.len()
        invariant
            0 <= i <= comps.len(),
            cs == comp_views(comps@),
            push_comps(seq![], normal_only(cs)) == push_comps(buf@, normal_only(cs.skip(i as int))),
        decreases comps.len() - i,
    {
        let ghost rest = cs.skip(i as int);
        assert(rest.drop_first() =~= cs.skip(i + 1));
        match &comps[i] {
            PathComp::Normal(n) => {
                let ghost old_buf = buf@;
                let c = &comps[i];
                push_name(&mut buf, n);
                assert(normal_only(rest) =~= seq![rest[0]] + normal_only(rest.drop_first()));
                assert((seq![rest[0]] + normal_only(rest.drop_first())).drop_first() =~= normal_only(
                    rest.drop_first(),
                ));
            },
            _ => {},
        }
        i += 1;
    }
    assert(cs.skip(cs.len() as int) =~= Seq::<Comp>::empty());
    string_of(&buf)
}

/// `PathBuf::push` of a name component.
fn push_name(buf: &mut Vec<char>, n: &Vec<char>)
    ensures
        final(buf)@ == push_comp(old(buf)@, Comp::Normal(n@)),
{
    if buf.len() > 0 && buf[buf.len() - 1] != '/' {
        buf.push('/');
    }
    let ghost before = buf@;
    let mut i: usize = 0;
    while i < n.len()
        invariant
            0 <= i <= n.len(),
            buf@ == before + n@.take(i as int),
        decreases n.len() - i,
    {
        buf.push(n[i]);
        assert(n@.take(i + 1) =~= n@.take(i as int).push(n@[i as int]));
        i += 1;
    }
    assert(n@.take(n.len() as int) =~= n@);
}

proof fn lemma_normal_only_valid(cs: Seq<Comp>)
    requires
        names_valid(cs),
    ensures
        all_valid_names(normal_only(cs)),
    decreases cs.len(),
{
    if cs.len() > 0 {
        let rest = cs.drop_first();
        assert(names_valid(rest)) by {
            assert forall|i: int| 0 <= i < rest.len() implies (#[trigger] rest[i] matches Comp::Normal(
                n,
            ) ==> valid_name(n)) by {
                assert(rest[i] == cs[i + 1]);
            }
        }
        lemma_normal_only_valid(rest);
        let r = normal_only(cs);
        let t = normal_only(rest);
        if cs[0] is Normal {
            assert forall|i: int| 0 <= i < r.len() implies (#[trigger] r[i] matches Comp::Normal(n)
                && valid_name(n)) by {
                if i > 0 {
                    assert(r[i] == t[i - 1]);
                }
            }
        }
    }
}

/// Sanitizing law: read back with `Path::components`, a sanitized path has
/// exactly the name components of the decoded request path, in order. So it
/// has no root, `.` or `..` component, and joined under a folder it names a
/// place inside that folder.
pub proof fn law_sanitized_path_stays_inside(p: Seq<char>)
    ensures
        components(sanitized_path(p)) == normal_only(components(url_decode_str(p))),
        forall|i: int|
            0 <= i < components(sanitized_path(p)).len() ==> #[trigger] components(
                sanitized_path(p),
            )[i] is Normal,
{
    let cs = components(url_decode_str(p));
    lemma_components_valid(url_decode_str(p));
    lemma_normal_only_valid(cs);
    lemma_valid_names_linkable(normal_only(cs));
    lemma_components_of_pushed_names(normal_only(cs));
}

/// The index of the last occurrence of `c` in `s`.
pub open spec fn last_index_of(s: Seq<char>, c: char) -> Option<int>
    decreases s.len(),
{
    if s.len() == 0 {
        None
    } else if s.last() == c {
        Some(s.len() - 1)
    } else {
        last_index_of(s.drop_last(), c)
    }
}

pub proof fn lemma_last_index_of(s: Seq<char>, c: char)
    ensures
        last_index_of(s, c) matches Some(k) ==> 0 <= k < s.len() && s[k] == c && forall|j: int|
            k < j < s.len() ==> s[j] != c,
        last_index_of(s, c) is None ==> forall|j: int| 0 <= j < s.len() ==> s[j] != c,
    decreases s.len(),
{
    if s.len() > 0 && s.last() != c {
        lemma_last_index_of(s.drop_last(), c);
        assert forall|j: int| 0 <= j < s.len() - 1 implies s[j] == s.drop_last()[j] by {}
    }
}

/// `Path::file_name`: the last component, when it is a name.
pub open spec fn file_name(p: Seq<char>) -> Option<Seq<char>> {
    let cs = components(p);
    if cs.len() > 0 && cs.last() is Normal {
        Some(cs.last()->Normal_0)
    } else {
        None
    }
}

/// `Path::extension`: what follows the last `.` of the file name, unless that
/// dot starts the name.
pub open spec fn extension(p: Seq<char>) -> Option<Seq<char>> {
    match file_name(p) {
        Some(n) => match last_index_of(n, '.') {
            Some(k) => if k > 0 {
                Some(n.skip(k + 1))
            } else {
                None
            },
            None => None,
        },
        None => None,
    }
}

} // verus!

verus! {

/// The index of the last occurrence of `c` in `v`.
pub fn rfind_char(v: &Vec<char>, c: char) -> (r: Option<usize>)
    ensures
        match last_index_of(v@, c) {
            Some(k) => r == Some(k as usize),
            None => r is None,
        },
{
    let mut j = v.len();
    assert(v@.take(j as int) =~= v@);
    while j > 0
        invariant
            j <= v.len(),
            last_index_of(v@, c) == last_index_of(v@.take(j as int), c),
        decreases j,
    {
        assert(v@.take(j as int).drop_last() =~= v@.take(j - 1));
        if v[j - 1] == c {
            return Some(j - 1);
        }
        j -= 1;
    }
    None
}

/// `Path::extension` of a path given as characters.
pub fn path_extension(p: &Vec<char>) -> (r: Option<Vec<char>>)
    ensures
        match extension(p@) {
            Some(e) => r matches Some(x) && x@ == e,
            None => r is None,
        },
{
    let comps = path_components(p);
    let n = comps.len();
    if n == 0 {
        return None;
    }
    match &comps[n - 1] {
        PathComp::Normal(name) => {
            assert(comp_views(comps@).last() == comps@[n - 1].view());
            proof {
                lemma_last_index_of(name@, '.');
            }
            match rfind_char(name, '.') {
                Some(k) => {
                    if k > 0 {
                        Some(vec_range(name, k + 1, name.len()))
                    } else {
                        None
                    }
                },
                None => None,
            }
        },
        _ => {
            assert(comp_views(comps@).last() == comps@[n - 1].view());
            None
        },
    }
}

/// The content type served for a file with the given extension.
pub open spec fn mime_for(ext: Option<Seq<char>>) -> Seq<char> {
    match ext {
        Some(e) => if e == "html"@ || e == "htm"@ {
            "text/html; charset=utf-8"@
        } else if e == "css"@ {
            "text/css; charset=utf-8"@
        } else if e == "js"@ {
            "application/javascript; charset=utf-8"@
        } else if e == "svg"@ {
            "image/svg+xml"@
        } else if e == "png"@ {
            "image/png"@
        } else if e == "jpg"@ || e == "jpeg"@ {
            "image/jpeg"@
        } else if e == "json"@ {
            "application/json"@
        } else if e == "wasm"@ {
            "application/wasm"@
        } else {
            "application/octet-stream"@
        },
        None => "application/octet-stream"@,
    }
}

fn is_lit(v: &Vec<char>, s: &str) -> (r: bool)
    ensures
        r == (v@ == s@),
{
    let w = chars_of(s);
    chars_eq(v, &w)
}

/// The content type of a served file, chosen by its extension.
pub fn guess_mime_type(path: &str) -> (r: &'static str)
    ensures
        r@ == mime_for(extension(path@)),
{
    let p = chars_of(path);
    match path_extension(&p) {
        Some(e) => {
            if is_lit(&e, "html") || is_lit(&e, "htm") {
                "text/html; charset=utf-8"
            } else if is_lit(&e, "css") {
                "text/css; charset=utf-8"
            } else if is_lit(&e, "js") {
                "application/javascript; charset=utf-8"
            } else if is_lit(&e, "svg") {
                "image/svg+xml"
            } else if is_lit(&e, "png") {
                "image/png"
            } else if is_lit(&e, "jpg") || is_lit(&e, "jpeg") {
                "image/jpeg"
            } else if is_lit(&e, "json") {
                "application/json"
            } else if is_lit(&e, "wasm") {
                "application/wasm"
            } else {
                "application/octet-stream"
            }
        },
        None => "application/octet-stream",
    }
}

} // verus!
