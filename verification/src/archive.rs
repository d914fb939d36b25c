//! Archiving a finished site: the numbered folder names under the archive
//! directory, the next free sequence number, and what one archive run does.
use vstd::prelude::*;
use crate::text::{
    all_digits, chars_of, digit_value, digits_value, find, find_char, is_alnum, is_alphanumeric,
    is_digit, lemma_decimal_value, push_decimal, decimal, string_views, trim, trim_start, trim_end, find_from, all_ascii,
    is_ascii_char, trim_bounds, zero_pad, lemma_find_from,
};

verus! {

// ---------------------------------------------------------------------------
// Leading numbers
// ---------------------------------------------------------------------------

/// The index of the first character at or after `i` that is not an ASCII digit.
pub open spec fn digit_run(s: Seq<char>, i: int) -> int
    decreases s.len() - i,
{
    if 0 <= i < s.len() && is_digit(s[i]) {
        digit_run(s, i + 1)
    } else {
        i
    }
}

/// The ASCII digits at the start of `s`.
pub open spec fn leading_digits(s: Seq<char>) -> Seq<char> {
    s.take(digit_run(s, 0))
}

/// The number that `s` starts with: `None` when it starts with no digit, or
/// when the digits do not fit in a `u32`.
pub open spec fn leading_number(s: Seq<char>) -> Option<u32> {
    let d = leading_digits(s);
    if d.len() == 0 || digits_value(d) > u32::MAX {
        None
    } else {
        Some(digits_value(d) as u32)
    }
}

proof fn lemma_digit_run(s: Seq<char>, i: int)
    requires
        0 <= i <= s.len(),
    ensures
        i <= digit_run(s, i) <= s.len(),
        forall|j: int| i <= j < digit_run(s, i) ==> is_digit(#[trigger] s[j]),
    decreases s.len() - i,
{
    if i < s.len() && is_digit(s[i]) {
        lemma_digit_run(s, i + 1);
    }
}

/// Extracts the number that a name such as `001_Tutorials` starts with.
pub fn extract_leading_number(name: &str) -> (r: Option<u32>)
    ensures
        r == leading_number(name@),
{
    let v = chars_of(name);
    let n = v.len();
    let mut i: usize = 0;
    let mut acc: u64 = 0;
    let mut overflow = false;
    while i < n && '0' <= v[i] && v[i] <= '9'
        invariant
            n == v.len(),
            0 <= i <= n,
            digit_run(v@, 0) == digit_run(v@, i as int),
            !overflow ==> acc == digits_value(v@.take(i as int)) && acc <= u32::MAX,
            overflow ==> digits_value(v@.take(i as int)) > u32::MAX,
        decreases n - i,
    {
        let d = v[i];
        assert(v@.take(i + 1).drop_last() == v@.take(i as int));
        assert(digits_value(v@.take(i + 1)) == digits_value(v@.take(i as int)) * 10 + digit_value(
            d,
        ));
        if !overflow {
            let dv = (d as u32 - '0' as u32) as u64;
            acc = acc * 10 + dv;
            if acc > 0xFFFF_FFFFu64 {
                overflow = true;
            }
        }
        i += 1;
    }
    proof {
        lemma_digit_run(v@, 0);
    }
    assert(leading_digits(v@) == v@.take(i as int));
    if i == 0 || overflow {
        None
    } else {
        Some(acc as u32)
    }
}

// ---------------------------------------------------------------------------
// Folder names
// ---------------------------------------------------------------------------

/// The name with a leading `<digits>_` removed, trimmed.
pub open spec fn archive_clean_name(p: Seq<char>) -> Seq<char> {
    match find(p, seq!['_']) {
        Some(idx) => if idx > 0 && all_digits(p.take(idx)) {
            trim(p.skip(idx + 1))
        } else {
            trim(p)
        },
        None => trim(p),
    }
}

/// Characters other than letters, digits, `_` and `-` become `_`.
pub open spec fn folder_char(c: char) -> char {
    if is_alnum(c) || c == '_' || c == '-' {
        c
    } else {
        '_'
    }
}

/// The descriptive part of an archive folder name.
pub open spec fn archive_label(p: Seq<char>) -> Seq<char> {
    let s = archive_clean_name(p).map_values(|c: char| folder_char(c));
    if s.len() == 0 {
        "Archive"@
    } else {
        s
    }
}

/// `{:03}_{label}`: the sequence number padded to three digits, `_`, the label.
pub open spec fn archive_folder_name(p: Seq<char>, sequence: nat) -> Seq<char> {
    zero_pad(decimal(sequence), 3) + seq!['_'] + archive_label(p)
}

/// Whether `v[lo..hi]` consists of ASCII digits.
fn all_ascii_digits(v: &Vec<char>, lo: usize, hi: usize) -> (r: bool)
    requires
        lo <= hi <= v.len(),
    ensures
        r == all_digits(v@.subrange(lo as int, hi as int)),
{
    let mut i = lo;
    while i < hi
        invariant
            lo <= i <= hi <= v.len(),
            forall|j: int| lo <= j < i ==> is_digit(#[trigger] v@[j]),
        decreases hi - i,
    {
        if !('0' <= v[i] && v[i] <= '9') {
            assert(!is_digit(v@.subrange(lo as int, hi as int)[i - lo]));
            return false;
        }
        i += 1;
    }
    true
}

/// Formats an archive folder name such as `003_GraphTutorials`. A name that
/// already starts with a number and `_` loses that prefix, so that no
/// folder gets two numbers.
pub fn format_archive_folder_name(preferred_name: &str, sequence: u32) -> (r: String)
    ensures
        r@ == archive_folder_name(preferred_name@, sequence as nat),
{
    let v = chars_of(preferred_name);
    let n = v.len();
    let (lo, hi) = match find_char(&v, '_', 0) {
        Some(idx) => {
            proof {
                lemma_find_from(v@, seq!['_'], 0);
            }
            if idx > 0 && all_ascii_digits(&v, 0, idx) {
                assert(v@.subrange(0, idx as int) == v@.take(idx as int));
                assert(v@.subrange(idx + 1, n as int) == v@.skip(idx + 1));
                trim_bounds(&v, idx + 1, n)
            } else {
                assert(v@.subrange(0, idx as int) == v@.take(idx as int));
                assert(v@.subrange(0, n as int) == v@);
                trim_bounds(&v, 0, n)
            }
        },
        None => {
            assert(v@.subrange(0, n as int) == v@);
            trim_bounds(&v, 0, n)
        },
    };
    let ghost clean = archive_clean_name(preferred_name@);
    assert(v@.subrange(lo as int, hi as int) == clean);
    let mut label = String::new();
    let mut i = lo;
    while i < hi
        invariant
            lo <= i <= hi <= v.len(),
            v@.subrange(lo as int, hi as int) == clean,
            label@ == v@.subrange(lo as int, i as int).map_values(|c: char| folder_char(c)),
        decreases hi - i,
    {
        let c = v[i];
        let keep = is_alphanumeric(c) || c == '_' || c == '-';
        if keep {
            label.push(c);
        } else {
            label.push('_');
        }
        assert(v@.subrange(lo as int, i + 1) == v@.subrange(lo as int, i as int).push(c));
        i += 1;
    }
    let mut out = String::new();
    if sequence < 10 {
        out.append("00");
    } else if sequence < 100 {
        out.append("0");
    }
    push_decimal(&mut out, sequence as u64);
    out.push('_');
    proof {
        reveal_strlit("00");
        reveal_strlit("0");
        lemma_decimal_len(sequence as nat);
        let d = decimal(sequence as nat);
        if sequence < 10 {
            assert("00"@ + d == zero_pad(d, 3));
        } else if sequence < 100 {
            assert("0"@ + d == zero_pad(d, 3));
        } else {
            assert(d == zero_pad(d, 3));
        }
    }
    if hi == lo {
        out.append("Archive");
    } else {
        out.append(label.as_str());
    }
    out
}

/// The length of the decimal numeral of `n`, by magnitude.
proof fn lemma_decimal_len(n: nat)
    ensures
        n < 10 ==> decimal(n).len() == 1,
        10 <= n < 100 ==> decimal(n).len() == 2,
        100 <= n ==> decimal(n).len() >= 3,
    decreases n,
{
    if n >= 10 {
        lemma_decimal_len(n / 10);
    }
}

// ---------------------------------------------------------------------------
// Sequence numbers
// ---------------------------------------------------------------------------

/// The largest leading number among the names (0 when there is none).
pub open spec fn max_leading(names: Seq<Seq<char>>) -> nat
    decreases names.len(),
{
    if names.len() == 0 {
        0
    } else {
        let m = max_leading(names.drop_last());
        match leading_number(names.last()) {
            Some(k) => if k > m {
                k as nat
            } else {
                m
            },
            None => m,
        }
    }
}

proof fn lemma_max_leading(names: Seq<Seq<char>>)
    ensures
        forall|i: int|
            0 <= i < names.len() && (#[trigger] leading_number(names[i])) is Some ==> leading_number(
                names[i],
            )->0 <= max_leading(names),
        names.len() > 0 ==> max_leading(names) == 0 || exists|i: int|
            0 <= i < names.len() && leading_number(names[i]) == Some(max_leading(names) as u32),
    decreases names.len(),
{
    if names.len() > 0 {
        let init = names.drop_last();
        lemma_max_leading(init);
        assert forall|i: int| 0 <= i < init.len() implies #[trigger] names[i] == init[i] by {}
        if max_leading(names) != 0 && max_leading(names) == max_leading(init) && init.len() > 0 {
            let j = choose|j: int|
                0 <= j < init.len() && leading_number(init[j]) == Some(max_leading(init) as u32);
            assert(names[j] == init[j]);
        }
        if max_leading(names) != max_leading(init) {
            assert(names[names.len() - 1] == names.last());
        }
    }
}

/// The sequence number for the next archive, given the names of the folders
/// already in the archive directory: one more than the largest number that a
/// name starts with, or 1 when none does.
pub fn next_sequence(names: &Vec<String>) -> (r: u32)
    requires
        forall|i: int| 0 <= i < names.len() ==> leading_number(#[trigger] names@[i]@) != Some(
            u32::MAX,
        ),
    ensures
        r == max_leading(string_views(names@)) + 1,
        forall|i: int|
            0 <= i < names.len() && (#[trigger] leading_number(names@[i]@)) is Some
                ==> leading_number(names@[i]@)->0 < r,
{
    let ghost sv = string_views(names@);
    let mut max_seq: u32 = 0;
    let mut i: usize = 0;
    while i < names.len()
        invariant
            0 <= i <= names.len(),
            sv == string_views(names@),
            forall|j: int| 0 <= j < names.len() ==> leading_number(#[trigger] names@[j]@) != Some(
                u32::MAX,
            ),
            max_seq == max_leading(sv.take(i as int)),
            max_seq < u32::MAX,
        decreases names.len() - i,
    {
        assert(sv.take(i + 1).drop_last() == sv.take(i as int));
        assert(sv[i as int] == names@[i as int]@);
        if let Some(num) = extract_leading_number(names[i].as_str()) {
            if num > max_seq {
                max_seq = num;
            }
        }
        i += 1;
    }
    proof {
        assert(sv.take(names.len() as int) == sv);
        lemma_max_leading(sv);
        assert forall|j: int|
            0 <= j < names.len() && (#[trigger] leading_number(names@[j]@)) is Some implies leading_number(
            names@[j]@,
        )->0 < max_seq + 1 by {
            assert(sv[j] == names@[j]@);
        }
    }
    max_seq + 1
}

// ---------------------------------------------------------------------------
// One archive run
// ---------------------------------------------------------------------------

/// Why an archive run is refused.
#[derive(Debug, PartialEq, Eq, Structural)]
pub enum ArchiveError {
    /// Neither the input nor the output directory exists.
    NothingToArchive,
}

/// What an archive run does: the folder it creates in the archive directory,
/// which of the two directories it copies there, and whether it then empties
/// them.
pub struct ArchivePlan {
    pub sequence: u32,
    pub folder_name: String,
    pub copy_input: bool,
    pub copy_output: bool,
    pub clean: bool,
}

/// Decides an archive run from the preferred name, the names of the folders
/// already in the archive directory (none when it does not exist), whether
/// the input and output directories exist, and `--no-clean`.
pub fn plan_archive(
    name: &str,
    existing: &Vec<String>,
    input_exists: bool,
    output_exists: bool,
    no_clean: bool,
) -> (r: Result<ArchivePlan, ArchiveError>)
    requires
        forall|i: int| 0 <= i < existing.len() ==> leading_number(#[trigger] existing@[i]@) != Some(
            u32::MAX,
        ),
    ensures
        r is Err <==> !input_exists && !output_exists,
        r matches Ok(p) ==> {
            &&& p.sequence == max_leading(string_views(existing@)) + 1
            &&& p.folder_name@ == archive_folder_name(name@, p.sequence as nat)
            &&& p.copy_input == input_exists
            &&& p.copy_output == output_exists
            &&& p.clean == !no_clean
        },
{
    if !input_exists && !output_exists {
        return Err(ArchiveError::NothingToArchive);
    }
    let sequence = next_sequence(existing);
    let folder_name = format_archive_folder_name(name, sequence);
    Ok(ArchivePlan { sequence, folder_name, copy_input: input_exists, copy_output: output_exists, clean: !no_clean })
}

/// The indices of the output entries that cleaning removes, in order: all but
/// the reusable `assets` folder.
pub open spec fn removable_entries(names: Seq<Seq<char>>) -> Seq<int>
    decreases names.len(),
{
    if names.len() == 0 {
        seq![]
    } else if names.last() == "assets"@ {
        removable_entries(names.drop_last())
    } else {
        removable_entries(names.drop_last()).push(names.len() - 1)
    }
}

/// Cleaning law: cleaning the output folder removes every entry but the
/// reusable `assets` folder, each once, in order.
pub proof fn law_clean_keeps_assets(names: Seq<Seq<char>>)
    ensures
        forall|k: int|
            0 <= k < removable_entries(names).len() ==> {
                let j = #[trigger] removable_entries(names)[k];
                0 <= j < names.len() && names[j] != "assets"@
            },
        forall|i: int|
            0 <= i < names.len() && names[i] != "assets"@ ==> #[trigger] removable_entries(
                names,
            ).contains(i),
        forall|a: int, b: int|
            0 <= a < b < removable_entries(names).len() ==> #[trigger] removable_entries(names)[a]
                < #[trigger] removable_entries(names)[b],
    decreases names.len(),
{
    if names.len() > 0 {
        let init = names.drop_last();
        law_clean_keeps_assets(init);
        let r0 = removable_entries(init);
        let r = removable_entries(names);
        assert forall|i: int| 0 <= i < init.len() implies #[trigger] init[i] == names[i] by {}
        if names.last() != "assets"@ {
            assert(r == r0.push(names.len() - 1));
            assert forall|i: int| 0 <= i < names.len() && names[i] != "assets"@ implies #[trigger] r.contains(i) by {
                if i < names.len() - 1 {
                    assert(init[i] == names[i]);
                    assert(r0.contains(i));
                    let k = choose|k: int| 0 <= k < r0.len() && r0[k] == i;
                    assert(r[k] == i);
                } else {
                    assert(r[r.len() - 1] == i);
                }
            }
        } else {
            assert(r == r0);
            assert forall|i: int| 0 <= i < names.len() && names[i] != "assets"@ implies #[trigger] r.contains(i) by {
                if i < names.len() - 1 {
                    assert(init[i] == names[i]);
                } else {
                    assert(names[i] == names.last());
                }
            }
        }
    }
}

/// Chooses, among the entries of the output directory, those that cleaning
/// removes: every entry but the one named `assets`.
pub fn output_entries_to_clean(names: &Vec<String>) -> (r: Vec<usize>)
    ensures
        r@.map_values(|i: usize| i as int) == removable_entries(string_views(names@)),
{
    let ghost sv = string_views(names@);
    let assets = chars_of("assets");
    let mut r: Vec<usize> = Vec::new();
    let mut i: usize = 0;
    while i < names.len()
        invariant
            0 <= i <= names.len(),
            sv == string_views(names@),
            assets@ == "assets"@,
            r@.map_values(|k: usize| k as int) == removable_entries(sv.take(i as int)),
        decreases names.len() - i,
    {
        assert(sv.take(i + 1).drop_last() == sv.take(i as int));
        assert(sv[i as int] == names@[i as int]@);
        let v = chars_of(names[i].as_str());
        if !crate::text::chars_eq(&v, &assets) {
            let ghost before = r@;
            r.push(i);
            assert(r@.map_values(|k: usize| k as int) == before.map_values(|k: usize| k as int).push(
                i as int,
            ));
        }
        i += 1;
    }
    assert(sv.take(names.len() as int) == sv);
    r
}

// ---------------------------------------------------------------------------
// The numbering law
// ---------------------------------------------------------------------------

/// Leading zeros do not change the value of a numeral.
proof fn lemma_zeros_value(z: nat, s: Seq<char>)
    ensures
        digits_value(Seq::new(z, |i: int| '0') + s) == digits_value(s),
    decreases s.len(), z,
{
    let zs = Seq::new(z, |i: int| '0');
    if s.len() == 0 {
        assert(zs + s == zs);
        if z > 0 {
            assert(zs.drop_last() == Seq::new((z - 1) as nat, |i: int| '0'));
            lemma_zeros_value((z - 1) as nat, s);
            assert(Seq::new((z - 1) as nat, |i: int| '0') + s == Seq::new(
                (z - 1) as nat,
                |i: int| '0',
            ));
        }
    } else {
        assert((zs + s).drop_last() == zs + s.drop_last());
        lemma_zeros_value(z, s.drop_last());
    }
}

/// The digits at the start of `t + rest`, where `t` is all digits and `rest`
/// does not start with one, are `t`.
proof fn lemma_digit_run_prefix(t: Seq<char>, rest: Seq<char>, i: int)
    requires
        all_digits(t),
        0 <= i <= t.len(),
        rest.len() > 0,
        !is_digit(rest[0]),
    ensures
        digit_run(t + rest, i) == t.len(),
    decreases t.len() - i,
{
    let x = t + rest;
    if i < t.len() {
        assert(x[i] == t[i]);
        lemma_digit_run_prefix(t, rest, i + 1);
    } else {
        assert(x[i] == rest[0]);
    }
}

/// Numbering law: the number that an archive folder name starts with is the
/// sequence number it was formatted with, whatever the preferred name.
pub proof fn law_archive_number_roundtrip(preferred_name: Seq<char>, sequence: u32)
    ensures
        leading_number(archive_folder_name(preferred_name, sequence as nat)) == Some(sequence),
{
    let d = decimal(sequence as nat);
    lemma_decimal_value(sequence as nat);
    let t = zero_pad(d, 3);
    let rest = seq!['_'] + archive_label(preferred_name);
    if d.len() < 3 {
        let z = (3 - d.len()) as nat;
        lemma_zeros_value(z, d);
        assert(all_digits(t)) by {
            assert forall|i: int| 0 <= i < t.len() implies is_digit(#[trigger] t[i]) by {
                if i >= z {
                    assert(t[i] == d[i - z]);
                }
            }
        }
    }
    let x = archive_folder_name(preferred_name, sequence as nat);
    assert(x == t + rest);
    lemma_digit_run_prefix(t, rest, 0);
    assert(leading_digits(x) == t);
}


// ---------------------------------------------------------------------------
// The renumbering law
// ---------------------------------------------------------------------------

proof fn lemma_find_at(s: Seq<char>, c: char, i: int, from: int)
    requires
        0 <= from <= i < s.len(),
        s[i] == c,
        forall|j: int| from <= j < i ==> s[j] != c,
    ensures
        find_from(s, seq![c], from) == Some(i),
    decreases i - from,
{
    if from < i {
        assert(s.subrange(from, from + 1)[0] == s[from]);
        lemma_find_at(s, c, i, from + 1);
    } else {
        assert(s.subrange(i, i + 1) == seq![c]);
    }
}

proof fn lemma_trim_ascii(s: Seq<char>)
    requires
        all_ascii(s),
    ensures
        all_ascii(trim(s)),
{
    lemma_trim_start_ascii(s);
    lemma_trim_end_ascii(trim_start(s));
}

proof fn lemma_trim_start_ascii(s: Seq<char>)
    requires
        all_ascii(s),
    ensures
        all_ascii(trim_start(s)),
    decreases s.len(),
{
    if s.len() > 0 && crate::text::is_space(s[0]) {
        let t = s.drop_first();
        assert(all_ascii(t)) by {
            assert forall|i: int| 0 <= i < t.len() implies is_ascii_char(#[trigger] t[i]) by {
                assert(t[i] == s[i + 1]);
            }
        }
        lemma_trim_start_ascii(t);
    }
}

proof fn lemma_trim_end_ascii(s: Seq<char>)
    requires
        all_ascii(s),
    ensures
        all_ascii(trim_end(s)),
    decreases s.len(),
{
    if s.len() > 0 && crate::text::is_space(s.last()) {
        let t = s.drop_last();
        assert(all_ascii(t)) by {
            assert forall|i: int| 0 <= i < t.len() implies is_ascii_char(#[trigger] t[i]) by {
                assert(t[i] == s[i]);
            }
        }
        lemma_trim_end_ascii(t);
    }
}

/// A label: ASCII letters, digits, `_` and `-` only.
pub open spec fn plain_label(s: Seq<char>) -> bool {
    forall|i: int|
        0 <= i < s.len() ==> crate::text::is_ascii_alnum(#[trigger] s[i]) || s[i] == '_' || s[i]
            == '-'
}

proof fn lemma_plain_trim(s: Seq<char>)
    requires
        plain_label(s),
    ensures
        trim(s) == s,
{
    if s.len() > 0 {
        assert(!crate::text::is_space(s[0]));
        assert(!crate::text::is_space(s[s.len() - 1]));
        assert(s.last() == s[s.len() - 1]);
    }
    assert(trim_start(s) == s);
}

/// The label of an ASCII name is plain.
proof fn lemma_label_plain(p: Seq<char>)
    requires
        all_ascii(p),
    ensures
        plain_label(archive_label(p)),
        archive_label(p).len() > 0,
{
    let clean = archive_clean_name(p);
    assert(all_ascii(clean)) by {
        match find(p, seq!['_']) {
            Some(idx) => {
                lemma_find_from(p, seq!['_'], 0);
                let t = p.skip(idx + 1);
                assert(all_ascii(t)) by {
                    assert forall|i: int| 0 <= i < t.len() implies is_ascii_char(#[trigger] t[i]) by {
                        assert(t[i] == p[i + idx + 1]);
                    }
                }
                lemma_trim_ascii(t);
                lemma_trim_ascii(p);
            },
            None => {
                lemma_trim_ascii(p);
            },
        }
    }
    let m = clean.map_values(|c: char| folder_char(c));
    if m.len() == 0 {
        reveal_strlit("Archive");
    } else {
        assert forall|i: int| 0 <= i < m.len() implies crate::text::is_ascii_alnum(#[trigger] m[i])
            || m[i] == '_' || m[i] == '-' by {
            assert(is_ascii_char(clean[i]));
        }
    }
}

/// Renumbering law: formatting an archive folder name again, as the name
/// given to the archive command, changes only its number; no folder gets
/// two numbers. (Stated for ASCII names.)
pub proof fn law_archive_renumber(preferred_name: Seq<char>, first: u32, second: u32)
    requires
        all_ascii(preferred_name),
    ensures
        archive_folder_name(archive_folder_name(preferred_name, first as nat), second as nat)
            == archive_folder_name(preferred_name, second as nat),
{
    let label = archive_label(preferred_name);
    lemma_label_plain(preferred_name);
    let d = decimal(first as nat);
    lemma_decimal_value(first as nat);
    let z = zero_pad(d, 3);
    assert(all_digits(z) && z.len() > 0) by {
        if d.len() < 3 {
            let n = (3 - d.len()) as nat;
            assert forall|i: int| 0 <= i < z.len() implies is_digit(#[trigger] z[i]) by {
                if i >= n {
                    assert(z[i] == d[i - n]);
                }
            }
        }
    }
    let name = archive_folder_name(preferred_name, first as nat);
    assert(name == z + seq!['_'] + label);
    let k = z.len() as int;
    assert(name[k] == '_');
    assert forall|j: int| 0 <= j < k implies name[j] != '_' by {
        assert(name[j] == z[j]);
        assert(is_digit(z[j]));
    }
    lemma_find_at(name, '_', k, 0);
    assert(name.take(k) == z);
    assert(name.skip(k + 1) == label);
    lemma_plain_trim(label);
    assert(archive_clean_name(name) == label);
    let m = label.map_values(|c: char| folder_char(c));
    assert(m == label) by {
        assert forall|i: int| 0 <= i < label.len() implies m[i] == label[i] by {
            assert(crate::text::is_ascii_alnum(label[i]) || label[i] == '_' || label[i] == '-');
            if crate::text::is_ascii_alnum(label[i]) {
                assert(is_ascii_char(label[i]));
            }
        }
    }
    assert(archive_label(name) == label);
}

} // verus!
