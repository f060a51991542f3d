//! Character-level helpers shared by the parsers of this crate.
//!
//! Parsers work on `Vec<char>`; the public functions take `&str` and hand
//! back `String`.

use vstd::prelude::*;

verus! {

broadcast use vstd::string::axiom_spec_iter;

/// The characters of `s`, in order.
pub fn chars_of(s: &str) -> (out: Vec<char>)
    ensures
        out@ == s@,
{
    let mut out: Vec<char> = Vec::new();
    for c in it: s.chars()
        invariant
            out@ == it.seq().take(it.index() as int),
            it.seq() == s@,
    {
        out.push(c);
    }
    out
}

/// The characters of `s`, in order.
pub fn chars_of_string(s: &String) -> (out: Vec<char>)
    ensures
        out@ == s@,
{
    chars_of(s.as_str())
}

/// Builds a `String` holding exactly the given characters
/// (`String::from_iter` over the characters).
#[verifier::external_body]
pub fn string_from_chars(chars: &Vec<char>) -> (s: String)
    ensures
        s@ == chars@,
{
    chars.iter().collect()
}

// ---------------------------------------------------------------------------
// Unicode character classes of std.
// ---------------------------------------------------------------------------
/// What `char::to_lowercase` yields for a character: a table-driven Unicode
/// mapping to one or more characters.
pub uninterp spec fn unicode_lowercase(c: char) -> Seq<char>;

/// Whether `char::is_alphanumeric` holds (Unicode Alphabetic or Numeric).
pub uninterp spec fn unicode_alphanumeric(c: char) -> bool;

/// `char::to_lowercase`, collected. The Unicode table behind it is named,
/// not restated; what std documents for ASCII characters is stated: an ASCII
/// letter maps to its ASCII lower-case letter and any other ASCII character
/// maps to itself.
#[verifier::external_body]
pub fn char_to_lowercase(c: char) -> (r: Vec<char>)
    ensures
        r@ == unicode_lowercase(c),
        (c as u32) < 128 ==> r@ == seq![ascii_lower(c)],
{
    c.to_lowercase().collect()
}

/// `char::is_alphanumeric`. For ASCII characters std documents exactly the
/// letters and digits; beyond ASCII the Unicode tables decide, which is left
/// to the name.
#[verifier::external_body]
pub fn char_is_alphanumeric(c: char) -> (r: bool)
    ensures
        r == unicode_alphanumeric(c),
        (c as u32) < 128 ==> (r == is_ascii_alphanumeric(c)),
{
    c.is_alphanumeric()
}

// ---------------------------------------------------------------------------
// ASCII classes, written out.
// ---------------------------------------------------------------------------
pub open spec fn is_ascii_upper(c: char) -> bool {
    'A' <= c && c <= 'Z'
}

pub open spec fn is_ascii_lower_letter(c: char) -> bool {
    'a' <= c && c <= 'z'
}

pub open spec fn is_ascii_digit(c: char) -> bool {
    '0' <= c && c <= '9'
}

pub open spec fn is_ascii_alphabetic(c: char) -> bool {
    is_ascii_upper(c) || is_ascii_lower_letter(c)
}

pub open spec fn is_ascii_alphanumeric(c: char) -> bool {
    is_ascii_alphabetic(c) || is_ascii_digit(c)
}

/// `char::to_ascii_lowercase`.
pub open spec fn ascii_lower(c: char) -> char {
    if is_ascii_upper(c) {
        ((c as u32) + 32) as char
    } else {
        c
    }
}

/// `char::to_ascii_uppercase`.
pub open spec fn ascii_upper(c: char) -> char {
    if is_ascii_lower_letter(c) {
        ((c as u32) - 32) as char
    } else {
        c
    }
}

/// `char::is_whitespace`: the Unicode White_Space property, which is this
/// fixed list of code points.
pub open spec fn is_whitespace(c: char) -> bool {
    let u = c as u32;
    (0x09 <= u && u <= 0x0d) || u == 0x20 || u == 0x85 || u == 0xa0 || u == 0x1680 || (0x2000
        <= u && u <= 0x200a) || u == 0x2028 || u == 0x2029 || u == 0x202f || u == 0x205f || u
        == 0x3000
}

pub fn char_is_whitespace(c: char) -> (r: bool)
    ensures
        r == is_whitespace(c),
{
    let u = c as u32;
    (0x09 <= u && u <= 0x0d) || u == 0x20 || u == 0x85 || u == 0xa0 || u == 0x1680 || (0x2000
        <= u && u <= 0x200a) || u == 0x2028 || u == 0x2029 || u == 0x202f || u == 0x205f || u
        == 0x3000
}

pub fn char_is_ascii_digit(c: char) -> (r: bool)
    ensures
        r == is_ascii_digit(c),
{
    '0' <= c && c <= '9'
}

pub fn char_is_ascii_alphabetic(c: char) -> (r: bool)
    ensures
        r == is_ascii_alphabetic(c),
{
    ('A' <= c && c <= 'Z') || ('a' <= c && c <= 'z')
}

pub fn char_to_ascii_lower(c: char) -> (r: char)
    ensures
        r == ascii_lower(c),
{
    if 'A' <= c && c <= 'Z' {
        let code: u32 = c as u32;
        ((code + 32) as u8) as char
    } else {
        c
    }
}

pub fn char_to_ascii_upper(c: char) -> (r: char)
    ensures
        r == ascii_upper(c),
{
    if 'a' <= c && c <= 'z' {
        let code: u32 = c as u32;
        ((code - 32) as u8) as char
    } else {
        c
    }
}

// ---------------------------------------------------------------------------
// Sequence helpers.
// ---------------------------------------------------------------------------
pub open spec fn lower_seq(s: Seq<char>) -> Seq<char> {
    s.map_values(|c: char| ascii_lower(c))
}

pub open spec fn upper_seq(s: Seq<char>) -> Seq<char> {
    s.map_values(|c: char| ascii_upper(c))
}

/// `str::eq_ignore_ascii_case`.
pub open spec fn eq_ignore_case(a: Seq<char>, b: Seq<char>) -> bool {
    lower_seq(a) == lower_seq(b)
}

pub open spec fn starts_with(s: Seq<char>, prefix: Seq<char>) -> bool {
    prefix.len() <= s.len() && s.subrange(0, prefix.len() as int) == prefix
}

pub open spec fn ends_with(s: Seq<char>, suffix: Seq<char>) -> bool {
    suffix.len() <= s.len() && s.subrange(s.len() - suffix.len(), s.len() as int) == suffix
}

/// `needle` occurs in `s` at position `i`.
pub open spec fn occurs_at(s: Seq<char>, needle: Seq<char>, i: int) -> bool {
    0 <= i && i + needle.len() <= s.len() && s.subrange(i, i + needle.len()) == needle
}

pub open spec fn contains_seq(s: Seq<char>, needle: Seq<char>) -> bool {
    exists|i: int| occurs_at(s, needle, i)
}

/// `str::trim_start`.
pub open spec fn trim_start(s: Seq<char>) -> Seq<char>
    decreases s.len(),
{
    if s.len() > 0 && is_whitespace(s[0]) {
        trim_start(s.drop_first())
    } else {
        s
    }
}

/// `str::trim_end`.
pub open spec fn trim_end(s: Seq<char>) -> Seq<char>
    decreases s.len(),
{
    if s.len() > 0 && is_whitespace(s.last()) {
        trim_end(s.drop_last())
    } else {
        s
    }
}

/// `str::trim`.
pub open spec fn trim(s: Seq<char>) -> Seq<char> {
    trim_end(trim_start(s))
}

pub fn chars_equal(a: &Vec<char>, b: &Vec<char>) -> (r: bool)
    ensures
        r == (a@ == b@),
{
    if a.len() != b.len() {
        return false;
    }
    let mut i: usize = 0;
    while i < a.len()
        invariant
            a.len() == b.len(),
            i <= a.len(),
            forall|j: int| 0 <= j < i ==> a@[j] == b@[j],
        decreases a.len() - i,
    {
        if a[i] != b[i] {
            return false;
        }
        i += 1;
    }
    assert(a@ =~= b@);
    true
}

/// Whether `v` spells exactly the literal `lit`.
pub fn is_lit(v: &Vec<char>, lit: &str) -> (r: bool)
    ensures
        r == (v@ == lit@),
{
    let l = chars_of(lit);
    chars_equal(v, &l)
}

/// Whether two strings hold the same characters.
pub fn str_eq(a: &str, b: &str) -> (r: bool)
    ensures
        r == (a@ == b@),
{
    let x = chars_of(a);
    let y = chars_of(b);
    chars_equal(&x, &y)
}

pub fn to_ascii_lowercase(v: &Vec<char>) -> (r: Vec<char>)
    ensures
        r@ == lower_seq(v@),
{
    let mut out: Vec<char> = Vec::new();
    let mut i: usize = 0;
    while i < v.len()
        invariant
            i <= v.len(),
            out@ == lower_seq(v@.take(i as int)),
        decreases v.len() - i,
    {
        let c = char_to_ascii_lower(v[i]);
        out.push(c);
        i += 1;
        assert(lower_seq(v@.take(i as int)) =~= lower_seq(v@.take(i - 1)).push(ascii_lower(
            v@[i - 1],
        )));
    }
    assert(v@.take(v.len() as int) =~= v@);
    out
}

pub fn to_ascii_uppercase(v: &Vec<char>) -> (r: Vec<char>)
    ensures
        r@ == upper_seq(v@),
{
    let mut out: Vec<char> = Vec::new();
    let mut i: usize = 0;
    while i < v.len()
        invariant
            i <= v.len(),
            out@ == upper_seq(v@.take(i as int)),
        decreases v.len() - i,
    {
        let c = char_to_ascii_upper(v[i]);
        out.push(c);
        i += 1;
        assert(upper_seq(v@.take(i as int)) =~= upper_seq(v@.take(i - 1)).push(ascii_upper(
            v@[i - 1],
        )));
    }
    assert(v@.take(v.len() as int) =~= v@);
    out
}

pub fn eq_ignore_ascii_case(a: &Vec<char>, b: &Vec<char>) -> (r: bool)
    ensures
        r == eq_ignore_case(a@, b@),
{
    let la = to_ascii_lowercase(a);
    let lb = to_ascii_lowercase(b);
    chars_equal(&la, &lb)
}

/// Whether `v` equals the literal `lit` ignoring ASCII case.
pub fn is_lit_ignore_case(v: &Vec<char>, lit: &str) -> (r: bool)
    ensures
        r == eq_ignore_case(v@, lit@),
{
    let l = chars_of(lit);
    eq_ignore_ascii_case(v, &l)
}

/// The characters `v[start..end]`.
pub fn sub_chars(v: &Vec<char>, start: usize, end: usize) -> (r: Vec<char>)
    requires
        start <= end <= v.len(),
    ensures
        r@ == v@.subrange(start as int, end as int),
{
    let mut out: Vec<char> = Vec::new();
    let mut i: usize = start;
    while i < end
        invariant
            start <= i <= end <= v.len(),
            out@ == v@.subrange(start as int, i as int),
        decreases end - i,
    {
        out.push(v[i]);
        i += 1;
        assert(out@ =~= v@.subrange(start as int, i as int));
    }
    out
}

/// Whether `needle` occurs in `s` at position `at`.
pub fn occurs_at_exec(s: &Vec<char>, needle: &Vec<char>, at: usize) -> (r: bool)
    ensures
        r == occurs_at(s@, needle@, at as int),
{
    if at > s.len() || needle.len() > s.len() - at {
        return false;
    }
    let mut i: usize = 0;
    while i < needle.len()
        invariant
            at + needle.len() <= s.len(),
            i <= needle.len(),
            forall|j: int| 0 <= j < i ==> s@[at + j] == needle@[j],
        decreases needle.len() - i,
    {
        if s[at + i] != needle[i] {
            assert(s@.subrange(at as int, at + needle.len())[i as int] != needle@[i as int]);
            return false;
        }
        i += 1;
    }
    assert(s@.subrange(at as int, at + needle.len()) =~= needle@);
    true
}

pub fn starts_with_exec(s: &Vec<char>, prefix: &Vec<char>) -> (r: bool)
    ensures
        r == starts_with(s@, prefix@),
{
    occurs_at_exec(s, prefix, 0)
}

pub fn starts_with_lit(s: &Vec<char>, prefix: &str) -> (r: bool)
    ensures
        r == starts_with(s@, prefix@),
{
    let p = chars_of(prefix);
    starts_with_exec(s, &p)
}

pub fn ends_with_lit(s: &Vec<char>, suffix: &str) -> (r: bool)
    ensures
        r == ends_with(s@, suffix@),
{
    let p = chars_of(suffix);
    if p.len() > s.len() {
        return false;
    }
    let r = occurs_at_exec(s, &p, s.len() - p.len());
    r
}

/// The first position at which `needle` occurs in `s`.
pub fn find_exec(s: &Vec<char>, needle: &Vec<char>) -> (r: Option<usize>)
    ensures
        match r {
            Some(i) => occurs_at(s@, needle@, i as int) && forall|j: int|
                0 <= j < i ==> !occurs_at(s@, needle@, j),
            None => !contains_seq(s@, needle@),
        },
{
    let mut i: usize = 0;
    loop
        invariant
            i <= s.len(),
            forall|j: int| 0 <= j < i ==> !occurs_at(s@, needle@, j),
        decreases s.len() - i,
    {
        if occurs_at_exec(s, needle, i) {
            return Some(i);
        }
        if i >= s.len() {
            assert forall|j: int| !occurs_at(s@, needle@, j) by {
                if 0 <= j && j < i {
                }
            }
            return None;
        }
        i += 1;
    }
}

pub fn contains_lit(s: &Vec<char>, needle: &str) -> (r: bool)
    ensures
        r == contains_seq(s@, needle@),
{
    let n = chars_of(needle);
    match find_exec(s, &n) {
        Some(_) => true,
        None => false,
    }
}

proof fn lemma_trim_start_suffix(s: Seq<char>)
    ensures
        exists|k: int| 0 <= k <= s.len() && trim_start(s) == s.subrange(k, s.len() as int),
    decreases s.len(),
{
    if s.len() > 0 && is_whitespace(s[0]) {
        lemma_trim_start_suffix(s.drop_first());
        let k = choose|k: int|
            0 <= k <= s.drop_first().len() && trim_start(s.drop_first())
                == s.drop_first().subrange(k, s.drop_first().len() as int);
        assert(s.drop_first().subrange(k, s.drop_first().len() as int) =~= s.subrange(
            k + 1,
            s.len() as int,
        ));
    } else {
        assert(s.subrange(0, s.len() as int) =~= s);
    }
}

/// `str::trim` on a character vector.
pub fn trim_chars(v: &Vec<char>) -> (r: Vec<char>)
    ensures
        r@ == trim(v@),
{
    let mut start: usize = 0;
    assert(v@.subrange(0, v.len() as int) =~= v@);
    while start < v.len() && char_is_whitespace(v[start])
        invariant
            start <= v.len(),
            trim_start(v@) == trim_start(v@.subrange(start as int, v.len() as int)),
        decreases v.len() - start,
    {
        assert(v@.subrange(start as int, v.len() as int).drop_first() =~= v@.subrange(
            start + 1,
            v.len() as int,
        ));
        start += 1;
    }
    let mut end: usize = v.len();
    assert(trim_start(v@) =~= v@.subrange(start as int, end as int));
    while end > start && char_is_whitespace(v[end - 1])
        invariant
            start <= end <= v.len(),
            trim_end(trim_start(v@)) == trim_end(v@.subrange(start as int, end as int)),
        decreases end - start,
    {
        assert(v@.subrange(start as int, end as int).drop_last() =~= v@.subrange(
            start as int,
            end - 1,
        ));
        end -= 1;
    }
    sub_chars(v, start, end)
}

// ---------------------------------------------------------------------------
// Attribute-name normalization.
// ---------------------------------------------------------------------------
/// The characters of `s`, each replaced by its Unicode lower-case mapping.
pub open spec fn lowercase_all(s: Seq<char>) -> Seq<char>
    decreases s.len(),
{
    if s.len() == 0 {
        Seq::empty()
    } else {
        lowercase_all(s.drop_last()) + unicode_lowercase(s.last())
    }
}

/// One step of the normalizer: the text so far and whether it ends in a
/// separator that was just written.
pub open spec fn normalize_step(state: (Seq<char>, bool), c: char) -> (Seq<char>, bool) {
    if unicode_alphanumeric(c) {
        (state.0.push(c), false)
    } else if !state.1 && state.0.len() > 0 {
        (state.0.push('_'), true)
    } else {
        state
    }
}

pub open spec fn normalize_fold(s: Seq<char>) -> (Seq<char>, bool)
    decreases s.len(),
{
    if s.len() == 0 {
        (Seq::empty(), false)
    } else {
        normalize_step(normalize_fold(s.drop_last()), s.last())
    }
}

pub open spec fn strip_trailing_underscores(s: Seq<char>) -> Seq<char>
    decreases s.len(),
{
    if s.len() > 0 && s.last() == '_' {
        strip_trailing_underscores(s.drop_last())
    } else {
        s
    }
}

/// The normalized form of an attribute name: lower-cased, runs of
/// characters that are not alphanumeric collapsed to one `_`, no leading or
/// trailing `_`.
pub open spec fn normalized_name(s: Seq<char>) -> Seq<char> {
    strip_trailing_underscores(normalize_fold(lowercase_all(s)).0)
}

proof fn lemma_lowercase_all_push(s: Seq<char>, c: char)
    ensures
        lowercase_all(s.push(c)) == lowercase_all(s) + unicode_lowercase(c),
{
    assert(s.push(c).drop_last() =~= s);
}

proof fn lemma_fold_push(s: Seq<char>, c: char)
    ensures
        normalize_fold(s.push(c)) == normalize_step(normalize_fold(s), c),
{
    assert(s.push(c).drop_last() =~= s);
}

/// The shape of a normalized name: only `_` and alphanumeric characters,
/// no `_` at either end, and no two `_` in a row.
pub open spec fn normalized_shape(n: Seq<char>) -> bool {
    &&& forall|i: int| 0 <= i < n.len() ==> #[trigger] n[i] == '_' || unicode_alphanumeric(n[i])
    &&& n.len() > 0 ==> n[0] != '_' && n.last() != '_'
    &&& forall|i: int| 0 <= i < n.len() - 1 ==> !(#[trigger] n[i] == '_' && n[i + 1] == '_')
}

/// Every alphanumeric character of `n` is its own lower-case mapping.
pub open spec fn lowercase_stable(n: Seq<char>) -> bool {
    forall|i: int| 0 <= i < n.len() && unicode_alphanumeric(#[trigger] n[i]) ==> unicode_lowercase(n[i]) == seq![n[i]]
}

/// What the normalizer builds before it strips trailing separators.
spec fn fold_shape(t: Seq<char>, sep: bool) -> bool {
    &&& forall|i: int| 0 <= i < t.len() ==> #[trigger] t[i] == '_' || unicode_alphanumeric(t[i])
    &&& t.len() > 0 ==> t[0] != '_'
    &&& sep == (t.len() > 0 && t.last() == '_')
    &&& forall|i: int| 0 <= i < t.len() - 1 ==> !(#[trigger] t[i] == '_' && t[i + 1] == '_')
}

proof fn lemma_fold_shape(s: Seq<char>)
    requires
        !unicode_alphanumeric('_'),
    ensures
        fold_shape(normalize_fold(s).0, normalize_fold(s).1),
    decreases s.len(),
{
    if s.len() > 0 {
        lemma_fold_shape(s.drop_last());
        let (t, sep) = normalize_fold(s.drop_last());
        let c = s.last();
        if unicode_alphanumeric(c) {
            let t2 = t.push(c);
            assert forall|i: int| 0 <= i < t2.len() - 1 implies !(#[trigger] t2[i] == '_' && t2[i + 1] == '_') by {
                if i + 1 == t.len() {
                    assert(t2[i + 1] == c);
                } else {
                    assert(t2[i] == t[i] && t2[i + 1] == t[i + 1]);
                }
            }
            assert forall|i: int| 0 <= i < t2.len() implies #[trigger] t2[i] == '_' || unicode_alphanumeric(t2[i]) by {
                if i < t.len() {
                    assert(t2[i] == t[i]);
                }
            }
        } else if !sep && t.len() > 0 {
            let t2 = t.push('_');
            assert forall|i: int| 0 <= i < t2.len() - 1 implies !(#[trigger] t2[i] == '_' && t2[i + 1] == '_') by {
                if i + 1 < t.len() {
                    assert(t2[i] == t[i] && t2[i + 1] == t[i + 1]);
                }
            }
            assert forall|i: int| 0 <= i < t2.len() implies #[trigger] t2[i] == '_' || unicode_alphanumeric(t2[i]) by {
                if i < t.len() {
                    assert(t2[i] == t[i]);
                }
            }
        }
    }
}

proof fn lemma_strip_shape(t: Seq<char>, sep: bool)
    requires
        fold_shape(t, sep),
    ensures
        normalized_shape(strip_trailing_underscores(t)),
    decreases t.len(),
{
    if t.len() > 0 && t.last() == '_' {
        let u = t.drop_last();
        assert forall|i: int| 0 <= i < u.len() - 1 implies !(#[trigger] u[i] == '_' && u[i + 1] == '_') by {
            assert(u[i] == t[i] && u[i + 1] == t[i + 1]);
        }
        assert forall|i: int| 0 <= i < u.len() implies #[trigger] u[i] == '_' || unicode_alphanumeric(u[i]) by {
            assert(u[i] == t[i]);
        }
        lemma_strip_shape(u, u.len() > 0 && u.last() == '_');
    }
}

proof fn lemma_lowercase_stable_all(n: Seq<char>)
    requires
        lowercase_stable(n),
        unicode_lowercase('_') == seq!['_'],
        forall|i: int| 0 <= i < n.len() ==> #[trigger] n[i] == '_' || unicode_alphanumeric(n[i]),
    ensures
        lowercase_all(n) == n,
    decreases n.len(),
{
    if n.len() > 0 {
        let m = n.drop_last();
        assert forall|i: int| 0 <= i < m.len() && unicode_alphanumeric(#[trigger] m[i]) implies unicode_lowercase(m[i]) == seq![m[i]] by {
            assert(m[i] == n[i]);
        }
        assert forall|i: int| 0 <= i < m.len() implies #[trigger] m[i] == '_' || unicode_alphanumeric(m[i]) by {
            assert(m[i] == n[i]);
        }
        lemma_lowercase_stable_all(m);
        assert(n[n.len() - 1] == '_' || unicode_alphanumeric(n[n.len() - 1]));
        assert(unicode_lowercase(n.last()) == seq![n.last()]);
        assert(m + seq![n.last()] =~= n);
    }
}

proof fn lemma_fold_shaped(n: Seq<char>, k: int)
    requires
        normalized_shape(n),
        !unicode_alphanumeric('_'),
        0 <= k <= n.len(),
    ensures
        normalize_fold(n.take(k)) == (n.take(k), k > 0 && n[k - 1] == '_'),
    decreases k,
{
    if k > 0 {
        lemma_fold_shaped(n, k - 1);
        assert(n.take(k).drop_last() =~= n.take(k - 1));
        assert(n.take(k).last() == n[k - 1]);
        let c = n[k - 1];
        if !unicode_alphanumeric(c) {
            assert(c == '_');
            if k == 1 {
                assert(n[0] != '_');
            } else {
                assert(!(n[k - 2] == '_' && n[k - 1] == '_'));
            }
        }
        assert(n.take(k - 1).push(c) =~= n.take(k));
    }
}

/// A normalized name normalizes to itself, given that its alphanumeric
/// characters are their own lower-case mappings.
proof fn lemma_normalized_idempotent(n: Seq<char>)
    requires
        normalized_shape(n),
        lowercase_stable(n),
        !unicode_alphanumeric('_'),
        unicode_lowercase('_') == seq!['_'],
    ensures
        normalized_name(n) == n,
{
    lemma_lowercase_stable_all(n);
    lemma_fold_shaped(n, n.len() as int);
    assert(n.take(n.len() as int) =~= n);
}

/// What std documents of `_`: not alphanumeric, and its own lower case.
fn underscore_facts()
    ensures
        !unicode_alphanumeric('_'),
        unicode_lowercase('_') == seq!['_'],
{
    let _ = char_is_alphanumeric('_');
    let lowered = char_to_lowercase('_');
    proof {
        assert(ascii_lower('_') == '_');
    }
}

/// Normalizes a column name or role for case-insensitive lookup: lower-cases
/// it, turns every run of characters that are not alphanumeric into a single
/// `_` and drops separators at either end.
pub fn normalize_attribute_name(value: &str) -> (r: String)
    ensures
        r@ == normalized_name(value@),
        normalized_shape(r@),
        lowercase_stable(r@) ==> normalized_name(r@) == r@,
{
    underscore_facts();
    let chars = chars_of(value);
    let mut normalized: Vec<char> = Vec::new();
    let mut previous_separator = false;
    let mut i: usize = 0;
    while i < chars.len()
        invariant
            i <= chars.len(),
            chars@ == value@,
            (normalized@, previous_separator) == normalize_fold(lowercase_all(
                chars@.take(i as int),
            )),
        decreases chars.len() - i,
    {
        let lowered = char_to_lowercase(chars[i]);
        let ghost before = lowercase_all(chars@.take(i as int));
        let mut j: usize = 0;
        while j < lowered.len()
            invariant
                j <= lowered.len(),
                lowered@ == unicode_lowercase(chars@[i as int]),
                (normalized@, previous_separator) == normalize_fold(before + lowered@.take(
                    j as int,
                )),
            decreases lowered.len() - j,
        {
            let character = lowered[j];
            proof {
                lemma_fold_push(before + lowered@.take(j as int), character);
                assert((before + lowered@.take(j as int)).push(character) =~= before
                    + lowered@.take(j + 1));
            }
            if char_is_alphanumeric(character) {
                normalized.push(character);
                previous_separator = false;
            } else if !previous_separator && normalized.len() > 0 {
                normalized.push('_');
                previous_separator = true;
            }
            j += 1;
        }
        proof {
            assert(lowered@.take(lowered.len() as int) =~= lowered@);
            assert(chars@.take(i + 1) =~= chars@.take(i as int).push(chars@[i as int]));
            lemma_lowercase_all_push(chars@.take(i as int), chars@[i as int]);
        }
        i += 1;
    }
    assert(chars@.take(chars.len() as int) =~= chars@);
    while normalized.len() > 0 && normalized[normalized.len() - 1] == '_'
        invariant
            strip_trailing_underscores(normalized@) == normalized_name(value@),
        decreases normalized.len(),
    {
        normalized.pop();
    }
    proof {
        lemma_fold_shape(lowercase_all(value@));
        let f = normalize_fold(lowercase_all(value@));
        lemma_strip_shape(f.0, f.1);
        if lowercase_stable(normalized@) {
            lemma_normalized_idempotent(normalized@);
        }
    }
    string_from_chars(&normalized)
}

/// Whether two texts are equal once both are normalized as attribute names.
pub fn normalized_value_eq(left: &str, right: &str) -> (r: bool)
    ensures
        r == (normalized_name(left@) == normalized_name(right@)),
{
    let l = normalize_attribute_name(left);
    let r = normalize_attribute_name(right);
    str_eq(l.as_str(), r.as_str())
}

// ---------------------------------------------------------------------------
// The order of strings: lexicographic by code point, which is the order of
// their UTF-8 bytes.
// ---------------------------------------------------------------------------

/// `a` sorts strictly before `b`.
pub open spec fn text_lt(a: Seq<char>, b: Seq<char>) -> bool
    decreases a.len(),
{
    if a.len() == 0 {
        b.len() > 0
    } else if b.len() == 0 {
        false
    } else if a[0] != b[0] {
        (a[0] as u32) < (b[0] as u32)
    } else {
        text_lt(a.drop_first(), b.drop_first())
    }
}

pub proof fn lemma_text_lt_irreflexive(a: Seq<char>)
    ensures
        !text_lt(a, a),
    decreases a.len(),
{
    if a.len() > 0 {
        lemma_text_lt_irreflexive(a.drop_first());
    }
}

pub proof fn lemma_text_lt_transitive(a: Seq<char>, b: Seq<char>, c: Seq<char>)
    requires
        text_lt(a, b),
        text_lt(b, c),
    ensures
        text_lt(a, c),
    decreases a.len(),
{
    if a.len() > 0 && b.len() > 0 && c.len() > 0 && a[0] == b[0] && b[0] == c[0] {
        lemma_text_lt_transitive(a.drop_first(), b.drop_first(), c.drop_first());
    }
}

pub proof fn lemma_text_lt_total(a: Seq<char>, b: Seq<char>)
    ensures
        a == b || text_lt(a, b) || text_lt(b, a),
    decreases a.len(),
{
    if a.len() > 0 && b.len() > 0 && a[0] == b[0] {
        lemma_text_lt_total(a.drop_first(), b.drop_first());
        if a.drop_first() == b.drop_first() {
            assert(a =~= seq![a[0]] + a.drop_first());
            assert(b =~= seq![b[0]] + b.drop_first());
        }
    } else if a.len() == 0 && b.len() == 0 {
        assert(a =~= b);
    } else if a.len() > 0 && b.len() > 0 {
        vstd::utf8::char_u32_cast(a[0], a[0] as u32);
        vstd::utf8::char_u32_cast(b[0], b[0] as u32);
    }
}

pub proof fn lemma_text_lt_asymmetric(a: Seq<char>, b: Seq<char>)
    requires
        text_lt(a, b),
    ensures
        !text_lt(b, a),
{
    if text_lt(b, a) {
        lemma_text_lt_transitive(a, b, a);
        lemma_text_lt_irreflexive(a);
    }
}

/// Whether `a` sorts strictly before `b`.
pub fn text_less(a: &Vec<char>, b: &Vec<char>) -> (r: bool)
    ensures
        r == text_lt(a@, b@),
{
    let mut i: usize = 0;
    proof {
        assert(a@.skip(0) =~= a@);
        assert(b@.skip(0) =~= b@);
    }
    while i < a.len() && i < b.len()
        invariant
            i <= a@.len(),
            i <= b@.len(),
            text_lt(a@, b@) == text_lt(a@.skip(i as int), b@.skip(i as int)),
        decreases a@.len() - i,
    {
        if a[i] != b[i] {
            proof {
                assert(a@.skip(i as int)[0] == a@[i as int]);
                assert(b@.skip(i as int)[0] == b@[i as int]);
            }
            return (a[i] as u32) < (b[i] as u32);
        }
        proof {
            assert(a@.skip(i as int).drop_first() =~= a@.skip(i + 1));
            assert(b@.skip(i as int).drop_first() =~= b@.skip(i + 1));
        }
        i += 1;
    }
    a.len() < b.len()
}

} // verus!
