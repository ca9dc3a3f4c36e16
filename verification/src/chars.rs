//! Character-level helpers shared by the scanners: ASCII case folding,
//! whitespace classes, searching, and conversions between `str` and `Vec<char>`.

use vstd::prelude::*;

verus! {

/// ASCII lowercase of a character; every other character is unchanged.
pub open spec fn lower(c: char) -> char {
    if 'A' <= c && c <= 'Z' { ((c as u32) + 32) as char } else { c }
}

pub fn ascii_lower(c: char) -> (r: char)
    ensures r == lower(c),
{
    if 'A' <= c && c <= 'Z' {
        ((c as u8) + 32) as char
    } else {
        c
    }
}

/// Builds a `String` holding exactly the given characters.
pub fn string_from_chars(v: &[char]) -> (r: String)
    ensures r@ == v@,
{
    let mut r = String::new();
    let mut i: usize = 0;
    while i < v.len()
        invariant
            i <= v.len(),
            r@ == v@.subrange(0, i as int),
        decreases v.len() - i,
    {
        push_char(&mut r, v[i]);
        i = i + 1;
    }
    r
}

/// `String::push`.
#[verifier::external_body]
pub(crate) fn push_char(s: &mut String, c: char)
    ensures final(s)@ == old(s)@.push(c),
{
    s.push(c)
}

/// `<str as PartialEq>::eq`: string slices are equal when their characters are.
#[verifier::external_body]
pub(crate) fn str_eq(a: &str, b: &str) -> (r: bool)
    ensures r == (a@ == b@),
{
    a == b
}

/// The characters of a string slice, in order.
pub fn chars_of(s: &str) -> (r: Vec<char>)
    ensures r@ == s@,
{
    let mut r: Vec<char> = Vec::new();
    for c in it: s.chars()
        invariant
            r@ == it.seq().subrange(0, it.index() as int),
    {
        r.push(c);
    }
    r
}

/// Equality of two character sequences up to ASCII case.
pub open spec fn eq_ci(a: Seq<char>, b: Seq<char>) -> bool {
    &&& a.len() == b.len()
    &&& forall|k: int| 0 <= k < a.len() ==> #[trigger] lower(a[k]) == lower(b[k])
}

/// `needle` occurs at position `i` of `s`, up to ASCII case.
pub open spec fn matches_ci_at(s: Seq<char>, i: int, needle: Seq<char>) -> bool {
    &&& 0 <= i
    &&& i + needle.len() <= s.len()
    &&& forall|k: int| 0 <= k < needle.len() ==> #[trigger] lower(s[i + k]) == lower(needle[k])
}

/// First position at or after `i` where a non-empty `needle` occurs up to ASCII case.
pub open spec fn find_ci(s: Seq<char>, i: int, needle: Seq<char>) -> Option<int>
    decreases s.len() - i,
{
    if needle.len() == 0 || i < 0 || i + needle.len() > s.len() {
        None
    } else if matches_ci_at(s, i, needle) {
        Some(i)
    } else {
        find_ci(s, i + 1, needle)
    }
}

/// First position at or after `i` holding `c`.
pub open spec fn find_char(s: Seq<char>, i: int, c: char) -> Option<int>
    decreases s.len() - i,
{
    if i < 0 || i >= s.len() {
        None
    } else if s[i] == c {
        Some(i)
    } else {
        find_char(s, i + 1, c)
    }
}

pub open spec fn opt_int(o: Option<usize>) -> Option<int> {
    match o {
        Some(v) => Some(v as int),
        None => None,
    }
}

pub proof fn lemma_find_ci_bounds(s: Seq<char>, i: int, needle: Seq<char>)
    ensures
        find_ci(s, i, needle) matches Some(j) ==> i <= j && j + needle.len() <= s.len()
            && matches_ci_at(s, j, needle),
    decreases s.len() - i,
{
    if !(needle.len() == 0 || i < 0 || i + needle.len() > s.len()) && !matches_ci_at(s, i, needle) {
        lemma_find_ci_bounds(s, i + 1, needle);
    }
}

pub proof fn lemma_find_char_bounds(s: Seq<char>, i: int, c: char)
    ensures
        find_char(s, i, c) matches Some(j) ==> i <= j < s.len() && s[j] == c,
    decreases s.len() - i,
{
    if !(i < 0 || i >= s.len()) && s[i] != c {
        lemma_find_char_bounds(s, i + 1, c);
    }
}

/// Whether `needle` occurs at `i` of `s` up to ASCII case.
pub fn starts_with_ci(s: &[char], i: usize, needle: &[char]) -> (r: bool)
    ensures r == matches_ci_at(s@, i as int, needle@),
{
    if i > s.len() || needle.len() > s.len() - i {
        return false;
    }
    let mut k: usize = 0;
    while k < needle.len()
        invariant
            i + needle.len() <= s.len(),
            k <= needle.len(),
            forall|m: int| 0 <= m < k ==> #[trigger] lower(s@[i + m]) == lower(needle@[m]),
        decreases needle.len() - k,
    {
        if ascii_lower(s[i + k]) != ascii_lower(needle[k]) {
            return false;
        }
        k = k + 1;
    }
    true
}

/// First position at or after `from` where `needle` occurs up to ASCII case.
pub fn find_ci_exec(s: &[char], from: usize, needle: &[char]) -> (r: Option<usize>)
    ensures opt_int(r) == find_ci(s@, from as int, needle@),
{
    if needle.len() == 0 {
        return None;
    }
    let mut i = from;
    while i <= s.len() && needle.len() <= s.len() - i
        invariant
            needle.len() > 0,
            from <= i,
            find_ci(s@, from as int, needle@) == find_ci(s@, i as int, needle@),
        decreases s.len() + 1 - i,
    {
        if starts_with_ci(s, i, needle) {
            return Some(i);
        }
        i = i + 1;
    }
    None
}

/// First position at or after `from` holding `c`.
pub fn find_char_exec(s: &[char], from: usize, c: char) -> (r: Option<usize>)
    ensures opt_int(r) == find_char(s@, from as int, c),
{
    let mut i = from;
    while i < s.len()
        invariant
            from <= i,
            find_char(s@, from as int, c) == find_char(s@, i as int, c),
        decreases s.len() - i,
    {
        if s[i] == c {
            return Some(i);
        }
        i = i + 1;
    }
    None
}

/// ASCII whitespace as `u8::is_ascii_whitespace` has it: space, tab, line feed,
/// form feed and carriage return.
pub open spec fn is_ascii_ws(c: char) -> bool {
    c == ' ' || c == '\t' || c == '\n' || c == '\x0C' || c == '\r'
}

pub fn is_ascii_ws_exec(c: char) -> (r: bool)
    ensures r == is_ascii_ws(c),
{
    c == ' ' || c == '\t' || c == '\n' || c == '\x0C' || c == '\r'
}

/// The Unicode `White_Space` property, which `char::is_whitespace` tests.
pub open spec fn is_ws(c: char) -> bool {
    let u = c as u32;
    (0x09 <= u && u <= 0x0D) || u == 0x20 || u == 0x85 || u == 0xA0 || u == 0x1680
        || (0x2000 <= u && u <= 0x200A) || u == 0x2028 || u == 0x2029 || u == 0x202F
        || u == 0x205F || u == 0x3000
}

pub fn is_ws_exec(c: char) -> (r: bool)
    ensures r == is_ws(c),
{
    let u = c as u32;
    (0x09 <= u && u <= 0x0D) || u == 0x20 || u == 0x85 || u == 0xA0 || u == 0x1680
        || (0x2000 <= u && u <= 0x200A) || u == 0x2028 || u == 0x2029 || u == 0x202F
        || u == 0x205F || u == 0x3000
}

/// Number of bytes in the UTF-8 encoding of `c`.
pub open spec fn utf8_width(c: char) -> nat {
    let u = c as u32;
    if u < 0x80 { 1 } else if u < 0x800 { 2 } else if u < 0x10000 { 3 } else { 4 }
}

pub fn utf8_width_exec(c: char) -> (r: usize)
    ensures r == utf8_width(c),
{
    let u = c as u32;
    if u < 0x80 { 1 } else if u < 0x800 { 2 } else if u < 0x10000 { 3 } else { 4 }
}

/// Number of bytes in the UTF-8 encoding of a character sequence.
pub open spec fn bytes_len(s: Seq<char>) -> nat
    decreases s.len(),
{
    if s.len() == 0 { 0 } else { bytes_len(s.drop_last()) + utf8_width(s.last()) }
}

} // verus!
