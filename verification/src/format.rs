//! Decimal numbers in text, and trimming whitespace.

use vstd::prelude::*;
use vstd::string::StringExecFns;
use vstd::slice::slice_subrange;
use crate::chars::{chars_of, is_ws, is_ws_exec, push_char, string_from_chars};
use crate::toc::entities::{digits_from, digit_value};

verus! {

/// The decimal digit for a value below 10.
pub open spec fn digit_char(d: u64) -> char {
    ((d + 48) as u8) as char
}

/// The decimal representation of `n`, without leading zeros.
pub open spec fn decimal(n: u64) -> Seq<char>
    decreases n,
{
    if n < 10 { seq![digit_char(n)] } else { decimal(n / 10).push(digit_char(n % 10)) }
}

fn digits_of(n: u64) -> (r: Vec<char>)
    ensures r@ == decimal(n),
    decreases n,
{
    if n < 10 {
        vec![((n as u8) + 48) as char]
    } else {
        let mut v = digits_of(n / 10);
        v.push((((n % 10) as u8) + 48) as char);
        v
    }
}

/// Appends the decimal representation of `n` to `out`.
pub fn append_decimal(out: &mut String, n: u64)
    ensures final(out)@ == old(out)@ + decimal(n),
{
    let d = digits_of(n);
    let ghost start = out@;
    let mut i: usize = 0;
    while i < d.len()
        invariant
            i <= d.len(),
            out@ == start + d@.subrange(0, i as int),
        decreases d.len() - i,
    {
        push_char(out, d[i]);
        i = i + 1;
    }
    assert(d@.subrange(0, d.len() as int) =~= d@);
}

/// `u64::from_str` (and `u16`'s, with `max` its bound): an optional `+`, then
/// at least one decimal digit, with a value no greater than `max`.
pub open spec fn parse_decimal(d: Seq<char>, max: nat) -> Option<nat> {
    if d.len() == 0 || (d.len() == 1 && (d[0] == '+' || d[0] == '-')) {
        None
    } else {
        let start: int = if d[0] == '+' { 1 } else { 0 };
        match digits_from(d, start, 0, 10) {
            Some(v) => if v <= max { Some(v) } else { None },
            None => None,
        }
    }
}

proof fn lemma_digits_grow(d: Seq<char>, i: int, acc: nat)
    ensures digits_from(d, i, acc, 10) matches Some(v) ==> acc <= v,
    decreases d.len() - i,
{
    if !(i < 0 || i >= d.len()) {
        if let Some(v) = digit_value(d[i], 10) {
            lemma_digits_grow(d, i + 1, acc * 10 + v);
        }
    }
}

/// Parses a decimal number no greater than `max`, as `str::parse` does for
/// unsigned integers.
pub fn parse_decimal_exec(s: &str, max: u64) -> (r: Option<u64>)
    ensures
        match r {
            Some(v) => parse_decimal(s@, max as nat) == Some(v as nat),
            None => parse_decimal(s@, max as nat) is None,
        },
{
    let d = chars_of(s);
    if d.len() == 0 || (d.len() == 1 && (d[0] == '+' || d[0] == '-')) {
        return None;
    }
    let start: usize = if d[0] == '+' { 1 } else { 0 };
    let mut i = start;
    let mut acc: u64 = 0;
    while i < d.len()
        invariant
            start <= i <= d.len(),
            d@ == s@,
            d.len() > 0,
            !(d.len() == 1 && (d@[0] == '+' || d@[0] == '-')),
            start == (if d@[0] == '+' { 1usize } else { 0usize }),
            acc <= max,
            digits_from(d@, start as int, 0, 10) == digits_from(d@, i as int, acc as nat, 10),
        decreases d.len() - i,
    {
        let c = d[i];
        if !('0' <= c && c <= '9') {
            return None;
        }
        let v = (c as u64) - 48;
        if v > max {
            proof {
                assert(acc * 10 + v > max) by (nonlinear_arith) requires v > max, acc >= 0;
                lemma_digits_grow(d@, i + 1, (acc * 10 + v) as nat);
            }
            return None;
        }
        if acc > (max - v) / 10 {
            proof {
                assert(acc * 10 + v > max) by (nonlinear_arith)
                    requires acc > (max - v) / 10, v <= 9, v <= max;
                lemma_digits_grow(d@, i + 1, (acc * 10 + v) as nat);
            }
            return None;
        }
        proof {
            assert(acc * 10 + v <= max) by (nonlinear_arith)
                requires acc <= (max - v) / 10, v <= max;
        }
        acc = acc * 10 + v;
        i = i + 1;
    }
    Some(acc)
}

/// `n` in decimal with a narrow no-break space (U+202F) before each digit that
/// has a positive multiple of three digits after it, so that the count never
/// wraps mid-number.
pub open spec fn grouped_from(d: Seq<char>, i: int) -> Seq<char>
    decreases d.len() - i,
{
    if i < 0 || i >= d.len() {
        Seq::empty()
    } else {
        (if i > 0 && (d.len() - i) % 3 == 0 { seq!['\u{202f}', d[i]] } else { seq![d[i]] })
            + grouped_from(d, i + 1)
    }
}

pub open spec fn spec_thousands(n: u64) -> Seq<char> {
    grouped_from(decimal(n), 0)
}

/// A count with its thousands separated.
pub fn thousands(n: u64) -> (r: String)
    ensures r@ == spec_thousands(n),
{
    let d = digits_of(n);
    let mut out = String::new();
    let mut i: usize = 0;
    while i < d.len()
        invariant
            i <= d.len(),
            d@ == decimal(n),
            out@ + grouped_from(d@, i as int) == spec_thousands(n),
        decreases d.len() - i,
    {
        if i > 0 && (d.len() - i) % 3 == 0 {
            push_char(&mut out, '\u{202f}');
        }
        push_char(&mut out, d[i]);
        i = i + 1;
        assert(out@ + grouped_from(d@, i as int) =~= spec_thousands(n));
    }
    out
}

/// `s` without leading and trailing Unicode whitespace, as `str::trim` gives it.
pub open spec fn spec_trim(s: Seq<char>) -> Seq<char> {
    s.subrange(lead_end(s, 0), trail_start(s, s.len() as int))
}

/// First position at or after `i` that is not whitespace.
pub open spec fn lead_end(s: Seq<char>, i: int) -> int
    decreases s.len() - i,
{
    if i < 0 || i >= s.len() || !is_ws(s[i]) { i } else { lead_end(s, i + 1) }
}

/// The position just past the last non-whitespace character before `j`, or
/// the first non-whitespace position when everything before `j` is whitespace.
pub open spec fn trail_start(s: Seq<char>, j: int) -> int
    decreases j,
{
    if j <= 0 || j <= lead_end(s, 0) || j > s.len() || !is_ws(s[j - 1]) { j } else { trail_start(s, j - 1) }
}

proof fn lemma_lead_end(s: Seq<char>, i: int)
    requires 0 <= i <= s.len(),
    ensures i <= lead_end(s, i) <= s.len(),
    decreases s.len() - i,
{
    if i < s.len() && is_ws(s[i]) {
        lemma_lead_end(s, i + 1);
    }
}

proof fn lemma_trail_start(s: Seq<char>, j: int)
    requires 0 <= lead_end(s, 0) <= j <= s.len(),
    ensures lead_end(s, 0) <= trail_start(s, j) <= j,
    decreases j,
{
    if !(j <= 0 || j <= lead_end(s, 0) || !is_ws(s[j - 1])) {
        lemma_trail_start(s, j - 1);
    }
}

/// `s` without leading and trailing whitespace.
pub fn trim(s: &str) -> (r: String)
    ensures r@ == spec_trim(s@),
{
    let c = chars_of(s);
    let mut a: usize = 0;
    while a < c.len() && is_ws_exec(c[a])
        invariant a <= c.len(), c@ == s@, lead_end(c@, 0) == lead_end(c@, a as int),
        decreases c.len() - a,
    {
        a = a + 1;
    }
    proof {
        lemma_lead_end(c@, 0);
    }
    let mut b: usize = c.len();
    while b > a && is_ws_exec(c[b - 1])
        invariant
            a <= b <= c.len(),
            c@ == s@,
            a == lead_end(c@, 0),
            trail_start(c@, c.len() as int) == trail_start(c@, b as int),
        decreases b,
    {
        b = b - 1;
    }
    string_from_chars(slice_subrange(c.as_slice(), a, b))
}

proof fn lemma_digits_push(d: Seq<char>, i: int, acc: nat, c: char)
    requires
        0 <= i <= d.len(),
        digit_value(c, 10) is Some,
    ensures
        digits_from(d.push(c), i, acc, 10) == (match digits_from(d, i, acc, 10) {
            Some(v) => Some(v * 10 + digit_value(c, 10)->0),
            None => None::<nat>,
        }),
    decreases d.len() - i,
{
    if i < d.len() {
        assert(d.push(c)[i] == d[i]);
        if let Some(v) = digit_value(d[i], 10) {
            lemma_digits_push(d, i + 1, acc * 10 + v, c);
        }
    } else {
        assert(d.push(c)[i] == c);
        let v = digit_value(c, 10)->0;
        assert(digits_from(d.push(c), i + 1, acc * 10 + v, 10) == Some(acc * 10 + v));
    }
}

proof fn lemma_decimal_digits(n: u64)
    ensures
        decimal(n).len() > 0,
        decimal(n)[0] != '+' && decimal(n)[0] != '-',
        digits_from(decimal(n), 0, 0, 10) == Some(n as nat),
    decreases n,
{
    if n < 10 {
        assert(digit_value(digit_char(n), 10) == Some(n as nat));
        assert(digits_from(decimal(n), 1, n as nat, 10) == Some(n as nat));
    } else {
        lemma_decimal_digits(n / 10);
        let d = decimal(n / 10);
        let c = digit_char(n % 10);
        assert(digit_value(c, 10) == Some((n % 10) as nat));
        lemma_digits_push(d, 0, 0, c);
        assert(decimal(n)[0] == d[0]);
    }
}

/// Reading back the decimal representation of a number gives the number.
pub proof fn law_decimal_round_trip(n: u64, max: nat)
    requires n <= max,
    ensures parse_decimal(decimal(n), max) == Some(n as nat),
{
    lemma_decimal_digits(n);
}

/// `t` with the narrow no-break spaces taken out.
pub open spec fn without_separators(t: Seq<char>) -> Seq<char>
    decreases t.len(),
{
    if t.len() == 0 {
        t
    } else if t[0] == '\u{202f}' {
        without_separators(t.skip(1))
    } else {
        seq![t[0]] + without_separators(t.skip(1))
    }
}

proof fn lemma_without_separators_concat(a: Seq<char>, b: Seq<char>)
    ensures without_separators(a + b) == without_separators(a) + without_separators(b),
    decreases a.len(),
{
    if a.len() == 0 {
        assert(a + b =~= b);
        assert(without_separators(a) + without_separators(b) =~= without_separators(b));
    } else {
        assert((a + b).skip(1) =~= a.skip(1) + b);
        assert((a + b)[0] == a[0]);
        lemma_without_separators_concat(a.skip(1), b);
    }
}

proof fn lemma_grouped_digits(d: Seq<char>, i: int)
    requires
        0 <= i <= d.len(),
        forall|k: int| 0 <= k < d.len() ==> #[trigger] d[k] != '\u{202f}',
    ensures without_separators(grouped_from(d, i)) == d.skip(i),
    decreases d.len() - i,
{
    if i < d.len() {
        lemma_grouped_digits(d, i + 1);
        let head = if i > 0 && (d.len() - i) % 3 == 0 { seq!['\u{202f}', d[i]] } else { seq![d[i]] };
        lemma_without_separators_concat(head, grouped_from(d, i + 1));
        assert(d.skip(i) =~= seq![d[i]] + d.skip(i + 1));
        let c = d[i];
        assert(seq![c].skip(1) =~= Seq::<char>::empty());
        assert(without_separators(Seq::<char>::empty()) == Seq::<char>::empty());
        assert(without_separators(seq![c]) =~= seq![c]);
        if i > 0 && (d.len() - i) % 3 == 0 {
            assert(seq!['\u{202f}', c].skip(1) =~= seq![c]);
            assert(without_separators(head) == without_separators(seq![c]));
        }
    } else {
        assert(d.skip(i) =~= Seq::<char>::empty());
    }
}

proof fn lemma_decimal_is_digits(n: u64)
    ensures forall|k: int| 0 <= k < decimal(n).len() ==> '0' <= #[trigger] decimal(n)[k] <= '9',
    decreases n,
{
    if n >= 10 {
        lemma_decimal_is_digits(n / 10);
        let d = decimal(n / 10);
        assert forall|k: int| 0 <= k < decimal(n).len() implies '0' <= #[trigger] decimal(n)[k] <= '9' by {
            if k < d.len() {
                assert(decimal(n)[k] == d[k]);
            }
        }
    }
}

/// Separators are inserted, never substituted: taking them out of a grouped
/// count gives its plain decimal digits.
pub proof fn law_grouping_keeps_the_digits(n: u64)
    ensures without_separators(spec_thousands(n)) == decimal(n),
{
    lemma_decimal_is_digits(n);
    lemma_grouped_digits(decimal(n), 0);
    assert(decimal(n).skip(0) =~= decimal(n));
}

/// How many narrow no-break spaces `t` holds.
pub open spec fn separator_count(t: Seq<char>) -> nat
    decreases t.len(),
{
    if t.len() == 0 {
        0
    } else {
        (if t[0] == '\u{202f}' { 1nat } else { 0nat }) + separator_count(t.skip(1))
    }
}

proof fn lemma_separator_count_concat(a: Seq<char>, b: Seq<char>)
    ensures separator_count(a + b) == separator_count(a) + separator_count(b),
    decreases a.len(),
{
    if a.len() == 0 {
        assert(a + b =~= b);
    } else {
        assert((a + b).skip(1) =~= a.skip(1) + b);
        assert((a + b)[0] == a[0]);
        lemma_separator_count_concat(a.skip(1), b);
    }
}

proof fn lemma_grouped_separators(d: Seq<char>, i: int)
    requires
        1 <= i <= d.len(),
        forall|k: int| 0 <= k < d.len() ==> #[trigger] d[k] != '\u{202f}',
    ensures separator_count(grouped_from(d, i)) == (d.len() - i) / 3,
    decreases d.len() - i,
{
    if i < d.len() {
        lemma_grouped_separators(d, i + 1);
        let c = d[i];
        let head = if (d.len() - i) % 3 == 0 { seq!['\u{202f}', c] } else { seq![c] };
        lemma_separator_count_concat(head, grouped_from(d, i + 1));
        assert(seq![c].skip(1) =~= Seq::<char>::empty());
        assert(separator_count(Seq::<char>::empty()) == 0);
        assert(c != '\u{202f}');
        assert(separator_count(seq![c]) == 0);
        if (d.len() - i) % 3 == 0 {
            assert(seq!['\u{202f}', c].skip(1) =~= seq![c]);
            assert(separator_count(head) == 1);
        }
    }
}

/// Every boundary between groups of three digits gets exactly one separator:
/// a count of `d` digits holds `(d - 1) / 3` of them.
pub proof fn law_one_separator_per_group(n: u64)
    ensures separator_count(spec_thousands(n)) == (decimal(n).len() - 1) / 3,
{
    lemma_decimal_is_digits(n);
    let d = decimal(n);
    lemma_decimal_len(n);
    lemma_grouped_separators(d, 1);
    let c = d[0];
    lemma_separator_count_concat(seq![c], grouped_from(d, 1));
    assert(seq![c].skip(1) =~= Seq::<char>::empty());
    assert(separator_count(Seq::<char>::empty()) == 0);
    assert('0' <= c <= '9');
    assert(separator_count(seq![c]) == 0);
    assert(grouped_from(d, 0) == seq![c] + grouped_from(d, 1));
}

proof fn lemma_decimal_len(n: u64)
    ensures decimal(n).len() >= 1,
    decreases n,
{
    if n >= 10 {
        lemma_decimal_len(n / 10);
    }
}

/// How many matches a find on page counts up to.
pub const MAX_MATCHES: u32 = 1000;

/// The match count shown beside the find bar: nothing for none, the bound
/// with a `+` once it is reached, and the count otherwise.
pub open spec fn spec_match_count_label(count: u32) -> Seq<char> {
    if count == 0 {
        Seq::empty()
    } else if count >= MAX_MATCHES {
        decimal(MAX_MATCHES as u64) + "+ matches"@
    } else if count == 1 {
        "1 match"@
    } else {
        decimal(count as u64) + " matches"@
    }
}

pub fn match_count_label(count: u32) -> (r: String)
    ensures r@ == spec_match_count_label(count),
{
    if count == 0 {
        let r = String::new();
        assert(r@ =~= Seq::<char>::empty());
        r
    } else if count >= MAX_MATCHES {
        let mut r = String::new();
        append_decimal(&mut r, MAX_MATCHES as u64);
        r.append("+ matches");
        r
    } else if count == 1 {
        String::from_str("1 match")
    } else {
        let mut r = String::new();
        append_decimal(&mut r, count as u64);
        r.append(" matches");
        r
    }
}

/// The line under an archive's title in the library: its entry count with
/// thousands separated, and whether it can be searched.
pub open spec fn spec_archive_subtitle(entry_count: u64, searchable: bool) -> Seq<char> {
    spec_thousands(entry_count) + " entries"@ + (if searchable { " · searchable"@ } else { Seq::empty() })
}

pub fn archive_subtitle(entry_count: u64, searchable: bool) -> (r: String)
    ensures r@ == spec_archive_subtitle(entry_count, searchable),
{
    let mut r = thousands(entry_count);
    r.append(" entries");
    if searchable {
        r.append(" · searchable");
    } else {
        assert(r@ + Seq::<char>::empty() =~= r@);
    }
    r
}

} // verus!
