//! Tag-level scanning: where a tag ends, what it is called, where an element
//! closes, and the value of an attribute.

use vstd::prelude::*;
use vstd::slice::slice_subrange;
use crate::chars::{find_ci, find_ci_exec, lemma_find_ci_bounds, matches_ci_at, starts_with_ci, lower, ascii_lower, eq_ci, is_ascii_ws, is_ascii_ws_exec, opt_int, is_ws, is_ws_exec, utf8_width, utf8_width_exec, bytes_len};

verus! {

/// Position just past the `>` that closes a tag, scanning from `k` with the
/// given open quote; quoted attribute values may contain `>`.
pub open spec fn tag_end_from(s: Seq<char>, k: int, quote: Option<char>) -> Option<int>
    decreases s.len() - k,
{
    if k < 0 || k >= s.len() {
        None
    } else {
        let c = s[k];
        match quote {
            Some(q) => if c == q {
                tag_end_from(s, k + 1, None)
            } else {
                tag_end_from(s, k + 1, quote)
            },
            None => if c == '"' || c == '\'' {
                tag_end_from(s, k + 1, Some(c))
            } else if c == '>' {
                Some(k + 1)
            } else {
                tag_end_from(s, k + 1, None)
            },
        }
    }
}

/// Position just past the `>` closing the tag that starts at `start`.
pub open spec fn spec_tag_end(s: Seq<char>, start: int) -> Option<int> {
    tag_end_from(s, start, None)
}

pub proof fn lemma_tag_end_from_bounds(s: Seq<char>, k: int, quote: Option<char>)
    ensures
        tag_end_from(s, k, quote) matches Some(e) ==> k < e <= s.len() && s[e - 1] == '>',
    decreases s.len() - k,
{
    if !(k < 0 || k >= s.len()) {
        lemma_tag_end_from_bounds(s, k + 1, None);
        lemma_tag_end_from_bounds(s, k + 1, quote);
        lemma_tag_end_from_bounds(s, k + 1, Some(s[k]));
    }
}

pub proof fn lemma_tag_end_bounds(s: Seq<char>, start: int)
    ensures
        spec_tag_end(s, start) matches Some(e) ==> start < e <= s.len() && s[e - 1] == '>',
{
    lemma_tag_end_from_bounds(s, start, None);
}

/// The quote a tag scan that began at `start` is inside of just before
/// position `k`: a `"` or `'` outside a quoted run opens one, and the next
/// equal character closes it.
pub open spec fn quote_before(s: Seq<char>, start: int, k: int) -> Option<char>
    decreases k - start,
{
    if k <= start || k > s.len() {
        None
    } else {
        let c = s[k - 1];
        match quote_before(s, start, k - 1) {
            Some(q) => if c == q { None } else { Some(q) },
            None => if c == '"' || c == '\'' { Some(c) } else { None },
        }
    }
}

/// Position `k` holds a `>` outside any quoted run of a scan from `start`.
pub open spec fn closes_at(s: Seq<char>, start: int, k: int) -> bool {
    0 <= k < s.len() && s[k] == '>' && quote_before(s, start, k) is None
}

proof fn lemma_tag_end_from_first_close(s: Seq<char>, start: int, k: int)
    requires
        0 <= start <= k <= s.len(),
        forall|j: int| start <= j < k ==> !#[trigger] closes_at(s, start, j),
    ensures
        match tag_end_from(s, k, quote_before(s, start, k)) {
            Some(e) => start <= e - 1 < s.len() && closes_at(s, start, e - 1)
                && forall|j: int| start <= j < e - 1 ==> !#[trigger] closes_at(s, start, j),
            None => forall|j: int| start <= j < s.len() ==> !#[trigger] closes_at(s, start, j),
        },
    decreases s.len() - k,
{
    if k < s.len() {
        let q = quote_before(s, start, k);
        let c = s[k];
        assert(quote_before(s, start, k + 1) == (match q {
            Some(qc) => if c == qc { None } else { Some(qc) },
            None => if c == '"' || c == '\'' { Some(c) } else { None },
        }));
        if !(q is None && c == '>') {
            assert(!closes_at(s, start, k));
            assert forall|j: int| start <= j < k + 1 implies !#[trigger] closes_at(s, start, j) by {
                if j < k {
                    assert(!closes_at(s, start, j));
                }
            }
            lemma_tag_end_from_first_close(s, start, k + 1);
            assert(tag_end_from(s, k, q) == tag_end_from(s, k + 1, quote_before(s, start, k + 1)));
        } else {
            assert(closes_at(s, start, k));
        }
    }
}

/// A tag ends just past the first `>` that no quoted attribute value holds:
/// `spec_tag_end` gives the position after the least such `>` at or after
/// `start`, and `None` exactly when there is none.
pub proof fn law_tag_end_is_the_first_unquoted_close(s: Seq<char>, start: int)
    requires 0 <= start,
    ensures
        match spec_tag_end(s, start) {
            Some(e) => start <= e - 1 < s.len() && closes_at(s, start, e - 1)
                && forall|j: int| start <= j < e - 1 ==> !#[trigger] closes_at(s, start, j),
            None => forall|j: int| start <= j < s.len() ==> !#[trigger] closes_at(s, start, j),
        },
{
    if start <= s.len() {
        assert(quote_before(s, start, start) is None);
        lemma_tag_end_from_first_close(s, start, start);
    }
}

pub fn tag_end(s: &[char], start: usize) -> (r: Option<usize>)
    ensures
        opt_int(r) == spec_tag_end(s@, start as int),
        r matches Some(e) ==> start < e <= s.len() && s@[e - 1] == '>',
{
    proof { lemma_tag_end_bounds(s@, start as int); }
    let mut quote: Option<char> = None;
    let mut k = start;
    while k < s.len()
        invariant
            start <= k,
            spec_tag_end(s@, start as int) == tag_end_from(s@, k as int, quote),
        decreases s.len() - k,
    {
        let c = s[k];
        match quote {
            Some(q) => {
                if c == q {
                    quote = None;
                }
            },
            None => {
                if c == '"' || c == '\'' {
                    quote = Some(c);
                } else if c == '>' {
                    return Some(k + 1);
                }
            },
        }
        k = k + 1;
    }
    None
}

/// First position at or after `i` that is not Unicode whitespace.
pub open spec fn skip_ws_from(s: Seq<char>, i: int) -> int
    decreases s.len() - i,
{
    if i < 0 || i >= s.len() || !is_ws(s[i]) { i } else { skip_ws_from(s, i + 1) }
}

/// First position at or after `i` that ends an element name.
pub open spec fn name_end(s: Seq<char>, i: int) -> int
    decreases s.len() - i,
{
    if i < 0 || i >= s.len() || is_ws(s[i]) || s[i] == '>' || s[i] == '/' {
        i
    } else {
        name_end(s, i + 1)
    }
}

pub proof fn lemma_skip_ws_from(s: Seq<char>, i: int)
    requires 0 <= i <= s.len(),
    ensures i <= skip_ws_from(s, i) <= s.len(),
    decreases s.len() - i,
{
    if i < s.len() && is_ws(s[i]) {
        lemma_skip_ws_from(s, i + 1);
    }
}

pub proof fn lemma_name_end(s: Seq<char>, i: int)
    requires 0 <= i <= s.len(),
    ensures i <= name_end(s, i) <= s.len(),
    decreases s.len() - i,
{
    if !(i >= s.len() || is_ws(s[i]) || s[i] == '>' || s[i] == '/') {
        lemma_name_end(s, i + 1);
    }
}

/// Where the element name of a tag (opening or closing) lies within it.
pub open spec fn spec_tag_name(t: Seq<char>) -> Option<(int, int)> {
    let st: int = if t.len() >= 2 && t[0] == '<' && t[1] == '/' {
        2
    } else if t.len() >= 1 && t[0] == '<' {
        1
    } else {
        -1
    };
    if st < 0 {
        None
    } else {
        let a = skip_ws_from(t, st);
        let b = name_end(t, a);
        if b > a { Some((a, b)) } else { None }
    }
}

pub fn tag_name(t: &[char]) -> (r: Option<(usize, usize)>)
    ensures
        match r {
            Some((a, b)) => spec_tag_name(t@) == Some((a as int, b as int)) && 0 < a < b <= t.len(),
            None => spec_tag_name(t@) is None,
        },
{
    let st: usize = if t.len() >= 2 && t[0] == '<' && t[1] == '/' {
        2
    } else if t.len() >= 1 && t[0] == '<' {
        1
    } else {
        return None;
    };
    let mut a = st;
    while a < t.len() && is_ws_exec(t[a])
        invariant
            st <= a <= t.len(),
            skip_ws_from(t@, st as int) == skip_ws_from(t@, a as int),
        decreases t.len() - a,
    {
        a = a + 1;
    }
    let mut b = a;
    while b < t.len() && !is_ws_exec(t[b]) && t[b] != '>' && t[b] != '/'
        invariant
            a <= b <= t.len(),
            name_end(t@, a as int) == name_end(t@, b as int),
        decreases t.len() - b,
    {
        b = b + 1;
    }
    if b > a { Some((a, b)) } else { None }
}

/// Smallest position `p >= i` of `s` at which the UTF-8 length of the prefix,
/// counting `acc` bytes for `s[..i]`, reaches `target`; `s.len()` when none does.
pub open spec fn index_at_bytes(s: Seq<char>, i: int, acc: int, target: int) -> int
    decreases s.len() - i,
{
    if i < 0 || i >= s.len() || acc >= target {
        i
    } else {
        index_at_bytes(s, i + 1, acc + utf8_width(s[i]), target)
    }
}

pub proof fn lemma_index_at_bytes(s: Seq<char>, i: int, acc: int, target: int)
    requires 0 <= i <= s.len(),
    ensures i <= index_at_bytes(s, i, acc, target) <= s.len(),
    decreases s.len() - i,
{
    if !(i >= s.len() || acc >= target) {
        lemma_index_at_bytes(s, i + 1, acc + utf8_width(s[i]), target);
    }
}

/// Where the attribute text of a tag starts: the byte offset one past the
/// length of its name, as a character position. A byte offset that falls
/// inside a character is rounded up to the next character.
pub open spec fn attrs_start(t: Seq<char>, a: int, b: int) -> int {
    index_at_bytes(t, 0, 0, 1 + bytes_len(t.subrange(a, b)) as int)
}

/// The attribute text of a tag whose name lies at `a..b`: from `attrs_start`
/// up to, not including, its last character.
pub open spec fn tag_attrs(t: Seq<char>, a: int, b: int) -> Seq<char> {
    let p = attrs_start(t, a, b);
    let e = if t.len() == 0 { 0 } else { t.len() - 1 };
    if p <= e { t.subrange(p, e) } else { Seq::empty() }
}

pub fn tag_attrs_range(t: &[char], a: usize, b: usize) -> (r: (usize, usize))
    requires a <= b <= t.len(),
    ensures
        r.0 <= r.1 <= t.len(),
        t@.subrange(r.0 as int, r.1 as int) == tag_attrs(t@, a as int, b as int),
{
    let mut target: u128 = 1;
    let mut k = a;
    while k < b
        invariant
            a <= k <= b <= t.len(),
            target == 1 + bytes_len(t@.subrange(a as int, k as int)),
            target <= 1 + 4 * (k - a),
        decreases b - k,
    {
        proof {
            assert(t@.subrange(a as int, k + 1).drop_last() == t@.subrange(a as int, k as int));
        }
        target = target + utf8_width_exec(t[k]) as u128;
        k = k + 1;
    }
    let mut p: usize = 0;
    let mut acc: u128 = 0;
    while p < t.len() && acc < target
        invariant
            p <= t.len(),
            acc <= 4 * p,
            index_at_bytes(t@, 0, 0, target as int) == index_at_bytes(t@, p as int, acc as int, target as int),
        decreases t.len() - p,
    {
        acc = acc + utf8_width_exec(t[p]) as u128;
        p = p + 1;
    }
    let e = if t.len() == 0 { 0 } else { t.len() - 1 };
    if p <= e { (p, e) } else { (0, 0) }
}

/// First position at or after `i` that is not ASCII whitespace.
pub open spec fn skip_aws(a: Seq<char>, i: int) -> int
    decreases a.len() - i,
{
    if i < 0 || i >= a.len() || !is_ascii_ws(a[i]) { i } else { skip_aws(a, i + 1) }
}

/// First position at or after `i` that ends an attribute name.
pub open spec fn key_end(a: Seq<char>, i: int) -> int
    decreases a.len() - i,
{
    if i < 0 || i >= a.len() || a[i] == '=' || a[i] == '/' || a[i] == '>' || is_ascii_ws(a[i]) {
        i
    } else {
        key_end(a, i + 1)
    }
}

/// First position at or after `i` that ends an unquoted attribute value.
pub open spec fn unquoted_end(a: Seq<char>, i: int) -> int
    decreases a.len() - i,
{
    if i < 0 || i >= a.len() || is_ascii_ws(a[i]) || a[i] == '>' {
        i
    } else {
        unquoted_end(a, i + 1)
    }
}

/// First position at or after `i` holding `q`, or the end.
pub open spec fn quote_end(a: Seq<char>, i: int, q: char) -> int
    decreases a.len() - i,
{
    if i < 0 || i >= a.len() || a[i] == q { i } else { quote_end(a, i + 1, q) }
}

pub proof fn lemma_scans(a: Seq<char>, i: int, q: char)
    requires 0 <= i <= a.len(),
    ensures
        i <= skip_aws(a, i) <= a.len(),
        i <= key_end(a, i) <= a.len(),
        i <= unquoted_end(a, i) <= a.len(),
        i <= quote_end(a, i, q) <= a.len(),
    decreases a.len() - i,
{
    if i < a.len() {
        lemma_scans(a, i + 1, q);
    }
}

/// Where the value of the attribute `name` lies within a tag's attribute text,
/// scanning from `i`: the first attribute whose name matches up to ASCII case
/// and that has a value.
pub open spec fn attr_from(a: Seq<char>, i: int, name: Seq<char>) -> Option<(int, int)>
    decreases a.len() - i,
{
    if i < 0 || i >= a.len() {
        None
    } else {
        let j = skip_aws(a, i);
        let k = key_end(a, j);
        proof { lemma_scans(a, i, ' '); lemma_scans(a, j, ' '); }
        if k == j {
            if j < a.len() { attr_from(a, j + 1, name) } else { None }
        } else {
            let m = skip_aws(a, k);
            proof { lemma_scans(a, k, ' '); }
            if m >= a.len() || a[m] != '=' {
                attr_from(a, m, name)
            } else {
                let v = skip_aws(a, m + 1);
                proof { lemma_scans(a, m + 1, ' '); }
                let quoted = v < a.len() && (a[v] == '"' || a[v] == '\'');
                let vs = if quoted { v + 1 } else { v };
                let ve = if quoted { quote_end(a, v + 1, a[v]) } else { unquoted_end(a, v) };
                proof {
                    if quoted { lemma_scans(a, v + 1, a[v]); } else { lemma_scans(a, v, ' '); }
                }
                let next = if quoted { if ve < a.len() { ve + 1 } else { a.len() as int } } else { ve };
                if eq_ci(a.subrange(j, k), name) {
                    Some((vs, ve))
                } else {
                    attr_from(a, next, name)
                }
            }
        }
    }
}

/// The raw (undecoded) value of attribute `name` in attribute text `a`.
pub open spec fn spec_attr_range(a: Seq<char>, name: Seq<char>) -> Option<(int, int)> {
    attr_from(a, 0, name)
}

pub proof fn lemma_attr_from_bounds(a: Seq<char>, i: int, name: Seq<char>)
    ensures attr_from(a, i, name) matches Some((x, y)) ==> 0 <= x <= y <= a.len(),
    decreases a.len() - i,
{
    if !(i < 0 || i >= a.len()) {
        let j = skip_aws(a, i);
        let k = key_end(a, j);
        lemma_scans(a, i, ' ');
        lemma_scans(a, j, ' ');
        if k == j {
            if j < a.len() { lemma_attr_from_bounds(a, j + 1, name); }
        } else {
            let m = skip_aws(a, k);
            lemma_scans(a, k, ' ');
            if m >= a.len() || a[m] != '=' {
                lemma_attr_from_bounds(a, m, name);
            } else {
                let v = skip_aws(a, m + 1);
                lemma_scans(a, m + 1, ' ');
                let quoted = v < a.len() && (a[v] == '"' || a[v] == '\'');
                if quoted { lemma_scans(a, v + 1, a[v]); } else { lemma_scans(a, v, ' '); }
                let ve = if quoted { quote_end(a, v + 1, a[v]) } else { unquoted_end(a, v) };
                let next = if quoted { if ve < a.len() { ve + 1 } else { a.len() as int } } else { ve };
                lemma_attr_from_bounds(a, next, name);
            }
        }
    }
}

/// Equality up to ASCII case.
pub fn eq_ci_exec(a: &[char], b: &[char]) -> (r: bool)
    ensures r == eq_ci(a@, b@),
{
    if a.len() != b.len() {
        return false;
    }
    let mut k: usize = 0;
    while k < a.len()
        invariant
            a.len() == b.len(),
            k <= a.len(),
            forall|m: int| 0 <= m < k ==> #[trigger] lower(a@[m]) == lower(b@[m]),
        decreases a.len() - k,
    {
        if ascii_lower(a[k]) != ascii_lower(b[k]) {
            return false;
        }
        k = k + 1;
    }
    true
}

/// Where the raw value of attribute `name` lies within attribute text `a`.
pub fn attr_range(a: &[char], name: &[char]) -> (r: Option<(usize, usize)>)
    ensures
        match r {
            Some((x, y)) => spec_attr_range(a@, name@) == Some((x as int, y as int)) && x <= y <= a.len(),
            None => spec_attr_range(a@, name@) is None,
        },
{
    let mut i: usize = 0;
    while i < a.len()
        invariant
            spec_attr_range(a@, name@) == attr_from(a@, i as int, name@),
        decreases a.len() + 1 - i,
    {
        let mut j = i;
        while j < a.len() && is_ascii_ws_exec(a[j])
            invariant i <= j <= a.len(), skip_aws(a@, i as int) == skip_aws(a@, j as int),
            decreases a.len() - j,
        {
            j = j + 1;
        }
        let mut k = j;
        while k < a.len() && a[k] != '=' && a[k] != '/' && a[k] != '>' && !is_ascii_ws_exec(a[k])
            invariant j <= k <= a.len(), key_end(a@, j as int) == key_end(a@, k as int),
            decreases a.len() - k,
        {
            k = k + 1;
        }
        if k == j {
            if j >= a.len() {
                return None;
            }
            i = j + 1;
            continue;
        }
        let mut m = k;
        while m < a.len() && is_ascii_ws_exec(a[m])
            invariant k <= m <= a.len(), skip_aws(a@, k as int) == skip_aws(a@, m as int),
            decreases a.len() - m,
        {
            m = m + 1;
        }
        if m >= a.len() || a[m] != '=' {
            i = m;
            continue;
        }
        let mut v = m + 1;
        while v < a.len() && is_ascii_ws_exec(a[v])
            invariant m + 1 <= v <= a.len(), skip_aws(a@, m + 1) == skip_aws(a@, v as int),
            decreases a.len() - v,
        {
            v = v + 1;
        }
        let quoted = v < a.len() && (a[v] == '"' || a[v] == '\'');
        let vs;
        let ve;
        let next;
        if quoted {
            let q = a[v];
            let mut e = v + 1;
            while e < a.len() && a[e] != q
                invariant v + 1 <= e <= a.len(), quote_end(a@, v + 1, q) == quote_end(a@, e as int, q),
                decreases a.len() - e,
            {
                e = e + 1;
            }
            vs = v + 1;
            ve = e;
            next = if e < a.len() { e + 1 } else { a.len() };
        } else {
            let mut e = v;
            while e < a.len() && !is_ascii_ws_exec(a[e]) && a[e] != '>'
                invariant v <= e <= a.len(), unquoted_end(a@, v as int) == unquoted_end(a@, e as int),
                decreases a.len() - e,
            {
                e = e + 1;
            }
            vs = v;
            ve = e;
            next = e;
        }
        if eq_ci_exec(slice_subrange(a, j, k), name) {
            return Some((vs, ve));
        }
        i = next;
    }
    None
}

/// Where an element whose content starts at `i` ends: just past the close tag
/// that brings the count of open elements of its name from `depth` to zero.
/// Nested elements of the same name are counted; without a matching close tag
/// the element runs to the end.
pub open spec fn skip_from(s: Seq<char>, i: int, depth: nat, open: Seq<char>, close: Seq<char>) -> int
    decreases s.len() - i,
{
    if i < 0 || i >= s.len() {
        s.len() as int
    } else {
        proof {
            lemma_find_ci_bounds(s, i, open);
            lemma_find_ci_bounds(s, i, close);
        }
        match find_ci(s, i, close) {
            None => s.len() as int,
            Some(c) => {
                if find_ci(s, i, open) is Some && find_ci(s, i, open)->0 < c {
                    skip_from(s, find_ci(s, i, open)->0 + open.len(), depth + 1, open, close)
                } else {
                    proof { lemma_tag_end_bounds(s, c); }
                    let next = match spec_tag_end(s, c) {
                        Some(e) => e,
                        None => c + close.len(),
                    };
                    if depth <= 1 { next } else { skip_from(s, next, (depth - 1) as nat, open, close) }
                }
            },
        }
    }
}

/// Position just past the close tag matching an element named `name` whose
/// content begins at `from`.
pub open spec fn spec_skip_element(s: Seq<char>, from: int, name: Seq<char>) -> int {
    skip_from(s, from, 1, seq!['<'] + name, seq!['<', '/'] + name)
}

pub proof fn lemma_skip_from_bounds(s: Seq<char>, i: int, depth: nat, open: Seq<char>, close: Seq<char>)
    requires 0 <= i,
    ensures
        skip_from(s, i, depth, open, close) <= s.len(),
        i <= s.len() ==> i <= skip_from(s, i, depth, open, close),
    decreases s.len() - i,
{
    if !(i >= s.len()) {
        lemma_find_ci_bounds(s, i, open);
        lemma_find_ci_bounds(s, i, close);
        match find_ci(s, i, close) {
            None => {},
            Some(c) => {
                if find_ci(s, i, open) is Some && find_ci(s, i, open)->0 < c {
                    lemma_skip_from_bounds(s, find_ci(s, i, open)->0 + open.len(), depth + 1, open, close);
                } else {
                    lemma_tag_end_bounds(s, c);
                    let next = match spec_tag_end(s, c) {
                        Some(e) => e,
                        None => c + close.len(),
                    };
                    if depth > 1 {
                        lemma_skip_from_bounds(s, next, (depth - 1) as nat, open, close);
                    }
                }
            },
        }
    }
}

/// The characters of `prefix` followed by those of `name`.
pub fn prefixed(prefix: &[char], name: &[char]) -> (r: Vec<char>)
    ensures r@ == prefix@ + name@,
{
    let mut r: Vec<char> = Vec::new();
    let mut k: usize = 0;
    while k < prefix.len()
        invariant k <= prefix.len(), r@ == prefix@.subrange(0, k as int),
        decreases prefix.len() - k,
    {
        r.push(prefix[k]);
        k = k + 1;
    }
    k = 0;
    while k < name.len()
        invariant k <= name.len(), r@ == prefix@ + name@.subrange(0, k as int),
        decreases name.len() - k,
    {
        r.push(name[k]);
        k = k + 1;
    }
    r
}

/// Position just past the close tag matching an element named `name` whose
/// content begins at `from`.
pub fn skip_element(s: &[char], from: usize, name: &[char]) -> (r: usize)
    ensures
        r == spec_skip_element(s@, from as int, name@),
        r <= s.len(),
        from <= s.len() ==> from <= r,
{
    let open = prefixed(&['<'], name);
    let close = prefixed(&['<', '/'], name);
    assert(open@ == seq!['<'] + name@);
    assert(close@ == seq!['<', '/'] + name@);
    proof { lemma_skip_from_bounds(s@, from as int, 1, open@, close@); }
    let mut depth: usize = 1;
    let mut i = from;
    while i < s.len()
        invariant
            1 <= depth <= i + 1,
            from <= i,
            open@ == seq!['<'] + name@,
            close@ == seq!['<', '/'] + name@,
            spec_skip_element(s@, from as int, name@) == skip_from(s@, i as int, depth as nat, open@, close@),
        decreases s.len() - i,
    {
        let next_open = find_ci_exec(s, i, open.as_slice());
        let next_close = find_ci_exec(s, i, close.as_slice());
        proof {
            lemma_find_ci_bounds(s@, i as int, open@);
            lemma_find_ci_bounds(s@, i as int, close@);
        }
        match next_close {
            None => {
                return s.len();
            },
            Some(c) => {
                if next_open.is_some() && next_open.unwrap() < c {
                    let o = next_open.unwrap();
                    depth = depth + 1;
                    i = o + open.len();
                } else {
                    let next = match tag_end(s, c) {
                        Some(e) => e,
                        None => c + close.len(),
                    };
                    if depth <= 1 {
                        return next;
                    }
                    depth = depth - 1;
                    i = next;
                }
            },
        }
    }
    s.len()
}

/// Characters that may follow an element name in an opening tag.
pub open spec fn is_name_delim(c: char) -> bool {
    c == '>' || c == '/' || c == ' ' || c == '\t' || c == '\n' || c == '\r'
}

pub fn is_name_delim_exec(c: char) -> (r: bool)
    ensures r == is_name_delim(c),
{
    c == '>' || c == '/' || c == ' ' || c == '\t' || c == '\n' || c == '\r'
}

/// `Some(level)` when an `h1`–`h6` opening tag starts at `i`.
pub open spec fn spec_heading_level(s: Seq<char>, i: int) -> Option<u8> {
    if 0 <= i && i + 4 <= s.len() && s[i] == '<' && lower(s[i + 1]) == 'h' && '1' <= s[i + 2]
        && s[i + 2] <= '6' && is_name_delim(s[i + 3]) {
        Some(((s[i + 2] as u32) - 48) as u8)
    } else {
        None
    }
}

pub fn heading_level(s: &[char], i: usize) -> (r: Option<u8>)
    ensures
        r == spec_heading_level(s@, i as int),
        r matches Some(l) ==> 1 <= l <= 6,
{
    if i < s.len() && 4 <= s.len() - i && s[i] == '<' && ascii_lower(s[i + 1]) == 'h' && '1' <= s[i + 2]
        && s[i + 2] <= '6' && is_name_delim_exec(s[i + 3]) {
        Some(((s[i + 2] as u32) - 48) as u8)
    } else {
        None
    }
}

pub open spec fn script_name() -> Seq<char> {
    seq!['s', 'c', 'r', 'i', 'p', 't']
}

pub open spec fn style_name() -> Seq<char> {
    seq!['s', 't', 'y', 'l', 'e']
}

/// Whether an opening tag named `name` (up to ASCII case) starts at `i`.
pub open spec fn opens_element(s: Seq<char>, i: int, name: Seq<char>) -> bool {
    &&& 0 <= i < s.len()
    &&& s[i] == '<'
    &&& matches_ci_at(s, i + 1, name)
    &&& i + 1 + name.len() < s.len()
    &&& is_name_delim(s[i + 1 + name.len()])
}

/// The name of the raw-text element (`script` or `style`) whose opening tag
/// starts at `i`, if any.
pub open spec fn spec_opening_name(s: Seq<char>, i: int) -> Option<Seq<char>> {
    if opens_element(s, i, script_name()) {
        Some(script_name())
    } else if opens_element(s, i, style_name()) {
        Some(style_name())
    } else {
        None
    }
}

fn opens_element_exec(s: &[char], i: usize, name: &[char]) -> (r: bool)
    ensures r == opens_element(s@, i as int, name@),
{
    i < s.len() && s[i] == '<' && starts_with_ci(s, i + 1, name) && name.len() < s.len() - (i + 1)
        && is_name_delim_exec(s[i + 1 + name.len()])
}

pub fn opening_name(s: &[char], i: usize) -> (r: Option<Vec<char>>)
    ensures
        match r {
            Some(n) => spec_opening_name(s@, i as int) == Some(n@),
            None => spec_opening_name(s@, i as int) is None,
        },
{
    let script = vec!['s', 'c', 'r', 'i', 'p', 't'];
    let style = vec!['s', 't', 'y', 'l', 'e'];
    if opens_element_exec(s, i, script.as_slice()) {
        Some(script)
    } else if opens_element_exec(s, i, style.as_slice()) {
        Some(style)
    } else {
        None
    }
}

} // verus!
