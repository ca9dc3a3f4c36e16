//! The visible text of a heading and the anchor it can be scrolled to.

use vstd::prelude::*;
use vstd::slice::slice_subrange;
use crate::chars::{find_char, find_char_exec, find_ci, find_ci_exec, is_ws, is_ws_exec,
    lemma_find_char_bounds, lemma_find_ci_bounds, matches_ci_at, opt_int, starts_with_ci};
use crate::toc::entities::{decode_entities, slice_eq, spec_decode_entities};
use crate::toc::markup::{attr_range, lemma_skip_ws_from, lemma_skip_from_bounds, lemma_tag_end_bounds, skip_element,
    skip_ws_from, spec_attr_range, spec_skip_element, spec_tag_end, spec_tag_name, tag_attrs,
    tag_attrs_range, tag_end, tag_name};

verus! {

/// `s[i..]` with runs of whitespace collapsed to one space and trimmed at both
/// ends; `started` tells whether anything was emitted before `i`, `pending`
/// whether whitespace was seen since.
pub open spec fn collapse_from(s: Seq<char>, i: int, started: bool, pending: bool) -> Seq<char>
    decreases s.len() - i,
{
    if i < 0 || i >= s.len() {
        Seq::empty()
    } else if is_ws(s[i]) {
        collapse_from(s, i + 1, started, started)
    } else {
        (if pending { seq![' ', s[i]] } else { seq![s[i]] }) + collapse_from(s, i + 1, true, false)
    }
}

/// `s` with whitespace runs collapsed to one space and no leading or trailing
/// whitespace.
pub open spec fn spec_collapse_whitespace(s: Seq<char>) -> Seq<char> {
    collapse_from(s, 0, false, false)
}

/// Text whose only whitespace is single spaces between other characters.
pub open spec fn is_collapsed(t: Seq<char>) -> bool {
    &&& forall|k: int| 0 <= k < t.len() ==> #[trigger] t[k] == ' ' || !is_ws(t[k])
    &&& t.len() > 0 ==> t[0] != ' ' && t.last() != ' '
    &&& forall|k: int| 0 <= k < t.len() - 1 ==> !(#[trigger] t[k] == ' ' && t[k + 1] == ' ')
}

pub proof fn lemma_collapse_from(s: Seq<char>, i: int, started: bool, pending: bool)
    requires pending ==> started,
    ensures ({
        let r = collapse_from(s, i, started, pending);
        &&& forall|k: int| 0 <= k < r.len() ==> #[trigger] r[k] == ' ' || !is_ws(r[k])
        &&& r.len() > 0 ==> r.last() != ' '
        &&& r.len() > 0 && r[0] == ' ' ==> started
        &&& forall|k: int| 0 <= k < r.len() - 1 ==> !(#[trigger] r[k] == ' ' && r[k + 1] == ' ')
    }),
    decreases s.len() - i,
{
    if i < 0 || i >= s.len() {
    } else if is_ws(s[i]) {
        lemma_collapse_from(s, i + 1, started, started);
    } else {
        lemma_collapse_from(s, i + 1, true, false);
        let rest = collapse_from(s, i + 1, true, false);
        let head = if pending { seq![' ', s[i]] } else { seq![s[i]] };
        let r = head + rest;
        assert(is_ws(' '));
        assert forall|k: int| 0 <= k < r.len() implies #[trigger] r[k] == ' ' || !is_ws(r[k]) by {
            if k >= head.len() {
                assert(r[k] == rest[k - head.len()]);
            }
        }
        assert forall|k: int| 0 <= k < r.len() - 1 implies !(#[trigger] r[k] == ' ' && r[k + 1] == ' ') by {
            if k >= head.len() {
                assert(r[k] == rest[k - head.len()]);
                assert(r[k + 1] == rest[k + 1 - head.len()]);
            } else if k + 1 >= head.len() {
                assert(r[k] == s[i]);
            }
        }
        if rest.len() > 0 {
            assert(r.last() == rest.last());
        }
    }
}

pub fn collapse_whitespace(s: &[char]) -> (r: Vec<char>)
    ensures r@ == spec_collapse_whitespace(s@),
{
    let mut out: Vec<char> = Vec::new();
    let mut space = false;
    let mut i: usize = 0;
    while i < s.len()
        invariant
            i <= s.len(),
            out@ + collapse_from(s@, i as int, out.len() > 0, space) == spec_collapse_whitespace(s@),
        decreases s.len() - i,
    {
        let c = s[i];
        if is_ws_exec(c) {
            space = out.len() > 0;
        } else {
            if space {
                out.push(' ');
            }
            space = false;
            out.push(c);
        }
        i = i + 1;
        assert(out@ + collapse_from(s@, i as int, out.len() > 0, space) =~= spec_collapse_whitespace(s@));
    }
    out
}

/// First position at or after `i` that is Unicode whitespace, or the end.
pub open spec fn ws_end(s: Seq<char>, i: int) -> int
    decreases s.len() - i,
{
    if i < 0 || i >= s.len() || is_ws(s[i]) { i } else { ws_end(s, i + 1) }
}

pub proof fn lemma_ws_end(s: Seq<char>, i: int)
    requires 0 <= i <= s.len(),
    ensures i <= ws_end(s, i) <= s.len(),
    decreases s.len() - i,
{
    if i < s.len() && !is_ws(s[i]) {
        lemma_ws_end(s, i + 1);
    }
}

/// Classes that mark chrome rather than content. MediaWiki puts an `[edit]`
/// link inside the heading itself.
pub open spec fn is_chrome_class(w: Seq<char>) -> bool {
    w == seq!['m', 'w', '-', 'e', 'd', 'i', 't', 's', 'e', 'c', 't', 'i', 'o', 'n']
        || w == seq!['m', 'w', '-', 'j', 'u', 'm', 'p', '-', 'l', 'i', 'n', 'k']
        || w == seq!['n', 'o', 'p', 'r', 'i', 'n', 't']
        || w == seq!['m', 'w', '-', 'h', 'e', 'a', 'd', 'l', 'i', 'n', 'e', '-', 'a', 'n', 'c', 'h', 'o', 'r']
}

/// Whether a whitespace-separated word of `c[i..]` is a chrome class.
pub open spec fn chrome_from(c: Seq<char>, i: int) -> bool
    decreases c.len() - i,
{
    if i < 0 || i >= c.len() {
        false
    } else {
        let j = skip_ws_from(c, i);
        let k = ws_end(c, j);
        proof {
            lemma_skip_ws_from(c, i);
            lemma_ws_end(c, j);
        }
        if j >= c.len() || k <= i {
            false
        } else {
            is_chrome_class(c.subrange(j, k)) || chrome_from(c, k)
        }
    }
}

fn is_chrome_class_exec(w: &[char]) -> (r: bool)
    ensures r == is_chrome_class(w@),
{
    slice_eq(w, &['m', 'w', '-', 'e', 'd', 'i', 't', 's', 'e', 'c', 't', 'i', 'o', 'n'])
        || slice_eq(w, &['m', 'w', '-', 'j', 'u', 'm', 'p', '-', 'l', 'i', 'n', 'k'])
        || slice_eq(w, &['n', 'o', 'p', 'r', 'i', 'n', 't'])
        || slice_eq(w, &['m', 'w', '-', 'h', 'e', 'a', 'd', 'l', 'i', 'n', 'e', '-', 'a', 'n', 'c', 'h', 'o', 'r'])
}

fn has_chrome_class(c: &[char]) -> (r: bool)
    ensures r == chrome_from(c@, 0),
{
    let mut i: usize = 0;
    while i < c.len()
        invariant
            i <= c.len(),
            chrome_from(c@, 0) == chrome_from(c@, i as int),
        decreases c.len() - i,
    {
        let mut j = i;
        while j < c.len() && is_ws_exec(c[j])
            invariant i <= j <= c.len(), skip_ws_from(c@, i as int) == skip_ws_from(c@, j as int),
            decreases c.len() - j,
        {
            j = j + 1;
        }
        if j >= c.len() {
            return false;
        }
        let mut k = j;
        while k < c.len() && !is_ws_exec(c[k])
            invariant j <= k <= c.len(), ws_end(c@, j as int) == ws_end(c@, k as int),
            decreases c.len() - k,
        {
            k = k + 1;
        }
        if is_chrome_class_exec(slice_subrange(c, j, k)) {
            return true;
        }
        i = k;
    }
    false
}

/// The value of attribute `name` in attribute text `a`, references decoded.
pub open spec fn spec_attribute(a: Seq<char>, name: Seq<char>) -> Option<Seq<char>> {
    match spec_attr_range(a, name) {
        Some((x, y)) => Some(spec_decode_entities(a.subrange(x, y))),
        None => None,
    }
}

pub fn attribute(a: &[char], name: &[char]) -> (r: Option<Vec<char>>)
    ensures
        match r {
            Some(v) => spec_attribute(a@, name@) == Some(v@),
            None => spec_attribute(a@, name@) is None,
        },
{
    match attr_range(a, name) {
        Some((x, y)) => Some(decode_entities(slice_subrange(a, x, y))),
        None => None,
    }
}

pub open spec fn class_name() -> Seq<char> {
    seq!['c', 'l', 'a', 's', 's']
}

pub open spec fn id_name() -> Seq<char> {
    seq!['i', 'd']
}

/// Whether a tag marks chrome: it has a class attribute with a chrome class.
pub open spec fn spec_is_chrome(t: Seq<char>) -> bool {
    match spec_tag_name(t) {
        None => false,
        Some((a, b)) => match spec_attribute(tag_attrs(t, a, b), class_name()) {
            Some(cls) => chrome_from(cls, 0),
            None => false,
        },
    }
}

pub fn is_chrome(t: &[char]) -> (r: bool)
    ensures r == spec_is_chrome(t@),
{
    match tag_name(t) {
        None => false,
        Some((a, b)) => {
            let (x, y) = tag_attrs_range(t, a, b);
            match attribute(slice_subrange(t, x, y), &['c', 'l', 'a', 's', 's']) {
                Some(cls) => has_chrome_class(cls.as_slice()),
                None => false,
            }
        },
    }
}

/// Whether a tag is a closing tag.
pub open spec fn is_closing(t: Seq<char>) -> bool {
    t.len() >= 2 && t[0] == '<' && t[1] == '/'
}

/// The end of `s` with trailing whitespace removed.
pub open spec fn trim_end(s: Seq<char>) -> Seq<char>
    decreases s.len(),
{
    if s.len() > 0 && is_ws(s.last()) { trim_end(s.drop_last()) } else { s }
}

/// Whether a tag closes itself (`<br/>`).
pub open spec fn is_self_closing(t: Seq<char>) -> bool {
    let u = trim_end(t);
    u.len() >= 2 && u[u.len() - 2] == '/' && u[u.len() - 1] == '>'
}

/// The raw text of `s[i..]`: markup removed, comments and chrome elements
/// dropped whole. Stops at a tag that is never closed.
pub open spec fn raw_text_from(s: Seq<char>, i: int) -> Seq<char>
    decreases s.len() - i,
{
    if i < 0 || i >= s.len() {
        Seq::empty()
    } else if s[i] != '<' {
        proof { lemma_find_char_bounds(s, i, '<'); }
        let k = match find_char(s, i, '<') { Some(k) => k, None => s.len() as int };
        s.subrange(i, k) + raw_text_from(s, k)
    } else if matches_ci_at(s, i, seq!['<', '!', '-', '-']) {
        proof { lemma_find_ci_bounds(s, i + 4, seq!['-', '-', '>']); }
        let next = match find_ci(s, i + 4, seq!['-', '-', '>']) {
            Some(e) => e + 3,
            None => s.len() as int,
        };
        raw_text_from(s, next)
    } else {
        proof { lemma_tag_end_bounds(s, i); }
        match spec_tag_end(s, i) {
            None => Seq::empty(),
            Some(oe) => {
                let t = s.subrange(i, oe);
                match spec_tag_name(t) {
                    Some((a, b)) => {
                        if !is_closing(t) && !is_self_closing(t) && spec_is_chrome(t) {
                            let next = spec_skip_element(s, oe, t.subrange(a, b));
                            proof {
                                lemma_skip_from_bounds(s, oe, 1, seq!['<'] + t.subrange(a, b),
                                    seq!['<', '/'] + t.subrange(a, b));
                            }
                            if next > i { raw_text_from(s, next) } else { Seq::empty() }
                        } else {
                            raw_text_from(s, oe)
                        }
                    },
                    None => raw_text_from(s, oe),
                }
            },
        }
    }
}

/// Visible text of a fragment: tags removed, chrome elements dropped whole,
/// references decoded and whitespace collapsed.
pub open spec fn spec_text_of(s: Seq<char>) -> Seq<char> {
    spec_collapse_whitespace(spec_decode_entities(raw_text_from(s, 0)))
}

proof fn lemma_trim_end_ends_in_close(s: Seq<char>)
    requires s.len() >= 1, s.last() == '>',
    ensures trim_end(s) == s,
{
}

fn is_self_closing_exec(t: &[char]) -> (r: bool)
    requires t.len() >= 1, t@.last() == '>',
    ensures r == is_self_closing(t@),
{
    proof { lemma_trim_end_ends_in_close(t@); }
    t.len() >= 2 && t[t.len() - 2] == '/' && t[t.len() - 1] == '>'
}

fn is_closing_exec(t: &[char]) -> (r: bool)
    ensures r == is_closing(t@),
{
    t.len() >= 2 && t[0] == '<' && t[1] == '/'
}

/// Visible text of a fragment.
pub fn text_of(s: &[char]) -> (r: Vec<char>)
    ensures r@ == spec_text_of(s@),
{
    let mut raw: Vec<char> = Vec::new();
    let mut i: usize = 0;
    while i < s.len()
        invariant
            i <= s.len(),
            raw@ + raw_text_from(s@, i as int) == raw_text_from(s@, 0),
        ensures
            raw@ == raw_text_from(s@, 0),
        decreases s.len() - i,
    {
        if s[i] != '<' {
            let ghost before = raw@;
            let start = i;
            while i < s.len() && s[i] != '<'
                invariant
                    start <= i <= s.len(),
                    raw@ == before + s@.subrange(start as int, i as int),
                    find_char(s@, start as int, '<') == find_char(s@, i as int, '<'),
                decreases s.len() - i,
            {
                raw.push(s[i]);
                i = i + 1;
            }
            proof { lemma_find_char_bounds(s@, start as int, '<'); }
            assert(raw@ + raw_text_from(s@, i as int) =~= raw_text_from(s@, 0));
            continue;
        }
        if starts_with_ci(s, i, &['<', '!', '-', '-']) {
            proof { lemma_find_ci_bounds(s@, i + 4, seq!['-', '-', '>']); }
            i = match find_ci_exec(s, i + 4, &['-', '-', '>']) {
                Some(e) => e + 3,
                None => s.len(),
            };
            continue;
        }
        let open_end = match tag_end(s, i) {
            Some(e) => e,
            None => {
                assert(raw@ =~= raw@ + Seq::<char>::empty());
                break;
            },
        };
        let t = slice_subrange(s, i, open_end);
        match tag_name(t) {
            Some((a, b)) => {
                if !is_closing_exec(t) && !is_self_closing_exec(t) && is_chrome(t) {
                    let next = skip_element(s, open_end, slice_subrange(t, a, b));
                    assert(next > i);
                    i = next;
                    continue;
                }
            },
            None => {},
        }
        i = open_end;
    }
    let decoded = decode_entities(raw.as_slice());
    collapse_whitespace(decoded.as_slice())
}

/// The first non-empty `id` on a non-chrome, non-closing tag of `s[i..]`.
pub open spec fn first_id_from(s: Seq<char>, i: int) -> Option<Seq<char>>
    decreases s.len() - i,
{
    if i < 0 || i > s.len() {
        None
    } else {
        proof { lemma_find_char_bounds(s, i, '<'); }
        match find_char(s, i, '<') {
            None => None,
            Some(st) => {
                proof { lemma_tag_end_bounds(s, st); }
                match spec_tag_end(s, st) {
                    None => None,
                    Some(e) => {
                        let t = s.subrange(st, e);
                        if !is_closing(t) && !spec_is_chrome(t) {
                            let (a, b) = match spec_tag_name(t) {
                                Some(r) => r,
                                None => (0, 0),
                            };
                            match spec_attribute(tag_attrs(t, a, b), id_name()) {
                                Some(id) => if id.len() > 0 { Some(id) } else { first_id_from(s, e) },
                                None => first_id_from(s, e),
                            }
                        } else {
                            first_id_from(s, e)
                        }
                    },
                }
            },
        }
    }
}

/// First `id` on any non-chrome element inside a fragment.
pub open spec fn spec_first_id(s: Seq<char>) -> Option<Seq<char>> {
    first_id_from(s, 0)
}

pub fn first_id(s: &[char]) -> (r: Option<Vec<char>>)
    ensures
        match r {
            Some(v) => spec_first_id(s@) == Some(v@),
            None => spec_first_id(s@) is None,
        },
{
    let mut i: usize = 0;
    loop
        invariant
            i <= s.len(),
            spec_first_id(s@) == first_id_from(s@, i as int),
        decreases s.len() - i,
    {
        proof { lemma_find_char_bounds(s@, i as int, '<'); }
        let start = match find_char_exec(s, i, '<') {
            Some(st) => st,
            None => {
                return None;
            },
        };
        let end = match tag_end(s, start) {
            Some(e) => e,
            None => {
                return None;
            },
        };
        let t = slice_subrange(s, start, end);
        if !is_closing_exec(t) && !is_chrome(t) {
            let (a, b) = match tag_name(t) {
                Some(r) => r,
                None => (0, 0),
            };
            let (x, y) = tag_attrs_range(t, a, b);
            match attribute(slice_subrange(t, x, y), &['i', 'd']) {
                Some(id) => {
                    if id.len() > 0 {
                        return Some(id);
                    }
                },
                None => {},
            }
        }
        i = end;
    }
}

} // verus!
