//! Heading extraction for the reader's table of contents.
//!
//! JavaScript is disabled in the reader, so the page cannot be asked what its
//! headings are. They are read out of the stored HTML instead. This is a small
//! scanner, not an HTML parser: it looks for `h1`–`h6` and nothing else.

pub mod markup;
pub mod entities;
pub mod text;

use vstd::prelude::*;
use vstd::slice::slice_subrange;
use crate::chars::{chars_of, find_ci, find_ci_exec, lemma_find_ci_bounds, matches_ci_at,
    starts_with_ci, string_from_chars};
use crate::toc::entities::spec_decode_entities;
use crate::toc::text::raw_text_from;
use crate::toc::markup::{heading_level, lemma_skip_from_bounds, lemma_tag_end_bounds, opening_name,
    skip_element, spec_heading_level, spec_opening_name, spec_skip_element, spec_tag_end, tag_end};
use crate::toc::text::{collapse_from, is_collapsed, lemma_collapse_from, attribute, first_id, id_name, spec_attribute, spec_first_id, spec_text_of,
    text_of};

verus! {

/// One entry in a page's table of contents.
#[derive(Debug, Clone, PartialEq, Eq)]
pub struct Heading {
    /// 1 for `<h1>` through 6 for `<h6>`.
    pub level: u8,
    pub text: String,
    /// Fragment to scroll to, when the heading or something inside it has an id.
    pub anchor: Option<String>,
}

/// A heading as plain values.
pub struct HeadingView {
    pub level: u8,
    pub text: Seq<char>,
    pub anchor: Option<Seq<char>>,
}

impl View for Heading {
    type V = HeadingView;

    open spec fn view(&self) -> HeadingView {
        HeadingView {
            level: self.level,
            text: self.text@,
            anchor: match self.anchor {
                Some(a) => Some(a@),
                None => None,
            },
        }
    }
}

pub open spec fn heading_views(v: Seq<Heading>) -> Seq<HeadingView> {
    v.map_values(|h: Heading| h@)
}

pub open spec fn comment_open() -> Seq<char> {
    seq!['<', '!', '-', '-']
}

pub open spec fn comment_close() -> Seq<char> {
    seq!['-', '-', '>']
}

/// The headings of `s[i..]`, in document order. Comments and the content of
/// `script` and `style` elements are skipped; a heading whose visible text is
/// empty is dropped; a heading's anchor is its own `id`, else the first `id`
/// inside it. Scanning stops at a tag or comment that never ends.
pub open spec fn headings_from(s: Seq<char>, i: int) -> Seq<HeadingView>
    decreases s.len() - i,
{
    if i < 0 || i >= s.len() {
        Seq::empty()
    } else if s[i] != '<' {
        headings_from(s, i + 1)
    } else if matches_ci_at(s, i, comment_open()) {
        proof { lemma_find_ci_bounds(s, i + 4, comment_close()); }
        match find_ci(s, i + 4, comment_close()) {
            Some(e) => headings_from(s, e + 3),
            None => Seq::empty(),
        }
    } else {
        proof { lemma_tag_end_bounds(s, i); }
        match spec_opening_name(s, i) {
            Some(name) => match spec_tag_end(s, i) {
                None => Seq::empty(),
                Some(oe) => {
                    let next = spec_skip_element(s, oe, name);
                    proof {
                        lemma_skip_from_bounds(s, oe, 1, seq!['<'] + name, seq!['<', '/'] + name);
                    }
                    if next > i { headings_from(s, next) } else { Seq::empty() }
                },
            },
            None => match spec_heading_level(s, i) {
                None => headings_from(s, i + 1),
                Some(level) => match spec_tag_end(s, i) {
                    None => Seq::empty(),
                    Some(oe) => {
                        let close = seq!['<', '/', 'h', s[i + 2]];
                        proof { lemma_find_ci_bounds(s, oe, close); }
                        match find_ci(s, oe, close) {
                            None => headings_from(s, oe),
                            Some(c) => {
                                let inner = s.subrange(oe, c);
                                let text = spec_text_of(inner);
                                let rest = headings_from(s, c + 4);
                                if text.len() > 0 {
                                    let anchor = match spec_attribute(s.subrange(i + 3, oe - 1), id_name()) {
                                        Some(id) => Some(id),
                                        None => spec_first_id(inner),
                                    };
                                    seq![HeadingView { level, text, anchor }] + rest
                                } else {
                                    rest
                                }
                            },
                        }
                    },
                },
            },
        }
    }
}

/// The headings of an HTML document, in document order.
pub open spec fn spec_headings(html: Seq<char>) -> Seq<HeadingView> {
    headings_from(html, 0)
}

/// Extract the headings of an HTML document, in document order.
pub fn headings(html: &str) -> (r: Vec<Heading>)
    ensures heading_views(r@) == spec_headings(html@),
{
    let s = chars_of(html);
    let s = s.as_slice();
    let mut out: Vec<Heading> = Vec::new();
    let mut i: usize = 0;
    while i < s.len()
        invariant
            i <= s.len(),
            s@ == html@,
            heading_views(out@) + headings_from(s@, i as int) == spec_headings(html@),
        ensures
            heading_views(out@) == spec_headings(html@),
        decreases s.len() - i,
    {
        if s[i] != '<' {
            i = i + 1;
            continue;
        }
        if starts_with_ci(s, i, &['<', '!', '-', '-']) {
            proof { lemma_find_ci_bounds(s@, i + 4, comment_close()); }
            match find_ci_exec(s, i + 4, &['-', '-', '>']) {
                Some(e) => {
                    i = e + 3;
                    continue;
                },
                None => {
                    assert(heading_views(out@) =~= heading_views(out@) + Seq::<HeadingView>::empty());
                    break;
                },
            }
        }
        match opening_name(s, i) {
            Some(name) => {
                let open_end = match tag_end(s, i) {
                    Some(e) => e,
                    None => {
                        assert(heading_views(out@) =~= heading_views(out@) + Seq::<HeadingView>::empty());
                        break;
                    },
                };
                i = skip_element(s, open_end, name.as_slice());
                continue;
            },
            None => {},
        }
        match heading_level(s, i) {
            None => {
                i = i + 1;
            },
            Some(level) => {
                let open_end = match tag_end(s, i) {
                    Some(e) => e,
                    None => {
                        assert(heading_views(out@) =~= heading_views(out@) + Seq::<HeadingView>::empty());
                        break;
                    },
                };
                let close = ['<', '/', 'h', s[i + 2]];
                proof { lemma_find_ci_bounds(s@, open_end as int, close@); }
                match find_ci_exec(s, open_end, &close) {
                    None => {
                        i = open_end;
                    },
                    Some(c) => {
                        let inner = slice_subrange(s, open_end, c);
                        let text = text_of(inner);
                        if text.len() > 0 {
                            let anchor_chars = match attribute(slice_subrange(s, i + 3, open_end - 1), &['i', 'd']) {
                                Some(id) => Some(id),
                                None => first_id(inner),
                            };
                            let anchor = match anchor_chars {
                                Some(a) => Some(string_from_chars(a.as_slice())),
                                None => None,
                            };
                            let h = Heading { level, text: string_from_chars(text.as_slice()), anchor };
                            let ghost prev = out@;
                            out.push(h);
                            proof {
                                assert(out@ == prev.push(h));
                                assert(heading_views(out@) =~= heading_views(prev) + seq![h@]);
                            }
                        }
                        i = c + 4;
                    },
                }
            },
        }
    }
    out
}

/// A table-of-contents row as the reader shows it: a level from 1 to 6 and a
/// non-empty title with no leading, trailing or repeated whitespace.
pub open spec fn is_outline_row(h: HeadingView) -> bool {
    &&& 1 <= h.level <= 6
    &&& h.text.len() > 0
    &&& is_collapsed(h.text)
}

proof fn lemma_headings_from_rows(s: Seq<char>, i: int)
    ensures forall|k: int| 0 <= k < headings_from(s, i).len() ==> is_outline_row(#[trigger] headings_from(s, i)[k]),
    decreases s.len() - i,
{
    if i < 0 || i >= s.len() {
    } else if s[i] != '<' {
        lemma_headings_from_rows(s, i + 1);
        assert(headings_from(s, i) == headings_from(s, i + 1));
    } else if matches_ci_at(s, i, comment_open()) {
        lemma_find_ci_bounds(s, i + 4, comment_close());
        match find_ci(s, i + 4, comment_close()) {
            Some(e) => {
                lemma_headings_from_rows(s, e + 3);
                assert(headings_from(s, i) == headings_from(s, e + 3));
            },
            None => {},
        }
    } else {
        lemma_tag_end_bounds(s, i);
        match spec_opening_name(s, i) {
            Some(name) => match spec_tag_end(s, i) {
                None => {},
                Some(oe) => {
                    let next = spec_skip_element(s, oe, name);
                    lemma_skip_from_bounds(s, oe, 1, seq!['<'] + name, seq!['<', '/'] + name);
                    if next > i {
                        lemma_headings_from_rows(s, next);
                        assert(headings_from(s, i) == headings_from(s, next));
                    }
                },
            },
            None => match spec_heading_level(s, i) {
                None => {
                    lemma_headings_from_rows(s, i + 1);
                    assert(headings_from(s, i) == headings_from(s, i + 1));
                },
                Some(level) => match spec_tag_end(s, i) {
                    None => {},
                    Some(oe) => {
                        let close = seq!['<', '/', 'h', s[i + 2]];
                        lemma_find_ci_bounds(s, oe, close);
                        match find_ci(s, oe, close) {
                            None => {
                                lemma_headings_from_rows(s, oe);
                                assert(headings_from(s, i) == headings_from(s, oe));
                            },
                            Some(c) => {
                                lemma_headings_from_rows(s, c + 4);
                                let inner = s.subrange(oe, c);
                                let text = spec_text_of(inner);
                                lemma_collapse_from(spec_decode_entities(raw_text_from(inner, 0)), 0, false, false);
                                let rest = headings_from(s, c + 4);
                                if text.len() > 0 {
                                    let r = headings_from(s, i);
                                    assert('1' <= s[i + 2] <= '6');
                                    assert(1 <= level <= 6);
                                    assert(is_collapsed(text));
                                    assert(is_outline_row(r[0]));
                                    assert forall|k: int| 0 <= k < r.len() implies is_outline_row(#[trigger] r[k]) by {
                                        if k > 0 {
                                            assert(r[k] == rest[k - 1]);
                                        }
                                    }
                                }
                            },
                        }
                    },
                },
            },
        }
    }
}

/// Every heading found is a proper table-of-contents row: its level is 1 to
/// 6, and its title is non-empty with whitespace collapsed.
pub proof fn law_headings_are_outline_rows(html: Seq<char>)
    ensures forall|k: int| 0 <= k < spec_headings(html).len() ==> is_outline_row(#[trigger] spec_headings(html)[k]),
{
    lemma_headings_from_rows(html, 0);
}

/// The level rows of an outline are indented from: the shallowest heading
/// present, so that a page whose sections start at `h2` is not uniformly
/// indented. `None` for fewer than two headings: a lone title is not an
/// outline worth a sidebar for.
pub fn outline_top(outline: &[Heading]) -> (r: Option<u8>)
    ensures
        outline@.len() < 2 ==> r is None,
        outline@.len() >= 2 ==> (r matches Some(t)
            && (exists|k: int| 0 <= k < outline@.len() && #[trigger] outline@[k].level == t)
            && (forall|k: int| 0 <= k < outline@.len() ==> t <= #[trigger] outline@[k].level)),
{
    if outline.len() < 2 {
        return None;
    }
    let mut top = outline[0].level;
    let mut i: usize = 1;
    while i < outline.len()
        invariant
            1 <= i <= outline.len(),
            exists|k: int| 0 <= k < i && #[trigger] outline@[k].level == top,
            forall|k: int| 0 <= k < i ==> top <= #[trigger] outline@[k].level,
        decreases outline.len() - i,
    {
        if outline[i].level < top {
            top = outline[i].level;
        }
        i = i + 1;
    }
    Some(top)
}

/// The left margin of an outline row, in pixels: 12, and 12 more for each
/// level the heading lies below the top one.
pub open spec fn spec_outline_indent(level: u8, top: u8) -> int {
    12 + 12 * (if level > top { level - top } else { 0int })
}

pub fn outline_indent(level: u8, top: u8) -> (r: i32)
    ensures r == spec_outline_indent(level, top),
{
    let depth: i32 = if level > top { (level - top) as i32 } else { 0 };
    12 + 12 * depth
}

} // verus!
