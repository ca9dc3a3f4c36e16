//! The private `cairn://{uuid}/{path}` URI scheme that reader pages load
//! entries through, and the outlines recorded for the entries fetched.
//!
//! A `cairn://` URI is a real URI that the web view resolves relative links
//! against, so `/` is kept literal in the path: a link to `Graben.html` inside
//! `A/Vienna/Ring.html` then resolves to `A/Vienna/Graben.html`.

use vstd::prelude::*;
use vstd::slice::slice_subrange;
use vstd::string::StringExecFns;
use vstd::utf8::encode_utf8;
use crate::chars::{eq_ci, chars_of, find_char, find_char_exec, lemma_find_char_bounds, opt_int,
    str_eq, string_from_chars};
use crate::percent::{append_percent_encoded, is_encoded_char, lemma_encode_utf8_concat, lemma_percent_encode_chars,
    lemma_percent_encode_concat, lemma_slash_encodes_to_itself,
    lemma_percent_round_trip, percent_decode_utf8, percent_encode, spec_percent_decode_utf8};
use crate::format::{spec_trim, trim};
use crate::toc::markup::eq_ci_exec;
use crate::toc::{Heading, HeadingView, heading_views};

verus! {

pub open spec fn scheme_prefix() -> Seq<char> {
    seq!['c', 'a', 'i', 'r', 'n', ':', '/', '/']
}

/// `cairn://{uuid}/{path}`, the path percent-encoded with `/` kept.
pub open spec fn spec_entry_uri(uuid: Seq<char>, path: Seq<char>) -> Seq<char> {
    scheme_prefix() + uuid + seq!['/'] + percent_encode(encode_utf8(path), true)
}

/// The entry URI with `#fragment`, the fragment encoded as the path is.
pub open spec fn spec_entry_uri_with_fragment(uuid: Seq<char>, path: Seq<char>, fragment: Seq<char>) -> Seq<char> {
    spec_entry_uri(uuid, path) + seq!['#'] + percent_encode(encode_utf8(fragment), true)
}

/// Build the URI that addresses `path` within `uuid`.
pub fn entry_uri(uuid: &str, path: &str) -> (r: String)
    ensures r@ == spec_entry_uri(uuid@, path@),
{
    let mut r = String::from_str("cairn://");
    r.append(uuid);
    r.append("/");
    append_percent_encoded(&mut r, path, true);
    proof {
        reveal_strlit("cairn://");
        reveal_strlit("/");
    }
    r
}

/// Build the URI addressing `path` within `uuid`, scrolled to `fragment`.
///
/// The fragment is escaped with the same set as the path: an `id` taken from
/// archived markup may hold spaces or non-ASCII.
pub fn entry_uri_with_fragment(uuid: &str, path: &str, fragment: &str) -> (r: String)
    ensures r@ == spec_entry_uri_with_fragment(uuid@, path@, fragment@),
{
    let mut r = entry_uri(uuid, path);
    r.append("#");
    append_percent_encoded(&mut r, fragment, true);
    proof { reveal_strlit("#"); }
    r
}

/// The URI a reader page opens with: the archive's main page under its own
/// URI when it names one, so that relative links inside it resolve against
/// the right base, and the archive root otherwise.
pub fn start_uri(uuid: &str, main_page: Option<&str>) -> (r: String)
    ensures
        r@ == match main_page {
            Some(m) => if m@.len() > 0 { spec_entry_uri(uuid@, m@) } else { spec_entry_uri(uuid@, Seq::empty()) },
            None => spec_entry_uri(uuid@, Seq::empty()),
        },
{
    match main_page {
        Some(m) => {
            if !m.is_empty() {
                return entry_uri(uuid, m);
            }
        },
        None => {},
    }
    proof { reveal_strlit(""); }
    assert(""@ =~= Seq::<char>::empty());
    entry_uri(uuid, "")
}

/// Whether a navigation stays inside the archive: only `cairn://` URIs do;
/// every other one is an external link.
pub open spec fn spec_is_internal(uri: Seq<char>) -> bool {
    uri.len() >= 8 && uri.subrange(0, 8) == scheme_prefix()
}

pub fn is_internal(uri: &str) -> (r: bool)
    ensures r == spec_is_internal(uri@),
{
    let u = chars_of(uri);
    let u = u.as_slice();
    if u.len() < 8 || u[0] != 'c' || u[1] != 'a' || u[2] != 'i' || u[3] != 'r' || u[4] != 'n'
        || u[5] != ':' || u[6] != '/' || u[7] != '/' {
        proof {
            if u@.len() >= 8 && u@.subrange(0, 8) == scheme_prefix() {
                assert(u@.subrange(0, 8)[0] == 'c');
                assert(u@.subrange(0, 8)[7] == '/');
            }
        }
        return false;
    }
    assert(u@.subrange(0, 8) =~= scheme_prefix());
    true
}

/// Which entry a request for `target` is served from: the target itself
/// when it names one; for the archive root, the main page the listing gave;
/// `None` when the root was asked for and the listing named no main page, so
/// that the archive's own record has to be asked.
pub fn entry_path_for(target: &str, main_page: Option<String>) -> (r: Option<String>)
    ensures
        target@.len() > 0 ==> (r matches Some(p) && p@ == target@),
        target@.len() == 0 ==> match main_page {
            Some(m) => (r matches Some(p) && p@ == m@),
            None => r is None,
        },
{
    if !target.is_empty() {
        Some(String::from_str(target))
    } else {
        main_page
    }
}

/// First position at or after `i` holding `#` or `?`, or the end.
pub open spec fn path_end(u: Seq<char>, i: int) -> int
    decreases u.len() - i,
{
    if i < 0 || i >= u.len() || u[i] == '#' || u[i] == '?' { i } else { path_end(u, i + 1) }
}

pub proof fn lemma_path_end(u: Seq<char>, i: int)
    requires 0 <= i <= u.len(),
    ensures i <= path_end(u, i) <= u.len(),
    decreases u.len() - i,
{
    if i < u.len() && u[i] != '#' && u[i] != '?' {
        lemma_path_end(u, i + 1);
    }
}

/// The still-encoded entry path of a `cairn://` URI: what follows the first
/// `/` after the authority, up to a query or fragment. `None` for any other
/// scheme.
pub open spec fn raw_target(u: Seq<char>) -> Option<Seq<char>> {
    if u.len() >= 8 && u.subrange(0, 8) == scheme_prefix() {
        let start = match find_char(u, 8, '/') {
            Some(k) => k + 1,
            None => u.len() as int,
        };
        Some(u.subrange(start, path_end(u, start)))
    } else {
        None
    }
}

/// The archive-relative entry path of a `cairn://{uuid}/{path}` URI.
pub open spec fn spec_parse_target(u: Seq<char>) -> Option<Seq<char>> {
    match raw_target(u) {
        Some(r) => spec_percent_decode_utf8(r),
        None => None,
    }
}

/// Extract the archive-relative entry path from a `cairn://{uuid}/{path}` URI.
///
/// The authority is ignored: every reader page registers its own handler
/// bound to a single archive. A query or fragment is stripped rather than
/// rejected, and it is split off before percent-decoding, so an encoded `%3F`
/// inside a stored path stays part of it.
pub fn parse_target(uri: &str) -> (r: Option<String>)
    ensures
        match r {
            Some(p) => spec_parse_target(uri@) == Some(p@),
            None => spec_parse_target(uri@) is None,
        },
{
    let u = chars_of(uri);
    let u = u.as_slice();
    if u.len() < 8 || u[0] != 'c' || u[1] != 'a' || u[2] != 'i' || u[3] != 'r' || u[4] != 'n'
        || u[5] != ':' || u[6] != '/' || u[7] != '/' {
        proof {
            if u@.len() >= 8 && u@.subrange(0, 8) == scheme_prefix() {
                assert(u@.subrange(0, 8)[0] == 'c');
                assert(u@.subrange(0, 8)[7] == '/');
            }
        }
        return None;
    }
    assert(u@.subrange(0, 8) =~= scheme_prefix());
    proof { lemma_find_char_bounds(u@, 8, '/'); }
    let start = match find_char_exec(u, 8, '/') {
        Some(k) => k + 1,
        None => u.len(),
    };
    let mut end = start;
    while end < u.len() && u[end] != '#' && u[end] != '?'
        invariant
            start <= end <= u.len(),
            path_end(u@, start as int) == path_end(u@, end as int),
        decreases u.len() - end,
    {
        end = end + 1;
    }
    let raw = string_from_chars(slice_subrange(u, start, end));
    percent_decode_utf8(raw.as_str())
}

proof fn lemma_find_char_first(s: Seq<char>, i: int, c: char, k: int)
    requires
        0 <= i <= k < s.len(),
        s[k] == c,
        forall|j: int| i <= j < k ==> s[j] != c,
    ensures find_char(s, i, c) == Some(k),
    decreases k - i,
{
    if i < k {
        lemma_find_char_first(s, i + 1, c, k);
    }
}

proof fn lemma_path_end_first(u: Seq<char>, i: int, e: int)
    requires
        0 <= i <= e <= u.len(),
        e < u.len() ==> u[e] == '#' || u[e] == '?',
        forall|j: int| i <= j < e ==> u[j] != '#' && u[j] != '?',
    ensures path_end(u, i) == e,
    decreases e - i,
{
    if i < e {
        lemma_path_end_first(u, i + 1, e);
    }
}

/// The position just after `cairn://{uuid}/` in an entry URI, and the fact
/// that the encoded path that follows holds no `#` or `?`.
proof fn lemma_entry_uri_shape(uuid: Seq<char>, path: Seq<char>, tail: Seq<char>)
    requires forall|k: int| 0 <= k < uuid.len() ==> uuid[k] != '/',
    ensures ({
        let u = spec_entry_uri(uuid, path) + tail;
        let e = percent_encode(encode_utf8(path), true);
        let start: int = 9 + uuid.len() as int;
        &&& u.len() >= 8 && u.subrange(0, 8) == scheme_prefix()
        &&& find_char(u, 8, '/') == Some(start - 1)
        &&& u.subrange(start, start + e.len() as int) == e
        &&& forall|j: int| start <= j < start + e.len() as int ==> u[j] != '#' && u[j] != '?'
    }),
{
    let u = spec_entry_uri(uuid, path) + tail;
    let e = percent_encode(encode_utf8(path), true);
    let start: int = 9 + uuid.len() as int;
    assert(u.subrange(0, 8) =~= scheme_prefix());
    assert(u[start - 1] == '/');
    assert forall|j: int| 8 <= j < start - 1 implies u[j] != '/' by {
        assert(u[j] == uuid[j - 8]);
    }
    lemma_find_char_first(u, 8, '/', start - 1);
    assert(u.subrange(start, start + e.len() as int) =~= e);
    lemma_percent_encode_chars(encode_utf8(path), true);
    assert forall|j: int| start <= j < start + e.len() as int implies u[j] != '#' && u[j] != '?' by {
        assert(u[j] == e[j - start]);
        assert(is_encoded_char(e[j - start]));
    }
}

/// An entry URI parses back to the entry path it was built from, whatever the
/// path holds, for any archive id without a `/`.
pub proof fn law_entry_uri_round_trip(uuid: Seq<char>, path: Seq<char>)
    requires forall|k: int| 0 <= k < uuid.len() ==> uuid[k] != '/',
    ensures spec_parse_target(spec_entry_uri(uuid, path)) == Some(path),
{
    let u = spec_entry_uri(uuid, path);
    let e = percent_encode(encode_utf8(path), true);
    lemma_entry_uri_shape(uuid, path, Seq::empty());
    assert(u + Seq::<char>::empty() =~= u);
    let start: int = 9 + uuid.len() as int;
    lemma_path_end_first(u, start, u.len() as int);
    assert(u.subrange(start, u.len() as int) =~= e);
    lemma_percent_round_trip(path, true);
}

/// A fragment does not change which entry a URI addresses.
pub proof fn law_fragment_keeps_the_target(uuid: Seq<char>, path: Seq<char>, fragment: Seq<char>)
    requires forall|k: int| 0 <= k < uuid.len() ==> uuid[k] != '/',
    ensures spec_parse_target(spec_entry_uri_with_fragment(uuid, path, fragment)) == Some(path),
{
    let tail = seq!['#'] + percent_encode(encode_utf8(fragment), true);
    let u = spec_entry_uri_with_fragment(uuid, path, fragment);
    assert(u =~= spec_entry_uri(uuid, path) + tail);
    let e = percent_encode(encode_utf8(path), true);
    lemma_entry_uri_shape(uuid, path, tail);
    let start: int = 9 + uuid.len() as int;
    assert(u[start + e.len() as int] == '#');
    lemma_path_end_first(u, start, start + e.len() as int);
    lemma_percent_round_trip(path, true);
}

/// A URI of any other scheme addresses no entry.
pub proof fn law_foreign_schemes_are_refused(u: Seq<char>)
    requires !(u.len() >= 8 && u.subrange(0, 8) == scheme_prefix()),
    ensures spec_parse_target(u) is None,
{
}

/// Separators survive encoding, so relative links resolve: the URI of
/// `dir/name` is the URI of `dir`, a literal `/`, and `name` encoded on its
/// own. Each segment of an entry path stays a segment of its URI, and a link
/// resolved against it lands among the entry's siblings.
pub proof fn law_separators_stay_literal(uuid: Seq<char>, dir: Seq<char>, name: Seq<char>)
    ensures
        spec_entry_uri(uuid, dir + seq!['/'] + name)
            == spec_entry_uri(uuid, dir) + seq!['/'] + percent_encode(encode_utf8(name), true),
{
    lemma_encode_utf8_concat(dir + seq!['/'], name);
    lemma_encode_utf8_concat(dir, seq!['/']);
    lemma_percent_encode_concat(encode_utf8(dir) + encode_utf8(seq!['/']), encode_utf8(name), true);
    lemma_percent_encode_concat(encode_utf8(dir), encode_utf8(seq!['/']), true);
    lemma_slash_encodes_to_itself();
    assert(spec_entry_uri(uuid, dir + seq!['/'] + name)
        =~= spec_entry_uri(uuid, dir) + seq!['/'] + percent_encode(encode_utf8(name), true));
}

/// The media type of a `Content-Type` value: what precedes any `;`, trimmed.
pub open spec fn spec_media_type(content_type: Seq<char>) -> Seq<char> {
    let e = match find_char(content_type, 0, ';') {
        Some(k) => k,
        None => content_type.len() as int,
    };
    spec_trim(content_type.subrange(0, e))
}

proof fn lemma_find_char_before(x: Seq<char>, t: Seq<char>, i: int, c: char)
    requires
        0 <= i <= t.len(),
        t.len() < x.len(),
        x[t.len() as int] == c,
        forall|k: int| 0 <= k < t.len() ==> x[k] == t[k] && #[trigger] t[k] != c,
    ensures find_char(x, i, c) == Some(t.len() as int),
    decreases t.len() - i,
{
    if i < t.len() {
        assert(x[i] == t[i]);
        lemma_find_char_before(x, t, i + 1, c);
    }
}

/// The media type of a `Content-Type` value is its text before the first
/// `;`, trimmed, whatever parameters follow; a value without `;` is only
/// trimmed.
pub proof fn law_media_type_drops_the_parameters(t: Seq<char>, params: Seq<char>)
    requires forall|k: int| 0 <= k < t.len() ==> #[trigger] t[k] != ';',
    ensures
        spec_media_type(t + seq![';'] + params) == spec_trim(t),
        spec_media_type(t) == spec_trim(t),
{
    let x = t + seq![';'] + params;
    assert forall|k: int| 0 <= k < t.len() implies x[k] == t[k] && #[trigger] t[k] != ';' by {}
    lemma_find_char_before(x, t, 0, ';');
    assert(x.subrange(0, t.len() as int) =~= t);
    lemma_find_char_absent(t, 0, ';');
    assert(t.subrange(0, t.len() as int) =~= t);
}

proof fn lemma_find_char_absent(t: Seq<char>, i: int, c: char)
    requires
        0 <= i <= t.len(),
        forall|k: int| 0 <= k < t.len() ==> #[trigger] t[k] != c,
    ensures find_char(t, i, c) is None,
    decreases t.len() - i,
{
    if i < t.len() {
        lemma_find_char_absent(t, i + 1, c);
    }
}

pub fn media_type(content_type: &str) -> (r: String)
    ensures r@ == spec_media_type(content_type@),
{
    let c = chars_of(content_type);
    proof { lemma_find_char_bounds(c@, 0, ';'); }
    let e = match find_char_exec(c.as_slice(), 0, ';') {
        Some(k) => k,
        None => c.len(),
    };
    let head = string_from_chars(slice_subrange(c.as_slice(), 0, e));
    trim(head.as_str())
}

/// Whether a media type is one whose outline is worth reading: HTML or XHTML,
/// in any ASCII case.
pub open spec fn spec_is_html(media_type: Seq<char>) -> bool {
    eq_ci(media_type, "text/html"@) || eq_ci(media_type, "application/xhtml+xml"@)
}

pub fn is_html(media_type: &str) -> (r: bool)
    ensures r == spec_is_html(media_type@),
{
    let m = chars_of(media_type);
    let html = chars_of("text/html");
    let xhtml = chars_of("application/xhtml+xml");
    eq_ci_exec(m.as_slice(), html.as_slice()) || eq_ci_exec(m.as_slice(), xhtml.as_slice())
}

/// How many outlines are kept; a long browsing session would otherwise
/// accumulate every page.
pub const OUTLINE_CAPACITY: usize = 16;

/// `s` without the entries under `key`, in order.
pub open spec fn without_key<V>(s: Seq<(Seq<char>, V)>, key: Seq<char>) -> Seq<(Seq<char>, V)>
    decreases s.len(),
{
    if s.len() == 0 {
        s
    } else {
        let w = without_key(s.drop_last(), key);
        if s.last().0 == key { w } else { w.push(s.last()) }
    }
}

/// The last `n` entries of `s`.
pub open spec fn keep_last<V>(s: Seq<V>, n: nat) -> Seq<V> {
    if s.len() > n { s.skip(s.len() - n) } else { s }
}

/// Recording `v` under `key`: any older entry for the key is replaced, the new
/// one goes last, and only the newest `OUTLINE_CAPACITY` entries are kept.
pub open spec fn spec_outline_insert<V>(s: Seq<(Seq<char>, V)>, key: Seq<char>, v: V) -> Seq<(Seq<char>, V)> {
    keep_last(without_key(s, key).push((key, v)), OUTLINE_CAPACITY as nat)
}

/// The value of the first entry under `key`.
pub open spec fn spec_outline_get<V>(s: Seq<(Seq<char>, V)>, key: Seq<char>) -> Option<V>
    decreases s.len(),
{
    if s.len() == 0 {
        None
    } else if s[0].0 == key {
        Some(s[0].1)
    } else {
        spec_outline_get(s.skip(1), key)
    }
}

/// No two entries share a key, and there are at most `OUTLINE_CAPACITY`.
pub open spec fn outline_wf<V>(s: Seq<(Seq<char>, V)>) -> bool {
    &&& s.len() <= OUTLINE_CAPACITY
    &&& forall|i: int, j: int| 0 <= i < j < s.len() ==> s[i].0 != s[j].0
}

pub proof fn lemma_without_key<V>(s: Seq<(Seq<char>, V)>, key: Seq<char>)
    ensures
        without_key(s, key).len() <= s.len(),
        forall|i: int| 0 <= i < without_key(s, key).len() ==> #[trigger] without_key(s, key)[i].0 != key,
        forall|i: int| 0 <= i < without_key(s, key).len() ==> s.contains(#[trigger] without_key(s, key)[i]),
        (forall|i: int| 0 <= i < s.len() ==> #[trigger] s[i].0 != key) ==> without_key(s, key) == s,
    decreases s.len(),
{
    if s.len() > 0 {
        let d = s.drop_last();
        lemma_without_key(d, key);
        let w = without_key(d, key);
        assert forall|i: int| 0 <= i < without_key(s, key).len() implies s.contains(#[trigger] without_key(s, key)[i]) by {
            if i < w.len() {
                assert(d.contains(w[i]));
                let j = choose|j: int| 0 <= j < d.len() && d[j] == w[i];
                assert(s[j] == w[i]);
            } else {
                assert(s[s.len() - 1] == s.last());
            }
        }
        if forall|i: int| 0 <= i < s.len() ==> #[trigger] s[i].0 != key {
            assert forall|i: int| 0 <= i < d.len() implies #[trigger] d[i].0 != key by {
                assert(d[i] == s[i]);
            }
            assert(s.last() == s[s.len() - 1]);
            assert(s =~= d.push(s.last()));
        }
    }
}

pub proof fn lemma_without_key_wf<V>(s: Seq<(Seq<char>, V)>, key: Seq<char>)
    requires forall|i: int, j: int| 0 <= i < j < s.len() ==> s[i].0 != s[j].0,
    ensures
        forall|i: int, j: int| 0 <= i < j < without_key(s, key).len()
            ==> without_key(s, key)[i].0 != without_key(s, key)[j].0,
    decreases s.len(),
{
    if s.len() > 0 {
        let d = s.drop_last();
        lemma_without_key_wf(d, key);
        lemma_without_key(d, key);
        let w = without_key(d, key);
        if s.last().0 != key {
            let r = w.push(s.last());
            assert forall|i: int, j: int| 0 <= i < j < r.len() implies r[i].0 != r[j].0 by {
                if j == r.len() - 1 {
                    assert(d.contains(w[i]));
                    let k = choose|k: int| 0 <= k < d.len() && d[k] == w[i];
                    assert(s[k] == d[k]);
                    assert(s[s.len() - 1] == s.last());
                }
            }
        }
    }
}

proof fn lemma_get_last<V>(s: Seq<(Seq<char>, V)>, key: Seq<char>)
    requires
        s.len() > 0,
        s.last().0 == key,
        forall|i: int| 0 <= i < s.len() - 1 ==> #[trigger] s[i].0 != key,
    ensures spec_outline_get(s, key) == Some(s.last().1),
    decreases s.len(),
{
    if s.len() > 1 {
        let t = s.skip(1);
        assert forall|i: int| 0 <= i < t.len() - 1 implies #[trigger] t[i].0 != key by {
            assert(t[i] == s[i + 1]);
        }
        assert(t.last() == s.last());
        lemma_get_last(t, key);
    }
}

proof fn lemma_get_absent<V>(s: Seq<(Seq<char>, V)>, key: Seq<char>)
    requires forall|i: int| 0 <= i < s.len() ==> #[trigger] s[i].0 != key,
    ensures spec_outline_get(s, key) is None,
    decreases s.len(),
{
    if s.len() > 0 {
        let t = s.skip(1);
        assert forall|i: int| 0 <= i < t.len() implies #[trigger] t[i].0 != key by {
            assert(t[i] == s[i + 1]);
        }
        lemma_get_absent(t, key);
    }
}

proof fn lemma_get_present<V>(s: Seq<(Seq<char>, V)>, key: Seq<char>)
    requires spec_outline_get(s, key) is None,
    ensures forall|i: int| 0 <= i < s.len() ==> #[trigger] s[i].0 != key,
    decreases s.len(),
{
    if s.len() > 0 {
        let t = s.skip(1);
        lemma_get_present(t, key);
        assert forall|i: int| 0 <= i < s.len() implies #[trigger] s[i].0 != key by {
            if i > 0 {
                assert(s[i] == t[i - 1]);
            }
        }
    }
}

/// Recording keeps the outlines well formed: one entry per path, and never
/// more than `OUTLINE_CAPACITY` of them.
pub proof fn law_outline_insert_wf<V>(s: Seq<(Seq<char>, V)>, key: Seq<char>, v: V)
    requires outline_wf(s),
    ensures outline_wf(spec_outline_insert(s, key, v)),
{
    lemma_without_key(s, key);
    lemma_without_key_wf(s, key);
    let w = without_key(s, key);
    let p = w.push((key, v));
    assert forall|i: int, j: int| 0 <= i < j < p.len() implies p[i].0 != p[j].0 by {
        if j == p.len() - 1 {
            assert(w[i].0 != key);
        }
    }
    let r = spec_outline_insert(s, key, v);
    if p.len() > OUTLINE_CAPACITY {
        let off = p.len() - OUTLINE_CAPACITY;
        assert forall|i: int, j: int| 0 <= i < j < r.len() implies r[i].0 != r[j].0 by {
            assert(r[i] == p[i + off]);
            assert(r[j] == p[j + off]);
        }
    }
}

/// What was recorded for a path is what comes back for it.
pub proof fn law_outline_read_after_write<V>(s: Seq<(Seq<char>, V)>, key: Seq<char>, v: V)
    ensures spec_outline_get(spec_outline_insert(s, key, v), key) == Some(v),
{
    lemma_without_key(s, key);
    let w = without_key(s, key);
    let p = w.push((key, v));
    let r = spec_outline_insert(s, key, v);
    if p.len() > OUTLINE_CAPACITY {
        let off = p.len() - OUTLINE_CAPACITY;
        assert forall|i: int| 0 <= i < r.len() - 1 implies #[trigger] r[i].0 != key by {
            assert(r[i] == p[i + off]);
            assert(p[i + off] == w[i + off]);
        }
        assert(r.last() == p.last());
        lemma_get_last(r, key);
    } else {
        assert forall|i: int| 0 <= i < p.len() - 1 implies #[trigger] p[i].0 != key by {
            assert(p[i] == w[i]);
        }
        lemma_get_last(p, key);
    }
}

/// When the outlines are full and a new path is recorded, the oldest entry is
/// the one that goes.
pub proof fn law_outline_evicts_the_oldest<V>(s: Seq<(Seq<char>, V)>, key: Seq<char>, v: V)
    requires
        s.len() == OUTLINE_CAPACITY,
        spec_outline_get(s, key) is None,
    ensures spec_outline_insert(s, key, v) == s.skip(1).push((key, v)),
{
    lemma_get_present(s, key);
    lemma_without_key(s, key);
    assert(spec_outline_insert(s, key, v) =~= s.skip(1).push((key, v)));
}

/// Outlines recorded for an entry, keyed by entry path, oldest first.
///
/// The reader cannot ask the page for its outline, so the scheme handler
/// records it in passing and the reader reads it back once the load finishes.
pub struct HeadingStore {
    entries: Vec<(String, Vec<Heading>)>,
}

pub open spec fn outline_entry_view(e: (String, Vec<Heading>)) -> (Seq<char>, Seq<HeadingView>) {
    (e.0@, heading_views(e.1@))
}

pub open spec fn outline_views(s: Seq<(String, Vec<Heading>)>) -> Seq<(Seq<char>, Seq<HeadingView>)> {
    s.map_values(|e: (String, Vec<Heading>)| outline_entry_view(e))
}

impl View for HeadingStore {
    type V = Seq<(Seq<char>, Seq<HeadingView>)>;

    closed spec fn view(&self) -> Seq<(Seq<char>, Seq<HeadingView>)> {
        outline_views(self.entries@)
    }
}

impl HeadingStore {
    #[verifier::type_invariant]
    closed spec fn inv(self) -> bool {
        outline_wf(outline_views(self.entries@))
    }

    /// An empty store.
    pub fn new() -> (r: Self)
        ensures r@ == Seq::<(Seq<char>, Seq<HeadingView>)>::empty(),
    {
        let r = HeadingStore { entries: Vec::new() };
        assert(outline_views(r.entries@) =~= Seq::<(Seq<char>, Seq<HeadingView>)>::empty());
        r
    }

    /// Number of outlines held.
    pub fn len(&self) -> (r: usize)
        ensures r == self@.len(),
    {
        self.entries.len()
    }

    /// Record the outline of the entry at `path`.
    pub fn insert(&mut self, path: &str, headings: Vec<Heading>)
        ensures final(self)@ == spec_outline_insert(old(self)@, path@, heading_views(headings@)),
    {
        proof { use_type_invariant(&*self); }
        let mut rest: Vec<(String, Vec<Heading>)> = Vec::new();
        std::mem::swap(&mut rest, &mut self.entries);
        let ghost orig = rest@;
        let mut kept: Vec<(String, Vec<Heading>)> = Vec::new();
        let ghost mut n: int = 0;
        while rest.len() > 0
            invariant
                0 <= n <= orig.len(),
                rest@ == orig.skip(n),
                outline_views(kept@) == without_key(outline_views(orig.take(n)), path@),
            decreases rest.len(),
        {
            let e = rest.remove(0);
            proof {
                assert(e == orig[n]);
                assert(orig.take(n + 1).drop_last() =~= orig.take(n));
                assert(outline_views(orig.take(n + 1)) =~= outline_views(orig.take(n)).push(outline_entry_view(e)));
                assert(outline_views(orig.take(n + 1)).drop_last() =~= outline_views(orig.take(n)));
                n = n + 1;
                assert(rest@ =~= orig.skip(n));
            }
            if !str_eq(e.0.as_str(), path) {
                let ghost before = kept@;
                kept.push(e);
                assert(outline_views(kept@) =~= outline_views(before).push(outline_entry_view(e)));
            }
        }
        assert(orig.take(n) =~= orig);
        let ghost w = kept@;
        kept.push((String::from_str(path), headings));
        assert(outline_views(kept@) =~= without_key(old(self)@, path@).push((path@, heading_views(headings@))));
        let ghost full = kept@;
        let mut dropped: usize = 0;
        let len0 = kept.len();
        assert(full.len() == len0);
        while kept.len() > OUTLINE_CAPACITY
            invariant
                dropped <= full.len() <= usize::MAX,
                kept@ == full.skip(dropped as int),
                dropped == 0 || full.len() - dropped >= OUTLINE_CAPACITY,
            decreases kept.len(),
        {
            kept.remove(0);
            dropped = dropped + 1;
            assert(kept@ =~= full.skip(dropped as int));
        }
        proof {
            let p = outline_views(full);
            assert(p.len() == full.len());
            if p.len() > OUTLINE_CAPACITY {
                assert(dropped == p.len() - OUTLINE_CAPACITY);
            } else {
                assert(dropped == 0);
                assert(full.skip(0) =~= full);
            }
            assert(outline_views(kept@) =~= keep_last(p, OUTLINE_CAPACITY as nat));
            law_outline_insert_wf(old(self)@, path@, heading_views(headings@));
        }
        self.entries = kept;
    }

    /// The outline recorded for `path`, if any.
    pub fn get(&self, path: &str) -> (r: Option<&Vec<Heading>>)
        ensures
            match r {
                Some(v) => spec_outline_get(self@, path@) == Some(heading_views(v@)),
                None => spec_outline_get(self@, path@) is None,
            },
    {
        let mut i: usize = 0;
        assert(self@.skip(0) =~= self@);
        while i < self.entries.len()
            invariant
                i <= self.entries.len(),
                spec_outline_get(self@, path@) == spec_outline_get(self@.skip(i as int), path@),
            decreases self.entries.len() - i,
        {
            let ghost t = self@.skip(i as int);
            assert(t[0] == outline_entry_view(self.entries@[i as int]));
            assert(t.skip(1) =~= self@.skip(i + 1));
            if str_eq(self.entries[i].0.as_str(), path) {
                return Some(&self.entries[i].1);
            }
            i = i + 1;
        }
        None
    }
}

impl Default for HeadingStore {
    fn default() -> (r: Self)
        ensures r@ == Seq::<(Seq<char>, Seq<HeadingView>)>::empty(),
    {
        HeadingStore::new()
    }
}

} // verus!
