//! The cairn HTTP API as requests to make and responses to read.
//!
//! The client decides what to ask for (which URL, with which credentials) and
//! what an answer means; moving the bytes is left to the HTTP transport of the
//! application.

use vstd::prelude::*;
use vstd::slice::slice_subrange;
use vstd::string::StringExecFns;
use vstd::utf8::encode_utf8;
use crate::chars::{bytes_len, chars_of, is_ws, is_ws_exec, string_from_chars, utf8_width, utf8_width_exec};
use crate::code;
use crate::error::{Error, is_invalid_with};
use crate::format::{append_decimal, decimal, parse_decimal, parse_decimal_exec, spec_trim, trim, lead_end, trail_start};
use crate::model::{Entry, EntryMeta, SUGGEST_MAX_QUERY, SUGGEST_MAX_RESULTS};
use crate::percent::{append_percent_encoded, percent_encode};

verus! {

pub open spec fn is_lower_hex(c: char) -> bool {
    ('0' <= c && c <= '9') || ('a' <= c && c <= 'f')
}

pub open spec fn is_uuid_dash_position(i: int) -> bool {
    i == 8 || i == 13 || i == 18 || i == 23
}

/// The canonical form of an archive id: 36 characters, lowercase hexadecimal
/// digits with hyphens at 8, 13, 18 and 23.
pub open spec fn is_canonical_uuid(s: Seq<char>) -> bool {
    &&& s.len() == 36
    &&& forall|i: int| 0 <= i < 36 ==> (if is_uuid_dash_position(i) { s[i] == '-' } else { is_lower_hex(s[i]) })
}

pub open spec fn uuid_message() -> Seq<char> {
    "uuid must be the canonical lowercase hyphenated form"@
}

/// Accepts an archive id only in its canonical form, before any request is made.
pub fn canonical_uuid(uuid: &str) -> (r: Result<(), Error>)
    ensures
        match r {
            Ok(()) => is_canonical_uuid(uuid@),
            Err(e) => !is_canonical_uuid(uuid@) && is_invalid_with(e, uuid_message()),
        },
{
    let c = chars_of(uuid);
    let mut valid = c.len() == 36;
    let mut i: usize = 0;
    while valid && i < 36
        invariant
            c@ == uuid@,
            i <= 36,
            valid ==> c.len() == 36,
            valid ==> forall|k: int| 0 <= k < i ==> (if is_uuid_dash_position(k) { c@[k] == '-' } else { is_lower_hex(c@[k]) }),
            !valid ==> !is_canonical_uuid(uuid@),
        decreases 36 - i + (if valid { 1int } else { 0int }),
    {
        let ch = c[i];
        let ok = if i == 8 || i == 13 || i == 18 || i == 23 {
            ch == '-'
        } else {
            ('0' <= ch && ch <= '9') || ('a' <= ch && ch <= 'f')
        };
        if ok {
            i = i + 1;
        } else {
            valid = false;
        }
    }
    if valid {
        Ok(())
    } else {
        Err(Error::Invalid(String::from_str("uuid must be the canonical lowercase hyphenated form")))
    }
}

/// An archive id is canonical exactly when it has 36 characters, hyphens at
/// 8, 13, 18 and 23, and one of `0`-`9` or `a`-`f` everywhere else, so that
/// every such id is accepted by the request builders and no other is.
pub proof fn law_canonical_ids_are_lowercase_hex(s: Seq<char>)
    ensures
        is_canonical_uuid(s) <==> (s.len() == 36 && forall|i: int| 0 <= i < 36 ==> (
            if i == 8 || i == 13 || i == 18 || i == 23 {
                #[trigger] s[i] == '-'
            } else {
                ('0' <= s[i] && s[i] <= '9') || ('a' <= s[i] && s[i] <= 'f')
            })),
{
}

pub open spec fn is_hex_char(c: char) -> bool {
    ('0' <= c && c <= '9') || ('a' <= c && c <= 'f') || ('A' <= c && c <= 'F')
}

/// Characters an IPv6 address literal is written with.
pub open spec fn is_ipv6_char(c: char) -> bool {
    is_hex_char(c) || c == ':' || c == '.'
}

/// An IPv6 address literal: only hexadecimal digits, `:` and `.`, with at
/// least two colons.
pub open spec fn is_ipv6_literal(s: Seq<char>) -> bool {
    &&& forall|i: int| 0 <= i < s.len() ==> is_ipv6_char(#[trigger] s[i])
    &&& exists|i: int, j: int| 0 <= i < j < s.len() && #[trigger] s[i] == ':' && #[trigger] s[j] == ':'
}

/// Characters a host name may hold: none that would change the shape of a URL
/// (userinfo, path, query, fragment, port, brackets) and no whitespace.
pub open spec fn is_name_char(c: char) -> bool {
    !is_ws(c) && c != '/' && c != '\\' && c != '@' && c != '?' && c != '#' && c != '[' && c != ']'
        && c != ':'
}

pub open spec fn is_host_name(s: Seq<char>) -> bool {
    forall|i: int| 0 <= i < s.len() ==> is_name_char(#[trigger] s[i])
}

/// The authority a trimmed, non-empty host is written as in a URL: IPv6
/// literals in brackets, names and IPv4 addresses as they are.
pub open spec fn spec_authority(h: Seq<char>) -> Option<Seq<char>> {
    if h.len() >= 2 && h[0] == '[' && h.last() == ']' && is_ipv6_literal(h.subrange(1, h.len() - 1)) {
        Some(h)
    } else if is_ipv6_literal(h) {
        Some(seq!['['] + h + seq![']'])
    } else if is_host_name(h) {
        Some(h)
    } else {
        None
    }
}

fn is_ipv6_literal_exec(s: &[char]) -> (r: bool)
    ensures r == is_ipv6_literal(s@),
{
    let mut first: Option<usize> = None;
    let mut two = false;
    let mut i: usize = 0;
    while i < s.len()
        invariant
            i <= s.len(),
            forall|k: int| 0 <= k < i ==> is_ipv6_char(#[trigger] s@[k]),
            match first {
                Some(f) => f < i && s@[f as int] == ':',
                None => forall|k: int| 0 <= k < i ==> #[trigger] s@[k] != ':',
            },
            two <==> exists|a: int, b: int| 0 <= a < b < i && #[trigger] s@[a] == ':' && #[trigger] s@[b] == ':',
        decreases s.len() - i,
    {
        let c = s[i];
        let hex = ('0' <= c && c <= '9') || ('a' <= c && c <= 'f') || ('A' <= c && c <= 'F');
        if !(hex || c == ':' || c == '.') {
            return false;
        }
        if c == ':' {
            match first {
                Some(f) => {
                    assert(s@[f as int] == ':' && s@[i as int] == ':');
                    two = true;
                },
                None => {
                    first = Some(i);
                },
            }
        }
        i = i + 1;
    }
    two
}

fn is_host_name_exec(s: &[char]) -> (r: bool)
    ensures r == is_host_name(s@),
{
    let mut i: usize = 0;
    while i < s.len()
        invariant
            i <= s.len(),
            forall|k: int| 0 <= k < i ==> is_name_char(#[trigger] s@[k]),
        decreases s.len() - i,
    {
        let c = s[i];
        if is_ws_exec(c) || c == '/' || c == '\\' || c == '@' || c == '?' || c == '#' || c == '['
            || c == ']' || c == ':' {
            assert(!is_name_char(s@[i as int]));
            return false;
        }
        i = i + 1;
    }
    true
}

/// `base` with every trailing `/` removed.
pub open spec fn trim_trailing_slashes(s: Seq<char>) -> Seq<char>
    decreases s.len(),
{
    if s.len() > 0 && s.last() == '/' { trim_trailing_slashes(s.drop_last()) } else { s }
}

/// The token a client authenticates with: the given one trimmed, none when
/// that leaves it empty.
pub open spec fn spec_token(t: Option<Seq<char>>) -> Option<Seq<char>> {
    match t {
        Some(x) => if spec_trim(x).len() > 0 { Some(spec_trim(x)) } else { None },
        None => None,
    }
}

pub open spec fn opt_str_view(t: Option<&str>) -> Option<Seq<char>> {
    match t {
        Some(x) => Some(x@),
        None => None,
    }
}

pub open spec fn host_empty_message() -> Seq<char> {
    "host must not be empty"@
}

pub open spec fn host_invalid_message() -> Seq<char> {
    "host must be an IP address or name"@
}

/// A character of an ordinary host name: an ASCII letter or digit, `-` or `.`.
pub open spec fn is_plain_host_char(c: char) -> bool {
    ('a' <= c && c <= 'z') || ('A' <= c && c <= 'Z') || ('0' <= c && c <= '9') || c == '-' || c == '.'
}

/// The base URL for a daemon at `host` and `port`, or why the host is refused.
pub open spec fn spec_base_url_for(host: Seq<char>, port: u16) -> Result<Seq<char>, Seq<char>> {
    let h = spec_trim(host);
    if h.len() == 0 {
        Err(host_empty_message())
    } else {
        match spec_authority(h) {
            Some(a) => Ok("http://"@ + a + seq![':'] + decimal(port as u64)),
            None => Err(host_invalid_message()),
        }
    }
}

/// A host written only with ASCII letters, digits, `-` and `.` (a name such
/// as `my-nas` or an IPv4 address) is accepted as it is: the base URL is
/// `http://`, the host, `:` and the port in decimal.
pub proof fn law_plain_hosts_are_accepted_as_they_are(h: Seq<char>, port: u16)
    requires
        h.len() > 0,
        forall|i: int| 0 <= i < h.len() ==> is_plain_host_char(#[trigger] h[i]),
    ensures
        spec_base_url_for(h, port) == Ok::<Seq<char>, Seq<char>>("http://"@ + h + seq![':'] + decimal(port as u64)),
{
    assert(is_plain_host_char(h[0]));
    assert(is_plain_host_char(h[h.len() - 1]));
    assert(!is_ws(h[0]));
    assert(lead_end(h, 0) == 0);
    assert(!is_ws(h[h.len() - 1]));
    assert(trail_start(h, h.len() as int) == h.len());
    assert(spec_trim(h) =~= h);
    assert(h[0] != '[');
    assert(!is_ipv6_literal(h)) by {
        if is_ipv6_literal(h) {
            let (i, j) = choose|i: int, j: int| 0 <= i < j < h.len() && #[trigger] h[i] == ':' && #[trigger] h[j] == ':';
            assert(is_plain_host_char(h[i]));
        }
    }
    assert forall|i: int| 0 <= i < h.len() implies is_name_char(#[trigger] h[i]) by {
        assert(is_plain_host_char(h[i]));
    }
}

proof fn lemma_decimal_last(n: u64)
    ensures
        decimal(n).len() > 0,
        decimal(n).last() != '/',
    decreases n,
{
    if n >= 10 {
        lemma_decimal_last(n / 10);
    }
}

/// A base URL with its trailing slashes removed does not end in one.
pub proof fn law_base_url_has_no_trailing_slash(s: Seq<char>)
    ensures
        trim_trailing_slashes(s).len() == 0 || trim_trailing_slashes(s).last() != '/',
    decreases s.len(),
{
    if s.len() > 0 && s.last() == '/' {
        law_base_url_has_no_trailing_slash(s.drop_last());
    }
}

/// A client for one cairn daemon.
#[derive(Debug, Clone)]
pub struct CairnClient {
    base_url: String,
    token: Option<String>,
}

pub struct CairnClientView {
    pub base_url: Seq<char>,
    pub token: Option<Seq<char>>,
}

impl View for CairnClient {
    type V = CairnClientView;

    closed spec fn view(&self) -> CairnClientView {
        CairnClientView {
            base_url: self.base_url@,
            token: match self.token {
                Some(t) => Some(t@),
                None => None,
            },
        }
    }
}

/// The base URL followed by `suffix`.
fn url_with(base: &String, suffix: &str) -> (r: String)
    ensures r@ == base@ + suffix@,
{
    String::from_str(base.as_str()).concat(suffix)
}

/// The first `fit_from(s, i, acc, limit)` characters of `s` fit in `limit`
/// bytes of UTF-8 when `acc` bytes are already used before `i`.
pub open spec fn fit_from(s: Seq<char>, i: int, acc: int, limit: int) -> int
    decreases s.len() - i,
{
    if i < 0 || i >= s.len() || acc + utf8_width(s[i]) > limit {
        i
    } else {
        fit_from(s, i + 1, acc + utf8_width(s[i]), limit)
    }
}

/// The longest prefix of `s` whose UTF-8 encoding fits in `limit` bytes: a
/// cut that never splits a character.
pub open spec fn spec_fit_prefix(s: Seq<char>, limit: int) -> Seq<char> {
    s.take(fit_from(s, 0, 0, limit))
}

proof fn lemma_fit_from(s: Seq<char>, i: int, acc: int, limit: int)
    requires 0 <= i <= s.len(),
    ensures i <= fit_from(s, i, acc, limit) <= s.len(),
    decreases s.len() - i,
{
    if !(i >= s.len() || acc + utf8_width(s[i]) > limit) {
        lemma_fit_from(s, i + 1, acc + utf8_width(s[i]), limit);
    }
}

proof fn lemma_bytes_len_take_next(s: Seq<char>, i: int)
    requires 0 <= i < s.len(),
    ensures bytes_len(s.take(i + 1)) == bytes_len(s.take(i)) + utf8_width(s[i]),
{
    assert(s.take(i + 1).drop_last() =~= s.take(i));
    assert(s.take(i + 1).last() == s[i]);
}

proof fn lemma_fit_from_longest(s: Seq<char>, i: int, acc: int, limit: int)
    requires
        0 <= i <= s.len(),
        acc == bytes_len(s.take(i)),
        acc <= limit,
    ensures
        bytes_len(s.take(fit_from(s, i, acc, limit))) <= limit,
        fit_from(s, i, acc, limit) < s.len() ==> bytes_len(s.take(fit_from(s, i, acc, limit) + 1)) > limit,
    decreases s.len() - i,
{
    if i < s.len() {
        lemma_bytes_len_take_next(s, i);
        if acc + utf8_width(s[i]) <= limit {
            lemma_fit_from_longest(s, i + 1, acc + utf8_width(s[i]), limit);
        }
    }
}

/// A suggestion query is cut rather than refused, and the cut keeps the
/// longest run of whole characters from its start that fits the bound: what
/// is sent is a prefix of the query, fits in `limit` bytes of UTF-8, and is
/// the whole query whenever the query fits.
pub proof fn law_query_cut_is_the_longest_fitting_prefix(s: Seq<char>, limit: nat)
    ensures
        spec_fit_prefix(s, limit as int).len() <= s.len(),
        spec_fit_prefix(s, limit as int) == s.take(spec_fit_prefix(s, limit as int).len() as int),
        bytes_len(spec_fit_prefix(s, limit as int)) <= limit,
        spec_fit_prefix(s, limit as int).len() < s.len()
            ==> bytes_len(s.take(spec_fit_prefix(s, limit as int).len() + 1int)) > limit,
        bytes_len(s) <= limit ==> spec_fit_prefix(s, limit as int) == s,
{
    assert(s.take(0) =~= Seq::<char>::empty());
    lemma_fit_from(s, 0, 0, limit as int);
    lemma_fit_from_longest(s, 0, 0, limit as int);
    let f = fit_from(s, 0, 0, limit as int);
    assert(spec_fit_prefix(s, limit as int).len() == f);
    if bytes_len(s) <= limit && f < s.len() {
        lemma_bytes_len_prefix_monotone(s, f + 1);
    }
    if f == s.len() {
        assert(s.take(f) =~= s);
    }
}

proof fn lemma_bytes_len_prefix_monotone(s: Seq<char>, k: int)
    requires 0 <= k <= s.len(),
    ensures bytes_len(s.take(k)) <= bytes_len(s),
    decreases s.len() - k,
{
    if k < s.len() {
        lemma_bytes_len_take_next(s, k);
        lemma_bytes_len_prefix_monotone(s, k + 1);
    } else {
        assert(s.take(k) =~= s);
    }
}

/// `limit` brought into the range the daemon serves, 1 to `SUGGEST_MAX_RESULTS`.
pub open spec fn clamp_limit(limit: u32) -> u32 {
    if limit < 1 { 1 } else if limit > SUGGEST_MAX_RESULTS { SUGGEST_MAX_RESULTS } else { limit }
}

impl CairnClient {
    /// A client for the daemon at `host` and `port`. The host is trimmed; it
    /// must be a name, an IPv4 address or an IPv6 address (bracketed or not),
    /// with nothing that would change the shape of the URL.
    pub fn new(host: &str, port: u16, token: Option<&str>) -> (r: Result<CairnClient, Error>)
        ensures
            match r {
                Ok(c) => spec_base_url_for(host@, port) == Ok::<Seq<char>, Seq<char>>(c@.base_url)
                    && c@.token == spec_token(opt_str_view(token)),
                Err(e) => spec_base_url_for(host@, port) is Err
                    && is_invalid_with(e, spec_base_url_for(host@, port)->Err_0),
            },
    {
        let h = trim(host);
        let hc = chars_of(h.as_str());
        let hc = hc.as_slice();
        if hc.len() == 0 {
            return Err(Error::Invalid(String::from_str("host must not be empty")));
        }
        let auth: String;
        if hc.len() >= 2 && hc[0] == '[' && hc[hc.len() - 1] == ']'
            && is_ipv6_literal_exec(slice_subrange(hc, 1, hc.len() - 1)) {
            auth = h;
        } else if is_ipv6_literal_exec(hc) {
            auth = String::from_str("[").concat(h.as_str()).concat("]");
            proof {
                reveal_strlit("[");
                reveal_strlit("]");
            }
        } else if is_host_name_exec(hc) {
            auth = h;
        } else {
            return Err(Error::Invalid(String::from_str("host must be an IP address or name")));
        }
        assert(spec_authority(spec_trim(host@)) == Some(auth@));
        let mut base = String::from_str("http://").concat(auth.as_str());
        base.append(":");
        proof { reveal_strlit(":"); }
        let ghost before = base@;
        append_decimal(&mut base, port as u64);
        proof {
            lemma_decimal_last(port as u64);
            assert(base@ == before + decimal(port as u64));
            assert(base@.last() == decimal(port as u64).last());
            assert(trim_trailing_slashes(base@) == base@);
            assert(":"@ == seq![':']);
            assert(base@ == "http://"@ + auth@ + seq![':'] + decimal(port as u64));
            assert(spec_trim(host@).len() > 0);
            assert(spec_base_url_for(host@, port) == Ok::<Seq<char>, Seq<char>>(base@));
        }
        Ok(CairnClient::with_base_url(base.as_str(), token))
    }

    /// A client for the daemon at `base_url`; trailing slashes are dropped so
    /// that no request path carries a double slash, and a blank token is no
    /// token.
    pub fn with_base_url(base_url: &str, token: Option<&str>) -> (r: CairnClient)
        ensures
            r@.base_url == trim_trailing_slashes(base_url@),
            r@.token == spec_token(opt_str_view(token)),
    {
        let c = chars_of(base_url);
        let mut n = c.len();
        assert(c@.take(c.len() as int) =~= c@);
        while n > 0 && c[n - 1] == '/'
            invariant
                n <= c.len(),
                c@ == base_url@,
                trim_trailing_slashes(c@.take(n as int)) == trim_trailing_slashes(base_url@),
            decreases n,
        {
            assert(c@.take(n as int).drop_last() =~= c@.take(n - 1));
            n = n - 1;
        }
        assert(c@.take(c.len() as int) =~= c@);
        let base = string_from_chars(slice_subrange(c.as_slice(), 0, n));
        assert(c@.subrange(0, n as int) =~= c@.take(n as int));
        let tok = match token {
            Some(t) => {
                let t = trim(t);
                if t.as_str().is_empty() { None } else { Some(t) }
            },
            None => None,
        };
        CairnClient { base_url: base, token: tok }
    }

    /// The base URL every request goes to.
    pub fn base_url(&self) -> (r: &str)
        ensures r@ == self@.base_url,
    {
        self.base_url.as_str()
    }

    /// The `Authorization` header value to send, when a token is configured.
    pub fn authorization(&self) -> (r: Option<String>)
        ensures
            match self@.token {
                Some(t) => r matches Some(h) && h@ == "Bearer "@ + t,
                None => r is None,
            },
    {
        match &self.token {
            Some(t) => Some(String::from_str("Bearer ").concat(t.as_str())),
            None => None,
        }
    }

    /// `GET {base}/v1/status`.
    pub fn status_url(&self) -> (r: String)
        ensures r@ == self@.base_url + "/v1/status"@,
    {
        url_with(&self.base_url, "/v1/status")
    }

    /// `GET {base}/v1/archives`.
    pub fn archives_url(&self) -> (r: String)
        ensures r@ == self@.base_url + "/v1/archives"@,
    {
        url_with(&self.base_url, "/v1/archives")
    }

    /// `GET {base}/v1/archives/{uuid}`, for a canonical `uuid` only.
    pub fn archive_url(&self, uuid: &str) -> (r: Result<String, Error>)
        ensures
            match r {
                Ok(u) => is_canonical_uuid(uuid@) && u@ == self@.base_url + "/v1/archives/"@ + uuid@,
                Err(e) => !is_canonical_uuid(uuid@) && is_invalid_with(e, uuid_message()),
            },
    {
        canonical_uuid(uuid)?;
        Ok(url_with(&self.base_url, "/v1/archives/").concat(uuid))
    }

    /// `{base}/v1/archives/{uuid}/entry/{path}`, the path percent-encoded as a
    /// single segment (`/` included), for a canonical `uuid` only.
    pub fn entry_url(&self, uuid: &str, path: &str) -> (r: Result<String, Error>)
        ensures
            match r {
                Ok(u) => is_canonical_uuid(uuid@) && u@ == self@.base_url + "/v1/archives/"@ + uuid@
                    + "/entry/"@ + percent_encode(encode_utf8(path@), false),
                Err(e) => !is_canonical_uuid(uuid@) && is_invalid_with(e, uuid_message()),
            },
    {
        canonical_uuid(uuid)?;
        let mut u = url_with(&self.base_url, "/v1/archives/").concat(uuid);
        u.append("/entry/");
        append_percent_encoded(&mut u, path, false);
        Ok(u)
    }

    /// `GET {base}/v1/archives/{uuid}/random`, for a canonical `uuid` only.
    pub fn random_url(&self, uuid: &str) -> (r: Result<String, Error>)
        ensures
            match r {
                Ok(u) => is_canonical_uuid(uuid@) && u@ == self@.base_url + "/v1/archives/"@ + uuid@
                    + "/random"@,
                Err(e) => !is_canonical_uuid(uuid@) && is_invalid_with(e, uuid_message()),
            },
    {
        canonical_uuid(uuid)?;
        Ok(url_with(&self.base_url, "/v1/archives/").concat(uuid).concat("/random"))
    }

    /// `GET {base}/v1/archives/{uuid}/suggest?q={query}&limit={limit}`, for a
    /// canonical `uuid` only. An empty query asks nothing (`None`). The query is
    /// cut to the documented bound of `SUGGEST_MAX_QUERY` bytes without
    /// splitting a character, so a long prefix search still works, and the
    /// limit is brought into 1 to `SUGGEST_MAX_RESULTS`.
    pub fn suggest_url(&self, uuid: &str, query: &str, limit: u32) -> (r: Result<Option<String>, Error>)
        ensures
            match r {
                Ok(None) => is_canonical_uuid(uuid@) && query@.len() == 0,
                Ok(Some(u)) => is_canonical_uuid(uuid@) && query@.len() > 0
                    && u@ == self@.base_url + "/v1/archives/"@ + uuid@ + "/suggest?q="@
                        + percent_encode(encode_utf8(spec_fit_prefix(query@, SUGGEST_MAX_QUERY as int)), false)
                        + "&limit="@ + decimal(clamp_limit(limit) as u64),
                Err(e) => !is_canonical_uuid(uuid@) && is_invalid_with(e, uuid_message()),
            },
    {
        canonical_uuid(uuid)?;
        if query.is_empty() {
            return Ok(None);
        }
        let q = chars_of(query);
        let mut n: usize = 0;
        let mut used: usize = 0;
        proof { lemma_fit_from(q@, 0, 0, SUGGEST_MAX_QUERY as int); }
        while n < q.len() && used + utf8_width_exec(q[n]) <= SUGGEST_MAX_QUERY as usize
            invariant
                n <= q.len(),
                used <= SUGGEST_MAX_QUERY,
                q@ == query@,
                fit_from(q@, 0, 0, SUGGEST_MAX_QUERY as int) == fit_from(q@, n as int, used as int, SUGGEST_MAX_QUERY as int),
            decreases q.len() - n,
        {
            used = used + utf8_width_exec(q[n]);
            n = n + 1;
        }
        let cut = string_from_chars(slice_subrange(q.as_slice(), 0, n));
        assert(q@.subrange(0, n as int) =~= spec_fit_prefix(query@, SUGGEST_MAX_QUERY as int));
        let clamped = if limit < 1 { 1 } else if limit > SUGGEST_MAX_RESULTS { SUGGEST_MAX_RESULTS } else { limit };
        let mut u = url_with(&self.base_url, "/v1/archives/").concat(uuid);
        u.append("/suggest?q=");
        append_percent_encoded(&mut u, cut.as_str(), false);
        u.append("&limit=");
        append_decimal(&mut u, clamped as u64);
        Ok(Some(u))
    }
}

/// Whether an HTTP status reports success.
pub fn is_success(status: u16) -> (r: bool)
    ensures r == (200 <= status && status < 300),
{
    200 <= status && status < 300
}

pub open spec fn malformed_message() -> Seq<char> {
    "malformed error response"@
}

/// What the body of an unsuccessful response holds, as plain values: `None`
/// when it is not a cairn error envelope at all; `Some(None)` for an envelope
/// without an `error` member; `Some(Some((code, message)))` for the error it
/// carries.
pub open spec fn envelope_view(envelope: Option<Option<(String, String)>>) -> Option<Option<(Seq<char>, Seq<char>)>> {
    match envelope {
        Some(Some((c, m))) => Some(Some((c@, m@))),
        Some(None) => Some(None),
        None => None,
    }
}

/// The error an unsuccessful response stands for, given its status and its
/// body. An envelope's error is kept as it was sent, an empty code included.
/// Where the body carries no error (an envelope without one, or no envelope
/// at all, as from a proxy answering in cairn's place), the code is the one a
/// well-behaved cairn would have sent for the status, and a body that was no
/// envelope says it was malformed.
pub open spec fn spec_api_error(status: u16, envelope: Option<Option<(Seq<char>, Seq<char>)>>) -> (u16, Seq<char>, Seq<char>) {
    match envelope {
        Some(Some((c, m))) => (status, c, m),
        Some(None) => (status, code::spec_for_status(status), Seq::empty()),
        None => (status, code::spec_for_status(status), malformed_message()),
    }
}

pub fn api_error(status: u16, envelope: Option<Option<(String, String)>>) -> (r: Error)
    ensures
        r matches Error::Api { status: s, code: c, message: m }
            && (s, c@, m@) == spec_api_error(status, envelope_view(envelope)),
{
    match envelope {
        Some(Some((c, m))) => Error::Api { status, code: c, message: m },
        Some(None) => {
            let message = String::new();
            assert(message@ =~= Seq::<char>::empty());
            Error::Api { status, code: String::from_str(code::for_status(status)), message }
        },
        None => Error::Api {
            status,
            code: String::from_str(code::for_status(status)),
            message: String::from_str("malformed error response"),
        },
    }
}

pub open spec fn octet_stream() -> Seq<char> {
    "application/octet-stream"@
}

pub open spec fn opt_string_view(o: Option<String>) -> Option<Seq<char>> {
    match o {
        Some(s) => Some(s@),
        None => None,
    }
}

/// An entry from a successful response: a missing `Content-Type` reads as
/// `application/octet-stream`, a missing `X-Cairn-Path` as the path asked for.
pub fn entry_from_response(uuid: &str, path: &str, content_type: Option<String>,
    cairn_path: Option<String>, bytes: Vec<u8>) -> (r: Entry)
    ensures
        r.bytes@ == bytes@,
        r.archive@ == uuid@,
        r.content_type@ == (match opt_string_view(content_type) { Some(t) => t, None => octet_stream() }),
        r.path@ == (match opt_string_view(cairn_path) { Some(p) => p, None => path@ }),
{
    Entry {
        bytes,
        content_type: match content_type {
            Some(t) => t,
            None => String::from_str("application/octet-stream"),
        },
        archive: String::from_str(uuid),
        path: match cairn_path {
            Some(p) => p,
            None => String::from_str(path),
        },
    }
}

/// What a successful `HEAD` says of an entry: the same fallbacks as for an
/// entry, and a length only when `Content-Length` is a decimal number.
pub fn entry_meta_from_response(uuid: &str, path: &str, content_type: Option<String>,
    content_length: Option<String>, cairn_path: Option<String>) -> (r: EntryMeta)
    ensures
        r.archive@ == uuid@,
        r.content_type@ == (match opt_string_view(content_type) { Some(t) => t, None => octet_stream() }),
        r.path@ == (match opt_string_view(cairn_path) { Some(p) => p, None => path@ }),
        r.length == (match opt_string_view(content_length) {
            Some(l) => match parse_decimal(l, u64::MAX as nat) {
                Some(v) => Some(v as u64),
                None => None,
            },
            None => None,
        }),
{
    let length = match &content_length {
        Some(l) => parse_decimal_exec(l.as_str(), u64::MAX),
        None => None,
    };
    EntryMeta {
        content_type: match content_type {
            Some(t) => t,
            None => String::from_str("application/octet-stream"),
        },
        length,
        archive: String::from_str(uuid),
        path: match cairn_path {
            Some(p) => p,
            None => String::from_str(path),
        },
    }
}

} // verus!
