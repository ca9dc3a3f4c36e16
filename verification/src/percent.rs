//! Percent-encoding of UTF-8 text for URLs and URIs, and its inverse.

use vstd::prelude::*;
use vstd::utf8::{decode_utf8, encode_utf8, encode_scalar, has_width_1_encoding, leading_byte_width_1, encode_utf8_decode_utf8, encode_utf8_valid_utf8, is_ascii_chars, is_ascii_chars_encode_utf8, valid_utf8};
use vstd::string::StringExecFns;

verus! {

/// Uppercase hexadecimal digit for a value below 16.
pub open spec fn hex_upper(n: u8) -> char {
    if n < 10 { ((n + 48) as u8) as char } else { ((n + 55) as u8) as char }
}

/// Bytes left as they are: ASCII letters and digits, `-`, `_`, `.`, `~`, and
/// `/` when `keep_slash` holds. Every other byte, non-ASCII ones included, is
/// percent-encoded.
pub open spec fn is_kept(b: u8, keep_slash: bool) -> bool {
    (48 <= b && b <= 57) || (65 <= b && b <= 90) || (97 <= b && b <= 122) || b == 45 || b == 95
        || b == 46 || b == 126 || (keep_slash && b == 47)
}

/// The encoding of one byte.
pub open spec fn encode_byte(b: u8, keep_slash: bool) -> Seq<char> {
    if is_kept(b, keep_slash) { seq![b as char] } else { seq!['%', hex_upper(b / 16), hex_upper(b % 16)] }
}

/// The percent-encoding of a byte sequence.
pub open spec fn percent_encode(b: Seq<u8>, keep_slash: bool) -> Seq<char>
    decreases b.len(),
{
    if b.len() == 0 { Seq::empty() } else { encode_byte(b[0], keep_slash) + percent_encode(b.skip(1), keep_slash) }
}

/// ASCII hexadecimal digits, either case, as `char::to_digit(16)` accepts them.
pub open spec fn is_hex_digit(b: u8) -> bool {
    (48 <= b && b <= 57) || (65 <= b && b <= 70) || (97 <= b && b <= 102)
}

pub open spec fn hex_value(b: u8) -> int {
    if 48 <= b && b <= 57 { b - 48 } else if 65 <= b && b <= 70 { b - 55 } else { b - 87 }
}

/// Percent-decoding: every `%` followed by two hexadecimal digits becomes the
/// byte they spell; every other byte stays.
pub open spec fn percent_decode(b: Seq<u8>) -> Seq<u8>
    decreases b.len(),
{
    if b.len() == 0 {
        Seq::empty()
    } else if b[0] == 37 && b.len() >= 3 && is_hex_digit(b[1]) && is_hex_digit(b[2]) {
        seq![(hex_value(b[1]) * 16 + hex_value(b[2])) as u8] + percent_decode(b.skip(3))
    } else {
        seq![b[0]] + percent_decode(b.skip(1))
    }
}

/// The text a percent-encoded string decodes to, when the decoded bytes are
/// UTF-8.
pub open spec fn spec_percent_decode_utf8(s: Seq<char>) -> Option<Seq<char>> {
    let d = percent_decode(encode_utf8(s));
    if valid_utf8(d) { Some(decode_utf8(d)) } else { None }
}

/// `percent_encoding::percent_encode_byte`: the three-character percent-encoding
/// of a byte, `%` and two uppercase hexadecimal digits.
#[verifier::external_body]
fn percent_encode_byte(b: u8) -> (r: &'static str)
    ensures r@ == seq!['%', hex_upper(b / 16), hex_upper(b % 16)],
{
    percent_encoding::percent_encode_byte(b)
}

/// `percent_encoding::percent_decode_str` followed by `PercentDecode::decode_utf8`:
/// the percent-decoded bytes of `s` as text, `None` when they are not UTF-8.
#[verifier::external_body]
pub(crate) fn percent_decode_utf8(s: &str) -> (r: Option<String>)
    ensures
        match r {
            Some(t) => spec_percent_decode_utf8(s@) == Some(t@),
            None => spec_percent_decode_utf8(s@) is None,
        },
{
    percent_encoding::percent_decode_str(s).decode_utf8().ok().map(|t| t.into_owned())
}

/// Appends the percent-encoding of the UTF-8 bytes of `s` to `out`.
pub fn append_percent_encoded(out: &mut String, s: &str, keep_slash: bool)
    ensures final(out)@ == old(out)@ + percent_encode(encode_utf8(s@), keep_slash),
{
    let b = s.as_bytes();
    let ghost start = out@;
    let mut i: usize = 0;
    assert(b@.skip(0) =~= b@);
    while i < b.len()
        invariant
            i <= b.len(),
            b@ == encode_utf8(s@),
            out@ + percent_encode(b@.skip(i as int), keep_slash) == start + percent_encode(b@, keep_slash),
        decreases b.len() - i,
    {
        let byte = b[i];
        proof {
            assert(b@.skip(i as int)[0] == byte);
            assert(b@.skip(i as int).skip(1) =~= b@.skip(i + 1));
        }
        let ghost before = out@;
        if (48 <= byte && byte <= 57) || (65 <= byte && byte <= 90) || (97 <= byte && byte <= 122)
            || byte == 45 || byte == 95 || byte == 46 || byte == 126 || (keep_slash && byte == 47) {
            crate::chars::push_char(out, byte as char);
            assert(out@ == before + encode_byte(byte, keep_slash));
        } else {
            out.append(percent_encode_byte(byte));
            assert(out@ == before + encode_byte(byte, keep_slash));
        }
        i = i + 1;
        assert(out@ + percent_encode(b@.skip(i as int), keep_slash) =~= start + percent_encode(b@, keep_slash));
    }
    assert(b@.skip(i as int) =~= Seq::<u8>::empty());
    assert(out@ =~= start + percent_encode(b@, keep_slash));
}

/// Characters that may appear in a percent-encoding: ASCII, and never `#` or `?`.
pub open spec fn is_encoded_char(c: char) -> bool {
    c <= '\u{7f}' && c != '#' && c != '?'
}

pub proof fn lemma_percent_encode_chars(b: Seq<u8>, keep_slash: bool)
    ensures
        forall|k: int| 0 <= k < percent_encode(b, keep_slash).len()
            ==> is_encoded_char(#[trigger] percent_encode(b, keep_slash)[k]),
    decreases b.len(),
{
    if b.len() > 0 {
        lemma_percent_encode_chars(b.skip(1), keep_slash);
        let e0 = encode_byte(b[0], keep_slash);
        let rest = percent_encode(b.skip(1), keep_slash);
        assert forall|k: int| 0 <= k < e0.len() implies is_encoded_char(#[trigger] e0[k]) by {
            let hi = b[0] / 16;
            let lo = b[0] % 16;
            assert(hi < 16 && lo < 16);
        }
        assert forall|k: int| 0 <= k < (e0 + rest).len() implies is_encoded_char(#[trigger] (e0 + rest)[k]) by {
            if k < e0.len() {
                assert((e0 + rest)[k] == e0[k]);
            } else {
                assert((e0 + rest)[k] == rest[k - e0.len()]);
            }
        }
    }
}

proof fn lemma_char_nonneg(c: char)
    ensures '\0' <= c,
{
}

/// The bytes of a character sequence taken one character to one byte.
pub open spec fn ascii_bytes(cs: Seq<char>) -> Seq<u8> {
    cs.map_values(|c: char| c as u8)
}

proof fn lemma_hex_round_trip(n: u8)
    requires n < 16,
    ensures
        is_hex_digit(hex_upper(n) as u8),
        hex_value(hex_upper(n) as u8) == n,
{
}

proof fn lemma_decode_ascii_encode(b: Seq<u8>, keep_slash: bool)
    ensures percent_decode(ascii_bytes(percent_encode(b, keep_slash))) == b,
    decreases b.len(),
{
    if b.len() == 0 {
        assert(ascii_bytes(percent_encode(b, keep_slash)) =~= Seq::<u8>::empty());
        assert(b =~= Seq::<u8>::empty());
    } else {
        let b0 = b[0];
        let e0 = encode_byte(b0, keep_slash);
        let rest = percent_encode(b.skip(1), keep_slash);
        lemma_decode_ascii_encode(b.skip(1), keep_slash);
        let y = ascii_bytes(rest);
        let a = ascii_bytes(e0 + rest);
        assert(a =~= ascii_bytes(e0) + y);
        if is_kept(b0, keep_slash) {
            assert(a[0] == b0);
            assert(a.skip(1) =~= y);
            assert(percent_decode(a) =~= seq![b0] + percent_decode(y));
        } else {
            lemma_hex_round_trip(b0 / 16);
            lemma_hex_round_trip(b0 % 16);
            assert(a[0] == 37);
            assert(a[1] == hex_upper(b0 / 16) as u8);
            assert(a[2] == hex_upper(b0 % 16) as u8);
            assert(a.skip(3) =~= y);
            assert((hex_value(a[1]) * 16 + hex_value(a[2])) as u8 == b0);
            assert(percent_decode(a) =~= seq![b0] + percent_decode(y));
        }
        assert(b =~= seq![b0] + b.skip(1));
    }
}

/// Decoding the percent-encoding of text gives the text back.
pub proof fn lemma_percent_round_trip(text: Seq<char>, keep_slash: bool)
    ensures spec_percent_decode_utf8(percent_encode(encode_utf8(text), keep_slash)) == Some(text),
{
    let e = percent_encode(encode_utf8(text), keep_slash);
    lemma_percent_encode_chars(encode_utf8(text), keep_slash);
    assert(is_ascii_chars(e)) by {
        assert forall|k: int| 0 <= k < e.len() implies '\0' <= #[trigger] e[k] <= '\u{7f}' by {
            assert(is_encoded_char(e[k]));
            lemma_char_nonneg(e[k]);
        }
    }
    is_ascii_chars_encode_utf8(e);
    assert(encode_utf8(e) =~= ascii_bytes(e));
    lemma_decode_ascii_encode(encode_utf8(text), keep_slash);
    encode_utf8_valid_utf8(text);
    encode_utf8_decode_utf8(text);
}

/// The encoding of two byte runs one after the other is the two encodings
/// one after the other.
pub proof fn lemma_percent_encode_concat(a: Seq<u8>, b: Seq<u8>, keep_slash: bool)
    ensures percent_encode(a + b, keep_slash) == percent_encode(a, keep_slash) + percent_encode(b, keep_slash),
    decreases a.len(),
{
    if a.len() == 0 {
        assert(a + b =~= b);
        assert(percent_encode(a, keep_slash) + percent_encode(b, keep_slash) =~= percent_encode(b, keep_slash));
    } else {
        assert((a + b).skip(1) =~= a.skip(1) + b);
        assert((a + b)[0] == a[0]);
        lemma_percent_encode_concat(a.skip(1), b, keep_slash);
        assert(percent_encode(a + b, keep_slash) =~= percent_encode(a, keep_slash) + percent_encode(b, keep_slash));
    }
}

/// UTF-8 encodes text one character after another.
pub proof fn lemma_encode_utf8_concat(a: Seq<char>, b: Seq<char>)
    ensures encode_utf8(a + b) == encode_utf8(a) + encode_utf8(b),
    decreases a.len(),
{
    if a.len() == 0 {
        assert(a + b =~= b);
        assert(encode_utf8(a) + encode_utf8(b) =~= encode_utf8(b));
    } else {
        assert((a + b).drop_first() =~= a.drop_first() + b);
        assert((a + b)[0] == a[0]);
        lemma_encode_utf8_concat(a.drop_first(), b);
        assert(encode_utf8(a + b) =~= encode_utf8(a) + encode_utf8(b));
    }
}

/// A `/` is one byte of UTF-8, which the URI encoding leaves as it is.
pub proof fn lemma_slash_encodes_to_itself()
    ensures percent_encode(encode_utf8(seq!['/']), true) == seq!['/'],
{
    assert(('/' as u32) == 47u32);
    assert(has_width_1_encoding(47u32));
    assert(leading_byte_width_1(47u32) == 47u8) by (bit_vector);
    assert(seq!['/'].drop_first() =~= Seq::<char>::empty());
    assert(encode_utf8(Seq::<char>::empty()) =~= Seq::<u8>::empty());
    assert(encode_scalar(47u32) =~= seq![47u8]);
    assert(encode_utf8(seq!['/']) =~= seq![47u8]);
    assert(seq![47u8].skip(1) =~= Seq::<u8>::empty());
    assert(percent_encode(Seq::<u8>::empty(), true) =~= Seq::<char>::empty());
    assert((47u8 as char) == '/');
    assert(encode_byte(47u8, true) =~= seq!['/']);
    assert(percent_encode(seq![47u8], true) =~= seq!['/']);
}

} // verus!
