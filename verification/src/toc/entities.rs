//! Decoding of HTML character references.

use vstd::prelude::*;
use vstd::slice::slice_subrange;
use crate::chars::{find_char, find_char_exec, lemma_find_char_bounds, opt_int, utf8_width, utf8_width_exec};

verus! {

/// The first `;` at or after `j` that starts fewer than 12 bytes (counting
/// `acc` bytes already passed) after the reference began.
pub open spec fn semi_in_window(s: Seq<char>, j: int, acc: int) -> Option<int>
    decreases s.len() - j,
{
    if j < 0 || j >= s.len() || acc >= 12 {
        None
    } else if s[j] == ';' {
        Some(j)
    } else {
        semi_in_window(s, j + 1, acc + utf8_width(s[j]))
    }
}

pub proof fn lemma_semi_in_window(s: Seq<char>, j: int, acc: int)
    ensures semi_in_window(s, j, acc) matches Some(m) ==> j <= m < s.len() && s[m] == ';',
    decreases s.len() - j,
{
    if !(j < 0 || j >= s.len() || acc >= 12) && s[j] != ';' {
        lemma_semi_in_window(s, j + 1, acc + utf8_width(s[j]));
    }
}

/// Value of `c` as a digit in `radix` (at most 36), as `char::to_digit` has it.
pub open spec fn digit_value(c: char, radix: nat) -> Option<nat> {
    let v: int = if '0' <= c && c <= '9' {
        (c as u32) - 48
    } else if 'a' <= c && c <= 'z' {
        (c as u32) - 97 + 10
    } else if 'A' <= c && c <= 'Z' {
        (c as u32) - 65 + 10
    } else {
        -1
    };
    if 0 <= v && v < radix { Some(v as nat) } else { None }
}

/// Value of the digits `d[i..]` in `radix`, starting from the value `acc` of
/// the digits before them; `None` when one is not a digit.
pub open spec fn digits_from(d: Seq<char>, i: int, acc: nat, radix: nat) -> Option<nat>
    decreases d.len() - i,
{
    if i < 0 || i >= d.len() {
        Some(acc)
    } else {
        match digit_value(d[i], radix) {
            Some(v) => digits_from(d, i + 1, acc * radix + v, radix),
            None => None,
        }
    }
}

/// `u32::from_str_radix`: an optional `+`, then at least one digit, with a
/// value that fits in 32 bits.
pub open spec fn parse_u32(d: Seq<char>, radix: nat) -> Option<nat> {
    if d.len() == 0 || (d.len() == 1 && (d[0] == '+' || d[0] == '-')) {
        None
    } else {
        let start: int = if d[0] == '+' { 1 } else { 0 };
        match digits_from(d, start, 0, radix) {
            Some(v) => if v <= 0xFFFF_FFFF { Some(v) } else { None },
            None => None,
        }
    }
}

/// Code points that are Unicode scalar values, which `char::from_u32` accepts.
pub open spec fn is_scalar_value(v: nat) -> bool {
    v <= 0x10FFFF && !(0xD800 <= v && v <= 0xDFFF)
}

/// The character a numeric reference body (`#65`, `#x41`) stands for.
pub open spec fn numeric_entity(e: Seq<char>) -> Option<char> {
    if e.len() >= 1 && e[0] == '#' {
        let n = e.skip(1);
        let v = if n.len() >= 1 && (n[0] == 'x' || n[0] == 'X') {
            parse_u32(n.skip(1), 16)
        } else {
            parse_u32(n, 10)
        };
        match v {
            Some(x) => if is_scalar_value(x) { Some(x as char) } else { None },
            None => None,
        }
    } else {
        None
    }
}

/// The character a reference body (between `&` and `;`) stands for.
pub open spec fn spec_entity(e: Seq<char>) -> Option<char> {
    if e == seq!['a', 'm', 'p'] {
        Some('&')
    } else if e == seq!['l', 't'] {
        Some('<')
    } else if e == seq!['g', 't'] {
        Some('>')
    } else if e == seq!['q', 'u', 'o', 't'] {
        Some('"')
    } else if e == seq!['a', 'p', 'o', 's'] || e == seq!['#', '3', '9'] {
        Some('\'')
    } else if e == seq!['n', 'b', 's', 'p'] {
        Some('\u{a0}')
    } else {
        numeric_entity(e)
    }
}

/// `s[i..]` with its character references decoded. A `&` that does not start
/// a known reference closed by `;` within 12 bytes is kept as it is.
pub open spec fn decode_from(s: Seq<char>, i: int) -> Seq<char>
    decreases s.len() - i,
{
    if i < 0 || i > s.len() {
        Seq::empty()
    } else {
        proof { lemma_find_char_bounds(s, i, '&'); }
        match find_char(s, i, '&') {
            None => s.subrange(i, s.len() as int),
            Some(a) => {
                proof { lemma_semi_in_window(s, a, 0); }
                s.subrange(i, a) + match semi_in_window(s, a, 0) {
                    None => seq!['&'] + decode_from(s, a + 1),
                    Some(m) => match spec_entity(s.subrange(a + 1, m)) {
                        Some(c) => seq![c] + decode_from(s, m + 1),
                        None => seq!['&'] + decode_from(s, a + 1),
                    },
                }
            },
        }
    }
}

/// `s` with its character references decoded.
pub open spec fn spec_decode_entities(s: Seq<char>) -> Seq<char> {
    decode_from(s, 0)
}

proof fn lemma_find_char_shift(p: Seq<char>, s: Seq<char>, i: int, c: char)
    requires 0 <= i,
    ensures
        find_char(p + s, p.len() + i, c) == (match find_char(s, i, c) {
            Some(j) => Some(p.len() + j),
            None => None::<int>,
        }),
    decreases s.len() - i,
{
    if i < s.len() {
        assert((p + s)[p.len() + i] == s[i]);
        if s[i] != c {
            lemma_find_char_shift(p, s, i + 1, c);
        }
    }
}

proof fn lemma_semi_in_window_shift(p: Seq<char>, s: Seq<char>, j: int, acc: int)
    requires 0 <= j,
    ensures
        semi_in_window(p + s, p.len() + j, acc) == (match semi_in_window(s, j, acc) {
            Some(m) => Some(p.len() + m),
            None => None::<int>,
        }),
    decreases s.len() - j,
{
    if j < s.len() && acc < 12 {
        assert((p + s)[p.len() + j] == s[j]);
        if s[j] != ';' {
            lemma_semi_in_window_shift(p, s, j + 1, acc + utf8_width(s[j]));
        }
    }
}

/// Decoding the text after a prefix does not depend on the prefix.
proof fn lemma_decode_from_shift(p: Seq<char>, s: Seq<char>, i: int)
    requires 0 <= i <= s.len(),
    ensures decode_from(p + s, p.len() + i) == decode_from(s, i),
    decreases s.len() - i,
{
    let x = p + s;
    let k = p.len() as int;
    lemma_find_char_shift(p, s, i, '&');
    lemma_find_char_bounds(s, i, '&');
    match find_char(s, i, '&') {
        None => {
            assert(x.subrange(k + i, x.len() as int) =~= s.subrange(i, s.len() as int));
        },
        Some(a) => {
            lemma_semi_in_window_shift(p, s, a, 0);
            lemma_semi_in_window(s, a, 0);
            assert(x.subrange(k + i, k + a) =~= s.subrange(i, a));
            lemma_decode_from_shift(p, s, a + 1);
            match semi_in_window(s, a, 0) {
                None => {},
                Some(m) => {
                    assert(x.subrange(k + a + 1, k + m) =~= s.subrange(a + 1, m));
                    lemma_decode_from_shift(p, s, m + 1);
                },
            }
        },
    }
}

proof fn lemma_semi_in_ascii_reference(x: Seq<char>, n: int, j: int)
    requires
        2 <= n <= 12,
        n <= x.len(),
        0 <= j < n,
        x[n - 1] == ';',
        forall|k: int| 0 <= k < n - 1 ==> #[trigger] x[k] != ';' && (x[k] as u32) < 0x80,
    ensures semi_in_window(x, j, j) == Some(n - 1),
    decreases n - j,
{
    if j < n - 1 {
        assert(x[j] != ';' && (x[j] as u32) < 0x80);
        lemma_semi_in_ascii_reference(x, n, j + 1);
    }
}

/// A reference `r` (`&`, a name or number, `;`) of ASCII characters that
/// stands for `c`, at the start of a text, decodes to `c`, and the rest of
/// the text decodes on its own.
proof fn lemma_reference_at_start(r: Seq<char>, c: char, s: Seq<char>)
    requires
        2 <= r.len() <= 12,
        r[0] == '&',
        r[r.len() - 1] == ';',
        forall|k: int| 0 <= k < r.len() - 1 ==> #[trigger] r[k] != ';' && (r[k] as u32) < 0x80,
        spec_entity(r.subrange(1, r.len() - 1)) == Some(c),
    ensures spec_decode_entities(r + s) == seq![c] + spec_decode_entities(s),
{
    let x = r + s;
    let n = r.len() as int;
    assert(x[0] == '&');
    assert forall|k: int| 0 <= k < n - 1 implies #[trigger] x[k] != ';' && (x[k] as u32) < 0x80 by {
        assert(x[k] == r[k]);
    }
    assert(x[n - 1] == ';');
    lemma_semi_in_ascii_reference(x, n, 0);
    assert(x.subrange(1, n - 1) =~= r.subrange(1, n - 1));
    assert(x.subrange(0, 0) =~= Seq::<char>::empty());
    lemma_decode_from_shift(r, s, 0);
    assert(decode_from(x, 0) =~= seq![c] + decode_from(x, n));
}

/// The named references decode to the characters HTML defines for them:
/// `&quot;` to `"`, `&apos;` and `&#39;` to `'`, `&amp;` to `&`, `&lt;` to
/// `<`, `&gt;` to `>` and `&nbsp;` to U+00A0, and what follows decodes on
/// its own.
pub proof fn law_named_references_decode(s: Seq<char>)
    ensures
        spec_decode_entities(seq!['&', 'q', 'u', 'o', 't', ';'] + s) == seq!['"'] + spec_decode_entities(s),
        spec_decode_entities(seq!['&', 'a', 'p', 'o', 's', ';'] + s) == seq!['\''] + spec_decode_entities(s),
        spec_decode_entities(seq!['&', '#', '3', '9', ';'] + s) == seq!['\''] + spec_decode_entities(s),
        spec_decode_entities(seq!['&', 'a', 'm', 'p', ';'] + s) == seq!['&'] + spec_decode_entities(s),
        spec_decode_entities(seq!['&', 'l', 't', ';'] + s) == seq!['<'] + spec_decode_entities(s),
        spec_decode_entities(seq!['&', 'g', 't', ';'] + s) == seq!['>'] + spec_decode_entities(s),
        spec_decode_entities(seq!['&', 'n', 'b', 's', 'p', ';'] + s) == seq!['\u{a0}'] + spec_decode_entities(s),
{
    let quot = seq!['&', 'q', 'u', 'o', 't', ';'];
    assert(quot.subrange(1, 5) =~= seq!['q', 'u', 'o', 't']);
    lemma_reference_at_start(quot, '"', s);
    let apos = seq!['&', 'a', 'p', 'o', 's', ';'];
    assert(apos.subrange(1, 5) =~= seq!['a', 'p', 'o', 's']);
    lemma_reference_at_start(apos, '\'', s);
    let n39 = seq!['&', '#', '3', '9', ';'];
    assert(n39.subrange(1, 4) =~= seq!['#', '3', '9']);
    lemma_reference_at_start(n39, '\'', s);
    let amp = seq!['&', 'a', 'm', 'p', ';'];
    assert(amp.subrange(1, 4) =~= seq!['a', 'm', 'p']);
    lemma_reference_at_start(amp, '&', s);
    let lt = seq!['&', 'l', 't', ';'];
    assert(lt.subrange(1, 3) =~= seq!['l', 't']);
    lemma_reference_at_start(lt, '<', s);
    let gt = seq!['&', 'g', 't', ';'];
    assert(gt.subrange(1, 3) =~= seq!['g', 't']);
    lemma_reference_at_start(gt, '>', s);
    let nbsp = seq!['&', 'n', 'b', 's', 'p', ';'];
    assert(nbsp.subrange(1, 5) =~= seq!['n', 'b', 's', 'p']);
    lemma_reference_at_start(nbsp, '\u{a0}', s);
}

/// `char::from_u32`.
#[verifier::external_body]
fn char_from_u32(v: u32) -> (r: Option<char>)
    ensures r == (if is_scalar_value(v as nat) { Some((v as nat) as char) } else { None }),
{
    char::from_u32(v)
}

pub fn slice_eq(a: &[char], b: &[char]) -> (r: bool)
    ensures r == (a@ == b@),
{
    if a.len() != b.len() {
        return false;
    }
    let mut k: usize = 0;
    while k < a.len()
        invariant
            a.len() == b.len(),
            k <= a.len(),
            forall|m: int| 0 <= m < k ==> a@[m] == b@[m],
        decreases a.len() - k,
    {
        if a[k] != b[k] {
            return false;
        }
        k = k + 1;
    }
    assert(a@ =~= b@);
    true
}

fn digit_value_exec(c: char, radix: u32) -> (r: Option<u32>)
    requires radix <= 36,
    ensures
        opt_nat(r) == digit_value(c, radix as nat),
{
    let v: u32 = if '0' <= c && c <= '9' {
        (c as u32) - 48
    } else if 'a' <= c && c <= 'z' {
        (c as u32) - 97 + 10
    } else if 'A' <= c && c <= 'Z' {
        (c as u32) - 65 + 10
    } else {
        return None;
    };
    if v < radix { Some(v) } else { None }
}

pub open spec fn opt_nat(o: Option<u32>) -> Option<nat> {
    match o {
        Some(v) => Some(v as nat),
        None => None,
    }
}

proof fn lemma_digits_from_grows(d: Seq<char>, i: int, acc: nat, radix: nat)
    requires radix >= 1,
    ensures digits_from(d, i, acc, radix) matches Some(v) ==> acc <= v,
    decreases d.len() - i,
{
    if !(i < 0 || i >= d.len()) {
        if let Some(v) = digit_value(d[i], radix) {
            assert(acc <= acc * radix + v) by (nonlinear_arith) requires radix >= 1;
            lemma_digits_from_grows(d, i + 1, acc * radix + v, radix);
        }
    }
}

fn parse_u32_exec(d: &[char], radix: u32) -> (r: Option<u32>)
    requires 2 <= radix <= 36,
    ensures opt_nat(r) == parse_u32(d@, radix as nat),
{
    if d.len() == 0 || (d.len() == 1 && (d[0] == '+' || d[0] == '-')) {
        return None;
    }
    let start: usize = if d[0] == '+' { 1 } else { 0 };
    let mut i = start;
    let mut acc: u64 = 0;
    while i < d.len()
        invariant
            start <= i <= d.len(),
            d.len() > 0,
            !(d.len() == 1 && (d@[0] == '+' || d@[0] == '-')),
            start == (if d@[0] == '+' { 1usize } else { 0usize }),
            acc <= 0xFFFF_FFFF,
            2 <= radix <= 36,
            digits_from(d@, start as int, 0, radix as nat) == digits_from(d@, i as int, acc as nat, radix as nat),
        decreases d.len() - i,
    {
        match digit_value_exec(d[i], radix) {
            None => {
                return None;
            },
            Some(v) => {
                assert(acc * (radix as u64) + (v as u64) <= 0xFFFF_FFFF * 36 + 36) by (nonlinear_arith)
                    requires acc <= 0xFFFF_FFFF, radix <= 36, v < 36;
                let next = acc * (radix as u64) + (v as u64);
                if next > 0xFFFF_FFFF {
                    proof { lemma_digits_from_grows(d@, i + 1, next as nat, radix as nat); }
                    return None;
                }
                acc = next;
            },
        }
        i = i + 1;
    }
    Some(acc as u32)
}

fn numeric_entity_exec(e: &[char]) -> (r: Option<char>)
    ensures r == numeric_entity(e@),
{
    if e.len() >= 1 && e[0] == '#' {
        let n = slice_subrange(e, 1, e.len());
        assert(n@ == e@.skip(1));
        let v = if n.len() >= 1 && (n[0] == 'x' || n[0] == 'X') {
            let h = slice_subrange(n, 1, n.len());
            assert(h@ == n@.skip(1));
            parse_u32_exec(h, 16)
        } else {
            parse_u32_exec(n, 10)
        };
        match v {
            Some(x) => char_from_u32(x),
            None => None,
        }
    } else {
        None
    }
}

fn entity_exec(e: &[char]) -> (r: Option<char>)
    ensures r == spec_entity(e@),
{
    if slice_eq(e, &['a', 'm', 'p']) {
        Some('&')
    } else if slice_eq(e, &['l', 't']) {
        Some('<')
    } else if slice_eq(e, &['g', 't']) {
        Some('>')
    } else if slice_eq(e, &['q', 'u', 'o', 't']) {
        Some('"')
    } else if slice_eq(e, &['a', 'p', 'o', 's']) || slice_eq(e, &['#', '3', '9']) {
        Some('\'')
    } else if slice_eq(e, &['n', 'b', 's', 'p']) {
        Some('\u{a0}')
    } else {
        numeric_entity_exec(e)
    }
}

/// `s` with its character references decoded.
pub fn decode_entities(s: &[char]) -> (r: Vec<char>)
    ensures r@ == spec_decode_entities(s@),
{
    let mut out: Vec<char> = Vec::new();
    let mut i: usize = 0;
    loop
        invariant
            i <= s.len(),
            out@ + decode_from(s@, i as int) == spec_decode_entities(s@),
        decreases s.len() - i,
    {
        proof { lemma_find_char_bounds(s@, i as int, '&'); }
        match find_char_exec(s, i, '&') {
            None => {
                let mut k = i;
                while k < s.len()
                    invariant
                        i <= k <= s.len(),
                        out@ + s@.subrange(k as int, s.len() as int) == spec_decode_entities(s@),
                    decreases s.len() - k,
                {
                    proof {
                        assert(s@.subrange(k as int, s.len() as int) =~= seq![s@[k as int]] + s@.subrange(k + 1, s.len() as int));
                    }
                    out.push(s[k]);
                    k = k + 1;
                }
                assert(s@.subrange(s.len() as int, s.len() as int) =~= Seq::<char>::empty());
                assert(out@ =~= out@ + Seq::<char>::empty());
                return out;
            },
            Some(a) => {
                let ghost before = out@;
                let mut k = i;
                while k < a
                    invariant
                        i <= k <= a < s.len(),
                        out@ == before + s@.subrange(i as int, k as int),
                    decreases a - k,
                {
                    out.push(s[k]);
                    k = k + 1;
                }
                proof { lemma_semi_in_window(s@, a as int, 0); }
                let mut j = a;
                let mut acc: usize = 0;
                let mut semi: Option<usize> = None;
                while j < s.len() && acc < 12
                    invariant_except_break
                        semi is None,
                    invariant
                        a <= j <= s.len(),
                        acc < 16,
                        semi_in_window(s@, a as int, 0) == semi_in_window(s@, j as int, acc as int),
                    ensures
                        opt_int(semi) == semi_in_window(s@, a as int, 0),
                    decreases s.len() - j,
                {
                    if s[j] == ';' {
                        semi = Some(j);
                        break;
                    }
                    acc = acc + utf8_width_exec(s[j]);
                    j = j + 1;
                }
                assert(opt_int(semi) == semi_in_window(s@, a as int, 0));
                let decoded = match semi {
                    None => None,
                    Some(m) => entity_exec(slice_subrange(s, a + 1, m)),
                };
                match decoded {
                    Some(c) => {
                        out.push(c);
                        i = semi.unwrap() + 1;
                    },
                    None => {
                        out.push('&');
                        i = a + 1;
                    },
                }
                assert(out@ + decode_from(s@, i as int) =~= spec_decode_entities(s@));
            },
        }
    }
}

} // verus!
