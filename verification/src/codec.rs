//! The wire codec for the JSON-RPC dialect this crate speaks.
//!
//! One JSON object per message. A request is encoded canonically as
//! `{"method":M,"params":[P1,...],"id":N}` where `M` and each `Pk` are JSON
//! strings and `N` is an unsigned decimal integer. A response is an object
//! with the keys `result`, `error` and `id`, in any order, each of which may
//! be `null` or absent.
//!
//! Encoding and decoding are specified against spec-level functions over
//! `Seq<char>`, and decoding the canonical encoding of a request gives the
//! request back ([`lemma_request_roundtrip`]).

use vstd::prelude::*;
use vstd::string::StrSliceExecFns;

use crate::error::Error;

verus! {

/// Relies on std's `String::push`, which appends the given `char` to the
/// end of the string.
pub assume_specification[ String::push ](s: &mut String, c: char)
    ensures
        final(s)@ == old(s)@.push(c),
;

/// Relies on std's `char::from_u32`, which returns `Some` exactly for
/// Unicode scalar values (not a surrogate, at most 0x10FFFF), and whose
/// result carries the given value.
pub assume_specification[ char::from_u32 ](v: u32) -> (r: Option<char>)
    ensures
        r is Some <==> (v < 0xd800 || (0xe000 <= v && v <= 0x10ffff)),
        r matches Some(c) ==> c as u32 == v,
;

// ---------------------------------------------------------------------------
// Characters
// ---------------------------------------------------------------------------

/// JSON insignificant whitespace.
pub open spec fn is_ws(c: char) -> bool {
    c == ' ' || c == '\t' || c == '\n' || c == '\r'
}

/// Decimal digit.
pub open spec fn is_digit(c: char) -> bool {
    48 <= c as u32 <= 57
}

/// Numeric value of a decimal digit (0 for non-digits).
pub open spec fn digit_val(c: char) -> nat {
    if is_digit(c) {
        (c as u32 - 48) as nat
    } else {
        0
    }
}

/// The decimal digit character for `d` (`d < 10`).
pub open spec fn digit_char(d: int) -> char {
    if d == 0 {
        '0'
    } else if d == 1 {
        '1'
    } else if d == 2 {
        '2'
    } else if d == 3 {
        '3'
    } else if d == 4 {
        '4'
    } else if d == 5 {
        '5'
    } else if d == 6 {
        '6'
    } else if d == 7 {
        '7'
    } else if d == 8 {
        '8'
    } else {
        '9'
    }
}

fn digit_char_exec(d: usize) -> (c: char)
    requires
        d < 10,
    ensures
        c == digit_char(d as int),
{
    match d {
        0 => '0',
        1 => '1',
        2 => '2',
        3 => '3',
        4 => '4',
        5 => '5',
        6 => '6',
        7 => '7',
        8 => '8',
        _ => '9',
    }
}

// ---------------------------------------------------------------------------
// String escaping (encoding side)
// ---------------------------------------------------------------------------

/// The hexadecimal digit character for `d` (`d < 16`).
pub open spec fn hex_digit_char(d: int) -> char {
    if d == 0 {
        '0'
    } else if d == 1 {
        '1'
    } else if d == 2 {
        '2'
    } else if d == 3 {
        '3'
    } else if d == 4 {
        '4'
    } else if d == 5 {
        '5'
    } else if d == 6 {
        '6'
    } else if d == 7 {
        '7'
    } else if d == 8 {
        '8'
    } else if d == 9 {
        '9'
    } else if d == 10 {
        'a'
    } else if d == 11 {
        'b'
    } else if d == 12 {
        'c'
    } else if d == 13 {
        'd'
    } else if d == 14 {
        'e'
    } else {
        'f'
    }
}

fn hex_digit_exec(d: u32) -> (c: char)
    requires
        d < 16,
    ensures
        c == hex_digit_char(d as int),
{
    match d {
        0 => '0',
        1 => '1',
        2 => '2',
        3 => '3',
        4 => '4',
        5 => '5',
        6 => '6',
        7 => '7',
        8 => '8',
        9 => '9',
        10 => 'a',
        11 => 'b',
        12 => 'c',
        13 => 'd',
        14 => 'e',
        _ => 'f',
    }
}

/// How one character appears inside an encoded JSON string: the common
/// escapes, `\u00XX` for the remaining control characters, the
/// character itself otherwise.
pub open spec fn esc_char(c: char) -> Seq<char> {
    if c == '"' {
        seq!['\\', '"']
    } else if c == '\\' {
        seq!['\\', '\\']
    } else if c == '\n' {
        seq!['\\', 'n']
    } else if c == '\r' {
        seq!['\\', 'r']
    } else if c == '\t' {
        seq!['\\', 't']
    } else if (c as u32) < 32 {
        seq![
            '\\',
            'u',
            '0',
            '0',
            hex_digit_char((c as u32 / 16) as int),
            hex_digit_char((c as u32 % 16) as int),
        ]
    } else {
        seq![c]
    }
}

/// The body of an encoded JSON string: every character escaped as needed.
pub open spec fn escape_string(s: Seq<char>) -> Seq<char>
    decreases s.len(),
{
    if s.len() == 0 {
        Seq::empty()
    } else {
        esc_char(s[0]) + escape_string(s.skip(1))
    }
}

/// A full JSON string token: quote, escaped body, quote.
pub open spec fn quoted(s: Seq<char>) -> Seq<char> {
    seq!['"'] + escape_string(s) + seq!['"']
}

proof fn lemma_escape_snoc(s: Seq<char>, c: char)
    ensures
        escape_string(s.push(c)) == escape_string(s) + esc_char(c),
    decreases s.len(),
{
    if s.len() == 0 {
        assert(s.push(c).skip(1) =~= Seq::<char>::empty());
        assert(escape_string(Seq::<char>::empty()) == Seq::<char>::empty());
        assert(s.push(c)[0] == c);
        assert(escape_string(s.push(c)) == esc_char(c) + escape_string(s.push(c).skip(1)));
        assert(escape_string(s.push(c)) =~= escape_string(s) + esc_char(c));
    } else {
        assert(s.push(c).skip(1) =~= s.skip(1).push(c));
        lemma_escape_snoc(s.skip(1), c);
        assert(escape_string(s.push(c)) == esc_char(s.push(c)[0]) + escape_string(
            s.push(c).skip(1),
        ));
        assert(s.push(c)[0] == s[0]);
        assert(escape_string(s) == esc_char(s[0]) + escape_string(s.skip(1)));
        assert(escape_string(s.push(c)) =~= escape_string(s) + esc_char(c));
    }
}

/// Appends the canonical JSON string token for `s` to `out`.
fn push_quoted(out: &mut String, s: &str)
    ensures
        final(out)@ == old(out)@ + quoted(s@),
{
    out.push('"');
    let n = s.unicode_len();
    let mut i: usize = 0;
    while i < n
        invariant
            n == s@.len(),
            i <= n,
            out@ == old(out)@ + seq!['"'] + escape_string(s@.subrange(0, i as int)),
        decreases n - i,
    {
        let c = s.get_char(i);
        if c == '"' {
            out.push('\\');
            out.push('"');
        } else if c == '\\' {
            out.push('\\');
            out.push('\\');
        } else if c == '\n' {
            out.push('\\');
            out.push('n');
        } else if c == '\r' {
            out.push('\\');
            out.push('r');
        } else if c == '\t' {
            out.push('\\');
            out.push('t');
        } else {
            let u = c as u32;
            if u < 32 {
                out.push('\\');
                out.push('u');
                out.push('0');
                out.push('0');
                out.push(hex_digit_exec(u / 16));
                out.push(hex_digit_exec(u % 16));
            } else {
                out.push(c);
            }
        }
        proof {
            lemma_escape_snoc(s@.subrange(0, i as int), s@[i as int]);
            assert(s@.subrange(0, i + 1 as int) =~= s@.subrange(0, i as int).push(s@[i as int]));
            assert(out@ =~= old(out)@ + seq!['"'] + escape_string(s@.subrange(0, i + 1 as int)));
        }
        i += 1;
    }
    out.push('"');
    proof {
        assert(s@.subrange(0, n as int) =~= s@);
        assert(out@ =~= old(out)@ + quoted(s@));
    }
}

// ---------------------------------------------------------------------------
// Decimal rendering of request ids
// ---------------------------------------------------------------------------

/// The decimal digits of `n`, most significant first, no leading zeros
/// (a single `'0'` for zero).
pub open spec fn dec_digits(n: nat) -> Seq<char>
    decreases n,
{
    if n < 10 {
        seq![digit_char(n as int)]
    } else {
        dec_digits(n / 10).push(digit_char((n % 10) as int))
    }
}

/// Appends the decimal rendering of `n` to `out`.
fn push_dec_digits(out: &mut String, n: usize)
    ensures
        final(out)@ == old(out)@ + dec_digits(n as nat),
    decreases n,
{
    if n < 10 {
        out.push(digit_char_exec(n));
        proof {
            assert(out@ =~= old(out)@ + dec_digits(n as nat));
        }
    } else {
        push_dec_digits(out, n / 10);
        out.push(digit_char_exec(n % 10));
        proof {
            assert(out@ =~= old(out)@ + dec_digits(n as nat));
        }
    }
}

// ---------------------------------------------------------------------------
// Request encoding
// ---------------------------------------------------------------------------

/// The body of the encoded `params` array: quoted strings joined by commas.
pub open spec fn params_body(ps: Seq<Seq<char>>) -> Seq<char>
    decreases ps.len(),
{
    if ps.len() == 0 {
        Seq::empty()
    } else if ps.len() == 1 {
        quoted(ps[0])
    } else {
        quoted(ps[0]) + seq![','] + params_body(ps.skip(1))
    }
}

proof fn lemma_params_body_snoc(ps: Seq<Seq<char>>, p: Seq<char>)
    ensures
        ps.len() == 0 ==> params_body(ps.push(p)) == quoted(p),
        ps.len() > 0 ==> params_body(ps.push(p)) == params_body(ps) + seq![','] + quoted(p),
    decreases ps.len(),
{
    if ps.len() == 0 {
        assert(params_body(ps.push(p)) =~= quoted(p));
    } else if ps.len() == 1 {
        assert(ps.push(p).skip(1) =~= seq![p]);
        assert(params_body(ps.push(p)) == quoted(ps.push(p)[0]) + seq![','] + params_body(
            ps.push(p).skip(1),
        ));
        assert(params_body(seq![p]) == quoted(p));
        assert(ps.push(p)[0] == ps[0]);
        assert(params_body(ps.push(p)) =~= params_body(ps) + seq![','] + quoted(p));
    } else {
        assert(ps.push(p).skip(1) =~= ps.skip(1).push(p));
        lemma_params_body_snoc(ps.skip(1), p);
        assert(params_body(ps.push(p)) == quoted(ps.push(p)[0]) + seq![','] + params_body(
            ps.push(p).skip(1),
        ));
        assert(ps.push(p)[0] == ps[0]);
        assert(params_body(ps) == quoted(ps[0]) + seq![','] + params_body(ps.skip(1)));
        assert(params_body(ps.push(p)) =~= params_body(ps) + seq![','] + quoted(p));
    }
}

/// The canonical encoding of a request.
pub open spec fn spec_encode_request(method: Seq<char>, params: Seq<Seq<char>>, id: nat) -> Seq<
    char,
> {
    "{\"method\":"@ + quoted(method) + ",\"params\":["@ + params_body(params) + "],\"id\":"@
        + dec_digits(id) + "}"@
}

/// Encodes one request as a single JSON document, canonically.
pub fn encode_request(method: &str, params: &Vec<String>, id: usize) -> (s: String)
    ensures
        s@ == spec_encode_request(method@, params.deep_view(), id as nat),
{
    let mut out = String::new();
    out.append("{\"method\":");
    push_quoted(&mut out, method);
    out.append(",\"params\":[");
    let ghost mid = out@;
    let n = params.len();
    let mut i: usize = 0;
    while i < n
        invariant
            n == params.len(),
            i <= n,
            out@ == mid + params_body(params.deep_view().subrange(0, i as int)),
        decreases n - i,
    {
        if i > 0 {
            out.push(',');
        }
        push_quoted(&mut out, params[i].as_str());
        proof {
            lemma_params_body_snoc(
                params.deep_view().subrange(0, i as int),
                params.deep_view()[i as int],
            );
            assert(params.deep_view().subrange(0, i + 1 as int) =~= params.deep_view().subrange(
                0,
                i as int,
            ).push(params.deep_view()[i as int]));
            assert(out@ =~= mid + params_body(params.deep_view().subrange(0, i + 1 as int)));
        }
        i += 1;
    }
    proof {
        assert(params.deep_view().subrange(0, n as int) =~= params.deep_view());
    }
    out.append("],\"id\":");
    push_dec_digits(&mut out, id);
    out.push('}');
    proof {
        reveal_strlit("}");
        assert(out@ =~= spec_encode_request(method@, params.deep_view(), id as nat));
    }
    out
}

// ---------------------------------------------------------------------------
// Decoding: whitespace and string tokens
// ---------------------------------------------------------------------------

/// First index at or after `i` holding no insignificant whitespace.
pub open spec fn skip_ws(s: Seq<char>, i: int) -> int
    decreases s.len() - i,
{
    if 0 <= i < s.len() && is_ws(s[i]) {
        skip_ws(s, i + 1)
    } else {
        i
    }
}

proof fn lemma_skip_ws_bounds(s: Seq<char>, i: int)
    requires
        0 <= i <= s.len(),
    ensures
        i <= skip_ws(s, i) <= s.len(),
        skip_ws(s, i) < s.len() ==> !is_ws(s[skip_ws(s, i)]),
    decreases s.len() - i,
{
    if i < s.len() && is_ws(s[i]) {
        lemma_skip_ws_bounds(s, i + 1);
    }
}

/// Value of one hexadecimal digit.
pub open spec fn hex_val(c: char) -> Option<nat> {
    if 48 <= c as u32 <= 57 {
        Some((c as u32 - 48) as nat)
    } else if 97 <= c as u32 <= 102 {
        Some((c as u32 - 87) as nat)
    } else if 65 <= c as u32 <= 70 {
        Some((c as u32 - 55) as nat)
    } else {
        None
    }
}

fn hex_val_exec(c: char) -> (r: Option<u8>)
    ensures
        match hex_val(c) {
            Some(v) => r == Some(v as u8),
            None => r is None,
        },
{
    let u = c as u32;
    if 48 <= u && u <= 57 {
        Some((u - 48) as u8)
    } else if 97 <= u && u <= 102 {
        Some((u - 87) as u8)
    } else if 65 <= u && u <= 70 {
        Some((u - 55) as u8)
    } else {
        None
    }
}

/// What a single-character escape stands for.
pub open spec fn unesc(c: char) -> Option<char> {
    if c == '"' {
        Some('"')
    } else if c == '\\' {
        Some('\\')
    } else if c == '/' {
        Some('/')
    } else if c == 'n' {
        Some('\n')
    } else if c == 'r' {
        Some('\r')
    } else if c == 't' {
        Some('\t')
    } else if c == 'b' {
        Some('\u{8}')
    } else if c == 'f' {
        Some('\u{c}')
    } else {
        None
    }
}

/// Parses the body of a JSON string starting just after the opening quote
/// at index `i`; returns the decoded content and the index just after the
/// closing quote. Accepts the single-character escapes and `\uXXXX`
/// for any scalar value in the basic plane (no surrogate pairs).
pub open spec fn parse_string_body(s: Seq<char>, i: int) -> Option<(Seq<char>, int)>
    decreases s.len() - i,
{
    if i >= s.len() {
        None
    } else if s[i] == '"' {
        Some((Seq::empty(), i + 1))
    } else if s[i] == '\\' {
        if i + 1 >= s.len() {
            None
        } else if s[i + 1] == 'u' {
            if i + 6 > s.len() {
                None
            } else if hex_val(s[i + 2]) is Some && hex_val(s[i + 3]) is Some && hex_val(
                s[i + 4],
            ) is Some && hex_val(s[i + 5]) is Some {
                let v = (hex_val(s[i + 2])->0 * 4096 + hex_val(s[i + 3])->0 * 256 + hex_val(
                    s[i + 4],
                )->0 * 16 + hex_val(s[i + 5])->0) as u32;
                if 0xd800 <= v <= 0xdfff {
                    None
                } else {
                    match parse_string_body(s, i + 6) {
                        Some((rest, end)) => Some((seq![v as char] + rest, end)),
                        None => None,
                    }
                }
            } else {
                None
            }
        } else {
            match unesc(s[i + 1]) {
                Some(c) => match parse_string_body(s, i + 2) {
                    Some((rest, end)) => Some((seq![c] + rest, end)),
                    None => None,
                },
                None => None,
            }
        }
    } else {
        match parse_string_body(s, i + 1) {
            Some((rest, end)) => Some((seq![s[i]] + rest, end)),
            None => None,
        }
    }
}

proof fn lemma_string_body_advances(s: Seq<char>, i: int)
    ensures
        parse_string_body(s, i) matches Some((c, e)) ==> i < e <= s.len(),
    decreases s.len() - i,
{
    if i >= s.len() {
    } else if s[i] == '"' {
    } else if s[i] == '\\' {
        if i + 1 >= s.len() {
        } else if s[i + 1] == 'u' {
            if i + 6 <= s.len() {
                lemma_string_body_advances(s, i + 6);
            }
        } else {
            lemma_string_body_advances(s, i + 2);
        }
    } else {
        lemma_string_body_advances(s, i + 1);
    }
}

/// Decodes a JSON string body beginning at `i` (just after the opening
/// quote), exactly as [`parse_string_body`] describes.
fn scan_string_body(s: &str, i: usize) -> (r: Option<(String, usize)>)
    ensures
        match parse_string_body(s@, i as int) {
            Some((c, e)) => r matches Some(p) && p.0@ == c && p.1 as int == e,
            None => r is None,
        },
{
    let n = s.unicode_len();
    let mut acc = String::new();
    let mut j = i;
    if j > n {
        return None;
    }
    loop
        invariant
            n == s@.len(),
            j <= n,
            parse_string_body(s@, i as int) == (match parse_string_body(s@, j as int) {
                Some((c, e)) => Some((acc@ + c, e)),
                None => None::<(Seq<char>, int)>,
            }),
        decreases n - j,
    {
        if j >= n {
            return None;
        }
        let c = s.get_char(j);
        if c == '"' {
            proof {
                assert(acc@ + Seq::<char>::empty() =~= acc@);
            }
            return Some((acc, j + 1));
        }
        let ghost jold = j as int;
        let ghost accold = acc@;
        if c == '\\' {
            if j + 1 >= n {
                return None;
            }
            let e = s.get_char(j + 1);
            if e == 'u' {
                if n - j < 6 {
                    return None;
                }
                let h1 = match hex_val_exec(s.get_char(j + 2)) {
                    Some(v) => v,
                    None => { return None; },
                };
                let h2 = match hex_val_exec(s.get_char(j + 3)) {
                    Some(v) => v,
                    None => { return None; },
                };
                let h3 = match hex_val_exec(s.get_char(j + 4)) {
                    Some(v) => v,
                    None => { return None; },
                };
                let h4 = match hex_val_exec(s.get_char(j + 5)) {
                    Some(v) => v,
                    None => { return None; },
                };
                let v: u32 = (h1 as u32) * 4096 + (h2 as u32) * 256 + (h3 as u32) * 16 + (
                h4 as u32);
                let ch = match char::from_u32(v) {
                    Some(c) => c,
                    None => { return None; },
                };
                proof {
                    vstd::utf8::char_u32_cast(ch, v);
                }
                acc.push(ch);
                j = j + 6;
            } else {
                let u = match unesc_exec(e) {
                    Some(u) => u,
                    None => { return None; },
                };
                acc.push(u);
                j = j + 2;
            }
        } else {
            acc.push(c);
            j = j + 1;
        }
        proof {
            let pj = parse_string_body(s@, jold);
            let pn = parse_string_body(s@, j as int);
            let ch = acc@.last();
            assert(pj == (match pn {
                Some((rest, end)) => Some((seq![ch] + rest, end)),
                None => None::<(Seq<char>, int)>,
            }));
            if pn is Some {
                let (rest, end) = pn->0;
                assert(accold + (seq![ch] + rest) =~= acc@ + rest);
            }
        }
    }
}

// ---------------------------------------------------------------------------
// Decoding: unsigned decimal integers
// ---------------------------------------------------------------------------

/// First index at or after `i` holding no decimal digit.
pub open spec fn scan_digits_end(s: Seq<char>, i: int) -> int
    decreases s.len() - i,
{
    if 0 <= i < s.len() && is_digit(s[i]) {
        scan_digits_end(s, i + 1)
    } else {
        i
    }
}

/// Value of the digits `s[i..j)` appended to the accumulator `acc`.
pub open spec fn digits_val(s: Seq<char>, i: int, j: int, acc: nat) -> nat
    decreases j - i,
{
    if i < j {
        digits_val(s, i + 1, j, acc * 10 + digit_val(s[i]))
    } else {
        acc
    }
}

/// Parses a run of decimal digits starting at `i`: its mathematical value
/// and the index just after the run; `None` if no digit starts at `i`.
pub open spec fn parse_uint(s: Seq<char>, i: int) -> Option<(nat, int)> {
    let j = scan_digits_end(s, i);
    if j > i {
        Some((digits_val(s, i, j, 0), j))
    } else {
        None
    }
}

proof fn lemma_scan_digits_bounds(s: Seq<char>, i: int)
    requires
        0 <= i <= s.len(),
    ensures
        i <= scan_digits_end(s, i) <= s.len(),
        forall|k: int| i <= k < scan_digits_end(s, i) ==> is_digit(s[k]),
        scan_digits_end(s, i) < s.len() ==> !is_digit(s[scan_digits_end(s, i)]),
    decreases s.len() - i,
{
    if i < s.len() && is_digit(s[i]) {
        lemma_scan_digits_bounds(s, i + 1);
    }
}

pub(crate) proof fn lemma_digits_val_snoc(s: Seq<char>, i: int, j: int, acc: nat)
    requires
        i <= j,
    ensures
        digits_val(s, i, j + 1, acc) == digits_val(s, i, j, acc) * 10 + digit_val(s[j]),
    decreases j - i,
{
    if i < j {
        lemma_digits_val_snoc(s, i + 1, j, acc * 10 + digit_val(s[i]));
    } else {
        assert(digits_val(s, i, j + 1, acc) == digits_val(s, i + 1, j + 1, acc * 10 + digit_val(
            s[i],
        )));
        assert(digits_val(s, i + 1, j + 1, acc * 10 + digit_val(s[j])) == acc * 10 + digit_val(
            s[j],
        ));
    }
}

pub(crate) proof fn lemma_digits_val_ge_acc(s: Seq<char>, i: int, j: int, acc: nat)
    ensures
        digits_val(s, i, j, acc) >= acc,
    decreases j - i,
{
    if i < j {
        lemma_digits_val_ge_acc(s, i + 1, j, acc * 10 + digit_val(s[i]));
    }
}

pub(crate) proof fn lemma_digits_val_compose(s: Seq<char>, i: int, k: int, j: int, acc: nat)
    requires
        i <= k <= j,
    ensures
        digits_val(s, i, j, acc) == digits_val(s, k, j, digits_val(s, i, k, acc)),
    decreases k - i,
{
    if i < k {
        lemma_digits_val_compose(s, i + 1, k, j, acc * 10 + digit_val(s[i]));
    }
}

fn scan_digits_exec(s: &str, i: usize) -> (r: usize)
    requires
        i as int <= s@.len(),
    ensures
        r as int == scan_digits_end(s@, i as int),
        i <= r,
        r as int <= s@.len(),
{
    let n = s.unicode_len();
    let mut j = i;
    loop
        invariant
            n == s@.len(),
            i <= j <= n,
            scan_digits_end(s@, i as int) == scan_digits_end(s@, j as int),
        decreases n - j,
    {
        if j >= n {
            return j;
        }
        let c = s.get_char(j);
        let u = c as u32;
        if !(48 <= u && u <= 57) {
            proof {
                assert(!is_digit(s@[j as int]));
                assert(scan_digits_end(s@, j as int) == j as int);
            }
            return j;
        }
        j = j + 1;
    }
}

/// Scans a decimal digit run starting at `i`, exactly as [`parse_uint`]
/// describes, rejecting values beyond `usize::MAX`.
fn scan_uint(s: &str, i: usize) -> (r: Option<(usize, usize)>)
    ensures
        match parse_uint(s@, i as int) {
            Some((v, e)) => if v <= usize::MAX {
                r matches Some(p) && p.0 as nat == v && p.1 as int == e
            } else {
                r is None
            },
            None => r is None,
        },
{
    let n = s.unicode_len();
    if i >= n {
        return None;
    }
    proof {
        lemma_scan_digits_bounds(s@, i as int);
    }
    let j = scan_digits_exec(s, i);
    let ghost jend = scan_digits_end(s@, i as int);
    if j == i {
        return None;
    }
    let mut acc: usize = 0;
    let mut k = i;
    while k < j
        invariant
            n == s@.len(),
            i <= k <= j <= n,
            jend == j as int,
            jend == scan_digits_end(s@, i as int),
            acc as nat == digits_val(s@, i as int, k as int, 0),
        decreases j - k,
    {
        let c = s.get_char(k);
        proof {
            lemma_scan_digits_bounds(s@, i as int);
            assert(is_digit(s@[k as int]));
        }
        let d = ((c as u32) - 48) as usize;
        proof {
            assert(d as nat == digit_val(s@[k as int]));
            lemma_digits_val_snoc(s@, i as int, k as int, 0);
        }
        let step = match acc.checked_mul(10) {
            Some(m) => m.checked_add(d),
            None => None,
        };
        match step {
            Some(v) => {
                acc = v;
            },
            None => {
                proof {
                    lemma_digits_val_compose(s@, i as int, k as int + 1, jend, 0);
                    lemma_digits_val_ge_acc(
                        s@,
                        k as int + 1,
                        jend,
                        digits_val(s@, i as int, k as int + 1, 0),
                    );
                }
                return None;
            },
        }
        k = k + 1;
    }
    Some((acc, j))
}

/// True when the literal `null` stands at `i`.
pub open spec fn at_null(s: Seq<char>, i: int) -> bool {
    &&& 0 <= i
    &&& i + 4 <= s.len()
    &&& s[i] == 'n'
    &&& s[i + 1] == 'u'
    &&& s[i + 2] == 'l'
    &&& s[i + 3] == 'l'
}

fn is_null_at(s: &str, i: usize) -> (r: bool)
    ensures
        r == at_null(s@, i as int),
{
    let n = s.unicode_len();
    if n < 4 || i > n - 4 {
        return false;
    }
    s.get_char(i) == 'n' && s.get_char(i + 1) == 'u' && s.get_char(i + 2) == 'l' && s.get_char(
        i + 3,
    ) == 'l'
}

// ---------------------------------------------------------------------------
// Decoding: response objects
// ---------------------------------------------------------------------------

/// A response's three decoded fields: result, error, id.
pub type RespFields = (Option<Seq<char>>, Option<Seq<char>>, Option<nat>);

/// Fields of a response object while its members are being read: the outer
/// option distinguishes an absent member from an explicit `null`.
pub type AccFields = (Option<Option<Seq<char>>>, Option<Option<Seq<char>>>, Option<Option<nat>>);

/// A member value that is a JSON string or `null`.
pub open spec fn parse_opt_string(s: Seq<char>, i: int) -> Option<(Option<Seq<char>>, int)> {
    if 0 <= i < s.len() && s[i] == '"' {
        match parse_string_body(s, i + 1) {
            Some((c, e)) => Some((Some(c), e)),
            None => None,
        }
    } else if at_null(s, i) {
        Some((None, i + 4))
    } else {
        None
    }
}

/// A member value that is an unsigned integer not beyond `usize::MAX`,
/// or `null`.
pub open spec fn parse_opt_id(s: Seq<char>, i: int) -> Option<(Option<nat>, int)> {
    if 0 <= i < s.len() && is_digit(s[i]) {
        match parse_uint(s, i) {
            Some((v, e)) => if v <= usize::MAX {
                Some((Some(v), e))
            } else {
                None
            },
            None => None,
        }
    } else if at_null(s, i) {
        Some((None, i + 4))
    } else {
        None
    }
}

/// True when the literal `true` stands at `i`.
pub open spec fn at_true(s: Seq<char>, i: int) -> bool {
    &&& 0 <= i
    &&& i + 4 <= s.len()
    &&& s[i] == 't'
    &&& s[i + 1] == 'r'
    &&& s[i + 2] == 'u'
    &&& s[i + 3] == 'e'
}

/// True when the literal `false` stands at `i`.
pub open spec fn at_false(s: Seq<char>, i: int) -> bool {
    &&& 0 <= i
    &&& i + 5 <= s.len()
    &&& s[i] == 'f'
    &&& s[i + 1] == 'a'
    &&& s[i + 2] == 'l'
    &&& s[i + 3] == 's'
    &&& s[i + 4] == 'e'
}

/// The index just after a JSON number starting at `i`: an optional
/// minus, an integer part, an optional fraction, an optional exponent.
pub open spec fn number_end(s: Seq<char>, i: int) -> Option<int> {
    let a = if 0 <= i < s.len() && s[i] == '-' {
        i + 1
    } else {
        i
    };
    let b = scan_digits_end(s, a);
    if b <= a {
        None
    } else {
        let c = if b < s.len() && s[b] == '.' {
            let f = scan_digits_end(s, b + 1);
            if f <= b + 1 {
                -1
            } else {
                f
            }
        } else {
            b
        };
        if c < 0 {
            None
        } else if c < s.len() && (s[c] == 'e' || s[c] == 'E') {
            let g = if c + 1 < s.len() && (s[c + 1] == '+' || s[c + 1] == '-') {
                c + 2
            } else {
                c + 1
            };
            let h = scan_digits_end(s, g);
            if h <= g {
                None
            } else {
                Some(h)
            }
        } else {
            Some(c)
        }
    }
}

/// The index just after one scalar member value: a string, `null`,
/// `true`, `false`, or a number. Container values are not part of this
/// dialect.
pub open spec fn scalar_end(s: Seq<char>, i: int) -> Option<int> {
    if 0 <= i < s.len() && s[i] == '"' {
        match parse_string_body(s, i + 1) {
            Some((c, e)) => Some(e),
            None => None,
        }
    } else if at_null(s, i) {
        Some(i + 4)
    } else if at_true(s, i) {
        Some(i + 4)
    } else if at_false(s, i) {
        Some(i + 5)
    } else {
        number_end(s, i)
    }
}

proof fn lemma_scalar_end_advances(s: Seq<char>, i: int)
    ensures
        scalar_end(s, i) matches Some(e) ==> i < e <= s.len(),
{
    if 0 <= i < s.len() && s[i] == '"' {
        lemma_string_body_advances(s, i + 1);
    } else if at_null(s, i) || at_true(s, i) || at_false(s, i) {
    } else {
        let a = if 0 <= i < s.len() && s[i] == '-' {
            i + 1
        } else {
            i
        };
        if 0 <= a <= s.len() {
            lemma_scan_digits_bounds(s, a);
        }
        let b = scan_digits_end(s, a);
        if b > a {
            if b < s.len() && s[b] == '.' {
                lemma_scan_digits_bounds(s, b + 1);
            }
            let c = if b < s.len() && s[b] == '.' {
                let f = scan_digits_end(s, b + 1);
                if f <= b + 1 {
                    -1
                } else {
                    f
                }
            } else {
                b
            };
            if 0 <= c < s.len() && (s[c] == 'e' || s[c] == 'E') {
                let g = if c + 1 < s.len() && (s[c + 1] == '+' || s[c + 1] == '-') {
                    c + 2
                } else {
                    c + 1
                };
                lemma_scan_digits_bounds(s, g);
            }
        }
    }
}

/// One `"key": value` member of a response object. The kind is 0 for
/// `result`, 1 for `error`, 2 for `id`; any other key is kind 3, its
/// scalar value read past and ignored.
pub open spec fn parse_member(s: Seq<char>, i: int) -> Option<
    (int, Option<Seq<char>>, Option<nat>, int),
> {
    if !(0 <= i < s.len() && s[i] == '"') {
        None
    } else {
        match parse_string_body(s, i + 1) {
            Some((key, e1)) => {
                let c = skip_ws(s, e1);
                if !(0 <= c < s.len() && s[c] == ':') {
                    None
                } else {
                    let v = skip_ws(s, c + 1);
                    if key == "result"@ {
                        match parse_opt_string(s, v) {
                            Some((val, e2)) => Some((0, val, None, e2)),
                            None => None,
                        }
                    } else if key == "error"@ {
                        match parse_opt_string(s, v) {
                            Some((val, e2)) => Some((1, val, None, e2)),
                            None => None,
                        }
                    } else if key == "id"@ {
                        match parse_opt_id(s, v) {
                            Some((val, e2)) => Some((2, None, val, e2)),
                            None => None,
                        }
                    } else {
                        match scalar_end(s, v) {
                            Some(e2) => Some((3, None, None, e2)),
                            None => None,
                        }
                    }
                }
            },
            None => None,
        }
    }
}

/// Records one member in the accumulated fields; `None` on a duplicate key.
pub open spec fn merge_member(acc: AccFields, m: (int, Option<Seq<char>>, Option<nat>, int)) -> Option<
    AccFields,
> {
    if m.0 == 0 {
        if acc.0 is Some {
            None
        } else {
            Some((Some(m.1), acc.1, acc.2))
        }
    } else if m.0 == 1 {
        if acc.1 is Some {
            None
        } else {
            Some((acc.0, Some(m.1), acc.2))
        }
    } else if m.0 == 2 {
        if acc.2 is Some {
            None
        } else {
            Some((acc.0, acc.1, Some(m.2)))
        }
    } else {
        Some(acc)
    }
}

/// An absent member decodes like an explicit `null`.
pub open spec fn finalize_acc(acc: AccFields) -> RespFields {
    (
        match acc.0 {
            Some(v) => v,
            None => None,
        },
        match acc.1 {
            Some(v) => v,
            None => None,
        },
        match acc.2 {
            Some(v) => v,
            None => None,
        },
    )
}

/// The object closes at `k` and only whitespace follows.
pub open spec fn obj_close(s: Seq<char>, k: int) -> bool {
    0 <= k < s.len() && s[k] == '}' && skip_ws(s, k + 1) == s.len()
}

/// After a member: a closing brace ends the object; a comma begins a
/// further member.
pub open spec fn parse_obj_tail(s: Seq<char>, i: int, acc: AccFields) -> Option<RespFields>
    decreases s.len() - i,
        via parse_obj_tail_dec
{
    let k = skip_ws(s, i);
    if obj_close(s, k) {
        Some(finalize_acc(acc))
    } else if 0 <= k < s.len() && s[k] == ',' {
        let ms = skip_ws(s, k + 1);
        match parse_member(s, ms) {
            Some(m) => match merge_member(acc, m) {
                Some(a2) => parse_obj_tail(s, m.3, a2),
                None => None,
            },
            None => None,
        }
    } else {
        None
    }
}

#[via_fn]
proof fn parse_obj_tail_dec(s: Seq<char>, i: int, acc: AccFields) {
    let k = skip_ws(s, i);
    if !obj_close(s, k) && 0 <= k < s.len() && s[k] == ',' {
        let ms = skip_ws(s, k + 1);
        lemma_member_advances(s, ms);
        if 0 <= i <= s.len() {
            lemma_skip_ws_bounds(s, i);
            lemma_skip_ws_bounds(s, k + 1);
        }
    }
}

/// Decodes one response document: a JSON object with the members
/// `result` (string or null), `error` (string or null) and `id`
/// (unsigned integer or null), each at most once, in any order, with
/// insignificant whitespace allowed around tokens. An absent member
/// decodes like `null`; members under any other key are read past and
/// ignored, as long as their values are scalars.
pub open spec fn spec_parse_response(s: Seq<char>) -> Option<RespFields> {
    let i = skip_ws(s, 0);
    if !(0 <= i < s.len() && s[i] == '{') {
        None
    } else {
        let j = skip_ws(s, i + 1);
        if 0 <= j < s.len() && s[j] == '}' {
            if skip_ws(s, j + 1) == s.len() {
                Some((None, None, None))
            } else {
                None
            }
        } else {
            match parse_member(s, j) {
                Some(m) => match merge_member((None, None, None), m) {
                    Some(acc) => parse_obj_tail(s, m.3, acc),
                    None => None,
                },
                None => None,
            }
        }
    }
}

// Advancement facts needed to keep executable scan positions in bounds.
proof fn lemma_opt_string_advances(s: Seq<char>, i: int)
    ensures
        parse_opt_string(s, i) matches Some((v, e)) ==> i < e <= s.len(),
{
    lemma_string_body_advances(s, i + 1);
}

proof fn lemma_opt_id_advances(s: Seq<char>, i: int)
    ensures
        parse_opt_id(s, i) matches Some((v, e)) ==> i < e <= s.len(),
{
    if 0 <= i < s.len() && is_digit(s[i]) {
        lemma_scan_digits_bounds(s, i);
    }
}

proof fn lemma_member_advances(s: Seq<char>, i: int)
    ensures
        parse_member(s, i) matches Some(m) ==> i < m.3 <= s.len(),
{
    if 0 <= i < s.len() && s[i] == '"' {
        lemma_string_body_advances(s, i + 1);
        match parse_string_body(s, i + 1) {
            Some((key, e1)) => {
                lemma_skip_ws_bounds(s, e1);
                let c = skip_ws(s, e1);
                if 0 <= c < s.len() && s[c] == ':' {
                    lemma_skip_ws_bounds(s, c + 1);
                    let v = skip_ws(s, c + 1);
                    lemma_opt_string_advances(s, v);
                    lemma_opt_id_advances(s, v);
                    lemma_scalar_end_advances(s, v);
                }
            },
            None => {},
        }
    }
}

// Correspondence between executable and spec-level decoded values.

/// The executable option mirrors the spec-level one.
pub open spec fn opt_str_eq(a: Option<String>, b: Option<Seq<char>>) -> bool {
    match (a, b) {
        (Option::None, Option::None) => true,
        (Option::Some(x), Option::Some(y)) => x@ == y,
        _ => false,
    }
}

/// The executable id option mirrors the spec-level one.
pub open spec fn opt_id_eq(a: Option<usize>, b: Option<nat>) -> bool {
    match (a, b) {
        (Option::None, Option::None) => true,
        (Option::Some(x), Option::Some(y)) => x as nat == y,
        _ => false,
    }
}

/// Outer-option correspondence for accumulated members.
pub open spec fn opt2_str_eq(a: Option<Option<String>>, b: Option<Option<Seq<char>>>) -> bool {
    match (a, b) {
        (Option::None, Option::None) => true,
        (Option::Some(x), Option::Some(y)) => opt_str_eq(x, y),
        _ => false,
    }
}

/// Outer-option correspondence for the accumulated id member.
pub open spec fn opt2_id_eq(a: Option<Option<usize>>, b: Option<Option<nat>>) -> bool {
    match (a, b) {
        (Option::None, Option::None) => true,
        (Option::Some(x), Option::Some(y)) => opt_id_eq(x, y),
        _ => false,
    }
}

fn skip_ws_exec(s: &str, i: usize) -> (r: usize)
    requires
        i as int <= s@.len(),
    ensures
        r as int == skip_ws(s@, i as int),
        i <= r,
        r as int <= s@.len(),
{
    let n = s.unicode_len();
    let mut j = i;
    loop
        invariant
            n == s@.len(),
            i <= j <= n,
            skip_ws(s@, i as int) == skip_ws(s@, j as int),
        decreases n - j,
    {
        if j >= n {
            return j;
        }
        let c = s.get_char(j);
        if !(c == ' ' || c == '\t' || c == '\n' || c == '\r') {
            proof {
                assert(skip_ws(s@, j as int) == j as int);
            }
            return j;
        }
        j = j + 1;
    }
}

fn scan_opt_string(s: &str, i: usize) -> (r: Option<(Option<String>, usize)>)
    ensures
        match parse_opt_string(s@, i as int) {
            Some((v, e)) => r matches Some(p) && opt_str_eq(p.0, v) && p.1 as int == e,
            None => r is None,
        },
{
    let n = s.unicode_len();
    if i < n && s.get_char(i) == '"' {
        match scan_string_body(s, i + 1) {
            Some((c, e)) => Some((Some(c), e)),
            None => None,
        }
    } else if is_null_at(s, i) {
        Some((None, i + 4))
    } else {
        None
    }
}

fn scan_opt_id(s: &str, i: usize) -> (r: Option<(Option<usize>, usize)>)
    ensures
        match parse_opt_id(s@, i as int) {
            Some((v, e)) => r matches Some(p) && opt_id_eq(p.0, v) && p.1 as int == e,
            None => r is None,
        },
{
    let n = s.unicode_len();
    if i < n {
        let c = s.get_char(i);
        let u = c as u32;
        if 48 <= u && u <= 57 {
            return match scan_uint(s, i) {
                Some((v, e)) => Some((Some(v), e)),
                None => None,
            };
        }
    }
    if is_null_at(s, i) {
        Some((None, i + 4))
    } else {
        None
    }
}

fn scan_member(s: &str, i: usize) -> (r: Option<(u8, Option<String>, Option<usize>, usize)>)
    ensures
        match parse_member(s@, i as int) {
            Some((k, sv, iv, e)) => r matches Some(m) && m.0 as int == k && opt_str_eq(m.1, sv)
                && opt_id_eq(m.2, iv) && m.3 as int == e,
            None => r is None,
        },
{
    let n = s.unicode_len();
    if !(i < n) {
        return None;
    }
    if !(s.get_char(i) == '"') {
        return None;
    }
    let (key, e1) = match scan_string_body(s, i + 1) {
        Some(p) => p,
        None => { return None; },
    };
    proof {
        lemma_string_body_advances(s@, i as int + 1);
    }
    let c = skip_ws_exec(s, e1);
    if !(c < n) {
        return None;
    }
    if !(s.get_char(c) == ':') {
        return None;
    }
    let v = skip_ws_exec(s, c + 1);
    if key == String::from_str("result") {
        match scan_opt_string(s, v) {
            Some((val, e2)) => Some((0, val, None, e2)),
            None => None,
        }
    } else if key == String::from_str("error") {
        match scan_opt_string(s, v) {
            Some((val, e2)) => Some((1, val, None, e2)),
            None => None,
        }
    } else if key == String::from_str("id") {
        match scan_opt_id(s, v) {
            Some((val, e2)) => Some((2, None, val, e2)),
            None => None,
        }
    } else {
        match scan_scalar_end(s, v) {
            Some(e2) => Some((3, None, None, e2)),
            None => None,
        }
    }
}

fn is_true_at(s: &str, i: usize) -> (r: bool)
    ensures
        r == at_true(s@, i as int),
{
    let n = s.unicode_len();
    if n < 4 || i > n - 4 {
        return false;
    }
    s.get_char(i) == 't' && s.get_char(i + 1) == 'r' && s.get_char(i + 2) == 'u' && s.get_char(
        i + 3,
    ) == 'e'
}

fn is_false_at(s: &str, i: usize) -> (r: bool)
    ensures
        r == at_false(s@, i as int),
{
    let n = s.unicode_len();
    if n < 5 || i > n - 5 {
        return false;
    }
    s.get_char(i) == 'f' && s.get_char(i + 1) == 'a' && s.get_char(i + 2) == 'l' && s.get_char(
        i + 3,
    ) == 's' && s.get_char(i + 4) == 'e'
}

fn scan_scalar_end(s: &str, i: usize) -> (r: Option<usize>)
    ensures
        match scalar_end(s@, i as int) {
            Some(e) => r matches Some(x) && x as int == e,
            None => r is None,
        },
{
    let n = s.unicode_len();
    if i < n && s.get_char(i) == '"' {
        return match scan_string_body(s, i + 1) {
            Some((c, e)) => Some(e),
            None => None,
        };
    }
    if is_null_at(s, i) {
        return Some(i + 4);
    }
    if is_true_at(s, i) {
        return Some(i + 4);
    }
    if is_false_at(s, i) {
        return Some(i + 5);
    }
    if i >= n {
        return None;
    }
    let a = if s.get_char(i) == '-' {
        i + 1
    } else {
        i
    };
    let b = scan_digits_exec(s, a);
    if b <= a {
        return None;
    }
    let c = if b < n && s.get_char(b) == '.' {
        let f = scan_digits_exec(s, b + 1);
        if f <= b + 1 {
            return None;
        }
        f
    } else {
        b
    };
    if c < n {
        let ch = s.get_char(c);
        if ch == 'e' || ch == 'E' {
            let g = if c + 1 < n {
                let c2 = s.get_char(c + 1);
                if c2 == '+' || c2 == '-' {
                    c + 2
                } else {
                    c + 1
                }
            } else {
                c + 1
            };
            let h = scan_digits_exec(s, g);
            if h <= g {
                return None;
            }
            return Some(h);
        }
    }
    Some(c)
}

/// Decodes one response document, exactly as [`spec_parse_response`]
/// describes; any malformed input is a `Serialize` error.
pub fn parse_response(s: &str) -> (r: Result<
    (Option<String>, Option<String>, Option<usize>),
    Error,
>)
    ensures
        match spec_parse_response(s@) {
            Some((res, err, id)) => r matches Ok(t) && opt_str_eq(t.0, res) && opt_str_eq(t.1, err)
                && opt_id_eq(t.2, id),
            None => r matches Err(e) && e is Serialize,
        },
{
    let n = s.unicode_len();
    let i0 = skip_ws_exec(s, 0);
    if !(i0 < n) {
        return Err(malformed_response());
    }
    if !(s.get_char(i0) == '{') {
        return Err(malformed_response());
    }
    let j0 = skip_ws_exec(s, i0 + 1);
    if j0 < n && s.get_char(j0) == '}' {
        let t = skip_ws_exec(s, j0 + 1);
        if t == n {
            return Ok((None, None, None));
        } else {
            return Err(malformed_response());
        }
    }
    let m1 = match scan_member(s, j0) {
        Some(m) => m,
        None => { return Err(malformed_response()); },
    };
    proof {
        lemma_member_advances(s@, j0 as int);
    }
    let ghost m1s = parse_member(s@, j0 as int)->0;
    let mut racc: Option<Option<String>> = None;
    let mut eacc: Option<Option<String>> = None;
    let mut iacc: Option<Option<usize>> = None;
    let ghost empty_acc: AccFields = (None, None, None);
    let ghost mut accs: AccFields = merge_member(empty_acc, m1s)->0;
    if m1.0 == 0 {
        racc = Some(m1.1);
    } else if m1.0 == 1 {
        eacc = Some(m1.1);
    } else if m1.0 == 2 {
        iacc = Some(m1.2);
    }
    let mut i = m1.3;
    loop
        invariant
            n == s@.len(),
            i as int <= s@.len(),
            spec_parse_response(s@) == parse_obj_tail(s@, i as int, accs),
            opt2_str_eq(racc, accs.0),
            opt2_str_eq(eacc, accs.1),
            opt2_id_eq(iacc, accs.2),
        decreases n - i,
    {
        let k = skip_ws_exec(s, i);
        if k < n && s.get_char(k) == '}' {
            let t = skip_ws_exec(s, k + 1);
            if t == n {
                let res = match racc {
                    Some(v) => v,
                    None => None,
                };
                let err = match eacc {
                    Some(v) => v,
                    None => None,
                };
                let id = match iacc {
                    Some(v) => v,
                    None => None,
                };
                return Ok((res, err, id));
            } else {
                return Err(malformed_response());
            }
        }
        if !(k < n) {
            return Err(malformed_response());
        }
        if !(s.get_char(k) == ',') {
            return Err(malformed_response());
        }
        let ms = skip_ws_exec(s, k + 1);
        let m = match scan_member(s, ms) {
            Some(m) => m,
            None => { return Err(malformed_response()); },
        };
        proof {
            lemma_member_advances(s@, ms as int);
        }
        let ghost msp = parse_member(s@, ms as int)->0;
        if m.0 == 0 {
            if racc.is_some() {
                return Err(malformed_response());
            }
            racc = Some(m.1);
        } else if m.0 == 1 {
            if eacc.is_some() {
                return Err(malformed_response());
            }
            eacc = Some(m.1);
        } else if m.0 == 2 {
            if iacc.is_some() {
                return Err(malformed_response());
            }
            iacc = Some(m.2);
        }
        proof {
            accs = merge_member(accs, msp)->0;
        }
        i = m.3;
    }
}

// ---------------------------------------------------------------------------
// Decoding: canonical request documents
// ---------------------------------------------------------------------------

/// The literal `lit` stands at position `i` of `s`.
pub open spec fn lit_at(s: Seq<char>, i: int, lit: Seq<char>) -> bool {
    0 <= i && i + lit.len() <= s.len() && s.subrange(i, i + lit.len()) == lit
}

/// The elements of a canonical (whitespace-free) array of JSON strings,
/// starting at the first element's opening quote; ends just after `]`.
pub open spec fn parse_elems(s: Seq<char>, i: int) -> Option<(Seq<Seq<char>>, int)>
    decreases s.len() - i,
        via parse_elems_dec
{
    if !(0 <= i < s.len() && s[i] == '"') {
        None
    } else {
        match parse_string_body(s, i + 1) {
            Some((p, e)) => {
                if 0 <= e < s.len() && s[e] == ',' {
                    match parse_elems(s, e + 1) {
                        Some((ps, e2)) => Some((seq![p] + ps, e2)),
                        None => None,
                    }
                } else if 0 <= e < s.len() && s[e] == ']' {
                    Some((seq![p], e + 1))
                } else {
                    None
                }
            },
            None => None,
        }
    }
}

#[via_fn]
proof fn parse_elems_dec(s: Seq<char>, i: int) {
    lemma_string_body_advances(s, i + 1);
}

/// Decodes one canonical request document, as produced by
/// [`spec_encode_request`]: `{"method":M,"params":[..],"id":N}` with no
/// insignificant whitespace.
pub open spec fn spec_parse_request(s: Seq<char>) -> Option<(Seq<char>, Seq<Seq<char>>, nat)> {
    let l1 = "{\"method\":\""@;
    let l2 = ",\"params\":["@;
    let l3 = ",\"id\":"@;
    if !lit_at(s, 0, l1) {
        None
    } else {
        match parse_string_body(s, l1.len() as int) {
            Some((m, e1)) => {
                if !lit_at(s, e1, l2) {
                    None
                } else {
                    let a = e1 + l2.len();
                    let pe = if 0 <= a < s.len() && s[a] == ']' {
                        Some((Seq::<Seq<char>>::empty(), a + 1))
                    } else {
                        parse_elems(s, a)
                    };
                    match pe {
                        Some((ps, e2)) => {
                            if !lit_at(s, e2, l3) {
                                None
                            } else {
                                match parse_uint(s, e2 + l3.len()) {
                                    Some((v, e3)) => {
                                        if v <= usize::MAX && e3 + 1 == s.len() && s[e3] == '}' {
                                            Some((m, ps, v))
                                        } else {
                                            None
                                        }
                                    },
                                    None => None,
                                }
                            }
                        },
                        None => None,
                    }
                }
            },
            None => None,
        }
    }
}

/// Tests whether `lit` stands at position `i` of `s`.
pub fn lit_match(s: &str, i: usize, lit: &str) -> (r: bool)
    ensures
        r == lit_at(s@, i as int, lit@),
{
    let n = s.unicode_len();
    let ln = lit.unicode_len();
    if n < ln || i > n - ln {
        return false;
    }
    let mut k: usize = 0;
    while k < ln
        invariant
            n == s@.len(),
            ln == lit@.len(),
            i + ln <= n,
            k <= ln,
            forall|t: int| 0 <= t < k ==> s@[i + t] == lit@[t],
        decreases ln - k,
    {
        if s.get_char(i + k) != lit.get_char(k) {
            proof {
                assert(s@.subrange(i as int, i as int + lit@.len())[k as int] == s@[i + k]);
            }
            return false;
        }
        k = k + 1;
    }
    proof {
        assert(s@.subrange(i as int, i as int + lit@.len()) =~= lit@);
    }
    true
}

fn scan_elems(s: &str, i: usize) -> (r: Option<(Vec<String>, usize)>)
    requires
        i as int <= s@.len(),
    ensures
        match parse_elems(s@, i as int) {
            Some((ps, e)) => r matches Some(p) && p.0.deep_view() == ps && p.1 as int == e,
            None => r is None,
        },
{
    let n = s.unicode_len();
    let mut acc: Vec<String> = Vec::new();
    let mut j = i;
    loop
        invariant
            n == s@.len(),
            j <= n,
            parse_elems(s@, i as int) == (match parse_elems(s@, j as int) {
                Some((ps, e)) => Some((acc.deep_view() + ps, e)),
                None => None::<(Seq<Seq<char>>, int)>,
            }),
        decreases n - j,
    {
        if !(j < n) {
            return None;
        }
        if !(s.get_char(j) == '"') {
            return None;
        }
        let (p, e) = match scan_string_body(s, j + 1) {
            Some(x) => x,
            None => { return None; },
        };
        proof {
            lemma_string_body_advances(s@, j as int + 1);
        }
        let ghost accold = acc.deep_view();
        let ghost pv = p@;
        if e < n && s.get_char(e) == ',' {
            acc.push(p);
            proof {
                assert(acc.deep_view() =~= accold.push(pv));
                if parse_elems(s@, e as int + 1) is Some {
                    let (ps2, e2) = parse_elems(s@, e as int + 1)->0;
                    assert(accold + (seq![pv] + ps2) =~= accold.push(pv) + ps2);
                }
            }
            j = e + 1;
        } else if e < n && s.get_char(e) == ']' {
            acc.push(p);
            proof {
                assert(acc.deep_view() =~= accold.push(pv));
                assert(accold + seq![pv] =~= accold.push(pv));
            }
            return Some((acc, e + 1));
        } else {
            return None;
        }
    }
}

/// Decodes one canonical request document, exactly as
/// [`spec_parse_request`] describes; any other input is a `Serialize`
/// error.
pub fn parse_request(s: &str) -> (r: Result<(String, Vec<String>, usize), Error>)
    ensures
        match spec_parse_request(s@) {
            Some((m, ps, id)) => r matches Ok(t) && t.0@ == m && t.1.deep_view() == ps && t.2
                as nat == id,
            None => r matches Err(e) && e is Serialize,
        },
{
    let n = s.unicode_len();
    if !lit_match(s, 0, "{\"method\":\"") {
        return Err(malformed_request());
    }
    proof {
        reveal_strlit("{\"method\":\"");
    }
    let (m, e1) = match scan_string_body(s, 11) {
        Some(x) => x,
        None => { return Err(malformed_request()); },
    };
    proof {
        lemma_string_body_advances(s@, 11);
    }
    if !lit_match(s, e1, ",\"params\":[") {
        return Err(malformed_request());
    }
    proof {
        reveal_strlit(",\"params\":[");
    }
    let a = e1 + 11;
    let parsed = if a < n && s.get_char(a) == ']' {
        let empty: Vec<String> = Vec::new();
        proof {
            assert(empty.deep_view() =~= Seq::<Seq<char>>::empty());
        }
        Some((empty, a + 1))
    } else {
        scan_elems(s, a)
    };
    let (ps, e2) = match parsed {
        Some(x) => x,
        None => { return Err(malformed_request()); },
    };
    proof {
        if !((a as int) < s@.len() && s@[a as int] == ']') {
            lemma_parse_elems_end(s@, a as int);
        }
    }
    if !lit_match(s, e2, ",\"id\":") {
        return Err(malformed_request());
    }
    proof {
        reveal_strlit(",\"id\":");
    }
    let (v, e3) = match scan_uint(s, e2 + 6) {
        Some(x) => x,
        None => { return Err(malformed_request()); },
    };
    proof {
        lemma_scan_digits_bounds(s@, e2 as int + 6);
    }
    if e3 < n && s.get_char(e3) == '}' && e3 + 1 == n {
        Ok((m, ps, v))
    } else {
        Err(malformed_request())
    }
}

proof fn lemma_parse_elems_end(s: Seq<char>, i: int)
    ensures
        parse_elems(s, i) matches Some((ps, e)) ==> i < e <= s.len(),
    decreases s.len() - i,
{
    if 0 <= i < s.len() && s[i] == '"' {
        lemma_string_body_advances(s, i + 1);
        match parse_string_body(s, i + 1) {
            Some((p, e)) => {
                if 0 <= e < s.len() && s[e] == ',' {
                    lemma_parse_elems_end(s, e + 1);
                }
            },
            None => {},
        }
    }
}

// ---------------------------------------------------------------------------
// Round trip: decoding a canonical encoding gives the original back
// ---------------------------------------------------------------------------

proof fn lemma_parse_escaped(s: Seq<char>, i: int, j: int, t: Seq<char>)
    requires
        0 <= i <= j < s.len(),
        s.subrange(i, j) == escape_string(t),
        j == i + escape_string(t).len(),
        s[j] == '"',
    ensures
        parse_string_body(s, i) == Some((t, j + 1)),
    decreases t.len(),
{
    if t.len() == 0 {
        assert(escape_string(t) == Seq::<char>::empty());
        assert(j == i);
        assert(t =~= Seq::<char>::empty());
        assert(parse_string_body(s, i) == Some((Seq::<char>::empty(), i + 1)));
    } else {
        let c = t[0];
        let t2 = t.skip(1);
        assert(escape_string(t) == esc_char(c) + escape_string(t2));
        let e = esc_char(c);
        let el = e.len() as int;
        let e2len = escape_string(t2).len() as int;
        assert(escape_string(t).len() == el + e2len);
        assert forall|k: int| 0 <= k < el + e2len implies s[i + k] == escape_string(t)[k] by {
            assert(s.subrange(i, j)[k] == s[i + k]);
        }
        assert forall|k: int| 0 <= k < e2len implies s.subrange(i + el, j)[k] == escape_string(
            t2,
        )[k] by {
            assert(s.subrange(i + el, j)[k] == s[i + el + k]);
            assert(s[i + el + k] == escape_string(t)[el + k]);
            assert(escape_string(t)[el + k] == escape_string(t2)[k]);
        }
        assert(s.subrange(i + el, j) =~= escape_string(t2));
        lemma_parse_escaped(s, i + el, j, t2);
        assert(s.subrange(i, j)[0] == s[i]);
        assert(escape_string(t)[0] == e[0]);
        if c == '"' || c == '\\' || c == '\n' || c == '\r' || c == '\t' {
            assert(el == 2);
            assert(s.subrange(i, j)[1] == s[i + 1]);
            assert(escape_string(t)[1] == e[1]);
            assert(s[i] == '\\');
            assert(s[i + 1] == e[1]);
            assert(unesc(e[1]) == Some(c));
            assert(s[i + 1] != 'u');
            assert(parse_string_body(s, i) == Some((seq![c] + t2, j + 1)));
            assert(seq![c] + t2 =~= t);
        } else if (c as u32) < 32 {
            assert(el == 6);
            assert(s.subrange(i, j)[1] == s[i + 1]);
            assert(s.subrange(i, j)[2] == s[i + 2]);
            assert(s.subrange(i, j)[3] == s[i + 3]);
            assert(s.subrange(i, j)[4] == s[i + 4]);
            assert(s.subrange(i, j)[5] == s[i + 5]);
            assert(escape_string(t)[1] == e[1]);
            assert(escape_string(t)[2] == e[2]);
            assert(escape_string(t)[3] == e[3]);
            assert(escape_string(t)[4] == e[4]);
            assert(escape_string(t)[5] == e[5]);
            assert(s[i] == '\\' && s[i + 1] == 'u' && s[i + 2] == '0' && s[i + 3] == '0');
            let hi = (c as u32 / 16) as int;
            let lo = (c as u32 % 16) as int;
            assert(hex_val(hex_digit_char(hi)) == Some(hi as nat));
            assert(hex_val(hex_digit_char(lo)) == Some(lo as nat));
            vstd::arithmetic::div_mod::lemma_fundamental_div_mod(c as u32 as int, 16);
            assert(e[4] == hex_digit_char(hi));
            assert(e[5] == hex_digit_char(lo));
            assert(hex_val(s[i + 2]) == Some(0nat) && hex_val(s[i + 3]) == Some(0nat));
            assert(hex_val(s[i + 4])->0 == hi as nat);
            assert(hex_val(s[i + 5])->0 == lo as nat);
            let v = (hex_val(s[i + 2])->0 * 4096 + hex_val(s[i + 3])->0 * 256 + hex_val(
                s[i + 4],
            )->0 * 16 + hex_val(s[i + 5])->0) as u32;
            assert(v == c as u32);
            vstd::utf8::char_u32_cast(c, v);
            assert(parse_string_body(s, i) == Some((seq![c] + t2, j + 1)));
            assert(seq![c] + t2 =~= t);
        } else {
            assert(el == 1);
            assert(s[i] == c);
            assert(c != '"' && c != '\\');
            assert(parse_string_body(s, i) == Some((seq![c] + t2, j + 1)));
            assert(seq![c] + t2 =~= t);
        }
    }
}

proof fn lemma_dec_digits_digits(n: nat)
    ensures
        dec_digits(n).len() >= 1,
        forall|k: int| 0 <= k < dec_digits(n).len() ==> is_digit(#[trigger] dec_digits(n)[k]),
    decreases n,
{
    if n < 10 {
        assert(is_digit(digit_char(n as int)));
    } else {
        lemma_dec_digits_digits(n / 10);
        assert(is_digit(digit_char((n % 10) as int)));
        assert forall|k: int| 0 <= k < dec_digits(n).len() implies is_digit(
            #[trigger] dec_digits(n)[k],
        ) by {
            if k < dec_digits(n / 10).len() {
                assert(dec_digits(n)[k] == dec_digits(n / 10)[k]);
            } else {
                assert(dec_digits(n)[k] == digit_char((n % 10) as int));
            }
        }
    }
}

proof fn lemma_digit_val_of_char(d: int)
    requires
        0 <= d < 10,
    ensures
        digit_val(digit_char(d)) == d,
{
}

proof fn lemma_digits_val_of_dec(s: Seq<char>, i: int, j: int, n: nat)
    requires
        0 <= i,
        j <= s.len(),
        s.subrange(i, j) == dec_digits(n),
        j == i + dec_digits(n).len(),
    ensures
        digits_val(s, i, j, 0) == n,
    decreases n,
{
    if n < 10 {
        assert(dec_digits(n).len() == 1);
        assert(s.subrange(i, j)[0] == s[i]);
        assert(s[i] == digit_char(n as int));
        lemma_digit_val_of_char(n as int);
        assert(digits_val(s, i, j, 0) == digits_val(s, i + 1, j, digit_val(s[i])));
        assert(digits_val(s, i + 1, j, digit_val(s[i])) == digit_val(s[i]));
    } else {
        let pre = dec_digits(n / 10);
        assert(dec_digits(n) == pre.push(digit_char((n % 10) as int)));
        assert forall|k: int| 0 <= k < pre.len() implies s.subrange(i, j - 1)[k] == pre[k] by {
            assert(s.subrange(i, j - 1)[k] == s[i + k]);
            assert(s.subrange(i, j)[k] == s[i + k]);
            assert(dec_digits(n)[k] == pre[k]);
        }
        assert(s.subrange(i, j - 1) =~= pre);
        lemma_digits_val_of_dec(s, i, j - 1, n / 10);
        assert(s.subrange(i, j)[j - 1 - i] == s[j - 1]);
        assert(s[j - 1] == digit_char((n % 10) as int));
        lemma_digit_val_of_char((n % 10) as int);
        lemma_digits_val_snoc(s, i, j - 1, 0);
        vstd::arithmetic::div_mod::lemma_fundamental_div_mod(n as int, 10);
    }
}

proof fn lemma_scan_digits_stops(s: Seq<char>, i: int, j: int)
    requires
        0 <= i <= j <= s.len(),
        forall|k: int| i <= k < j ==> is_digit(s[k]),
        j < s.len() ==> !is_digit(s[j]),
    ensures
        scan_digits_end(s, i) == j,
    decreases j - i,
{
    if i < j {
        lemma_scan_digits_stops(s, i + 1, j);
    }
}

proof fn lemma_parse_uint_of_dec(s: Seq<char>, i: int, j: int, n: nat)
    requires
        0 <= i,
        j <= s.len(),
        s.subrange(i, j) == dec_digits(n),
        j == i + dec_digits(n).len(),
        j < s.len() ==> !is_digit(s[j]),
    ensures
        parse_uint(s, i) == Some((n, j)),
{
    lemma_dec_digits_digits(n);
    assert forall|k: int| i <= k < j implies is_digit(s[k]) by {
        assert(s.subrange(i, j)[k - i] == s[k]);
        assert(is_digit(dec_digits(n)[k - i]));
    }
    lemma_scan_digits_stops(s, i, j);
    lemma_digits_val_of_dec(s, i, j, n);
}

proof fn lemma_parse_elems_of_params(s: Seq<char>, i: int, j: int, ps: Seq<Seq<char>>)
    requires
        ps.len() >= 1,
        0 <= i,
        j < s.len(),
        s.subrange(i, j) == params_body(ps),
        j == i + params_body(ps).len(),
        s[j] == ']',
    ensures
        parse_elems(s, i) == Some((ps, j + 1)),
    decreases ps.len(),
{
    let q = quoted(ps[0]);
    let ql = q.len() as int;
    let esc = escape_string(ps[0]);
    let el = esc.len() as int;
    assert(q == seq!['"'] + esc + seq!['"']);
    assert(s.subrange(i, j)[0] == s[i]);
    assert(params_body(ps)[0] == q[0]);
    assert(s[i] == '"');
    assert(s.subrange(i, j)[1 + el] == s[i + 1 + el]);
    assert(params_body(ps)[1 + el] == q[1 + el]);
    assert(s[i + 1 + el] == '"');
    assert forall|k: int| 0 <= k < el implies s.subrange(i + 1, i + 1 + el)[k] == esc[k] by {
        assert(s.subrange(i + 1, i + 1 + el)[k] == s[i + 1 + k]);
        assert(s.subrange(i, j)[1 + k] == s[i + 1 + k]);
        assert(params_body(ps)[1 + k] == q[1 + k]);
        assert(q[1 + k] == esc[k]);
    }
    assert(s.subrange(i + 1, i + 1 + el) =~= esc);
    lemma_parse_escaped(s, i + 1, i + 1 + el, ps[0]);
    if ps.len() == 1 {
        assert(params_body(ps) == q);
        assert(parse_string_body(s, i + 1) == Some((ps[0], j)));
        assert(parse_elems(s, i) == Some((seq![ps[0]], j + 1)));
        assert(seq![ps[0]] =~= ps);
    } else {
        let rest = params_body(ps.skip(1));
        assert(params_body(ps) == q + seq![','] + rest);
        assert(parse_string_body(s, i + 1) == Some((ps[0], i + ql)));
        assert(s.subrange(i, j)[ql] == s[i + ql]);
        assert(params_body(ps)[ql] == ',');
        assert(s[i + ql] == ',');
        assert forall|k: int| 0 <= k < rest.len() implies s.subrange(i + ql + 1, j)[k] == rest[k] by {
            assert(s.subrange(i + ql + 1, j)[k] == s[i + ql + 1 + k]);
            assert(s.subrange(i, j)[ql + 1 + k] == s[i + (ql + 1 + k)]);
            assert(params_body(ps)[ql + 1 + k] == rest[k]);
        }
        assert(s.subrange(i + ql + 1, j) =~= rest);
        lemma_parse_elems_of_params(s, i + ql + 1, j, ps.skip(1));
        assert(parse_elems(s, i) == Some((seq![ps[0]] + ps.skip(1), j + 1)));
        assert(seq![ps[0]] + ps.skip(1) =~= ps);
    }
}

/// Decoding the canonical encoding of any request gives back exactly its
/// method, parameters and id.
#[verifier::rlimit(100)]
pub proof fn lemma_request_roundtrip(method: Seq<char>, params: Seq<Seq<char>>, id: usize)
    ensures
        spec_parse_request(spec_encode_request(method, params, id as nat)) == Some(
            (method, params, id as nat),
        ),
{
    reveal_strlit("{\"method\":");
    reveal_strlit("{\"method\":\"");
    reveal_strlit(",\"params\":[");
    reveal_strlit("],\"id\":");
    reveal_strlit(",\"id\":");
    reveal_strlit("}");
    let a = "{\"method\":"@;
    let q = quoted(method);
    let b = ",\"params\":["@;
    let p = params_body(params);
    let c = "],\"id\":"@;
    let d = dec_digits(id as nat);
    let e = "}"@;
    let esc = escape_string(method);
    let s = spec_encode_request(method, params, id as nat);
    let s1 = a + q;
    let s2 = s1 + b;
    let s3 = s2 + p;
    let s4 = s3 + c;
    let s5 = s4 + d;
    assert(s == s5 + e);
    let posq: int = 10;
    let posb = 10 + q.len() as int;
    let posp = posb + 11;
    let posc = posp + p.len() as int;
    let posd = posc + 7;
    let pose = posd + d.len() as int;
    assert(q == seq!['"'] + esc + seq!['"']);
    assert(q.len() == esc.len() + 2);
    assert forall|k: int| 0 <= k < 10 implies s[k] == a[k] by {
        assert(s1[k] == a[k]);
        assert(s2[k] == s1[k]);
        assert(s3[k] == s2[k]);
        assert(s4[k] == s3[k]);
        assert(s5[k] == s4[k]);
        assert(s[k] == s5[k]);
    }
    assert forall|k: int| 0 <= k < q.len() implies s[posq + k] == q[k] by {
        assert(s1[posq + k] == q[k]);
        assert(s2[posq + k] == s1[posq + k]);
        assert(s3[posq + k] == s2[posq + k]);
        assert(s4[posq + k] == s3[posq + k]);
        assert(s5[posq + k] == s4[posq + k]);
        assert(s[posq + k] == s5[posq + k]);
    }
    assert forall|k: int| 0 <= k < 11 implies s[posb + k] == b[k] by {
        assert(s2[posb + k] == b[k]);
        assert(s3[posb + k] == s2[posb + k]);
        assert(s4[posb + k] == s3[posb + k]);
        assert(s5[posb + k] == s4[posb + k]);
        assert(s[posb + k] == s5[posb + k]);
    }
    assert forall|k: int| 0 <= k < p.len() implies s[posp + k] == p[k] by {
        assert(s3[posp + k] == p[k]);
        assert(s4[posp + k] == s3[posp + k]);
        assert(s5[posp + k] == s4[posp + k]);
        assert(s[posp + k] == s5[posp + k]);
    }
    assert forall|k: int| 0 <= k < 7 implies s[posc + k] == c[k] by {
        assert(s4[posc + k] == c[k]);
        assert(s5[posc + k] == s4[posc + k]);
        assert(s[posc + k] == s5[posc + k]);
    }
    assert forall|k: int| 0 <= k < d.len() implies s[posd + k] == d[k] by {
        assert(s5[posd + k] == d[k]);
        assert(s[posd + k] == s5[posd + k]);
    }
    assert(s[pose] == '}');
    assert(s.len() == pose + 1);
    // the opening literal, through the method's opening quote
    let l1 = "{\"method\":\""@;
    assert forall|k: int| 0 <= k < 11 implies s.subrange(0, 11)[k] == l1[k] by {
        assert(s.subrange(0, 11)[k] == s[k]);
        if k < 10 {
            assert(s[k] == a[k]);
        } else {
            assert(s[k] == q[0]);
        }
    }
    assert(s.subrange(0, 11) =~= l1);
    assert(lit_at(s, 0, l1));
    // the method string body
    assert forall|k: int| 0 <= k < esc.len() implies s.subrange(11, 11 + esc.len() as int)[k] == esc[k] by {
        assert(s.subrange(11, 11 + esc.len() as int)[k] == s[11 + k]);
        assert(s[11 + k] == q[1 + k]);
        assert(q[1 + k] == esc[k]);
    }
    assert(s.subrange(11, 11 + esc.len() as int) =~= esc);
    assert(s[11 + esc.len() as int] == q[1 + esc.len() as int]);
    assert(s[11 + esc.len() as int] == '"');
    lemma_parse_escaped(s, 11, 11 + esc.len() as int, method);
    assert(parse_string_body(s, 11) == Some((method, posb)));
    // the params literal
    let l2 = ",\"params\":["@;
    assert forall|k: int| 0 <= k < 11 implies s.subrange(posb, posb + 11)[k] == l2[k] by {
        assert(s.subrange(posb, posb + 11)[k] == s[posb + k]);
        assert(s[posb + k] == b[k]);
    }
    assert(s.subrange(posb, posb + 11) =~= l2);
    assert(lit_at(s, posb, l2));
    // the params array
    if params.len() == 0 {
        assert(p.len() == 0);
        assert(posp == posc);
        assert(s[posp] == c[0]);
        assert(s[posp] == ']');
    } else {
        assert(s[posp] == p[0]);
        assert(p[0] == q[0] || p[0] == quoted(params[0])[0]);
        assert(s[posp] == '"');
        assert(s[posc] == c[0]);
        assert(s[posc] == ']');
        assert forall|k: int| 0 <= k < p.len() implies s.subrange(posp, posc)[k] == p[k] by {
            assert(s.subrange(posp, posc)[k] == s[posp + k]);
        }
        assert(s.subrange(posp, posc) =~= p);
        lemma_parse_elems_of_params(s, posp, posc, params);
        assert(parse_elems(s, posp) == Some((params, posc + 1)));
    }
    // the id literal
    let l3 = ",\"id\":"@;
    assert forall|k: int| 0 <= k < 6 implies s.subrange(posc + 1, posc + 7)[k] == l3[k] by {
        assert(s.subrange(posc + 1, posc + 7)[k] == s[posc + 1 + k]);
        assert(s[posc + 1 + k] == c[1 + k]);
    }
    assert(s.subrange(posc + 1, posc + 7) =~= l3);
    assert(lit_at(s, posc + 1, l3));
    // the id digits
    assert forall|k: int| 0 <= k < d.len() implies s.subrange(posd, pose)[k] == d[k] by {
        assert(s.subrange(posd, pose)[k] == s[posd + k]);
    }
    assert(s.subrange(posd, pose) =~= d);
    assert(!is_digit('}'));
    lemma_parse_uint_of_dec(s, posd, pose, id as nat);
    assert(parse_uint(s, posd) == Some((id as nat, pose)));
    assert(spec_parse_request(s) == Some((method, params, id as nat)));
}

fn malformed_request() -> (e: Error)
    ensures
        e is Serialize,
{
    Error::Serialize(String::from_str("malformed JSON-RPC request"))
}

fn malformed_response() -> (e: Error)
    ensures
        e is Serialize,
{
    Error::Serialize(String::from_str("malformed JSON-RPC response"))
}

fn unesc_exec(c: char) -> (r: Option<char>)
    ensures
        r == unesc(c),
{
    if c == '"' {
        Some('"')
    } else if c == '\\' {
        Some('\\')
    } else if c == '/' {
        Some('/')
    } else if c == 'n' {
        Some('\n')
    } else if c == 'r' {
        Some('\r')
    } else if c == 't' {
        Some('\t')
    } else if c == 'b' {
        Some('\u{8}')
    } else if c == 'f' {
        Some('\u{c}')
    } else {
        None
    }
}

} // verus!
