use vstd::prelude::*;
use crate::text::{string_to_chars, chars_to_string, char_from_u32, hex_digit, hex_digit_value,
    is_hex_digit, hex_value};

verus! {

/// Failures of string-literal parsing, reported to the user verbatim.
#[derive(Debug, Clone, PartialEq, Eq)]
pub enum ParseError {
    InvalidEscapeSequence(char),
    InvalidUnicodeEscape,
    UnexpectedEndOfInput,
    InvalidHexDigit,
    InvalidUnicodeLength,
    MissingQuotes,
}

/// First position at or after `i` holding something other than a hex digit
/// (the input's length if there is none).
pub open spec fn scan_hex_end(s: Seq<char>, i: int) -> int
    decreases s.len() - i,
{
    if i < 0 || i >= s.len() {
        i
    } else if is_hex_digit(s[i]) {
        scan_hex_end(s, i + 1)
    } else {
        i
    }
}

pub proof fn lemma_scan_hex_end(s: Seq<char>, i: int)
    requires
        0 <= i <= s.len(),
    ensures
        i <= scan_hex_end(s, i) <= s.len(),
        forall|j: int| i <= j < scan_hex_end(s, i) ==> is_hex_digit(#[trigger] s[j]),
        scan_hex_end(s, i) < s.len() ==> !is_hex_digit(s[scan_hex_end(s, i)]),
    decreases s.len() - i,
{
    if i < s.len() && is_hex_digit(s[i]) {
        lemma_scan_hex_end(s, i + 1);
    }
}

/// Value of the hex digits `s[i..e)`.
pub open spec fn hex_seq_value(s: Seq<char>, i: int, e: int) -> int
    decreases e - i,
{
    if e <= i {
        0
    } else {
        hex_seq_value(s, i, e - 1) * 16 + hex_value(s[e - 1])
    }
}

pub open spec fn pow16(n: int) -> int
    decreases n,
{
    if n <= 0 {
        1
    } else {
        16 * pow16(n - 1)
    }
}

pub proof fn lemma_hex_seq_value_bound(s: Seq<char>, i: int, e: int)
    requires
        i <= e,
    ensures
        0 <= hex_seq_value(s, i, e) < pow16(e - i),
    decreases e - i,
{
    if e > i {
        lemma_hex_seq_value_bound(s, i, e - 1);
        assert(pow16(e - i) == 16 * pow16(e - i - 1));
        assert(hex_value(s[e - 1]) <= 15);
    }
}

/// A Unicode scalar value: what `char` can hold.
pub open spec fn is_scalar_value(cp: int) -> bool {
    (0 <= cp < 0xD800) || (0xE000 <= cp <= 0x10FFFF)
}

/// Outcome of reading a unicode escape whose `\u` ends just before `i`:
/// the code point and the position after the escape, or the error, exactly
/// as the parser walks it (`{1-6 hex}` or exactly four hex digits).
pub open spec fn parse_unicode_spec(s: Seq<char>, i: int) -> Result<(int, int), ParseError> {
    if i < s.len() && s[i] == '{' {
        let e = scan_hex_end(s, i + 1);
        if e < s.len() && s[e] != '}' {
            Err(ParseError::InvalidHexDigit)
        } else {
            let count = e - (i + 1);
            if count == 0 || count > 6 {
                Err(ParseError::InvalidUnicodeLength)
            } else {
                let cp = hex_seq_value(s, i + 1, e);
                let next = if e < s.len() {
                    e + 1
                } else {
                    e
                };
                if is_scalar_value(cp) {
                    Ok((cp, next))
                } else {
                    Err(ParseError::InvalidUnicodeEscape)
                }
            }
        }
    } else {
        let e = scan_hex_end(s, i);
        if e >= i + 4 {
            let cp = hex_seq_value(s, i, i + 4);
            if is_scalar_value(cp) {
                Ok((cp, i + 4))
            } else {
                Err(ParseError::InvalidUnicodeEscape)
            }
        } else if e == s.len() {
            Err(ParseError::UnexpectedEndOfInput)
        } else {
            Err(ParseError::InvalidHexDigit)
        }
    }
}

/// What a single-character escape denotes.
pub open spec fn escape_char(e: char) -> char {
    if e == 'n' {
        '\n'
    } else if e == 'r' {
        '\r'
    } else if e == 't' {
        '\t'
    } else {
        e
    }
}

/// Content of the literal from position `i` (just after the opening
/// quote) to the closing quote, or the first error met.
pub open spec fn parse_content_spec(s: Seq<char>, i: int) -> Result<Seq<char>, ParseError>
    decreases s.len() - i,
    when 0 <= i
    via parse_content_spec_dec
{
    if i >= s.len() {
        Err(ParseError::MissingQuotes)
    } else if s[i] == '"' {
        if i + 1 == s.len() {
            Ok(Seq::empty())
        } else {
            Err(ParseError::InvalidEscapeSequence('"'))
        }
    } else if s[i] == '\\' {
        if i + 1 >= s.len() {
            Err(ParseError::UnexpectedEndOfInput)
        } else {
            let e = s[i + 1];
            if e == 'n' || e == 'r' || e == 't' || e == '\\' || e == '\'' || e == '"' {
                match parse_content_spec(s, i + 2) {
                    Ok(rest) => Ok(seq![escape_char(e)] + rest),
                    Err(err) => Err(err),
                }
            } else if e == 'u' {
                match parse_unicode_spec(s, i + 2) {
                    Ok(cpnext) => match parse_content_spec(s, cpnext.1) {
                        Ok(rest) => Ok(seq![cpnext.0 as char] + rest),
                        Err(err) => Err(err),
                    },
                    Err(err) => Err(err),
                }
            } else {
                Err(ParseError::InvalidEscapeSequence(e))
            }
        }
    } else {
        match parse_content_spec(s, i + 1) {
            Ok(rest) => Ok(seq![s[i]] + rest),
            Err(err) => Err(err),
        }
    }
}

#[via_fn]
proof fn parse_content_spec_dec(s: Seq<char>, i: int) {
    if i < s.len() && s[i] == '\\' && i + 1 < s.len() && s[i + 1] == 'u' {
        if i + 2 < s.len() && s[i + 2] == '{' {
            lemma_scan_hex_end(s, i + 3);
        } else {
            lemma_scan_hex_end(s, i + 2);
        }
    }
}

/// The whole literal: quotes around content.
pub open spec fn parse_literal_spec(s: Seq<char>) -> Result<Seq<char>, ParseError> {
    if s.len() == 0 || s[0] != '"' {
        Err(ParseError::MissingQuotes)
    } else {
        parse_content_spec(s, 1)
    }
}

/// Parse a double-quoted string literal with `\n`, `\r`, `\t`, `\\`,
/// `\'`, `\"` and `\u` escapes, as used for string values in `set`
/// commands.
#[verifier::loop_isolation(false)]
pub fn parse_string_literal(input: &str) -> (r: Result<String, ParseError>)
    ensures
        match parse_literal_spec(input@) {
            Ok(content) => r matches Ok(out) && out@ == content,
            Err(e) => r == Err::<String, ParseError>(e),
        },
{
    let s = string_to_chars(input);
    let n = s.len();
    if n == 0 || s[0] != '"' {
        return Err(ParseError::MissingQuotes);
    }
    let mut out: Vec<char> = Vec::new();
    let mut i: usize = 1;
    loop
        invariant
            s@ == input@,
            n == s@.len(),
            1 <= i <= n,
            match parse_content_spec(s@, i as int) {
                Ok(rest) => parse_content_spec(s@, 1) == Ok::<Seq<char>, ParseError>(out@ + rest),
                Err(e) => parse_content_spec(s@, 1) == Err::<Seq<char>, ParseError>(e),
            },
        decreases n - i,
    {
        if i >= n {
            return Err(ParseError::MissingQuotes);
        }
        let c = s[i];
        if c == '"' {
            if i + 1 == n {
                proof {
                    assert(parse_content_spec(s@, i as int) == Ok::<Seq<char>, ParseError>(
                        Seq::empty(),
                    ));
                    assert(out@ + Seq::<char>::empty() =~= out@);
                }
                return Ok(chars_to_string(out));
            }
            proof {
                assert(parse_content_spec(s@, i as int) == Err::<Seq<char>, ParseError>(
                    ParseError::InvalidEscapeSequence('"'),
                ));
            }
            return Err(ParseError::InvalidEscapeSequence('"'));
        }
        if c == '\\' {
            if i + 1 >= n {
                proof {
                    assert(parse_content_spec(s@, i as int) == Err::<Seq<char>, ParseError>(
                        ParseError::UnexpectedEndOfInput,
                    ));
                }
                return Err(ParseError::UnexpectedEndOfInput);
            }
            let e = s[i + 1];
            if e == 'n' || e == 'r' || e == 't' || e == '\\' || e == '\'' || e == '"' {
                let decoded = if e == 'n' {
                    '\n'
                } else if e == 'r' {
                    '\r'
                } else if e == 't' {
                    '\t'
                } else {
                    e
                };
                proof {
                    assert(decoded == escape_char(s@[i + 1]));
                }
                let ghost out0 = out@;
                out.push(decoded);
                i = i + 2;
                proof {
                    if parse_content_spec(s@, i as int) is Ok {
                        let rest = parse_content_spec(s@, i as int)->Ok_0;
                        assert(out0 + (seq![decoded] + rest) =~= out@ + rest);
                    }
                }
            } else if e == 'u' {
                match parse_unicode_escape(&s, i + 2) {
                    Ok((ch, next)) => {
                        let ghost out0 = out@;
                        out.push(ch);
                        i = next;
                        proof {
                            if parse_content_spec(s@, i as int) is Ok {
                                let rest = parse_content_spec(s@, i as int)->Ok_0;
                                assert(out0 + (seq![ch] + rest) =~= out@ + rest);
                            }
                        }
                    },
                    Err(err) => {
                        proof {
                            assert(parse_content_spec(s@, i as int) == Err::<
                                Seq<char>,
                                ParseError,
                            >(err));
                        }
                        return Err(err);
                    },
                }
            } else {
                proof {
                    assert(parse_content_spec(s@, i as int) == Err::<Seq<char>, ParseError>(
                        ParseError::InvalidEscapeSequence(e),
                    ));
                }
                return Err(ParseError::InvalidEscapeSequence(e));
            }
        } else {
            let ghost out0 = out@;
            out.push(c);
            i = i + 1;
            proof {
                if parse_content_spec(s@, i as int) is Ok {
                    let rest = parse_content_spec(s@, i as int)->Ok_0;
                    assert(out0 + (seq![c] + rest) =~= out@ + rest);
                }
            }
        }
    }
}

/// Read one unicode escape starting right after the `\u`, returning the
/// decoded character and the position after the escape.
#[verifier::loop_isolation(false)]
fn parse_unicode_escape(s: &Vec<char>, i: usize) -> (r: Result<(char, usize), ParseError>)
    requires
        i <= s@.len(),
    ensures
        match parse_unicode_spec(s@, i as int) {
            Ok(cpnext) => r matches Ok(p) && p.0 as int == cpnext.0 && p.1 == cpnext.1 && i < p.1
                <= s@.len(),
            Err(e) => r == Err::<(char, usize), ParseError>(e),
        },
{
    let n = s.len();
    if i < n && s[i] == '{' {
        proof {
            lemma_scan_hex_end(s@, i + 1);
        }
        let ghost ee = scan_hex_end(s@, i + 1);
        // find the end of the digit run
        let mut j: usize = i + 1;
        while j < n && hex_digit(s[j])
            invariant
                n == s@.len(),
                i + 1 <= j <= ee,
                ee == scan_hex_end(s@, i + 1),
                ee <= n,
                forall|k: int| i + 1 <= k < ee ==> is_hex_digit(#[trigger] s@[k]),
                ee < n ==> !is_hex_digit(s@[ee as int]),
                forall|k: int| i + 1 <= k < j ==> is_hex_digit(#[trigger] s@[k]),
            decreases n - j,
        {
            proof {
                if j >= ee {
                    assert(j == ee);
                    assert(ee < n);
                    assert(!is_hex_digit(s@[ee as int]));
                    assert(false);
                }
            }
            j = j + 1;
        }
        proof {
            if j < ee {
                assert(is_hex_digit(s@[j as int]));
                assert(j < n);
                assert(false);
            }
            assert(j == ee);
        }
        if j < n && s[j] != '}' {
            proof {
                assert(i < s@.len() && s@[i as int] == '{');
                assert(scan_hex_end(s@, i as int + 1) == ee);
                assert(ee < s@.len());
                assert(s@[ee as int] != '}');
                assert(parse_unicode_spec(s@, i as int) == Err::<(int, int), ParseError>(
                    ParseError::InvalidHexDigit,
                ));
            }
            return Err(ParseError::InvalidHexDigit);
        }
        let count = j - (i + 1);
        if count == 0 || count > 6 {
            return Err(ParseError::InvalidUnicodeLength);
        }
        let mut v: u32 = 0;
        let mut k: usize = i + 1;
        proof {
            lemma_hex_seq_value_bound(s@, i + 1 as int, j as int);
            assert(pow16(0) == 1);
            assert(pow16(1) == 16);
            assert(pow16(2) == 256);
            assert(pow16(3) == 4096);
            assert(pow16(4) == 65536);
            assert(pow16(5) == 1048576);
            assert(pow16(6) == 16777216);
        }
        while k < j
            invariant
                n == s@.len(),
                i + 1 <= k <= j <= n,
                j - (i + 1) <= 6,
                forall|m: int| i + 1 <= m < j ==> is_hex_digit(#[trigger] s@[m]),
                v == hex_seq_value(s@, i + 1, k as int),
                v < 16777216,
            decreases j - k,
        {
            proof {
                lemma_hex_seq_value_bound(s@, i + 1 as int, k + 1 as int);
                assert(pow16(k + 1 - (i + 1)) <= pow16(6)) by {
                    lemma_pow16_mono(k + 1 - (i + 1), 6);
                }
                assert(pow16(0) == 1);
                assert(pow16(1) == 16);
                assert(pow16(2) == 256);
                assert(pow16(3) == 4096);
                assert(pow16(4) == 65536);
                assert(pow16(5) == 1048576);
                assert(pow16(6) == 16777216);
            }
            let d = hex_digit_value(s[k]);
            v = v * 16 + d;
            k = k + 1;
        }
        let next = if j < n {
            j + 1
        } else {
            j
        };
        proof {
            let cp = hex_seq_value(s@, i as int + 1, ee);
            assert(v as int == cp);
            if is_scalar_value(cp) {
                assert(parse_unicode_spec(s@, i as int) == Ok::<(int, int), ParseError>(
                    (cp, next as int),
                ));
            } else {
                assert(parse_unicode_spec(s@, i as int) == Err::<(int, int), ParseError>(
                    ParseError::InvalidUnicodeEscape,
                ));
            }
        }
        match char_from_u32(v) {
            Some(ch) => Ok((ch, next)),
            None => Err(ParseError::InvalidUnicodeEscape),
        }
    } else {
        proof {
            lemma_scan_hex_end(s@, i as int);
        }
        let ghost ee = scan_hex_end(s@, i as int);
        let mut v: u32 = 0;
        let mut k: usize = i;
        let mut cnt: usize = 0;
        while cnt < 4
            invariant
                n == s@.len(),
                i <= k <= n,
                cnt <= 4,
                k == i + cnt,
                ee == scan_hex_end(s@, i as int),
                i <= ee <= n,
                forall|m: int| i <= m < ee ==> is_hex_digit(#[trigger] s@[m]),
                ee < n ==> !is_hex_digit(s@[ee as int]),
                k <= ee,
                v == hex_seq_value(s@, i as int, k as int),
                v < 65536,
            decreases 4 - cnt,
        {
            if k >= n {
                proof {
                    assert(ee == k);
                    assert(ee == s@.len());
                    assert(ee < i + 4);
                }
                return Err(ParseError::UnexpectedEndOfInput);
            }
            let c = s[k];
            if !hex_digit(c) {
                proof {
                    if k < ee {
                        assert(is_hex_digit(s@[k as int]));
                    }
                    assert(ee == k);
                    assert(ee < i + 4);
                    assert(ee < n);
                    assert(parse_unicode_spec(s@, i as int) == Err::<(int, int), ParseError>(
                        ParseError::InvalidHexDigit,
                    ));
                }
                return Err(ParseError::InvalidHexDigit);
            }
            proof {
                lemma_hex_seq_value_bound(s@, i as int, k + 1 as int);
                assert(pow16(k + 1 - i) <= pow16(4)) by {
                    lemma_pow16_mono(k + 1 - i, 4);
                }
                assert(pow16(0) == 1);
                assert(pow16(1) == 16);
                assert(pow16(2) == 256);
                assert(pow16(3) == 4096);
                assert(pow16(4) == 65536);
                if k + 1 > ee {
                    assert(ee == k);
                    assert(ee < n);
                    assert(is_hex_digit(s@[ee as int]));
                    assert(false);
                }
            }
            let d = hex_digit_value(c);
            v = v * 16 + d;
            k = k + 1;
            cnt = cnt + 1;
        }
        proof {
            assert(ee >= i + 4);
            let cp = hex_seq_value(s@, i as int, i as int + 4);
            assert(v as int == cp);
            if is_scalar_value(cp) {
                assert(parse_unicode_spec(s@, i as int) == Ok::<(int, int), ParseError>(
                    (cp, i as int + 4),
                ));
            } else {
                assert(parse_unicode_spec(s@, i as int) == Err::<(int, int), ParseError>(
                    ParseError::InvalidUnicodeEscape,
                ));
            }
        }
        match char_from_u32(v) {
            Some(ch) => Ok((ch, k)),
            None => Err(ParseError::InvalidUnicodeEscape),
        }
    }
}

pub proof fn lemma_pow16_mono(a: int, b: int)
    requires
        a <= b,
    ensures
        pow16(a) <= pow16(b),
    decreases b - a,
{
    if a < b && b > 0 {
        lemma_pow16_mono(a, b - 1);
        assert(pow16(b) == 16 * pow16(b - 1));
        assert(pow16(b - 1) >= 1) by {
            lemma_pow16_pos(b - 1);
        }
    }
}

pub proof fn lemma_pow16_pos(n: int)
    ensures
        pow16(n) >= 1,
    decreases (if n < 0 { 0 } else { n }),
{
    if n > 0 {
        lemma_pow16_pos(n - 1);
    }
}

/// What a JSON single-character escape denotes.
pub open spec fn json_escape_char(e: char) -> char {
    if e == 'n' {
        '\n'
    } else if e == 'r' {
        '\r'
    } else if e == 't' {
        '\t'
    } else if e == 'b' {
        '\u{0008}'
    } else if e == 'f' {
        '\u{000C}'
    } else {
        e
    }
}

/// Value of exactly four hex digits at `i`, where a JSON `\u` escape
/// demands them.
pub open spec fn json_hex4_spec(s: Seq<char>, i: int) -> Result<int, ParseError> {
    if 0 <= i && i + 4 <= s.len() && is_hex_digit(s[i]) && is_hex_digit(s[i + 1]) && is_hex_digit(
        s[i + 2],
    ) && is_hex_digit(s[i + 3]) {
        Ok(
            hex_value(s[i]) * 0x1000 + hex_value(s[i + 1]) * 0x100 + hex_value(s[i + 2]) * 16
                + hex_value(s[i + 3]),
        )
    } else {
        Err(ParseError::InvalidUnicodeEscape)
    }
}

/// Content of a JSON string literal from position `i` (just after the
/// opening quote) to the closing quote: the eight JSON escapes, `\uXXXX`
/// with surrogate pairs for the supplementary planes, everything else as
/// itself.
pub open spec fn json_content_spec(s: Seq<char>, i: int) -> Result<Seq<char>, ParseError>
    decreases s.len() - i,
    when 0 <= i
{
    if i >= s.len() {
        Err(ParseError::MissingQuotes)
    } else if s[i] == '"' {
        if i + 1 == s.len() {
            Ok(Seq::empty())
        } else {
            Err(ParseError::InvalidEscapeSequence('"'))
        }
    } else if s[i] == '\\' {
        if i + 1 >= s.len() {
            Err(ParseError::UnexpectedEndOfInput)
        } else {
            let e = s[i + 1];
            if e == '"' || e == '\\' || e == '/' || e == 'b' || e == 'f' || e == 'n' || e == 'r'
                || e == 't' {
                match json_content_spec(s, i + 2) {
                    Ok(rest) => Ok(seq![json_escape_char(e)] + rest),
                    Err(err) => Err(err),
                }
            } else if e == 'u' {
                match json_hex4_spec(s, i + 2) {
                    Ok(v) => if 0xD800 <= v && v <= 0xDBFF {
                        // a high surrogate must pair with a low one
                        if i + 7 < s.len() && s[i + 6] == '\\' && s[i + 7] == 'u' {
                            match json_hex4_spec(s, i + 8) {
                                Ok(w) => if 0xDC00 <= w && w <= 0xDFFF {
                                    match json_content_spec(s, i + 12) {
                                        Ok(rest) => Ok(
                                            seq![
                                                (0x10000 + (v - 0xD800) * 0x400 + (w
                                                    - 0xDC00)) as char,
                                            ] + rest,
                                        ),
                                        Err(err) => Err(err),
                                    }
                                } else {
                                    Err(ParseError::InvalidUnicodeEscape)
                                },
                                Err(err) => Err(err),
                            }
                        } else {
                            Err(ParseError::UnexpectedEndOfInput)
                        }
                    } else if 0xDC00 <= v && v <= 0xDFFF {
                        Err(ParseError::InvalidUnicodeEscape)
                    } else {
                        match json_content_spec(s, i + 6) {
                            Ok(rest) => Ok(seq![v as char] + rest),
                            Err(err) => Err(err),
                        }
                    },
                    Err(err) => Err(err),
                }
            } else {
                Err(ParseError::InvalidEscapeSequence(e))
            }
        }
    } else {
        match json_content_spec(s, i + 1) {
            Ok(rest) => Ok(seq![s[i]] + rest),
            Err(err) => Err(err),
        }
    }
}

/// The whole JSON string literal: quotes around content.
pub open spec fn json_literal_spec(s: Seq<char>) -> Result<Seq<char>, ParseError> {
    if s.len() == 0 || s[0] != '"' {
        Err(ParseError::MissingQuotes)
    } else {
        json_content_spec(s, 1)
    }
}

/// Read the four hex digits a JSON `\u` escape demands.
fn json_hex4(s: &Vec<char>, i: usize) -> (r: Result<u32, ParseError>)
    requires
        i <= s@.len(),
    ensures
        match json_hex4_spec(s@, i as int) {
            Ok(v) => r matches Ok(got) && got as int == v && 0 <= v < 0x10000,
            Err(e) => r == Err::<u32, ParseError>(e),
        },
{
    let n = s.len();
    if n - i < 4 {
        return Err(ParseError::InvalidUnicodeEscape);
    }
    let c0 = s[i];
    let c1 = s[i + 1];
    let c2 = s[i + 2];
    let c3 = s[i + 3];
    if !hex_digit(c0) || !hex_digit(c1) || !hex_digit(c2) || !hex_digit(c3) {
        return Err(ParseError::InvalidUnicodeEscape);
    }
    Ok(
        hex_digit_value(c0) * 0x1000 + hex_digit_value(c1) * 0x100 + hex_digit_value(c2) * 16
            + hex_digit_value(c3),
    )
}

/// Parse a JSON-escaped double-quoted string, the format `set` accepts
/// for string values.
#[verifier::loop_isolation(false)]
pub fn parse_json_string_literal(input: &str) -> (r: Result<String, ParseError>)
    ensures
        match json_literal_spec(input@) {
            Ok(content) => r matches Ok(out) && out@ == content,
            Err(e) => r == Err::<String, ParseError>(e),
        },
{
    let s = string_to_chars(input);
    let n = s.len();
    if n == 0 || s[0] != '"' {
        return Err(ParseError::MissingQuotes);
    }
    let mut out: Vec<char> = Vec::new();
    let mut i: usize = 1;
    loop
        invariant
            s@ == input@,
            n == s@.len(),
            1 <= i <= n,
            match json_content_spec(s@, i as int) {
                Ok(rest) => json_content_spec(s@, 1) == Ok::<Seq<char>, ParseError>(out@ + rest),
                Err(e) => json_content_spec(s@, 1) == Err::<Seq<char>, ParseError>(e),
            },
        decreases n - i,
    {
        if i >= n {
            return Err(ParseError::MissingQuotes);
        }
        let c = s[i];
        if c == '"' {
            if i + 1 == n {
                proof {
                    assert(json_content_spec(s@, i as int) == Ok::<Seq<char>, ParseError>(
                        Seq::empty(),
                    ));
                    assert(out@ + Seq::<char>::empty() =~= out@);
                }
                return Ok(chars_to_string(out));
            }
            proof {
                assert(json_content_spec(s@, i as int) == Err::<Seq<char>, ParseError>(
                    ParseError::InvalidEscapeSequence('"'),
                ));
            }
            return Err(ParseError::InvalidEscapeSequence('"'));
        }
        if c == '\\' {
            if i + 1 >= n {
                proof {
                    assert(json_content_spec(s@, i as int) == Err::<Seq<char>, ParseError>(
                        ParseError::UnexpectedEndOfInput,
                    ));
                }
                return Err(ParseError::UnexpectedEndOfInput);
            }
            let e = s[i + 1];
            if e == '"' || e == '\\' || e == '/' || e == 'b' || e == 'f' || e == 'n' || e == 'r'
                || e == 't' {
                let decoded = if e == 'n' {
                    '\n'
                } else if e == 'r' {
                    '\r'
                } else if e == 't' {
                    '\t'
                } else if e == 'b' {
                    '\u{0008}'
                } else if e == 'f' {
                    '\u{000C}'
                } else {
                    e
                };
                proof {
                    assert(decoded == json_escape_char(s@[i + 1]));
                }
                let ghost out0 = out@;
                out.push(decoded);
                i = i + 2;
                proof {
                    if json_content_spec(s@, i as int) is Ok {
                        let rest = json_content_spec(s@, i as int)->Ok_0;
                        assert(out0 + (seq![decoded] + rest) =~= out@ + rest);
                    }
                }
            } else if e == 'u' {
                let v = match json_hex4(&s, i + 2) {
                    Ok(v) => v,
                    Err(err) => {
                        proof {
                            assert(json_content_spec(s@, i as int) == Err::<Seq<char>, ParseError>(
                                err,
                            ));
                        }
                        return Err(err);
                    },
                };
                if 0xD800 <= v && v <= 0xDBFF {
                    if n - i > 7 && s[i + 6] == '\\' && s[i + 7] == 'u' {
                        let w = match json_hex4(&s, i + 8) {
                            Ok(w) => w,
                            Err(err) => {
                                proof {
                                    assert(json_content_spec(s@, i as int) == Err::<
                                        Seq<char>,
                                        ParseError,
                                    >(err));
                                }
                                return Err(err);
                            },
                        };
                        if 0xDC00 <= w && w <= 0xDFFF {
                            let cp = 0x10000 + (v - 0xD800) * 0x400 + (w - 0xDC00);
                            match char_from_u32(cp) {
                                Some(ch) => {
                                    let ghost out0 = out@;
                                    out.push(ch);
                                    i = i + 12;
                                    proof {
                                        if json_content_spec(s@, i as int) is Ok {
                                            let rest = json_content_spec(s@, i as int)->Ok_0;
                                            assert(out0 + (seq![ch] + rest) =~= out@ + rest);
                                        }
                                    }
                                },
                                None => {
                                    proof {
                                        // a paired surrogate always lands in
                                        // the supplementary planes
                                        assert(false);
                                    }
                                    return Err(ParseError::InvalidUnicodeEscape);
                                },
                            }
                        } else {
                            proof {
                                assert(json_content_spec(s@, i as int) == Err::<
                                    Seq<char>,
                                    ParseError,
                                >(ParseError::InvalidUnicodeEscape));
                            }
                            return Err(ParseError::InvalidUnicodeEscape);
                        }
                    } else {
                        proof {
                            assert(json_content_spec(s@, i as int) == Err::<Seq<char>, ParseError>(
                                ParseError::UnexpectedEndOfInput,
                            ));
                        }
                        return Err(ParseError::UnexpectedEndOfInput);
                    }
                } else if 0xDC00 <= v && v <= 0xDFFF {
                    proof {
                        assert(json_content_spec(s@, i as int) == Err::<Seq<char>, ParseError>(
                            ParseError::InvalidUnicodeEscape,
                        ));
                    }
                    return Err(ParseError::InvalidUnicodeEscape);
                } else {
                    match char_from_u32(v) {
                        Some(ch) => {
                            let ghost out0 = out@;
                            out.push(ch);
                            i = i + 6;
                            proof {
                                if json_content_spec(s@, i as int) is Ok {
                                    let rest = json_content_spec(s@, i as int)->Ok_0;
                                    assert(out0 + (seq![ch] + rest) =~= out@ + rest);
                                }
                            }
                        },
                        None => {
                            proof {
                                // surrogates were just excluded and four hex
                                // digits stay under the scalar-value bound
                                assert(false);
                            }
                            return Err(ParseError::InvalidUnicodeEscape);
                        },
                    }
                }
            } else {
                proof {
                    assert(json_content_spec(s@, i as int) == Err::<Seq<char>, ParseError>(
                        ParseError::InvalidEscapeSequence(e),
                    ));
                }
                return Err(ParseError::InvalidEscapeSequence(e));
            }
        } else {
            let ghost out0 = out@;
            out.push(c);
            i = i + 1;
            proof {
                if json_content_spec(s@, i as int) is Ok {
                    let rest = json_content_spec(s@, i as int)->Ok_0;
                    assert(out0 + (seq![c] + rest) =~= out@ + rest);
                }
            }
        }
    }
}

} // verus!
