use vstd::prelude::*;
use crate::error::{decode_error, syntax_error, DecodeProblem, Expected, JsonError};
use crate::text::{char_from_code, string_from_chars};

verus! {

pub open spec fn is_hex(c: char) -> bool {
    ('0' <= c && c <= '9') || ('a' <= c && c <= 'f') || ('A' <= c && c <= 'F')
}

pub open spec fn hex_val(c: char) -> int {
    if '0' <= c && c <= '9' {
        c as int - 48
    } else if 'a' <= c && c <= 'f' {
        c as int - 87
    } else {
        c as int - 55
    }
}

/// The value of the four hexadecimal digits at `s[j..j + 4]`, if they are that.
pub open spec fn hex4(s: Seq<char>, j: int) -> Option<int> {
    if 0 <= j && j + 4 <= s.len() && is_hex(s[j]) && is_hex(s[j + 1]) && is_hex(s[j + 2])
        && is_hex(s[j + 3]) {
        Some(
            hex_val(s[j]) * 4096 + hex_val(s[j + 1]) * 256 + hex_val(s[j + 2]) * 16 + hex_val(
                s[j + 3],
            ),
        )
    } else {
        None
    }
}

/// The scalar value of a character.
pub open spec fn code_of(c: char) -> int {
    c as int
}

/// The character whose scalar value is `n`.
pub open spec fn code_char(n: int) -> char {
    choose|c: char| #[trigger] code_of(c) == n
}

/// The character that the escape sequence at `s[i]` (a backslash) stands
/// for, and how many characters the sequence takes. A high surrogate escape
/// takes the low surrogate escape after it too. A lone surrogate is a decode
/// problem; where `strict` is off it reads as U+FFFD, so that the rest of the
/// text can still be held to the grammar.
pub open spec fn escape_at(s: Seq<char>, i: int, strict: bool) -> Result<(char, int), JsonError> {
    if i + 1 >= s.len() {
        Err(syntax_error(i + 1, Expected::Escape))
    } else {
        let e = s[i + 1];
        if e == '"' || e == '\\' || e == '/' {
            Ok((e, 2))
        } else if e == 'b' {
            Ok(('\x08', 2))
        } else if e == 'f' {
            Ok(('\x0c', 2))
        } else if e == 'n' {
            Ok(('\n', 2))
        } else if e == 'r' {
            Ok(('\r', 2))
        } else if e == 't' {
            Ok(('\t', 2))
        } else if e == 'u' {
            match hex4(s, i + 2) {
                None => Err(syntax_error(i + 2, Expected::HexDigit)),
                Some(h) => if 0xD800 <= h < 0xDC00 {
                    if s.len() - i > 7 && s[i + 6] == '\\' && s[i + 7] == 'u' && hex4(s, i + 8) is Some
                        && 0xDC00 <= hex4(s, i + 8)->0 < 0xE000 {
                        let l = hex4(s, i + 8)->0;
                        Ok((code_char(0x10000 + (h - 0xD800) * 0x400 + (l - 0xDC00)), 12))
                    } else if strict {
                        Err(decode_error(i, DecodeProblem::LoneSurrogate))
                    } else {
                        Ok(('\u{FFFD}', 6))
                    }
                } else if 0xDC00 <= h < 0xE000 {
                    if strict {
                        Err(decode_error(i, DecodeProblem::LoneSurrogate))
                    } else {
                        Ok(('\u{FFFD}', 6))
                    }
                } else {
                    Ok((code_char(h), 6))
                },
            }
        } else {
            Err(syntax_error(i + 1, Expected::Escape))
        }
    }
}

pub proof fn lemma_escape_len(s: Seq<char>, i: int, strict: bool)
    ensures
        escape_at(s, i, strict) is Ok ==> 2 <= escape_at(s, i, strict)->Ok_0.1 && i + escape_at(
            s,
            i,
            strict,
        )->Ok_0.1
            <= s.len(),
{
}

/// The decoded text of a string literal from `s[i]` on, after `acc`, and the
/// position just past its closing quote. A raw control character is a decode
/// problem; where `strict` is off it is kept as it stands.
pub open spec fn string_rest(s: Seq<char>, i: int, acc: Seq<char>, strict: bool) -> Result<
    (Seq<char>, int),
    JsonError,
>
    decreases s.len() - i,
{
    if i < 0 || i >= s.len() {
        Err(syntax_error(s.len() as int, Expected::ClosingQuote))
    } else if s[i] == '"' {
        Ok((acc, i + 1))
    } else if s[i] == '\\' {
        proof {
            lemma_escape_len(s, i, strict);
        }
        match escape_at(s, i, strict) {
            Err(e) => Err(e),
            Ok((c, n)) => string_rest(s, i + n, acc.push(c), strict),
        }
    } else if ' ' > s[i] && strict {
        Err(decode_error(i, DecodeProblem::ControlCharacter))
    } else {
        string_rest(s, i + 1, acc.push(s[i]), strict)
    }
}

/// The string literal that opens with the quote at `s[q]`.
pub open spec fn string_at(s: Seq<char>, q: int, strict: bool) -> Result<(Seq<char>, int), JsonError> {
    string_rest(s, q + 1, Seq::empty(), strict)
}

pub proof fn lemma_string_rest_end(s: Seq<char>, i: int, acc: Seq<char>, strict: bool)
    requires
        0 <= i,
    ensures
        string_rest(s, i, acc, strict) is Ok ==> i < string_rest(s, i, acc, strict)->Ok_0.1
            <= s.len(),
    decreases s.len() - i,
{
    if 0 <= i < s.len() && s[i] != '"' {
        if s[i] == '\\' {
            lemma_escape_len(s, i, strict);
            if let Ok((c, n)) = escape_at(s, i, strict) {
                lemma_string_rest_end(s, i + n, acc.push(c), strict);
            }
        } else if !(' ' > s[i] && strict) {
            lemma_string_rest_end(s, i + 1, acc.push(s[i]), strict);
        }
    }
}

fn hex_digit(c: char) -> (r: Option<u32>)
    ensures
        r is Some <==> is_hex(c),
        r is Some ==> r->0 as int == hex_val(c) && r->0 < 16,
{
    if '0' <= c && c <= '9' {
        Some(c as u32 - 48)
    } else if 'a' <= c && c <= 'f' {
        Some(c as u32 - 87)
    } else if 'A' <= c && c <= 'F' {
        Some(c as u32 - 55)
    } else {
        None
    }
}

fn read_hex4(s: &Vec<char>, j: usize) -> (r: Option<u32>)
    ensures
        r is Some <==> hex4(s@, j as int) is Some,
        r is Some ==> r->0 as int == hex4(s@, j as int)->0 && r->0 < 0x10000,
{
    if j > s.len() || s.len() - j < 4 {
        return None;
    }
    let a = hex_digit(s[j]);
    let b = hex_digit(s[j + 1]);
    let c = hex_digit(s[j + 2]);
    let d = hex_digit(s[j + 3]);
    match (a, b, c, d) {
        (Some(a), Some(b), Some(c), Some(d)) => Some(a * 4096 + b * 256 + c * 16 + d),
        _ => None,
    }
}

fn lone_surrogate(i: usize, strict: bool) -> (r: Result<(char, usize), JsonError>)
    ensures
        r == if strict {
            Err::<(char, usize), JsonError>(
                JsonError::Decode { position: i, problem: DecodeProblem::LoneSurrogate },
            )
        } else {
            Ok::<(char, usize), JsonError>(('\u{FFFD}', 6))
        },
{
    if strict {
        Err(JsonError::Decode { position: i, problem: DecodeProblem::LoneSurrogate })
    } else {
        Ok(('\u{FFFD}', 6))
    }
}

fn decode_escape(s: &Vec<char>, i: usize, strict: bool) -> (r: Result<(char, usize), JsonError>)
    requires
        i < s.len(),
    ensures
        match r {
            Ok((c, n)) => escape_at(s@, i as int, strict) == Ok::<(char, int), JsonError>(
                (c, n as int),
            ),
            Err(e) => escape_at(s@, i as int, strict) == Err::<(char, int), JsonError>(e),
        },
        !strict && r is Err ==> r->Err_0 is Syntax,
{
    if s.len() - i < 2 {
        return Err(JsonError::Syntax { position: i + 1, expected: Expected::Escape });
    }
    let e = s[i + 1];
    if e == '"' || e == '\\' || e == '/' {
        Ok((e, 2))
    } else if e == 'b' {
        Ok(('\x08', 2))
    } else if e == 'f' {
        Ok(('\x0c', 2))
    } else if e == 'n' {
        Ok(('\n', 2))
    } else if e == 'r' {
        Ok(('\r', 2))
    } else if e == 't' {
        Ok(('\t', 2))
    } else if e == 'u' {
        match read_hex4(s, i + 2) {
            None => Err(JsonError::Syntax { position: i + 2, expected: Expected::HexDigit }),
            Some(h) => {
                if 0xD800 <= h && h < 0xDC00 {
                    let low = if s.len() - i > 7 && s[i + 6] == '\\' && s[i + 7] == 'u' {
                        read_hex4(s, i + 8)
                    } else {
                        None
                    };
                    match low {
                        Some(l) => {
                            if 0xDC00 <= l && l < 0xE000 {
                                let code = 0x10000 + (h - 0xD800) * 0x400 + (l - 0xDC00);
                                let c = char_from_code(code);
                                proof {
                                    let w = c->0;
                                    assert(code_of(w) == code as int);
                                }
                                Ok((c.unwrap(), 12))
                            } else {
                                lone_surrogate(i, strict)
                            }
                        },
                        None => lone_surrogate(i, strict),
                    }
                } else if 0xDC00 <= h && h < 0xE000 {
                    lone_surrogate(i, strict)
                } else {
                    let c = char_from_code(h);
                    proof {
                        let w = c->0;
                        assert(code_of(w) == h as int);
                    }
                    Ok((c.unwrap(), 6))
                }
            },
        }
    } else {
        Err(JsonError::Syntax { position: i + 1, expected: Expected::Escape })
    }
}

/// Reads the string literal whose opening quote stands at `s[q]`: its decoded
/// text and the position just past its closing quote. Where `strict` is off,
/// decode problems are passed over and only the grammar can fail.
pub fn parse_string(s: &Vec<char>, q: usize, strict: bool) -> (r: Result<(String, usize), JsonError>)
    requires
        q < s.len(),
    ensures
        match r {
            Ok((t, e)) => string_at(s@, q as int, strict) == Ok::<(Seq<char>, int), JsonError>(
                (t@, e as int),
            ),
            Err(x) => string_at(s@, q as int, strict) == Err::<(Seq<char>, int), JsonError>(x),
        },
        !strict && r is Err ==> r->Err_0 is Syntax,
{
    let mut acc: Vec<char> = Vec::new();
    let mut i: usize = q + 1;
    while i < s.len()
        invariant
            q < i <= s@.len(),
            string_at(s@, q as int, strict) == string_rest(s@, i as int, acc@, strict),
        decreases s@.len() - i,
    {
        let c = s[i];
        if c == '"' {
            let t = string_from_chars(&acc);
            return Ok((t, i + 1));
        } else if c == '\\' {
            match decode_escape(s, i, strict) {
                Err(e) => {
                    return Err(e);
                },
                Ok((d, n)) => {
                    proof {
                        lemma_escape_len(s@, i as int, strict);
                    }
                    acc.push(d);
                    i = i + n;
                },
            }
        } else if ' ' > c && strict {
            return Err(JsonError::Decode { position: i, problem: DecodeProblem::ControlCharacter });
        } else {
            acc.push(c);
            i = i + 1;
        }
    }
    Err(JsonError::Syntax { position: s.len(), expected: Expected::ClosingQuote })
}

} // verus!
