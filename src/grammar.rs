//! The JSON grammar as spec functions over the input's characters.
//!
//! Each production takes the input `s` and a position `p` and yields either
//! the decoded value with the position just past it, or an error kind with
//! the position where the error was detected.
use vstd::prelude::*;
use crate::error::ErrorKind;
use crate::value::Json;

verus! {

/// Outcome of a production: `Ok((value, end))` or `Err((kind, position))`.
pub type Outcome = Result<(Json, int), (ErrorKind, int)>;

pub open spec fn is_ws(c: char) -> bool {
    c == ' ' || c == '\t' || c == '\n' || c == '\r'
}

pub open spec fn is_digit(c: char) -> bool {
    '0' <= c && c <= '9'
}

/// Characters that may not directly follow a literal word.
pub open spec fn is_word_char(c: char) -> bool {
    ('a' <= c && c <= 'z') || ('A' <= c && c <= 'Z') || is_digit(c) || c == '_'
}

/// Length of the run of whitespace starting at `p`.
pub open spec fn ws_len(s: Seq<char>, p: int) -> nat
    decreases s.len() - p,
{
    if 0 <= p < s.len() && is_ws(s[p]) {
        1 + ws_len(s, p + 1)
    } else {
        0
    }
}

/// Length of the run of decimal digits starting at `p`.
pub open spec fn digits_len(s: Seq<char>, p: int) -> nat
    decreases s.len() - p,
{
    if 0 <= p < s.len() && is_digit(s[p]) {
        1 + digits_len(s, p + 1)
    } else {
        0
    }
}

pub open spec fn char_at(s: Seq<char>, p: int, c: char) -> bool {
    0 <= p < s.len() && s[p] == c
}

// ---------------------------------------------------------------- numbers

/// End of the integer part (`0`, or a nonzero digit and more digits) at `p`.
pub open spec fn int_part_end(s: Seq<char>, p: int) -> Option<int> {
    if char_at(s, p, '0') {
        if p + 1 < s.len() && is_digit(s[p + 1]) {
            None
        } else {
            Some(p + 1)
        }
    } else if digits_len(s, p) > 0 {
        Some(p + digits_len(s, p))
    } else {
        None
    }
}

/// End of the optional fraction (`.` and one or more digits) at `p`.
pub open spec fn fraction_end(s: Seq<char>, p: int) -> Option<int> {
    if char_at(s, p, '.') {
        if digits_len(s, p + 1) > 0 {
            Some(p + 1 + digits_len(s, p + 1))
        } else {
            None
        }
    } else {
        Some(p)
    }
}

/// End of the optional exponent (`e` or `E`, a sign, one or more digits) at `p`.
pub open spec fn exponent_end(s: Seq<char>, p: int) -> Option<int> {
    if char_at(s, p, 'e') || char_at(s, p, 'E') {
        let q = if char_at(s, p + 1, '+') || char_at(s, p + 1, '-') {
            p + 2
        } else {
            p + 1
        };
        if digits_len(s, q) > 0 {
            Some(q + digits_len(s, q))
        } else {
            None
        }
    } else {
        Some(p)
    }
}

/// End of the number lexeme that starts at `p`, if one does.
pub open spec fn number_end(s: Seq<char>, p: int) -> Option<int> {
    let a = if char_at(s, p, '-') {
        p + 1
    } else {
        p
    };
    match int_part_end(s, a) {
        None => None,
        Some(b) => match fraction_end(s, b) {
            None => None,
            Some(c) => exponent_end(s, c),
        },
    }
}

pub open spec fn number_at(s: Seq<char>, p: int) -> Outcome {
    match number_end(s, p) {
        Some(e) => Ok((Json::Number(s.subrange(p, e)), e)),
        None => Err((ErrorKind::InvalidNumber, p)),
    }
}

// ---------------------------------------------------------------- strings

/// Value of a hexadecimal digit, or -1.
pub open spec fn hex_value(c: char) -> int {
    if is_digit(c) {
        c as int - '0' as int
    } else if 'a' <= c && c <= 'f' {
        c as int - 'a' as int + 10
    } else if 'A' <= c && c <= 'F' {
        c as int - 'A' as int + 10
    } else {
        -1
    }
}

/// The 16-bit unit written as four hexadecimal digits at `p`, or -1.
pub open spec fn hex4(s: Seq<char>, p: int) -> int {
    if 0 <= p && p + 4 <= s.len() && hex_value(s[p]) >= 0 && hex_value(s[p + 1]) >= 0
        && hex_value(s[p + 2]) >= 0 && hex_value(s[p + 3]) >= 0 {
        hex_value(s[p]) * 4096 + hex_value(s[p + 1]) * 256 + hex_value(s[p + 2]) * 16
            + hex_value(s[p + 3])
    } else {
        -1
    }
}

pub open spec fn is_high_surrogate(u: int) -> bool {
    0xD800 <= u <= 0xDBFF
}

pub open spec fn is_low_surrogate(u: int) -> bool {
    0xDC00 <= u <= 0xDFFF
}

/// The character whose scalar value is `x`.
pub open spec fn char_of(x: int) -> char {
    (x as u32) as char
}

/// The escape whose letter is at `p` (just after the backslash): the
/// scalar value it denotes and the position after it.
pub open spec fn escape_at(s: Seq<char>, p: int) -> Option<(int, int)> {
    if !(0 <= p < s.len()) {
        None
    } else if s[p] == '"' || s[p] == '\\' || s[p] == '/' {
        Some((s[p] as int, p + 1))
    } else if s[p] == 'b' {
        Some((0x08, p + 1))
    } else if s[p] == 'f' {
        Some((0x0C, p + 1))
    } else if s[p] == 'n' {
        Some((0x0A, p + 1))
    } else if s[p] == 'r' {
        Some((0x0D, p + 1))
    } else if s[p] == 't' {
        Some((0x09, p + 1))
    } else if s[p] == 'u' {
        let u = hex4(s, p + 1);
        if u < 0 || is_low_surrogate(u) {
            None
        } else if is_high_surrogate(u) {
            let l = hex4(s, p + 7);
            if char_at(s, p + 5, '\\') && char_at(s, p + 6, 'u') && is_low_surrogate(l) {
                Some((0x10000 + (u - 0xD800) * 0x400 + (l - 0xDC00), p + 11))
            } else {
                None
            }
        } else {
            Some((u, p + 5))
        }
    } else {
        None
    }
}

/// The rest of a string whose opening quote is already read: `acc` holds
/// the characters decoded so far and `p` is the next position to read.
pub open spec fn string_rest(s: Seq<char>, p: int, acc: Seq<char>) -> Result<
    (Seq<char>, int),
    (ErrorKind, int),
>
    decreases s.len() - p,
{
    if p < 0 || p >= s.len() {
        Err((ErrorKind::UnterminatedString, p))
    } else if s[p] == '"' {
        Ok((acc, p + 1))
    } else if s[p] == '\\' {
        if p + 1 >= s.len() {
            Err((ErrorKind::UnterminatedString, p + 1))
        } else {
            match escape_at(s, p + 1) {
                Some((x, e)) => if e > p {
                    string_rest(s, e, acc.push(char_of(x)))
                } else {
                    Err((ErrorKind::InvalidEscape, p))
                },
                None => Err((ErrorKind::InvalidEscape, p)),
            }
        }
    } else {
        string_rest(s, p + 1, acc.push(s[p]))
    }
}

/// The error for a missing `c` at `p`.
pub open spec fn expect_error(s: Seq<char>, p: int) -> (ErrorKind, int) {
    if p >= s.len() {
        (ErrorKind::UnexpectedEof, p)
    } else {
        (ErrorKind::UnexpectedToken, p)
    }
}

/// A string token (its characters and end) that starts at `p`.
pub open spec fn string_token(s: Seq<char>, p: int) -> Result<(Seq<char>, int), (ErrorKind, int)> {
    if char_at(s, p, '"') {
        string_rest(s, p + 1, Seq::empty())
    } else {
        Err(expect_error(s, p))
    }
}

pub open spec fn string_at(s: Seq<char>, p: int) -> Outcome {
    match string_token(s, p) {
        Ok((t, e)) => Ok((Json::Str(t), e)),
        Err(x) => Err(x),
    }
}

// ---------------------------------------------------------------- literals

/// Whether `w` stands at `p`.
pub open spec fn word_at(s: Seq<char>, p: int, w: Seq<char>) -> bool {
    0 <= p && p + w.len() <= s.len() && s.subrange(p, p + w.len()) == w
}

/// The literal `w`, denoting `v`, at `p`; it may not run on into a word character.
pub open spec fn literal_at(s: Seq<char>, p: int, w: Seq<char>, v: Json) -> Outcome {
    if word_at(s, p, w) && !(p + w.len() < s.len() && is_word_char(s[p + w.len()])) {
        Ok((v, p + w.len()))
    } else {
        Err((ErrorKind::UnexpectedToken, p))
    }
}

pub open spec fn null_at(s: Seq<char>, p: int) -> Outcome {
    literal_at(s, p, seq!['n', 'u', 'l', 'l'], Json::Null)
}

pub open spec fn bool_at(s: Seq<char>, p: int) -> Outcome {
    if char_at(s, p, 't') {
        literal_at(s, p, seq!['t', 'r', 'u', 'e'], Json::Bool(true))
    } else if char_at(s, p, 'f') {
        literal_at(s, p, seq!['f', 'a', 'l', 's', 'e'], Json::Bool(false))
    } else {
        Err(expect_error(s, p))
    }
}

// ---------------------------------------------------------------- objects

/// The members with key `k` set to `v`: a present key keeps its place and
/// takes the new value, a new key goes at the end.
pub open spec fn put(ms: Seq<(Seq<char>, Json)>, k: Seq<char>, v: Json) -> Seq<(Seq<char>, Json)> {
    if exists|i: int| 0 <= i < ms.len() && ms[i].0 == k {
        let i = choose|i: int| 0 <= i < ms.len() && ms[i].0 == k;
        ms.update(i, (k, v))
    } else {
        ms.push((k, v))
    }
}

pub open spec fn keys_unique(ms: Seq<(Seq<char>, Json)>) -> bool {
    forall|i: int, j: int| 0 <= i < ms.len() && 0 <= j < ms.len() && i != j ==> ms[i].0 != ms[j].0
}

// ---------------------------------------------------------------- values

/// A value at `p`, after optional whitespace, inside `d` open arrays and
/// objects, with at most `m` allowed.
pub open spec fn value_at(s: Seq<char>, p: int, d: int, m: int) -> Outcome
    decreases s.len() - p, 1int,
{
    let q = p + ws_len(s, p);
    if q >= s.len() || q < 0 {
        Err((ErrorKind::UnexpectedToken, q))
    } else {
        let c = s[q];
        if c == '"' {
            string_at(s, q)
        } else if c == '-' || is_digit(c) {
            number_at(s, q)
        } else if c == 't' || c == 'f' {
            bool_at(s, q)
        } else if c == 'n' {
            null_at(s, q)
        } else if c == '[' {
            if d >= m {
                Err((ErrorKind::NestingTooDeep, q))
            } else {
                array_rest(s, q + 1, d + 1, m)
            }
        } else if c == '{' {
            if d >= m {
                Err((ErrorKind::NestingTooDeep, q))
            } else {
                object_rest(s, q + 1, d + 1, m)
            }
        } else {
            Err((ErrorKind::UnexpectedToken, q))
        }
    }
}

/// An array whose `[` is already read.
pub open spec fn array_rest(s: Seq<char>, p: int, d: int, m: int) -> Outcome
    decreases s.len() - p, 3int,
{
    let q = p + ws_len(s, p);
    if q >= s.len() {
        Err((ErrorKind::UnexpectedEof, q))
    } else if s[q] == ']' {
        Ok((Json::Array(Seq::empty()), q + 1))
    } else {
        elements(s, q, d, m, Seq::empty())
    }
}

/// The elements of an array from `p` on, after the elements `acc`.
pub open spec fn elements(s: Seq<char>, p: int, d: int, m: int, acc: Seq<Json>) -> Outcome
    decreases s.len() - p, 2int,
{
    match value_at(s, p, d, m) {
        Err(x) => Err(x),
        Ok((v, e)) => if e < p {
            Err((ErrorKind::UnexpectedToken, p))
        } else {
            let q = e + ws_len(s, e);
            if q >= s.len() {
                Err((ErrorKind::UnexpectedEof, q))
            } else if s[q] == ',' {
                elements(s, q + 1, d, m, acc.push(v))
            } else if s[q] == ']' {
                Ok((Json::Array(acc.push(v)), q + 1))
            } else {
                Err((ErrorKind::ExpectedCommaOrEnd, q))
            }
        },
    }
}

/// An object whose `{` is already read.
pub open spec fn object_rest(s: Seq<char>, p: int, d: int, m: int) -> Outcome
    decreases s.len() - p, 3int,
{
    let q = p + ws_len(s, p);
    if q >= s.len() {
        Err((ErrorKind::UnexpectedEof, q))
    } else if s[q] == '}' {
        Ok((Json::Object(Seq::empty()), q + 1))
    } else {
        members(s, q, d, m, Seq::empty())
    }
}

/// The members of an object from `p` on, after the members `acc`.
pub open spec fn members(
    s: Seq<char>,
    p: int,
    d: int,
    m: int,
    acc: Seq<(Seq<char>, Json)>,
) -> Outcome
    decreases s.len() - p, 2int,
{
    let q = p + ws_len(s, p);
    if q >= s.len() {
        Err((ErrorKind::UnexpectedEof, q))
    } else if s[q] != '"' {
        Err((ErrorKind::ExpectedStringKey, q))
    } else {
        match string_rest(s, q + 1, Seq::empty()) {
            Err(x) => Err(x),
            Ok((k, e)) => {
                let c = e + ws_len(s, e);
                if c >= s.len() {
                    Err((ErrorKind::UnexpectedEof, c))
                } else if s[c] != ':' || c < p {
                    Err((ErrorKind::ExpectedColon, c))
                } else {
                    match value_at(s, c + 1, d, m) {
                        Err(x) => Err(x),
                        Ok((v, f)) => if f < p {
                            Err((ErrorKind::UnexpectedToken, p))
                        } else {
                            let g = f + ws_len(s, f);
                            if g >= s.len() {
                                Err((ErrorKind::UnexpectedEof, g))
                            } else if s[g] == ',' {
                                members(s, g + 1, d, m, put(acc, k, v))
                            } else if s[g] == '}' {
                                Ok((Json::Object(put(acc, k, v)), g + 1))
                            } else {
                                Err((ErrorKind::ExpectedCommaOrEnd, g))
                            }
                        },
                    }
                }
            },
        }
    }
}

pub open spec fn array_at(s: Seq<char>, p: int, d: int, m: int) -> Outcome {
    if !char_at(s, p, '[') {
        Err(expect_error(s, p))
    } else if d >= m {
        Err((ErrorKind::NestingTooDeep, p))
    } else {
        array_rest(s, p + 1, d + 1, m)
    }
}

pub open spec fn object_at(s: Seq<char>, p: int, d: int, m: int) -> Outcome {
    if !char_at(s, p, '{') {
        Err(expect_error(s, p))
    } else if d >= m {
        Err((ErrorKind::NestingTooDeep, p))
    } else {
        object_rest(s, p + 1, d + 1, m)
    }
}

/// A whole document from `p` on: one value, with only whitespace around it.
pub open spec fn document(s: Seq<char>, p: int, d: int, m: int) -> Outcome {
    match value_at(s, p, d, m) {
        Err(x) => Err(x),
        Ok((v, e)) => {
            let q = e + ws_len(s, e);
            if q < s.len() {
                Err((ErrorKind::UnexpectedToken, q))
            } else {
                Ok((v, q))
            }
        },
    }
}

} // verus!
