//! The cursor over the input and the recursive-descent parser driving it.
use vstd::prelude::*;
use vstd::string::StrSliceExecFns;
use crate::error::{ErrorKind, ParseError};
use crate::grammar::{
    array_at, bool_at, char_at, expect_error, is_digit, is_ws, null_at, number_at, object_at,
    string_at, value_at, word_at, ws_len, Outcome, digits_len, int_part_end, fraction_end,
    exponent_end, hex_value, hex4, escape_at,
    string_rest, string_token, char_of, literal_at, is_word_char, array_rest, object_rest,
    elements, members, put, keys_unique, document,
};
use crate::value::{Value, views, member_views, lemma_array_view, lemma_object_view};

verus! {

/// Nesting limit of a parser made by `Parser::new`.
pub const DEFAULT_MAX_DEPTH: usize = 1000;

/// Relies on `str::chars`: it yields the characters of the text in order.
#[verifier::external_body]
pub(crate) fn chars_of(text: &str) -> (r: Vec<char>)
    ensures
        r@ == text@,
{
    text.chars().collect()
}

/// Relies on collecting an iterator of characters into a `String`: the
/// text holds those characters in order.
#[verifier::external_body]
pub(crate) fn string_from(cs: &Vec<char>) -> (r: String)
    ensures
        r@ == cs@,
{
    cs.iter().collect()
}

/// Relies on `char::from_u32`: the character with scalar value `x`; `None`
/// only for surrogates and values past 0x10FFFF.
#[verifier::external_body]
fn char_from_scalar(x: u32) -> (r: Option<char>)
    ensures
        r matches Some(c) ==> c as u32 == x,
        (x < 0xD800 || (0xE000 <= x && x <= 0x10FFFF)) ==> r is Some,
{
    char::from_u32(x)
}

/// A cursor over the input, one character at a time, and the current
/// nesting of arrays and objects.
#[derive(Debug)]
pub struct Parser {
    src: Vec<char>,
    pos: usize,
    depth: usize,
    max_depth: usize,
}

/// The outcome of a production as returned, with `end` the cursor after it.
pub open spec fn outcome(r: Result<Value, ParseError>, end: int) -> Outcome {
    match r {
        Ok(v) => Ok((v@, end)),
        Err(e) => Err((e.kind, e.position as int)),
    }
}

impl Parser {
    /// The input, as characters.
    pub closed spec fn text(&self) -> Seq<char> {
        self.src@
    }

    /// The cursor: the number of characters consumed.
    pub closed spec fn position(&self) -> int {
        self.pos as int
    }

    /// The number of arrays and objects currently open.
    pub closed spec fn nesting(&self) -> int {
        self.depth as int
    }

    /// The most arrays and objects that may be open at once.
    pub closed spec fn limit(&self) -> int {
        self.max_depth as int
    }

    pub closed spec fn wf(&self) -> bool {
        &&& self.pos <= self.src.len()
        &&& self.depth <= self.max_depth
    }

    /// Text, limit and nesting are kept, and the cursor is within the text.
    pub open spec fn same_run(&self, other: &Parser) -> bool {
        &&& other.wf()
        &&& other.text() == self.text()
        &&& other.limit() == self.limit()
        &&& other.nesting() == self.nesting()
    }

    pub fn new(src: String) -> (r: Parser)
        ensures
            r.wf(),
            r.text() == src@,
            r.position() == 0,
            r.nesting() == 0,
            r.limit() == DEFAULT_MAX_DEPTH,
    {
        Parser::with_max_depth(src, DEFAULT_MAX_DEPTH)
    }

    pub fn with_max_depth(src: String, max_depth: usize) -> (r: Parser)
        ensures
            r.wf(),
            r.text() == src@,
            r.position() == 0,
            r.nesting() == 0,
            r.limit() == max_depth,
    {
        Parser { src: chars_of(src.as_str()), pos: 0, depth: 0, max_depth }
    }

    /// The next character, if any, without consuming it.
    pub fn peek(&self) -> (r: Option<char>)
        requires
            self.wf(),
        ensures
            r == (if self.position() < self.text().len() {
                Some(self.text()[self.position()])
            } else {
                None
            }),
    {
        if self.pos < self.src.len() {
            Some(self.src[self.pos])
        } else {
            None
        }
    }

    pub fn at_end(&self) -> (r: bool)
        requires
            self.wf(),
        ensures
            r == (self.position() == self.text().len()),
    {
        self.pos == self.src.len()
    }

    /// Consumes and returns the next character; at the end, changes nothing.
    pub fn advance(&mut self) -> (r: Option<char>)
        requires
            old(self).wf(),
        ensures
            old(self).same_run(final(self)),
            old(self).position() < old(self).text().len() ==> r == Some(old(self).text()[old(self).position()])
                && final(self).position() == old(self).position() + 1,
            old(self).position() == old(self).text().len() ==> r is None && final(self).position()
                == old(self).position(),
    {
        if self.pos < self.src.len() {
            let c = self.src[self.pos];
            self.pos = self.pos + 1;
            Some(c)
        } else {
            None
        }
    }

    /// Moves past the run of spaces, tabs, newlines and carriage returns at the cursor.
    pub fn skip_whitespace(&mut self)
        requires
            old(self).wf(),
        ensures
            old(self).same_run(final(self)),
            final(self).position() == old(self).position() + ws_len(old(self).text(), old(self).position()),
    {
        let ghost s = self.src@;
        let ghost p_start = self.pos as int;
        while self.pos < self.src.len() && is_ws_char(self.src[self.pos])
            invariant
                self.src@ == s,
                self.wf(),
                p_start <= self.pos,
                p_start + ws_len(s, p_start) == self.pos + ws_len(s, self.pos as int),
                self.depth == old(self).depth,
                self.max_depth == old(self).max_depth,
            decreases self.src.len() - self.pos,
        {
            self.pos = self.pos + 1;
        }
    }

    /// Consumes `c` if it is the next character.
    pub fn consume(&mut self, c: char) -> (r: bool)
        requires
            old(self).wf(),
        ensures
            old(self).same_run(final(self)),
            r == char_at(old(self).text(), old(self).position(), c),
            final(self).position() == old(self).position() + if r { 1int } else { 0int },
    {
        if self.pos < self.src.len() && self.src[self.pos] == c {
            self.pos = self.pos + 1;
            true
        } else {
            false
        }
    }

    /// Consumes `c`, which must be the next character.
    pub fn expect(&mut self, c: char) -> (r: Result<(), ParseError>)
        requires
            old(self).wf(),
        ensures
            old(self).same_run(final(self)),
            r is Ok == char_at(old(self).text(), old(self).position(), c),
            r is Ok ==> final(self).position() == old(self).position() + 1,
            r matches Err(e) ==> (e.kind, e.position as int) == expect_error(old(self).text(), old(self).position())
                && final(self).position() == old(self).position(),
    {
        if self.consume(c) {
            Ok(())
        } else {
            Err(ParseError { kind: self.expected_kind(), position: self.pos })
        }
    }

    /// The kind of error for a character that is missing at the cursor.
    fn expected_kind(&self) -> (r: ErrorKind)
        requires
            self.wf(),
        ensures
            (r, self.position()) == expect_error(self.text(), self.position()),
    {
        if self.pos >= self.src.len() {
            ErrorKind::UnexpectedEof
        } else {
            ErrorKind::UnexpectedToken
        }
    }

    /// Consumes all of `word` if it stands at the cursor, else nothing.
    pub fn consume_word(&mut self, word: &str) -> (r: bool)
        requires
            old(self).wf(),
        ensures
            old(self).same_run(final(self)),
            r == word_at(old(self).text(), old(self).position(), word@),
            final(self).position() == old(self).position() + if r { word@.len() as int } else { 0int },
    {
        let n = word.unicode_len();
        if n > self.src.len() - self.pos {
            return false;
        }
        let mut i: usize = 0;
        while i < n
            invariant
                self.wf(),
                n == word@.len(),
                i <= n,
                self.pos + n <= self.src.len(),
                forall|j: int| 0 <= j < i ==> self.src@[self.pos + j] == word@[j],
            decreases n - i,
        {
            if self.src[self.pos + i] != word.get_char(i) {
                assert(self.src@.subrange(self.pos as int, self.pos + n)[i as int] != word@[i as int]);
                return false;
            }
            i = i + 1;
        }
        assert(self.src@.subrange(self.pos as int, self.pos + n) =~= word@);
        self.pos = self.pos + n;
        true
    }

    /// Moves past the run of digits at the cursor.
    fn skip_digits(&mut self)
        requires
            old(self).wf(),
        ensures
            old(self).same_run(final(self)),
            final(self).position() == old(self).position() + digits_len(old(self).text(), old(self).position()),
    {
        let ghost s = self.src@;
        let ghost p_start = self.pos as int;
        while self.pos < self.src.len() && is_digit_char(self.src[self.pos])
            invariant
                self.src@ == s,
                self.wf(),
                p_start <= self.pos,
                p_start + digits_len(s, p_start) == self.pos + digits_len(s, self.pos as int),
                self.depth == old(self).depth,
                self.max_depth == old(self).max_depth,
            decreases self.src.len() - self.pos,
        {
            self.pos = self.pos + 1;
        }
    }

    fn next_is_digit(&self) -> (r: bool)
        requires
            self.wf(),
        ensures
            r == (self.position() < self.text().len() && is_digit(self.text()[self.position()])),
    {
        self.pos < self.src.len() && is_digit_char(self.src[self.pos])
    }

    /// Moves past the integer part of a number; false where there is none.
    fn int_part(&mut self) -> (r: bool)
        requires
            old(self).wf(),
        ensures
            old(self).same_run(final(self)),
            r == int_part_end(old(self).text(), old(self).position()) is Some,
            r ==> final(self).position() == int_part_end(old(self).text(), old(self).position())->0,
    {
        if self.consume('0') {
            !self.next_is_digit()
        } else if self.next_is_digit() {
            self.skip_digits();
            true
        } else {
            false
        }
    }

    /// Moves past an optional fraction; false where it is malformed.
    fn fraction(&mut self) -> (r: bool)
        requires
            old(self).wf(),
        ensures
            old(self).same_run(final(self)),
            r == fraction_end(old(self).text(), old(self).position()) is Some,
            r ==> final(self).position() == fraction_end(old(self).text(), old(self).position())->0,
    {
        if self.consume('.') {
            if self.next_is_digit() {
                self.skip_digits();
                true
            } else {
                false
            }
        } else {
            true
        }
    }

    /// Moves past an optional exponent; false where it is malformed.
    fn exponent(&mut self) -> (r: bool)
        requires
            old(self).wf(),
        ensures
            old(self).same_run(final(self)),
            r == exponent_end(old(self).text(), old(self).position()) is Some,
            r ==> final(self).position() == exponent_end(old(self).text(), old(self).position())->0,
    {
        if self.consume('e') || self.consume('E') {
            if !self.consume('+') {
                self.consume('-');
            }
            if self.next_is_digit() {
                self.skip_digits();
                true
            } else {
                false
            }
        } else {
            true
        }
    }

    /// The characters from `start` to the cursor.
    fn taken_since(&self, start: usize) -> (r: Vec<char>)
        requires
            self.wf(),
            start <= self.position(),
        ensures
            r@ == self.text().subrange(start as int, self.position()),
    {
        let mut r: Vec<char> = Vec::new();
        let mut i: usize = start;
        while i < self.pos
            invariant
                self.wf(),
                start <= i <= self.pos,
                r@ == self.src@.subrange(start as int, i as int),
            decreases self.pos - i,
        {
            r.push(self.src[i]);
            assert(r@ =~= self.src@.subrange(start as int, i + 1));
            i = i + 1;
        }
        r
    }

    /// The 16-bit unit written as four hexadecimal digits at `p`.
    fn hex_unit(&self, p: usize) -> (r: Option<u32>)
        requires
            self.wf(),
        ensures
            r is Some == (hex4(self.text(), p as int) >= 0),
            r matches Some(u) ==> u as int == hex4(self.text(), p as int) && u <= 0xFFFF,
    {
        if p > self.src.len() || self.src.len() - p < 4 {
            return None;
        }
        let a = match hex_digit(self.src[p]) { Some(h) => h, None => return None };
        let b = match hex_digit(self.src[p + 1]) { Some(h) => h, None => return None };
        let c = match hex_digit(self.src[p + 2]) { Some(h) => h, None => return None };
        let d = match hex_digit(self.src[p + 3]) { Some(h) => h, None => return None };
        Some(a * 4096 + b * 256 + c * 16 + d)
    }

    /// The escape whose letter is at `p`: its scalar value and the position after it.
    fn escape(&self, p: usize) -> (r: Option<(u32, usize)>)
        requires
            self.wf(),
            p < self.text().len(),
        ensures
            r is Some == escape_at(self.text(), p as int) is Some,
            r matches Some((x, e)) ==> escape_at(self.text(), p as int) == Some((x as int, e as int))
                && e > p && (x < 0xD800 || (0xE000 <= x && x <= 0x10FFFF)),
    {
        let c = self.src[p];
        if c == '"' || c == '\\' || c == '/' {
            Some((c as u32, p + 1))
        } else if c == 'b' {
            Some((0x08, p + 1))
        } else if c == 'f' {
            Some((0x0C, p + 1))
        } else if c == 'n' {
            Some((0x0A, p + 1))
        } else if c == 'r' {
            Some((0x0D, p + 1))
        } else if c == 't' {
            Some((0x09, p + 1))
        } else if c == 'u' {
            let u = match self.hex_unit(p + 1) { Some(u) => u, None => return None };
            if 0xDC00 <= u && u <= 0xDFFF {
                None
            } else if 0xD800 <= u && u <= 0xDBFF {
                if self.src.len() - p < 7 || self.src[p + 5] != '\\' || self.src[p + 6] != 'u' {
                    return None;
                }
                let l = match self.hex_unit(p + 7) { Some(l) => l, None => return None };
                if 0xDC00 <= l && l <= 0xDFFF {
                    Some((0x10000 + (u - 0xD800) * 0x400 + (l - 0xDC00), p + 11))
                } else {
                    None
                }
            } else {
                Some((u, p + 5))
            }
        } else {
            None
        }
    }

    /// A string token at the cursor: its decoded characters.
    fn string_token(&mut self) -> (r: Result<String, ParseError>)
        requires
            old(self).wf(),
        ensures
            old(self).same_run(final(self)),
            r matches Ok(t) ==> string_token(old(self).text(), old(self).position()) == Ok::<(Seq<char>, int), (ErrorKind, int)>((t@, final(self).position())),
            r matches Err(e) ==> string_token(old(self).text(), old(self).position()) == Err::<(Seq<char>, int), (ErrorKind, int)>((e.kind, e.position as int)),
            r is Ok ==> final(self).position() > old(self).position(),
    {
        let ghost s = self.src@;
        let ghost p_start = self.pos as int;
        match self.expect('"') {
            Ok(()) => {},
            Err(e) => return Err(e),
        }
        let mut acc: Vec<char> = Vec::new();
        loop
            invariant
                s == old(self).src@,
                p_start == old(self).pos,
                self.src@ == s,
                self.wf(),
                self.depth == old(self).depth,
                self.max_depth == old(self).max_depth,
                p_start < self.pos,
                string_rest(s, self.pos as int, acc@) == string_token(s, p_start),
            decreases s.len() - self.pos,
        {
            let p = self.pos;
            if p >= self.src.len() {
                return Err(ParseError { kind: ErrorKind::UnterminatedString, position: p });
            }
            let c = self.src[p];
            if c == '"' {
                self.pos = p + 1;
                return Ok(string_from(&acc));
            } else if c == '\\' {
                if p + 1 >= self.src.len() {
                    return Err(ParseError { kind: ErrorKind::UnterminatedString, position: p + 1 });
                }
                let invalid = ParseError { kind: ErrorKind::InvalidEscape, position: p };
                match self.escape(p + 1) {
                    Some((x, e)) => {
                        match char_from_scalar(x) {
                            Some(ch) => {
                                proof {
                                    vstd::utf8::char_u32_cast(ch, x);
                                }
                                assert(ch == char_of(x as int));
                                acc.push(ch);
                            },
                            None => return Err(invalid),
                        }
                        self.pos = e;
                    },
                    None => return Err(invalid),
                }
            } else {
                acc.push(c);
                self.pos = p + 1;
            }
        }
    }

    /// A string: `"`, characters and escapes, `"`.
    pub fn parse_string(&mut self) -> (r: Result<Value, ParseError>)
        requires
            old(self).wf(),
        ensures
            old(self).same_run(final(self)),
            outcome(r, final(self).position()) == string_at(old(self).text(), old(self).position()),
            r is Ok ==> final(self).position() > old(self).position(),
    {
        match self.string_token() {
            Ok(t) => Ok(Value::String(t)),
            Err(e) => Err(e),
        }
    }

    /// The literal `word`, denoting `v`, at the cursor.
    fn literal(&mut self, word: &str, v: Value) -> (r: Result<Value, ParseError>)
        requires
            old(self).wf(),
            word@.len() > 0,
        ensures
            old(self).same_run(final(self)),
            outcome(r, final(self).position()) == literal_at(old(self).text(), old(self).position(), word@, v@),
            r is Ok ==> final(self).position() > old(self).position(),
    {
        let start = self.pos;
        let mismatch = ParseError { kind: ErrorKind::UnexpectedToken, position: start };
        if self.consume_word(word) {
            if self.pos < self.src.len() && is_word_character(self.src[self.pos]) {
                self.pos = start;
                Err(mismatch)
            } else {
                Ok(v)
            }
        } else {
            Err(mismatch)
        }
    }

    /// The literal `null`.
    pub fn parse_null(&mut self) -> (r: Result<Value, ParseError>)
        requires
            old(self).wf(),
        ensures
            old(self).same_run(final(self)),
            outcome(r, final(self).position()) == null_at(old(self).text(), old(self).position()),
            r is Ok ==> final(self).position() > old(self).position(),
    {
        proof {
            reveal_strlit("null");
        }
        assert("null"@ =~= seq!['n', 'u', 'l', 'l']);
        self.literal("null", Value::Null)
    }

    /// The literal `true` or `false`.
    pub fn parse_bool(&mut self) -> (r: Result<Value, ParseError>)
        requires
            old(self).wf(),
        ensures
            old(self).same_run(final(self)),
            outcome(r, final(self).position()) == bool_at(old(self).text(), old(self).position()),
            r is Ok ==> final(self).position() > old(self).position(),
    {
        proof {
            reveal_strlit("true");
            reveal_strlit("false");
        }
        assert("true"@ =~= seq!['t', 'r', 'u', 'e']);
        assert("false"@ =~= seq!['f', 'a', 'l', 's', 'e']);
        match self.peek() {
            Some('t') => self.literal("true", Value::Bool(true)),
            Some('f') => self.literal("false", Value::Bool(false)),
            _ => Err(ParseError { kind: self.expected_kind(), position: self.pos }),
        }
    }

    /// A value after optional whitespace, chosen by its first character.
    pub fn parse_value(&mut self) -> (r: Result<Value, ParseError>)
        requires
            old(self).wf(),
        ensures
            old(self).same_run(final(self)),
            outcome(r, final(self).position()) == value_at(
                old(self).text(),
                old(self).position(),
                old(self).nesting(),
                old(self).limit(),
            ),
            r is Ok ==> final(self).position() > old(self).position(),
        decreases old(self).limit() - old(self).nesting(), 1int,
    {
        self.skip_whitespace();
        let q = self.pos;
        if q >= self.src.len() {
            return Err(ParseError { kind: ErrorKind::UnexpectedToken, position: q });
        }
        let c = self.src[q];
        if c == '"' {
            self.parse_string()
        } else if c == '-' || is_digit_char(c) {
            self.parse_number()
        } else if c == 't' || c == 'f' {
            self.parse_bool()
        } else if c == 'n' {
            self.parse_null()
        } else if c == '[' || c == '{' {
            if self.depth >= self.max_depth {
                return Err(ParseError { kind: ErrorKind::NestingTooDeep, position: q });
            }
            self.pos = q + 1;
            self.depth = self.depth + 1;
            let r = if c == '[' {
                self.array_rest()
            } else {
                self.object_rest()
            };
            self.depth = self.depth - 1;
            r
        } else {
            Err(ParseError { kind: ErrorKind::UnexpectedToken, position: q })
        }
    }

    /// An array: `[`, elements separated by `,`, `]`.
    pub fn parse_array(&mut self) -> (r: Result<Value, ParseError>)
        requires
            old(self).wf(),
        ensures
            old(self).same_run(final(self)),
            outcome(r, final(self).position()) == array_at(
                old(self).text(),
                old(self).position(),
                old(self).nesting(),
                old(self).limit(),
            ),
        decreases old(self).limit() - old(self).nesting(), 3int,
    {
        if !(self.pos < self.src.len() && self.src[self.pos] == '[') {
            return Err(ParseError { kind: self.expected_kind(), position: self.pos });
        }
        if self.depth >= self.max_depth {
            return Err(ParseError { kind: ErrorKind::NestingTooDeep, position: self.pos });
        }
        self.pos = self.pos + 1;
        self.depth = self.depth + 1;
        let r = self.array_rest();
        self.depth = self.depth - 1;
        r
    }

    /// An object: `{`, members `"key": value` separated by `,`, `}`.
    pub fn parse_object(&mut self) -> (r: Result<Value, ParseError>)
        requires
            old(self).wf(),
        ensures
            old(self).same_run(final(self)),
            outcome(r, final(self).position()) == object_at(
                old(self).text(),
                old(self).position(),
                old(self).nesting(),
                old(self).limit(),
            ),
        decreases old(self).limit() - old(self).nesting(), 3int,
    {
        if !(self.pos < self.src.len() && self.src[self.pos] == '{') {
            return Err(ParseError { kind: self.expected_kind(), position: self.pos });
        }
        if self.depth >= self.max_depth {
            return Err(ParseError { kind: ErrorKind::NestingTooDeep, position: self.pos });
        }
        self.pos = self.pos + 1;
        self.depth = self.depth + 1;
        let r = self.object_rest();
        self.depth = self.depth - 1;
        r
    }

    /// A whole document from the cursor on: one value, then only whitespace.
    pub fn parse(&mut self) -> (r: Result<Value, ParseError>)
        requires
            old(self).wf(),
        ensures
            old(self).same_run(final(self)),
            outcome(r, final(self).position()) == document(
                old(self).text(),
                old(self).position(),
                old(self).nesting(),
                old(self).limit(),
            ),
            r is Ok ==> final(self).position() == final(self).text().len(),
    {
        let v = match self.parse_value() {
            Ok(v) => v,
            Err(e) => return Err(e),
        };
        self.skip_whitespace();
        if self.pos < self.src.len() {
            return Err(ParseError { kind: ErrorKind::UnexpectedToken, position: self.pos });
        }
        Ok(v)
    }

    /// An array whose `[` has been consumed.
    fn array_rest(&mut self) -> (r: Result<Value, ParseError>)
        requires
            old(self).wf(),
        ensures
            old(self).same_run(final(self)),
            outcome(r, final(self).position()) == array_rest(
                old(self).text(),
                old(self).position(),
                old(self).nesting(),
                old(self).limit(),
            ),
            r is Ok ==> final(self).position() > old(self).position(),
        decreases old(self).limit() - old(self).nesting(), 2int,
    {
        let ghost s = self.src@;
        let ghost p_start = self.pos as int;
        let ghost d = self.depth as int;
        let ghost m = self.max_depth as int;
        self.skip_whitespace();
        if self.pos >= self.src.len() {
            return Err(ParseError { kind: ErrorKind::UnexpectedEof, position: self.pos });
        }
        if self.src[self.pos] == ']' {
            self.pos = self.pos + 1;
            let empty: Vec<Value> = Vec::new();
            proof {
                lemma_array_view(empty);
                assert(views(empty@) =~= Seq::empty());
            }
            return Ok(Value::Array(empty));
        }
        let mut items: Vec<Value> = Vec::new();
        assert(views(items@) =~= Seq::empty());
        loop
            invariant
                s == old(self).src@,
                p_start == old(self).pos,
                d == old(self).depth,
                m == old(self).max_depth,
                self.src@ == s,
                self.wf(),
                self.depth == d,
                self.max_depth == m,
                p_start <= self.pos,
                elements(s, self.pos as int, d, m, views(items@)) == array_rest(s, p_start, d, m),
            decreases s.len() - self.pos,
        {
            let v = match self.parse_value() {
                Ok(v) => v,
                Err(e) => return Err(e),
            };
            self.skip_whitespace();
            if self.pos >= self.src.len() {
                return Err(ParseError { kind: ErrorKind::UnexpectedEof, position: self.pos });
            }
            let c = self.src[self.pos];
            if c != ',' && c != ']' {
                return Err(ParseError { kind: ErrorKind::ExpectedCommaOrEnd, position: self.pos });
            }
            let ghost before = items@;
            items.push(v);
            assert(views(items@) =~= views(before).push(items@.last()@));
            self.pos = self.pos + 1;
            if c == ']' {
                proof {
                    lemma_array_view(items);
                }
                return Ok(Value::Array(items));
            }
        }
    }

    /// An object whose `{` has been consumed.
    fn object_rest(&mut self) -> (r: Result<Value, ParseError>)
        requires
            old(self).wf(),
        ensures
            old(self).same_run(final(self)),
            outcome(r, final(self).position()) == object_rest(
                old(self).text(),
                old(self).position(),
                old(self).nesting(),
                old(self).limit(),
            ),
            r is Ok ==> final(self).position() > old(self).position(),
        decreases old(self).limit() - old(self).nesting(), 2int,
    {
        let ghost s = self.src@;
        let ghost p_start = self.pos as int;
        let ghost d = self.depth as int;
        let ghost m = self.max_depth as int;
        self.skip_whitespace();
        if self.pos >= self.src.len() {
            return Err(ParseError { kind: ErrorKind::UnexpectedEof, position: self.pos });
        }
        if self.src[self.pos] == '}' {
            self.pos = self.pos + 1;
            let empty: Vec<(String, Value)> = Vec::new();
            proof {
                lemma_object_view(empty);
                assert(member_views(empty@) =~= Seq::empty());
            }
            return Ok(Value::Object(empty));
        }
        let mut ms: Vec<(String, Value)> = Vec::new();
        assert(member_views(ms@) =~= Seq::empty());
        loop
            invariant
                s == old(self).src@,
                p_start == old(self).pos,
                d == old(self).depth,
                m == old(self).max_depth,
                self.src@ == s,
                self.wf(),
                self.depth == d,
                self.max_depth == m,
                p_start <= self.pos,
                keys_unique(member_views(ms@)),
                members(s, self.pos as int, d, m, member_views(ms@)) == object_rest(s, p_start, d, m),
            decreases s.len() - self.pos,
        {
            let ghost p = self.pos as int;
            self.skip_whitespace();
            if self.pos >= self.src.len() {
                return Err(ParseError { kind: ErrorKind::UnexpectedEof, position: self.pos });
            }
            if self.src[self.pos] != '"' {
                return Err(ParseError { kind: ErrorKind::ExpectedStringKey, position: self.pos });
            }
            let k = match self.string_token() {
                Ok(k) => k,
                Err(e) => return Err(e),
            };
            self.skip_whitespace();
            if self.pos >= self.src.len() {
                return Err(ParseError { kind: ErrorKind::UnexpectedEof, position: self.pos });
            }
            if self.src[self.pos] != ':' {
                return Err(ParseError { kind: ErrorKind::ExpectedColon, position: self.pos });
            }
            self.pos = self.pos + 1;
            let v = match self.parse_value() {
                Ok(v) => v,
                Err(e) => return Err(e),
            };
            self.skip_whitespace();
            if self.pos >= self.src.len() {
                return Err(ParseError { kind: ErrorKind::UnexpectedEof, position: self.pos });
            }
            let c = self.src[self.pos];
            if c != ',' && c != '}' {
                return Err(ParseError { kind: ErrorKind::ExpectedCommaOrEnd, position: self.pos });
            }
            put_member(&mut ms, k, v);
            self.pos = self.pos + 1;
            if c == '}' {
                proof {
                    lemma_object_view(ms);
                }
                return Ok(Value::Object(ms));
            }
        }
    }

    /// A number: optional minus, integer part, optional fraction, optional exponent.
    pub fn parse_number(&mut self) -> (r: Result<Value, ParseError>)
        requires
            old(self).wf(),
        ensures
            old(self).same_run(final(self)),
            outcome(r, final(self).position()) == number_at(old(self).text(), old(self).position()),
            r is Ok ==> final(self).position() > old(self).position(),
    {
        let start = self.pos;
        let invalid = ParseError { kind: ErrorKind::InvalidNumber, position: start };
        self.consume('-');
        if !self.int_part() {
            return Err(invalid);
        }
        if !self.fraction() {
            return Err(invalid);
        }
        if !self.exponent() {
            return Err(invalid);
        }
        let lexeme = self.taken_since(start);
        Ok(Value::Number(string_from(&lexeme)))
    }
}

/// Decodes `text`, which must hold one JSON value and nothing else but
/// whitespace, with the default nesting limit.
pub fn parse(text: String) -> (r: Result<Value, ParseError>)
    ensures
        outcome(r, text@.len() as int) == document(text@, 0, 0, DEFAULT_MAX_DEPTH as int),
{
    let mut parser = Parser::new(text);
    parser.parse()
}

/// Sets member `k` to `v`: a present key keeps its place, a new one goes last.
fn put_member(ms: &mut Vec<(String, Value)>, k: String, v: Value)
    requires
        keys_unique(member_views(old(ms)@)),
    ensures
        member_views(final(ms)@) == put(member_views(old(ms)@), k@, v@),
        keys_unique(member_views(final(ms)@)),
{
    let ghost before = member_views(ms@);
    let mut i: usize = 0;
    while i < ms.len()
        invariant
            ms@ == old(ms)@,
            before == member_views(ms@),
            keys_unique(before),
            i <= ms.len(),
            forall|j: int| 0 <= j < i ==> before[j].0 != k@,
        decreases ms.len() - i,
    {
        if ms[i].0 == k {
            assert(before[i as int].0 == k@);
            let ghost w = choose|j: int| 0 <= j < before.len() && before[j].0 == k@;
            assert(w == i);
            ms.set(i, (k, v));
            assert(member_views(ms@) =~= before.update(i as int, (k@, v@)));
            return;
        }
        i = i + 1;
    }
    assert(!exists|j: int| 0 <= j < before.len() && before[j].0 == k@);
    ms.push((k, v));
    assert(member_views(ms@) =~= before.push((k@, v@)));
}

/// The value of a hexadecimal digit.
pub fn hex_digit(c: char) -> (r: Option<u32>)
    ensures
        r is Some == (hex_value(c) >= 0),
        r matches Some(h) ==> h as int == hex_value(c) && h < 16,
{
    if '0' <= c && c <= '9' {
        Some(c as u32 - '0' as u32)
    } else if 'a' <= c && c <= 'f' {
        Some(c as u32 - 'a' as u32 + 10)
    } else if 'A' <= c && c <= 'F' {
        Some(c as u32 - 'A' as u32 + 10)
    } else {
        None
    }
}

pub fn is_word_character(c: char) -> (r: bool)
    ensures
        r == is_word_char(c),
{
    ('a' <= c && c <= 'z') || ('A' <= c && c <= 'Z') || ('0' <= c && c <= '9') || c == '_'
}

pub fn is_ws_char(c: char) -> (r: bool)
    ensures
        r == is_ws(c),
{
    c == ' ' || c == '\t' || c == '\n' || c == '\r'
}

pub fn is_digit_char(c: char) -> (r: bool)
    ensures
        r == is_digit(c),
{
    '0' <= c && c <= '9'
}

} // verus!
