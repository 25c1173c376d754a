//! Rendering a value back to JSON text, with no inserted whitespace.
use vstd::prelude::*;
use crate::parser::{chars_of, string_from};
use crate::value::{Json, Value, views, member_views, lemma_array_view, lemma_object_view};

verus! {

/// The lower-case hexadecimal digit for `n` in `0..16`.
pub open spec fn hex_digit_char(n: int) -> char {
    if n == 0 { '0' } else if n == 1 { '1' } else if n == 2 { '2' } else if n == 3 { '3' }
    else if n == 4 { '4' } else if n == 5 { '5' } else if n == 6 { '6' } else if n == 7 { '7' }
    else if n == 8 { '8' } else if n == 9 { '9' } else if n == 10 { 'a' } else if n == 11 { 'b' }
    else if n == 12 { 'c' } else if n == 13 { 'd' } else if n == 14 { 'e' } else { 'f' }
}

/// How a character of a string's contents is written between the quotes.
pub open spec fn escape_char(c: char) -> Seq<char> {
    if c == '"' {
        seq!['\\', '"']
    } else if c == '\\' {
        seq!['\\', '\\']
    } else if c == '\n' {
        seq!['\\', 'n']
    } else if c == '\r' {
        seq!['\\', 'r']
    } else if c == '\t' {
        seq!['\\', 't']
    } else if c == '\u{8}' {
        seq!['\\', 'b']
    } else if c == '\u{c}' {
        seq!['\\', 'f']
    } else if (c as u32) < 0x20 {
        seq!['\\', 'u', '0', '0', hex_digit_char((c as u32) as int / 16), hex_digit_char((c as u32) as int % 16)]
    } else {
        seq![c]
    }
}

/// The escaped form of `t` from index `i` on.
pub open spec fn escaped(t: Seq<char>, i: int) -> Seq<char>
    decreases t.len() - i,
{
    if 0 <= i < t.len() {
        escape_char(t[i]) + escaped(t, i + 1)
    } else {
        Seq::empty()
    }
}

pub open spec fn quoted(t: Seq<char>) -> Seq<char> {
    seq!['"'] + escaped(t, 0) + seq!['"']
}

pub open spec fn separator(i: int) -> Seq<char> {
    if i > 0 {
        seq![',']
    } else {
        Seq::empty()
    }
}

/// The text of a value.
pub open spec fn render(j: Json) -> Seq<char>
    decreases j, 0int,
{
    match j {
        Json::Null => seq!['n', 'u', 'l', 'l'],
        Json::Bool(b) => if b {
            seq!['t', 'r', 'u', 'e']
        } else {
            seq!['f', 'a', 'l', 's', 'e']
        },
        Json::Number(n) => n,
        Json::Str(t) => quoted(t),
        Json::Array(xs) => seq!['['] + render_elements(xs, 0) + seq![']'],
        Json::Object(ms) => seq!['{'] + render_members(ms, 0) + seq!['}'],
    }
}

/// The elements of an array from index `i` on, comma-separated.
pub open spec fn render_elements(xs: Seq<Json>, i: int) -> Seq<char>
    decreases xs, xs.len() - i,
{
    if 0 <= i < xs.len() {
        separator(i) + render(xs[i]) + render_elements(xs, i + 1)
    } else {
        Seq::empty()
    }
}

/// The members of an object from index `i` on, comma-separated.
pub open spec fn render_members(ms: Seq<(Seq<char>, Json)>, i: int) -> Seq<char>
    decreases ms, ms.len() - i,
{
    if 0 <= i < ms.len() {
        separator(i) + quoted(ms[i].0) + seq![':'] + render(ms[i].1) + render_members(ms, i + 1)
    } else {
        Seq::empty()
    }
}

fn hex_digit_of(n: u32) -> (r: char)
    requires
        n < 16,
    ensures
        r == hex_digit_char(n as int),
{
    let digits = ['0', '1', '2', '3', '4', '5', '6', '7', '8', '9', 'a', 'b', 'c', 'd', 'e', 'f'];
    digits[n as usize]
}

fn push_escaped(out: &mut Vec<char>, c: char)
    ensures
        final(out)@ == old(out)@ + escape_char(c),
{
    let ghost start = out@;
    if c == '"' || c == '\\' {
        out.push('\\');
        out.push(c);
    } else if c == '\n' {
        out.push('\\');
        out.push('n');
    } else if c == '\r' {
        out.push('\\');
        out.push('r');
    } else if c == '\t' {
        out.push('\\');
        out.push('t');
    } else if c == '\u{8}' {
        out.push('\\');
        out.push('b');
    } else if c == '\u{c}' {
        out.push('\\');
        out.push('f');
    } else if (c as u32) < 0x20 {
        out.push('\\');
        out.push('u');
        out.push('0');
        out.push('0');
        out.push(hex_digit_of((c as u32) / 16));
        out.push(hex_digit_of((c as u32) % 16));
    } else {
        out.push(c);
    }
    assert(out@ =~= start + escape_char(c));
}

fn push_quoted(out: &mut Vec<char>, t: &String)
    ensures
        final(out)@ == old(out)@ + quoted(t@),
{
    let ghost start = out@;
    let cs = chars_of(t.as_str());
    out.push('"');
    let mut i: usize = 0;
    while i < cs.len()
        invariant
            cs@ == t@,
            i <= cs.len(),
            out@ + escaped(t@, i as int) == start + seq!['"'] + escaped(t@, 0),
        decreases cs.len() - i,
    {
        let ghost before = out@;
        push_escaped(out, cs[i]);
        assert(before + escaped(t@, i as int) =~= out@ + escaped(t@, i + 1));
        i = i + 1;
    }
    out.push('"');
    assert(out@ =~= start + quoted(t@));
}

fn push_chars(out: &mut Vec<char>, t: &String)
    ensures
        final(out)@ == old(out)@ + t@,
{
    let ghost start = out@;
    let cs = chars_of(t.as_str());
    let mut i: usize = 0;
    while i < cs.len()
        invariant
            cs@ == t@,
            i <= cs.len(),
            out@ == start + t@.subrange(0, i as int),
        decreases cs.len() - i,
    {
        out.push(cs[i]);
        assert(out@ =~= start + t@.subrange(0, i + 1));
        i = i + 1;
    }
    assert(t@.subrange(0, t@.len() as int) =~= t@);
}

impl Value {
    /// The JSON text of this value.
    pub fn render(&self) -> (r: String)
        ensures
            r@ == render(self@),
    {
        let mut out: Vec<char> = Vec::new();
        self.write_to(&mut out);
        assert(out@ =~= render(self@));
        string_from(&out)
    }

    #[verifier::loop_isolation(false)]
    fn write_to(&self, out: &mut Vec<char>)
        ensures
            final(out)@ == old(out)@ + render(self@),
        decreases self,
    {
        let ghost start = out@;
        match self {
            Value::Null => {
                out.push('n');
                out.push('u');
                out.push('l');
                out.push('l');
            },
            Value::Bool(b) => {
                if *b {
                    out.push('t');
                    out.push('r');
                    out.push('u');
                    out.push('e');
                } else {
                    out.push('f');
                    out.push('a');
                    out.push('l');
                    out.push('s');
                    out.push('e');
                }
            },
            Value::Number(n) => {
                push_chars(out, n);
            },
            Value::String(t) => {
                push_quoted(out, t);
            },
            Value::Array(xs) => {
                proof {
                    lemma_array_view(*xs);
                }
                let ghost js = views(xs@);
                out.push('[');
                let mut i: usize = 0;
                while i < xs.len()
                    invariant
                        js == views(xs@),
                        self@ == Json::Array(js),
                        i <= xs.len(),
                        out@ + render_elements(js, i as int) == start + seq!['['] + render_elements(js, 0),
                    decreases xs.len() - i,
                {
                    let ghost before = out@;
                    if i > 0 {
                        out.push(',');
                    }
                    proof {
                        vstd::std_specs::vec::axiom_vec_index_decreases(*xs, i as int);
                    }
                    xs[i].write_to(out);
                    assert(before + render_elements(js, i as int) =~= out@ + render_elements(js, i + 1));
                    i = i + 1;
                }
                out.push(']');
            },
            Value::Object(ms) => {
                proof {
                    lemma_object_view(*ms);
                }
                let ghost js = member_views(ms@);
                out.push('{');
                let mut i: usize = 0;
                while i < ms.len()
                    invariant
                        js == member_views(ms@),
                        self@ == Json::Object(js),
                        i <= ms.len(),
                        out@ + render_members(js, i as int) == start + seq!['{'] + render_members(js, 0),
                    decreases ms.len() - i,
                {
                    let ghost before = out@;
                    if i > 0 {
                        out.push(',');
                    }
                    push_quoted(out, &ms[i].0);
                    out.push(':');
                    proof {
                        vstd::std_specs::vec::axiom_vec_index_decreases(*ms, i as int);
                    }
                    ms[i].1.write_to(out);
                    assert(before + render_members(js, i as int) =~= out@ + render_members(js, i + 1));
                    i = i + 1;
                }
                out.push('}');
            },
        }
        assert(out@ =~= start + render(self@));
    }
}

} // verus!
