//! Rendering and parsing: a rendered well-formed value parses back to itself.
use vstd::prelude::*;
use crate::error::ErrorKind;
use crate::grammar::{
    array_rest, char_at, char_of, digits_len, elements, escape_at, exponent_end, fraction_end,
    hex4, hex_value, int_part_end, is_digit, is_ws, keys_unique, members,
    number_end, object_rest, put, string_rest, value_at, ws_len,
};
use crate::render::{
    escape_char, escaped, hex_digit_char, quoted, render, render_elements, render_members, separator,
};
use crate::value::Json;

verus! {

/// The escaped form of one character, standing at `p`, decodes back to it.
proof fn lemma_escape_char_decodes(s: Seq<char>, p: int, c: char, acc: Seq<char>)
    requires
        0 <= p,
        p + escape_char(c).len() <= s.len(),
        s.subrange(p, p + escape_char(c).len()) == escape_char(c),
    ensures
        string_rest(s, p, acc) == string_rest(s, p + escape_char(c).len(), acc.push(c)),
{
    let e = escape_char(c);
    assert(forall|i: int| 0 <= i < e.len() ==> s[p + i] == #[trigger] e[i]) by {
        assert forall|i: int| 0 <= i < e.len() implies s[p + i] == #[trigger] e[i] by {
            assert(s.subrange(p, p + e.len())[i] == s[p + i]);
        }
    }
    vstd::utf8::char_u32_cast(c, c as u32);
    if c == '"' || c == '\\' || c == '\n' || c == '\r' || c == '\t' || c == '\u{8}' || c == '\u{c}' {
        assert(s[p] == '\\');
        assert(escape_at(s, p + 1) == Some(((c as u32) as int, p + 2)));
    } else if (c as u32) < 0x20 {
        let x = (c as u32) as int;
        assert(s[p] == '\\');
        assert(s[p + 1] == 'u');
        assert(hex_value(s[p + 2]) == 0);
        assert(hex_value(s[p + 3]) == 0);
        assert(hex_value(hex_digit_char(x / 16)) == x / 16);
        assert(hex_value(hex_digit_char(x % 16)) == x % 16);
        assert(hex4(s, p + 2) == x);
        assert(escape_at(s, p + 1) == Some((x, p + 6)));
    } else {
        assert(e =~= seq![c]);
        assert(e[0] == c);
        assert(s[p] == c);
    }
}

/// The escaped characters of `t` from `i` on, then a closing quote,
/// decode back to those characters.
proof fn lemma_escaped_decodes(s: Seq<char>, p: int, t: Seq<char>, i: int, acc: Seq<char>)
    requires
        0 <= p,
        0 <= i <= t.len(),
        p + escaped(t, i).len() < s.len(),
        s.subrange(p, p + escaped(t, i).len()) == escaped(t, i),
        s[p + escaped(t, i).len()] == '"',
    ensures
        string_rest(s, p, acc) == Ok::<(Seq<char>, int), (ErrorKind, int)>((acc + t.subrange(i, t.len() as int), p + escaped(t, i).len() + 1)),
    decreases t.len() - i,
{
    if i == t.len() {
        assert(t.subrange(i, t.len() as int) =~= Seq::<char>::empty());
        assert(acc + Seq::<char>::empty() =~= acc);
    } else {
        let e = escape_char(t[i]);
        let r = escaped(t, i + 1);
        assert(escaped(t, i) == e + r);
        assert(s.subrange(p, p + e.len()) =~= e) by {
            assert(s.subrange(p, p + e.len()) =~= s.subrange(p, p + escaped(t, i).len()).subrange(0, e.len() as int));
        }
        assert(s.subrange(p + e.len(), p + e.len() + r.len()) =~= r) by {
            assert(s.subrange(p + e.len(), p + e.len() + r.len()) =~= s.subrange(p, p + escaped(t, i).len()).subrange(e.len() as int, (e.len() + r.len()) as int));
        }
        lemma_escape_char_decodes(s, p, t[i], acc);
        lemma_escaped_decodes(s, p + e.len(), t, i + 1, acc.push(t[i]));
        assert(acc.push(t[i]) + t.subrange(i + 1, t.len() as int) =~= acc + t.subrange(i, t.len() as int));
    }
}

/// A number lexeme that the number grammar accepts whole.
pub open spec fn valid_number(n: Seq<char>) -> bool {
    number_end(n, 0) == Some(n.len() as int)
}

/// A value that parsing can produce with `b` more levels of nesting
/// allowed: valid number lexemes, unique object keys, bounded nesting.
pub open spec fn well_formed(j: Json, b: int) -> bool
    decreases j,
{
    match j {
        Json::Number(n) => valid_number(n),
        Json::Array(xs) => b >= 1 && forall|i: int|
            0 <= i < xs.len() ==> well_formed(#[trigger] xs[i], b - 1),
        Json::Object(ms) => b >= 1 && keys_unique(ms) && forall|i: int|
            0 <= i < ms.len() ==> well_formed(#[trigger] ms[i].1, b - 1),
        _ => true,
    }
}

/// Position `q` of `s` ends a value token: the end of the text, or a
/// separator or closing bracket.
pub open spec fn ends_token(s: Seq<char>, q: int) -> bool {
    q == s.len() || (0 <= q < s.len() && (s[q] == ',' || s[q] == ']' || s[q] == '}'))
}

/// `t` stands in `s` at `p`.
pub open spec fn stands_at(s: Seq<char>, p: int, t: Seq<char>) -> bool {
    0 <= p && p + t.len() <= s.len() && s.subrange(p, p + t.len()) == t
}

proof fn lemma_stands_index(s: Seq<char>, p: int, t: Seq<char>)
    requires
        stands_at(s, p, t),
    ensures
        forall|i: int| 0 <= i < t.len() ==> s[p + i] == #[trigger] t[i],
{
    assert forall|i: int| 0 <= i < t.len() implies s[p + i] == #[trigger] t[i] by {
        assert(s.subrange(p, p + t.len())[i] == s[p + i]);
    }
}

proof fn lemma_stands_split(s: Seq<char>, p: int, a: Seq<char>, b: Seq<char>)
    requires
        stands_at(s, p, a + b),
    ensures
        stands_at(s, p, a),
        stands_at(s, p + a.len(), b),
{
    let w = s.subrange(p, p + (a + b).len());
    assert(s.subrange(p, p + a.len()) =~= w.subrange(0, a.len() as int));
    assert(w.subrange(0, a.len() as int) =~= a);
    assert(s.subrange(p + a.len(), p + a.len() + b.len()) =~= w.subrange(
        a.len() as int,
        (a.len() + b.len()) as int,
    ));
    assert(w.subrange(a.len() as int, (a.len() + b.len()) as int) =~= b);
}

/// The run of digits at `a1` in `s1` is as long as the one at `a2` in `s2`
/// when the texts agree over it and `s2` does not continue it.
proof fn lemma_digits_local(s1: Seq<char>, a1: int, s2: Seq<char>, a2: int, n: int)
    requires
        0 <= a1,
        0 <= a2,
        0 <= n,
        a1 + n <= s1.len(),
        a2 + n <= s2.len(),
        s1.subrange(a1, a1 + n) == s2.subrange(a2, a2 + n),
        digits_len(s1, a1) <= n,
        digits_len(s1, a1) == n ==> a2 + n == s2.len() || !is_digit(s2[a2 + n]),
    ensures
        digits_len(s2, a2) == digits_len(s1, a1),
    decreases n,
{
    if n > 0 {
        assert(s1.subrange(a1, a1 + n)[0] == s1[a1 + 0]);
        assert(s2.subrange(a2, a2 + n)[0] == s2[a2 + 0]);
        assert(s1[a1] == s2[a2]);
    }
    if digits_len(s1, a1) > 0 {
        assert(s1.subrange(a1 + 1, a1 + n) =~= s1.subrange(a1, a1 + n).subrange(1, n));
        assert(s2.subrange(a2 + 1, a2 + n) =~= s2.subrange(a2, a2 + n).subrange(1, n));
        lemma_digits_local(s1, a1 + 1, s2, a2 + 1, n - 1);
    }
}

proof fn lemma_window_tail(s1: Seq<char>, pa: int, s2: Seq<char>, pb: int, n: int, x: int)
    requires
        0 <= pa,
        0 <= pb,
        0 <= x <= n,
        pa + n <= s1.len(),
        pb + n <= s2.len(),
        s1.subrange(pa, pa + n) == s2.subrange(pb, pb + n),
    ensures
        s1.subrange(pa + x, pa + n) == s2.subrange(pb + x, pb + n),
{
    assert(s1.subrange(pa + x, pa + n) =~= s1.subrange(pa, pa + n).subrange(x, n));
    assert(s2.subrange(pb + x, pb + n) =~= s2.subrange(pb, pb + n).subrange(x, n));
}

/// `s1` at `pa` and `s2` at `pb` agree over `n` characters, and `s2`
/// does not continue a number after them.
pub open spec fn agree(s1: Seq<char>, pa: int, s2: Seq<char>, pb: int, n: int) -> bool {
    &&& 0 <= pa
    &&& 0 <= pb
    &&& 0 <= n
    &&& pa + n <= s1.len()
    &&& pb + n <= s2.len()
    &&& s1.subrange(pa, pa + n) == s2.subrange(pb, pb + n)
    &&& (pb + n == s2.len() || !(is_digit(s2[pb + n]) || s2[pb + n] == '.' || s2[pb + n] == 'e'
        || s2[pb + n] == 'E'))
}

proof fn lemma_agree_at(s1: Seq<char>, pa: int, s2: Seq<char>, pb: int, n: int, x: int)
    requires
        agree(s1, pa, s2, pb, n),
        0 <= x <= n,
    ensures
        agree(s1, pa + x, s2, pb + x, n - x),
        x < n ==> s1[pa + x] == s2[pb + x],
{
    lemma_window_tail(s1, pa, s2, pb, n, x);
    if x < n {
        assert(s1.subrange(pa, pa + n)[x] == s1[pa + x]);
        assert(s2.subrange(pb, pb + n)[x] == s2[pb + x]);
    }
}

proof fn lemma_digits_agree(s1: Seq<char>, pa: int, s2: Seq<char>, pb: int, n: int)
    requires
        agree(s1, pa, s2, pb, n),
        digits_len(s1, pa) <= n,
    ensures
        digits_len(s2, pb) == digits_len(s1, pa),
{
    lemma_digits_local(s1, pa, s2, pb, n);
}

proof fn lemma_int_part_local(s1: Seq<char>, pa: int, s2: Seq<char>, pb: int, n: int, k: int)
    requires
        agree(s1, pa, s2, pb, n),
        int_part_end(s1, pa) == Some(pa + k),
        k <= n,
    ensures
        int_part_end(s2, pb) == Some(pb + k),
{
    if n > 0 {
        lemma_agree_at(s1, pa, s2, pb, n, 0);
    }
    if s1[pa] == '0' {
        if 1 < n {
            lemma_agree_at(s1, pa, s2, pb, n, 1);
        }
    } else {
        lemma_digits_agree(s1, pa, s2, pb, n);
    }
}

proof fn lemma_fraction_local(s1: Seq<char>, pa: int, s2: Seq<char>, pb: int, n: int, k: int)
    requires
        agree(s1, pa, s2, pb, n),
        fraction_end(s1, pa) == Some(pa + k),
        k <= n,
    ensures
        fraction_end(s2, pb) == Some(pb + k),
{
    if n > 0 {
        lemma_agree_at(s1, pa, s2, pb, n, 0);
        if s1[pa] == '.' {
            lemma_agree_at(s1, pa, s2, pb, n, 1);
            lemma_digits_agree(s1, pa + 1, s2, pb + 1, n - 1);
        }
    }
}

proof fn lemma_exponent_local(s1: Seq<char>, pa: int, s2: Seq<char>, pb: int, n: int)
    requires
        agree(s1, pa, s2, pb, n),
        exponent_end(s1, pa) == Some(pa + n),
    ensures
        exponent_end(s2, pb) == Some(pb + n),
{
    if n > 0 {
        lemma_agree_at(s1, pa, s2, pb, n, 0);
        if s1[pa] == 'e' || s1[pa] == 'E' {
            lemma_agree_at(s1, pa, s2, pb, n, 1);
            let g = if s1[pa + 1] == '+' || s1[pa + 1] == '-' { 2int } else { 1int };
            lemma_agree_at(s1, pa, s2, pb, n, g);
            lemma_digits_agree(s1, pa + g, s2, pb + g, n - g);
        }
    }
}

/// A number's extent depends only on its own characters and on the next
/// one not continuing it.
proof fn lemma_number_local(s1: Seq<char>, pa: int, s2: Seq<char>, pb: int, n: int)
    requires
        agree(s1, pa, s2, pb, n),
        number_end(s1, pa) == Some(pa + n),
    ensures
        number_end(s2, pb) == Some(pb + n),
{
    let a = if char_at(s1, pa, '-') { 1int } else { 0int };
    if n > 0 {
        lemma_agree_at(s1, pa, s2, pb, n, 0);
    }
    lemma_agree_at(s1, pa, s2, pb, n, a);
    let b = int_part_end(s1, pa + a)->0;
    lemma_int_part_local(s1, pa + a, s2, pb + a, n - a, b - pa - a);
    let c = fraction_end(s1, b)->0;
    lemma_agree_at(s1, pa, s2, pb, n, b - pa);
    lemma_fraction_local(s1, b, s2, pb + b - pa, n - (b - pa), c - b);
    lemma_agree_at(s1, pa, s2, pb, n, c - pa);
    lemma_exponent_local(s1, c, s2, pb + c - pa, n - (c - pa));
}

/// A rendered well-formed value is not empty and does not start with whitespace.
proof fn lemma_render_start(j: Json, b: int)
    requires
        well_formed(j, b),
    ensures
        render(j).len() > 0,
        !is_ws(render(j)[0]),
        render(j)[0] == '-' || is_digit(render(j)[0]) ==> j is Number,
        render(j)[0] != ']' && render(j)[0] != '}',
{
    match j {
        Json::Number(n) => {
            if n.len() > 0 && n[0] != '-' {
                assert(is_digit(n[0]));
            }
        },
        Json::Str(t) => {
            assert(render(j)[0] == '"');
        },
        Json::Array(xs) => {
            assert(render(j)[0] == '[');
        },
        Json::Object(ms) => {
            assert(render(j)[0] == '{');
        },
        _ => {},
    }
}

proof fn lemma_ws_none(s: Seq<char>, p: int)
    requires
        0 <= p < s.len(),
        !is_ws(s[p]),
    ensures
        ws_len(s, p) == 0,
{
}

/// A rendered well-formed value, standing at `p` and followed by the end of
/// the text, a separator or a closing bracket, parses back to itself.
pub(crate) proof fn lemma_render_parses(j: Json, s: Seq<char>, p: int, d: int, m: int)
    requires
        0 <= d,
        well_formed(j, m - d),
        stands_at(s, p, render(j)),
        ends_token(s, p + render(j).len()),
    ensures
        value_at(s, p, d, m) == Ok::<(Json, int), (ErrorKind, int)>((j, p + render(j).len())),
    decreases j, 0int,
{
    let r = render(j);
    let e = p + r.len();
    lemma_render_start(j, m - d);
    lemma_stands_index(s, p, r);
    assert(s[p + 0] == r[0]);
    lemma_ws_none(s, p);
    match j {
        Json::Null => {
            assert(r =~= seq!['n', 'u', 'l', 'l']);
            assert(r.len() == 4 && r[0] == 'n');
        },
        Json::Bool(bv) => {
            if bv {
                assert(r =~= seq!['t', 'r', 'u', 'e']);
                assert(r.len() == 4 && r[0] == 't');
            } else {
                assert(r =~= seq!['f', 'a', 'l', 's', 'e']);
                assert(r.len() == 5 && r[0] == 'f');
            }
        },
        Json::Number(n) => {
            assert(n.subrange(0, n.len() as int) =~= n);
            lemma_number_local(n, 0, s, p, n.len() as int);
        },
        Json::Str(t) => {
            let x = escaped(t, 0);
            assert(r == seq!['"'] + x + seq!['"']);
            lemma_stands_split(s, p, seq!['"'] + x, seq!['"']);
            lemma_stands_split(s, p, seq!['"'], x);
            lemma_stands_index(s, p + 1 + x.len(), seq!['"']);
            assert(s[p + 1 + x.len() + 0] == '"');
            lemma_escaped_decodes(s, p + 1, t, 0, Seq::empty());
            assert(Seq::<char>::empty() + t.subrange(0, t.len() as int) =~= t);
        },
        Json::Array(xs) => {
            let body = render_elements(xs, 0);
            assert(r == seq!['['] + body + seq![']']);
            if xs.len() == 0 {
                assert(body =~= Seq::<char>::empty());
                assert(s[p + 1] == r[1]);
                assert(r[1] == ']');
                lemma_ws_none(s, p + 1);
                assert(xs =~= Seq::<Json>::empty());
            } else {
                assert(r =~= seq!['['] + (body + seq![']']));
                lemma_stands_split(s, p, seq!['['], body + seq![']']);
                assert(body == separator(0) + render(xs[0]) + render_elements(xs, 1));
                assert(body =~= render(xs[0]) + render_elements(xs, 1));
                lemma_render_start(xs[0], m - d - 1);
                assert(s[p + 1] == r[1]);
                assert(r[1] == body[0]);
                assert(body[0] == render(xs[0])[0]);
                lemma_ws_none(s, p + 1);
                lemma_elements_parse(xs, 0, s, p + 1, d + 1, m, Seq::empty());
                assert(Seq::<Json>::empty() + xs.subrange(0, xs.len() as int) =~= xs);
            }
        },
        Json::Object(ms) => {
            let body = render_members(ms, 0);
            assert(r == seq!['{'] + body + seq!['}']);
            if ms.len() == 0 {
                assert(body =~= Seq::<char>::empty());
                assert(s[p + 1] == r[1]);
                assert(ms =~= Seq::<(Seq<char>, Json)>::empty());
            } else {
                assert(body == separator(0) + quoted(ms[0].0) + seq![':'] + render(ms[0].1) + render_members(ms, 1));
                assert(r =~= seq!['{'] + (member_text(ms, 0) + render_members(ms, 1) + seq!['}']));
                lemma_stands_split(s, p, seq!['{'], member_text(ms, 0) + render_members(ms, 1) + seq!['}']);
                assert(ms.subrange(0, 0) =~= Seq::<(Seq<char>, Json)>::empty());
                lemma_members_parse(ms, 0, s, p + 1, d + 1, m);
                assert(s[p + 1] == r[1]);
                assert(r[1] == '"');
            }
        },
    }
}

/// Elements `i..` of `xs`, then `]`, standing at `q`, parse to the array.
proof fn lemma_elements_parse(
    xs: Seq<Json>,
    i: int,
    s: Seq<char>,
    q: int,
    d: int,
    m: int,
    acc: Seq<Json>,
)
    requires
        0 <= i < xs.len(),
        0 <= d,
        forall|k: int| 0 <= k < xs.len() ==> well_formed(#[trigger] xs[k], m - d),
        stands_at(s, q, render(xs[i]) + render_elements(xs, i + 1) + seq![']']),
        ends_token(s, q + (render(xs[i]) + render_elements(xs, i + 1) + seq![']']).len()),
    ensures
        elements(s, q, d, m, acc) == Ok::<(Json, int), (ErrorKind, int)>((
            Json::Array(acc + xs.subrange(i, xs.len() as int)),
            q + (render(xs[i]) + render_elements(xs, i + 1) + seq![']']).len(),
        )),
    decreases xs, xs.len() - i,
{
    let a = render(xs[i]);
    let rest = render_elements(xs, i + 1);
    let e = q + a.len();
    assert(a + rest + seq![']'] =~= a + (rest + seq![']']));
    lemma_stands_split(s, q, a, rest + seq![']']);
    lemma_stands_index(s, e, rest + seq![']']);
    assert(s[e + 0] == (rest + seq![']'])[0]);
    vstd::seq::axiom_seq_index_decreases(xs, i);
    if i + 1 < xs.len() {
        let x = render(xs[i + 1]) + render_elements(xs, i + 2);
        assert(rest == separator(i + 1) + render(xs[i + 1]) + render_elements(xs, i + 2));
        assert(rest + seq![']'] =~= seq![','] + (x + seq![']']));
        assert(s[e] == ',');
        lemma_render_parses(xs[i], s, q, d, m);
        lemma_stands_split(s, e, seq![','], x + seq![']']);
        lemma_elements_parse(xs, i + 1, s, e + 1, d, m, acc.push(xs[i]));
        assert(acc.push(xs[i]) + xs.subrange(i + 1, xs.len() as int) =~= acc + xs.subrange(i, xs.len() as int));
    } else {
        assert(rest =~= Seq::<char>::empty());
        assert(s[e] == ']');
        lemma_render_parses(xs[i], s, q, d, m);
        assert(acc.push(xs[i]) =~= acc + xs.subrange(i, xs.len() as int));
    }
}

/// The text of member `i`: its quoted key, `:`, its rendered value.
pub open spec fn member_text(ms: Seq<(Seq<char>, Json)>, i: int) -> Seq<char> {
    quoted(ms[i].0) + seq![':'] + render(ms[i].1)
}

/// What member text standing at `q` shows of the input, piece by piece.
proof fn lemma_member_pieces(s: Seq<char>, q: int, k: Seq<char>, a: Seq<char>, tail: Seq<char>)
    requires
        stands_at(s, q, quoted(k) + seq![':'] + a + tail),
        tail.len() > 0,
    ensures
        s[q] == '"',
        string_rest(s, q + 1, Seq::empty()) == Ok::<(Seq<char>, int), (ErrorKind, int)>((k, q + quoted(k).len())),
        s[q + quoted(k).len()] == ':',
        stands_at(s, q + quoted(k).len() + 1, a),
        stands_at(s, q + quoted(k).len() + 1 + a.len(), tail),
        s[q + quoted(k).len() + 1 + a.len()] == tail[0],
{
    let x = escaped(k, 0);
    let c = q + 1 + x.len() + 1;
    let f = c + 1 + a.len();
    assert(quoted(k) + seq![':'] + a + tail =~= seq!['"'] + (x + (seq!['"', ':'] + (a + tail))));
    lemma_stands_split(s, q, seq!['"'], x + (seq!['"', ':'] + (a + tail)));
    lemma_stands_split(s, q + 1, x, seq!['"', ':'] + (a + tail));
    lemma_stands_split(s, q + 1 + x.len(), seq!['"', ':'], a + tail);
    lemma_stands_split(s, c + 1, a, tail);
    lemma_stands_index(s, q, seq!['"']);
    assert(s[q + 0] == seq!['"'][0]);
    lemma_stands_index(s, q + 1 + x.len(), seq!['"', ':']);
    assert(s[q + 1 + x.len() + 0] == '"');
    assert(s[q + 1 + x.len() + 1] == ':');
    lemma_stands_index(s, f, tail);
    assert(s[f + 0] == tail[0]);
    lemma_escaped_decodes(s, q + 1, k, 0, Seq::empty());
    assert(Seq::<char>::empty() + k.subrange(0, k.len() as int) =~= k);
}

/// Members `i..` of `ms`, then `}`, standing at `q` after the members
/// before them, parse to the object.
#[verifier::rlimit(50)]
proof fn lemma_members_parse(
    ms: Seq<(Seq<char>, Json)>,
    i: int,
    s: Seq<char>,
    q: int,
    d: int,
    m: int,
)
    requires
        0 <= i < ms.len(),
        0 <= d,
        keys_unique(ms),
        forall|k: int| 0 <= k < ms.len() ==> well_formed(#[trigger] ms[k].1, m - d),
        stands_at(s, q, member_text(ms, i) + render_members(ms, i + 1) + seq!['}']),
        ends_token(s, q + (member_text(ms, i) + render_members(ms, i + 1) + seq!['}']).len()),
    ensures
        members(s, q, d, m, ms.subrange(0, i)) == Ok::<(Json, int), (ErrorKind, int)>((
            Json::Object(ms),
            q + (member_text(ms, i) + render_members(ms, i + 1) + seq!['}']).len(),
        )),
    decreases ms, ms.len() - i,
{
    let k = ms[i].0;
    let v = ms[i].1;
    let a = render(v);
    let rest = render_members(ms, i + 1);
    let tail = rest + seq!['}'];
    assert(member_text(ms, i) + rest + seq!['}'] =~= quoted(k) + seq![':'] + a + tail);
    lemma_member_pieces(s, q, k, a, tail);
    let c = q + quoted(k).len();
    let f = c + 1 + a.len();
    lemma_ws_none(s, q);
    lemma_ws_none(s, c);
    vstd::seq::axiom_seq_index_decreases(ms, i);
    assert(decreases_to!(ms[i] => ms[i].1));
    let acc = ms.subrange(0, i);
    assert(!exists|j: int| 0 <= j < acc.len() && acc[j].0 == k) by {
        assert forall|j: int| 0 <= j < acc.len() implies acc[j].0 != k by {
            assert(acc[j] == ms[j]);
        }
    }
    assert(put(acc, k, v) == acc.push((k, v)));
    assert(acc.push((k, v)) =~= ms.subrange(0, i + 1));
    if i + 1 < ms.len() {
        let t2 = member_text(ms, i + 1) + render_members(ms, i + 2);
        assert(rest == separator(i + 1) + quoted(ms[i + 1].0) + seq![':'] + render(ms[i + 1].1) + render_members(ms, i + 2));
        assert(tail =~= seq![','] + (t2 + seq!['}']));
        assert(s[f] == ',');
        lemma_ws_none(s, f);
        lemma_render_parses(v, s, c + 1, d, m);
        lemma_stands_split(s, f, seq![','], t2 + seq!['}']);
        lemma_members_parse(ms, i + 1, s, f + 1, d, m);
    } else {
        assert(rest =~= Seq::<char>::empty());
        assert(s[f] == '}');
        lemma_ws_none(s, f);
        lemma_render_parses(v, s, c + 1, d, m);
        assert(ms.subrange(0, i + 1) =~= ms);
    }
}

proof fn lemma_ws_bound(s: Seq<char>, p: int)
    requires
        0 <= p <= s.len(),
    ensures
        p + ws_len(s, p) <= s.len(),
    decreases s.len() - p,
{
    if p < s.len() && is_ws(s[p]) {
        lemma_ws_bound(s, p + 1);
    }
}

proof fn lemma_digits_bound(s: Seq<char>, p: int)
    requires
        0 <= p,
    ensures
        digits_len(s, p) == 0 || p + digits_len(s, p) <= s.len(),
    decreases s.len() - p,
{
    if 0 <= p < s.len() && is_digit(s[p]) {
        lemma_digits_bound(s, p + 1);
    }
}

/// A number the grammar accepts is a valid lexeme, within the text.
proof fn lemma_number_parsed(s: Seq<char>, p: int)
    requires
        0 <= p,
        number_end(s, p) is Some,
    ensures
        p < number_end(s, p)->0 <= s.len(),
        valid_number(s.subrange(p, number_end(s, p)->0)),
{
    let e = number_end(s, p)->0;
    let a = if char_at(s, p, '-') { p + 1 } else { p };
    lemma_digits_bound(s, a);
    let b = int_part_end(s, a)->0;
    lemma_digits_bound(s, b + 1);
    let c = fraction_end(s, b)->0;
    lemma_digits_bound(s, c + 1);
    lemma_digits_bound(s, c + 2);
    let n = s.subrange(p, e);
    assert(n.subrange(0, e - p) =~= n);
    lemma_number_local(s, p, n, 0, e - p);
}

/// A string the grammar accepts ends within the text.
proof fn lemma_string_parsed(s: Seq<char>, p: int, acc: Seq<char>)
    requires
        0 <= p,
    ensures
        string_rest(s, p, acc) matches Ok((t, e)) ==> p < e <= s.len(),
    decreases s.len() - p,
{
    if 0 <= p < s.len() && s[p] != '"' {
        if s[p] == '\\' {
            if p + 1 < s.len() {
                if let Some((x, e)) = escape_at(s, p + 1) {
                    if e > p {
                        lemma_string_parsed(s, e, acc.push(char_of(x)));
                    }
                }
            }
        } else {
            lemma_string_parsed(s, p + 1, acc.push(s[p]));
        }
    }
}

/// Setting a member keeps keys unique and values well-formed.
proof fn lemma_put(acc: Seq<(Seq<char>, Json)>, k: Seq<char>, v: Json, b: int)
    requires
        keys_unique(acc),
        forall|i: int| 0 <= i < acc.len() ==> well_formed(#[trigger] acc[i].1, b),
        well_formed(v, b),
    ensures
        keys_unique(put(acc, k, v)),
        forall|i: int| 0 <= i < put(acc, k, v).len() ==> well_formed(#[trigger] put(acc, k, v)[i].1, b),
{
}

/// Every value the grammar accepts is well-formed, within the text.
pub(crate) proof fn lemma_value_parsed(s: Seq<char>, p: int, d: int, m: int)
    requires
        0 <= p,
        0 <= d,
    ensures
        value_at(s, p, d, m) matches Ok((j, e)) ==> well_formed(j, m - d) && p < e <= s.len(),
    decreases s.len() - p, 1int,
{
    if p <= s.len() {
        lemma_ws_bound(s, p);
    }
    let q = p + ws_len(s, p);
    if 0 <= q < s.len() {
        let c = s[q];
        if c == '"' {
            lemma_string_parsed(s, q + 1, Seq::empty());
        } else if c == '-' || is_digit(c) {
            if number_end(s, q) is Some {
                lemma_number_parsed(s, q);
            }
        } else if c == '[' && d < m {
            lemma_array_parsed(s, q + 1, d + 1, m);
        } else if c == '{' && d < m {
            lemma_object_parsed(s, q + 1, d + 1, m);
        }
    }
}

proof fn lemma_array_parsed(s: Seq<char>, p: int, d: int, m: int)
    requires
        0 <= p,
        1 <= d <= m,
    ensures
        array_rest(s, p, d, m) matches Ok((j, e)) ==> well_formed(j, m - d + 1) && p < e <= s.len(),
    decreases s.len() - p, 3int,
{
    if p <= s.len() {
        lemma_ws_bound(s, p);
    }
    let q = p + ws_len(s, p);
    if q < s.len() && s[q] != ']' {
        lemma_elements_parsed(s, q, d, m, Seq::empty());
    }
}

proof fn lemma_elements_parsed(s: Seq<char>, p: int, d: int, m: int, acc: Seq<Json>)
    requires
        0 <= p,
        1 <= d <= m,
        forall|i: int| 0 <= i < acc.len() ==> well_formed(#[trigger] acc[i], m - d),
    ensures
        elements(s, p, d, m, acc) matches Ok((j, e)) ==> well_formed(j, m - d + 1) && p < e <= s.len(),
    decreases s.len() - p, 2int,
{
    lemma_value_parsed(s, p, d, m);
    if let Ok((v, e)) = value_at(s, p, d, m) {
        if e >= p {
            lemma_ws_bound(s, e);
            let q = e + ws_len(s, e);
            let acc2 = acc.push(v);
            assert(forall|i: int| 0 <= i < acc2.len() ==> well_formed(#[trigger] acc2[i], m - d));
            if q < s.len() && s[q] == ',' {
                lemma_elements_parsed(s, q + 1, d, m, acc2);
            }
        }
    }
}

proof fn lemma_object_parsed(s: Seq<char>, p: int, d: int, m: int)
    requires
        0 <= p,
        1 <= d <= m,
    ensures
        object_rest(s, p, d, m) matches Ok((j, e)) ==> well_formed(j, m - d + 1) && p < e <= s.len(),
    decreases s.len() - p, 3int,
{
    if p <= s.len() {
        lemma_ws_bound(s, p);
    }
    let q = p + ws_len(s, p);
    if q < s.len() && s[q] != '}' {
        lemma_members_parsed(s, q, d, m, Seq::empty());
    }
}

proof fn lemma_members_parsed(
    s: Seq<char>,
    p: int,
    d: int,
    m: int,
    acc: Seq<(Seq<char>, Json)>,
)
    requires
        0 <= p,
        1 <= d <= m,
        keys_unique(acc),
        forall|i: int| 0 <= i < acc.len() ==> well_formed(#[trigger] acc[i].1, m - d),
    ensures
        members(s, p, d, m, acc) matches Ok((j, e)) ==> well_formed(j, m - d + 1) && p < e <= s.len(),
    decreases s.len() - p, 2int,
{
    if p <= s.len() {
        lemma_ws_bound(s, p);
    }
    let q = p + ws_len(s, p);
    if q < s.len() && s[q] == '"' {
        lemma_string_parsed(s, q + 1, Seq::empty());
        if let Ok((k, e)) = string_rest(s, q + 1, Seq::empty()) {
            lemma_ws_bound(s, e);
            let c = e + ws_len(s, e);
            if c < s.len() && s[c] == ':' && c >= p {
                lemma_value_parsed(s, c + 1, d, m);
                if let Ok((v, f)) = value_at(s, c + 1, d, m) {
                    if f >= p {
                        lemma_ws_bound(s, f);
                        let g = f + ws_len(s, f);
                        lemma_put(acc, k, v, m - d);
                        if g < s.len() && s[g] == ',' {
                            lemma_members_parsed(s, g + 1, d, m, put(acc, k, v));
                        }
                    }
                }
            }
        }
    }
}

} // verus!
