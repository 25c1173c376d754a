//! Properties that relate several operations of the library.
use vstd::prelude::*;
use crate::error::ErrorKind;
use crate::grammar::{document, is_ws, value_at, ws_len};
use crate::render::render;
use crate::roundtrip::{lemma_render_parses, lemma_value_parsed};
use crate::value::Json;

verus! {

/// Skipping whitespace is idempotent: once the run of whitespace at `p` has
/// been skipped, a second skip moves the cursor no further.
pub proof fn lemma_skip_whitespace_idempotent(s: Seq<char>, p: int)
    requires
        0 <= p <= s.len(),
    ensures
        ws_len(s, p + ws_len(s, p)) == 0,
    decreases s.len() - p,
{
    if p < s.len() && is_ws(s[p]) {
        lemma_skip_whitespace_idempotent(s, p + 1);
    }
}

/// Round trip: the value decoded from a document renders to a text that
/// decodes to the same value, with the same nesting limit.
pub proof fn lemma_round_trip(t: Seq<char>, m: int)
    requires
        document(t, 0, 0, m) is Ok,
    ensures
        document(t, 0, 0, m) matches Ok((v, e)) ==> document(render(v), 0, 0, m)
            == Ok::<(Json, int), (ErrorKind, int)>((v, render(v).len() as int)),
{
    lemma_value_parsed(t, 0, 0, m);
    if let Ok((v, e)) = value_at(t, 0, 0, m) {
        let r = render(v);
        assert(r.subrange(0, r.len() as int) =~= r);
        lemma_render_parses(v, r, 0, 0, m);
        assert(ws_len(r, r.len() as int) == 0);
    }
}

} // verus!
