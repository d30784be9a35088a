//! How calls are read, whatever stands around them, and how a document with any
//! number of them is rendered.
use crate::bracket::bracket_at;
use crate::chunk::{output_key, results_of, ChunkView, OutputView, ResultView};
use crate::directive::{
    argument_at, codechunk_at, codekey_at, codeoutput_at, lemma_codekey_at, named_chunk_at,
};
use crate::document::parsed;
use crate::escape::{escaped, lemma_reads_back, Style};
use crate::forms::{lemma_past, quoted, stands};
use crate::literal::{expected_at, quoted_at};
use crate::nesting::lemma_opening_does_not_matter;
use crate::outcomes::{
    lemma_call_stands_for_its_chunk, lemma_result_of_a_chunk, lemma_results_by_name,
};
use crate::position::label;
use crate::reading::{
    all_white, lemma_no_quote, lemma_plain_value, lemma_quoted_anywhere, lemma_white_space_at,
};
use crate::render::{lemma_call, rendered, rendered_from, replacement, result_block};
use crate::scan::{find, lemma_widths};
use crate::shift::{alike, lemma_alike_rendered};
use crate::spelling::lemma_character_is_expected;
use crate::text::{
    between, boundary, char_width, head, lemma_boundary_range, lemma_ends, lemma_join, lemma_split,
    tail, width,
};
use crate::whitespace::{after_ws, lemma_after_ws, white};
use vstd::prelude::*;

verus! {

/// A call with a quoted name is read as that name, whatever follows it, and ends
/// behind its bracket; where no bracket follows, it ends in front of what does.
pub proof fn lemma_quoted_name_is_read(
    s: Seq<char>,
    i: int,
    w: Seq<char>,
    q: Seq<char>,
    name: Seq<char>,
    v: Seq<char>,
    after: Seq<char>,
)
    requires
        all_white(w),
        all_white(v),
        quoted_at(q, 0) == Ok::<(Seq<char>, int), Seq<char>>((name, width(q))),
    ensures
        stands(s, i, "#codekey("@ + (w + (q + (v + (seq![')'] + after))))) ==> codekey_at(s, i)
            == Ok::<(Seq<char>, int), Seq<char>>(
            (name, i + 9 + width(w) + width(q) + width(v) + 1),
        ),
        stands(s, i, "#codekey("@ + (w + (q + (v + after)))) && (after.len() > 0 ==> !white(
            after[0],
        ) && after[0] != ')') ==> codekey_at(s, i) == Ok::<(Seq<char>, int), Seq<char>>(
            (name, i + 9 + width(w) + width(q) + width(v)),
        ),
{
    lemma_widths();
    let closed = seq![')'] + after;
    let j = i + 9 + width(w);
    lemma_ends(q);
    lemma_no_quote(closed);
    lemma_no_quote(after);
    lemma_no_quote(q + (v + closed));
    lemma_no_quote(q + (v + after));
    if stands(s, i, "#codekey("@ + (w + (q + (v + closed)))) {
        lemma_past(s, i, "#codekey("@, w + (q + (v + closed)));
        assert((q + (v + closed))[0] == q[0]);
        lemma_white_space_at(s, i + 9, w, q + (v + closed));
        lemma_quoted_anywhere(s, j, q, name, v + closed);
        lemma_white_space_at(s, j + width(q), v, closed);
    }
    if stands(s, i, "#codekey("@ + (w + (q + (v + after)))) && (after.len() > 0 ==> !white(
        after[0],
    ) && after[0] != ')') {
        lemma_past(s, i, "#codekey("@, w + (q + (v + after)));
        assert((q + (v + after))[0] == q[0]);
        lemma_white_space_at(s, i + 9, w, q + (v + after));
        lemma_quoted_anywhere(s, j, q, name, v + after);
        lemma_white_space_at(s, j + width(q), v, after);
    }
}

/// A call with a plain name is read as the text up to its bracket, without the
/// white space around it, whatever follows; without a bracket the name goes to the
/// end of the text.
pub proof fn lemma_plain_name_is_read(
    s: Seq<char>,
    i: int,
    w: Seq<char>,
    name: Seq<char>,
    v: Seq<char>,
    after: Seq<char>,
)
    requires
        all_white(w),
        all_white(v),
        name.len() > 0 ==> !white(name[0]) && !white(name.last()) && name[0] != '"',
        name.len() == 0 ==> v.len() == 0,
        forall|k: int| 0 <= k < name.len() ==> #[trigger] name[k] != ')',
    ensures
        stands(s, i, "#codekey("@ + (w + (name + v + seq![')'] + after))) ==> codekey_at(s, i)
            == Ok::<(Seq<char>, int), Seq<char>>(
            (name, i + 9 + width(w) + width(name + v) + 1),
        ),
        stands(s, i, "#codekey("@ + (w + (name + v))) ==> codekey_at(s, i) == Ok::<
            (Seq<char>, int),
            Seq<char>,
        >((name, width(s))),
{
    lemma_widths();
    let none = Seq::<char>::empty();
    let closed = name + v + seq![')'] + after;
    let open = name + v;
    let j = i + 9 + width(w);
    assert forall|k: int| 0 <= k < v.len() implies #[trigger] v[k] != ')' by {
        assert(white(v[k]));
    }
    lemma_no_quote(closed);
    lemma_no_quote(open);
    lemma_no_quote(seq![')'] + after);
    lemma_no_quote(none);
    if stands(s, i, "#codekey("@ + (w + closed)) {
        lemma_past(s, i, "#codekey("@, w + closed);
        assert(name.len() > 0 ==> closed[0] == name[0]);
        assert(name.len() == 0 ==> closed[0] == ')');
        lemma_white_space_at(s, i + 9, w, closed);
        lemma_plain_value(s, j, name, v, ')', after);
        assert(closed =~= open + (seq![')'] + after));
        lemma_past(s, j, open, seq![')'] + after);
        assert(none + (seq![')'] + after) =~= seq![')'] + after);
        lemma_white_space_at(s, j + width(open), none, seq![')'] + after);
    }
    if stands(s, i, "#codekey("@ + (w + open)) {
        lemma_past(s, i, "#codekey("@, w + open);
        assert(name.len() > 0 ==> open[0] == name[0]);
        lemma_white_space_at(s, i + 9, w, open);
        lemma_plain_value(s, j, name, v, ')', after);
        assert(open =~= open + none);
        lemma_past(s, j, open, none);
        lemma_split(s, j);
        lemma_white_space_is_none(s, j + width(open));
    }
}

proof fn lemma_white_space_is_none(s: Seq<char>, i: int)
    requires
        stands(s, i, Seq::<char>::empty()),
    ensures
        after_ws(s, i) == i,
        i == width(s),
{
    let none = Seq::<char>::empty();
    assert(none + none =~= none);
    lemma_white_space_at(s, i, none, none);
    lemma_split(s, i);
}

/// A call with a quoted name that nothing closes is refused with the message of the
/// string.
pub proof fn lemma_bad_name_is_refused(s: Seq<char>, i: int, w: Seq<char>, t: Seq<char>)
    requires
        all_white(w),
        stands(s, i, "#codekey("@ + (w + t)),
        t.len() > 0,
        t[0] == '"',
    ensures
        quoted_at(s, i + 9 + width(w)) matches Err(e) ==> codekey_at(s, i) == Err::<
            (Seq<char>, int),
            Seq<char>,
        >(e),
        quoted_at(s, i + 9 + width(w)) is Ok ==> codekey_at(s, i) is Ok,
{
    lemma_widths();
    lemma_past(s, i, "#codekey("@, w + t);
    lemma_white_space_at(s, i + 9, w, t);
    lemma_no_quote(t);
}

/// What a document is rendered as, in terms of its first call and of what the rest
/// of it is rendered as alone: the text in front of the call is kept, what the call
/// asks for stands in its place, and the rendering of the rest follows.
pub proof fn lemma_first_call_and_rest(s: Seq<char>, results: Map<Seq<char>, ResultView>)
    ensures
        match find(s, "#codekey("@) {
            None => rendered(s, results) == Ok::<Seq<char>, Seq<char>>(s),
            Some(k) => match codekey_at(s, k) {
                Err(e) => rendered(s, results) == Err::<Seq<char>, Seq<char>>(e),
                Ok((name, j)) => match rendered(tail(s, j), results) {
                    Err(_) => rendered(s, results) is Err,
                    Ok(rest) => rendered(s, results) == Ok::<Seq<char>, Seq<char>>(
                        head(s, k) + replacement(name, results) + rest,
                    ),
                },
            },
        },
{
    lemma_ends(s);
    if let Some(k) = find(s, "#codekey("@) {
        lemma_call(s, 0);
        lemma_codekey_at(s, k);
        if let Ok((name, j)) = codekey_at(s, k) {
            let t = tail(s, j);
            lemma_ends(t);
            assert(alike(t, 0, s, j));
            lemma_alike_rendered(t, 0, s, j, results);
            assert(between(s, 0, k) == head(s, k));
        }
    }
}

/// A document is refused for one reason alone: a quoted name that nothing closes,
/// which is named at the end of the document.
pub proof fn lemma_why_rendering_is_refused(
    s: Seq<char>,
    results: Map<Seq<char>, ResultView>,
    e: Seq<char>,
)
    requires
        rendered(s, results) == Err::<Seq<char>, Seq<char>>(e),
    ensures
        e == "unterminated string literal"@ + " at "@ + label(s, width(s)),
{
    lemma_ends(s);
    lemma_refusal(s, 0, results);
}

proof fn lemma_refusal(s: Seq<char>, i: int, results: Map<Seq<char>, ResultView>)
    requires
        boundary(s, i),
    ensures
        rendered_from(s, i, results) matches Err(e) ==> e == "unterminated string literal"@
            + " at "@ + label(s, width(s)),
    decreases width(s) - i,
{
    if let Some(k) = find(tail(s, i), "#codekey("@) {
        lemma_call(s, i);
        lemma_codekey_at(s, i + k);
        lemma_after_ws(s, i + k + 9);
        let a = after_ws(s, i + k + 9);
        lemma_no_quote(tail(s, a));
        lemma_split(s, a);
        lemma_ends(tail(s, a));
        if let Ok((name, j)) = codekey_at(s, i + k) {
            lemma_refusal(s, j, results);
        }
    }
}

/// A quoted call is replaced by what it asks for, and the rest of the document is
/// rendered behind it, also where further calls follow.
pub proof fn lemma_quoted_call_and_rest(
    before: Seq<char>,
    name: Seq<char>,
    after: Seq<char>,
    results: Map<Seq<char>, ResultView>,
)
    ensures
        ({
            let s = before + "#codekey("@ + quoted(name) + ")"@ + after;
            &&& codekey_at(s, width(before)) == Ok::<(Seq<char>, int), Seq<char>>(
                (name, width(s) - width(after)),
            )
            &&& find(s, "#codekey("@) == Some(width(before)) ==> (match rendered(after, results) {
                Ok(rest) => rendered(s, results) == Ok::<Seq<char>, Seq<char>>(
                    before + replacement(name, results) + rest,
                ),
                Err(_) => rendered(s, results) is Err,
            })
        }),
{
    let none = Seq::<char>::empty();
    let q = quoted(name);
    let s = before + "#codekey("@ + q + ")"@ + after;
    let closed = seq![')'] + after;
    lemma_widths();
    reveal_strlit(")");
    assert(")"@ =~= seq![')']);
    lemma_reads_back(Style::RString, none, name, none);
    assert(none + q + none =~= q);
    assert(none + seq!['"'] + escaped(Style::RString, name) + seq!['"'] + none =~= q);
    assert(width(q) == width(escaped(Style::RString, name)) + 2) by {
        let e = escaped(Style::RString, name);
        lemma_join(seq!['"'], e);
        lemma_join(seq!['"'] + e, seq!['"']);
        reveal_with_fuel(width, 2);
        assert(seq!['"'].drop_first() =~= none);
    }
    assert(s =~= before + ("#codekey("@ + (none + (q + (none + closed)))));
    lemma_ends(s);
    lemma_past(s, 0, before, "#codekey("@ + (none + (q + (none + closed))));
    let i = width(before);
    lemma_quoted_name_is_read(s, i, none, q, name, none, after);
    lemma_past(s, i, "#codekey("@, none + (q + (none + closed)));
    lemma_past(s, i + 9, none, q + (none + closed));
    lemma_past(s, i + 9, q, none + closed);
    assert(none + closed =~= ")"@ + after);
    lemma_past(s, i + 9 + width(q), ")"@, after);
    lemma_split(s, i + 9 + width(q) + 1);
    if find(s, "#codekey("@) == Some(width(before)) {
        lemma_first_call_and_rest(s, results);
        assert(head(s, width(before)) == before) by {
            lemma_join(before, "#codekey("@ + (none + (q + (none + closed))));
        }
    }
}

/// A plain call is replaced by what it asks for, and the rest of the document is
/// rendered behind it, also where further calls follow.
pub proof fn lemma_plain_call_and_rest(
    before: Seq<char>,
    w: Seq<char>,
    name: Seq<char>,
    v: Seq<char>,
    after: Seq<char>,
    results: Map<Seq<char>, ResultView>,
)
    requires
        all_white(w),
        all_white(v),
        name.len() > 0,
        !white(name[0]) && !white(name.last()) && name[0] != '"',
        forall|k: int| 0 <= k < name.len() ==> #[trigger] name[k] != ')',
    ensures
        ({
            let s = before + "#codekey("@ + w + name + v + ")"@ + after;
            &&& codekey_at(s, width(before)) == Ok::<(Seq<char>, int), Seq<char>>(
                (name, width(s) - width(after)),
            )
            &&& find(s, "#codekey("@) == Some(width(before)) ==> (match rendered(after, results) {
                Ok(rest) => rendered(s, results) == Ok::<Seq<char>, Seq<char>>(
                    before + replacement(name, results) + rest,
                ),
                Err(_) => rendered(s, results) is Err,
            })
        }),
{
    let s = before + "#codekey("@ + w + name + v + ")"@ + after;
    let closed = name + v + seq![')'] + after;
    lemma_widths();
    reveal_strlit(")");
    assert(")"@ =~= seq![')']);
    assert(s =~= before + ("#codekey("@ + (w + closed)));
    lemma_ends(s);
    lemma_past(s, 0, before, "#codekey("@ + (w + closed));
    let i = width(before);
    lemma_plain_name_is_read(s, i, w, name, v, after);
    lemma_past(s, i, "#codekey("@, w + closed);
    lemma_past(s, i + 9, w, closed);
    assert(closed =~= (name + v) + (")"@ + after));
    lemma_past(s, i + 9 + width(w), name + v, ")"@ + after);
    lemma_past(s, i + 9 + width(w) + width(name + v), ")"@, after);
    lemma_split(s, i + 9 + width(w) + width(name + v) + 1);
    if find(s, "#codekey("@) == Some(width(before)) {
        lemma_first_call_and_rest(s, results);
        assert(head(s, width(before)) == before) by {
            lemma_join(before, "#codekey("@ + (w + closed));
        }
    }
}

/// In what is left of a document without its chunks, a call with the output key of
/// a chunk is replaced by the result of that chunk: by its output, shown with its
/// own caption and, where the chunk asks for it, behind its own code. Left out are
/// keys that a later chunk shares.
pub proof fn lemma_call_shows_its_chunk(
    s: Seq<char>,
    chunks: Seq<ChunkView>,
    outputs: Seq<OutputView>,
    m: int,
    before: Seq<char>,
    name: Seq<char>,
    after: Seq<char>,
)
    requires
        outputs.len() == chunks.len(),
        0 <= m < chunks.len(),
        name == (match chunks[m].key {
            Some(key) => key,
            None => chunks[m].name,
        }),
        forall|k: int| m < k < chunks.len() ==> output_key(#[trigger] chunks[k]) != name,
        parsed(s) == Ok::<(Seq<char>, Seq<ChunkView>), Seq<char>>(
            (before + "#codekey("@ + quoted(name) + ")"@ + after, chunks),
        ),
        find(before + "#codekey("@ + quoted(name) + ")"@ + after, "#codekey("@) == Some(
            width(before),
        ),
    ensures
        match rendered(after, results_of(chunks, outputs)) {
            Ok(rest) => rendered(
                before + "#codekey("@ + quoted(name) + ")"@ + after,
                results_of(chunks, outputs),
            ) == Ok::<Seq<char>, Seq<char>>(
                before + result_block(
                    name,
                    ResultView {
                        output: outputs[m],
                        echo: chunks[m].echo,
                        caption: chunks[m].caption,
                        code: chunks[m].code,
                    },
                ) + rest,
            ),
            Err(_) => rendered(
                before + "#codekey("@ + quoted(name) + ")"@ + after,
                results_of(chunks, outputs),
            ) is Err,
        },
{
    lemma_results_by_name(chunks, outputs, name);
    lemma_result_of_a_chunk(chunks[m], outputs[m]);
    assert(output_key(chunks[m]) == name);
    lemma_call_stands_for_its_chunk(
        name,
        results_of(chunks, outputs),
        results_of(chunks, outputs),
    );
    lemma_quoted_call_and_rest(before, name, after, results_of(chunks, outputs));
}

/// An argument is the quoted string behind white space, and reading it ends behind
/// the white space that follows; what is no quoted string is refused with the
/// message of the string.
pub proof fn lemma_argument_is_read(
    s: Seq<char>,
    i: int,
    w: Seq<char>,
    q: Seq<char>,
    value: Seq<char>,
    v: Seq<char>,
    t: Seq<char>,
)
    requires
        all_white(w),
        all_white(v),
        t.len() > 0 ==> !white(t[0]),
    ensures
        stands(s, i, w + (q + (v + t))) && quoted_at(q, 0) == Ok::<(Seq<char>, int), Seq<char>>(
            (value, width(q)),
        ) ==> argument_at(s, i) == Ok::<(Seq<char>, int), Seq<char>>(
            (value, i + width(w) + width(q) + width(v)),
        ) && stands(s, i + width(w) + width(q) + width(v), t),
        stands(s, i, w + t) ==> (quoted_at(s, i + width(w)) matches Err(e) ==> argument_at(s, i)
            == Err::<(Seq<char>, int), Seq<char>>(e)),
{
    if stands(s, i, w + (q + (v + t))) && quoted_at(q, 0) == Ok::<(Seq<char>, int), Seq<char>>(
        (value, width(q)),
    ) {
        lemma_ends(q);
        assert((q + (v + t))[0] == q[0]);
        lemma_white_space_at(s, i, w, q + (v + t));
        lemma_quoted_anywhere(s, i + width(w), q, value, v + t);
        lemma_white_space_at(s, i + width(w) + width(q), v, t);
    }
    if stands(s, i, w + t) {
        lemma_white_space_at(s, i, w, t);
    }
}

proof fn lemma_character_at(s: Seq<char>, i: int, c: char, t: Seq<char>, message: Seq<char>)
    requires
        char_width(c) == 1,
    ensures
        stands(s, i, seq![c] + t) ==> expected_at(s, i, c, message) == Ok::<int, Seq<char>>(i + 1)
            && stands(s, i + 1, t),
        stands(s, i, t) && (t.len() == 0 || t[0] != c) ==> expected_at(s, i, c, message) == Err::<
            int,
            Seq<char>,
        >(message + " at "@ + label(s, i)),
{
    if stands(s, i, seq![c] + t) {
        lemma_split(s, i);
        lemma_character_is_expected(head(s, i), t, c, message, 0);
        assert(s =~= head(s, i) + seq![c] + t);
        lemma_past(s, i, seq![c], t);
        reveal_with_fuel(width, 2);
        assert(seq![c].drop_first() =~= Seq::empty());
    }
    if stands(s, i, t) && (t.len() == 0 || t[0] != c) {
        lemma_split(s, i);
        lemma_character_is_expected(head(s, i), t, c, message, 0);
    }
}

/// A `#codeoutput` is read as its quoted name and ends behind its bracket; without
/// the bracket it is refused.
pub proof fn lemma_codeoutput_is_read(
    s: Seq<char>,
    i: int,
    w: Seq<char>,
    q: Seq<char>,
    name: Seq<char>,
    v: Seq<char>,
    t: Seq<char>,
)
    requires
        all_white(w),
        all_white(v),
        quoted_at(q, 0) == Ok::<(Seq<char>, int), Seq<char>>((name, width(q))),
    ensures
        stands(s, i, "#codeoutput("@ + (w + (q + (v + (seq![')'] + t))))) ==> codeoutput_at(s, i)
            == Ok::<(Seq<char>, int), Seq<char>>(
            (name, i + 12 + width(w) + width(q) + width(v) + 1),
        ),
        stands(s, i, "#codeoutput("@ + (w + (q + (v + t)))) && (t.len() > 0 ==> !white(t[0])
            && t[0] != ')') ==> codeoutput_at(s, i) == Err::<(Seq<char>, int), Seq<char>>(
            "expected ')' after codeoutput name"@ + " at "@ + label(
                s,
                i + 12 + width(w) + width(q) + width(v),
            ),
        ),
{
    lemma_widths();
    let message = "expected ')' after codeoutput name"@;
    let k = i + 12 + width(w) + width(q) + width(v);
    if stands(s, i, "#codeoutput("@ + (w + (q + (v + (seq![')'] + t))))) {
        lemma_past(s, i, "#codeoutput("@, w + (q + (v + (seq![')'] + t))));
        lemma_argument_is_read(s, i + 12, w, q, name, v, seq![')'] + t);
        lemma_character_at(s, k, ')', t, message);
    }
    if stands(s, i, "#codeoutput("@ + (w + (q + (v + t)))) && (t.len() > 0 ==> !white(t[0])
        && t[0] != ')') {
        lemma_past(s, i, "#codeoutput("@, w + (q + (v + t)));
        lemma_argument_is_read(s, i + 12, w, q, name, v, t);
        lemma_character_at(s, k, ')', t, message);
    }
}

/// What is no quoted string where the argument of a call should stand is refused
/// with the message of the string.
pub proof fn lemma_bad_argument_is_refused(s: Seq<char>, i: int, w: Seq<char>, t: Seq<char>)
    requires
        all_white(w),
        t.len() > 0 ==> !white(t[0]),
    ensures
        stands(s, i, "#codeoutput("@ + (w + t)) ==> (quoted_at(s, i + 12 + width(w)) matches Err(
            e,
        ) ==> codeoutput_at(s, i) == Err::<(Seq<char>, int), Seq<char>>(e)),
        stands(s, i, "#codechunk("@ + (w + t)) ==> (quoted_at(s, i + 11 + width(w)) matches Err(
            e,
        ) ==> codechunk_at(s, i) == Err::<(ChunkView, int), Seq<char>>(e)),
        i >= width(s) ==> codeoutput_at(s, i) == Err::<(Seq<char>, int), Seq<char>>(
            "expected string literal"@ + " at "@ + label(s, i + 12),
        ) && codechunk_at(s, i) == Err::<(ChunkView, int), Seq<char>>(
            "expected string literal"@ + " at "@ + label(s, i + 11),
        ),
{
    lemma_widths();
    let none = Seq::<char>::empty();
    if stands(s, i, "#codeoutput("@ + (w + t)) {
        lemma_past(s, i, "#codeoutput("@, w + t);
        lemma_argument_is_read(s, i + 12, w, none, none, none, t);
    }
    if stands(s, i, "#codechunk("@ + (w + t)) {
        lemma_past(s, i, "#codechunk("@, w + t);
        lemma_argument_is_read(s, i + 11, w, none, none, none, t);
    }
    if i >= width(s) {
        lemma_boundary_range(s, i + 12);
        lemma_boundary_range(s, i + 11);
    }
}

/// Behind a quoted language, whatever it is, a `#codechunk` goes on with a comma;
/// without the comma it is refused.
pub proof fn lemma_language_is_read(
    s: Seq<char>,
    i: int,
    w: Seq<char>,
    lang: Seq<char>,
    l: Seq<char>,
    v: Seq<char>,
    c: Seq<char>,
)
    requires
        all_white(w),
        all_white(v),
        quoted_at(lang, 0) == Ok::<(Seq<char>, int), Seq<char>>((l, width(lang))),
    ensures
        stands(s, i, "#codechunk("@ + (w + (lang + (v + (seq![','] + c))))) ==> codechunk_at(s, i)
            == named_chunk_at(s, i + 11 + width(w) + width(lang) + width(v)),
        stands(s, i, "#codechunk("@ + (w + (lang + (v + c)))) && (c.len() > 0 ==> !white(c[0])
            && c[0] != ',') ==> codechunk_at(s, i) == Err::<(ChunkView, int), Seq<char>>(
            "expected ',' after language"@ + " at "@ + label(
                s,
                i + 11 + width(w) + width(lang) + width(v),
            ),
        ),
{
    lemma_widths();
    let message = "expected ',' after language"@;
    let k = i + 11 + width(w) + width(lang) + width(v);
    if stands(s, i, "#codechunk("@ + (w + (lang + (v + (seq![','] + c))))) {
        lemma_past(s, i, "#codechunk("@, w + (lang + (v + (seq![','] + c))));
        lemma_argument_is_read(s, i + 11, w, lang, l, v, seq![','] + c);
        lemma_character_at(s, k, ',', c, message);
    }
    if stands(s, i, "#codechunk("@ + (w + (lang + (v + c)))) && (c.len() > 0 ==> !white(c[0])
        && c[0] != ',') {
        lemma_past(s, i, "#codechunk("@, w + (lang + (v + c)));
        lemma_argument_is_read(s, i + 11, w, lang, l, v, c);
        lemma_character_at(s, k, ',', c, message);
    }
}

/// What is no quoted string where the name of a `#codechunk` should stand is refused
/// with the message of the string.
pub proof fn lemma_bad_chunk_name_is_refused(s: Seq<char>, k: int, w: Seq<char>, t: Seq<char>)
    requires
        stands(s, k - 1, seq![','] + (w + t)),
        all_white(w),
        t.len() > 0 ==> !white(t[0]),
    ensures
        quoted_at(s, k + width(w)) matches Err(e) ==> named_chunk_at(s, k - 1) == Err::<
            (ChunkView, int),
            Seq<char>,
        >(e),
{
    let none = Seq::<char>::empty();
    lemma_character_at(s, k - 1, ',', w + t, "expected ',' after language"@);
    lemma_argument_is_read(s, k, w, none, none, none, t);
}

/// Behind the comma, a `#codechunk` has a quoted name, a bracket that closes its
/// arguments, and a body in square brackets. It is read as a chunk with that name
/// and with the body as its code, with no key, no caption and its code not shown,
/// and ends behind the bracket that closes the body. Each part that is missing is
/// refused where it should stand.
pub proof fn lemma_name_and_body_are_read(
    s: Seq<char>,
    k: int,
    w: Seq<char>,
    q: Seq<char>,
    name: Seq<char>,
    v: Seq<char>,
    u: Seq<char>,
    r: Seq<char>,
)
    requires
        stands(s, k - 1, seq![','] + (w + (q + (v + (seq![')'] + (u + r)))))) || stands(
            s,
            k - 1,
            seq![','] + (w + (q + (v + r))),
        ),
        all_white(w),
        all_white(v),
        all_white(u),
        quoted_at(q, 0) == Ok::<(Seq<char>, int), Seq<char>>((name, width(q))),
        r.len() > 0 ==> !white(r[0]),
    ensures
        ({
            let p = k + width(w) + width(q) + width(v);
            let o = p + 1 + width(u);
            &&& stands(s, k - 1, seq![','] + (w + (q + (v + (seq![')'] + (u + r)))))) ==> {
                &&& r.len() == 0 || r[0] != '[' ==> named_chunk_at(s, k - 1) == Err::<
                    (ChunkView, int),
                    Seq<char>,
                >("expected '[' before chunk body"@ + " at "@ + label(s, o))
                &&& r.len() > 0 && r[0] == '[' ==> (match bracket_at(r, 0) {
                    Ok(end) => named_chunk_at(s, k - 1) == Ok::<(ChunkView, int), Seq<char>>(
                        (
                            ChunkView {
                                name,
                                code: between(r, 1, end),
                                key: None,
                                echo: false,
                                caption: None,
                            },
                            o + end + 1,
                        ),
                    ),
                    Err(_) => named_chunk_at(s, k - 1) == Err::<(ChunkView, int), Seq<char>>(
                        "unclosed '[' in codechunk body"@ + " at "@ + label(s, o),
                    ),
                })
            }
            &&& stands(s, k - 1, seq![','] + (w + (q + (v + r)))) && (r.len() == 0 || r[0] != ')')
                ==> named_chunk_at(s, k - 1) == Err::<(ChunkView, int), Seq<char>>(
                "expected ')' after chunk name"@ + " at "@ + label(s, p),
            )
        }),
{
    let comma = "expected ',' after language"@;
    let closing = "expected ')' after chunk name"@;
    let opening = "expected '[' before chunk body"@;
    let p = k + width(w) + width(q) + width(v);
    let o = p + 1 + width(u);
    let long = w + (q + (v + (seq![')'] + (u + r))));
    let short = w + (q + (v + r));
    if stands(s, k - 1, seq![','] + short) && (r.len() == 0 || r[0] != ')') {
        lemma_character_at(s, k - 1, ',', short, comma);
        lemma_argument_is_read(s, k, w, q, name, v, r);
        lemma_character_at(s, p, ')', r, closing);
    }
    if stands(s, k - 1, seq![','] + long) {
        lemma_character_at(s, k - 1, ',', long, comma);
        lemma_argument_is_read(s, k, w, q, name, v, seq![')'] + (u + r));
        lemma_character_at(s, p, ')', u + r, closing);
        lemma_white_space_at(s, p + 1, u, r);
        if r.len() == 0 || r[0] != '[' {
            lemma_character_at(s, o, '[', r, opening);
        } else {
            let b = r.drop_first();
            assert(r =~= seq!['['] + b);
            lemma_character_at(s, o, '[', b, opening);
            lemma_opening_does_not_matter(s, o, r);
        }
    }
}

} // verus!
