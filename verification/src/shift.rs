//! Reading depends on what stands from a place on, and not on what stands in front
//! of it. Places in two texts are alike if the same text stands from them on.
use crate::bracket::{bracket_at, lemma_bracket_at};
use crate::chunk::{ChunkView, ResultView};
use crate::directive::{argument_at, body_at, codekey_at, lemma_codekey_at, named_chunk_at};
use crate::document::{
    chunk_at, chunks_from, code_at, lemma_chunk_at, lemma_code_at, lemma_fence,
};
use crate::frontmatter::{
    behind_value, lemma_behind_value, lemma_option, lemma_options_at, lemma_value_at, option_at,
    options_at, setting_at, value_at, FrontView, Reach,
};
use crate::literal::{expected_at, lemma_quoted_at, quoted_at};
use crate::render::{lemma_call, rendered_from};
use crate::scan::{find, lemma_find, lemma_widths, lemma_word, starts_at};
use crate::text::{
    between, boundary, char_width, lemma_boundary_behind, lemma_boundary_range, lemma_ends,
    lemma_join, lemma_next, lemma_split, lemma_tail_tail, tail, width,
};
use crate::whitespace::{after_inline_ws, after_ws, lemma_after_inline_ws, lemma_after_ws};
use vstd::prelude::*;

verus! {

/// Whether the same text stands from byte offset `i` of `s` and from byte offset
/// `j` of `t` on.
pub open spec fn alike(s: Seq<char>, i: int, t: Seq<char>, j: int) -> bool {
    boundary(s, i) && boundary(t, j) && tail(s, i) == tail(t, j)
}

/// Behind alike places, places at the same distance are alike.
pub proof fn lemma_alike_on(s: Seq<char>, i: int, t: Seq<char>, j: int, a: int)
    requires
        alike(s, i, t, j),
        boundary(s, a),
        i <= a,
    ensures
        alike(s, a, t, a - i + j),
        between(s, i, a) == between(t, j, a - i + j),
        width(s) - i == width(t) - j,
{
    lemma_boundary_behind(s, i, a);
    lemma_tail_tail(s, i, a - i);
    lemma_tail_tail(t, j, a - i);
    lemma_split(s, i);
    lemma_split(t, j);
}

/// Behind the white space at alike places, places are alike.
pub proof fn lemma_alike_ws(s: Seq<char>, i: int, t: Seq<char>, j: int)
    requires
        alike(s, i, t, j),
    ensures
        after_ws(t, j) == after_ws(s, i) - i + j,
        alike(s, after_ws(s, i), t, after_ws(t, j)),
{
    lemma_split(s, i);
    lemma_split(t, j);
    lemma_after_ws(s, i);
    lemma_after_ws(t, j);
    lemma_split(s, after_ws(s, i));
    lemma_split(t, after_ws(t, j));
}

/// At alike places the same quoted string stands, or none.
proof fn lemma_alike_quoted(s: Seq<char>, i: int, t: Seq<char>, j: int)
    requires
        alike(s, i, t, j),
    ensures
        match quoted_at(s, i) {
            Ok((v, a)) => {
                &&& quoted_at(t, j) == Ok::<(Seq<char>, int), Seq<char>>((v, a - i + j))
                &&& alike(s, a, t, a - i + j)
            },
            Err(_) => quoted_at(t, j) is Err,
        },
{
    lemma_split(s, i);
    lemma_split(t, j);
    lemma_quoted_at(s, i);
    if let Ok((v, a)) = quoted_at(s, i) {
        lemma_alike_on(s, i, t, j, a);
    }
}

/// At alike places the same value stands, or none.
proof fn lemma_alike_value(s: Seq<char>, i: int, t: Seq<char>, j: int, stop: char)
    requires
        alike(s, i, t, j),
    ensures
        match value_at(s, i, stop) {
            Ok((v, a)) => {
                &&& value_at(t, j, stop) == Ok::<(Seq<char>, int), Seq<char>>((v, a - i + j))
                &&& alike(s, a, t, a - i + j)
            },
            Err(_) => value_at(t, j, stop) is Err,
        },
{
    lemma_alike_quoted(s, i, t, j);
    lemma_value_at(s, i, stop);
    if let Ok((v, a)) = value_at(s, i, stop) {
        lemma_alike_on(s, i, t, j, a);
    }
}

/// Behind a word at alike places, places are alike.
proof fn lemma_alike_word(s: Seq<char>, i: int, t: Seq<char>, j: int, word: Seq<char>)
    requires
        alike(s, i, t, j),
    ensures
        starts_at(s, i, word) == starts_at(t, j, word),
        starts_at(s, i, word) ==> alike(s, i + width(word), t, j + width(word)),
{
    if starts_at(s, i, word) {
        lemma_word(s, i, word);
        lemma_word(t, j, word);
    }
}

/// Behind the white space of the line at alike places, places are alike.
proof fn lemma_alike_inline_ws(s: Seq<char>, i: int, t: Seq<char>, j: int)
    requires
        alike(s, i, t, j),
    ensures
        after_inline_ws(t, j) == after_inline_ws(s, i) - i + j,
        alike(s, after_inline_ws(s, i), t, after_inline_ws(t, j)),
{
    lemma_after_inline_ws(s, i);
    lemma_alike_on(s, i, t, j, after_inline_ws(s, i));
}

/// At alike places the same known option stands, or none.
proof fn lemma_alike_setting(s: Seq<char>, i: int, t: Seq<char>, j: int, f: FrontView)
    requires
        alike(s, i, t, j),
    ensures
        match setting_at(s, i, f) {
            Some(Ok((g, a))) => {
                &&& setting_at(t, j, f) == Some(
                    Ok::<(FrontView, int), Seq<char>>((g, a - i + j)),
                )
                &&& alike(s, a, t, a - i + j)
            },
            Some(Err(_)) => setting_at(t, j, f) matches Some(Err(_)),
            None => setting_at(t, j, f) is None,
        },
{
    lemma_widths();
    lemma_alike_word(s, i, t, j, "key:"@);
    lemma_alike_word(s, i, t, j, "echo:"@);
    lemma_alike_word(s, i, t, j, "caption:"@);
    if starts_at(s, i, "key:"@) {
        lemma_alike_inline_ws(s, i + 4, t, j + 4);
        lemma_alike_value(s, after_inline_ws(s, i + 4), t, after_inline_ws(t, j + 4), '\n');
    } else if starts_at(s, i, "echo:"@) {
        lemma_alike_inline_ws(s, i + 5, t, j + 5);
        lemma_alike_word(s, after_inline_ws(s, i + 5), t, after_inline_ws(t, j + 5), "true"@);
        lemma_alike_word(s, after_inline_ws(s, i + 5), t, after_inline_ws(t, j + 5), "false"@);
    } else if starts_at(s, i, "caption:"@) {
        lemma_alike_inline_ws(s, i + 8, t, j + 8);
        let a = after_inline_ws(s, i + 8);
        let b = after_inline_ws(t, j + 8);
        lemma_alike_word(s, a, t, b, "["@);
        if starts_at(s, a, "["@) {
            lemma_find(tail(s, a + 1), "]"@);
            if let Some(k) = find(tail(s, a + 1), "]"@) {
                lemma_tail_tail(s, a + 1, k);
                lemma_tail_tail(s, a + 1, k + 1);
                lemma_boundary_range(tail(s, a + 1), k);
                lemma_alike_on(s, a + 1, t, b + 1, a + 1 + k);
                lemma_alike_on(s, a + 1, t, b + 1, a + 1 + k + 1);
            }
        } else {
            lemma_alike_value(s, a, t, b, '\n');
        }
    }
}

/// Behind values that end at alike places, reading goes on at alike places.
proof fn lemma_alike_behind_value(s: Seq<char>, i: int, t: Seq<char>, j: int)
    requires
        alike(s, i, t, j),
    ensures
        behind_value(t, j) == behind_value(s, i) - i + j,
        alike(s, behind_value(s, i), t, behind_value(t, j)),
{
    lemma_alike_inline_ws(s, i, t, j);
    lemma_behind_value(s, i);
    lemma_alike_on(s, i, t, j, behind_value(s, i));
}

/// From alike places on the same options are read, or none.
pub proof fn lemma_alike_options(s: Seq<char>, i: int, t: Seq<char>, j: int, f: FrontView)
    requires
        alike(s, i, t, j),
    ensures
        match options_at(s, i, f) {
            Ok((g, a)) => {
                &&& options_at(t, j, f) == Ok::<(FrontView, int), Seq<char>>((g, a - i + j))
                &&& alike(s, a, t, a - i + j)
            },
            Err(_) => options_at(t, j, f) is Err,
        },
    decreases width(s) - i,
{
    lemma_widths();
    lemma_alike_ws(s, i, t, j);
    let a = after_ws(s, i);
    let b = after_ws(t, j);
    lemma_alike_word(s, a, t, b, "#|"@);
    if starts_at(s, a, "#|"@) {
        lemma_option(s, i, f);
        lemma_alike_inline_ws(s, a + 2, t, b + 2);
        let c = after_inline_ws(s, a + 2);
        let d = after_inline_ws(t, b + 2);
        lemma_alike_setting(s, c, t, d, f);
        if let Some(Ok((g, k))) = setting_at(s, c, f) {
            lemma_alike_behind_value(s, k, t, k - i + j);
        }
        if let Ok((g, Reach::Next(k))) = option_at(s, c, f) {
            lemma_alike_on(s, i, t, j, k);
            lemma_alike_options(s, k, t, k - i + j, g);
        }
    }
}

/// From alike places on the same chunk is read, or none.
pub proof fn lemma_alike_chunk(s: Seq<char>, i: int, t: Seq<char>, j: int, seen: Seq<ChunkView>)
    requires
        alike(s, i, t, j),
    ensures
        match chunk_at(s, i, seen) {
            Ok((chunk, a)) => {
                &&& chunk_at(t, j, seen) == Ok::<(ChunkView, int), Seq<char>>((chunk, a - i + j))
                &&& alike(s, a, t, a - i + j)
            },
            Err(_) => chunk_at(t, j, seen) is Err,
        },
{
    let start = FrontView { key: None, echo: false, caption: None };
    lemma_alike_options(s, i, t, j, start);
    lemma_options_at(s, i, start);
    if let Ok((f, a)) = options_at(s, i, start) {
        lemma_code_at(s, a);
        if let Ok((code, b)) = code_at(s, a) {
            lemma_alike_on(s, a, t, a - i + j, b);
            lemma_alike_on(s, a, t, a - i + j, b - 3);
        }
    }
}

/// From alike places on documents have the same chunks and the same text, or are
/// both wrong.
pub proof fn lemma_alike_chunks(
    s: Seq<char>,
    i: int,
    t: Seq<char>,
    j: int,
    seen: Seq<ChunkView>,
)
    requires
        alike(s, i, t, j),
    ensures
        match chunks_from(s, i, seen) {
            Ok(all) => chunks_from(t, j, seen) == Ok::<
                (Seq<char>, Seq<ChunkView>),
                Seq<char>,
            >(all),
            Err(_) => chunks_from(t, j, seen) is Err,
        },
    decreases width(s) - i,
{
    if let Some(k) = find(tail(s, i), "```r"@) {
        lemma_fence(s, i);
        lemma_alike_on(s, i, t, j, i + k);
        lemma_alike_on(s, i, t, j, i + k + 4);
        lemma_alike_chunk(s, i + k + 4, t, j + k + 4, seen);
        lemma_chunk_at(s, i + k + 4, seen);
        if let Ok((chunk, a)) = chunk_at(s, i + k + 4, seen) {
            lemma_alike_chunks(s, a, t, a - i + j, seen.push(chunk));
        }
    }
}

/// At alike places the same call stands, or none.
pub proof fn lemma_alike_codekey(s: Seq<char>, i: int, t: Seq<char>, j: int)
    requires
        alike(s, i + 9, t, j + 9),
    ensures
        match codekey_at(s, i) {
            Ok((name, a)) => {
                &&& codekey_at(t, j) == Ok::<(Seq<char>, int), Seq<char>>((name, a - i + j))
                &&& alike(s, a, t, a - i + j)
            },
            Err(_) => codekey_at(t, j) is Err,
        },
{
    lemma_widths();
    lemma_alike_ws(s, i + 9, t, j + 9);
    let a = after_ws(s, i + 9);
    let b = after_ws(t, j + 9);
    lemma_alike_value(s, a, t, b, ')');
    if let Ok((name, c)) = value_at(s, a, ')') {
        lemma_alike_ws(s, c, t, c - i + j);
        lemma_alike_word(s, after_ws(s, c), t, after_ws(t, c - i + j), ")"@);
    }
}

/// From alike places on documents are rendered alike, or are both wrong.
pub proof fn lemma_alike_rendered(
    s: Seq<char>,
    i: int,
    t: Seq<char>,
    j: int,
    results: Map<Seq<char>, ResultView>,
)
    requires
        alike(s, i, t, j),
    ensures
        match rendered_from(s, i, results) {
            Ok(text) => rendered_from(t, j, results) == Ok::<Seq<char>, Seq<char>>(text),
            Err(_) => rendered_from(t, j, results) is Err,
        },
    decreases width(s) - i,
{
    if let Some(k) = find(tail(s, i), "#codekey("@) {
        lemma_call(s, i);
        lemma_alike_on(s, i, t, j, i + k);
        lemma_alike_on(s, i, t, j, i + k + 9);
        lemma_alike_codekey(s, i + k, t, j + k);
        lemma_codekey_at(s, i + k);
        if let Ok((name, a)) = codekey_at(s, i + k) {
            lemma_alike_rendered(s, a, t, a - i + j, results);
        }
    }
}

/// At alike places the same argument stands, or none.
proof fn lemma_alike_argument(s: Seq<char>, i: int, t: Seq<char>, j: int)
    requires
        alike(s, i, t, j),
    ensures
        match argument_at(s, i) {
            Ok((v, a)) => {
                &&& argument_at(t, j) == Ok::<(Seq<char>, int), Seq<char>>((v, a - i + j))
                &&& alike(s, a, t, a - i + j)
            },
            Err(_) => argument_at(t, j) is Err,
        },
{
    lemma_alike_ws(s, i, t, j);
    lemma_alike_quoted(s, after_ws(s, i), t, after_ws(t, j));
    if let Ok((v, a)) = quoted_at(s, after_ws(s, i)) {
        lemma_alike_ws(s, a, t, a - i + j);
    }
}

/// At alike places the same character stands, or neither is the one expected.
proof fn lemma_alike_expected(
    s: Seq<char>,
    i: int,
    t: Seq<char>,
    j: int,
    c: char,
    message: Seq<char>,
)
    requires
        alike(s, i, t, j),
    ensures
        match expected_at(s, i, c, message) {
            Ok(a) => {
                &&& expected_at(t, j, c, message) == Ok::<int, Seq<char>>(a - i + j)
                &&& alike(s, a, t, a - i + j)
                &&& a == i + char_width(c)
            },
            Err(_) => expected_at(t, j, c, message) is Err,
        },
{
    lemma_split(s, i);
    lemma_split(t, j);
    if expected_at(s, i, c, message) is Ok {
        lemma_next(s, i);
        lemma_next(t, j);
    }
}

/// At alike places the same body stands, or none.
proof fn lemma_alike_body(s: Seq<char>, i: int, t: Seq<char>, j: int)
    requires
        alike(s, i, t, j),
    ensures
        match body_at(s, i) {
            Ok((code, a)) => body_at(t, j) == Ok::<(Seq<char>, int), Seq<char>>(
                (code, a - i + j),
            ),
            Err(_) => body_at(t, j) is Err,
        },
{
    let message = "expected '[' before chunk body"@;
    lemma_alike_expected(s, i, t, j, '[', message);
    if let Ok(a) = expected_at(s, i, '[', message) {
        lemma_split(s, a);
        lemma_split(t, a - i + j);
        lemma_bracket_at(s, a - 1);
        if let Ok(end) = bracket_at(s, a - 1) {
            lemma_alike_on(s, a, t, a - i + j, end);
        }
    }
}

/// From alike places on, the same chunk follows the language of a `#codechunk`, or
/// none.
pub proof fn lemma_alike_named_chunk(s: Seq<char>, i: int, t: Seq<char>, j: int)
    requires
        alike(s, i, t, j),
    ensures
        match named_chunk_at(s, i) {
            Ok((chunk, a)) => named_chunk_at(t, j) == Ok::<(ChunkView, int), Seq<char>>(
                (chunk, a - i + j),
            ),
            Err(_) => named_chunk_at(t, j) is Err,
        },
{
    let comma = "expected ',' after language"@;
    let bracket = "expected ')' after chunk name"@;
    lemma_alike_expected(s, i, t, j, ',', comma);
    if let Ok(a) = expected_at(s, i, ',', comma) {
        lemma_alike_argument(s, a, t, a - i + j);
        if let Ok((name, b)) = argument_at(s, a) {
            lemma_alike_expected(s, b, t, b - i + j, ')', bracket);
            if let Ok(c) = expected_at(s, b, ')', bracket) {
                lemma_alike_ws(s, c, t, c - i + j);
                lemma_alike_body(s, after_ws(s, c), t, after_ws(t, c - i + j));
            }
        }
    }
}

/// A word whose first character does not stand in `p` first occurs behind `p`
/// where it first occurs in what follows.
pub proof fn lemma_find_behind(p: Seq<char>, d: Seq<char>, word: Seq<char>)
    requires
        word.len() > 0,
        forall|k: int| 0 <= k < p.len() ==> #[trigger] p[k] != word[0],
    ensures
        find(p + d, word) == (match find(d, word) {
            Some(k) => Some(width(p) + k),
            None => None,
        }),
    decreases p.len(),
{
    if p.len() == 0 {
        assert(p + d =~= d);
    } else {
        let q = p.drop_first();
        assert forall|k: int| 0 <= k < q.len() implies #[trigger] q[k] != word[0] by {
            assert(q[k] == p[k + 1]);
        }
        lemma_find_behind(q, d, word);
        assert((p + d).drop_first() =~= q + d);
        if word.is_prefix_of(p + d) {
            assert((p + d).subrange(0, word.len() as int)[0] == p[0]);
        }
    }
}

/// What stands in front of a place in `p + d` that is a place in `d`.
pub proof fn lemma_behind(p: Seq<char>, d: Seq<char>, k: int)
    requires
        boundary(d, k),
    ensures
        alike(d, k, p + d, width(p) + k),
        between(p + d, 0, width(p) + k) == p + between(d, 0, k),
{
    lemma_join(p, d);
    lemma_ends(d);
    lemma_tail_tail(p + d, width(p), k);
    lemma_split(d, k);
    lemma_split(p + d, width(p) + k);
    lemma_ends(p + d);
    assert(between(p + d, 0, width(p) + k) =~= p + between(d, 0, k));
}

} // verus!
