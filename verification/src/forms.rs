//! The usual forms of chunks and calls, and what comes of documents with them.
use crate::bracket::{
    body_width, closes, closes_first, depth_after, lemma_closes_once, place_after, Place,
};
use crate::chunk::{output_key, result_of, results_of, ChunkView, OutputView, ResultView};
use crate::directive::{argument_at, body_at, codechunk_at, codekey_at, codeoutput_at};
use crate::document::{chunk_at, chunk_name, chunks_from, code_at, parsed};
use crate::escape::{escaped, lemma_reads_back, Style};
use crate::frontmatter::{behind_value, options_at, FrontView};
use crate::laws::lemma_result_of_last_chunk;
use crate::literal::{expected_at, quoted_at};
use crate::position::{decimal, digit};
use crate::render::{rendered, rendered_from, replacement, result_block};
use crate::scan::{find, lemma_widths, plain_end, starts_at};
use crate::text::{
    between, boundary, char_width, head, lemma_ends, lemma_join, lemma_split, lemma_tail_tail, tail,
    width,
};
use crate::whitespace::{
    after_inline_ws, after_ws, blank, inline_ws, lemma_after_ws, lemma_trimmed_start, trimmed,
    trimmed_start, white,
};
use vstd::prelude::*;

verus! {

/// Whether `t` is what stands in `s` from byte offset `i` on.
pub open spec fn stands(s: Seq<char>, i: int, t: Seq<char>) -> bool {
    boundary(s, i) && tail(s, i) == t
}

/// Behind a word stands what follows it.
pub proof fn lemma_past(s: Seq<char>, i: int, word: Seq<char>, t: Seq<char>)
    requires
        stands(s, i, word + t),
    ensures
        starts_at(s, i, word),
        stands(s, i + width(word), t),
        between(s, i, i + width(word)) == word,
        i + width(word) + width(t) == width(s),
{
    assert((word + t).subrange(0, word.len() as int) =~= word);
    lemma_join(word, t);
    lemma_tail_tail(s, i, width(word));
    lemma_split(s, i + width(word));
}

/// White space in front of something else is not in its way.
pub proof fn lemma_past_ws(s: Seq<char>, i: int, w: Seq<char>, t: Seq<char>)
    requires
        stands(s, i, w + t),
        t.len() > 0,
        !white(t[0]),
    ensures
        stands(s, after_ws(s, i), trimmed_start(w) + t),
        after_ws(s, i) == i + width(w) - width(trimmed_start(w)),
{
    lemma_trimmed_start_joins(w, t);
    lemma_after_ws(s, i);
    lemma_split(s, i);
    lemma_ends(w + t);
    lemma_join(w, t);
    lemma_join(trimmed_start(w), t);
}

/// White space alone in front of something else is passed over.
pub proof fn lemma_past_blank(s: Seq<char>, i: int, w: Seq<char>, t: Seq<char>)
    requires
        stands(s, i, w + t),
        blank(w),
        t.len() > 0,
        !white(t[0]),
    ensures
        stands(s, after_ws(s, i), t),
{
    lemma_past_ws(s, i, w, t);
    lemma_trimmed_start(w);
    let b = trimmed_start(w);
    if b.len() > 0 {
        assert(w[w.len() - b.len()] == b[0]);
    }
    assert(b + t =~= t);
}

/// White space within a line, in front of something else, is passed over.
pub proof fn lemma_past_inline(s: Seq<char>, i: int, w: Seq<char>, t: Seq<char>)
    requires
        stands(s, i, w + t),
        blank(w),
        plain(w, '\n'),
        t.len() > 0,
        !white(t[0]),
    ensures
        stands(s, after_inline_ws(s, i), t),
{
    lemma_inline_width(w, t);
    lemma_past(s, i, w, t);
}

proof fn lemma_inline_width(w: Seq<char>, t: Seq<char>)
    requires
        blank(w),
        plain(w, '\n'),
        t.len() > 0,
        !white(t[0]),
    ensures
        inline_ws(w + t) == width(w),
    decreases w.len(),
{
    if w.len() == 0 {
        assert(w + t =~= t);
    } else {
        let v = w.drop_first();
        assert forall|k: int| 0 <= k < v.len() implies white(#[trigger] v[k]) && v[k] != '\n' by {
            assert(v[k] == w[k + 1]);
        }
        lemma_inline_width(v, t);
        assert((w + t).drop_first() =~= v + t);
        assert(w[0] != '\n');
    }
}

proof fn lemma_trimmed_start_joins(w: Seq<char>, t: Seq<char>)
    requires
        t.len() > 0,
        !white(t[0]),
    ensures
        trimmed_start(w + t) == trimmed_start(w) + t,
    decreases w.len(),
{
    if w.len() == 0 {
        assert(w + t =~= t);
    } else if white(w[0]) {
        assert((w + t).drop_first() =~= w.drop_first() + t);
        lemma_trimmed_start_joins(w.drop_first(), t);
    }
}

proof fn lemma_trimmed_start_settles(w: Seq<char>)
    ensures
        trimmed_start(trimmed_start(w)) == trimmed_start(w),
    decreases w.len(),
{
    if w.len() > 0 && white(w[0]) {
        lemma_trimmed_start_settles(w.drop_first());
    }
}

/// A word that does not start with white space first occurs at the same place
/// whether or not white space in front is counted in.
proof fn lemma_find_past_ws(r: Seq<char>, word: Seq<char>)
    requires
        word.len() > 0,
        !white(word[0]),
        find(r, word) is Some,
    ensures
        find(trimmed_start(r), word) == Some(
            find(r, word)->0 - width(r) + width(trimmed_start(r)),
        ),
    decreases r.len(),
{
    if r.len() > 0 && white(r[0]) {
        assert(!word.is_prefix_of(r));
        lemma_find_past_ws(r.drop_first(), word);
    }
}

/// Whether a text does not hold the character `stop`.
pub open spec fn plain(t: Seq<char>, stop: char) -> bool {
    forall|k: int| 0 <= k < t.len() ==> #[trigger] t[k] != stop
}

proof fn lemma_plain_end_at(t: Seq<char>, stop: char, rest: Seq<char>)
    requires
        plain(t, stop),
    ensures
        plain_end(t + seq![stop] + rest, stop) == width(t),
    decreases t.len(),
{
    let all = t + seq![stop] + rest;
    if t.len() > 0 {
        let u = t.drop_first();
        assert forall|k: int| 0 <= k < u.len() implies #[trigger] u[k] != stop by {
            assert(u[k] == t[k + 1]);
        }
        lemma_plain_end_at(u, stop, rest);
        assert(all.drop_first() =~= u + seq![stop] + rest);
        assert(all[0] == t[0]);
    }
}

/// The words that open and close chunks and calls, character by character.
proof fn lemma_words()
    ensures
        "```r"@ =~= seq!['`', '`', '`', 'r'],
        "```"@ =~= seq!['`', '`', '`'],
        "#|"@ =~= seq!['#', '|'],
        "key:"@ =~= seq!['k', 'e', 'y', ':'],
        "echo:"@ =~= seq!['e', 'c', 'h', 'o', ':'],
        "true"@ =~= seq!['t', 'r', 'u', 'e'],
        ")"@ =~= seq![')'],
        "#codekey("@ =~= seq!['#', 'c', 'o', 'd', 'e', 'k', 'e', 'y', '('],
        "\n"@ =~= seq!['\n'],
        " "@ =~= seq![' '],
        "\""@ =~= seq!['"'],
{
    reveal_strlit("```r");
    reveal_strlit("```");
    reveal_strlit("#|");
    reveal_strlit("key:");
    reveal_strlit("echo:");
    reveal_strlit("true");
    reveal_strlit(")");
    reveal_strlit("#codekey(");
    reveal_strlit("\n");
    reveal_strlit(" ");
    reveal_strlit("\"");
}

/// What code that starts behind white space is read as, up to the fence that
/// closes it.
proof fn lemma_code_stands(
    s: Seq<char>,
    i: int,
    f: FrontView,
    body: Seq<char>,
    after: Seq<char>,
)
    requires
        stands(s, i, body + "```"@ + after),
        find(body + "```"@ + after, "```"@) == Some(width(body)),
        !"#|"@.is_prefix_of(trimmed_start(body)),
    ensures
        options_at(s, i, f) == Ok::<(FrontView, int), Seq<char>>((f, after_ws(s, i))),
        code_at(s, after_ws(s, i)) == Ok::<(Seq<char>, int), Seq<char>>(
            (trimmed_start(body), width(s) - width(after)),
        ),
        stands(s, width(s) - width(after), after),
{
    lemma_words();
    lemma_widths();
    let close = "```"@;
    let r = body + close + after;
    let a = after_ws(s, i);
    let code = trimmed_start(body);
    assert(r =~= body + (close + after));
    lemma_past_ws(s, i, body, close + after);
    let t = code + (close + after);
    assert(!"#|"@.is_prefix_of(t)) by {
        if "#|"@.is_prefix_of(t) {
            assert(t[0] == '#' && t[1] == '|');
            if code.len() >= 2 {
                assert(code.subrange(0, 2) =~= "#|"@);
            } else if code.len() == 1 {
                assert(t[1] == close[0]);
            } else {
                assert(t[0] == close[0]);
            }
        }
    }
    assert(trimmed_start(r) == t) by {
        lemma_trimmed_start_joins(body, close + after);
    }
    lemma_find_past_ws(r, close);
    lemma_join(body, close + after);
    lemma_join(code, close + after);
    lemma_join(close, after);
    lemma_past(s, a, code, close + after);
    lemma_past(s, a + width(code), close, after);
    lemma_ends(after);
    lemma_ends(code);
}

/// A document in which a chunk with the options `f` stands from the options at
/// byte offset `i` on is read as that chunk and what stands around it.
proof fn lemma_chunk_stands(
    before: Seq<char>,
    inner: Seq<char>,
    i: int,
    f: FrontView,
    body: Seq<char>,
    after: Seq<char>,
)
    requires
        find(before + ("```r"@ + inner), "```r"@) == Some(width(before)),
        options_at(
            before + ("```r"@ + inner),
            width(before) + 4,
            FrontView { key: None, echo: false, caption: None },
        ) == options_at(before + ("```r"@ + inner), i, f),
        stands(before + ("```r"@ + inner), i, body + "```"@ + after),
        find(body + "```"@ + after, "```"@) == Some(width(body)),
        !"#|"@.is_prefix_of(trimmed_start(body)),
        find(after, "```r"@) is None,
    ensures
        parsed(before + ("```r"@ + inner)) == Ok::<(Seq<char>, Seq<ChunkView>), Seq<char>>(
            (
                before + after,
                seq![
                    ChunkView {
                        name: chunk_name(f.key, 0),
                        code: trimmed_start(body),
                        key: f.key,
                        echo: f.echo,
                        caption: f.caption,
                    },
                ],
            ),
        ),
{
    lemma_words();
    lemma_widths();
    let s = before + ("```r"@ + inner);
    lemma_ends(s);
    lemma_past(s, 0, before, "```r"@ + inner);
    lemma_past(s, width(before), "```r"@, inner);
    lemma_code_stands(s, i, f, body, after);
    let chunk = ChunkView {
        name: chunk_name(f.key, 0),
        code: trimmed_start(body),
        key: f.key,
        echo: f.echo,
        caption: f.caption,
    };
    let j = width(s) - width(after);
    let none = Seq::<ChunkView>::empty();
    assert(chunk_at(s, width(before) + 4, none) == Ok::<(ChunkView, int), Seq<char>>((chunk, j)));
    assert(none.push(chunk) =~= seq![chunk]);
    assert(chunks_from(s, j, seq![chunk]) == Ok::<(Seq<char>, Seq<ChunkView>), Seq<char>>(
        (after, seq![chunk]),
    ));
}

/// A chunk without options becomes a chunk with the code that stands in it, named
/// by its number, and the document keeps what stands around it.
pub proof fn lemma_plain_chunk(before: Seq<char>, body: Seq<char>, after: Seq<char>)
    requires
        find(before + "```r"@ + body + "```"@ + after, "```r"@) == Some(width(before)),
        find(body + "```"@ + after, "```"@) == Some(width(body)),
        !"#|"@.is_prefix_of(trimmed_start(body)),
        find(after, "```r"@) is None,
    ensures
        parsed(before + "```r"@ + body + "```"@ + after) == Ok::<
            (Seq<char>, Seq<ChunkView>),
            Seq<char>,
        >(
            (
                before + after,
                seq![
                    ChunkView {
                        name: "chunk_0"@,
                        code: trimmed_start(body),
                        key: None,
                        echo: false,
                        caption: None,
                    },
                ],
            ),
        ),
{
    lemma_words();
    lemma_widths();
    let s = before + "```r"@ + body + "```"@ + after;
    let inner = body + "```"@ + after;
    assert(s =~= before + ("```r"@ + inner));
    lemma_ends(s);
    lemma_past(s, 0, before, "```r"@ + inner);
    lemma_past(s, width(before), "```r"@, inner);
    let start = FrontView { key: None, echo: false, caption: None };
    lemma_chunk_stands(before, inner, width(before) + 4, start, body, after);
    assert("chunk_"@ + decimal(0) =~= "chunk_0"@) by {
        reveal_strlit("chunk_");
        reveal_strlit("chunk_0");
        assert(digit(0) == '0');
    }
}

/// A chunk with a key alone becomes a chunk with that key and the code that stands
/// behind the line of the key, and the document keeps what stands around it. The
/// key is plain text.
pub proof fn lemma_keyed_chunk(
    before: Seq<char>,
    name: Seq<char>,
    body: Seq<char>,
    after: Seq<char>,
)
    requires
        find(
            before + "```r\n#| key: "@ + name + "\n"@ + body + "```"@ + after,
            "```r"@,
        ) == Some(width(before)),
        trimmed_start(name).len() > 0,
        trimmed_start(name)[0] != '"',
        plain(name, '\n'),
        find(body + "```"@ + after, "```"@) == Some(width(body)),
        !"#|"@.is_prefix_of(trimmed_start(body)),
        find(after, "```r"@) is None,
    ensures
        parsed(before + "```r\n#| key: "@ + name + "\n"@ + body + "```"@ + after) == Ok::<
            (Seq<char>, Seq<ChunkView>),
            Seq<char>,
        >(
            (
                before + after,
                seq![
                    ChunkView {
                        name: trimmed(name),
                        code: trimmed_start(body),
                        key: Some(trimmed(name)),
                        echo: false,
                        caption: None,
                    },
                ],
            ),
        ),
{
    lemma_words();
    lemma_widths();
    let s = before + "```r\n#| key: "@ + name + "\n"@ + body + "```"@ + after;
    let rest = body + "```"@ + after;
    let inner = seq!['\n'] + key_line(name, rest);
    lemma_keyed_layout(before, name, rest);
    assert(s =~= before + "```r\n#| key: "@ + name + "\n"@ + rest);
    lemma_ends(s);
    lemma_past(s, 0, before, "```r"@ + inner);
    lemma_past(s, width(before), "```r"@, inner);
    let start = FrontView { key: None, echo: false, caption: None };
    let i = lemma_key_line(s, width(before) + 4, seq!['\n'], start, name, rest);
    let f = FrontView { key: Some(trimmed(name)), ..start };
    lemma_chunk_stands(before, inner, i, f, body, after);
}

/// A chunk with a key and with `echo` set to `true` becomes a chunk with that key
/// and the code that stands behind these lines, and the document keeps what stands
/// around it. The key is plain text.
pub proof fn lemma_echoed_chunk(
    before: Seq<char>,
    name: Seq<char>,
    body: Seq<char>,
    after: Seq<char>,
)
    requires
        find(
            before + "```r\n#| key: "@ + name + "\n#| echo: true\n"@ + body + "```"@ + after,
            "```r"@,
        ) == Some(width(before)),
        trimmed_start(name).len() > 0,
        trimmed_start(name)[0] != '"',
        plain(name, '\n'),
        find(body + "```"@ + after, "```"@) == Some(width(body)),
        !"#|"@.is_prefix_of(trimmed_start(body)),
        find(after, "```r"@) is None,
    ensures
        parsed(
            before + "```r\n#| key: "@ + name + "\n#| echo: true\n"@ + body + "```"@ + after,
        ) == Ok::<(Seq<char>, Seq<ChunkView>), Seq<char>>(
            (
                before + after,
                seq![
                    ChunkView {
                        name: trimmed(name),
                        code: trimmed_start(body),
                        key: Some(trimmed(name)),
                        echo: true,
                        caption: None,
                    },
                ],
            ),
        ),
{
    lemma_words();
    lemma_widths();
    let s = before + "```r\n#| key: "@ + name + "\n#| echo: true\n"@ + body + "```"@ + after;
    let code = body + "```"@ + after;
    let rest = echo_line(code);
    let inner = seq!['\n'] + key_line(name, rest);
    lemma_keyed_layout(before, name, rest);
    lemma_echo_layout(code);
    assert(s =~= before + "```r\n#| key: "@ + name + ("\n#| echo: true\n"@ + code));
    assert(s =~= before + "```r\n#| key: "@ + name + "\n"@ + rest);
    lemma_ends(s);
    lemma_past(s, 0, before, "```r"@ + inner);
    lemma_past(s, width(before), "```r"@, inner);
    let start = FrontView { key: None, echo: false, caption: None };
    let i = lemma_key_line(s, width(before) + 4, seq!['\n'], start, name, rest);
    let f = FrontView { key: Some(trimmed(name)), ..start };
    let j = lemma_echo_line(s, i, f, code);
    lemma_chunk_stands(before, inner, j, FrontView { echo: true, ..f }, body, after);
}

/// The line of a key, and what stands behind it.
pub open spec fn key_line(name: Seq<char>, rest: Seq<char>) -> Seq<char> {
    "#|"@ + (seq![' '] + ("key:"@ + ((seq![' '] + name) + (seq!['\n'] + rest))))
}

/// A line that sets `echo` to `true`, and what stands behind it.
pub open spec fn echo_line(rest: Seq<char>) -> Seq<char> {
    "#|"@ + (seq![' '] + ("echo:"@ + (seq![' '] + ("true"@ + (seq!['\n'] + rest)))))
}

/// How a document with a keyed chunk falls into words.
proof fn lemma_keyed_layout(before: Seq<char>, name: Seq<char>, rest: Seq<char>)
    ensures
        before + "```r\n#| key: "@ + name + "\n"@ + rest == before + ("```r"@ + (seq!['\n']
            + key_line(name, rest))),
{
    lemma_words();
    lemma_widths();
    let opening = "```r\n#| key: "@;
    let values = name + ("\n"@ + rest);
    reveal_strlit("```r\n#| key: ");
    assert("```r"@ + (seq!['\n'] + key_line(name, rest)) =~= opening + values) by {
        assert(opening =~= seq![
            '`', '`', '`', 'r', '\n', '#', '|', ' ', 'k', 'e', 'y', ':', ' ',
        ]);
        assert((seq![' '] + name) + (seq!['\n'] + rest) =~= seq![' '] + values);
    }
    assert(before + opening + name + "\n"@ + rest =~= before + (opening + values));
}

/// How a line that sets `echo` falls into words.
proof fn lemma_echo_layout(rest: Seq<char>)
    ensures
        "\n#| echo: true\n"@ + rest == "\n"@ + echo_line(rest),
{
    lemma_words();
    lemma_widths();
    reveal_strlit("\n#| echo: true\n");
    assert("\n#| echo: true\n"@ =~= seq![
        '\n', '#', '|', ' ', 'e', 'c', 'h', 'o', ':', ' ', 't', 'r', 'u', 'e', '\n',
    ]);
    assert("\n#| echo: true\n"@ + rest =~= "\n"@ + echo_line(rest));
}

/// The line of a key sets the key, and reading the options goes on behind it.
pub proof fn lemma_key_line(
    s: Seq<char>,
    i: int,
    w: Seq<char>,
    f: FrontView,
    name: Seq<char>,
    rest: Seq<char>,
) -> (j: int)
    requires
        stands(s, i, w + key_line(name, rest)),
        blank(w),
        trimmed_start(name).len() > 0,
        trimmed_start(name)[0] != '"',
        plain(name, '\n'),
    ensures
        options_at(s, i, f) == options_at(s, j, FrontView { key: Some(trimmed(name)), ..f }),
        stands(s, j, rest),
{
    lemma_words();
    lemma_widths();
    let value = (seq![' '] + name) + (seq!['\n'] + rest);
    lemma_marker_stands(s, i, w, "key:"@ + value);
    let k = after_inline_ws(s, after_ws(s, i) + 2);
    lemma_past(s, k, "key:"@, value);
    lemma_key_value(s, k + 4, name, rest);
    let v = after_inline_ws(s, k + 4);
    let e = v + width(trimmed_start(name));
    assert(!starts_at(s, v, "\""@)) by {
        let r = tail(s, v);
        if "\""@.is_prefix_of(r) {
            assert(r.subrange(0, 1)[0] == '"');
        }
    }
    lemma_line_feed_stands(s, e, rest);
    e + 1
}

/// A line that sets `echo` sets it, and reading the options goes on behind it.
pub proof fn lemma_echo_line(s: Seq<char>, i: int, f: FrontView, rest: Seq<char>) -> (j: int)
    requires
        stands(s, i, echo_line(rest)),
    ensures
        options_at(s, i, f) == options_at(s, j, FrontView { echo: true, ..f }),
        stands(s, j, rest),
{
    lemma_words();
    lemma_widths();
    let sp = seq![' '];
    let none = Seq::<char>::empty();
    let r = "echo:"@ + (sp + ("true"@ + (seq!['\n'] + rest)));
    assert(none + echo_line(rest) =~= echo_line(rest));
    lemma_marker_stands(s, i, none, r);
    let k = after_inline_ws(s, after_ws(s, i) + 2);
    lemma_past(s, k, "echo:"@, sp + ("true"@ + (seq!['\n'] + rest)));
    lemma_past_inline(s, k + 5, sp, "true"@ + (seq!['\n'] + rest));
    lemma_past(s, after_inline_ws(s, k + 5), "true"@, seq!['\n'] + rest);
    if "key:"@.is_prefix_of(r) {
        assert(r.subrange(0, 4)[0] == 'k');
    }
    let e = after_inline_ws(s, k + 5) + 4;
    lemma_line_feed_stands(s, e, rest);
    e + 1
}

/// Behind a value at the end of its line, reading goes on with the next line.
proof fn lemma_line_feed_stands(s: Seq<char>, e: int, rest: Seq<char>)
    requires
        stands(s, e, seq!['\n'] + rest),
    ensures
        behind_value(s, e) == e + 1,
        stands(s, e + 1, rest),
{
    lemma_words();
    lemma_widths();
    lemma_past(s, e, "\n"@, rest);
    let r = tail(s, e);
    if "#|"@.is_prefix_of(r) {
        assert(r.subrange(0, 2)[0] == '#');
    }
    if "```"@.is_prefix_of(r) {
        assert(r.subrange(0, 3)[0] == '`');
    }
}

/// Behind white space and the marker of an option stands the option.
proof fn lemma_marker_stands(s: Seq<char>, i: int, w: Seq<char>, option: Seq<char>)
    requires
        blank(w),
        stands(s, i, w + ("#|"@ + (seq![' '] + option))),
        option.len() > 0,
        !white(option[0]),
    ensures
        stands(s, after_ws(s, i), "#|"@ + (seq![' '] + option)),
        starts_at(s, after_ws(s, i), "#|"@),
        boundary(s, after_ws(s, i) + 2),
        stands(s, after_inline_ws(s, after_ws(s, i) + 2), option),
{
    lemma_words();
    lemma_widths();
    let sp = seq![' '];
    let marked = "#|"@ + (sp + option);
    lemma_past_blank(s, i, w, marked);
    lemma_past(s, after_ws(s, i), "#|"@, sp + option);
    lemma_past_inline(s, after_ws(s, i) + 2, sp, option);
}

/// A plain value behind one space, up to the end of its line.
proof fn lemma_key_value(s: Seq<char>, i: int, name: Seq<char>, rest: Seq<char>)
    requires
        stands(s, i, (seq![' '] + name) + (seq!['\n'] + rest)),
        trimmed_start(name).len() > 0,
        plain(name, '\n'),
    ensures
        ({
            let v = after_inline_ws(s, i);
            let t = trimmed_start(name);
            &&& stands(s, v, t + (seq!['\n'] + rest))
            &&& plain_end(tail(s, v), '\n') == width(t)
            &&& trimmed(between(s, v, v + width(t))) == trimmed(name)
            &&& stands(s, v + width(t), seq!['\n'] + rest)
        }),
{
    let sp = seq![' '];
    let t = trimmed_start(name);
    let r = seq!['\n'] + rest;
    lemma_trimmed_start(name);
    // The value has a first character that is not white space; split there.
    let w = name.take(name.len() - t.len());
    assert((sp + name) + r =~= (sp + w) + (t + r));
    assert forall|k: int| 0 <= k < (sp + w).len() implies white(#[trigger] (sp + w)[k]) && (sp
        + w)[k] != '\n' by {
        if k > 0 {
            assert(w[k - 1] == (sp + w)[k]);
            assert(name[k - 1] != '\n');
        }
    }
    assert(plain(t, '\n')) by {
        assert forall|k: int| 0 <= k < t.len() implies #[trigger] t[k] != '\n' by {
            assert(name[w.len() + k] == t[k]);
        }
    }
    lemma_past_inline(s, i, sp + w, t + r);
    lemma_plain_end_at(t, '\n', rest);
    assert(t + r =~= t + seq!['\n'] + rest);
    lemma_past(s, after_inline_ws(s, i), t, r);
    lemma_trimmed_start_settles(name);
}

/// A call with a plain name is replaced, and the document keeps what stands
/// around it.
pub proof fn lemma_plain_call(
    before: Seq<char>,
    name: Seq<char>,
    after: Seq<char>,
    results: Map<Seq<char>, ResultView>,
)
    requires
        find(before + "#codekey("@ + name + ")"@ + after, "#codekey("@) == Some(width(before)),
        plain(trimmed_start(name), ')'),
        trimmed_start(name).len() > 0 ==> trimmed_start(name)[0] != '"',
        find(after, "#codekey("@) is None,
    ensures
        rendered(before + "#codekey("@ + name + ")"@ + after, results) == Ok::<
            Seq<char>,
            Seq<char>,
        >(before + replacement(trimmed(name), results) + after),
{
    lemma_words();
    lemma_widths();
    let call = "#codekey("@;
    let s = before + call + name + ")"@ + after;
    let r = name + (")"@ + after);
    let t = trimmed_start(name);
    assert(s =~= before + (call + r));
    lemma_ends(s);
    lemma_past(s, 0, before, call + r);
    let i = width(before);
    lemma_past(s, i, call, r);
    lemma_past_ws(s, i + 9, name, ")"@ + after);
    let a = after_ws(s, i + 9);
    lemma_plain_end_at(t, ')', after);
    assert(t + (")"@ + after) =~= t + seq![')'] + after);
    lemma_past(s, a, t, ")"@ + after);
    lemma_trimmed_start_settles(name);
    let b = a + width(t);
    assert(Seq::<char>::empty() + (")"@ + after) =~= ")"@ + after);
    lemma_past_ws(s, b, Seq::empty(), ")"@ + after);
    lemma_past(s, b, ")"@, after);
    assert(!starts_at(s, a, "\""@)) by {
        let u = tail(s, a);
        if "\""@.is_prefix_of(u) {
            assert(u.subrange(0, 1)[0] == '"');
        }
    }
    assert(codekey_at(s, i) == Ok::<(Seq<char>, int), Seq<char>>((trimmed(name), b + 1)));
    assert(rendered_from(s, b + 1, results) == Ok::<Seq<char>, Seq<char>>(after));
}

/// Whether a text is code in which every character stands for itself: it has no
/// brackets, no quotes and no number signs.
pub open spec fn bare(code: Seq<char>) -> bool {
    forall|k: int|
        0 <= k < code.len() ==> {
            let c = #[trigger] code[k];
            c != '[' && c != ']' && c != '\'' && c != '"' && c != '#'
        }
}

proof fn lemma_bare_place(code: Seq<char>)
    requires
        bare(code),
    ensures
        place_after(code) == Place::Code,
        depth_after(code) == 1,
    decreases code.len(),
{
    if code.len() > 0 {
        let p = code.drop_last();
        assert forall|k: int| 0 <= k < p.len() implies {
            let c = #[trigger] p[k];
            c != '[' && c != ']' && c != '\'' && c != '"' && c != '#'
        } by {
            assert(p[k] == code[k]);
        }
        lemma_bare_place(p);
    }
}

/// The first bracket behind bare code closes the bracket before it.
pub proof fn lemma_bare_body(code: Seq<char>, rest: Seq<char>)
    requires
        bare(code),
    ensures
        body_width(code + seq![']'] + rest) == Some(width(code)),
{
    let r = code + seq![']'] + rest;
    let n = code.len() as int;
    assert(r.take(n) =~= code);
    lemma_bare_place(code);
    assert(closes(r, n));
    assert forall|m: int| 0 <= m < n implies !#[trigger] closes(r, m) by {
        assert(r[m] == code[m]);
    }
    assert(closes_first(r, n));
    lemma_closes_once(r, n, choose|m: int| closes_first(r, m));
}

/// What `value` is written as between double quotes.
pub open spec fn quoted(value: Seq<char>) -> Seq<char> {
    seq!['"'] + escaped(Style::RString, value) + seq!['"']
}

/// A quoted string in front of something that is not white space is read as an
/// argument.
proof fn lemma_argument_stands(s: Seq<char>, i: int, value: Seq<char>, rest: Seq<char>)
    requires
        stands(s, i, quoted(value) + rest),
        rest.len() > 0,
        !white(rest[0]),
    ensures
        argument_at(s, i) == Ok::<(Seq<char>, int), Seq<char>>(
            (value, i + width(quoted(value))),
        ),
        quoted_at(s, i) == argument_at(s, i),
        stands(s, i + width(quoted(value)), rest),
{
    let q = quoted(value);
    let none = Seq::<char>::empty();
    let e = escaped(Style::RString, value);
    assert(none + (q + rest) =~= q + rest);
    lemma_past_blank(s, i, none, q + rest);
    lemma_past_ws(s, i, none, q + rest);
    lemma_past(s, i, q, rest);
    assert(none + rest =~= rest);
    lemma_past_ws(s, i + width(q), none, rest);
    lemma_split(s, i);
    let before = head(s, i);
    lemma_reads_back(Style::RString, before, value, rest);
    assert(before + seq!['"'] + e + seq!['"'] + rest =~= s);
    assert(width(q) == width(e) + 2) by {
        lemma_join(seq!['"'], e);
        lemma_join(seq!['"'] + e, seq!['"']);
        reveal_with_fuel(width, 2);
        assert(seq!['"'].drop_first() =~= none);
    }
}

/// A `#codeoutput` with a quoted name, wherever it stands, is read as that name.
pub proof fn lemma_codeoutput_reads_back(before: Seq<char>, name: Seq<char>, after: Seq<char>)
    ensures
        codeoutput_at(
            before + "#codeoutput("@ + quoted(name) + seq![')'] + after,
            width(before),
        ) == Ok::<(Seq<char>, int), Seq<char>>(
            (name, width(before) + 12 + width(quoted(name)) + 1),
        ),
{
    let s = before + "#codeoutput("@ + quoted(name) + seq![')'] + after;
    let rest = seq![')'] + after;
    let call = "#codeoutput("@;
    assert(s =~= before + (call + (quoted(name) + rest)));
    lemma_widths();
    lemma_ends(s);
    lemma_past(s, 0, before, call + (quoted(name) + rest));
    lemma_past(s, width(before), call, quoted(name) + rest);
    lemma_argument_stands(s, width(before) + 12, name, rest);
    lemma_split(s, width(before) + 12 + width(quoted(name)));
    lemma_ends(rest);
}

/// A `#codechunk` with quoted arguments and bare code, wherever it stands, is read
/// as a chunk with that name and that code.
pub proof fn lemma_codechunk_reads_back(
    before: Seq<char>,
    lang: Seq<char>,
    name: Seq<char>,
    code: Seq<char>,
    after: Seq<char>,
)
    requires
        bare(code),
    ensures
        codechunk_at(
            before + "#codechunk("@ + quoted(lang) + seq![','] + quoted(name) + seq![')', '[']
                + code + seq![']'] + after,
            width(before),
        ) == Ok::<(ChunkView, int), Seq<char>>(
            (
                ChunkView { name, code, key: None, echo: false, caption: None },
                width(before) + 11 + width(quoted(lang)) + 1 + width(quoted(name)) + 2 + width(code)
                    + 1,
            ),
        ),
{
    let s = before + "#codechunk("@ + quoted(lang) + seq![','] + quoted(name) + seq![')', '[']
        + code + seq![']'] + after;
    let l = quoted(lang);
    let n = quoted(name);
    let body = code + seq![']'] + after;
    let first = l + (seq![','] + (n + (seq![')'] + (seq!['['] + body))));
    lemma_codechunk_layout(before, l, n, code, after);
    lemma_ends(s);
    lemma_past(s, 0, before, "#codechunk("@ + first);
    lemma_codechunk_stands(s, width(before), lang, name, code, after);
}

/// How a text with a `#codechunk` falls into words.
proof fn lemma_codechunk_layout(
    before: Seq<char>,
    l: Seq<char>,
    n: Seq<char>,
    code: Seq<char>,
    after: Seq<char>,
)
    ensures
        before + "#codechunk("@ + l + seq![','] + n + seq![')', '['] + code + seq![']'] + after
            == before + ("#codechunk("@ + (l + (seq![','] + (n + (seq![')'] + (seq!['['] + (code
            + seq![']'] + after))))))),
{
    let call = "#codechunk("@;
    let body = code + seq![']'] + after;
    let closing = seq![')'] + (seq!['['] + body);
    assert(closing =~= seq![')', '['] + body);
    assert(l + (seq![','] + (n + closing)) =~= l + seq![','] + n + seq![')', '['] + body);
    assert(before + call + l + seq![','] + n + seq![')', '['] + code + seq![']'] + after =~= before
        + (call + (l + seq![','] + n + seq![')', '['] + body)));
}

proof fn lemma_codechunk_stands(
    s: Seq<char>,
    start: int,
    lang: Seq<char>,
    name: Seq<char>,
    code: Seq<char>,
    after: Seq<char>,
)
    requires
        stands(
            s,
            start,
            "#codechunk("@ + (quoted(lang) + (seq![','] + (quoted(name) + (seq![')'] + (seq!['[']
                + (code + seq![']'] + after)))))),
        ),
        bare(code),
    ensures
        codechunk_at(s, start) == Ok::<(ChunkView, int), Seq<char>>(
            (
                ChunkView { name, code, key: None, echo: false, caption: None },
                start + 11 + width(quoted(lang)) + 1 + width(quoted(name)) + 2 + width(code) + 1,
            ),
        ),
{
    let call = "#codechunk("@;
    let body = code + seq![']'] + after;
    let opening = seq!['['] + body;
    let closing = seq![')'] + opening;
    let second = quoted(name) + closing;
    let first = quoted(lang) + (seq![','] + second);
    lemma_widths();
    lemma_past(s, start, call, first);
    lemma_argument_stands(s, start + 11, lang, seq![','] + second);
    let comma = start + 11 + width(quoted(lang));
    lemma_character_stands(s, comma, ',', second);
    lemma_argument_stands(s, comma + 1, name, closing);
    let paren = comma + 1 + width(quoted(name));
    lemma_character_stands(s, paren, ')', opening);
    lemma_body_stands(s, paren + 1, code, after);
}

proof fn lemma_body_stands(s: Seq<char>, i: int, code: Seq<char>, after: Seq<char>)
    requires
        stands(s, i, seq!['['] + (code + seq![']'] + after)),
        bare(code),
    ensures
        after_ws(s, i) == i,
        body_at(s, i) == Ok::<(Seq<char>, int), Seq<char>>((code, i + 1 + width(code) + 1)),
{
    let none = Seq::<char>::empty();
    let body = code + seq![']'] + after;
    assert(none + (seq!['['] + body) =~= seq!['['] + body);
    lemma_past_ws(s, i, none, seq!['['] + body);
    lemma_character_stands(s, i, '[', body);
    lemma_bare_body(code, after);
    assert(body =~= code + (seq![']'] + after));
    lemma_past(s, i + 1, code, seq![']'] + after);
    lemma_split(s, i + 1);
    lemma_ends(body);
}

/// A character that stands somewhere is the one expected there.
proof fn lemma_character_stands(s: Seq<char>, i: int, c: char, rest: Seq<char>)
    requires
        stands(s, i, seq![c] + rest),
        char_width(c) == 1,
    ensures
        forall|message: Seq<char>| #[trigger]
            expected_at(s, i, c, message) == Ok::<int, Seq<char>>(i + 1),
        stands(s, i + 1, rest),
{
    reveal_with_fuel(width, 2);
    assert(seq![c].drop_first() =~= Seq::empty());
    lemma_past(s, i, seq![c], rest);
    lemma_ends(rest);
}

/// A call with a quoted name is replaced, and the document keeps what stands
/// around it.
pub proof fn lemma_quoted_call(
    before: Seq<char>,
    name: Seq<char>,
    after: Seq<char>,
    results: Map<Seq<char>, ResultView>,
)
    requires
        find(before + "#codekey("@ + quoted(name) + ")"@ + after, "#codekey("@) == Some(
            width(before),
        ),
        find(after, "#codekey("@) is None,
    ensures
        rendered(before + "#codekey("@ + quoted(name) + ")"@ + after, results) == Ok::<
            Seq<char>,
            Seq<char>,
        >(before + replacement(name, results) + after),
{
    lemma_words();
    lemma_widths();
    let call = "#codekey("@;
    let q = quoted(name);
    let s = before + call + q + ")"@ + after;
    let rest = ")"@ + after;
    assert(s =~= before + (call + (q + rest)));
    lemma_ends(s);
    lemma_past(s, 0, before, call + (q + rest));
    let i = width(before);
    lemma_past(s, i, call, q + rest);
    lemma_argument_stands(s, i + 9, name, rest);
    let none = Seq::<char>::empty();
    assert(none + (q + rest) =~= q + rest);
    lemma_past_ws(s, i + 9, none, q + rest);
    let b = i + 9 + width(q);
    lemma_past(s, b, ")"@, after);
    assert(starts_at(s, i + 9, "\""@)) by {
        assert((q + rest).subrange(0, 1) =~= "\""@);
    }
    assert(codekey_at(s, i) == Ok::<(Seq<char>, int), Seq<char>>((name, b + 1))) by {
        assert(none + rest =~= rest);
        lemma_past_ws(s, b, none, rest);
    }
    assert(rendered_from(s, b + 1, results) == Ok::<Seq<char>, Seq<char>>(after));
}

/// A call with the output key of a chunk, in quotes, is replaced by what the chunk
/// gave, and the document keeps what stands around it. Left out are keys that a
/// later chunk shares.
pub proof fn lemma_call_shows_result(
    before: Seq<char>,
    after: Seq<char>,
    chunks: Seq<ChunkView>,
    outputs: Seq<OutputView>,
    m: int,
)
    requires
        0 <= m < outputs.len() <= chunks.len(),
        forall|k: int|
            m < k < outputs.len() ==> output_key(#[trigger] chunks[k]) != output_key(chunks[m]),
        find(
            before + "#codekey("@ + quoted(output_key(chunks[m])) + ")"@ + after,
            "#codekey("@,
        ) == Some(width(before)),
        find(after, "#codekey("@) is None,
    ensures
        rendered(
            before + "#codekey("@ + quoted(output_key(chunks[m])) + ")"@ + after,
            results_of(chunks, outputs),
        ) == Ok::<Seq<char>, Seq<char>>(
            before + result_block(
                output_key(chunks[m]),
                result_of(chunks[m], outputs[m]),
            ) + after,
        ),
{
    lemma_result_of_last_chunk(chunks, outputs, m);
    lemma_quoted_call(before, output_key(chunks[m]), after, results_of(chunks, outputs));
}

} // verus!
