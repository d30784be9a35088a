//! A document with any number of chunks: what its first chunk is, how the rest of
//! the document goes on, and that each chunk is read by its own lines.
use crate::chunk::ChunkView;
use crate::document::{
    chunk_at, chunks_from, code_at, has_key, lemma_chunk_at, lemma_code_at, lemma_fence, parsed,
};
use crate::foreign::debug_text;
use crate::forms::{lemma_past, stands};
use crate::frontmatter::{
    behind_value, lemma_option, lemma_options_at, option_at, options_at, value_at, FrontView, Reach,
};
use crate::laws::lemma_chunks_of_a_document;
use crate::position::{decimal, label};
use crate::reading::{
    all_white, lemma_begins, lemma_bracketed_caption_is_set, lemma_key_is_set, lemma_options_end,
    lemma_options_go_on, lemma_rest_of_line, one_line,
};
use crate::scan::{find, lemma_find, lemma_widths, lemma_word, starts_at};
use crate::shift::{alike, lemma_alike_chunk, lemma_alike_on, lemma_alike_options};
use crate::text::{between, boundary, head, lemma_ends, lemma_split, lemma_tail_tail, tail, width};
use crate::whitespace::{after_inline_ws, after_ws, lemma_after_inline_ws, white};
use vstd::prelude::*;

verus! {

/// Whether two chunks agree in all but their names.
pub open spec fn same_but_name(a: ChunkView, b: ChunkView) -> bool {
    a.code == b.code && a.key == b.key && a.echo == b.echo && a.caption == b.caption
}

/// Whether the chunks `later` are those of `rest` behind one more chunk, with a
/// number of their own where they have no key.
pub open spec fn follow(later: Seq<ChunkView>, rest: Seq<ChunkView>) -> bool {
    &&& later.len() == rest.len() + 1
    &&& forall|m: int|
        1 <= m < later.len() ==> {
            &&& same_but_name(#[trigger] later[m], rest[m - 1])
            &&& later[m].key matches Some(k) ==> later[m].name == k
            &&& later[m].key is None ==> later[m].name == "chunk_"@ + decimal(m)
        }
}

proof fn lemma_seen_stay(s: Seq<char>, i: int, seen: Seq<ChunkView>)
    requires
        boundary(s, i),
    ensures
        chunks_from(s, i, seen) matches Ok((text, all)) ==> {
            &&& seen.len() <= all.len()
            &&& forall|m: int| 0 <= m < seen.len() ==> all[m] == seen[m]
        },
    decreases width(s) - i,
{
    if let Some(k) = find(tail(s, i), "```r"@) {
        lemma_fence(s, i);
        lemma_chunk_at(s, i + k + 4, seen);
        if let Ok((chunk, j)) = chunk_at(s, i + k + 4, seen) {
            lemma_seen_stay(s, j, seen.push(chunk));
            if let Ok((text, all)) = chunks_from(s, i, seen) {
                assert forall|m: int| 0 <= m < seen.len() implies all[m] == seen[m] by {
                    assert(all[m] == seen.push(chunk)[m]);
                }
            }
        }
    }
}

/// Whether the document `s` is refused with `d` for the reason that its rest `t` is
/// refused for with `e`, or else because the key of its first chunk stands again.
pub open spec fn same_refusal(
    s: Seq<char>,
    d: Seq<char>,
    t: Seq<char>,
    e: Seq<char>,
    key: Option<Seq<char>>,
) -> bool {
    ||| {
        &&& e == "unterminated string literal"@ + " at "@ + label(t, width(t))
        &&& d == "unterminated string literal"@ + " at "@ + label(s, width(s))
    }
    ||| e == "unclosed fenced code block"@ && d == e
    ||| (exists|k: Seq<char>| e == "duplicate chunk key "@ + #[trigger] debug_text(k)) && d == e
    ||| key is Some && d == "duplicate chunk key "@ + debug_text(key->0)
}

/// How the chunks behind a first one go on, compared with a document that lacks the
/// first.
proof fn lemma_later_chunks(
    s: Seq<char>,
    i: int,
    t: Seq<char>,
    j: int,
    first: ChunkView,
    big: Seq<ChunkView>,
    small: Seq<ChunkView>,
)
    requires
        alike(s, i, t, j),
        big.len() == small.len() + 1,
        big[0] == first,
        forall|m: int| 1 <= m < big.len() ==> same_but_name(#[trigger] big[m], small[m - 1]),
        first.key matches Some(k) ==> !has_key(small, k),
    ensures
        match chunks_from(t, j, small) {
            Err(e) => chunks_from(s, i, big) matches Err(d) && same_refusal(s, d, t, e, first.key),
            Ok((text, rest)) => if first.key matches Some(k) && has_key(rest, k) {
                chunks_from(s, i, big) == Err::<(Seq<char>, Seq<ChunkView>), Seq<char>>(
                    "duplicate chunk key "@ + debug_text(first.key->0),
                )
            } else {
                &&& chunks_from(s, i, big) matches Ok((u, all))
                &&& u == text
                &&& all.len() == rest.len() + 1
                &&& all[0] == first
                &&& forall|m: int|
                    1 <= m < all.len() ==> same_but_name(#[trigger] all[m], rest[m - 1])
            },
        },
    decreases width(s) - i,
{
    if let Some(k) = find(tail(s, i), "```r"@) {
        lemma_fence(s, i);
        lemma_alike_on(s, i, t, j, i + k);
        lemma_alike_on(s, i, t, j, i + k + 4);
        lemma_alike_chunk(s, i + k + 4, t, j + k + 4, small);
        lemma_chunk_at(s, i + k + 4, small);
        lemma_chunk_at(t, j + k + 4, small);
        assert forall|key: Seq<char>| #[trigger] has_key(big, key) <==> (first.key == Some(key)
            || has_key(small, key)) by {
            if has_key(big, key) {
                let m = choose|m: int| 0 <= m < big.len() && #[trigger] big[m].key == Some(key);
                if m > 0 {
                    assert(same_but_name(big[m], small[m - 1]));
                    assert(small[m - 1].key == Some(key));
                }
            }
            if has_key(small, key) {
                let m = choose|m: int| 0 <= m < small.len() && #[trigger] small[m].key == Some(
                    key,
                );
                assert(same_but_name(big[m + 1], small[m + 1 - 1]));
                assert(big[m + 1].key == Some(key));
            }
            if first.key == Some(key) {
                assert(big[0].key == Some(key));
            }
        }
        let start = FrontView { key: None, echo: false, caption: None };
        lemma_option_refusals(s, i + k + 4, start);
        lemma_option_refusals(t, j + k + 4, start);
        lemma_options_at(s, i + k + 4, start);
        lemma_alike_options(s, i + k + 4, t, j + k + 4, start);
        if let Ok((f, a)) = options_at(s, i + k + 4, start) {
            if let Some(key) = f.key {
                assert(debug_text(key) == debug_text(key));
            }
        }
        if let Ok((c, b)) = chunk_at(t, j + k + 4, small) {
            let a = b - j + i;
            lemma_seen_stay(t, b, small.push(c));
            if c.key is Some && first.key == c.key {
                assert(chunk_at(s, i + k + 4, big) == Err::<(ChunkView, int), Seq<char>>(
                    "duplicate chunk key "@ + debug_text(c.key->0),
                ));
                if let Ok((text, rest)) = chunks_from(t, b, small.push(c)) {
                    assert(rest[small.len() as int] == small.push(c)[small.len() as int]);
                    assert(rest[small.len() as int].key == Some(c.key->0));
                }
            } else {
                let d = chunk_at(s, i + k + 4, big)->Ok_0.0;
                assert(chunk_at(s, i + k + 4, big) == Ok::<(ChunkView, int), Seq<char>>((d, a)));
                assert(same_but_name(d, c));
                let more = big.push(d);
                let other = small.push(c);
                assert forall|m: int| 1 <= m < more.len() implies same_but_name(
                    #[trigger] more[m],
                    other[m - 1],
                ) by {
                    if m < big.len() {
                        assert(same_but_name(big[m], small[m - 1]));
                    }
                }
                if let Some(key) = first.key {
                    if has_key(other, key) {
                        let m = choose|m: int|
                            0 <= m < other.len() && #[trigger] other[m].key == Some(key);
                        if m < small.len() {
                            assert(small[m].key == Some(key));
                        }
                    }
                }
                lemma_later_chunks(s, a, t, b, first, more, other);
            }
        }
    }
}

/// What a document is read as, in terms of its first chunk and of what the rest of
/// it is read as alone. The first chunk is what its options and its code are; the
/// text in front of it is kept; the chunks behind it are those of the rest, with
/// numbers one higher. A key that stands again in the rest is refused.
pub proof fn lemma_first_chunk_and_rest(s: Seq<char>)
    ensures
        match find(s, "```r"@) {
            None => parsed(s) == Ok::<(Seq<char>, Seq<ChunkView>), Seq<char>>(
                (s, Seq::<ChunkView>::empty()),
            ),
            Some(k) => match options_at(
                s,
                k + 4,
                FrontView { key: None, echo: false, caption: None },
            ) {
                Err(e) => parsed(s) == Err::<(Seq<char>, Seq<ChunkView>), Seq<char>>(e),
                Ok((f, a)) => match find(tail(s, a), "```"@) {
                    None => parsed(s) == Err::<(Seq<char>, Seq<ChunkView>), Seq<char>>(
                        "unclosed fenced code block"@,
                    ),
                    Some(n) => match parsed(tail(s, a + n + 3)) {
                        Err(e) => parsed(s) matches Err(d) && same_refusal(
                            s,
                            d,
                            tail(s, a + n + 3),
                            e,
                            f.key,
                        ),
                        Ok((text, rest)) => if f.key is Some && exists|m: int|
                            0 <= m < rest.len() && (#[trigger] rest[m]).key == f.key {
                            parsed(s) == Err::<(Seq<char>, Seq<ChunkView>), Seq<char>>(
                                "duplicate chunk key "@ + debug_text(f.key->0),
                            )
                        } else {
                            &&& parsed(s) matches Ok((u, chunks))
                            &&& u == head(s, k) + text
                            &&& follow(chunks, rest)
                            &&& chunks[0] == ChunkView {
                                name: match f.key {
                                    Some(key) => key,
                                    None => "chunk_"@ + decimal(0),
                                },
                                code: between(s, a, a + n),
                                key: f.key,
                                echo: f.echo,
                                caption: f.caption,
                            }
                        },
                    },
                },
            },
        },
{
    lemma_ends(s);
    let none = Seq::<ChunkView>::empty();
    if let Some(k) = find(s, "```r"@) {
        let start = FrontView { key: None, echo: false, caption: None };
        lemma_fence(s, 0);
        lemma_options_at(s, k + 4, start);
        if let Ok((f, a)) = options_at(s, k + 4, start) {
            lemma_code_at(s, a);
            if let Some(n) = find(tail(s, a), "```"@) {
                let j = a + n + 3;
                let t = tail(s, j);
                lemma_ends(t);
                assert(!has_key(none, f.key->0));
                let (c, e) = chunk_at(s, k + 4, none)->Ok_0;
                assert(chunk_at(s, k + 4, none) == Ok::<(ChunkView, int), Seq<char>>((c, j)));
                assert(alike(s, j, t, 0));
                lemma_later_chunks(s, j, t, 0, c, none.push(c), none);
                if let Ok((text, rest)) = parsed(t) {
                    if f.key is Some && exists|m: int|
                        0 <= m < rest.len() && (#[trigger] rest[m]).key == f.key {
                        let m = choose|m: int|
                            0 <= m < rest.len() && (#[trigger] rest[m]).key == f.key;
                        assert(rest[m].key == Some(f.key->0));
                        assert(has_key(rest, f.key->0));
                    } else {
                        if f.key is Some && has_key(rest, f.key->0) {
                            let m = choose|m: int|
                                0 <= m < rest.len() && #[trigger] rest[m].key == Some(f.key->0);
                            assert(rest[m].key == f.key);
                        }
                        let (u, chunks) = parsed(s)->Ok_0;
                        lemma_chunks_of_a_document(s, u, chunks);
                        assert(between(s, 0, k) == head(s, k));
                        assert forall|m: int| 1 <= m < chunks.len() implies {
                            &&& same_but_name(#[trigger] chunks[m], rest[m - 1])
                            &&& chunks[m].key matches Some(key) ==> chunks[m].name == key
                            &&& chunks[m].key is None ==> chunks[m].name == "chunk_"@ + decimal(m)
                        } by {}
                    }
                }
            }
        }
    }
}

/// Where the chunks of a document stand, and that each is what its own options and
/// its own code are, whatever chunks stand before it or behind it.
pub proof fn lemma_chunk_by_its_own_lines(
    s: Seq<char>,
    text: Seq<char>,
    chunks: Seq<ChunkView>,
) -> (starts: Seq<int>)
    requires
        parsed(s) == Ok::<(Seq<char>, Seq<ChunkView>), Seq<char>>((text, chunks)),
    ensures
        starts.len() == chunks.len(),
        forall|m: int| 0 <= m < chunks.len() ==> own_lines(s, #[trigger] starts[m], chunks[m]),
{
    let starts = lemma_starts(s, 0, Seq::empty());
    starts
}

/// Whether a chunk is what the options and the code behind the fence at byte offset
/// `p` are.
pub open spec fn own_lines(s: Seq<char>, p: int, chunk: ChunkView) -> bool {
    &&& boundary(s, p)
    &&& starts_at(s, p, "```r"@)
    &&& options_at(s, p + 4, FrontView { key: None, echo: false, caption: None }) matches Ok((f, a))
    &&& find(tail(s, a), "```"@) matches Some(n)
    &&& chunk.code == between(s, a, a + n)
    &&& chunk.key == f.key
    &&& chunk.echo == f.echo
    &&& chunk.caption == f.caption
}

proof fn lemma_starts(s: Seq<char>, i: int, seen: Seq<ChunkView>) -> (starts: Seq<int>)
    requires
        boundary(s, i),
        chunks_from(s, i, seen) is Ok,
    ensures
        ({
            let all = chunks_from(s, i, seen)->Ok_0.1;
            &&& all.len() == seen.len() + starts.len()
            &&& forall|m: int|
                0 <= m < starts.len() ==> own_lines(s, #[trigger] starts[m], all[seen.len() + m])
        }),
    decreases width(s) - i,
{
    match find(tail(s, i), "```r"@) {
        None => Seq::empty(),
        Some(k) => {
            lemma_fence(s, i);
            lemma_find(tail(s, i), "```r"@);
            lemma_tail_tail(s, i, k);
            lemma_chunk_at(s, i + k + 4, seen);
            let (chunk, j) = chunk_at(s, i + k + 4, seen)->Ok_0;
            let rest = lemma_starts(s, j, seen.push(chunk));
            let starts = seq![i + k] + rest;
            let all = chunks_from(s, i, seen)->Ok_0.1;
            lemma_seen_stay(s, j, seen.push(chunk));
            assert(all[seen.len() as int] == seen.push(chunk)[seen.len() as int]);
            assert forall|m: int| 0 <= m < starts.len() implies own_lines(
                s,
                #[trigger] starts[m],
                all[seen.len() + m],
            ) by {
                if m > 0 {
                    assert(starts[m] == rest[m - 1]);
                }
            }
            starts
        },
    }
}

/// A chunk whose options are the lines of a key and of a caption in brackets has
/// that key and that caption, does not show its code, and has the code behind these
/// lines, wherever it stands among the chunks.
pub proof fn lemma_keyed_and_captioned(
    s: Seq<char>,
    p: int,
    chunk: ChunkView,
    key: Seq<char>,
    caption: Seq<char>,
    body: Seq<char>,
    after: Seq<char>,
)
    requires
        own_lines(s, p, chunk),
        stands(
            s,
            p + 4,
            "\n#| key: "@ + key + "\n#| caption: ["@ + caption + "]\n"@ + body + "```"@ + after,
        ),
        key.len() > 0,
        !white(key[0]),
        !white(key.last()),
        key[0] != '"',
        one_line(key),
        forall|k: int| 0 <= k < caption.len() ==> #[trigger] caption[k] != ']',
        body.len() > 0,
        !white(body[0]),
        body[0] != '#',
        find(body + "```"@ + after, "```"@) == Some(width(body)),
    ensures
        chunk.key == Some(key),
        chunk.caption == Some(caption),
        chunk.echo == false,
        chunk.code == body,
{
    let none = Seq::<char>::empty();
    let lf = seq!['\n'];
    let sp = seq![' '];
    let code = body + "```"@ + after;
    let second = "#|"@ + (sp + ("caption:"@ + (sp + (seq!['['] + (caption + (seq![']'] + (lf
        + code)))))));
    let f0 = FrontView { key: None, echo: false, caption: None };
    let f1 = FrontView { key: Some(key), echo: false, caption: None };
    let f2 = FrontView { key: Some(key), echo: false, caption: Some(caption) };
    lemma_caption_layout(key, caption, body, after);
    let i = lemma_key_line_passed(s, p + 4, lf, key, second, f0);
    assert(none + second =~= second);
    let j = lemma_caption_line_passed(s, i, none, caption, code, f1);
    assert(none + code =~= code);
    assert(code[0] == body[0]);
    lemma_options_end(s, j, none, code, f2);
    assert(code =~= body + ("```"@ + after));
    lemma_past(s, j, body, "```"@ + after);
}

/// The line of a key sets the key, and reading goes on with the next line.
proof fn lemma_key_line_passed(
    s: Seq<char>,
    i: int,
    w: Seq<char>,
    key: Seq<char>,
    next: Seq<char>,
    f: FrontView,
) -> (j: int)
    requires
        stands(
            s,
            i,
            w + ("#|"@ + (seq![' '] + ("key:"@ + (seq![' '] + (key + seq!['\n'] + next))))),
        ),
        all_white(w),
        key.len() > 0,
        !white(key[0]),
        !white(key.last()),
        key[0] != '"',
        one_line(key),
    ensures
        options_at(s, i, f) == options_at(
            s,
            j,
            FrontView { key: Some(key), echo: f.echo, caption: f.caption },
        ),
        stands(s, j, next),
{
    lemma_widths();
    reveal_strlit("key:");
    let none = Seq::<char>::empty();
    let lf = seq!['\n'];
    let sp = seq![' '];
    let value = key + lf + next;
    let t = "key:"@ + (sp + value);
    assert(t[0] == 'k');
    let l = lemma_split_line(t);
    lemma_options_go_on(s, i, w, sp, t, l, rest_of_line(t), f);
    lemma_marked(s, i, w, sp, t);
    let k = i + width(w) + 2 + width(sp);
    assert(key + none + lf + next =~= value);
    assert(key + none =~= key);
    lemma_key_is_set(s, k, sp, key, none, none, none, next, f);
    lemma_past(s, k, "key:"@, sp + value);
    lemma_past(s, k + 4, sp, value);
    assert(value =~= key + (lf + next));
    lemma_past(s, k + 4 + width(sp), key, lf + next);
    let e = k + 4 + width(sp) + width(key);
    lemma_line_passed(s, e, next);
    e + 1
}

/// The line of a caption in brackets sets the caption, and reading goes on with the
/// next line.
proof fn lemma_caption_line_passed(
    s: Seq<char>,
    i: int,
    w: Seq<char>,
    caption: Seq<char>,
    next: Seq<char>,
    f: FrontView,
) -> (j: int)
    requires
        stands(
            s,
            i,
            w + ("#|"@ + (seq![' '] + ("caption:"@ + (seq![' '] + (seq!['['] + (caption + (seq![']']
                + (seq!['\n'] + next)))))))),
        ),
        all_white(w),
        forall|k: int| 0 <= k < caption.len() ==> #[trigger] caption[k] != ']',
    ensures
        options_at(s, i, f) == options_at(
            s,
            j,
            FrontView { key: f.key, echo: f.echo, caption: Some(caption) },
        ),
        stands(s, j, next),
{
    lemma_widths();
    reveal_strlit("caption:");
    reveal_strlit("[");
    reveal_strlit("]");
    let lf = seq!['\n'];
    let sp = seq![' '];
    let inner = caption + (seq![']'] + (lf + next));
    let t = "caption:"@ + (sp + (seq!['['] + inner));
    assert("["@ =~= seq!['[']);
    assert("]"@ =~= seq![']']);
    assert(t[0] == 'c');
    let l = lemma_split_line(t);
    lemma_options_go_on(s, i, w, sp, t, l, rest_of_line(t), f);
    lemma_marked(s, i, w, sp, t);
    let k = i + width(w) + 2 + width(sp);
    lemma_bracketed_caption_is_set(s, k, sp, caption, lf + next, f);
    lemma_past(s, k, "caption:"@, sp + (seq!['['] + inner));
    lemma_past(s, k + 8, sp, seq!['['] + inner);
    let o = k + 8 + width(sp);
    lemma_past(s, o, "["@, inner);
    lemma_past(s, o + 1, caption, seq![']'] + (lf + next));
    lemma_past(s, o + 1 + width(caption), "]"@, lf + next);
    let e = o + 1 + width(caption) + 1;
    lemma_line_passed(s, e, next);
    e + 1
}

/// Behind a value at the end of its line, the next line stands.
proof fn lemma_line_passed(s: Seq<char>, e: int, next: Seq<char>)
    requires
        stands(s, e, seq!['\n'] + next),
    ensures
        behind_value(s, e) == e + 1,
        stands(s, e + 1, next),
{
    let none = Seq::<char>::empty();
    lemma_widths();
    reveal_strlit("\n");
    assert("\n"@ =~= seq!['\n']);
    assert(none + none + seq!['\n'] + next =~= seq!['\n'] + next);
    lemma_rest_of_line(s, e, none, none, next);
    assert(none + none =~= none);
    lemma_past(s, e, "\n"@, next);
}

/// How the lines of a key and of a caption fall into words.
proof fn lemma_caption_layout(
    key: Seq<char>,
    caption: Seq<char>,
    body: Seq<char>,
    after: Seq<char>,
)
    ensures
        ({
            let lf = seq!['\n'];
            let sp = seq![' '];
            let third = lf + (body + "```"@ + after);
            let named = sp + (seq!['['] + (caption + (seq![']'] + third)));
            let second = "#|"@ + (sp + ("caption:"@ + named));
            let value = key + lf + second;
            "\n#| key: "@ + key + "\n#| caption: ["@ + caption + "]\n"@ + body + "```"@ + after
                == lf + ("#|"@ + (sp + ("key:"@ + (sp + value))))
        }),
{
    reveal_strlit("#|");
    reveal_strlit("key:");
    reveal_strlit("caption:");
    reveal_strlit("\n#| key: ");
    reveal_strlit("\n#| caption: [");
    reveal_strlit("]\n");
    let lf = seq!['\n'];
    let sp = seq![' '];
    let code = body + "```"@ + after;
    let third = lf + code;
    let named = sp + (seq!['['] + (caption + (seq![']'] + third)));
    let second = "#|"@ + (sp + ("caption:"@ + named));
    let value = key + lf + second;
    assert(seq![']'] + third =~= "]\n"@ + code);
    let tailing = caption + ("]\n"@ + code);
    assert(lf + second =~= "\n#| caption: ["@ + tailing) by {
        assert("\n#| caption: ["@ =~= seq![
            '\n', '#', '|', ' ', 'c', 'a', 'p', 't', 'i', 'o', 'n', ':', ' ', '[',
        ]);
    }
    let values = key + ("\n#| caption: ["@ + tailing);
    assert(value =~= values);
    assert(lf + ("#|"@ + (sp + ("key:"@ + (sp + values)))) =~= "\n#| key: "@ + values) by {
        assert("\n#| key: "@ =~= seq!['\n', '#', '|', ' ', 'k', 'e', 'y', ':', ' ']);
    }
    assert("\n#| key: "@ + key + "\n#| caption: ["@ + caption + "]\n"@ + body + "```"@ + after
        =~= "\n#| key: "@ + values);
}

/// A text behind its first line feed, or nothing where it has none.
spec fn rest_of_line(t: Seq<char>) -> Seq<char>
    decreases t.len(),
{
    if t.len() == 0 {
        t
    } else if t[0] == '\n' {
        t.drop_first()
    } else {
        rest_of_line(t.drop_first())
    }
}

/// Each text is a line, or a line and what follows its line feed.
proof fn lemma_split_line(t: Seq<char>) -> (l: Seq<char>)
    ensures
        one_line(l),
        t == l || t == l + seq!['\n'] + rest_of_line(t),
    decreases t.len(),
{
    if t.len() == 0 {
        t
    } else if t[0] == '\n' {
        let none = Seq::<char>::empty();
        assert(t =~= none + seq!['\n'] + t.drop_first());
        none
    } else {
        let m = lemma_split_line(t.drop_first());
        let l = seq![t[0]] + m;
        assert(t =~= seq![t[0]] + t.drop_first());
        if t.drop_first() != m {
            assert(t =~= l + seq!['\n'] + rest_of_line(t));
        }
        l
    }
}

/// Behind white space, a marker and white space of the line stands the option.
proof fn lemma_marked(s: Seq<char>, i: int, w: Seq<char>, u: Seq<char>, t: Seq<char>)
    requires
        stands(s, i, w + ("#|"@ + (u + t))),
    ensures
        stands(s, i + width(w) + 2 + width(u), t),
{
    lemma_widths();
    lemma_past(s, i, w, "#|"@ + (u + t));
    lemma_past(s, i + width(w), "#|"@, u + t);
    lemma_past(s, i + width(w) + 2, u, t);
}

/// A document is refused for one of three reasons alone: a quoted option that
/// nothing closes, which is named at the end of the document; a chunk that nothing
/// closes; or a key that two chunks have.
pub proof fn lemma_why_a_document_is_refused(s: Seq<char>, e: Seq<char>)
    requires
        parsed(s) == Err::<(Seq<char>, Seq<ChunkView>), Seq<char>>(e),
    ensures
        ({
            ||| e == "unterminated string literal"@ + " at "@ + label(s, width(s))
            ||| e == "unclosed fenced code block"@
            ||| exists|key: Seq<char>| e == "duplicate chunk key "@ + #[trigger] debug_text(key)
        }),
{
    lemma_ends(s);
    lemma_refusals(s, 0, Seq::empty());
}

proof fn lemma_refusals(s: Seq<char>, i: int, seen: Seq<ChunkView>)
    requires
        boundary(s, i),
    ensures
        chunks_from(s, i, seen) matches Err(e) ==> {
            ||| e == "unterminated string literal"@ + " at "@ + label(s, width(s))
            ||| e == "unclosed fenced code block"@
            ||| exists|key: Seq<char>| e == "duplicate chunk key "@ + #[trigger] debug_text(key)
        },
    decreases width(s) - i,
{
    if let Some(k) = find(tail(s, i), "```r"@) {
        lemma_fence(s, i);
        lemma_chunk_at(s, i + k + 4, seen);
        let start = FrontView { key: None, echo: false, caption: None };
        lemma_option_refusals(s, i + k + 4, start);
        match chunk_at(s, i + k + 4, seen) {
            Ok((chunk, j)) => {
                lemma_refusals(s, j, seen.push(chunk));
            },
            Err(e) => {
                if let Ok((f, a)) = options_at(s, i + k + 4, start) {
                    if code_at(s, a) is Ok {
                        assert(e == "duplicate chunk key "@ + debug_text(f.key->0));
                    }
                }
            },
        }
    }
}

proof fn lemma_option_refusals(s: Seq<char>, i: int, f: FrontView)
    requires
        boundary(s, i),
    ensures
        options_at(s, i, f) matches Err(e) ==> e == "unterminated string literal"@ + " at "@
            + label(s, width(s)),
    decreases width(s) - i,
{
    let a = after_ws(s, i);
    if starts_at(s, a, "#|"@) {
        lemma_option(s, i, f);
        let k = after_inline_ws(s, a + 2);
        if let Ok((g, Reach::Next(j))) = option_at(s, k, f) {
            lemma_option_refusals(s, j, g);
        }
        assert forall|m: int| boundary(s, m) implies (#[trigger] value_at(s, m, '\n') matches Err(
            e,
        ) ==> e == "unterminated string literal"@ + " at "@ + label(s, width(s))) by {
            let r = tail(s, m);
            reveal_strlit("\"");
            lemma_begins(r, "\""@);
            lemma_split(s, m);
            lemma_ends(r);
        }
        lemma_widths();
        if starts_at(s, k, "key:"@) {
            lemma_word(s, k, "key:"@);
            lemma_after_inline_ws(s, k + 4);
        } else if starts_at(s, k, "caption:"@) {
            lemma_word(s, k, "caption:"@);
            lemma_after_inline_ws(s, k + 8);
        }
    }
}

} // verus!
