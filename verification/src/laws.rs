//! What holds of the library as a whole.
use crate::chunk::{output_key, result_of, results_of, ChunkView, OutputView, ResultView};
use crate::directive::{argument_at, codechunk_at, codekey_at, lemma_codekey_at};
use crate::document::{
    chunk_at, chunk_name, chunks_from, code_at, has_key, lemma_chunk_at, lemma_code_at, lemma_fence,
    parsed,
};
use crate::escape::{escaped, lemma_reads_back, Style};
use crate::execution::{combined, r_string, script, script_head, script_middle, script_tail};
use crate::frontmatter::{lemma_options_at, options_at, FrontView};
use crate::literal::quoted_at;
use crate::position::{chars_before, column_after, decimal, digit, label, line_after};
use crate::render::{
    lemma_call, missing_block, rendered, rendered_from, replacement, result_block,
};
use crate::scan::{find, lemma_find, lemma_widths, starts_at};
use crate::shift::{
    lemma_alike_chunk, lemma_alike_chunks, lemma_alike_codekey, lemma_alike_named_chunk,
    lemma_alike_rendered, lemma_alike_ws, lemma_behind, lemma_find_behind,
};
use crate::text::{
    between, boundary, head, lemma_boundary_range, lemma_ends, lemma_join, lemma_join_boundary,
    lemma_split, lemma_tail_tail, tail, width,
};
use crate::whitespace::{after_ws, lemma_after_ws, trimmed_end, white};
use vstd::prelude::*;

verus! {

/// The place that is named for a byte offset is the one behind the text before
/// that offset.
pub proof fn lemma_label_counts_text_before(a: Seq<char>, b: Seq<char>)
    ensures
        label(a + b, width(a)) == "line "@ + decimal(line_after(a)) + ", col "@ + decimal(
            column_after(a),
        ),
{
    lemma_chars_before(a, b);
}

proof fn lemma_chars_before(a: Seq<char>, b: Seq<char>)
    ensures
        chars_before(a + b, width(a)) == a,
    decreases a.len(),
{
    if a.len() == 0 {
        assert(a =~= Seq::empty());
    } else {
        lemma_ends(a);
        assert((a + b).drop_first() =~= a.drop_first() + b);
        lemma_chars_before(a.drop_first(), b);
        assert(seq![a[0]] + a.drop_first() =~= a);
    }
}

/// The number that a decimal notation stands for.
pub open spec fn number(digits: Seq<char>) -> int
    decreases digits.len(),
{
    if digits.len() == 0 {
        0
    } else {
        number(digits.drop_last()) * 10 + (digits.last() as int - 0x30)
    }
}

/// The decimal notation of a number stands for that number.
pub proof fn lemma_decimal_stands_for_number(n: int)
    requires
        n >= 0,
    ensures
        number(decimal(n)) == n,
    decreases n,
{
    if n < 10 {
        assert(decimal(n).drop_last() =~= Seq::empty());
        assert(digit(n) as int == 0x30 + n);
        reveal_with_fuel(number, 2);
    } else {
        lemma_decimal_stands_for_number(n / 10);
        assert(decimal(n).drop_last() =~= decimal(n / 10));
        assert(digit(n % 10) as int == 0x30 + n % 10);
    }
}

/// Chunks without a key that stand at different places have different names.
pub proof fn lemma_numbered_names_differ(a: int, b: int)
    requires
        0 <= a,
        0 <= b,
        a != b,
    ensures
        chunk_name(None, a) != chunk_name(None, b),
{
    lemma_decimal_stands_for_number(a);
    lemma_decimal_stands_for_number(b);
    let p = "chunk_"@;
    if chunk_name(None, a) == chunk_name(None, b) {
        assert((p + decimal(a)).skip(p.len() as int) =~= decimal(a));
        assert((p + decimal(b)).skip(p.len() as int) =~= decimal(b));
    }
}

/// A document in which no chunk starts has no chunks and is left as it is.
pub proof fn lemma_document_without_chunks(s: Seq<char>)
    requires
        find(s, "```r"@) is None,
    ensures
        parsed(s) == Ok::<(Seq<char>, Seq<ChunkView>), Seq<char>>(
            (s, Seq::<ChunkView>::empty()),
        ),
{
    lemma_ends(s);
}

/// No two chunks of a document have one key.
pub open spec fn keys_differ(chunks: Seq<ChunkView>) -> bool {
    forall|a: int, b: int|
        0 <= a < b < chunks.len() && chunks[a].key is Some ==> #[trigger] chunks[a].key
            != #[trigger] chunks[b].key
}

/// Each chunk goes by its key, or else by its number.
pub open spec fn names_follow(chunks: Seq<ChunkView>) -> bool {
    forall|m: int| 0 <= m < chunks.len() ==> (#[trigger] chunks[m]).name == chunk_name(
        chunks[m].key,
        m,
    )
}

/// The code of each chunk holds no three backquotes in a row.
pub open spec fn codes_plain(chunks: Seq<ChunkView>) -> bool {
    forall|m: int|
        0 <= m < chunks.len() ==> find((#[trigger] chunks[m]).code, "```"@) is None
}

/// What holds of the chunks of every document.
pub proof fn lemma_chunks_of_a_document(s: Seq<char>, text: Seq<char>, chunks: Seq<ChunkView>)
    requires
        parsed(s) == Ok::<(Seq<char>, Seq<ChunkView>), Seq<char>>((text, chunks)),
    ensures
        keys_differ(chunks),
        names_follow(chunks),
        codes_plain(chunks),
{
    lemma_chunks_from(s, 0, Seq::empty());
}

proof fn lemma_chunks_from(s: Seq<char>, i: int, seen: Seq<ChunkView>)
    requires
        boundary(s, i),
        keys_differ(seen),
        names_follow(seen),
        codes_plain(seen),
    ensures
        match chunks_from(s, i, seen) {
            Ok((text, all)) => keys_differ(all) && names_follow(all) && codes_plain(all),
            Err(_) => true,
        },
    decreases width(s) - i,
{
    if let Some(k) = find(tail(s, i), "```r"@) {
        lemma_fence(s, i);
        lemma_chunk_at(s, i + k + 4, seen);
        if let Ok((chunk, j)) = chunk_at(s, i + k + 4, seen) {
            let start = FrontView { key: None, echo: false, caption: None };
            lemma_options_at(s, i + k + 4, start);
            if let Ok((f, a)) = options_at(s, i + k + 4, start) {
                lemma_code_plain(s, a);
            }
            let all = seen.push(chunk);
            assert forall|a: int, b: int|
                0 <= a < b < all.len() && all[a].key is Some implies #[trigger] all[a].key
                != #[trigger] all[b].key by {
                if b == seen.len() && all[a].key == all[b].key {
                    assert(seen[a].key == Some(chunk.key->0));
                    assert(has_key(seen, chunk.key->0));
                }
            }
            lemma_chunks_from(s, j, all);
        }
    }
}

proof fn lemma_code_plain(s: Seq<char>, a: int)
    requires
        boundary(s, a),
    ensures
        match code_at(s, a) {
            Ok((code, j)) => find(code, "```"@) is None,
            Err(_) => true,
        },
{
    if let Some(k) = find(tail(s, a), "```"@) {
        reveal_strlit("```");
        lemma_before_first(tail(s, a), "```"@);
    }
}

/// In front of the first occurrence of a word, the word does not occur.
pub proof fn lemma_before_first(r: Seq<char>, word: Seq<char>)
    requires
        word.len() > 0,
        find(r, word) is Some,
    ensures
        find(head(r, find(r, word)->0), word) is None,
{
    let k = find(r, word)->0;
    let p = head(r, k);
    lemma_find(r, word);
    lemma_split(r, k);
    lemma_find(p, word);
    lemma_ends(word);
    if let Some(m) = find(p, word) {
        lemma_join_boundary(p, tail(r, k), m);
        assert(word.is_prefix_of(tail(r, m))) by {
            assert((tail(p, m) + tail(r, k)).subrange(0, word.len() as int) =~= tail(
                p,
                m,
            ).subrange(0, word.len() as int));
        }
        assert(m < k);
        assert(boundary(r, m));
    }
}

/// Where a chunk stands in a document: from its first backquote up to behind its
/// last.
pub struct Span {
    pub start: int,
    pub end: int,
}

/// The document from byte offset `i` on without the parts at `spans`.
pub open spec fn outside(s: Seq<char>, i: int, spans: Seq<Span>) -> Seq<char>
    decreases spans.len(),
{
    if spans.len() == 0 {
        tail(s, i)
    } else {
        between(s, i, spans[0].start) + outside(s, spans[0].end, spans.drop_first())
    }
}

/// Whether the spans follow one another from byte offset `i` on, each starts at
/// the first opening fence behind the one before it, and none is left behind the
/// last.
pub open spec fn in_order(s: Seq<char>, i: int, spans: Seq<Span>) -> bool
    decreases spans.len(),
{
    if spans.len() == 0 {
        find(tail(s, i), "```r"@) is None
    } else {
        &&& i <= spans[0].start
        &&& find(tail(s, i), "```r"@) == Some(spans[0].start - i)
        &&& in_order(s, spans[0].end, spans.drop_first())
    }
}

/// Whether a chunk with the code `code` stands at `span`: fences stand at both
/// ends of it, and the code is what stands before the closing fence from some
/// place behind the opening fence on.
pub open spec fn holds_code(s: Seq<char>, span: Span, code: Seq<char>) -> bool {
    &&& boundary(s, span.start)
    &&& boundary(s, span.end)
    &&& starts_at(s, span.start, "```r"@)
    &&& starts_at(s, span.end - 3, "```"@)
    &&& exists|a: int|
        span.start + 4 <= a <= span.end - 3 && #[trigger] boundary(s, a) && code == between(
            s,
            a,
            span.end - 3,
        )
}

/// What is left of a document is the text outside its chunks, unchanged and in
/// order, and each chunk holds code that stands in the document.
pub proof fn lemma_text_outside_chunks_is_kept(
    s: Seq<char>,
    text: Seq<char>,
    chunks: Seq<ChunkView>,
) -> (spans: Seq<Span>)
    requires
        parsed(s) == Ok::<(Seq<char>, Seq<ChunkView>), Seq<char>>((text, chunks)),
    ensures
        spans.len() == chunks.len(),
        in_order(s, 0, spans),
        text == outside(s, 0, spans),
        forall|m: int|
            0 <= m < chunks.len() ==> holds_code(s, #[trigger] spans[m], chunks[m].code),
{
    let spans = lemma_spans(s, 0, Seq::empty());
    assert(chunks.skip(0) =~= chunks);
    spans
}

proof fn lemma_spans(s: Seq<char>, i: int, seen: Seq<ChunkView>) -> (spans: Seq<Span>)
    requires
        boundary(s, i),
        chunks_from(s, i, seen) is Ok,
    ensures
        ({
            let (text, all) = chunks_from(s, i, seen)->Ok_0;
            &&& seen.len() <= all.len()
            &&& spans.len() == all.len() - seen.len()
            &&& in_order(s, i, spans)
            &&& text == outside(s, i, spans)
            &&& forall|m: int| 0 <= m < seen.len() ==> all[m] == seen[m]
            &&& forall|m: int|
                0 <= m < spans.len() ==> holds_code(
                    s,
                    #[trigger] spans[m],
                    all[seen.len() + m].code,
                )
        }),
    decreases width(s) - i,
{
    match find(tail(s, i), "```r"@) {
        None => Seq::empty(),
        Some(k) => {
            lemma_fence(s, i);
            lemma_chunk_at(s, i + k + 4, seen);
            let (chunk, j) = chunk_at(s, i + k + 4, seen)->Ok_0;
            let rest = lemma_spans(s, j, seen.push(chunk));
            let first = Span { start: i + k, end: j };
            let spans = seq![first] + rest;
            let all = chunks_from(s, i, seen)->Ok_0.1;
            assert(spans.drop_first() =~= rest);
            assert(all[seen.len() as int] == seen.push(chunk)[seen.len() as int]);
            lemma_span_holds_code(s, i, k, seen);
            assert forall|m: int| 0 <= m < spans.len() implies holds_code(
                s,
                #[trigger] spans[m],
                all[seen.len() + m].code,
            ) by {
                if m > 0 {
                    assert(spans[m] == rest[m - 1]);
                }
            }
            assert forall|m: int| 0 <= m < seen.len() implies all[m] == seen[m] by {
                assert(all[m] == seen.push(chunk)[m]);
            }
            spans
        },
    }
}

proof fn lemma_span_holds_code(s: Seq<char>, i: int, k: int, seen: Seq<ChunkView>)
    requires
        boundary(s, i),
        find(tail(s, i), "```r"@) == Some(k),
    ensures
        match chunk_at(s, i + k + 4, seen) {
            Ok((chunk, j)) => holds_code(s, Span { start: i + k, end: j }, chunk.code),
            Err(_) => true,
        },
{
    if let Ok((chunk, j)) = chunk_at(s, i + k + 4, seen) {
        let start = FrontView { key: None, echo: false, caption: None };
        lemma_fence(s, i);
        lemma_find(tail(s, i), "```r"@);
        lemma_boundary_range(tail(s, i), k);
        lemma_tail_tail(s, i, k);
        lemma_options_at(s, i + k + 4, start);
        let a = options_at(s, i + k + 4, start)->Ok_0.1;
        lemma_code_at(s, a);
        lemma_find(tail(s, a), "```"@);
        lemma_boundary_range(tail(s, a), j - 3 - a);
        lemma_tail_tail(s, a, j - 3 - a);
        lemma_boundary_range(s, j);
    }
}

/// A document without calls is left as it is.
pub proof fn lemma_document_without_calls(s: Seq<char>, results: Map<Seq<char>, ResultView>)
    requires
        find(s, "#codekey("@) is None,
    ensures
        rendered(s, results) == Ok::<Seq<char>, Seq<char>>(s),
{
    lemma_ends(s);
}

/// A call in a document: where it stands, and the name in it.
pub struct Call {
    pub start: int,
    pub end: int,
    pub name: Seq<char>,
}

/// The document from byte offset `i` on with its calls replaced.
pub open spec fn filled(
    s: Seq<char>,
    i: int,
    calls: Seq<Call>,
    results: Map<Seq<char>, ResultView>,
) -> Seq<char>
    decreases calls.len(),
{
    if calls.len() == 0 {
        tail(s, i)
    } else {
        between(s, i, calls[0].start) + replacement(calls[0].name, results) + filled(
            s,
            calls[0].end,
            calls.drop_first(),
            results,
        )
    }
}

/// Whether the calls follow one another from byte offset `i` on, each stands at
/// the first place behind the one before it where a call starts and is read as it
/// stands, and none is left behind the last.
pub open spec fn calls_stand(s: Seq<char>, i: int, calls: Seq<Call>) -> bool
    decreases calls.len(),
{
    if calls.len() == 0 {
        find(tail(s, i), "#codekey("@) is None
    } else {
        &&& i <= calls[0].start
        &&& find(tail(s, i), "#codekey("@) == Some(calls[0].start - i)
        &&& codekey_at(s, calls[0].start) == Ok::<(Seq<char>, int), Seq<char>>(
            (calls[0].name, calls[0].end),
        )
        &&& calls_stand(s, calls[0].end, calls.drop_first())
    }
}

/// A document that is rendered keeps the text outside its calls, unchanged and in
/// order, and has the results in place of the calls. Which calls there are does
/// not depend on the results.
pub proof fn lemma_text_outside_calls_is_kept(s: Seq<char>) -> (calls: Seq<Call>)
    ensures
        forall|results: Map<Seq<char>, ResultView>|
            (#[trigger] rendered(s, results) matches Ok(text) ==> text == filled(
                s,
                0,
                calls,
                results,
            ) && calls_stand(s, 0, calls)),
{
    lemma_calls(s, 0)
}

proof fn lemma_calls(s: Seq<char>, i: int) -> (calls: Seq<Call>)
    requires
        boundary(s, i),
    ensures
        forall|results: Map<Seq<char>, ResultView>|
            (#[trigger] rendered_from(s, i, results) matches Ok(text) ==> text == filled(
                s,
                i,
                calls,
                results,
            ) && calls_stand(s, i, calls)),
    decreases width(s) - i,
{
    match find(tail(s, i), "#codekey("@) {
        Some(k) => {
            lemma_call(s, i);
            lemma_codekey_at(s, i + k);
            match codekey_at(s, i + k) {
                Ok((name, j)) => {
                    let rest = lemma_calls(s, j);
                    let calls = seq![Call { start: i + k, end: j, name }] + rest;
                    assert(calls.drop_first() =~= rest);
                    assert forall|results: Map<Seq<char>, ResultView>| (
                    #[trigger] rendered_from(s, i, results) matches Ok(text) ==> text == filled(
                        s,
                        i,
                        calls,
                        results,
                    ) && calls_stand(s, i, calls)) by {
                        let inner = rendered_from(s, j, results);
                    }
                    calls
                },
                Err(_) => Seq::empty(),
            }
        },
        None => Seq::empty(),
    }
}

/// Text without backquotes in front of a document goes through unchanged and
/// changes no chunk; a document that is wrong stays wrong behind it.
pub proof fn lemma_text_before_chunks(p: Seq<char>, d: Seq<char>)
    requires
        forall|k: int| 0 <= k < p.len() ==> #[trigger] p[k] != '`',
    ensures
        match parsed(d) {
            Ok((text, chunks)) => parsed(p + d) == Ok::<(Seq<char>, Seq<ChunkView>), Seq<char>>(
                (p + text, chunks),
            ),
            Err(_) => parsed(p + d) is Err,
        },
{
    let s = p + d;
    let none = Seq::<ChunkView>::empty();
    reveal_strlit("```r");
    lemma_find_behind(p, d, "```r"@);
    lemma_ends(d);
    lemma_ends(s);
    if let Some(k) = find(d, "```r"@) {
        lemma_fence(d, 0);
        lemma_behind(p, d, k);
        lemma_behind(p, d, k + 4);
        lemma_alike_chunk(d, k + 4, s, width(p) + k + 4, none);
        lemma_chunk_at(d, k + 4, none);
        if let Ok((chunk, j)) = chunk_at(d, k + 4, none) {
            lemma_alike_chunks(d, j, s, width(p) + j, none.push(chunk));
            if let Ok((text, all)) = chunks_from(d, j, none.push(chunk)) {
                assert(p + between(d, 0, k) + text =~= p + (between(d, 0, k) + text));
            }
        }
    }
}

/// Text without number signs in front of a document is rendered as itself, in
/// front of what the document is rendered as; a document that is wrong stays wrong
/// behind it.
pub proof fn lemma_text_before_calls(
    p: Seq<char>,
    d: Seq<char>,
    results: Map<Seq<char>, ResultView>,
)
    requires
        forall|k: int| 0 <= k < p.len() ==> #[trigger] p[k] != '#',
    ensures
        match rendered(d, results) {
            Ok(text) => rendered(p + d, results) == Ok::<Seq<char>, Seq<char>>(p + text),
            Err(_) => rendered(p + d, results) is Err,
        },
{
    let s = p + d;
    reveal_strlit("#codekey(");
    lemma_find_behind(p, d, "#codekey("@);
    lemma_ends(d);
    lemma_ends(s);
    if let Some(k) = find(d, "#codekey("@) {
        lemma_call(d, 0);
        lemma_behind(p, d, k);
        lemma_behind(p, d, k + 9);
        lemma_alike_codekey(d, k, s, width(p) + k);
        lemma_codekey_at(d, k);
        if let Ok((name, j)) = codekey_at(d, k) {
            lemma_alike_rendered(d, j, s, width(p) + j, results);
            if let Ok(rest) = rendered_from(d, j, results) {
                let shown = replacement(name, results);
                assert(p + between(d, 0, k) + shown + rest =~= p + (between(d, 0, k) + shown
                    + rest));
            }
        }
    }
}

/// Whether a text holds neither a double quote nor a backslash.
pub open spec fn unquoted(l: Seq<char>) -> bool {
    forall|k: int| 0 <= k < l.len() ==> #[trigger] l[k] != '"' && l[k] != '\\'
}

/// The text with a `#codechunk` whose language is `l`, between `before` and
/// `rest`.
pub open spec fn with_language(before: Seq<char>, l: Seq<char>, rest: Seq<char>) -> Seq<char> {
    before + "#codechunk(\""@ + l + "\""@ + rest
}

/// The language of a `#codechunk` is read and has no influence: with another
/// language the same chunk is read, or none.
pub proof fn lemma_language_has_no_influence(
    before: Seq<char>,
    l1: Seq<char>,
    l2: Seq<char>,
    rest: Seq<char>,
)
    requires
        unquoted(l1),
        unquoted(l2),
    ensures
        match codechunk_at(with_language(before, l1, rest), width(before)) {
            Ok((chunk, e)) => codechunk_at(with_language(before, l2, rest), width(before)) == Ok::<
                (ChunkView, int),
                Seq<char>,
            >((chunk, e - width(l1) + width(l2))),
            Err(_) => codechunk_at(with_language(before, l2, rest), width(before)) is Err,
        },
{
    let s = with_language(before, l1, rest);
    let t = with_language(before, l2, rest);
    let start = width(before) + 11;
    lemma_language_stands(before, l1, rest);
    lemma_language_stands(before, l2, rest);
    let i = start + width(l1) + 2;
    let j = start + width(l2) + 2;
    lemma_alike_ws(s, i, t, j);
    lemma_alike_named_chunk(s, after_ws(s, i), t, after_ws(t, j));
}

/// The language of a `#codechunk` is read as it stands.
proof fn lemma_language_stands(before: Seq<char>, l: Seq<char>, rest: Seq<char>)
    requires
        unquoted(l),
    ensures
        ({
            let s = with_language(before, l, rest);
            let start = width(before) + 11;
            let i = start + width(l) + 2;
            &&& boundary(s, i)
            &&& tail(s, i) == rest
            &&& argument_at(s, start) == Ok::<(Seq<char>, int), Seq<char>>((l, after_ws(s, i)))
        }),
{
    let s = with_language(before, l, rest);
    let call = "#codechunk("@;
    let q = seq!['"'];
    let string = q + l + q + rest;
    lemma_call_words();
    lemma_widths();
    lemma_written_as_itself(l);
    lemma_join(before, call);
    assert(s =~= (before + call) + q + l + q + rest) by {
        assert("#codechunk(\""@ =~= call + q);
    }
    lemma_reads_back(Style::TypstString, before + call, l, rest);
    assert(s =~= (before + call) + string);
    lemma_join(before + call, string);
    lemma_after_ws(s, width(before) + 11);
    lemma_ends(string);
    assert(after_ws(s, width(before) + 11) == width(before) + 11) by {
        assert(!white(string[0]));
        lemma_split(s, width(before) + 11);
    }
    assert(string =~= (q + l + q) + rest);
    lemma_join(q, l);
    lemma_join(q + l, q);
    lemma_join(q + l + q, rest);
    lemma_tail_tail(s, width(before) + 11, width(l) + 2);
}

/// The words around the language end with a quote.
proof fn lemma_call_words()
    ensures
        "#codechunk(\""@ == "#codechunk("@ + seq!['"'],
        "\""@ == seq!['"'],
{
    reveal_strlit("#codechunk(\"");
    reveal_strlit("#codechunk(");
    reveal_strlit("\"");
    assert("#codechunk(\""@ =~= "#codechunk("@ + seq!['"']);
    assert("\""@ =~= seq!['"']);
}

proof fn lemma_written_as_itself(l: Seq<char>)
    requires
        unquoted(l),
    ensures
        escaped(Style::TypstString, l) == l,
    decreases l.len(),
{
    if l.len() > 0 {
        let m = l.drop_first();
        assert forall|k: int| 0 <= k < m.len() implies #[trigger] m[k] != '"' && m[k] != '\\' by {
            assert(m[k] == l[k + 1]);
        }
        lemma_written_as_itself(m);
        assert(seq![l[0]] + m =~= l);
    } else {
        assert(l =~= Seq::empty());
    }
}

/// A chunk that no later chunk shares its output key with has its result under
/// that key, and a call with that key shows it.
pub proof fn lemma_result_of_last_chunk(
    chunks: Seq<ChunkView>,
    outputs: Seq<OutputView>,
    m: int,
)
    requires
        0 <= m < outputs.len() <= chunks.len(),
        forall|k: int|
            m < k < outputs.len() ==> output_key(#[trigger] chunks[k]) != output_key(chunks[m]),
    ensures
        results_of(chunks, outputs).contains_key(output_key(chunks[m])),
        results_of(chunks, outputs)[output_key(chunks[m])] == result_of(chunks[m], outputs[m]),
        replacement(output_key(chunks[m]), results_of(chunks, outputs)) == result_block(
            output_key(chunks[m]),
            result_of(chunks[m], outputs[m]),
        ),
    decreases outputs.len(),
{
    if m < outputs.len() - 1 {
        assert(output_key(chunks[outputs.len() - 1]) != output_key(chunks[m]));
        lemma_result_of_last_chunk(chunks, outputs.drop_last(), m);
    }
}

/// Nothing stands under a name that is the output key of no chunk, and a call with
/// that name shows that the chunk is missing.
pub proof fn lemma_no_result_without_chunk(
    chunks: Seq<ChunkView>,
    outputs: Seq<OutputView>,
    name: Seq<char>,
)
    requires
        outputs.len() <= chunks.len(),
        forall|k: int| 0 <= k < outputs.len() ==> output_key(#[trigger] chunks[k]) != name,
    ensures
        !results_of(chunks, outputs).contains_key(name),
        replacement(name, results_of(chunks, outputs)) == missing_block(name),
    decreases outputs.len(),
{
    if outputs.len() > 0 {
        assert(output_key(chunks[outputs.len() - 1]) != name);
        lemma_no_result_without_chunk(chunks, outputs.drop_last(), name);
    }
}

/// The R script holds the path of the plot and the code as strings that read
/// back as the path and the code.
pub proof fn lemma_script_holds_path_and_code(code: Seq<char>, plot_path: Seq<char>)
    ensures
        quoted_at(script(code, plot_path), width(script_head())) matches Ok((path, _)) && path
            == plot_path,
        quoted_at(
            script(code, plot_path),
            width(script_head() + r_string(plot_path) + script_middle()),
        ) matches Ok((text, _)) && text == code,
{
    let q = seq!['"'];
    reveal_strlit("\"");
    assert("\""@ =~= q);
    let p = escaped(Style::RString, plot_path);
    let c = escaped(Style::RString, code);
    let rest = script_middle() + r_string(code) + script_tail();
    lemma_reads_back(Style::RString, script_head(), plot_path, rest);
    assert(script(code, plot_path) =~= script_head() + q + p + q + rest);
    let before = script_head() + r_string(plot_path) + script_middle();
    lemma_reads_back(Style::RString, before, code, script_tail());
    assert(script(code, plot_path) =~= before + q + c + q + script_tail());
}

/// Joined streams do not end with white space.
pub proof fn lemma_combined_ends_plainly(stdout: Seq<char>, stderr: Seq<char>)
    ensures
        trimmed_end(combined(stdout, stderr)) == combined(stdout, stderr),
{
    lemma_trimmed_end_plain(stdout);
    lemma_trimmed_end_plain(stderr);
    let c = combined(stdout, stderr);
    let b = trimmed_end(stderr);
    if trimmed_end(stdout).len() > 0 && b.len() > 0 {
        assert(c.last() == b.last());
    }
}

proof fn lemma_trimmed_end_plain(s: Seq<char>)
    ensures
        trimmed_end(s).len() > 0 ==> !white(trimmed_end(s).last()),
        trimmed_end(trimmed_end(s)) == trimmed_end(s),
    decreases s.len(),
{
    if s.len() > 0 && white(s.last()) {
        lemma_trimmed_end_plain(s.drop_last());
    }
}

} // verus!
