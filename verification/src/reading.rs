//! How the options of a chunk are read, one after the other, wherever the chunk
//! stands.
use crate::forms::{lemma_past, stands};
use crate::frontmatter::{behind_value, lemma_option, options_at, setting_at, FrontView};
use crate::literal::{escaped_body, quoted_at, quoted_body};
use crate::scan::{find, lemma_widths, plain_end};
use crate::shift::lemma_find_behind;
use crate::spelling::{
    lemma_ends_taken_off, lemma_line_ends, lemma_line_space_is_skipped, lemma_plain_text_ends,
    lemma_white_space_is_skipped,
};
use crate::text::{between, head, lemma_ends, lemma_split, tail, width};
use crate::whitespace::{after_inline_ws, after_ws, trimmed, white};
use vstd::prelude::*;

verus! {

/// Whether a text is white space of one line.
pub open spec fn within_line(w: Seq<char>) -> bool {
    forall|k: int| 0 <= k < w.len() ==> white(#[trigger] w[k]) && w[k] != '\n'
}

/// Whether a text is white space.
pub open spec fn all_white(w: Seq<char>) -> bool {
    forall|k: int| 0 <= k < w.len() ==> white(#[trigger] w[k])
}

/// Whether a text holds no line feed.
pub open spec fn one_line(t: Seq<char>) -> bool {
    forall|k: int| 0 <= k < t.len() ==> #[trigger] t[k] != '\n'
}

/// Whether `t` starts with `word`, character by character.
pub open spec fn begins(t: Seq<char>, word: Seq<char>) -> bool {
    word.len() <= t.len() && forall|k: int| 0 <= k < word.len() ==> #[trigger] t[k] == word[k]
}

/// Starting with a word and being read as starting with it are one.
pub(crate) proof fn lemma_begins(t: Seq<char>, word: Seq<char>)
    ensures
        word.is_prefix_of(t) == begins(t, word),
{
    if begins(t, word) {
        assert(t.subrange(0, word.len() as int) =~= word);
    }
    if word.is_prefix_of(t) {
        assert forall|k: int| 0 <= k < word.len() implies #[trigger] t[k] == word[k] by {
            assert(t.subrange(0, word.len() as int)[k] == t[k]);
        }
    }
}

/// White space of the line is passed over wherever it stands.
pub(crate) proof fn lemma_line_space_at(s: Seq<char>, i: int, w: Seq<char>, t: Seq<char>)
    requires
        stands(s, i, w + t),
        within_line(w),
        t.len() > 0 ==> !white(t[0]) || t[0] == '\n',
    ensures
        after_inline_ws(s, i) == i + width(w),
        stands(s, i + width(w), t),
{
    lemma_split(s, i);
    lemma_line_space_is_skipped(head(s, i), w, t);
    assert(s =~= head(s, i) + w + t);
}

/// White space is passed over wherever it stands.
pub(crate) proof fn lemma_white_space_at(s: Seq<char>, i: int, w: Seq<char>, t: Seq<char>)
    requires
        stands(s, i, w + t),
        all_white(w),
        t.len() > 0 ==> !white(t[0]),
    ensures
        after_ws(s, i) == i + width(w),
        stands(s, i + width(w), t),
{
    lemma_split(s, i);
    lemma_white_space_is_skipped(head(s, i), w, t, 0);
    assert(s =~= head(s, i) + w + t);
}

/// A quoted string is read as what it is read as alone, whatever stands around it.
pub proof fn lemma_quoted_anywhere(
    s: Seq<char>,
    i: int,
    q: Seq<char>,
    v: Seq<char>,
    r: Seq<char>,
)
    requires
        quoted_at(q, 0) == Ok::<(Seq<char>, int), Seq<char>>((v, width(q))),
        stands(s, i, q + r),
    ensures
        quoted_at(s, i) == Ok::<(Seq<char>, int), Seq<char>>((v, i + width(q))),
        stands(s, i + width(q), r),
        q.len() > 0,
        q[0] == '"',
{
    lemma_ends(q);
    lemma_past(s, i, q, r);
    lemma_body_alone(q.drop_first(), r);
    assert((q + r).drop_first() =~= q.drop_first() + r);
    lemma_ends(q + r);
    lemma_split(s, i);
}

proof fn lemma_body_alone(x: Seq<char>, r: Seq<char>)
    ensures
        quoted_body(x) is Some ==> quoted_body(x + r) == quoted_body(x),
        escaped_body(x) is Some ==> escaped_body(x + r) == escaped_body(x),
    decreases x.len(),
{
    if x.len() > 0 {
        lemma_body_alone(x.drop_first(), r);
        assert((x + r).drop_first() =~= x.drop_first() + r);
    }
}

/// Behind a value, a marker on the same line is where reading goes on.
pub proof fn lemma_next_marker(s: Seq<char>, j: int, u: Seq<char>, r: Seq<char>)
    requires
        stands(s, j, u + ("#|"@ + r)),
        within_line(u),
    ensures
        behind_value(s, j) == j + width(u),
{
    reveal_strlit("#|");
    lemma_line_space_at(s, j, u, "#|"@ + r);
    lemma_begins("#|"@ + r, "#|"@);
}

/// Behind a value, text that no marker starts is passed over with its line feed; up
/// to three backquotes that stand in front of the line feed; or to the end.
pub proof fn lemma_rest_of_line(
    s: Seq<char>,
    j: int,
    u: Seq<char>,
    v: Seq<char>,
    rest: Seq<char>,
)
    requires
        within_line(u),
        one_line(v),
        v.len() > 0 ==> !white(v[0]),
        v.len() >= 2 ==> !(v[0] == '#' && v[1] == '|'),
        forall|k: int|
            0 <= k <= v.len() - 3 ==> !(#[trigger] v[k] == '`' && v[k + 1] == '`' && v[k + 2]
                == '`'),
    ensures
        stands(s, j, u + v + seq!['\n'] + rest) ==> behind_value(s, j) == j + width(u + v) + 1,
        stands(s, j, u + v) ==> behind_value(s, j) == width(s),
        stands(s, j, u + v + seq!['`', '`', '`'] + rest) && (v.len() > 0 ==> v.last() != '`')
            ==> behind_value(s, j) == j + width(u + v),
{
    let t = u + v;
    reveal_strlit("#|");
    assert forall|k: int| 0 <= k < t.len() implies #[trigger] t[k] != '\n' by {
        if k < u.len() {
            assert(t[k] == u[k]);
        } else {
            assert(t[k] == v[k - u.len()]);
        }
    }
    assert forall|k: int| 0 <= k < u.len() implies u[k] != '`' by {
        assert(white(u[k]));
    }
    assert forall|k: int| 0 <= k <= t.len() - 3 implies !(#[trigger] t[k] == '`' && t[k + 1] == '`'
        && t[k + 2] == '`') by {
        if k < u.len() {
            assert(t[k] == u[k]);
        } else {
            assert(t[k] == v[k - u.len()]);
            assert(t[k + 1] == v[k + 1 - u.len()]);
            assert(t[k + 2] == v[k + 2 - u.len()]);
        }
    }
    lemma_line_ends(t, rest);
    let a = v + seq!['\n'] + rest;
    let f = v + seq!['`', '`', '`'] + rest;
    lemma_begins(a, "#|"@);
    lemma_begins(v, "#|"@);
    lemma_begins(f, "#|"@);
    if begins(a, "#|"@) {
        assert(a[0] == '#' && a[1] == '|');
        if v.len() == 0 {
            assert(a[0] == '\n');
        } else if v.len() == 1 {
            assert(a[1] == '\n');
        }
    }
    if begins(v, "#|"@) {
        assert(v[0] == "#|"@[0] && v[1] == "#|"@[1]);
    }
    if begins(f, "#|"@) {
        assert(f[0] == '#' && f[1] == '|');
        if v.len() == 0 {
            assert(f[0] == '`');
        } else if v.len() == 1 {
            assert(f[1] == '`');
        }
    }
    if stands(s, j, t + seq!['\n'] + rest) {
        assert(t + seq!['\n'] + rest =~= u + a);
        lemma_line_space_at(s, j, u, a);
    }
    if stands(s, j, t) {
        lemma_line_space_at(s, j, u, v);
        lemma_split(s, j);
    }
    if stands(s, j, t + seq!['`', '`', '`'] + rest) && (v.len() > 0 ==> v.last() != '`') {
        assert(t + seq!['`', '`', '`'] + rest =~= u + f);
        lemma_line_space_at(s, j, u, f);
        if t.len() > 0 {
            if v.len() > 0 {
                assert(t.last() == v.last());
            } else {
                assert(t.last() == u[u.len() - 1]);
            }
        }
    }
}

/// A plain value reaches up to its stop, without the white space at its end.
pub(crate) proof fn lemma_plain_value(
    s: Seq<char>,
    i: int,
    core: Seq<char>,
    e: Seq<char>,
    stop: char,
    rest: Seq<char>,
)
    requires
        stop == '\n' || stop == ')',
        core.len() > 0 ==> !white(core[0]) && !white(core.last()),
        all_white(e),
        forall|k: int| 0 <= k < core.len() ==> #[trigger] core[k] != stop,
        forall|k: int| 0 <= k < e.len() ==> #[trigger] e[k] != stop,
        stands(s, i, core + e + seq![stop] + rest) || stands(s, i, core + e),
    ensures
        plain_end(tail(s, i), stop) == width(core + e),
        trimmed(between(s, i, i + width(core + e))) == core,
{
    let t = core + e;
    let none = Seq::<char>::empty();
    assert forall|k: int| 0 <= k < t.len() implies #[trigger] t[k] != stop by {
        if k < core.len() {
            assert(t[k] == core[k]);
        } else {
            assert(t[k] == e[k - core.len()]);
        }
    }
    lemma_plain_text_ends(t, stop, rest);
    lemma_ends_taken_off(none, core, e);
    assert(none + core + e =~= t);
    if stands(s, i, t + seq![stop] + rest) {
        assert(t + seq![stop] + rest =~= t + (seq![stop] + rest));
        lemma_past(s, i, t, seq![stop] + rest);
    } else {
        assert(t + none =~= t);
        lemma_past(s, i, t, none);
    }
}

pub(crate) proof fn lemma_no_quote(t: Seq<char>)
    ensures
        "\""@.is_prefix_of(t) <==> t.len() > 0 && t[0] == '"',
        "["@.is_prefix_of(t) <==> t.len() > 0 && t[0] == '[',
        ")"@.is_prefix_of(t) <==> t.len() > 0 && t[0] == ')',
{
    reveal_strlit("\"");
    reveal_strlit("[");
    reveal_strlit(")");
    lemma_begins(t, "\""@);
    lemma_begins(t, "["@);
    lemma_begins(t, ")"@);
}

proof fn lemma_option_names(r: Seq<char>)
    ensures
        "key:"@.is_prefix_of("key:"@ + r),
        "echo:"@.is_prefix_of("echo:"@ + r),
        "caption:"@.is_prefix_of("caption:"@ + r),
        !"key:"@.is_prefix_of("echo:"@ + r),
        !"key:"@.is_prefix_of("caption:"@ + r),
        !"echo:"@.is_prefix_of("caption:"@ + r),
        "true"@.is_prefix_of("true"@ + r),
        "false"@.is_prefix_of("false"@ + r),
        !"true"@.is_prefix_of("false"@ + r),
{
    reveal_strlit("key:");
    reveal_strlit("echo:");
    reveal_strlit("caption:");
    reveal_strlit("true");
    reveal_strlit("false");
    lemma_begins("key:"@ + r, "key:"@);
    lemma_begins("echo:"@ + r, "echo:"@);
    lemma_begins("caption:"@ + r, "caption:"@);
    lemma_begins("true"@ + r, "true"@);
    lemma_begins("false"@ + r, "false"@);
    lemma_begins("echo:"@ + r, "key:"@);
    lemma_begins("caption:"@ + r, "key:"@);
    lemma_begins("caption:"@ + r, "echo:"@);
    lemma_begins("false"@ + r, "true"@);
    let e = "echo:"@ + r;
    let c = "caption:"@ + r;
    let f = "false"@ + r;
    if begins(e, "key:"@) {
        assert(e[0] == "key:"@[0]);
    }
    if begins(c, "key:"@) {
        assert(c[0] == "key:"@[0]);
    }
    if begins(c, "echo:"@) {
        assert(c[0] == "echo:"@[0]);
    }
    if begins(f, "true"@) {
        assert(f[0] == "true"@[0]);
    }
}

/// The option `key` sets the key to its value and nothing else: to plain text up to
/// the end of the line, or to what stands between quotes.
pub proof fn lemma_key_is_set(
    s: Seq<char>,
    i: int,
    u: Seq<char>,
    value: Seq<char>,
    v: Seq<char>,
    e: Seq<char>,
    q: Seq<char>,
    rest: Seq<char>,
    f: FrontView,
)
    requires
        within_line(u),
        within_line(e),
        one_line(value),
        value.len() > 0 ==> !white(value[0]) && !white(value.last()) && value[0] != '"',
        value.len() == 0 ==> e.len() == 0,
    ensures
        stands(s, i, "key:"@ + (u + (value + e + seq!['\n'] + rest))) || stands(
            s,
            i,
            "key:"@ + (u + (value + e)),
        ) ==> setting_at(s, i, f) == Some(
            Ok::<(FrontView, int), Seq<char>>(
                (
                    FrontView { key: Some(value), echo: f.echo, caption: f.caption },
                    i + 4 + width(u) + width(value + e),
                ),
            ),
        ),
        stands(s, i, "key:"@ + (u + (q + rest))) && quoted_at(q, 0) == Ok::<
            (Seq<char>, int),
            Seq<char>,
        >((v, width(q))) ==> setting_at(s, i, f) == Some(
            Ok::<(FrontView, int), Seq<char>>(
                (
                    FrontView { key: Some(v), echo: f.echo, caption: f.caption },
                    i + 4 + width(u) + width(q),
                ),
            ),
        ),
{
    lemma_widths();
    let long = value + e + seq!['\n'] + rest;
    let short = value + e;
    lemma_option_names(u + long);
    lemma_option_names(u + short);
    lemma_option_names(u + (q + rest));
    lemma_no_quote(long);
    lemma_no_quote(short);
    lemma_no_quote(q + rest);
    if stands(s, i, "key:"@ + (u + long)) {
        lemma_past(s, i, "key:"@, u + long);
        assert(value.len() == 0 ==> long[0] == '\n');
        assert(value.len() > 0 ==> long[0] == value[0]);
        lemma_line_space_at(s, i + 4, u, long);
        lemma_plain_value(s, i + 4 + width(u), value, e, '\n', rest);
    }
    if stands(s, i, "key:"@ + (u + short)) {
        lemma_past(s, i, "key:"@, u + short);
        assert(value.len() > 0 ==> short[0] == value[0]);
        lemma_line_space_at(s, i + 4, u, short);
        lemma_plain_value(s, i + 4 + width(u), value, e, '\n', rest);
    }
    if stands(s, i, "key:"@ + (u + (q + rest))) && quoted_at(q, 0) == Ok::<
        (Seq<char>, int),
        Seq<char>,
    >((v, width(q))) {
        lemma_past(s, i, "key:"@, u + (q + rest));
        lemma_ends(q);
        assert((q + rest)[0] == q[0]);
        lemma_line_space_at(s, i + 4, u, q + rest);
        lemma_quoted_anywhere(s, i + 4 + width(u), q, v, rest);
    }
}

/// The option `echo` is set by `true` and unset by `false`, and set by anything
/// else, and nothing else is changed.
pub proof fn lemma_echo_is_set(
    s: Seq<char>,
    i: int,
    u: Seq<char>,
    rest: Seq<char>,
    f: FrontView,
)
    requires
        within_line(u),
    ensures
        stands(s, i, "echo:"@ + (u + ("true"@ + rest))) ==> setting_at(s, i, f) == Some(
            Ok::<(FrontView, int), Seq<char>>(
                (
                    FrontView { key: f.key, echo: true, caption: f.caption },
                    i + 5 + width(u) + 4,
                ),
            ),
        ),
        stands(s, i, "echo:"@ + (u + ("false"@ + rest))) ==> setting_at(s, i, f) == Some(
            Ok::<(FrontView, int), Seq<char>>(
                (
                    FrontView { key: f.key, echo: false, caption: f.caption },
                    i + 5 + width(u) + 5,
                ),
            ),
        ),
        stands(s, i, "echo:"@ + (u + rest)) && (rest.len() > 0 ==> !white(rest[0]) || rest[0]
            == '\n') && !begins(rest, "true"@) && !begins(rest, "false"@) ==> setting_at(s, i, f)
            == Some(
            Ok::<(FrontView, int), Seq<char>>(
                (FrontView { key: f.key, echo: true, caption: f.caption }, i + 5),
            ),
        ),
{
    lemma_widths();
    reveal_strlit("true");
    reveal_strlit("false");
    lemma_option_names(u + ("true"@ + rest));
    lemma_option_names(u + ("false"@ + rest));
    lemma_option_names(u + rest);
    lemma_option_names(rest);
    lemma_begins(rest, "true"@);
    lemma_begins(rest, "false"@);
    if stands(s, i, "echo:"@ + (u + ("true"@ + rest))) {
        lemma_past(s, i, "echo:"@, u + ("true"@ + rest));
        lemma_line_space_at(s, i + 5, u, "true"@ + rest);
    }
    if stands(s, i, "echo:"@ + (u + ("false"@ + rest))) {
        lemma_past(s, i, "echo:"@, u + ("false"@ + rest));
        lemma_line_space_at(s, i + 5, u, "false"@ + rest);
    }
    if stands(s, i, "echo:"@ + (u + rest)) && (rest.len() > 0 ==> !white(rest[0]) || rest[0]
        == '\n') {
        lemma_past(s, i, "echo:"@, u + rest);
        lemma_line_space_at(s, i + 5, u, rest);
    }
}

/// The option `caption` sets the caption to what stands between square brackets,
/// and nothing else is changed; where nothing closes the bracket, the caption stays
/// as it was.
pub proof fn lemma_bracketed_caption_is_set(
    s: Seq<char>,
    i: int,
    u: Seq<char>,
    c: Seq<char>,
    rest: Seq<char>,
    f: FrontView,
)
    requires
        within_line(u),
        forall|k: int| 0 <= k < c.len() ==> #[trigger] c[k] != ']',
    ensures
        stands(s, i, "caption:"@ + (u + (seq!['['] + (c + (seq![']'] + rest))))) ==> setting_at(
            s,
            i,
            f,
        ) == Some(
            Ok::<(FrontView, int), Seq<char>>(
                (
                    FrontView { key: f.key, echo: f.echo, caption: Some(c) },
                    i + 8 + width(u) + 1 + width(c) + 1,
                ),
            ),
        ),
        stands(s, i, "caption:"@ + (u + (seq!['['] + c))) ==> setting_at(s, i, f) == Some(
            Ok::<(FrontView, int), Seq<char>>((f, i + 8 + width(u) + 1)),
        ),
{
    lemma_widths();
    reveal_strlit("]");
    reveal_strlit("[");
    let none = Seq::<char>::empty();
    let closed = seq!['['] + (c + (seq![']'] + rest));
    let open = seq!['['] + c;
    lemma_option_names(u + closed);
    lemma_option_names(u + open);
    lemma_no_quote(closed);
    lemma_no_quote(open);
    assert("["@ =~= seq!['[']);
    assert("]"@ =~= seq![']']);
    lemma_find_behind(c, seq![']'] + rest, "]"@);
    lemma_find_behind(c, none, "]"@);
    assert(c + none =~= c);
    lemma_begins(seq![']'] + rest, "]"@);
    assert(find(seq![']'] + rest, "]"@) == Some(0int));
    assert(find(none, "]"@) is None);
    if stands(s, i, "caption:"@ + (u + closed)) {
        lemma_past(s, i, "caption:"@, u + closed);
        lemma_line_space_at(s, i + 8, u, closed);
        lemma_past(s, i + 8 + width(u), "["@, c + (seq![']'] + rest));
        lemma_past(s, i + 8 + width(u) + 1, c, seq![']'] + rest);
    }
    if stands(s, i, "caption:"@ + (u + open)) {
        lemma_past(s, i, "caption:"@, u + open);
        lemma_line_space_at(s, i + 8, u, open);
        lemma_past(s, i + 8 + width(u), "["@, c);
    }
}

/// The option `caption` sets the caption to plain text up to the end of the line, or
/// to what stands between quotes, and nothing else is changed.
pub proof fn lemma_caption_is_set(
    s: Seq<char>,
    i: int,
    u: Seq<char>,
    value: Seq<char>,
    v: Seq<char>,
    e: Seq<char>,
    q: Seq<char>,
    rest: Seq<char>,
    f: FrontView,
)
    requires
        within_line(u),
        within_line(e),
        one_line(value),
        value.len() > 0 ==> !white(value[0]) && !white(value.last()) && value[0] != '"' && value[0]
            != '[',
        value.len() == 0 ==> e.len() == 0,
    ensures
        stands(s, i, "caption:"@ + (u + (value + e + seq!['\n'] + rest))) || stands(
            s,
            i,
            "caption:"@ + (u + (value + e)),
        ) ==> setting_at(s, i, f) == Some(
            Ok::<(FrontView, int), Seq<char>>(
                (
                    FrontView { key: f.key, echo: f.echo, caption: Some(value) },
                    i + 8 + width(u) + width(value + e),
                ),
            ),
        ),
        stands(s, i, "caption:"@ + (u + (q + rest))) && quoted_at(q, 0) == Ok::<
            (Seq<char>, int),
            Seq<char>,
        >((v, width(q))) ==> setting_at(s, i, f) == Some(
            Ok::<(FrontView, int), Seq<char>>(
                (
                    FrontView { key: f.key, echo: f.echo, caption: Some(v) },
                    i + 8 + width(u) + width(q),
                ),
            ),
        ),
{
    lemma_widths();
    let long = value + e + seq!['\n'] + rest;
    let short = value + e;
    lemma_option_names(u + long);
    lemma_option_names(u + short);
    lemma_option_names(u + (q + rest));
    lemma_no_quote(long);
    lemma_no_quote(short);
    lemma_no_quote(q + rest);
    if stands(s, i, "caption:"@ + (u + long)) {
        lemma_past(s, i, "caption:"@, u + long);
        assert(value.len() == 0 ==> long[0] == '\n');
        assert(value.len() > 0 ==> long[0] == value[0]);
        lemma_line_space_at(s, i + 8, u, long);
        lemma_plain_value(s, i + 8 + width(u), value, e, '\n', rest);
    }
    if stands(s, i, "caption:"@ + (u + short)) {
        lemma_past(s, i, "caption:"@, u + short);
        assert(value.len() > 0 ==> short[0] == value[0]);
        lemma_line_space_at(s, i + 8, u, short);
        lemma_plain_value(s, i + 8 + width(u), value, e, '\n', rest);
    }
    if stands(s, i, "caption:"@ + (u + (q + rest))) && quoted_at(q, 0) == Ok::<
        (Seq<char>, int),
        Seq<char>,
    >((v, width(q))) {
        lemma_past(s, i, "caption:"@, u + (q + rest));
        lemma_ends(q);
        assert((q + rest)[0] == q[0]);
        lemma_line_space_at(s, i + 8, u, q + rest);
        lemma_quoted_anywhere(s, i + 8 + width(u), q, v, rest);
    }
}

/// A quoted key or caption that nothing closes is refused with the message of the
/// string, and what is no known option sets nothing.
pub proof fn lemma_nothing_is_set(
    s: Seq<char>,
    i: int,
    u: Seq<char>,
    t: Seq<char>,
    f: FrontView,
)
    requires
        within_line(u),
    ensures
        t.len() > 0 && t[0] == '"' && stands(s, i, "key:"@ + (u + t)) ==> (match quoted_at(
            s,
            i + 4 + width(u),
        ) {
            Err(e) => setting_at(s, i, f) == Some(Err::<(FrontView, int), Seq<char>>(e)),
            Ok(_) => setting_at(s, i, f) matches Some(Ok(_)),
        }),
        t.len() > 0 && t[0] == '"' && stands(s, i, "caption:"@ + (u + t)) ==> (match quoted_at(
            s,
            i + 8 + width(u),
        ) {
            Err(e) => setting_at(s, i, f) == Some(Err::<(FrontView, int), Seq<char>>(e)),
            Ok(_) => setting_at(s, i, f) matches Some(Ok(_)),
        }),
        stands(s, i, t) && !begins(t, "key:"@) && !begins(t, "echo:"@) && !begins(t, "caption:"@)
            ==> setting_at(s, i, f) is None,
{
    lemma_widths();
    lemma_option_names(u + t);
    lemma_no_quote(t);
    lemma_begins(t, "key:"@);
    lemma_begins(t, "echo:"@);
    lemma_begins(t, "caption:"@);
    if t.len() > 0 && t[0] == '"' && stands(s, i, "key:"@ + (u + t)) {
        lemma_past(s, i, "key:"@, u + t);
        lemma_line_space_at(s, i + 4, u, t);
    }
    if t.len() > 0 && t[0] == '"' && stands(s, i, "caption:"@ + (u + t)) {
        lemma_past(s, i, "caption:"@, u + t);
        lemma_line_space_at(s, i + 8, u, t);
    }
}

/// The options end in front of the first thing that no marker stands before, and
/// the code starts there.
pub proof fn lemma_options_end(s: Seq<char>, i: int, w: Seq<char>, t: Seq<char>, f: FrontView)
    requires
        stands(s, i, w + t),
        all_white(w),
        t.len() > 0 ==> !white(t[0]),
        t.len() >= 2 ==> !(t[0] == '#' && t[1] == '|'),
    ensures
        options_at(s, i, f) == Ok::<(FrontView, int), Seq<char>>((f, i + width(w))),
{
    reveal_strlit("#|");
    lemma_white_space_at(s, i, w, t);
    lemma_begins(t, "#|"@);
    if begins(t, "#|"@) {
        assert(t[0] == "#|"@[0] && t[1] == "#|"@[1]);
    }
}

/// Behind a marker an option is read: a known one sets what it sets, and reading
/// goes on behind its value; the line of an unknown one is passed over, and where
/// no line feed ends it the options end in front of it.
pub proof fn lemma_options_go_on(
    s: Seq<char>,
    i: int,
    w: Seq<char>,
    u: Seq<char>,
    t: Seq<char>,
    l: Seq<char>,
    rest: Seq<char>,
    f: FrontView,
)
    requires
        stands(s, i, w + ("#|"@ + (u + t))),
        all_white(w),
        within_line(u),
        t.len() > 0 ==> !white(t[0]) || t[0] == '\n',
        one_line(l),
        t == l || t == l + seq!['\n'] + rest,
    ensures
        ({
            let k = i + width(w) + 2 + width(u);
            match setting_at(s, k, f) {
                Some(Ok((g, j))) => options_at(s, i, f) == options_at(s, behind_value(s, j), g),
                Some(Err(e)) => options_at(s, i, f) == Err::<(FrontView, int), Seq<char>>(e),
                None => if t == l {
                    options_at(s, i, f) == Ok::<(FrontView, int), Seq<char>>((f, k))
                } else {
                    &&& options_at(s, i, f) == options_at(s, k + width(l) + 1, f)
                    &&& stands(s, k + width(l) + 1, rest)
                },
            }
        }),
{
    lemma_widths();
    reveal_strlit("#|");
    reveal_strlit("\n");
    let none = Seq::<char>::empty();
    lemma_white_space_at(s, i, w, "#|"@ + (u + t));
    lemma_begins("#|"@ + (u + t), "#|"@);
    lemma_past(s, i + width(w), "#|"@, u + t);
    lemma_line_space_at(s, i + width(w) + 2, u, t);
    let k = i + width(w) + 2 + width(u);
    lemma_option(s, i, f);
    assert("\n"@ =~= seq!['\n']);
    if t == l {
        lemma_find_behind(l, none, "\n"@);
        assert(l + none =~= l);
        assert(find(none, "\n"@) is None);
    } else {
        lemma_find_behind(l, seq!['\n'] + rest, "\n"@);
        assert(l + (seq!['\n'] + rest) =~= t);
        lemma_begins(seq!['\n'] + rest, "\n"@);
        assert(find(seq!['\n'] + rest, "\n"@) == Some(0int));
        lemma_past(s, k, l, "\n"@ + rest);
        lemma_past(s, k + width(l), "\n"@, rest);
    }
}

} // verus!
