//! What single characters, white space, quoted strings and places in a text come
//! to, whatever stands around them.
use crate::chunk::{chunk_views, text_of, Chunk, ChunkOutput, ChunkResult, OutputView};
use crate::document::parsed_view;
use crate::escape::{escaped, written, Style};
use crate::frontmatter::{option_view, options_view, FrontMatter, Reach};
use crate::literal::{
    bool_at, escaped_body, expected_at, quoted_at, quoted_body, text_and_offset, unescaped,
};
use crate::outcomes::lemma_end_taken_off;
use crate::position::{chars_before, column_after, decimal, digit, error_text, label, line_after};
use crate::render::rendered_view;
use crate::scan::{line_end, plain_end, starts_at};
use crate::session::{ActionView, WatchAction};
use crate::text::{boundary, char_width, lemma_ends, lemma_join, lemma_split, tail, width};
use crate::whitespace::{
    after_inline_ws, after_ws, blank, inline_ws, lemma_after_ws, trimmed, trimmed_start, white,
};
use vstd::prelude::*;

verus! {

/// Each character is written as itself, but for those that the style escapes; a
/// backslash with a character behind it stands for these.
pub proof fn lemma_character_is_written(c: char)
    ensures
        escaped(Style::TypstText, seq![c]) == (if c == '\\' || c == '[' || c == ']' || c == '#' {
            seq!['\\', c]
        } else {
            seq![c]
        }),
        escaped(Style::TypstString, seq![c]) == (if c == '\\' || c == '"' {
            seq!['\\', c]
        } else {
            seq![c]
        }),
        escaped(Style::RString, seq![c]) == (if c == '\\' || c == '"' {
            seq!['\\', c]
        } else if c == '\n' {
            seq!['\\', 'n']
        } else if c == '\r' {
            seq!['\\', 'r']
        } else if c == '\t' {
            seq!['\\', 't']
        } else {
            seq![c]
        }),
{
    let s = seq![c];
    assert(s.drop_first() =~= Seq::empty());
    reveal_with_fuel(escaped, 2);
    assert(written(Style::TypstText, c) + Seq::empty() =~= written(Style::TypstText, c));
    assert(written(Style::TypstString, c) + Seq::empty() =~= written(Style::TypstString, c));
    assert(written(Style::RString, c) + Seq::empty() =~= written(Style::RString, c));
}

/// Which characters are white space: those that move on within a line or to another
/// one, and spaces of any width.
pub proof fn lemma_which_characters_are_white(c: char)
    ensures
        white(c) <==> {
            ||| '\u{9}' <= c <= '\u{d}'
            ||| c == ' '
            ||| c == '\u{85}'
            ||| c == '\u{a0}'
            ||| c == '\u{1680}'
            ||| '\u{2000}' <= c <= '\u{200a}'
            ||| c == '\u{2028}'
            ||| c == '\u{2029}'
            ||| c == '\u{202f}'
            ||| c == '\u{205f}'
            ||| c == '\u{3000}'
        },
{
}

/// White space in front of a text is taken off, and nothing else.
pub proof fn lemma_start_taken_off(w: Seq<char>, t: Seq<char>)
    requires
        forall|k: int| 0 <= k < w.len() ==> white(#[trigger] w[k]),
        t.len() > 0 ==> !white(t[0]),
    ensures
        trimmed_start(w + t) == t,
    decreases w.len(),
{
    if w.len() == 0 {
        assert(w + t =~= t);
    } else {
        let v = w.drop_first();
        assert forall|k: int| 0 <= k < v.len() implies white(#[trigger] v[k]) by {
            assert(v[k] == w[k + 1]);
        }
        assert((w + t).drop_first() =~= v + t);
        lemma_start_taken_off(v, t);
    }
}

/// White space at both ends of a text is taken off, and nothing else.
pub proof fn lemma_ends_taken_off(w: Seq<char>, t: Seq<char>, v: Seq<char>)
    requires
        forall|k: int| 0 <= k < w.len() ==> white(#[trigger] w[k]),
        forall|k: int| 0 <= k < v.len() ==> white(#[trigger] v[k]),
        t.len() > 0 ==> !white(t[0]) && !white(t.last()),
    ensures
        trimmed(w + t + v) == t,
{
    if t.len() > 0 {
        assert(w + t + v =~= w + (t + v));
        lemma_start_taken_off(w, t + v);
        lemma_end_taken_off(t, v);
    } else {
        let none = Seq::<char>::empty();
        let all = w + t + v;
        assert forall|k: int| 0 <= k < all.len() implies white(#[trigger] all[k]) by {
            if k < w.len() {
                assert(all[k] == w[k]);
            } else {
                assert(all[k] == v[k - w.len()]);
            }
        }
        assert(all =~= all + none);
        lemma_start_taken_off(all, none);
        assert(t =~= none);
    }
}

/// A text is blank exactly if each of its characters is white space.
pub proof fn lemma_what_is_blank(t: Seq<char>)
    ensures
        blank(t) <==> forall|k: int| 0 <= k < t.len() ==> white(#[trigger] t[k]),
{
}

/// Skipping white space ends in front of the first character that is none, or at
/// the end; from behind the end it goes nowhere.
pub proof fn lemma_white_space_is_skipped(b: Seq<char>, w: Seq<char>, t: Seq<char>, i: int)
    requires
        forall|k: int| 0 <= k < w.len() ==> white(#[trigger] w[k]),
        t.len() > 0 ==> !white(t[0]),
    ensures
        after_ws(b + w + t, width(b)) == width(b) + width(w),
        boundary(b + w + t, width(b) + width(w)),
        tail(b + w + t, width(b) + width(w)) == t,
        i >= width(t) ==> after_ws(t, i) == i,
{
    let s = b + w + t;
    assert(s =~= b + (w + t));
    lemma_join(b, w + t);
    lemma_join(b, w);
    lemma_join(b + w, t);
    lemma_join(w, t);
    lemma_start_taken_off(w, t);
    lemma_after_ws(s, width(b));
    lemma_split(s, after_ws(s, width(b)));
    lemma_ends(w);
    lemma_ends(t);
    if width(b) >= width(s) {
        assert(width(w) == 0);
    }
}

/// Skipping white space within a line ends at the line feed, or earlier in front of
/// the first character that is no white space, or at the end.
pub proof fn lemma_line_space_is_skipped(b: Seq<char>, w: Seq<char>, t: Seq<char>)
    requires
        forall|k: int| 0 <= k < w.len() ==> white(#[trigger] w[k]) && w[k] != '\n',
        t.len() > 0 ==> !white(t[0]) || t[0] == '\n',
    ensures
        after_inline_ws(b + w + t, width(b)) == width(b) + width(w),
        boundary(b + w + t, width(b) + width(w)),
        tail(b + w + t, width(b) + width(w)) == t,
{
    let s = b + w + t;
    assert(s =~= b + (w + t));
    lemma_join(b, w + t);
    lemma_join(b, w);
    lemma_join(b + w, t);
    lemma_line_space(w, t);
}

proof fn lemma_line_space(w: Seq<char>, t: Seq<char>)
    requires
        forall|k: int| 0 <= k < w.len() ==> white(#[trigger] w[k]) && w[k] != '\n',
        t.len() > 0 ==> !white(t[0]) || t[0] == '\n',
    ensures
        inline_ws(w + t) == width(w),
    decreases w.len(),
{
    if w.len() == 0 {
        assert(w + t =~= t);
    } else {
        let v = w.drop_first();
        assert forall|k: int| 0 <= k < v.len() implies white(#[trigger] v[k]) && v[k] != '\n' by {
            assert(v[k] == w[k + 1]);
        }
        assert((w + t).drop_first() =~= v + t);
        assert(white(w[0]));
        lemma_line_space(v, t);
    }
}

/// A text starts with a word at a place exactly if the characters of the word stand
/// there, one for one.
pub proof fn lemma_word_stands(b: Seq<char>, t: Seq<char>, word: Seq<char>)
    ensures
        starts_at(b + t, width(b), word) <==> (word.len() <= t.len() && forall|k: int|
            0 <= k < word.len() ==> #[trigger] t[k] == word[k]),
{
    lemma_join(b, t);
    if word.len() <= t.len() && forall|k: int|
        0 <= k < word.len() ==> #[trigger] t[k] == word[k] {
        assert(t.subrange(0, word.len() as int) =~= word);
    }
    if starts_at(b + t, width(b), word) {
        assert forall|k: int| 0 <= k < word.len() implies #[trigger] t[k] == word[k] by {
            assert(t.subrange(0, word.len() as int)[k] == t[k]);
        }
    }
}

/// Plain text reaches up to its stop, or to the end where there is none.
pub proof fn lemma_plain_text_ends(t: Seq<char>, stop: char, rest: Seq<char>)
    requires
        forall|k: int| 0 <= k < t.len() ==> #[trigger] t[k] != stop,
    ensures
        plain_end(t + seq![stop] + rest, stop) == width(t),
        plain_end(t, stop) == width(t),
    decreases t.len(),
{
    let all = t + seq![stop] + rest;
    if t.len() > 0 {
        let u = t.drop_first();
        assert forall|k: int| 0 <= k < u.len() implies #[trigger] u[k] != stop by {
            assert(u[k] == t[k + 1]);
        }
        lemma_plain_text_ends(u, stop, rest);
        assert(all.drop_first() =~= u + seq![stop] + rest);
        assert(all[0] == t[0]);
    } else {
        assert(all[0] == stop);
    }
}

/// A line reaches over its line feed, or up to three backquotes, or to the end,
/// whichever comes first.
pub proof fn lemma_line_ends(t: Seq<char>, rest: Seq<char>)
    requires
        forall|k: int| 0 <= k < t.len() ==> #[trigger] t[k] != '\n',
        forall|k: int|
            0 <= k <= t.len() - 3 ==> !(#[trigger] t[k] == '`' && t[k + 1] == '`' && t[k + 2]
                == '`'),
    ensures
        line_end(t + seq!['\n'] + rest) == width(t) + 1,
        line_end(t) == width(t),
        t.len() > 0 ==> t.last() != '`' ==> line_end(t + seq!['`', '`', '`'] + rest) == width(t),
        t.len() == 0 ==> line_end(t + seq!['`', '`', '`'] + rest) == 0,
    decreases t.len(),
{
    reveal_strlit("```");
    let q = "```"@;
    let a = t + seq!['\n'] + rest;
    let f = t + seq!['`', '`', '`'] + rest;
    assert(q.is_prefix_of(a) ==> a.subrange(0, 3)[0] == a[0] && a.subrange(0, 3)[1] == a[1]
        && a.subrange(0, 3)[2] == a[2]);
    assert(q.is_prefix_of(t) ==> t.subrange(0, 3)[0] == t[0] && t.subrange(0, 3)[1] == t[1]
        && t.subrange(0, 3)[2] == t[2]);
    assert(q.is_prefix_of(f) ==> f.subrange(0, 3)[0] == f[0] && f.subrange(0, 3)[1] == f[1]
        && f.subrange(0, 3)[2] == f[2]);
    if t.len() == 0 {
        assert(a[0] == '\n');
        assert(f.subrange(0, 3) =~= q);
    } else {
        let u = t.drop_first();
        assert forall|k: int| 0 <= k < u.len() implies #[trigger] u[k] != '\n' by {
            assert(u[k] == t[k + 1]);
        }
        assert forall|k: int| 0 <= k <= u.len() - 3 implies !(#[trigger] u[k] == '`' && u[k + 1]
            == '`' && u[k + 2] == '`') by {
            assert(u[k] == t[k + 1]);
        }
        lemma_line_ends(u, rest);
        assert(a.drop_first() =~= u + seq!['\n'] + rest);
        assert(f.drop_first() =~= u + seq!['`', '`', '`'] + rest);
        assert(a[0] == t[0] && f[0] == t[0]);
        if q.is_prefix_of(a) {
            if t.len() == 1 {
                assert(a[1] == '\n');
            } else if t.len() == 2 {
                assert(a[2] == '\n');
            } else {
                assert(t[0] == '`' && t[1] == '`' && t[2] == '`');
            }
        }
        if q.is_prefix_of(t) {
            assert(t[0] == '`' && t[1] == '`' && t[2] == '`');
        }
        if t.last() != '`' {
            if q.is_prefix_of(f) {
                if t.len() <= 3 {
                    assert(f[t.len() - 1] == t.last());
                } else {
                    assert(t[0] == '`' && t[1] == '`' && t[2] == '`');
                }
            }
            if u.len() > 0 {
                assert(u.last() == t.last());
            }
        }
    }
}

/// What the text of a quoted string grows by with the next character: a character
/// stands for itself, a backslash with `n`, `r` or `t` for a line feed, a carriage
/// return or a tab, and a backslash with any other character for that character.
/// The next quote closes the string.
pub proof fn lemma_quoted_string_grows(b: Seq<char>, c: char, r: Seq<char>)
    ensures
        quoted_at(b + seq!['"', '"'] + r, width(b)) == Ok::<(Seq<char>, int), Seq<char>>(
            (Seq::<char>::empty(), width(b) + 2),
        ),
        c != '"' && c != '\\' ==> (match quoted_at(b + seq!['"'] + r, width(b)) {
            Ok((v, j)) => quoted_at(b + seq!['"', c] + r, width(b)) == Ok::<
                (Seq<char>, int),
                Seq<char>,
            >((seq![c] + v, j + char_width(c))),
            Err(_) => quoted_at(b + seq!['"', c] + r, width(b)) is Err,
        }),
        match quoted_at(b + seq!['"'] + r, width(b)) {
            Ok((v, j)) => quoted_at(b + seq!['"', '\\', c] + r, width(b)) == Ok::<
                (Seq<char>, int),
                Seq<char>,
            >(
                (
                    seq![
                        if c == 'n' {
                            '\n'
                        } else if c == 'r' {
                            '\r'
                        } else if c == 't' {
                            '\t'
                        } else {
                            c
                        },
                    ] + v,
                    j + 1 + char_width(c),
                ),
            ),
            Err(_) => quoted_at(b + seq!['"', '\\', c] + r, width(b)) is Err,
        },
{
    lemma_quoted_behind(b, r);
    lemma_quoted_behind(b, seq!['"'] + r);
    lemma_quoted_behind(b, seq![c] + r);
    lemma_quoted_behind(b, seq!['\\', c] + r);
    assert(b + seq!['"', '"'] + r =~= b + seq!['"'] + (seq!['"'] + r));
    assert(b + seq!['"', c] + r =~= b + seq!['"'] + (seq![c] + r));
    assert(b + seq!['"', '\\', c] + r =~= b + seq!['"'] + (seq!['\\', c] + r));
    assert((seq![c] + r).drop_first() =~= r);
    assert((seq!['\\', c] + r).drop_first() =~= seq![c] + r);
    assert((seq!['\\', c] + r)[0] == '\\');
    assert(quoted_body(seq!['\\', c] + r) == match escaped_body(seq![c] + r) {
        Some((v, n)) => Some((v, 1 + n)),
        None => None,
    });
    assert(escaped_body(seq![c] + r) == match quoted_body(r) {
        Some((v, n)) => Some((seq![unescaped(c)] + v, char_width(c) + n)),
        None => None,
    });
}

proof fn lemma_quoted_behind(b: Seq<char>, r: Seq<char>)
    ensures
        quoted_at(b + seq!['"'] + r, width(b)) == (match quoted_body(r) {
            Some((v, n)) => Ok((v, width(b) + 1 + n)),
            None => Err(
                error_text(
                    b + seq!['"'] + r,
                    width(b + seq!['"'] + r),
                    "unterminated string literal"@,
                ),
            ),
        }),
{
    let s = b + seq!['"'] + r;
    let t = seq!['"'] + r;
    assert(s =~= b + t);
    lemma_join(b, t);
    lemma_ends(t);
    assert(t.drop_first() =~= r);
}

/// A string that nothing closes is refused at the end of the text; so is one that
/// ends with a backslash. Where no quote stands, and at the end, the place itself
/// is named.
pub proof fn lemma_no_quoted_string(b: Seq<char>, t: Seq<char>, i: int)
    ensures
        quoted_at(b + seq!['"'], width(b)) is Err,
        quoted_at(b + seq!['"', '\\'], width(b)) is Err,
        quoted_at(b + seq!['"'] + t, width(b)) matches Err(e) ==> e
            == "unterminated string literal"@ + " at "@ + label(
            b + seq!['"'] + t,
            width(b) + 1 + width(t),
        ),
        t.len() > 0 && t[0] != '"' ==> quoted_at(b + t, width(b)) == Err::<
            (Seq<char>, int),
            Seq<char>,
        >("expected opening '\"'"@ + " at "@ + label(b + t, width(b))),
        !boundary(b, i) || i == width(b) ==> quoted_at(b, i) == Err::<
            (Seq<char>, int),
            Seq<char>,
        >("expected string literal"@ + " at "@ + label(b, i)),
{
    let none = Seq::<char>::empty();
    lemma_quoted_behind(b, none);
    assert(b + seq!['"'] + none =~= b + seq!['"']);
    lemma_quoted_behind(b, seq!['\\']);
    assert(b + seq!['"'] + seq!['\\'] =~= b + seq!['"', '\\']);
    assert(seq!['\\'].drop_first() =~= none);
    reveal_with_fuel(quoted_body, 2);
    lemma_quoted_behind(b, t);
    lemma_join(b, seq!['"']);
    lemma_join(b + seq!['"'], t);
    reveal_with_fuel(width, 2);
    assert(seq!['"'].drop_first() =~= none);
    if t.len() > 0 {
        lemma_join(b, t);
        lemma_ends(t);
    }
}

/// The character that is expected is read where it stands; anything else there, and
/// the end, is refused with the message and the place.
pub proof fn lemma_character_is_expected(
    b: Seq<char>,
    t: Seq<char>,
    c: char,
    message: Seq<char>,
    i: int,
)
    ensures
        expected_at(b + seq![c] + t, width(b), c, message) == Ok::<int, Seq<char>>(
            width(b) + char_width(c),
        ),
        t.len() == 0 || t[0] != c ==> expected_at(b + t, width(b), c, message) == Err::<
            int,
            Seq<char>,
        >(message + " at "@ + label(b + t, width(b))),
        !boundary(b, i) ==> expected_at(b, i, c, message) == Err::<int, Seq<char>>(
            message + " at "@ + label(b, i),
        ),
{
    let u = seq![c] + t;
    assert(b + seq![c] + t =~= b + u);
    lemma_join(b, u);
    lemma_ends(u);
    lemma_join(b, t);
    lemma_ends(t);
}

/// A truth value is read behind white space, whatever follows it; anything else is
/// refused where it stands.
pub proof fn lemma_truth_values(b: Seq<char>, w: Seq<char>, t: Seq<char>)
    requires
        forall|k: int| 0 <= k < w.len() ==> white(#[trigger] w[k]),
    ensures
        bool_at(b + w + ("true"@ + t), width(b)) == Ok::<(bool, int), Seq<char>>(
            (true, width(b) + width(w) + 4),
        ),
        bool_at(b + w + ("false"@ + t), width(b)) == Ok::<(bool, int), Seq<char>>(
            (false, width(b) + width(w) + 5),
        ),
        (t.len() > 0 ==> !white(t[0])) && !"true"@.is_prefix_of(t) && !"false"@.is_prefix_of(t)
            ==> bool_at(b + w + t, width(b)) == Err::<(bool, int), Seq<char>>(
            "expected boolean value at "@ + label(b + w + t, width(b) + width(w)),
        ),
{
    reveal_strlit("true");
    reveal_strlit("false");
    let yes = "true"@ + t;
    let no = "false"@ + t;
    lemma_white_space_is_skipped(b, w, yes, 0);
    lemma_white_space_is_skipped(b, w, no, 0);
    assert(yes.subrange(0, 4) =~= "true"@);
    assert(no.subrange(0, 5) =~= "false"@);
    if "true"@.is_prefix_of(no) {
        assert(no.subrange(0, 4)[0] == 'f');
    }
    if t.len() > 0 ==> !white(t[0]) {
        lemma_white_space_is_skipped(b, w, t, 0);
    }
}

/// A place is named by the line and the column behind the text before it. Text
/// without line feeds stands on one line, one column for each character; each line
/// feed starts a new line.
pub proof fn lemma_places_are_counted(p: Seq<char>, l: Seq<char>)
    requires
        forall|k: int| 0 <= k < l.len() ==> #[trigger] l[k] != '\n',
    ensures
        line_after(l) == 1,
        column_after(l) == l.len() + 1,
        line_after(p + seq!['\n'] + l) == line_after(p) + 1,
        column_after(p + seq!['\n'] + l) == l.len() + 1,
    decreases l.len(),
{
    reveal(Seq::filter);
    let all = p + seq!['\n'] + l;
    if l.len() > 0 {
        let m = l.drop_last();
        assert forall|k: int| 0 <= k < m.len() implies #[trigger] m[k] != '\n' by {
            assert(m[k] == l[k]);
        }
        lemma_places_are_counted(p, m);
        assert(all.drop_last() =~= p + seq!['\n'] + m);
        assert(all.last() == l.last());
        assert(l.last() == l[l.len() - 1]);
    } else {
        assert(all.drop_last() =~= p);
        assert(all.last() == '\n');
    }
}

/// The place of a byte offset is the one behind the characters that start before
/// it: an offset inside a character counts as behind the character, and one behind
/// the end as the end. Messages name the place in words.
pub proof fn lemma_places_are_named(
    a: Seq<char>,
    c: char,
    b: Seq<char>,
    i: int,
    message: Seq<char>,
)
    ensures
        label(a + b, width(a)) == "line "@ + decimal(line_after(a)) + ", col "@ + decimal(
            column_after(a),
        ),
        width(a) < i <= width(a) + char_width(c) ==> label(a + seq![c] + b, i) == "line "@
            + decimal(line_after(a + seq![c])) + ", col "@ + decimal(column_after(a + seq![c])),
        i >= width(a) ==> label(a, i) == "line "@ + decimal(line_after(a)) + ", col "@ + decimal(
            column_after(a),
        ),
        i <= 0 ==> label(a, i) == "line "@ + decimal(1) + ", col "@ + decimal(1),
        error_text(a, i, message) == message + " at "@ + label(a, i),
{
    lemma_counted(a, b, width(a));
    lemma_counted(a, seq![c] + b, i);
    assert(a + seq![c] + b =~= a + (seq![c] + b));
    if width(a) < i <= width(a) + char_width(c) {
        let r = seq![c] + b;
        assert(r.drop_first() =~= b);
        assert(chars_before(r, i - width(a)) =~= seq![c]) by {
            reveal_with_fuel(chars_before, 2);
        }
    }
    if i >= width(a) {
        let none = Seq::<char>::empty();
        lemma_counted(a, none, i);
        assert(a + none =~= a);
    }
    assert(a + Seq::<char>::empty() =~= a);
    if i <= 0 {
        reveal(Seq::filter);
    }
}

proof fn lemma_counted(a: Seq<char>, b: Seq<char>, i: int)
    ensures
        i >= width(a) ==> chars_before(a + b, i) == a + chars_before(b, i - width(a)),
    decreases a.len(),
{
    if a.len() == 0 {
        assert(a + b =~= b);
        assert(a + chars_before(b, i) =~= chars_before(b, i));
    } else {
        lemma_ends(a.drop_first());
        assert((a + b).drop_first() =~= a.drop_first() + b);
        lemma_counted(a.drop_first(), b, i - char_width(a[0]));
        assert(seq![a[0]] + (a.drop_first() + chars_before(b, i - width(a))) =~= a + chars_before(
            b,
            i - width(a),
        ));
    }
}

/// Decimal notation is made of digits, the last of which is the remainder by ten,
/// and starts with a zero for zero alone.
pub proof fn lemma_decimal_digits(n: int)
    requires
        n >= 0,
    ensures
        decimal(n).len() > 0,
        forall|k: int| 0 <= k < decimal(n).len() ==> '0' <= #[trigger] decimal(n)[k] <= '9',
        decimal(n).last() as int == '0' as int + n % 10,
        n > 0 ==> decimal(n)[0] != '0',
        decimal(n).len() == 1 <==> n < 10,
        n >= 10 ==> decimal(n).drop_last() == decimal(n / 10),
    decreases n,
{
    if n >= 10 {
        lemma_decimal_digits(n / 10);
        assert(digit(n % 10) as int == 0x30 + n % 10);
        assert(decimal(n).drop_last() =~= decimal(n / 10));
        assert forall|k: int| 0 <= k < decimal(n).len() implies '0' <= #[trigger] decimal(n)[k]
            <= '9' by {
            if k < decimal(n / 10).len() {
                assert(decimal(n)[k] == decimal(n / 10)[k]);
            }
        }
        assert(decimal(n)[0] == decimal(n / 10)[0]);
    } else {
        assert(digit(n) as int == 0x30 + n);
    }
}

/// The values of chunks, of what they gave and of results are those of their
/// fields, one for one.
pub proof fn lemma_values_of_chunks(c: Chunk, o: ChunkOutput, r: ChunkResult, cs: Seq<Chunk>)
    ensures
        c@.name == c.name@,
        c@.code == c.code@,
        c@.echo == c.echo,
        c@.key is Some <==> c.key is Some,
        c.key is Some ==> c@.key->0 == c.key->0@,
        c@.caption is Some <==> c.caption is Some,
        c.caption is Some ==> c@.caption->0 == c.caption->0@,
        o@ == (match o {
            ChunkOutput::Plot { rel_path } => OutputView::Plot { rel_path: rel_path@ },
            ChunkOutput::Text { content } => OutputView::Text { content: content@ },
            ChunkOutput::Error { message } => OutputView::Error { message: message@ },
        }),
        r@.output == r.output@,
        r@.echo == r.echo,
        r@.code == r.code@,
        r@.caption is Some <==> r.caption is Some,
        r.caption is Some ==> r@.caption->0 == r.caption->0@,
        chunk_views(cs).len() == cs.len(),
        forall|k: int| 0 <= k < cs.len() ==> #[trigger] chunk_views(cs)[k] == cs[k]@,
        text_of(Some(c.name)) == Some(c.name@),
        text_of(None) is None,
{
}

/// The values of what reading returns are those of its parts, one for one.
pub proof fn lemma_values_of_results(
    t: String,
    cs: Vec<Chunk>,
    n: usize,
    f: FrontMatter,
    a: WatchAction,
)
    ensures
        text_and_offset(Ok((t, n))) == Ok::<(Seq<char>, int), Seq<char>>((t@, n as int)),
        text_and_offset(Err(t)) == Err::<(Seq<char>, int), Seq<char>>(t@),
        rendered_view(Ok(t)) == Ok::<Seq<char>, Seq<char>>(t@),
        rendered_view(Err(t)) == Err::<Seq<char>, Seq<char>>(t@),
        parsed_view(Ok((t, cs))) matches Ok((u, ds)) && u == t@ && ds == chunk_views(cs@),
        parsed_view(Err(t)) matches Err(e) && e == t@,
        options_view(Ok((f, n))) matches Ok((g, j)) && g == f@ && j == n,
        options_view(Err(t)) matches Err(e) && e == t@,
        option_view(Ok((f, Reach::Next(n)))) matches Ok((g, Reach::Next(j))) && g == f@ && j == n,
        option_view(Ok((f, Reach::End(n)))) matches Ok((g, Reach::End(j))) && g == f@ && j == n,
        option_view(Err(t)) matches Err(e) && e == t@,
        f@.echo == f.echo,
        f@.key is Some <==> f.key is Some,
        f.key is Some ==> f@.key->0 == f.key->0@,
        f@.caption is Some <==> f.caption is Some,
        f.caption is Some ==> f@.caption->0 == f.caption->0@,
        match a {
            WatchAction::Register => a@ == ActionView::Register,
            WatchAction::Process { notice: None } => a@ == (ActionView::Process { notice: None }),
            WatchAction::Process { notice: Some(line) } => a@ == (ActionView::Process {
                notice: Some(line@),
            }),
            WatchAction::Wait => a@ == ActionView::Wait,
            WatchAction::Report(line) => a@ == ActionView::Report(line@),
            WatchAction::Finish(Ok(_)) => a@ == ActionView::Finish(Ok(())),
            WatchAction::Finish(Err(e)) => a@ == ActionView::Finish(Err(e@)),
        },
{
}

} // verus!
