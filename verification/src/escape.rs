//! Text written so that Typst and R read it back as it was.
use crate::literal::{escaped_body, quoted_at, quoted_body, unescaped};
use crate::text::{boundary, byte_len, char_at, char_len, lemma_ends, lemma_join, tail, width};
use vstd::prelude::*;
use vstd::string::*;

verus! {

/// Where a text is written into.
pub enum Style {
    /// Typst markup.
    TypstText,
    /// A Typst string between double quotes.
    TypstString,
    /// An R string between double quotes.
    RString,
}

/// What is written for a character.
pub open spec fn written(style: Style, c: char) -> Seq<char> {
    match style {
        Style::TypstText => if c == '\\' {
            seq!['\\', '\\']
        } else if c == '[' {
            seq!['\\', '[']
        } else if c == ']' {
            seq!['\\', ']']
        } else if c == '#' {
            seq!['\\', '#']
        } else {
            seq![c]
        },
        Style::TypstString => if c == '\\' {
            seq!['\\', '\\']
        } else if c == '"' {
            seq!['\\', '"']
        } else {
            seq![c]
        },
        Style::RString => if c == '\\' {
            seq!['\\', '\\']
        } else if c == '"' {
            seq!['\\', '"']
        } else if c == '\n' {
            seq!['\\', 'n']
        } else if c == '\r' {
            seq!['\\', 'r']
        } else if c == '\t' {
            seq!['\\', 't']
        } else {
            seq![c]
        },
    }
}

/// What is written for a text.
pub open spec fn escaped(style: Style, s: Seq<char>) -> Seq<char>
    decreases s.len(),
{
    if s.len() == 0 {
        Seq::empty()
    } else {
        written(style, s[0]) + escaped(style, s.drop_first())
    }
}

/// The text that Typst markup shows, if the markup is text alone: a backslash
/// with the character behind it shows that character, and a bracket or a number
/// sign that no backslash precedes is no text.
pub open spec fn shown(markup: Seq<char>) -> Option<Seq<char>>
    decreases markup.len(),
{
    if markup.len() == 0 {
        Some(Seq::empty())
    } else if markup[0] == '[' || markup[0] == ']' || markup[0] == '#' {
        None
    } else if markup[0] != '\\' {
        match shown(markup.drop_first()) {
            Some(t) => Some(seq![markup[0]] + t),
            None => None,
        }
    } else if markup.len() == 1 {
        None
    } else {
        match shown(markup.skip(2)) {
            Some(t) => Some(seq![markup[1]] + t),
            None => None,
        }
    }
}

/// Two texts one behind the other are written one behind the other.
pub proof fn lemma_escaped_joins(style: Style, a: Seq<char>, b: Seq<char>)
    ensures
        escaped(style, a + b) == escaped(style, a) + escaped(style, b),
    decreases a.len(),
{
    if a.len() == 0 {
        assert(a + b =~= b);
        assert(escaped(style, a) + escaped(style, b) =~= escaped(style, b));
    } else {
        assert((a + b).drop_first() =~= a.drop_first() + b);
        lemma_escaped_joins(style, a.drop_first(), b);
        assert(written(style, a[0]) + (escaped(style, a.drop_first()) + escaped(style, b)) =~= (
        written(style, a[0]) + escaped(style, a.drop_first())) + escaped(style, b));
    }
}

/// Typst shows the text that was written as markup, and that text alone: it has
/// no bracket and no number sign that Typst would take for its own.
pub proof fn lemma_markup_shows_text(s: Seq<char>)
    ensures
        shown(escaped(Style::TypstText, s)) == Some(s),
    decreases s.len(),
{
    if s.len() > 0 {
        let w = written(Style::TypstText, s[0]);
        let t = escaped(Style::TypstText, s.drop_first());
        lemma_markup_shows_text(s.drop_first());
        assert(seq![s[0]] + s.drop_first() =~= s);
        if w.len() == 1 {
            assert((w + t).drop_first() =~= t);
        } else {
            assert((w + t).skip(2) =~= t);
        }
    } else {
        assert(s =~= Seq::empty());
    }
}

proof fn lemma_body_reads_back(style: Style, s: Seq<char>, rest: Seq<char>)
    requires
        style != Style::TypstText,
    ensures
        quoted_body(escaped(style, s) + seq!['"'] + rest) == Some(
            (s, width(escaped(style, s)) + 1),
        ),
    decreases s.len(),
{
    let q = seq!['"'];
    if s.len() == 0 {
        assert(escaped(style, s) + q + rest =~= q + rest);
        assert(s =~= Seq::empty());
    } else {
        let w = written(style, s[0]);
        let t = escaped(style, s.drop_first());
        let all = escaped(style, s) + q + rest;
        lemma_body_reads_back(style, s.drop_first(), rest);
        lemma_join(w, t);
        assert(seq![s[0]] + s.drop_first() =~= s);
        reveal_with_fuel(width, 3);
        assert(all.drop_first() =~= w.drop_first() + (t + q + rest));
        if w.len() == 1 {
            assert(all.drop_first() =~= t + q + rest);
            assert(w.drop_first() =~= Seq::empty());
        } else {
            assert(all.drop_first().drop_first() =~= t + q + rest);
            assert(w.drop_first().drop_first() =~= Seq::empty());
            assert(unescaped(w[1]) == s[0]);
            assert(quoted_body(all) == match escaped_body(all.drop_first()) {
                Some((v, n)) => Some((v, 1 + n)),
                None => None,
            });
        }
    }
}

/// A text written for R or for a Typst string between double quotes reads back
/// as the text, and reading it ends behind the closing quote, wherever the
/// string stands.
pub proof fn lemma_reads_back(style: Style, before: Seq<char>, s: Seq<char>, rest: Seq<char>)
    requires
        style != Style::TypstText,
    ensures
        quoted_at(before + seq!['"'] + escaped(style, s) + seq!['"'] + rest, width(before)) == Ok::<
            (Seq<char>, int),
            Seq<char>,
        >((s, width(before) + width(escaped(style, s)) + 2)),
{
    let string = seq!['"'] + escaped(style, s) + seq!['"'] + rest;
    let all = before + seq!['"'] + escaped(style, s) + seq!['"'] + rest;
    assert(all =~= before + string);
    lemma_body_reads_back(style, s, rest);
    lemma_join(before, string);
    lemma_ends(string);
    assert(string.drop_first() =~= escaped(style, s) + seq!['"'] + rest);
}

/// Writes `c` behind `out`.
fn write_char(out: &mut String, style: &Style, c: char)
    ensures
        final(out)@ == old(out)@ + written(*style, c),
{
    let letter: Option<char> = match style {
        Style::TypstText => if c == '\\' || c == '[' || c == ']' || c == '#' {
            Some(c)
        } else {
            None
        },
        Style::TypstString => if c == '\\' || c == '"' {
            Some(c)
        } else {
            None
        },
        Style::RString => if c == '\\' || c == '"' {
            Some(c)
        } else if c == '\n' {
            Some('n')
        } else if c == '\r' {
            Some('r')
        } else if c == '\t' {
            Some('t')
        } else {
            None
        },
    };
    match letter {
        Some(letter) => {
            out.push('\\');
            out.push(letter);
        },
        None => {
            out.push(c);
        },
    }
    proof {
        assert(out@ =~= old(out)@ + written(*style, c));
    }
}

/// Writes `s` in the given style.
fn escape(style: Style, s: &str) -> (out: String)
    ensures
        out@ == escaped(style, s@),
{
    let n: usize = byte_len(s);
    let mut out: String = String::new();
    let mut i: usize = 0;
    proof {
        lemma_ends(s@);
        assert(out@ + escaped(style, s@) =~= escaped(style, s@));
    }
    while i < n
        invariant
            n == width(s@),
            tail(s@, n as int).len() == 0,
            i <= n,
            boundary(s@, i as int),
            escaped(style, s@) == out@ + escaped(style, tail(s@, i as int)),
        decreases n - i,
    {
        let c = char_at(s, i);
        let ghost before = out@;
        write_char(&mut out, &style, c);
        proof {
            let t = escaped(style, tail(s@, i as int).drop_first());
            assert(before + (written(style, c) + t) =~= out@ + t);
        }
        i = i + char_len(c);
    }
    proof {
        assert(out@ + Seq::<char>::empty() =~= out@);
    }
    out
}

/// `s` as Typst markup.
pub fn escape_typst_text(s: &str) -> (out: String)
    ensures
        out@ == escaped(Style::TypstText, s@),
{
    escape(Style::TypstText, s)
}

/// `s` as the inside of a Typst string.
pub fn escape_typst_string(s: &str) -> (out: String)
    ensures
        out@ == escaped(Style::TypstString, s@),
{
    escape(Style::TypstString, s)
}

/// `s` as the inside of an R string.
pub fn escape_r_string(s: &str) -> (out: String)
    ensures
        out@ == escaped(Style::RString, s@),
{
    escape(Style::RString, s)
}

} // verus!
