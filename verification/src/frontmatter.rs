//! The options at the head of a chunk.
//!
//! An option stands behind `#|`, with its value on the same line; what is quoted
//! or in brackets may go on over several lines. Behind the value another `#|` may
//! follow on the line. Anything else there is passed over, up to the backquotes
//! that close the chunk where they stand on the line. A line with an unknown
//! option is passed over whole; where no line feed ends it, the code starts with
//! what stands behind its `#|`.
use crate::chunk::text_of;
use crate::literal::{lemma_quoted_at, parse_quoted_string, quoted_at, text_and_offset};
use crate::scan::{
    find, find_from, lemma_find, lemma_line_end, lemma_plain_end, lemma_widths, lemma_word,
    line_end, line_end_from, plain_end, plain_end_from, starts_at, starts_with_at,
};
use crate::text::{
    between, boundary, byte_len, lemma_boundary_range, lemma_tail_tail, piece, tail, width,
};
use crate::whitespace::{
    after_inline_ws, after_ws, lemma_after_inline_ws, lemma_after_ws, skip_inline_ws, skip_ws, trim,
    trimmed,
};
use vstd::prelude::*;
use vstd::string::*;

verus! {

/// The options of a chunk.
pub struct FrontMatter {
    /// The key of the chunk.
    pub key: Option<String>,
    /// Whether the document shows the code.
    pub echo: bool,
    /// The caption of the chunk's figure.
    pub caption: Option<String>,
}

/// The value of a `FrontMatter`.
#[verifier::ext_equal]
pub struct FrontView {
    pub key: Option<Seq<char>>,
    pub echo: bool,
    pub caption: Option<Seq<char>>,
}

impl View for FrontMatter {
    type V = FrontView;

    open spec fn view(&self) -> FrontView {
        FrontView { key: text_of(self.key), echo: self.echo, caption: text_of(self.caption) }
    }
}

/// Where reading an option ended.
pub enum Reach<N> {
    /// At a byte offset at which reading goes on.
    Next(N),
    /// At a byte offset at which the options end.
    End(N),
}

/// The value that stands at byte offset `i`, and the byte offset behind it. It
/// is a quoted string, or the plain text before the character `stop`.
pub open spec fn value_at(s: Seq<char>, i: int, stop: char) -> Result<
    (Seq<char>, int),
    Seq<char>,
> {
    if starts_at(s, i, "\""@) {
        quoted_at(s, i)
    } else {
        let j = i + plain_end(tail(s, i), stop);
        Ok((trimmed(between(s, i, j)), j))
    }
}

/// The options with the value of the option `key` at byte offset `i`, and the
/// byte offset behind it.
pub open spec fn key_at(s: Seq<char>, i: int, f: FrontView) -> Result<
    (FrontView, int),
    Seq<char>,
> {
    match value_at(s, after_inline_ws(s, i), '\n') {
        Ok((v, j)) => Ok((FrontView { key: Some(v), ..f }, j)),
        Err(e) => Err(e),
    }
}

/// The options with the value of the option `echo` at byte offset `i`, and the
/// byte offset behind it. Anything but `true` and `false` counts as `true`, and is
/// left to the rest of the line.
pub open spec fn echo_at(s: Seq<char>, i: int, f: FrontView) -> (FrontView, int) {
    let j = after_inline_ws(s, i);
    if starts_at(s, j, "true"@) {
        (FrontView { echo: true, ..f }, j + 4)
    } else if starts_at(s, j, "false"@) {
        (FrontView { echo: false, ..f }, j + 5)
    } else {
        (FrontView { echo: true, ..f }, i)
    }
}

/// The options with the value of the option `caption` at byte offset `i`, and the
/// byte offset behind it: text in square brackets, a quoted string, or plain
/// text. Brackets that nothing closes leave the caption as it was.
pub open spec fn caption_at(s: Seq<char>, i: int, f: FrontView) -> Result<
    (FrontView, int),
    Seq<char>,
> {
    let j = after_inline_ws(s, i);
    if starts_at(s, j, "["@) {
        match find(tail(s, j + 1), "]"@) {
            Some(k) => {
                let caption = Some(between(s, j + 1, j + 1 + k));
                Ok((FrontView { caption, ..f }, j + 1 + k + 1))
            },
            None => Ok((f, j + 1)),
        }
    } else {
        match value_at(s, j, '\n') {
            Ok((v, k)) => Ok((FrontView { caption: Some(v), ..f }, k)),
            Err(e) => Err(e),
        }
    }
}

/// The options with the one at byte offset `i`, and the byte offset behind its
/// value. There is nothing where no known option stands.
pub open spec fn setting_at(s: Seq<char>, i: int, f: FrontView) -> Option<
    Result<(FrontView, int), Seq<char>>,
> {
    if starts_at(s, i, "key:"@) {
        Some(key_at(s, i + 4, f))
    } else if starts_at(s, i, "echo:"@) {
        Some(Ok(echo_at(s, i + 5, f)))
    } else if starts_at(s, i, "caption:"@) {
        Some(caption_at(s, i + 8, f))
    } else {
        None
    }
}

/// Where reading goes on behind a value that ends at byte offset `j`: at the next
/// marker where one follows on the line, else behind the rest of the line.
pub open spec fn behind_value(s: Seq<char>, j: int) -> int {
    let b = after_inline_ws(s, j);
    if starts_at(s, b, "#|"@) {
        b
    } else {
        j + line_end(tail(s, j))
    }
}

/// The option at byte offset `i`, which changes the options read so far, and where
/// reading it ended. An unknown option changes nothing and takes its line; where
/// no line feed ends the line, it ends the options.
pub open spec fn option_at(s: Seq<char>, i: int, f: FrontView) -> Result<
    (FrontView, Reach<int>),
    Seq<char>,
> {
    match setting_at(s, i, f) {
        Some(Ok((g, j))) => Ok((g, Reach::Next(behind_value(s, j)))),
        Some(Err(e)) => Err(e),
        None => match find(tail(s, i), "\n"@) {
            Some(k) => Ok((f, Reach::Next(i + k + 1))),
            None => Ok((f, Reach::End(i))),
        },
    }
}

/// The options from byte offset `i` on, which change those read so far, and the
/// byte offset at which the code behind them starts.
pub open spec fn options_at(s: Seq<char>, i: int, f: FrontView) -> Result<
    (FrontView, int),
    Seq<char>,
>
    recommends
        boundary(s, i),
    decreases width(s) - i,
        when boundary(s, i)
{
    let a = after_ws(s, i);
    if !starts_at(s, a, "#|"@) {
        Ok((f, a))
    } else {
        match option_at(s, after_inline_ws(s, a + 2), f) {
            Ok((g, Reach::Next(j))) => {
                proof {
                    lemma_option(s, i, f);
                }
                options_at(s, j, g)
            },
            Ok((g, Reach::End(j))) => Ok((g, j)),
            Err(e) => Err(e),
        }
    }
}

/// What options that were read up to a byte offset stand for.
pub open spec fn options_view(r: Result<(FrontMatter, usize), String>) -> Result<
    (FrontView, int),
    Seq<char>,
> {
    match r {
        Ok((f, j)) => Ok((f@, j as int)),
        Err(e) => Err(e@),
    }
}

/// What an option that was read stands for.
pub open spec fn option_view(r: Result<(FrontMatter, Reach<usize>), String>) -> Result<
    (FrontView, Reach<int>),
    Seq<char>,
> {
    match r {
        Ok((f, Reach::Next(j))) => Ok((f@, Reach::Next(j as int))),
        Ok((f, Reach::End(j))) => Ok((f@, Reach::End(j as int))),
        Err(e) => Err(e@),
    }
}

/// A value ends at a boundary that is not before its start.
pub proof fn lemma_value_at(s: Seq<char>, i: int, stop: char)
    requires
        boundary(s, i),
    ensures
        match value_at(s, i, stop) {
            Ok((v, j)) => i <= j <= width(s) && boundary(s, j),
            Err(_) => true,
        },
{
    lemma_quoted_at(s, i);
    lemma_plain_end(tail(s, i), stop);
    lemma_tail_tail(s, i, plain_end(tail(s, i), stop));
    lemma_boundary_range(s, i + plain_end(tail(s, i), stop));
}

/// A value of a known option ends at a boundary behind the start of the option.
pub proof fn lemma_setting_at(s: Seq<char>, i: int, f: FrontView)
    requires
        boundary(s, i),
    ensures
        match setting_at(s, i, f) {
            Some(Ok((g, j))) => i <= j <= width(s) && boundary(s, j),
            _ => true,
        },
{
    lemma_widths();
    if starts_at(s, i, "key:"@) {
        lemma_word(s, i, "key:"@);
        lemma_after_inline_ws(s, i + 4);
        lemma_value_at(s, after_inline_ws(s, i + 4), '\n');
    } else if starts_at(s, i, "echo:"@) {
        lemma_word(s, i, "echo:"@);
        lemma_after_inline_ws(s, i + 5);
        let j = after_inline_ws(s, i + 5);
        if starts_at(s, j, "true"@) {
            lemma_word(s, j, "true"@);
        } else if starts_at(s, j, "false"@) {
            lemma_word(s, j, "false"@);
        }
    } else if starts_at(s, i, "caption:"@) {
        lemma_word(s, i, "caption:"@);
        lemma_after_inline_ws(s, i + 8);
        let j = after_inline_ws(s, i + 8);
        if starts_at(s, j, "["@) {
            lemma_word(s, j, "["@);
            lemma_find(tail(s, j + 1), "]"@);
            if let Some(k) = find(tail(s, j + 1), "]"@) {
                lemma_tail_tail(s, j + 1, k + 1);
                lemma_boundary_range(s, j + 1 + k + 1);
                lemma_boundary_range(tail(s, j + 1), k);
            }
        } else {
            lemma_value_at(s, j, '\n');
        }
    }
}

/// Reading goes on at a boundary that is not before the end of the value.
pub proof fn lemma_behind_value(s: Seq<char>, j: int)
    requires
        boundary(s, j),
    ensures
        j <= behind_value(s, j) <= width(s),
        boundary(s, behind_value(s, j)),
{
    lemma_after_inline_ws(s, j);
    lemma_line_end(tail(s, j));
    lemma_tail_tail(s, j, line_end(tail(s, j)));
    lemma_boundary_range(s, j + line_end(tail(s, j)));
}

/// An option behind its marker starts and ends at a boundary behind `i`.
pub proof fn lemma_option(s: Seq<char>, i: int, f: FrontView)
    requires
        boundary(s, i),
        starts_at(s, after_ws(s, i), "#|"@),
    ensures
        boundary(s, after_ws(s, i) + 2),
        boundary(s, after_inline_ws(s, after_ws(s, i) + 2)),
        i + 2 <= after_inline_ws(s, after_ws(s, i) + 2) <= width(s),
        match option_at(s, after_inline_ws(s, after_ws(s, i) + 2), f) {
            Ok((g, Reach::Next(j))) => i + 2 <= j <= width(s) && boundary(s, j),
            Ok((g, Reach::End(j))) => i + 2 <= j <= width(s) && boundary(s, j),
            Err(_) => true,
        },
{
    lemma_widths();
    lemma_after_ws(s, i);
    lemma_word(s, after_ws(s, i), "#|"@);
    lemma_after_inline_ws(s, after_ws(s, i) + 2);
    let a = after_inline_ws(s, after_ws(s, i) + 2);
    lemma_setting_at(s, a, f);
    if let Some(Ok((g, j))) = setting_at(s, a, f) {
        lemma_behind_value(s, j);
    }
    lemma_find(tail(s, a), "\n"@);
    if let Some(k) = find(tail(s, a), "\n"@) {
        lemma_boundary_range(tail(s, a), k);
        lemma_tail_tail(s, a, k + 1);
        lemma_boundary_range(s, a + k + 1);
    }
}

/// Code starts at a boundary behind its options.
pub proof fn lemma_options_at(s: Seq<char>, i: int, f: FrontView)
    requires
        boundary(s, i),
    ensures
        match options_at(s, i, f) {
            Ok((g, j)) => i <= j <= width(s) && boundary(s, j),
            Err(_) => true,
        },
    decreases width(s) - i,
{
    lemma_after_ws(s, i);
    let a = after_ws(s, i);
    if starts_at(s, a, "#|"@) {
        lemma_option(s, i, f);
        if let Ok((g, Reach::Next(j))) = option_at(s, after_inline_ws(s, a + 2), f) {
            lemma_options_at(s, j, g);
        }
    }
}

/// Reads the value at byte offset `i`.
pub fn read_value(input: &str, i: usize, stop: char) -> (res: Result<(String, usize), String>)
    requires
        boundary(input@, i as int),
    ensures
        text_and_offset(res) == value_at(input@, i as int, stop),
{
    if starts_with_at(input, i, "\"") {
        parse_quoted_string(input, i)
    } else {
        let end: usize = plain_end_from(input, i, stop);
        Ok((trim(piece(input, i, end)).to_string(), end))
    }
}

/// Reads the value of the option `key` at byte offset `i`.
fn read_key(input: &str, i: usize, front: FrontMatter) -> (res: Result<
    (FrontMatter, usize),
    String,
>)
    requires
        boundary(input@, i as int),
    ensures
        options_view(res) == key_at(input@, i as int, front@),
{
    match read_value(input, skip_inline_ws(input, i), '\n') {
        Ok((v, j)) => Ok(
            (FrontMatter { key: Some(v), echo: front.echo, caption: front.caption }, j),
        ),
        Err(e) => Err(e),
    }
}

/// Reads the value of the option `echo` at byte offset `i`.
fn read_echo(input: &str, i: usize, front: FrontMatter) -> (res: (FrontMatter, usize))
    requires
        boundary(input@, i as int),
    ensures
        (res.0@, res.1 as int) == echo_at(input@, i as int, front@),
{
    let j: usize = skip_inline_ws(input, i);
    proof {
        lemma_widths();
    }
    let FrontMatter { key, echo: _, caption } = front;
    if starts_with_at(input, j, "true") {
        (FrontMatter { key, echo: true, caption }, j + 4)
    } else if starts_with_at(input, j, "false") {
        (FrontMatter { key, echo: false, caption }, j + 5)
    } else {
        (FrontMatter { key, echo: true, caption }, i)
    }
}

/// Reads the value of the option `caption` at byte offset `i`.
fn read_caption(input: &str, i: usize, front: FrontMatter) -> (res: Result<
    (FrontMatter, usize),
    String,
>)
    requires
        boundary(input@, i as int),
    ensures
        options_view(res) == caption_at(input@, i as int, front@),
{
    let j: usize = skip_inline_ws(input, i);
    proof {
        lemma_widths();
    }
    if starts_with_at(input, j, "[") {
        match find_from(input, j + 1, "]") {
            Some(close) => {
                let caption = Some(piece(input, j + 1, close).to_string());
                Ok((FrontMatter { key: front.key, echo: front.echo, caption }, close + 1))
            },
            None => Ok((front, j + 1)),
        }
    } else {
        match read_value(input, j, '\n') {
            Ok((v, k)) => Ok(
                (FrontMatter { key: front.key, echo: front.echo, caption: Some(v) }, k),
            ),
            Err(e) => Err(e),
        }
    }
}

/// Where reading goes on behind a value that ends at byte offset `j`.
fn pass_value(input: &str, j: usize) -> (k: usize)
    requires
        boundary(input@, j as int),
    ensures
        k == behind_value(input@, j as int),
{
    let b: usize = skip_inline_ws(input, j);
    if starts_with_at(input, b, "#|") {
        b
    } else {
        line_end_from(input, j)
    }
}

/// Reads the option at byte offset `i`, which changes the options read so far, and
/// what is passed over behind it.
fn read_option(input: &str, i: usize, front: FrontMatter) -> (res: Result<
    (FrontMatter, Reach<usize>),
    String,
>)
    requires
        boundary(input@, i as int),
    ensures
        option_view(res) == option_at(input@, i as int, front@),
{
    proof {
        lemma_widths();
        lemma_setting_at(input@, i as int, front@);
    }
    let (front, end) = if starts_with_at(input, i, "key:") {
        match read_key(input, i + 4, front) {
            Ok(read) => read,
            Err(e) => {
                return Err(e);
            },
        }
    } else if starts_with_at(input, i, "echo:") {
        read_echo(input, i + 5, front)
    } else if starts_with_at(input, i, "caption:") {
        match read_caption(input, i + 8, front) {
            Ok(read) => read,
            Err(e) => {
                return Err(e);
            },
        }
    } else {
        match find_from(input, i, "\n") {
            Some(line_feed) => {
                return Ok((front, Reach::Next(line_feed + 1)));
            },
            None => {
                return Ok((front, Reach::End(i)));
            },
        }
    };
    Ok((front, Reach::Next(pass_value(input, end))))
}

/// Reads the options from byte offset `i` on, and finds where the code behind
/// them starts.
pub fn read_options(input: &str, i: usize) -> (res: Result<(FrontMatter, usize), String>)
    requires
        boundary(input@, i as int),
    ensures
        options_view(res) == options_at(
            input@,
            i as int,
            (FrontView { key: None, echo: false, caption: None }),
        ),
{
    let mut front = FrontMatter { key: None, echo: false, caption: None };
    let n: usize = byte_len(input);
    let mut at: usize = i;
    let ghost goal = options_at(input@, i as int, front@);
    proof {
        assert(front@ =~= FrontView { key: None, echo: false, caption: None });
    }
    loop
        invariant
            n == width(input@),
            boundary(input@, at as int),
            goal == options_at(
                input@,
                i as int,
                (FrontView { key: None, echo: false, caption: None }),
            ),
            options_at(input@, at as int, front@) == goal,
        decreases n - at,
    {
        proof {
            lemma_widths();
            lemma_boundary_range(input@, at as int);
            lemma_after_ws(input@, at as int);
        }
        let a: usize = skip_ws(input, at);
        if !starts_with_at(input, a, "#|") {
            return Ok((front, a));
        }
        proof {
            lemma_option(input@, at as int, front@);
        }
        match read_option(input, skip_inline_ws(input, a + 2), front) {
            Ok((f, Reach::Next(j))) => {
                front = f;
                at = j;
            },
            Ok((f, Reach::End(j))) => {
                return Ok((f, j));
            },
            Err(e) => {
                return Err(e);
            },
        }
    }
}

} // verus!
