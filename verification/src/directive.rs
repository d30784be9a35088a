//! The calls in a document: `#codekey(..)`, `#codeoutput(..)` and
//! `#codechunk(..)[..]`.
use crate::bracket::{bracket_at, find_matching_bracket, lemma_bracket_at};
use crate::chunk::{Chunk, ChunkView};
use crate::frontmatter::{lemma_value_at, read_value, value_at};
use crate::literal::{
    expect_char, expected_at, lemma_quoted_at, parse_quoted_string, quoted_at, text_and_offset,
};
use crate::scan::{lemma_widths, lemma_word, starts_at, starts_with_at};
use crate::text::{
    between, boundary, byte_len, lemma_boundary_range, lemma_next, piece, width,
};
use crate::whitespace::{after_ws, lemma_after_ws, skip_ws};
use vstd::prelude::*;
use vstd::string::*;

verus! {

/// The quoted string behind the white space at byte offset `i`, and the byte
/// offset behind it and the white space that follows.
pub open spec fn argument_at(s: Seq<char>, i: int) -> Result<(Seq<char>, int), Seq<char>> {
    match quoted_at(s, after_ws(s, i)) {
        Ok((v, j)) => Ok((v, after_ws(s, j))),
        Err(e) => Err(e),
    }
}

/// The name in the `#codeoutput(..)` at byte offset `start`, and the byte offset
/// behind the call; or what is wrong there.
pub open spec fn codeoutput_at(s: Seq<char>, start: int) -> Result<(Seq<char>, int), Seq<char>> {
    match argument_at(s, start + 12) {
        Ok((name, i)) => match expected_at(s, i, ')', "expected ')' after codeoutput name"@) {
            Ok(j) => Ok((name, j)),
            Err(e) => Err(e),
        },
        Err(e) => Err(e),
    }
}

/// The body in square brackets at byte offset `i`, and the byte offset behind
/// it; or what is wrong there.
pub open spec fn body_at(s: Seq<char>, i: int) -> Result<(Seq<char>, int), Seq<char>> {
    match expected_at(s, i, '[', "expected '[' before chunk body"@) {
        Ok(j) => match bracket_at(s, j - 1) {
            Ok(end) => Ok((between(s, j, end), end + 1)),
            Err(e) => Err(e),
        },
        Err(e) => Err(e),
    }
}

/// The chunk in a `#codechunk(..)[..]` from the comma at byte offset `i` on, and
/// the byte offset behind the call; or what is wrong there.
pub open spec fn named_chunk_at(s: Seq<char>, i: int) -> Result<(ChunkView, int), Seq<char>> {
    match expected_at(s, i, ',', "expected ',' after language"@) {
        Err(e) => Err(e),
        Ok(a) => match argument_at(s, a) {
            Err(e) => Err(e),
            Ok((name, b)) => match expected_at(s, b, ')', "expected ')' after chunk name"@) {
                Err(e) => Err(e),
                Ok(c) => match body_at(s, after_ws(s, c)) {
                    Err(e) => Err(e),
                    Ok((code, j)) => Ok(
                        (ChunkView { name, code, key: None, echo: false, caption: None }, j),
                    ),
                },
            },
        },
    }
}

/// The chunk in the `#codechunk(..)[..]` at byte offset `start`, and the byte
/// offset behind the call; or what is wrong there. The first argument is the
/// language, the second the name; the body is the code.
pub open spec fn codechunk_at(s: Seq<char>, start: int) -> Result<(ChunkView, int), Seq<char>> {
    match argument_at(s, start + 11) {
        Err(e) => Err(e),
        Ok((_, i)) => named_chunk_at(s, i),
    }
}

/// The name in the `#codekey(..)` at byte offset `start`, and the byte offset
/// behind the call; or what is wrong there. The name is a quoted string or plain
/// text. Where no bracket closes the call, it ends with its name.
pub open spec fn codekey_at(s: Seq<char>, start: int) -> Result<(Seq<char>, int), Seq<char>>
    recommends
        boundary(s, start + 9),
{
    match value_at(s, after_ws(s, start + 9), ')') {
        Ok((name, i)) => {
            let j = after_ws(s, i);
            if starts_at(s, j, ")"@) {
                Ok((name, j + 1))
            } else {
                Ok((name, j))
            }
        },
        Err(e) => Err(e),
    }
}

/// A call of `#codekey` ends at a boundary behind its start.
pub proof fn lemma_codekey_at(s: Seq<char>, start: int)
    requires
        boundary(s, start + 9),
    ensures
        match codekey_at(s, start) {
            Ok((name, j)) => start + 9 <= j <= width(s) && boundary(s, j),
            Err(_) => true,
        },
{
    lemma_after_ws(s, start + 9);
    lemma_value_at(s, after_ws(s, start + 9), ')');
    if let Ok((name, i)) = value_at(s, after_ws(s, start + 9), ')') {
        lemma_after_ws(s, i);
        lemma_paren(s, after_ws(s, i));
    }
}

proof fn lemma_paren(s: Seq<char>, j: int)
    requires
        boundary(s, j),
    ensures
        starts_at(s, j, ")"@) ==> j + 1 <= width(s) && boundary(s, j + 1),
{
    lemma_widths();
    if starts_at(s, j, ")"@) {
        lemma_word(s, j, ")"@);
    }
}

/// Reads the quoted string behind the white space at byte offset `i`, and the
/// white space behind it.
fn read_argument(input: &str, i: usize) -> (res: Result<(String, usize), String>)
    requires
        boundary(input@, i as int) || i >= width(input@),
    ensures
        text_and_offset(res) == argument_at(input@, i as int),
        res matches Ok((v, j)) ==> boundary(input@, j as int) && j <= width(input@),
{
    let j: usize = skip_ws(input, i);
    proof {
        lemma_quoted_at(input@, j as int);
    }
    match parse_quoted_string(input, j) {
        Ok((v, next)) => {
            proof {
                lemma_after_ws(input@, next as int);
            }
            Ok((v, skip_ws(input, next)))
        },
        Err(e) => Err(e),
    }
}

/// Reads the body in square brackets at byte offset `i`.
fn read_body(input: &str, i: usize) -> (res: Result<(String, usize), String>)
    requires
        boundary(input@, i as int),
    ensures
        text_and_offset(res) == body_at(input@, i as int),
{
    proof {
        if i < width(input@) {
            lemma_next(input@, i as int);
        }
    }
    match expect_char(input, i, '[', "expected '[' before chunk body") {
        Ok(start) => {
            proof {
                lemma_bracket_at(input@, start - 1);
            }
            match find_matching_bracket(input, start - 1) {
                Ok(end) => {
                    let _ = byte_len(input);
                    Ok((piece(input, start, end).to_string(), end + 1))
                },
                Err(e) => Err(e),
            }
        },
        Err(e) => Err(e),
    }
}

/// Reads the `#codechunk(..)[..]` at byte offset `start`.
pub fn parse_codechunk_at(input: &str, start: usize) -> (res: Result<(Chunk, usize), String>)
    requires
        start + 11 <= usize::MAX,
        boundary(input@, start + 11) || start + 11 >= width(input@),
    ensures
        match res {
            Ok((chunk, j)) => codechunk_at(input@, start as int) == Ok::<
                (ChunkView, int),
                Seq<char>,
            >((chunk@, j as int)),
            Err(e) => codechunk_at(input@, start as int) == Err::<(ChunkView, int), Seq<char>>(
                e@,
            ),
        },
{
    let (_, i) = read_argument(input, start + 11)?;
    proof {
        if i < width(input@) {
            lemma_next(input@, i as int);
        }
    }
    let i: usize = expect_char(input, i, ',', "expected ',' after language")?;
    let (name, i) = read_argument(input, i)?;
    proof {
        if i < width(input@) {
            lemma_next(input@, i as int);
        }
    }
    let i: usize = expect_char(input, i, ')', "expected ')' after chunk name")?;
    proof {
        lemma_after_ws(input@, i as int);
    }
    let i: usize = skip_ws(input, i);
    let (code, end) = read_body(input, i)?;
    Ok((Chunk { name, code, key: None, echo: false, caption: None }, end))
}

/// Reads the `#codeoutput(..)` at byte offset `start`.
pub fn parse_codeoutput_at(input: &str, start: usize) -> (res: Result<(String, usize), String>)
    requires
        start + 12 <= usize::MAX,
        boundary(input@, start + 12) || start + 12 >= width(input@),
    ensures
        text_and_offset(res) == codeoutput_at(input@, start as int),
{
    let (name, i) = read_argument(input, start + 12)?;
    let i: usize = expect_char(input, i, ')', "expected ')' after codeoutput name")?;
    Ok((name, i))
}

/// Reads the `#codekey(..)` at byte offset `start`.
pub fn parse_codekey_at(input: &str, start: usize) -> (res: Result<(String, usize), String>)
    requires
        boundary(input@, start + 9),
    ensures
        text_and_offset(res) == codekey_at(input@, start as int),
{
    let _ = byte_len(input);
    proof {
        lemma_boundary_range(input@, start + 9);
        lemma_after_ws(input@, start + 9);
        lemma_value_at(input@, after_ws(input@, start + 9), ')');
    }
    let i: usize = skip_ws(input, start + 9);
    match read_value(input, i, ')') {
        Ok((name, end)) => {
            proof {
                lemma_after_ws(input@, end as int);
                lemma_paren(input@, after_ws(input@, end as int));
            }
            let j: usize = skip_ws(input, end);
            if starts_with_at(input, j, ")") {
                Ok((name, j + 1))
            } else {
                Ok((name, j))
            }
        },
        Err(e) => Err(e),
    }
}

} // verus!
