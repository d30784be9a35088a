//! Single characters, quoted strings and truth values in a document.
use crate::position::{error_text, label, parse_error, position_label};
use crate::scan::{starts_at, starts_with_at};
use crate::text::{
    boundary, byte_len, char_at, char_len, char_width, is_boundary, lemma_boundary_range,
    lemma_ends, lemma_next, lemma_tail_tail, tail, width,
};
use crate::whitespace::{after_ws, lemma_after_ws, skip_ws};
use vstd::prelude::*;
use vstd::string::*;

verus! {

/// What a character behind a backslash stands for.
pub open spec fn unescaped(c: char) -> char {
    if c == 'n' {
        '\n'
    } else if c == 'r' {
        '\r'
    } else if c == 't' {
        '\t'
    } else {
        c
    }
}

/// The text of a quoted string and the number of bytes that it takes with its
/// closing quote, where `r` is what stands behind the opening quote. There is
/// none where no quote closes it.
pub open spec fn quoted_body(r: Seq<char>) -> Option<(Seq<char>, int)>
    decreases r.len(),
{
    if r.len() == 0 {
        None
    } else if r[0] == '"' {
        Some((Seq::empty(), 1))
    } else if r[0] == '\\' {
        match escaped_body(r.drop_first()) {
            Some((v, n)) => Some((v, 1 + n)),
            None => None,
        }
    } else {
        match quoted_body(r.drop_first()) {
            Some((v, n)) => Some((seq![r[0]] + v, char_width(r[0]) + n)),
            None => None,
        }
    }
}

/// As `quoted_body`, where a backslash stands in front of `r`.
pub open spec fn escaped_body(r: Seq<char>) -> Option<(Seq<char>, int)>
    decreases r.len(),
{
    if r.len() == 0 {
        None
    } else {
        match quoted_body(r.drop_first()) {
            Some((v, n)) => Some((seq![unescaped(r[0])] + v, char_width(r[0]) + n)),
            None => None,
        }
    }
}

/// The quoted string that starts at byte offset `i`, and the byte offset behind
/// it; or what is wrong there.
pub open spec fn quoted_at(s: Seq<char>, i: int) -> Result<(Seq<char>, int), Seq<char>> {
    if !boundary(s, i) || i == width(s) {
        Err(error_text(s, i, "expected string literal"@))
    } else if tail(s, i)[0] != '"' {
        Err(error_text(s, i, "expected opening '\"'"@))
    } else {
        match quoted_body(tail(s, i).drop_first()) {
            Some((v, n)) => Ok((v, i + 1 + n)),
            None => Err(error_text(s, width(s), "unterminated string literal"@)),
        }
    }
}

/// The byte offset behind the character `c` at byte offset `i`; or the message,
/// where another character or none stands there.
pub open spec fn expected_at(s: Seq<char>, i: int, c: char, message: Seq<char>) -> Result<
    int,
    Seq<char>,
> {
    if boundary(s, i) && i < width(s) && tail(s, i)[0] == c {
        Ok(i + char_width(c))
    } else {
        Err(error_text(s, i, message))
    }
}

/// The truth value behind the white space at byte offset `i`, and the byte
/// offset behind it; or what is wrong there.
pub open spec fn bool_at(s: Seq<char>, i: int) -> Result<(bool, int), Seq<char>> {
    let j = after_ws(s, i);
    if starts_at(s, j, "true"@) {
        Ok((true, j + 4))
    } else if starts_at(s, j, "false"@) {
        Ok((false, j + 5))
    } else {
        Err("expected boolean value at "@ + label(s, j))
    }
}

/// What a text with the byte offset behind it, or a message, stands for.
pub open spec fn text_and_offset(r: Result<(String, usize), String>) -> Result<
    (Seq<char>, int),
    Seq<char>,
> {
    match r {
        Ok((v, j)) => Ok((v@, j as int)),
        Err(e) => Err(e@),
    }
}

/// A quoted string ends behind its start, at a boundary.
pub proof fn lemma_quoted_body(r: Seq<char>)
    ensures
        match quoted_body(r) {
            Some((v, n)) => 1 <= n && boundary(r, n),
            None => true,
        },
        match escaped_body(r) {
            Some((v, n)) => 1 <= n && boundary(r, n),
            None => true,
        },
    decreases r.len(),
{
    if r.len() > 0 {
        let t = r.drop_first();
        lemma_quoted_body(t);
        lemma_ends(r);
        lemma_ends(t);
        lemma_next(r, 0);
    }
}

/// A quoted string ends behind its start, at a boundary.
pub proof fn lemma_quoted_at(s: Seq<char>, i: int)
    ensures
        match quoted_at(s, i) {
            Ok((v, j)) => i + 2 <= j <= width(s) && boundary(s, j),
            Err(_) => true,
        },
{
    if let Ok((v, j)) = quoted_at(s, i) {
        lemma_boundary_range(s, i);
        lemma_next(s, i);
        lemma_quoted_body(tail(s, i).drop_first());
        lemma_tail_tail(s, i + 1, j - i - 1);
        lemma_boundary_range(s, j);
    }
}

/// Reads the quoted string that starts at byte offset `i`. A backslash in it
/// stands for a line feed before `n`, a carriage return before `r`, a tab before
/// `t`, and the next character itself before any other.
pub fn parse_quoted_string(input: &str, i: usize) -> (res: Result<(String, usize), String>)
    ensures
        text_and_offset(res) == quoted_at(input@, i as int),
{
    let n: usize = byte_len(input);
    if !is_boundary(input, i) || i == n {
        return Err(parse_error(input, i, "expected string literal"));
    }
    proof {
        lemma_boundary_range(input@, i as int);
        lemma_ends(input@);
    }
    let first = char_at(input, i);
    if first != '"' {
        return Err(parse_error(input, i, "expected opening '\"'"));
    }
    let start: usize = i + 1;
    let mut j: usize = start;
    let mut out: String = String::new();
    let mut escaped: bool = false;
    let ghost body = tail(input@, start as int);
    while j < n
        invariant
            n == width(input@),
            tail(input@, n as int).len() == 0,
            start <= j <= n,
            boundary(input@, j as int),
            body == tail(input@, start as int),
            start == i + 1,
            quoted_at(input@, i as int) == (match quoted_body(body) {
                Some((v, k)) => Ok::<(Seq<char>, int), Seq<char>>((v, i + 1 + k)),
                None => Err(
                    error_text(input@, width(input@), "unterminated string literal"@),
                ),
            }),
            quoted_body(body) == (match if escaped {
                escaped_body(tail(input@, j as int))
            } else {
                quoted_body(tail(input@, j as int))
            } {
                Some((v, k)) => Some((out@ + v, j - start + k)),
                None => None,
            }),
        decreases n - j,
    {
        let ch = char_at(input, j);
        let len: usize = char_len(ch);
        let ghost before = out@;
        if escaped {
            let meant: char = if ch == 'n' {
                '\n'
            } else if ch == 'r' {
                '\r'
            } else if ch == 't' {
                '\t'
            } else {
                ch
            };
            out.push(meant);
            escaped = false;
            j = j + len;
            proof {
                if let Some((v, k)) = quoted_body(tail(input@, j as int)) {
                    assert(before + (seq![meant] + v) =~= out@ + v);
                }
            }
        } else if ch == '\\' {
            escaped = true;
            j = j + len;
        } else if ch == '"' {
            j = j + len;
            proof {
                assert(out@ + Seq::<char>::empty() =~= out@);
            }
            return Ok((out, j));
        } else {
            out.push(ch);
            j = j + len;
            proof {
                if let Some((v, k)) = quoted_body(tail(input@, j as int)) {
                    assert(before + (seq![ch] + v) =~= out@ + v);
                }
            }
        }
    }
    Err(parse_error(input, j, "unterminated string literal"))
}

/// Reads the character `expected` at byte offset `i`.
pub fn expect_char(input: &str, i: usize, expected: char, message: &str) -> (res: Result<
    usize,
    String,
>)
    ensures
        match res {
            Ok(j) => expected_at(input@, i as int, expected, message@) == Ok::<int, Seq<char>>(
                j as int,
            ),
            Err(e) => expected_at(input@, i as int, expected, message@) == Err::<int, Seq<char>>(
                e@,
            ),
        },
{
    if is_boundary(input, i) && i < byte_len(input) {
        let ch = char_at(input, i);
        if ch == expected {
            return Ok(i + char_len(ch));
        }
    }
    Err(parse_error(input, i, message))
}

/// Reads the truth value behind the white space at byte offset `i`.
pub fn parse_bool(input: &str, i: usize) -> (res: Result<(bool, usize), String>)
    requires
        boundary(input@, i as int),
    ensures
        match res {
            Ok((b, j)) => bool_at(input@, i as int) == Ok::<(bool, int), Seq<char>>(
                (b, j as int),
            ),
            Err(e) => bool_at(input@, i as int) == Err::<(bool, int), Seq<char>>(e@),
        },
{
    let j: usize = skip_ws(input, i);
    proof {
        lemma_boundary_range(input@, i as int);
        lemma_ends(input@);
        lemma_after_ws(input@, i as int);
        reveal_strlit("true");
        reveal_strlit("false");
        lemma_ends("true"@);
        lemma_ends("false"@);
    }
    if starts_with_at(input, j, "true") {
        Ok((true, j + 4))
    } else if starts_with_at(input, j, "false") {
        Ok((false, j + 5))
    } else {
        let mut message: String = String::new();
        message.append("expected boolean value at ");
        message.append(position_label(input, j).as_str());
        proof {
            assert(Seq::<char>::empty() + "expected boolean value at "@
                =~= "expected boolean value at "@);
        }
        Err(message)
    }
}

} // verus!
