//! Places in a text, as lines and columns, and the messages that name them.
use crate::text::{
    boundary, byte_len, char_at, char_len, char_width, head, lemma_ends, lemma_head_next, tail,
    width,
};
use vstd::prelude::*;
use vstd::string::*;

verus! {

/// The digit `d` as a character.
pub open spec fn digit(d: int) -> char {
    (0x30 + d) as char
}

/// A number in decimal notation.
pub open spec fn decimal(n: int) -> Seq<char>
    decreases n,
{
    if n < 10 {
        seq![digit(n)]
    } else {
        decimal(n / 10).push(digit(n % 10))
    }
}

/// The leading characters of `s` that start before byte offset `idx`.
pub open spec fn chars_before(s: Seq<char>, idx: int) -> Seq<char>
    decreases s.len(),
{
    if idx <= 0 || s.len() == 0 {
        Seq::empty()
    } else {
        seq![s[0]] + chars_before(s.drop_first(), idx - char_width(s[0]))
    }
}

/// The line on which the text behind `p` goes on, counted from one.
pub open spec fn line_after(p: Seq<char>) -> int {
    1 + p.filter(|c: char| c == '\n').len() as int
}

/// The column in which the text behind `p` goes on, counted from one.
pub open spec fn column_after(p: Seq<char>) -> int
    decreases p.len(),
{
    if p.len() == 0 || p.last() == '\n' {
        1
    } else {
        column_after(p.drop_last()) + 1
    }
}

/// The line and the column of byte offset `idx` of `s`, in words.
pub open spec fn label(s: Seq<char>, idx: int) -> Seq<char> {
    let p = chars_before(s, idx);
    "line "@ + decimal(line_after(p)) + ", col "@ + decimal(column_after(p))
}

/// A message about byte offset `idx` of `s`.
pub open spec fn error_text(s: Seq<char>, idx: int, message: Seq<char>) -> Seq<char> {
    message + " at "@ + label(s, idx)
}

/// `n` in decimal notation.
pub fn decimal_text(n: u128) -> (r: String)
    ensures
        r@ == decimal(n as int),
    decreases n,
{
    let mut r: String = if n < 10 {
        String::new()
    } else {
        decimal_text(n / 10)
    };
    let d: u8 = (n % 10) as u8;
    r.push((0x30 + d) as char);
    proof {
        if n < 10 {
            assert(r@ =~= seq![digit(n as int)]);
        }
    }
    r
}

/// The line and the column of byte offset `idx` of `input`, in words. An offset
/// inside a character counts as behind that character, one behind the end of
/// the text as its end.
pub fn position_label(input: &str, idx: usize) -> (r: String)
    ensures
        r@ == label(input@, idx as int),
{
    let n: usize = byte_len(input);
    let mut line: u128 = 1;
    let mut col: u128 = 1;
    let mut j: usize = 0;
    proof {
        lemma_ends(input@);
        assert(head(input@, 0) =~= Seq::empty());
        assert(Seq::<char>::empty() + chars_before(input@, idx as int) =~= chars_before(
            input@,
            idx as int,
        ));
    }
    while j < n && j < idx
        invariant
            n == width(input@),
            tail(input@, n as int).len() == 0,
            j <= n,
            boundary(input@, j as int),
            chars_before(input@, idx as int) == head(input@, j as int) + chars_before(
                tail(input@, j as int),
                idx - j,
            ),
            line == line_after(head(input@, j as int)),
            col == column_after(head(input@, j as int)),
            1 <= line <= 1 + j,
            1 <= col <= 1 + j,
        decreases n - j,
    {
        let c = char_at(input, j);
        proof {
            let p = head(input@, j as int);
            let r = tail(input@, j as int);
            lemma_head_next(input@, j as int);
            assert(p.push(c).drop_last() =~= p);
            reveal(Seq::filter);
            assert(p + (seq![c] + chars_before(r.drop_first(), idx - j - char_width(c)))
                =~= p.push(c) + chars_before(r.drop_first(), idx - j - char_width(c)));
        }
        j = j + char_len(c);
        if c == '\n' {
            line = line + 1;
            col = 1;
        } else {
            col = col + 1;
        }
    }
    proof {
        assert(head(input@, j as int) + Seq::empty() =~= head(input@, j as int));
    }
    let mut r: String = String::new();
    r.append("line ");
    r.append(decimal_text(line).as_str());
    r.append(", col ");
    r.append(decimal_text(col).as_str());
    proof {
        assert(Seq::<char>::empty() + "line "@ =~= "line "@);
    }
    r
}

/// A message about byte offset `idx` of `input`.
pub fn parse_error(input: &str, idx: usize, message: &str) -> (r: String)
    ensures
        r@ == error_text(input@, idx as int, message@),
{
    let mut r: String = String::new();
    r.append(message);
    r.append(" at ");
    r.append(position_label(input, idx).as_str());
    proof {
        assert(Seq::<char>::empty() + message@ =~= message@);
    }
    r
}

} // verus!
