//! The closing bracket of a chunk body. Brackets in R comments and in R strings
//! do not count.
use crate::position::{error_text, parse_error};
use crate::text::{
    boundary, byte_len, char_at, char_len, lemma_ends, lemma_split, lemma_tail_tail, tail, width,
};
use vstd::prelude::*;

verus! {

/// Where in R code a reader is.
#[derive(Clone, Copy, PartialEq, Eq, Structural)]
pub enum Place {
    /// In code proper.
    Code,
    /// In a comment.
    Comment,
    /// In a string between single quotes.
    Single,
    /// In a string between single quotes, behind a backslash.
    SingleEscaped,
    /// In a string between double quotes.
    Double,
    /// In a string between double quotes, behind a backslash.
    DoubleEscaped,
}

/// Where a reader is behind the character `c`.
pub open spec fn place_behind(place: Place, c: char) -> Place {
    match place {
        Place::Code => if c == '#' {
            Place::Comment
        } else if c == '\'' {
            Place::Single
        } else if c == '"' {
            Place::Double
        } else {
            Place::Code
        },
        Place::Comment => if c == '\n' {
            Place::Code
        } else {
            Place::Comment
        },
        Place::Single => if c == '\\' {
            Place::SingleEscaped
        } else if c == '\'' {
            Place::Code
        } else {
            Place::Single
        },
        Place::SingleEscaped => Place::Single,
        Place::Double => if c == '\\' {
            Place::DoubleEscaped
        } else if c == '"' {
            Place::Code
        } else {
            Place::Double
        },
        Place::DoubleEscaped => Place::Double,
    }
}

/// Where a reader is that has read `p` from the start of the code.
pub open spec fn place_after(p: Seq<char>) -> Place
    decreases p.len(),
{
    if p.len() == 0 {
        Place::Code
    } else {
        place_behind(place_after(p.drop_last()), p.last())
    }
}

/// How many brackets are open behind `p`, where one is open before it.
pub open spec fn depth_after(p: Seq<char>) -> int
    decreases p.len(),
{
    if p.len() == 0 {
        1
    } else {
        let d = depth_after(p.drop_last());
        if place_after(p.drop_last()) != Place::Code {
            d
        } else if p.last() == '[' {
            d + 1
        } else if p.last() == ']' {
            d - 1
        } else {
            d
        }
    }
}

/// Whether the character at position `n` of `r` closes the bracket that is open
/// before `r`.
pub open spec fn closes(r: Seq<char>, n: int) -> bool {
    &&& 0 <= n < r.len()
    &&& r[n] == ']'
    &&& place_after(r.take(n)) == Place::Code
    &&& depth_after(r.take(n)) == 1
}

/// Whether `n` is the first position of `r` that closes the open bracket.
pub open spec fn closes_first(r: Seq<char>, n: int) -> bool {
    closes(r, n) && forall|m: int| 0 <= m < n ==> !#[trigger] closes(r, m)
}

/// The bytes between the open bracket before `r` and the bracket that closes it.
pub open spec fn body_width(r: Seq<char>) -> Option<int> {
    if exists|n: int| closes(r, n) {
        Some(width(r.take(choose|n: int| closes_first(r, n))))
    } else {
        None
    }
}

/// The byte offset of the bracket that closes the one at byte offset `open`; or
/// what is wrong there.
pub open spec fn bracket_at(s: Seq<char>, open: int) -> Result<int, Seq<char>> {
    let found = if open + 1 < width(s) {
        body_width(tail(s, open + 1))
    } else {
        None
    };
    match found {
        Some(n) => Ok(open + 1 + n),
        None => Err(error_text(s, open, "unclosed '[' in codechunk body"@)),
    }
}

/// At most one position is the first that closes the open bracket.
pub proof fn lemma_closes_once(r: Seq<char>, n: int, m: int)
    requires
        closes_first(r, n),
        closes_first(r, m),
    ensures
        n == m,
{
}

/// The bracket that is found is a closing bracket behind the open one.
pub proof fn lemma_bracket_at(s: Seq<char>, open: int)
    requires
        boundary(s, open + 1) || open + 1 >= width(s),
    ensures
        match bracket_at(s, open) {
            Ok(j) => {
                &&& open < j < width(s)
                &&& boundary(s, j)
                &&& tail(s, j).len() > 0
                &&& tail(s, j)[0] == ']'
                &&& boundary(s, j + 1)
            },
            Err(_) => true,
        },
{
    if open + 1 < width(s) {
        let r = tail(s, open + 1);
        if exists|n: int| closes(r, n) {
            lemma_first_exists(r, choose|n: int| closes(r, n));
            let n = choose|n: int| closes_first(r, n);
            assert(r =~= r.take(n) + r.skip(n));
            crate::text::lemma_join(r.take(n), r.skip(n));
            lemma_tail_tail(s, open + 1, width(r.take(n)));
            lemma_split(s, open + 1 + width(r.take(n)));
            lemma_ends(r.skip(n));
            crate::text::lemma_next(s, open + 1 + width(r.take(n)));
        }
    }
}

/// Where a position closes the open bracket, there is a first one that does.
pub proof fn lemma_first_exists(r: Seq<char>, n: int)
    requires
        closes(r, n),
    ensures
        exists|m: int| closes_first(r, m),
    decreases n,
{
    if exists|m: int| 0 <= m < n && closes(r, m) {
        lemma_first_exists(r, choose|m: int| 0 <= m < n && closes(r, m));
    } else {
        assert(closes_first(r, n));
    }
}

/// Where a reader is behind the character `c`.
fn next_place(place: Place, c: char) -> (next: Place)
    ensures
        next == place_behind(place, c),
{
    match place {
        Place::Code => if c == '#' {
            Place::Comment
        } else if c == '\'' {
            Place::Single
        } else if c == '"' {
            Place::Double
        } else {
            Place::Code
        },
        Place::Comment => if c == '\n' {
            Place::Code
        } else {
            Place::Comment
        },
        Place::Single => if c == '\\' {
            Place::SingleEscaped
        } else if c == '\'' {
            Place::Code
        } else {
            Place::Single
        },
        Place::SingleEscaped => Place::Single,
        Place::Double => if c == '\\' {
            Place::DoubleEscaped
        } else if c == '"' {
            Place::Code
        } else {
            Place::Double
        },
        Place::DoubleEscaped => Place::Double,
    }
}

/// Finds the bracket that closes the one at byte offset `open_idx`.
pub fn find_matching_bracket(input: &str, open_idx: usize) -> (res: Result<usize, String>)
    requires
        open_idx < usize::MAX,
        boundary(input@, open_idx + 1) || open_idx + 1 >= width(input@),
    ensures
        match res {
            Ok(j) => bracket_at(input@, open_idx as int) == Ok::<int, Seq<char>>(j as int),
            Err(e) => bracket_at(input@, open_idx as int) == Err::<int, Seq<char>>(e@),
        },
{
    let n: usize = byte_len(input);
    let start: usize = open_idx + 1;
    let mut i: usize = start;
    let mut depth: usize = 1;
    let mut place = Place::Code;
    let ghost r = tail(input@, start as int);
    let ghost mut k: int = 0;
    proof {
        lemma_ends(input@);
        if start < n {
            lemma_split(input@, start as int);
            lemma_ends(r);
            assert(r.take(0) =~= Seq::empty());
            assert(r.skip(0) =~= r);
        }
    }
    while i < n
        invariant
            n == width(input@),
            start == open_idx + 1,
            r == tail(input@, start as int),
            tail(input@, n as int).len() == 0,
            start <= i,
            start >= n ==> i == start,
            start < n ==> {
                &&& i <= n
                &&& boundary(input@, i as int)
                &&& 0 <= k <= r.len()
                &&& tail(input@, i as int) == r.skip(k)
                &&& width(r.take(k)) == i - start
                &&& place == place_after(r.take(k))
                &&& depth == depth_after(r.take(k))
                &&& 1 <= depth <= 1 + (i - start)
                &&& forall|m: int| 0 <= m < k ==> !#[trigger] closes(r, m)
            },
        decreases n - i,
    {
        let ch = char_at(input, i);
        proof {
            assert(r.skip(k)[0] == r[k]);
            assert(r.take(k + 1).drop_last() =~= r.take(k));
            assert(r.take(k + 1).last() == ch);
            assert(r.skip(k).drop_first() =~= r.skip(k + 1));
            assert(r.take(k + 1) =~= r.take(k) + seq![ch]);
            crate::text::lemma_join(r.take(k), seq![ch]);
            reveal_with_fuel(width, 2);
            assert(seq![ch].drop_first() =~= Seq::empty());
        }
        if place == Place::Code {
            if ch == '[' {
                depth = depth + 1;
            } else if ch == ']' {
                if depth == 1 {
                    proof {
                        assert(closes(r, k));
                        assert(closes_first(r, k));
                        lemma_closes_once(r, k, choose|m: int| closes_first(r, m));
                    }
                    return Ok(i);
                }
                depth = depth - 1;
            }
        }
        place = next_place(place, ch);
        i = i + char_len(ch);
        proof {
            k = k + 1;
        }
    }
    proof {
        if start < n {
            assert(r.skip(k).len() == 0);
        }
    }
    Err(parse_error(input, open_idx, "unclosed '[' in codechunk body"))
}

} // verus!
