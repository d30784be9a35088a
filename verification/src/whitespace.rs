//! White space, and text without the white space at its ends.
use crate::text::{
    between, boundary, byte_len, char_at, char_len, char_width, head, lemma_boundary_range,
    lemma_ends, lemma_head_next, lemma_join, lemma_split, lemma_tail_tail, piece, rest_of, tail,
    width,
};
use vstd::prelude::*;

verus! {

/// Whether a character has the Unicode property `White_Space`.
pub open spec fn white(c: char) -> bool {
    let code = c as u32;
    ||| 0x9 <= code <= 0xD
    ||| code == 0x20
    ||| code == 0x85
    ||| code == 0xA0
    ||| code == 0x1680
    ||| 0x2000 <= code <= 0x200A
    ||| code == 0x2028
    ||| code == 0x2029
    ||| code == 0x202F
    ||| code == 0x205F
    ||| code == 0x3000
}

/// A text without the white space that it starts with.
pub open spec fn trimmed_start(s: Seq<char>) -> Seq<char>
    decreases s.len(),
{
    if s.len() > 0 && white(s[0]) {
        trimmed_start(s.drop_first())
    } else {
        s
    }
}

/// A text without the white space that it ends with.
pub open spec fn trimmed_end(s: Seq<char>) -> Seq<char>
    decreases s.len(),
{
    if s.len() > 0 && white(s.last()) {
        trimmed_end(s.drop_last())
    } else {
        s
    }
}

/// A text without the white space at either end.
pub open spec fn trimmed(s: Seq<char>) -> Seq<char> {
    trimmed_end(trimmed_start(s))
}

/// Whether a text holds nothing but white space.
pub open spec fn blank(s: Seq<char>) -> bool {
    forall|k: int| 0 <= k < s.len() ==> white(#[trigger] s[k])
}

/// The first byte offset from `i` on at which no white space starts. Behind the
/// end of the text this is `i` itself.
pub open spec fn after_ws(s: Seq<char>, i: int) -> int
    recommends
        boundary(s, i) || i >= width(s),
{
    if i >= width(s) {
        i
    } else {
        width(s) - width(trimmed_start(tail(s, i)))
    }
}

/// How far the white space at the start of `r` reaches within its line.
pub open spec fn inline_ws(r: Seq<char>) -> int
    decreases r.len(),
{
    if r.len() > 0 && white(r[0]) && r[0] != '\n' {
        char_width(r[0]) + inline_ws(r.drop_first())
    } else {
        0
    }
}

/// The first byte offset from `i` on at which no white space starts, or a line
/// feed.
pub open spec fn after_inline_ws(s: Seq<char>, i: int) -> int
    recommends
        boundary(s, i),
{
    i + inline_ws(tail(s, i))
}

/// Whether `c` has the Unicode property `White_Space`.
pub fn is_whitespace(c: char) -> (b: bool)
    ensures
        b == white(c),
{
    let code: u32 = c as u32;
    (0x9 <= code && code <= 0xD) || code == 0x20 || code == 0x85 || code == 0xA0 || code == 0x1680
        || (0x2000 <= code && code <= 0x200A) || code == 0x2028 || code == 0x2029 || code == 0x202F
        || code == 0x205F || code == 0x3000
}

/// What `trimmed_start` takes off is white space.
pub proof fn lemma_trimmed_start(s: Seq<char>)
    ensures
        trimmed_start(s).len() <= s.len(),
        s == s.take(s.len() - trimmed_start(s).len()) + trimmed_start(s),
        blank(s.take(s.len() - trimmed_start(s).len())),
        trimmed_start(s).len() > 0 ==> !white(trimmed_start(s)[0]),
    decreases s.len(),
{
    if s.len() > 0 && white(s[0]) {
        let t = s.drop_first();
        lemma_trimmed_start(t);
        let n = t.len() - trimmed_start(t).len();
        assert forall|k: int| 0 <= k < s.len() implies #[trigger] s[k] == (s.take(n + 1)
            + trimmed_start(s))[k] by {
            if k > 0 {
                assert(t[k - 1] == (t.take(n) + trimmed_start(t))[k - 1]);
            }
        }
        assert(s =~= s.take(n + 1) + trimmed_start(s));
        assert forall|k: int| 0 <= k < n + 1 implies white(#[trigger] s.take(n + 1)[k]) by {
            if k > 0 {
                assert(t.take(n)[k - 1] == s.take(n + 1)[k]);
            }
        }
    } else {
        assert(s =~= s.take(0) + s);
    }
}

/// What `after_ws` finds: it skips white space only, stops at the end of the
/// text or at something else, and leaves the text without its leading white
/// space.
pub proof fn lemma_after_ws(s: Seq<char>, i: int)
    requires
        boundary(s, i),
    ensures
        i <= after_ws(s, i) <= width(s),
        boundary(s, after_ws(s, i)),
        tail(s, after_ws(s, i)) == trimmed_start(tail(s, i)),
        blank(between(s, i, after_ws(s, i))),
        after_ws(s, i) < width(s) ==> tail(s, after_ws(s, i)).len() > 0 && !white(
            tail(s, after_ws(s, i))[0],
        ),
{
    let r = tail(s, i);
    let p = r.take(r.len() - trimmed_start(r).len());
    lemma_split(s, i);
    lemma_ends(s);
    lemma_trimmed_start(r);
    lemma_join(p, trimmed_start(r));
    lemma_tail_tail(s, i, width(p));
    lemma_split(s, i + width(p));
    lemma_ends(trimmed_start(r));
}

/// Skipping white space a second time changes nothing.
pub proof fn lemma_after_ws_settles(s: Seq<char>, i: int)
    requires
        boundary(s, i) || i >= width(s),
    ensures
        after_ws(s, after_ws(s, i)) == after_ws(s, i),
{
    if i < width(s) {
        lemma_after_ws(s, i);
    }
}

/// White space within a line ends at a boundary.
pub proof fn lemma_after_inline_ws(s: Seq<char>, i: int)
    requires
        boundary(s, i),
    ensures
        i <= after_inline_ws(s, i) <= width(s),
        boundary(s, after_inline_ws(s, i)),
{
    lemma_inline_ws(tail(s, i));
    lemma_tail_tail(s, i, inline_ws(tail(s, i)));
    lemma_boundary_range(s, after_inline_ws(s, i));
}

proof fn lemma_inline_ws(r: Seq<char>)
    ensures
        0 <= inline_ws(r),
        boundary(r, inline_ws(r)),
    decreases r.len(),
{
    if r.len() > 0 && white(r[0]) && r[0] != '\n' {
        lemma_inline_ws(r.drop_first());
    }
}

/// A text holds nothing but white space exactly if nothing is left of it
/// without the white space at its ends.
pub proof fn lemma_blank_trimmed(s: Seq<char>)
    ensures
        blank(s) <==> trimmed(s).len() == 0,
    decreases s.len(),
{
    if s.len() > 0 {
        if white(s[0]) {
            lemma_blank_trimmed(s.drop_first());
            assert forall|k: int| blank(s.drop_first()) && 0 <= k < s.len() implies white(
                #[trigger] s[k],
            ) by {
                if k > 0 {
                    assert(s.drop_first()[k - 1] == s[k]);
                }
            }
        } else {
            lemma_trimmed_end_keeps(s);
        }
    }
}

proof fn lemma_trimmed_end_keeps(s: Seq<char>)
    requires
        s.len() > 0,
        !white(s[0]),
    ensures
        trimmed_end(s).len() > 0,
    decreases s.len(),
{
    if white(s.last()) {
        lemma_trimmed_end_keeps(s.drop_last());
    }
}

/// Moves `i` over the white space in front of it.
pub fn skip_ws(input: &str, i: usize) -> (j: usize)
    requires
        boundary(input@, i as int) || i >= width(input@),
    ensures
        j == after_ws(input@, i as int),
{
    let n: usize = byte_len(input);
    let mut j: usize = i;
    proof {
        lemma_ends(input@);
    }
    while j < n
        invariant
            n == width(input@),
            tail(input@, n as int).len() == 0,
            i < n ==> j <= n,
            i < n ==> boundary(input@, j as int),
            i < n ==> trimmed_start(tail(input@, j as int)) == trimmed_start(
                tail(input@, i as int),
            ),
            i >= n ==> j == i,
        ensures
            i >= n ==> j == i,
            i < n ==> boundary(input@, j as int),
            i < n ==> width(tail(input@, j as int)) == width(
                trimmed_start(tail(input@, i as int)),
            ),
        decreases n - j,
    {
        let c = char_at(input, j);
        if is_whitespace(c) {
            j = j + char_len(c);
        } else {
            break;
        }
    }
    proof {
        if i < n {
            lemma_split(input@, j as int);
        }
    }
    j
}

/// Moves `i` over the white space in front of it, up to the end of the line.
pub fn skip_inline_ws(input: &str, i: usize) -> (j: usize)
    requires
        boundary(input@, i as int),
    ensures
        j == after_inline_ws(input@, i as int),
        i <= j <= width(input@),
        boundary(input@, j as int),
{
    let n: usize = byte_len(input);
    let mut j: usize = i;
    proof {
        lemma_ends(input@);
        lemma_boundary_range(input@, i as int);
    }
    while j < n
        invariant
            n == width(input@),
            tail(input@, n as int).len() == 0,
            i <= j <= n,
            boundary(input@, j as int),
            after_inline_ws(input@, i as int) == after_inline_ws(input@, j as int),
        decreases n - j,
    {
        let c = char_at(input, j);
        if !is_whitespace(c) || c == '\n' {
            return j;
        }
        j = j + char_len(c);
    }
    j
}

/// `input` without the white space that it ends with.
pub fn trim_end(input: &str) -> (r: &str)
    ensures
        r@ == trimmed_end(input@),
{
    let n: usize = byte_len(input);
    let mut j: usize = 0;
    let mut end: usize = 0;
    proof {
        lemma_ends(input@);
        assert(head(input@, 0) =~= Seq::empty());
    }
    while j < n
        invariant
            n == width(input@),
            end <= j <= n,
            boundary(input@, j as int),
            boundary(input@, end as int),
            head(input@, end as int) == trimmed_end(head(input@, j as int)),
        decreases n - j,
    {
        let c = char_at(input, j);
        proof {
            lemma_head_next(input@, j as int);
            assert(head(input@, j as int).push(c).drop_last() =~= head(input@, j as int));
        }
        j = j + char_len(c);
        if !is_whitespace(c) {
            end = j;
        }
    }
    proof {
        lemma_split(input@, n as int);
        assert(head(input@, n as int) =~= input@) by {
            lemma_ends(input@);
        }
        lemma_ends(input@);
    }
    piece(input, 0, end)
}

/// `input` without the white space at either end.
pub fn trim(input: &str) -> (r: &str)
    ensures
        r@ == trimmed(input@),
{
    proof {
        lemma_ends(input@);
        lemma_after_ws(input@, 0);
    }
    trim_end(rest_of(input, skip_ws(input, 0)))
}

/// Whether `input` holds nothing but white space.
pub fn is_blank(input: &str) -> (b: bool)
    ensures
        b == blank(input@),
{
    proof {
        lemma_blank_trimmed(input@);
    }
    trim(input).is_empty()
}

} // verus!
