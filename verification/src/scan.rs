//! Words in a text, plain text up to a character, and the ends of lines.
use crate::text::{
    boundary, byte_len, char_at, char_len, char_width, head, lemma_boundary_range, lemma_ends,
    lemma_head_next, lemma_join, lemma_next, lemma_split, lemma_tail_tail, tail, width,
};
use vstd::prelude::*;
use vstd::string::*;

verus! {

/// Whether the text behind byte offset `i` starts with `word`.
pub open spec fn starts_at(s: Seq<char>, i: int, word: Seq<char>) -> bool {
    word.is_prefix_of(tail(s, i))
}

/// The byte offset at which `word` first occurs in `r`.
pub open spec fn find(r: Seq<char>, word: Seq<char>) -> Option<int>
    decreases r.len(),
{
    if word.is_prefix_of(r) {
        Some(0)
    } else if r.len() == 0 {
        None
    } else {
        match find(r.drop_first(), word) {
            Some(k) => Some(char_width(r[0]) + k),
            None => None,
        }
    }
}

/// How far the plain text at the start of `r` reaches: up to the character
/// `stop`, or to the end of `r`.
pub open spec fn plain_end(r: Seq<char>, stop: char) -> int
    decreases r.len(),
{
    if r.len() == 0 || r[0] == stop {
        0
    } else {
        char_width(r[0]) + plain_end(r.drop_first(), stop)
    }
}

/// How far the line at the start of `r` reaches: over its line feed, up to three
/// backquotes in front of it, or to the end of `r`.
pub open spec fn line_end(r: Seq<char>) -> int
    decreases r.len(),
{
    if r.len() == 0 || "```"@.is_prefix_of(r) {
        0
    } else if r[0] == '\n' {
        1
    } else {
        char_width(r[0]) + line_end(r.drop_first())
    }
}

/// The words of a document take one byte for each character.
pub proof fn lemma_widths()
    ensures
        width("```"@) == 3,
        width("```r"@) == 4,
        width("#|"@) == 2,
        width("key:"@) == 4,
        width("echo:"@) == 5,
        width("caption:"@) == 8,
        width("true"@) == 4,
        width("false"@) == 5,
        width("["@) == 1,
        width("]"@) == 1,
        width(")"@) == 1,
        width("\n"@) == 1,
        width("\""@) == 1,
        width("#codekey("@) == 9,
        width("#codechunk("@) == 11,
        width("#codeoutput("@) == 12,
{
    reveal_strlit("```");
    reveal_strlit("```r");
    reveal_strlit("#|");
    reveal_strlit("key:");
    reveal_strlit("echo:");
    reveal_strlit("caption:");
    reveal_strlit("true");
    reveal_strlit("false");
    reveal_strlit("[");
    reveal_strlit("]");
    reveal_strlit(")");
    reveal_strlit("\n");
    reveal_strlit("\"");
    reveal_strlit("#codekey(");
    reveal_strlit("#codechunk(");
    reveal_strlit("#codeoutput(");
    reveal_with_fuel(width, 13);
}

/// What `word` first occurring at `k` means: it stands there, and at no boundary
/// before.
pub proof fn lemma_find(r: Seq<char>, word: Seq<char>)
    ensures
        match find(r, word) {
            Some(k) => {
                &&& boundary(r, k)
                &&& word.is_prefix_of(tail(r, k))
                &&& k + width(word) <= width(r)
                &&& boundary(r, k + width(word))
                &&& tail(r, k + width(word)) == tail(r, k).skip(word.len() as int)
                &&& forall|m: int|
                    m < k && #[trigger] boundary(r, m) ==> !word.is_prefix_of(tail(r, m))
            },
            None => forall|m: int| #[trigger]
                boundary(r, m) ==> !word.is_prefix_of(tail(r, m)),
        },
    decreases r.len(),
{
    if word.is_prefix_of(r) {
        lemma_ends(r);
        lemma_word(r, 0, word);
        assert forall|m: int| m < 0 && #[trigger] boundary(r, m) implies !word.is_prefix_of(
            tail(r, m),
        ) by {
            lemma_boundary_range(r, m);
        }
    } else if r.len() > 0 {
        let t = r.drop_first();
        let w = char_width(r[0]);
        lemma_find(t, word);
        lemma_ends(r);
        lemma_ends(t);
        lemma_next(r, 0);
        if let Some(k) = find(t, word) {
            lemma_boundary_range(t, k);
            lemma_tail_tail(r, w, k);
            lemma_word(r, w + k, word);
        }
        assert forall|m: int| #[trigger]
            boundary(r, m) && word.is_prefix_of(tail(r, m)) implies boundary(t, m - w)
            && word.is_prefix_of(tail(t, m - w)) by {
            if m == 0 {
                assert(tail(r, 0) == r);
            }
        }
    }
}

/// Behind a word that the text at a boundary starts with is a boundary again.
pub proof fn lemma_word(s: Seq<char>, i: int, word: Seq<char>)
    requires
        boundary(s, i),
        starts_at(s, i, word),
    ensures
        boundary(s, i + width(word)),
        tail(s, i + width(word)) == tail(s, i).skip(word.len() as int),
        i + width(word) <= width(s),
        width(word) >= word.len(),
{
    let r = tail(s, i);
    let rest = r.skip(word.len() as int);
    assert(r =~= word + rest);
    lemma_join(word, rest);
    lemma_tail_tail(s, i, width(word));
    lemma_boundary_range(s, i + width(word));
    lemma_ends(word);
}

/// Plain text ends at a boundary.
pub proof fn lemma_plain_end(r: Seq<char>, stop: char)
    ensures
        0 <= plain_end(r, stop) <= width(r),
        boundary(r, plain_end(r, stop)),
    decreases r.len(),
{
    lemma_ends(r);
    if r.len() > 0 && r[0] != stop {
        let t = r.drop_first();
        lemma_plain_end(t, stop);
        lemma_next(r, 0);
        lemma_tail_tail(r, char_width(r[0]), plain_end(t, stop));
    }
}

/// A line ends at a boundary.
pub proof fn lemma_line_end(r: Seq<char>)
    ensures
        0 <= line_end(r) <= width(r),
        boundary(r, line_end(r)),
    decreases r.len(),
{
    lemma_ends(r);
    if r.len() > 0 {
        let t = r.drop_first();
        lemma_line_end(t);
        lemma_next(r, 0);
        lemma_tail_tail(r, char_width(r[0]), line_end(t));
    }
}

/// Whether the text behind byte offset `i` starts with `word`.
pub fn starts_with_at(input: &str, i: usize, word: &str) -> (b: bool)
    requires
        boundary(input@, i as int),
    ensures
        b == starts_at(input@, i as int, word@),
        b ==> i + width(word@) <= width(input@) <= usize::MAX,
        b ==> boundary(input@, i + width(word@)),
        b ==> tail(input@, i + width(word@)) == tail(input@, i as int).skip(word@.len() as int),
{
    let n: usize = byte_len(input);
    let m: usize = byte_len(word);
    let mut j: usize = i;
    let mut k: usize = 0;
    proof {
        lemma_ends(word@);
        lemma_ends(input@);
        lemma_boundary_range(input@, i as int);
        assert(head(word@, 0) =~= Seq::empty());
        assert(Seq::<char>::empty() + tail(input@, i as int) =~= tail(input@, i as int));
    }
    while k < m
        invariant
            n == width(input@),
            m == width(word@),
            j <= n,
            k <= m,
            boundary(input@, i as int),
            boundary(input@, j as int),
            boundary(word@, k as int),
            tail(input@, n as int).len() == 0,
            tail(input@, i as int) == head(word@, k as int) + tail(input@, j as int),
        decreases m - k,
    {
        let c = char_at(word, k);
        proof {
            lemma_split(word@, k as int);
            let p = head(word@, k as int);
            let r = tail(input@, i as int);
            assert(word@[p.len() as int] == c);
            assert(word@.is_prefix_of(r) ==> r[p.len() as int] == word@[p.len() as int]);
        }
        if j >= n {
            return false;
        }
        let d = char_at(input, j);
        if c != d {
            return false;
        }
        proof {
            lemma_head_next(word@, k as int);
            assert(head(word@, k as int).push(c) + tail(input@, j as int).drop_first() =~= head(
                word@,
                k as int,
            ) + tail(input@, j as int));
        }
        j = j + char_len(d);
        k = k + char_len(c);
    }
    proof {
        lemma_split(word@, m as int);
        lemma_ends(word@);
        assert(head(word@, m as int) =~= word@);
        lemma_word(input@, i as int, word@);
    }
    true
}

/// The byte offset at which `word` first occurs from byte offset `i` on.
pub fn find_from(input: &str, i: usize, word: &str) -> (res: Option<usize>)
    requires
        boundary(input@, i as int),
    ensures
        match res {
            Some(j) => {
                &&& find(tail(input@, i as int), word@) == Some(j - i)
                &&& i <= j
                &&& boundary(input@, j as int)
                &&& starts_at(input@, j as int, word@)
                &&& j + width(word@) <= width(input@) <= usize::MAX
                &&& boundary(input@, j + width(word@))
                &&& tail(input@, j + width(word@)) == tail(input@, j as int).skip(
                    word@.len() as int,
                )
            },
            None => find(tail(input@, i as int), word@) is None,
        },
{
    let n: usize = byte_len(input);
    let mut j: usize = i;
    proof {
        lemma_ends(input@);
        lemma_boundary_range(input@, i as int);
    }
    while j < n
        invariant
            n == width(input@),
            tail(input@, n as int).len() == 0,
            i <= j <= n,
            boundary(input@, j as int),
            match find(tail(input@, j as int), word@) {
                Some(k) => find(tail(input@, i as int), word@) == Some(j - i + k),
                None => find(tail(input@, i as int), word@) is None,
            },
        decreases n - j,
    {
        if starts_with_at(input, j, word) {
            return Some(j);
        }
        let c = char_at(input, j);
        j = j + char_len(c);
    }
    if starts_with_at(input, j, word) {
        return Some(j);
    }
    None
}

/// The byte offset up to which the plain text behind byte offset `i` reaches.
pub fn plain_end_from(input: &str, i: usize, stop: char) -> (j: usize)
    requires
        boundary(input@, i as int),
    ensures
        j == i + plain_end(tail(input@, i as int), stop),
        i <= j <= width(input@),
        boundary(input@, j as int),
{
    let n: usize = byte_len(input);
    let mut j: usize = i;
    proof {
        lemma_ends(input@);
        lemma_boundary_range(input@, i as int);
    }
    while j < n
        invariant
            n == width(input@),
            tail(input@, n as int).len() == 0,
            i <= j <= n,
            boundary(input@, j as int),
            i + plain_end(tail(input@, i as int), stop) == j + plain_end(
                tail(input@, j as int),
                stop,
            ),
        decreases n - j,
    {
        let c = char_at(input, j);
        if c == stop {
            return j;
        }
        j = j + char_len(c);
    }
    j
}

/// The byte offset up to which the line at byte offset `i` reaches.
pub fn line_end_from(input: &str, i: usize) -> (j: usize)
    requires
        boundary(input@, i as int),
    ensures
        j == i + line_end(tail(input@, i as int)),
        i <= j <= width(input@),
        boundary(input@, j as int),
{
    let n: usize = byte_len(input);
    let mut j: usize = i;
    proof {
        lemma_ends(input@);
        lemma_boundary_range(input@, i as int);
    }
    while j < n
        invariant
            n == width(input@),
            tail(input@, n as int).len() == 0,
            i <= j <= n,
            boundary(input@, j as int),
            i + line_end(tail(input@, i as int)) == j + line_end(tail(input@, j as int)),
        decreases n - j,
    {
        if starts_with_at(input, j, "```") {
            return j;
        }
        let c = char_at(input, j);
        if c == '\n' {
            return j + 1;
        }
        j = j + char_len(c);
    }
    j
}

} // verus!
