//! Text by byte offset: how wide characters are in UTF-8, and which part of a
//! text starts at, ends before or lies between given byte offsets.
use vstd::prelude::*;
use vstd::string::*;
use vstd::utf8::*;

verus! {

/// The number of bytes that a character takes in UTF-8.
pub open spec fn char_width(c: char) -> int {
    if c as u32 <= 0x7F {
        1
    } else if c as u32 <= 0x7FF {
        2
    } else if c as u32 <= 0xFFFF {
        3
    } else {
        4
    }
}

/// The number of bytes that a text takes in UTF-8.
pub open spec fn width(s: Seq<char>) -> int
    decreases s.len(),
{
    if s.len() == 0 {
        0
    } else {
        char_width(s[0]) + width(s.drop_first())
    }
}

/// Whether a character of `s` starts at byte offset `i`, or `s` ends there.
pub open spec fn boundary(s: Seq<char>, i: int) -> bool
    decreases s.len(),
{
    i == 0 || (i > 0 && s.len() > 0 && boundary(s.drop_first(), i - char_width(s[0])))
}

/// The text of `s` from byte offset `i` on.
pub open spec fn tail(s: Seq<char>, i: int) -> Seq<char>
    recommends
        boundary(s, i),
    decreases s.len(),
{
    if i <= 0 || s.len() == 0 {
        s
    } else {
        tail(s.drop_first(), i - char_width(s[0]))
    }
}

/// The text of `s` before byte offset `i`.
pub open spec fn head(s: Seq<char>, i: int) -> Seq<char>
    recommends
        boundary(s, i),
{
    s.take(s.len() - tail(s, i).len())
}

/// The text of `s` from byte offset `a` up to byte offset `b`.
pub open spec fn between(s: Seq<char>, a: int, b: int) -> Seq<char>
    recommends
        boundary(s, a),
        boundary(s, b),
        a <= b,
{
    head(tail(s, a), b - a)
}

pub proof fn lemma_width_encoded(s: Seq<char>)
    ensures
        width(s) == encode_utf8(s).len(),
    decreases s.len(),
{
    if s.len() > 0 {
        char_is_scalar(s[0]);
        lemma_width_encoded(s.drop_first());
    }
}

proof fn lemma_encoded_first(s: Seq<char>)
    requires
        s.len() > 0,
    ensures
        length_of_first_scalar(encode_utf8(s)) == char_width(s[0]),
        pop_first_scalar(encode_utf8(s)) == encode_utf8(s.drop_first()),
        valid_utf8(encode_utf8(s)),
        encode_scalar(s[0] as u32).len() == char_width(s[0]),
{
    encode_utf8_valid_utf8(s);
    encode_utf8_first_scalar(s);
    char_is_scalar(s[0]);
    assert(pop_first_scalar(encode_utf8(s)) =~= encode_utf8(s.drop_first()));
}

proof fn lemma_boundary_encoded(s: Seq<char>, i: int)
    ensures
        boundary(s, i) == is_char_boundary(encode_utf8(s), i),
    decreases s.len(),
{
    encode_utf8_valid_utf8(s);
    lemma_width_encoded(s);
    if s.len() > 0 {
        lemma_encoded_first(s);
        lemma_boundary_encoded(s.drop_first(), i - char_width(s[0]));
        if i > width(s) {
            lemma_boundary_range(s, i);
        }
    }
}

/// Boundaries lie between the start and the end of the text.
pub proof fn lemma_boundary_range(s: Seq<char>, i: int)
    ensures
        boundary(s, i) ==> 0 <= i <= width(s),
        width(s) >= s.len(),
    decreases s.len(),
{
    if s.len() > 0 {
        lemma_boundary_range(s.drop_first(), i - char_width(s[0]));
    }
}

proof fn lemma_tail_encoded(s: Seq<char>, i: int)
    requires
        boundary(s, i),
    ensures
        0 <= i <= encode_utf8(s).len(),
        encode_utf8(tail(s, i)) == encode_utf8(s).subrange(i, encode_utf8(s).len() as int),
        encode_utf8(head(s, i)) == encode_utf8(s).subrange(0, i),
    decreases s.len(),
{
    lemma_boundary_range(s, i);
    lemma_width_encoded(s);
    if i == 0 {
        assert(head(s, i) =~= Seq::empty());
    } else {
        let rest = s.drop_first();
        let w = char_width(s[0]);
        lemma_encoded_first(s);
        lemma_tail_encoded(rest, i - w);
        lemma_tail_len(rest, i - w);
        assert(encode_utf8(s).subrange(i, encode_utf8(s).len() as int) =~= encode_utf8(
            rest,
        ).subrange(i - w, encode_utf8(rest).len() as int));
        assert(head(s, i).drop_first() =~= head(rest, i - w));
        assert(encode_utf8(s).subrange(0, i) =~= encode_scalar(s[0] as u32) + encode_utf8(
            rest,
        ).subrange(0, i - w));
    }
}

proof fn lemma_tail_len(s: Seq<char>, i: int)
    ensures
        tail(s, i).len() <= s.len(),
        tail(s, i) == s.skip(s.len() - tail(s, i).len()),
    decreases s.len(),
{
    if i > 0 && s.len() > 0 {
        lemma_tail_len(s.drop_first(), i - char_width(s[0]));
    }
}

proof fn lemma_encode_injective(a: Seq<char>, b: Seq<char>)
    requires
        encode_utf8(a) == encode_utf8(b),
    ensures
        a == b,
{
    encode_utf8_decode_utf8(a);
    encode_utf8_decode_utf8(b);
}

/// A text is what stands before a boundary followed by what stands after it,
/// and the offset of the boundary is the width of the first part.
pub proof fn lemma_split(s: Seq<char>, i: int)
    requires
        boundary(s, i),
    ensures
        s == head(s, i) + tail(s, i),
        width(head(s, i)) == i,
        width(tail(s, i)) == width(s) - i,
        0 <= i <= width(s),
{
    lemma_tail_len(s, i);
    lemma_tail_encoded(s, i);
    lemma_width_encoded(s);
    lemma_width_encoded(head(s, i));
    lemma_width_encoded(tail(s, i));
}

/// The end of the first of two texts is a boundary of both together.
pub proof fn lemma_join(a: Seq<char>, b: Seq<char>)
    ensures
        boundary(a + b, width(a)),
        tail(a + b, width(a)) == b,
        head(a + b, width(a)) == a,
        width(a + b) == width(a) + width(b),
        width(a) >= 0,
    decreases a.len(),
{
    lemma_boundary_range(a, 0);
    if a.len() == 0 {
        assert(a + b =~= b);
        assert(b.take(0) =~= a);
    } else {
        assert((a + b).drop_first() =~= a.drop_first() + b);
        lemma_join(a.drop_first(), b);
        assert((a + b).take(a.len() as int) =~= a);
    }
}

/// A boundary of the first of two texts is one of both together.
pub proof fn lemma_join_boundary(a: Seq<char>, b: Seq<char>, i: int)
    requires
        boundary(a, i),
    ensures
        boundary(a + b, i),
        tail(a + b, i) == tail(a, i) + b,
        head(a + b, i) == head(a, i),
    decreases a.len(),
{
    if i > 0 {
        assert((a + b).drop_first() =~= a.drop_first() + b);
        lemma_join_boundary(a.drop_first(), b, i - char_width(a[0]));
    }
    lemma_tail_len(a, i);
    assert(head(a + b, i) =~= head(a, i));
}

/// A boundary of the text behind a boundary is a boundary of the whole text.
pub proof fn lemma_tail_tail(s: Seq<char>, a: int, n: int)
    requires
        boundary(s, a),
        boundary(tail(s, a), n),
    ensures
        boundary(s, a + n),
        tail(s, a + n) == tail(tail(s, a), n),
        between(s, a, a + n) == head(tail(s, a), n),
    decreases s.len(),
{
    lemma_boundary_range(tail(s, a), n);
    if a > 0 {
        lemma_tail_tail(s.drop_first(), a - char_width(s[0]), n);
    }
}

/// Of two boundaries the later is a boundary of the text behind the earlier.
pub proof fn lemma_boundary_behind(s: Seq<char>, a: int, b: int)
    requires
        boundary(s, a),
        boundary(s, b),
        a <= b,
    ensures
        boundary(tail(s, a), b - a),
    decreases s.len(),
{
    lemma_boundary_range(s, a);
    if a > 0 {
        lemma_boundary_range(s.drop_first(), a - char_width(s[0]));
        lemma_boundary_behind(s.drop_first(), a - char_width(s[0]), b - char_width(s[0]));
    }
}

/// A text starts and ends at a boundary; what is left at its end is empty.
pub proof fn lemma_ends(s: Seq<char>)
    ensures
        boundary(s, 0),
        boundary(s, width(s)),
        tail(s, 0) == s,
        tail(s, width(s)).len() == 0,
        width(s) >= s.len(),
{
    lemma_boundary_range(s, 0);
    lemma_join(s, Seq::empty());
    assert(s + Seq::empty() =~= s);
}

/// Behind a boundary that is not the end stands a character, and behind that
/// character is the next boundary.
pub proof fn lemma_next(s: Seq<char>, i: int)
    requires
        boundary(s, i),
        i < width(s),
    ensures
        tail(s, i).len() > 0,
        boundary(s, i + char_width(tail(s, i)[0])),
        tail(s, i + char_width(tail(s, i)[0])) == tail(s, i).drop_first(),
        i + char_width(tail(s, i)[0]) <= width(s),
{
    lemma_split(s, i);
    let r = tail(s, i);
    assert(boundary(r, char_width(r[0]))) by {
        assert(boundary(r.drop_first(), 0));
    }
    assert(tail(r, char_width(r[0])) == r.drop_first()) by {
        assert(tail(r.drop_first(), 0) == r.drop_first());
    }
    lemma_tail_tail(s, i, char_width(r[0]));
    lemma_boundary_range(s, i + char_width(r[0]));
}

/// One character further on, the text before the boundary has that character
/// more.
pub proof fn lemma_head_next(s: Seq<char>, i: int)
    requires
        boundary(s, i),
        i < width(s),
    ensures
        head(s, i + char_width(tail(s, i)[0])) == head(s, i).push(tail(s, i)[0]),
{
    lemma_next(s, i);
    lemma_split(s, i);
    lemma_split(s, i + char_width(tail(s, i)[0]));
    assert(head(s, i + char_width(tail(s, i)[0])) =~= head(s, i).push(tail(s, i)[0]));
}

/// The number of bytes that `c` takes in UTF-8.
pub fn char_len(c: char) -> (n: usize)
    ensures
        n == char_width(c),
        1 <= n <= 4,
{
    let code: u32 = c as u32;
    if code <= 0x7F {
        1
    } else if code <= 0x7FF {
        2
    } else if code <= 0xFFFF {
        3
    } else {
        4
    }
}

/// The number of bytes that `input` takes.
pub fn byte_len(input: &str) -> (n: usize)
    ensures
        n == width(input@),
{
    proof {
        lemma_width_encoded(input@);
    }
    input.as_bytes().len()
}

/// Whether the text can be cut at byte offset `i`.
pub fn is_boundary(input: &str, i: usize) -> (b: bool)
    ensures
        b == boundary(input@, i as int),
{
    proof {
        lemma_boundary_encoded(input@, i as int);
    }
    input.is_char_boundary(i)
}

/// The part of `input` from byte offset `i` on.
pub fn rest_of(input: &str, i: usize) -> (r: &str)
    requires
        boundary(input@, i as int),
    ensures
        r@ == tail(input@, i as int),
{
    proof {
        lemma_boundary_encoded(input@, i as int);
        lemma_tail_encoded(input@, i as int);
    }
    let (_, r) = input.split_at(i);
    proof {
        lemma_encode_injective(r@, tail(input@, i as int));
    }
    r
}

/// The part of `input` from byte offset `a` up to byte offset `b`.
pub fn piece(input: &str, a: usize, b: usize) -> (r: &str)
    requires
        boundary(input@, a as int),
        boundary(input@, b as int),
        a <= b,
    ensures
        r@ == between(input@, a as int, b as int),
{
    let rest = rest_of(input, a);
    proof {
        lemma_boundary_behind(input@, a as int, b as int);
        lemma_boundary_encoded(rest@, b - a);
        lemma_tail_encoded(rest@, b - a);
    }
    let (r, _) = rest.split_at(b - a);
    proof {
        lemma_encode_injective(r@, head(rest@, b - a));
    }
    r
}

/// The character that starts at byte offset `i`.
pub fn char_at(input: &str, i: usize) -> (c: char)
    requires
        boundary(input@, i as int),
        i < width(input@),
    ensures
        c == tail(input@, i as int)[0],
        tail(input@, i as int).len() > 0,
        boundary(input@, i + char_width(c)),
        tail(input@, i + char_width(c)) == tail(input@, i as int).drop_first(),
        i + char_width(c) <= width(input@) <= usize::MAX,
{
    proof {
        lemma_next(input@, i as int);
    }
    let _ = byte_len(input);
    rest_of(input, i).get_char(0)
}

} // verus!
