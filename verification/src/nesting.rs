//! How the body of a chunk in square brackets grows: by plain characters, by
//! comments, by strings and by bodies in brackets of their own.
use crate::bracket::{
    body_width, bracket_at, closes, closes_first, depth_after, lemma_bracket_at, lemma_closes_once,
    lemma_first_exists, place_after, Place,
};
use crate::position::label;
use crate::text::{
    between, boundary, char_width, lemma_ends, lemma_join, lemma_next, lemma_split,
    lemma_tail_tail, tail, width,
};
use vstd::prelude::*;

verus! {

/// Whether `p` is read to its end as code, with no bracket left open in it and none
/// closed that was open before it.
spec fn whole(p: Seq<char>) -> bool {
    &&& place_after(p) == Place::Code
    &&& depth_after(p) == 1
    &&& forall|m: int| 0 <= m < p.len() ==> !#[trigger] closes(p, m)
}

proof fn lemma_take_push(r: Seq<char>, m: int)
    requires
        0 <= m < r.len(),
    ensures
        r.take(m + 1).drop_last() == r.take(m),
        r.take(m + 1).last() == r[m],
{
    assert(r.take(m + 1).drop_last() =~= r.take(m));
}

/// Behind code, reading starts over; brackets that are open stay open.
proof fn lemma_read_on(p: Seq<char>, x: Seq<char>)
    requires
        place_after(p) == Place::Code,
    ensures
        place_after(p + x) == place_after(x),
        depth_after(p + x) == depth_after(p) - 1 + depth_after(x),
    decreases x.len(),
{
    if x.len() == 0 {
        assert(p + x =~= p);
    } else {
        lemma_read_on(p, x.drop_last());
        assert((p + x).drop_last() =~= p + x.drop_last());
        assert((p + x).last() == x.last());
    }
}

/// In front of the closing bracket at least one bracket is open.
proof fn lemma_open_before(r: Seq<char>, n: int, m: int)
    requires
        0 <= m <= n <= r.len(),
        forall|k: int| 0 <= k < n ==> !#[trigger] closes(r, k),
    ensures
        depth_after(r.take(m)) >= 1,
    decreases m,
{
    if m == 0 {
        assert(r.take(0) =~= Seq::empty());
    } else {
        lemma_open_before(r, n, m - 1);
        lemma_take_push(r, m - 1);
        assert(!closes(r, m - 1));
    }
}

/// What is whole is passed over.
proof fn lemma_whole_passed(p: Seq<char>, r: Seq<char>)
    requires
        whole(p),
    ensures
        body_width(p + r) == (match body_width(r) {
            Some(n) => Some(width(p) + n),
            None => None,
        }),
{
    let s = p + r;
    assert forall|n: int| 0 <= n < r.len() implies #[trigger] closes(s, p.len() + n) == closes(
        r,
        n,
    ) by {
        assert(s.take(p.len() + n) =~= p + r.take(n));
        lemma_read_on(p, r.take(n));
    }
    assert forall|m: int| 0 <= m < p.len() implies !#[trigger] closes(s, m) by {
        assert(s.take(m) =~= p.take(m));
        assert(!closes(p, m));
    }
    if exists|n: int| closes(r, n) {
        let n0 = choose|n: int| closes(r, n);
        lemma_first_exists(r, n0);
        let n = choose|n: int| closes_first(r, n);
        assert(closes(s, p.len() + n));
        assert forall|m: int| 0 <= m < p.len() + n implies !#[trigger] closes(s, m) by {
            if m >= p.len() {
                assert(!closes(r, m - p.len()));
                assert(closes(s, p.len() + (m - p.len())) == closes(r, m - p.len()));
            }
        }
        assert(closes_first(s, p.len() + n));
        lemma_closes_once(s, p.len() + n, choose|m: int| closes_first(s, m));
        assert(s.take(p.len() + n) =~= p + r.take(n));
        lemma_join(p, r.take(n));
    } else {
        if exists|m: int| closes(s, m) {
            let m = choose|m: int| closes(s, m);
            if m >= p.len() {
                assert(closes(s, p.len() + (m - p.len())) == closes(r, m - p.len()));
            }
        }
    }
}

/// What follows a bracket that is opened, in terms of the text behind it.
proof fn lemma_bracket_text(b: Seq<char>, r: Seq<char>)
    ensures
        bracket_at(b + seq!['['] + r, width(b)) == (match body_width(r) {
            Some(n) => Ok::<int, Seq<char>>(width(b) + 1 + n),
            None => Err(
                "unclosed '[' in codechunk body"@ + " at "@ + label(b + seq!['['] + r, width(b)),
            ),
        }),
{
    let s = b + seq!['['] + r;
    lemma_join(b, seq!['[']);
    lemma_join(b + seq!['['], r);
    reveal_with_fuel(width, 2);
    assert(seq!['['].drop_first() =~= Seq::empty());
    lemma_ends(r);
    if r.len() == 0 {
        assert(body_width(r) is None);
    }
}

/// The next closing bracket closes the body; a body that the text ends in is not
/// closed, and the bracket that was opened is named.
pub proof fn lemma_body_ends(b: Seq<char>, r: Seq<char>)
    ensures
        bracket_at(b + seq!['[', ']'] + r, width(b)) == Ok::<int, Seq<char>>(width(b) + 1),
        bracket_at(b + seq!['['], width(b)) is Err,
        bracket_at(b + seq!['['] + r, width(b)) matches Err(e) ==> e
            == "unclosed '[' in codechunk body"@ + " at "@ + label(
            b + seq!['['] + r,
            width(b),
        ),
{
    let none = Seq::<char>::empty();
    let c = seq![']'] + r;
    lemma_bracket_text(b, c);
    assert(b + seq!['['] + c =~= b + seq!['[', ']'] + r);
    assert(c.take(0) =~= none);
    assert(closes(c, 0));
    assert(closes_first(c, 0));
    lemma_closes_once(c, 0, choose|m: int| closes_first(c, m));
    assert(body_width(c) == Some(0int));
    lemma_bracket_text(b, none);
    assert(b + seq!['['] + none =~= b + seq!['[']);
    assert(body_width(none) is None);
    lemma_bracket_text(b, r);
}

/// How the place of the closing bracket moves with `p` in front of the rest of the
/// body: by the width of `p`. Without one there is none.
pub open spec fn moves_by(b: Seq<char>, p: Seq<char>, r: Seq<char>) -> bool {
    match bracket_at(b + seq!['['] + r, width(b)) {
        Ok(j) => bracket_at(b + seq!['['] + p + r, width(b)) == Ok::<int, Seq<char>>(
            j + width(p),
        ),
        Err(_) => bracket_at(b + seq!['['] + p + r, width(b)) is Err,
    }
}

proof fn lemma_moves_by(b: Seq<char>, p: Seq<char>, r: Seq<char>)
    requires
        whole(p),
    ensures
        moves_by(b, p, r),
{
    lemma_whole_passed(p, r);
    lemma_bracket_text(b, r);
    lemma_bracket_text(b, p + r);
    assert(b + seq!['['] + (p + r) =~= b + seq!['['] + p + r);
}

/// A character that is no bracket, no quote and no number sign is code, and moves
/// the closing bracket by its width.
pub proof fn lemma_body_with_character(b: Seq<char>, c: char, r: Seq<char>)
    requires
        c != '[' && c != ']' && c != '\'' && c != '"' && c != '#',
    ensures
        moves_by(b, seq![c], r),
{
    let p = seq![c];
    assert(p.drop_last() =~= Seq::empty());
    reveal_with_fuel(place_after, 2);
    reveal_with_fuel(depth_after, 2);
    lemma_moves_by(b, p, r);
}

proof fn lemma_comment(t: Seq<char>)
    requires
        forall|k: int| 0 <= k < t.len() ==> #[trigger] t[k] != '\n',
    ensures
        place_after(seq!['#'] + t) == Place::Comment,
        depth_after(seq!['#'] + t) == 1,
    decreases t.len(),
{
    let p = seq!['#'] + t;
    if t.len() == 0 {
        assert(p =~= seq!['#']);
        assert(p.drop_last() =~= Seq::empty());
        reveal_with_fuel(place_after, 2);
        reveal_with_fuel(depth_after, 2);
    } else {
        let u = t.drop_last();
        assert forall|k: int| 0 <= k < u.len() implies #[trigger] u[k] != '\n' by {
            assert(u[k] == t[k]);
        }
        lemma_comment(u);
        assert(p.drop_last() =~= seq!['#'] + u);
        assert(p.last() == t[t.len() - 1]);
    }
}

/// A comment up to its line feed is passed over, whatever is in it; a comment that
/// nothing ends closes no bracket.
pub proof fn lemma_body_with_comment(b: Seq<char>, t: Seq<char>, r: Seq<char>)
    requires
        forall|k: int| 0 <= k < t.len() ==> #[trigger] t[k] != '\n',
    ensures
        moves_by(b, seq!['#'] + t + seq!['\n'], r),
        bracket_at(b + seq!['['] + (seq!['#'] + t), width(b)) is Err,
{
    let o = seq!['#'] + t;
    let p = o + seq!['\n'];
    assert forall|m: int| 0 <= m <= o.len() implies #[trigger] o.take(m) == (if m == 0 {
        Seq::<char>::empty()
    } else {
        seq!['#'] + t.take(m - 1)
    }) by {
        if m == 0 {
            assert(o.take(0) =~= Seq::empty());
        } else {
            assert(o.take(m) =~= seq!['#'] + t.take(m - 1));
        }
    }
    lemma_comment(t);
    assert(p.drop_last() =~= o);
    assert(p.last() == '\n');
    assert forall|m: int| 0 <= m < o.len() implies !#[trigger] closes(o, m) by {
        if m > 0 {
            assert(o.take(m) == seq!['#'] + t.take(m - 1));
            assert forall|k: int| 0 <= k < t.take(m - 1).len() implies #[trigger] t.take(m - 1)[k]
                != '\n' by {
                assert(t.take(m - 1)[k] == t[k]);
            }
            lemma_comment(t.take(m - 1));
        }
    }
    assert forall|m: int| 0 <= m < p.len() implies !#[trigger] closes(p, m) by {
        if m < o.len() {
            assert(p.take(m) =~= o.take(m));
            assert(p[m] == o[m]);
            assert(!closes(o, m));
        }
    }
    lemma_moves_by(b, p, r);
    lemma_bracket_text(b, o);
    assert(body_width(o) is None);
}

/// The characters of a string as they are written: each stands for itself, or has a
/// backslash in front of it.
pub open spec fn written_out(pieces: Seq<(bool, char)>) -> Seq<char>
    decreases pieces.len(),
{
    if pieces.len() == 0 {
        Seq::empty()
    } else {
        written_out(pieces.drop_last()) + (if pieces.last().0 {
            seq!['\\', pieces.last().1]
        } else {
            seq![pieces.last().1]
        })
    }
}

proof fn lemma_string(q: char, pieces: Seq<(bool, char)>)
    requires
        q == '"' || q == '\'',
        forall|k: int|
            0 <= k < pieces.len() && !(#[trigger] pieces[k]).0 ==> pieces[k].1 != q && pieces[k].1
                != '\\',
    ensures
        ({
            let p = seq![q] + written_out(pieces);
            &&& place_after(p) == (if q == '"' {
                Place::Double
            } else {
                Place::Single
            })
            &&& depth_after(p) == 1
            &&& forall|m: int| 0 <= m < p.len() ==> !#[trigger] closes(p, m)
        }),
    decreases pieces.len(),
{
    let p = seq![q] + written_out(pieces);
    let none = Seq::<char>::empty();
    if pieces.len() == 0 {
        assert(p =~= seq![q]);
        assert(p.drop_last() =~= none);
        reveal_with_fuel(place_after, 2);
        reveal_with_fuel(depth_after, 2);
    } else {
        let fewer = pieces.drop_last();
        assert forall|k: int| 0 <= k < fewer.len() && !(#[trigger] fewer[k]).0 implies fewer[k].1
            != q && fewer[k].1 != '\\' by {
            assert(fewer[k] == pieces[k]);
        }
        lemma_string(q, fewer);
        let o = seq![q] + written_out(fewer);
        let (escaped, c) = pieces.last();
        assert(pieces[pieces.len() - 1] == pieces.last());
        if escaped {
            let mid = o + seq!['\\'];
            assert(p =~= mid + seq![c]);
            assert(p.drop_last() =~= mid);
            assert(mid.drop_last() =~= o);
            assert(mid.last() == '\\');
            lemma_no_close_in_string(o, mid, '\\');
            lemma_no_close_in_string(mid, p, c);
        } else {
            assert(p =~= o + seq![c]);
            assert(p.drop_last() =~= o);
            lemma_no_close_in_string(o, p, c);
        }
    }
}

proof fn lemma_no_close_in_string(o: Seq<char>, p: Seq<char>, c: char)
    requires
        p == o + seq![c],
        place_after(o) != Place::Code,
        forall|m: int| 0 <= m < o.len() ==> !#[trigger] closes(o, m),
    ensures
        forall|m: int| 0 <= m < p.len() ==> !#[trigger] closes(p, m),
        depth_after(p) == depth_after(o),
{
    assert(p.drop_last() =~= o);
    assert forall|m: int| 0 <= m < p.len() implies !#[trigger] closes(p, m) by {
        assert(p.take(m) =~= o.take(m));
        if m < o.len() {
            assert(p[m] == o[m]);
            assert(!closes(o, m));
        } else {
            assert(o.take(m) =~= o);
        }
    }
}

/// A string between quotes of either kind is passed over, whatever is in it; a
/// string that nothing closes closes no bracket.
pub proof fn lemma_body_with_string(
    b: Seq<char>,
    q: char,
    pieces: Seq<(bool, char)>,
    r: Seq<char>,
)
    requires
        q == '"' || q == '\'',
        forall|k: int|
            0 <= k < pieces.len() && !(#[trigger] pieces[k]).0 ==> pieces[k].1 != q && pieces[k].1
                != '\\',
    ensures
        moves_by(b, seq![q] + written_out(pieces) + seq![q], r),
        bracket_at(b + seq!['['] + (seq![q] + written_out(pieces)), width(b)) is Err,
        bracket_at(b + seq!['['] + (seq![q] + written_out(pieces) + seq!['\\']), width(b)) is Err,
{
    let o = seq![q] + written_out(pieces);
    let p = o + seq![q];
    let e = o + seq!['\\'];
    lemma_string(q, pieces);
    lemma_no_close_in_string(o, p, q);
    lemma_no_close_in_string(o, e, '\\');
    assert(p.drop_last() =~= o);
    assert(p.last() == q);
    lemma_moves_by(b, p, r);
    lemma_bracket_text(b, o);
    assert(body_width(o) is None);
    lemma_bracket_text(b, e);
    assert(body_width(e) is None);
}

/// A body in brackets of its own is passed over with its brackets; where its
/// bracket is not closed, the bracket around it is not either.
pub proof fn lemma_body_with_brackets(b: Seq<char>, inner: Seq<char>, r: Seq<char>)
    ensures
        bracket_at(seq!['['] + inner + seq![']'], 0) == Ok::<int, Seq<char>>(1 + width(inner))
            ==> moves_by(b, seq!['['] + inner + seq![']'], r),
        bracket_at(seq!['['] + inner, 0) is Err ==> bracket_at(
            b + seq!['['] + (seq!['['] + inner),
            width(b),
        ) is Err,
{
    let none = Seq::<char>::empty();
    let o = seq!['['] + inner;
    let c = inner + seq![']'];
    assert(none + seq!['['] + inner =~= o);
    assert(none + seq!['['] + c =~= o + seq![']']);
    lemma_bracket_text(none, inner);
    lemma_bracket_text(none, c);
    assert(seq!['['].drop_last() =~= none);
    assert(place_after(seq!['[']) == Place::Code && depth_after(seq!['[']) == 2) by {
        reveal_with_fuel(place_after, 2);
        reveal_with_fuel(depth_after, 2);
    }
    if bracket_at(o + seq![']'], 0) == Ok::<int, Seq<char>>(1 + width(inner)) {
        let n = choose|n: int| closes_first(c, n);
        lemma_first_exists(c, choose|n: int| closes(c, n));
        lemma_at_end(inner, n);
        assert(c.take(n) =~= inner);
        let p = o + seq![']'];
        lemma_read_on(seq!['['], inner);
        assert(p.drop_last() =~= o);
        assert(p.last() == ']');
        assert forall|m: int| 0 <= m < p.len() implies !#[trigger] closes(p, m) by {
            if m > 0 {
                assert(p.take(m) =~= seq!['['] + c.take(m - 1));
                if place_after(p.take(m)) == Place::Code {
                    lemma_read_on(seq!['['], c.take(m - 1));
                    lemma_open_before(c, n, m - 1);
                }
                lemma_read_on(seq!['['], c.take(m - 1));
            }
        }
        lemma_moves_by(b, p, r);
    }
    if bracket_at(o, 0) is Err {
        lemma_bracket_text(b, o);
        assert forall|m: int| 0 <= m < o.len() implies !#[trigger] closes(o, m) by {
            if m > 0 {
                assert(o.take(m) =~= seq!['['] + inner.take(m - 1));
                lemma_read_on(seq!['['], inner.take(m - 1));
                assert forall|k: int| 0 <= k < inner.len() implies !#[trigger] closes(
                    inner,
                    k,
                ) by {
                    assert(body_width(inner) is None);
                }
                lemma_open_before(inner, inner.len() as int, m - 1);
            }
        }
        assert(body_width(o) is None);
    }
}

/// A prefix as wide as a text is the text.
proof fn lemma_at_end(inner: Seq<char>, n: int)
    requires
        0 <= n < inner.len() + 1,
        width((inner + seq![']']).take(n)) == width(inner),
    ensures
        n == inner.len(),
{
    let p = (inner + seq![']']).take(n);
    assert(p =~= inner.take(n));
    assert(inner =~= inner.take(n) + inner.skip(n));
    lemma_join(inner.take(n), inner.skip(n));
    lemma_ends(inner.skip(n));
}

/// The bracket that closes another depends on what stands behind the one that is
/// opened alone: it stands where it would stand in a text that starts there.
pub proof fn lemma_opening_does_not_matter(s: Seq<char>, o: int, r: Seq<char>)
    requires
        boundary(s, o),
        tail(s, o) == r,
        r.len() > 0,
        char_width(r[0]) == 1,
    ensures
        match bracket_at(r, 0) {
            Ok(end) => {
                &&& bracket_at(s, o) == Ok::<int, Seq<char>>(o + end)
                &&& boundary(s, o + 1)
                &&& boundary(s, o + end)
                &&& between(s, o + 1, o + end) == between(r, 1, end)
            },
            Err(_) => bracket_at(s, o) == Err::<int, Seq<char>>(
                "unclosed '[' in codechunk body"@ + " at "@ + label(s, o),
            ),
        },
{
    let b = r.drop_first();
    assert(r =~= seq![r[0]] + b);
    lemma_split(s, o);
    lemma_ends(r);
    lemma_next(s, o);
    lemma_next(r, 0);
    lemma_split(s, o + 1);
    lemma_split(r, 1);
    lemma_ends(b);
    if let Ok(end) = bracket_at(r, 0) {
        lemma_bracket_at(r, 0);
        lemma_tail_tail(s, o, end);
    }
}

} // verus!
