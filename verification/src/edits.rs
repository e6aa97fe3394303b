//! Edits of token lists, and the least number of them that makes one list another.

use crate::phonemes::{
    distance, law_distance_symmetric, law_distance_triangle, law_distance_zero_iff_same,
};
use vstd::prelude::*;

verus! {

/// A list of tokens.
pub type Tokens = Seq<Seq<char>>;

/// True if `b` is `a` with one token put in at position `i`.
pub open spec fn puts_in(a: Tokens, b: Tokens, i: int) -> bool {
    0 <= i < b.len() && a == b.remove(i)
}

/// True if `b` is `a` with another token at position `i`.
pub open spec fn replaces(a: Tokens, b: Tokens, i: int) -> bool {
    0 <= i < a.len() && b.len() == a.len() && b == a.update(i, b[i])
}

/// True if `b` is `a` with one token put in, taken out or replaced.
pub open spec fn one_edit(a: Tokens, b: Tokens) -> bool {
    ||| exists|i: int| #[trigger] puts_in(a, b, i)
    ||| exists|i: int| #[trigger] puts_in(b, a, i)
    ||| exists|i: int| #[trigger] replaces(a, b, i)
}

/// True if `path` leads from `a` to `b`, one edit after the other.
pub open spec fn is_path(path: Seq<Tokens>, a: Tokens, b: Tokens) -> bool {
    &&& path.len() > 0
    &&& path[0] == a
    &&& path.last() == b
    &&& forall|k: int| 0 < k < path.len() ==> one_edit(path[k - 1], #[trigger] path[k])
}

/// True if `n` is the least number of edits that makes `b` of `a`.
pub open spec fn is_least(a: Tokens, b: Tokens, n: int) -> bool {
    &&& exists|path: Seq<Tokens>| #[trigger] is_path(path, a, b) && path.len() == n + 1
    &&& forall|path: Seq<Tokens>| #[trigger] is_path(path, a, b) ==> path.len() >= n + 1
}

proof fn lemma_same_head(x: Tokens, a: Tokens, b: Tokens)
    ensures
        distance(x + a, x + b) <= distance(a, b),
    decreases a.len() + b.len(),
{
    if a.len() == 0 && b.len() == 0 {
        assert(x + a == x);
        assert(x + b == x);
        law_distance_zero_iff_same(x, x);
    } else if a.len() == 0 {
        lemma_same_head(x, a, b.drop_last());
        assert((x + b).drop_last() == x + b.drop_last());
        assert(x + a == x);
        if x.len() == 0 {
            assert(x + b == b);
        }
    } else if b.len() == 0 {
        lemma_same_head(x, a.drop_last(), b);
        assert((x + a).drop_last() == x + a.drop_last());
        assert(x + b == x);
        if x.len() == 0 {
            assert(x + a == a);
        }
    } else {
        lemma_same_head(x, a.drop_last(), b);
        lemma_same_head(x, a, b.drop_last());
        lemma_same_head(x, a.drop_last(), b.drop_last());
        assert((x + a).drop_last() == x + a.drop_last());
        assert((x + b).drop_last() == x + b.drop_last());
    }
}

proof fn lemma_same_tail(a: Tokens, b: Tokens, y: Tokens)
    ensures
        distance(a + y, b + y) <= distance(a, b),
    decreases y.len(),
{
    if y.len() == 0 {
        assert(a + y == a);
        assert(b + y == b);
    } else {
        lemma_same_tail(a, b, y.drop_last());
        assert((a + y).drop_last() == a + y.drop_last());
        assert((b + y).drop_last() == b + y.drop_last());
    }
}

/// What two token lists have in common at their ends adds nothing to their distance.
pub proof fn law_distance_in_context(x: Tokens, a: Tokens, b: Tokens, y: Tokens)
    ensures
        distance(x + a + y, x + b + y) <= distance(a, b),
{
    lemma_same_head(x, a, b);
    lemma_same_tail(x + a, x + b, y);
}

/// A token list is at distance 1 from the list without one of its tokens, whichever that is.
pub proof fn law_distance_of_missing_token(a: Tokens, i: int)
    requires
        0 <= i < a.len(),
    ensures
        distance(a, a.remove(i)) == 1,
        distance(a.remove(i), a) == 1,
{
    let x = a.take(i);
    let y = a.skip(i + 1);
    let t = seq![a[i]];
    assert(a == x + t + y);
    assert(a.remove(i) == x + Tokens::empty() + y);
    law_distance_in_context(x, t, Tokens::empty(), y);
    law_distance_symmetric(a, a.remove(i));
    law_distance_zero_iff_same(a, a.remove(i));
    assert(a.remove(i).len() != a.len());
}

/// A token list is at distance 1 from the list with another token in one place.
pub proof fn law_distance_of_wrong_token(a: Tokens, i: int, token: Seq<char>)
    requires
        0 <= i < a.len(),
        token != a[i],
    ensures
        distance(a, a.update(i, token)) == 1,
{
    let x = a.take(i);
    let y = a.skip(i + 1);
    let t = seq![a[i]];
    let u = seq![token];
    assert(a == x + t + y);
    assert(a.update(i, token) == x + u + y);
    law_distance_in_context(x, t, u, y);
    assert(t.drop_last() == Tokens::empty());
    assert(u.drop_last() == Tokens::empty());
    assert(distance(t.drop_last(), u.drop_last()) == 0);
    law_distance_zero_iff_same(a, a.update(i, token));
    assert(a.update(i, token)[i] != a[i]);
}

proof fn lemma_one_edit(a: Tokens, b: Tokens)
    requires
        one_edit(a, b),
    ensures
        distance(a, b) <= 1,
{
    if exists|i: int| #[trigger] puts_in(a, b, i) {
        let i = choose|i: int| #[trigger] puts_in(a, b, i);
        law_distance_of_missing_token(b, i);
    } else if exists|i: int| #[trigger] puts_in(b, a, i) {
        let i = choose|i: int| #[trigger] puts_in(b, a, i);
        law_distance_of_missing_token(a, i);
    } else {
        let i = choose|i: int| #[trigger] replaces(a, b, i);
        if b[i] == a[i] {
            assert(a == b);
            law_distance_zero_iff_same(a, b);
        } else {
            law_distance_of_wrong_token(a, i, b[i]);
        }
    }
}

proof fn lemma_path_not_shorter(path: Seq<Tokens>, a: Tokens, b: Tokens)
    requires
        is_path(path, a, b),
    ensures
        path.len() >= distance(a, b) + 1,
    decreases path.len(),
{
    if path.len() == 1 {
        law_distance_zero_iff_same(a, b);
    } else {
        let front = path.drop_last();
        let c = front.last();
        assert forall|k: int| 0 < k < front.len() implies one_edit(
            front[k - 1],
            #[trigger] front[k],
        ) by {
            assert(one_edit(path[k - 1], path[k]));
        }
        lemma_path_not_shorter(front, a, c);
        assert(one_edit(path[path.len() - 2], path[path.len() - 1]));
        lemma_one_edit(c, b);
        law_distance_triangle(a, c, b);
    }
}

proof fn lemma_edit_before(a: Tokens, b: Tokens, t: Seq<char>)
    requires
        one_edit(a, b),
    ensures
        one_edit(a.push(t), b.push(t)),
{
    let x = a.push(t);
    let y = b.push(t);
    if exists|i: int| #[trigger] puts_in(a, b, i) {
        let i = choose|i: int| #[trigger] puts_in(a, b, i);
        assert(x == y.remove(i));
        assert(puts_in(x, y, i));
    } else if exists|i: int| #[trigger] puts_in(b, a, i) {
        let i = choose|i: int| #[trigger] puts_in(b, a, i);
        assert(y == x.remove(i));
        assert(puts_in(y, x, i));
    } else {
        let i = choose|i: int| #[trigger] replaces(a, b, i);
        assert(y == x.update(i, y[i]));
        assert(replaces(x, y, i));
    }
}

/// A path that takes one more edit at its end.
proof fn lemma_path_push(path: Seq<Tokens>, a: Tokens, b: Tokens, c: Tokens)
    requires
        is_path(path, a, b),
        one_edit(b, c),
    ensures
        is_path(path.push(c), a, c),
{
    let more = path.push(c);
    assert forall|k: int| 0 < k < more.len() implies one_edit(more[k - 1], #[trigger] more[k]) by {
        if k < path.len() {
            assert(one_edit(path[k - 1], path[k]));
        }
    }
}

/// A path of lists that all get the same token at their end.
proof fn lemma_path_before(path: Seq<Tokens>, a: Tokens, b: Tokens, t: Seq<char>)
    requires
        is_path(path, a, b),
    ensures
        is_path(path.map_values(|l: Tokens| l.push(t)), a.push(t), b.push(t)),
{
    let more = path.map_values(|l: Tokens| l.push(t));
    assert forall|k: int| 0 < k < more.len() implies one_edit(more[k - 1], #[trigger] more[k]) by {
        assert(one_edit(path[k - 1], path[k]));
        lemma_edit_before(path[k - 1], path[k], t);
    }
}

proof fn lemma_shortest_path(a: Tokens, b: Tokens) -> (path: Seq<Tokens>)
    ensures
        is_path(path, a, b),
        path.len() == distance(a, b) + 1,
    decreases a.len() + b.len(),
{
    if a.len() == 0 && b.len() == 0 {
        assert(a == b);
        seq![a]
    } else if a.len() == 0 || b.len() > 0 && distance(a, b) == distance(a, b.drop_last()) + 1 {
        let path = lemma_shortest_path(a, b.drop_last());
        assert(b.remove(b.len() - 1) == b.drop_last());
        assert(puts_in(b.drop_last(), b, b.len() - 1));
        lemma_path_push(path, a, b.drop_last(), b);
        path.push(b)
    } else if b.len() == 0 || distance(a, b) == distance(a.drop_last(), b) + 1 {
        let c = a.drop_last();
        let path = lemma_shortest_path(c, b);
        let more = seq![a] + path;
        assert(a.remove(a.len() - 1) == c);
        assert(puts_in(c, a, a.len() - 1));
        assert forall|k: int| 0 < k < more.len() implies one_edit(
            more[k - 1],
            #[trigger] more[k],
        ) by {
            if k > 1 {
                assert(more[k] == path[k - 1] && more[k - 1] == path[k - 2]);
                assert(one_edit(path[k - 2], path[k - 1]));
            } else {
                assert(more[k] == path[0]);
            }
        }
        assert(more.last() == path.last());
        more
    } else {
        let path = lemma_shortest_path(a.drop_last(), b.drop_last());
        let t = a.last();
        lemma_path_before(path, a.drop_last(), b.drop_last(), t);
        let more = path.map_values(|l: Tokens| l.push(t));
        assert(a.drop_last().push(t) == a);
        let c = b.drop_last().push(t);
        if t == b.last() {
            assert(c == b);
            more
        } else {
            assert(b == c.update(c.len() - 1, b[c.len() - 1]));
            assert(replaces(c, b, c.len() - 1));
            lemma_path_push(more, a, c, b);
            more.push(b)
        }
    }
}

/// The distance of two token lists is the least number of tokens that have to be put in, taken out
/// or replaced, one after the other, to make one the other: so many are enough, and fewer are not.
pub proof fn law_distance_is_least(a: Tokens, b: Tokens)
    ensures
        is_least(a, b, distance(a, b) as int),
{
    let path = lemma_shortest_path(a, b);
    assert(is_path(path, a, b));
    assert forall|p: Seq<Tokens>| #[trigger] is_path(p, a, b) implies p.len() >= distance(a, b)
        + 1 by {
        lemma_path_not_shorter(p, a, b);
    }
}

} // verus!
