//! What searching, splitting, joining and replacing come to.

use crate::text::{
    begins, find, join, lines, replaced, split,
};
use vstd::prelude::*;

verus! {

/// True if `pat` stands in `s` at position `i`.
pub open spec fn stands(s: Seq<char>, pat: Seq<char>, i: int) -> bool {
    0 <= i && i + pat.len() <= s.len() && s.subrange(i, i + pat.len()) == pat
}

/// What is found is the first place where the pattern stands, and nothing is found only where it
/// stands nowhere.
pub proof fn law_found_first(s: Seq<char>, pat: Seq<char>)
    ensures
        match find(s, pat) {
            Some(i) => stands(s, pat, i) && forall|j: int| j < i ==> !#[trigger] stands(s, pat, j),
            None => forall|j: int| !#[trigger] stands(s, pat, j),
        },
    decreases s.len(),
{
    assert(stands(s, pat, 0) <==> begins(s, pat)) by {
        if pat.len() <= s.len() {
            assert(s.subrange(0, pat.len() as int) == s.take(pat.len() as int));
        }
    }
    if !begins(s, pat) {
        if s.len() > 0 {
            let t = s.skip(1);
            law_found_first(t, pat);
            assert forall|j: int| j > 0 implies #[trigger] stands(s, pat, j) == stands(
                t,
                pat,
                j - 1,
            ) by {
                if j + pat.len() <= s.len() {
                    assert(s.subrange(j, j + pat.len()) == t.subrange(j - 1, j - 1 + pat.len()));
                }
            }
            match find(t, pat) {
                Some(i) => {
                    assert(stands(s, pat, i + 1));
                    assert forall|j: int| j < i + 1 implies !#[trigger] stands(s, pat, j) by {
                        if j > 0 {
                            assert(!stands(t, pat, j - 1));
                        }
                    }
                },
                None => {
                    assert forall|j: int| !#[trigger] stands(s, pat, j) by {
                        if j > 0 {
                            assert(!stands(t, pat, j - 1));
                        }
                    }
                },
            }
        } else {
            assert forall|j: int| !#[trigger] stands(s, pat, j) by {
                if stands(s, pat, j) {
                    assert(j == 0);
                }
            }
        }
    }
}

/// A pattern is found at `i` if it stands there and nowhere before.
pub proof fn lemma_find_is(s: Seq<char>, pat: Seq<char>, i: int)
    requires
        stands(s, pat, i),
        forall|j: int| j < i ==> !#[trigger] stands(s, pat, j),
    ensures
        find(s, pat) == Some(i),
{
    law_found_first(s, pat);
}

/// Nothing is found of a pattern that stands nowhere.
pub proof fn lemma_find_none(s: Seq<char>, pat: Seq<char>)
    requires
        forall|j: int| !#[trigger] stands(s, pat, j),
    ensures
        find(s, pat) is None,
{
    law_found_first(s, pat);
}

/// What follows the first place of a pattern does not change that place.
pub proof fn lemma_find_in_front(a: Seq<char>, pat: Seq<char>, b: Seq<char>)
    requires
        find(a + pat, pat) == Some(a.len() as int),
    ensures
        find(a + pat + b, pat) == Some(a.len() as int),
{
    let s = a + pat;
    let t = a + pat + b;
    law_found_first(s, pat);
    assert(t.subrange(a.len() as int, (a.len() + pat.len()) as int) == pat);
    assert(stands(t, pat, a.len() as int));
    assert forall|j: int| j < a.len() implies !#[trigger] stands(t, pat, j) by {
        if 0 <= j {
            assert(t.subrange(j, j + pat.len()) == s.subrange(j, j + pat.len()));
            assert(!stands(s, pat, j));
        }
    }
    lemma_find_is(t, pat, a.len() as int);
}

/// A text in which the pattern stands nowhere is one part.
pub proof fn law_split_of_nothing(s: Seq<char>, pat: Seq<char>)
    requires
        forall|j: int| !#[trigger] stands(s, pat, j),
    ensures
        split(s, pat) == seq![s],
{
    lemma_find_none(s, pat);
}

/// The first part ends where the pattern stands first, and the rest is split for itself.
pub proof fn law_split_goes_on(a: Seq<char>, pat: Seq<char>, b: Seq<char>)
    requires
        pat.len() > 0,
        find(a + pat, pat) == Some(a.len() as int),
    ensures
        split(a + pat + b, pat) == seq![a] + split(b, pat),
{
    let s = a + pat + b;
    lemma_find_in_front(a, pat, b);
    assert(s.take(a.len() as int) == a);
    assert(s.skip((a.len() + pat.len()) as int) == b);
}

/// The parts joined again are the text; the pattern stands first behind each part but the last,
/// and nowhere in the last.
pub proof fn law_split_joins_again(s: Seq<char>, pat: Seq<char>)
    requires
        pat.len() > 0,
    ensures
        split(s, pat).len() > 0,
        join(split(s, pat), pat) == s,
        forall|k: int|
            0 <= k < split(s, pat).len() - 1 ==> find((#[trigger] split(s, pat)[k]) + pat, pat)
                == Some(split(s, pat)[k].len() as int),
        find(split(s, pat).last(), pat) is None,
    decreases s.len(),
{
    law_found_first(s, pat);
    match find(s, pat) {
        Some(i) => {
            let a = s.take(i);
            let b = s.skip(i + pat.len());
            law_split_joins_again(b, pat);
            let rest = split(b, pat);
            let all = split(s, pat);
            assert(all == seq![a] + rest);
            law_join_concat(seq![a], rest, pat);
            assert(s.subrange(i, i + pat.len()) == pat);
            assert(s == a + pat + b);
            assert((a + pat).subrange(i, i + pat.len()) == pat);
            assert(stands(a + pat, pat, i));
            assert forall|j: int| j < i implies !#[trigger] stands(a + pat, pat, j) by {
                if 0 <= j {
                    assert((a + pat).subrange(j, j + pat.len()) == s.subrange(j, j + pat.len()));
                    assert(!stands(s, pat, j));
                }
            }
            lemma_find_is(a + pat, pat, i);
            assert forall|k: int| 0 <= k < all.len() - 1 implies find(
                (#[trigger] all[k]) + pat,
                pat,
            ) == Some(all[k].len() as int) by {
                if k > 0 {
                    assert(all[k] == rest[k - 1]);
                }
            }
            assert(all.last() == rest.last());
        },
        None => {},
    }
}

/// Joining two lists of parts puts the separator between them, and a single part stays as it is.
pub proof fn law_join_concat(a: Seq<Seq<char>>, b: Seq<Seq<char>>, sep: Seq<char>)
    requires
        a.len() > 0,
        b.len() > 0,
    ensures
        join(a + b, sep) == join(a, sep) + sep + join(b, sep),
    decreases b.len(),
{
    let all = a + b;
    assert(all.drop_last() == a + b.drop_last());
    assert(all.last() == b.last());
    if b.len() == 1 {
        assert(a + b.drop_last() == a);
    } else {
        law_join_concat(a, b.drop_last(), sep);
        assert(join(a, sep) + sep + join(b.drop_last(), sep) + sep + b.last() == join(a, sep) + sep
            + (join(b.drop_last(), sep) + sep + b.last()));
    }
}

/// A single part joins to itself, and no part to nothing.
pub proof fn law_join_of_one(s: Seq<char>, sep: Seq<char>)
    ensures
        join(seq![s], sep) == s,
        join(Seq::empty(), sep) == Seq::<char>::empty(),
{
}

/// A text in which the pattern stands nowhere stays as it is.
pub proof fn law_replaced_nothing(s: Seq<char>, pat: Seq<char>, with: Seq<char>)
    requires
        forall|j: int| !#[trigger] stands(s, pat, j),
    ensures
        replaced(s, pat, with) == s,
{
    law_split_of_nothing(s, pat);
}

/// The pattern is replaced where it stands first, and then in what follows.
pub proof fn law_replaced_goes_on(a: Seq<char>, pat: Seq<char>, b: Seq<char>, with: Seq<char>)
    requires
        pat.len() > 0,
        find(a + pat, pat) == Some(a.len() as int),
    ensures
        replaced(a + pat + b, pat, with) == a + with + replaced(b, pat, with),
{
    law_split_goes_on(a, pat, b);
    law_split_joins_again(b, pat);
    law_join_concat(seq![a], split(b, pat), with);
}

/// True if `s` holds no newline.
pub open spec fn on_one_line(s: Seq<char>) -> bool {
    forall|i: int| 0 <= i < s.len() ==> #[trigger] s[i] != '\n'
}

/// `s` without a carriage return at its end.
pub open spec fn without_return(s: Seq<char>) -> Seq<char> {
    if s.len() > 0 && s.last() == '\r' {
        s.drop_last()
    } else {
        s
    }
}

proof fn lemma_no_newline(s: Seq<char>)
    requires
        on_one_line(s),
    ensures
        forall|j: int| !#[trigger] stands(s, seq!['\n'], j),
{
    assert forall|j: int| !#[trigger] stands(s, seq!['\n'], j) by {
        if stands(s, seq!['\n'], j) {
            assert(s.subrange(j, j + 1)[0] == s[j]);
        }
    }
}

/// The first line of a text ends at its first newline, and what follows has the other lines. Text
/// without a newline is a line, unless it is empty.
pub proof fn law_lines_one_by_one(a: Seq<char>, b: Seq<char>)
    requires
        on_one_line(a),
    ensures
        lines(a.push('\n') + b) == seq![without_return(a)] + lines(b),
        a.len() > 0 ==> lines(a) == seq![a],
        lines(Seq::empty()) == Seq::<Seq<char>>::empty(),
{
    let nl = seq!['\n'];
    let s = a.push('\n') + b;
    let n = a.len() as int;
    lemma_no_newline(a);
    lemma_find_none(a, nl);
    assert(s.subrange(n, n + 1) == nl);
    assert(stands(s, nl, n));
    assert forall|j: int| j < n implies !#[trigger] stands(s, nl, j) by {
        if stands(s, nl, j) {
            assert(s.subrange(j, j + 1)[0] == a[j]);
        }
    }
    lemma_find_is(s, nl, n);
    assert(s.skip(n + 1) == b);
    assert(s.take(n) == a);
    if n > 0 {
        assert(s.take(n - 1) == a.drop_last());
    }
}

} // verus!
