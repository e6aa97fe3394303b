//! Lists of positions: which they hold, and in what order.

use vstd::prelude::*;

verus! {

/// The numbers below `n` that `wanted` picks, in order.
pub open spec fn picked(n: int, wanted: spec_fn(int) -> bool) -> Seq<usize>
    decreases n,
{
    if n <= 0 {
        Seq::empty()
    } else if wanted(n - 1) {
        picked(n - 1, wanted).push((n - 1) as usize)
    } else {
        picked(n - 1, wanted)
    }
}

/// True if `list` holds the numbers below `n` that `wanted` picks, and no others.
pub open spec fn holds(list: Seq<usize>, n: int, wanted: spec_fn(int) -> bool) -> bool {
    forall|i: usize| #[trigger] list.contains(i) <==> i < n && wanted(i as int)
}

/// True if each number of `list` comes before those that stand after it.
pub open spec fn ordered(list: Seq<usize>, before: spec_fn(int, int) -> bool) -> bool {
    forall|a: int, b: int|
        0 <= a < b < list.len() ==> before(
            (#[trigger] list[a]) as int,
            (#[trigger] list[b]) as int,
        )
}

/// What a list holds below `n` is below `n`.
pub proof fn lemma_held_below(list: Seq<usize>, n: int, wanted: spec_fn(int) -> bool)
    requires
        holds(list, n, wanted),
    ensures
        forall|a: int| 0 <= a < list.len() ==> (#[trigger] list[a]) < n,
{
    assert forall|a: int| 0 <= a < list.len() implies (#[trigger] list[a]) < n by {
        assert(list.contains(list[a]));
    }
}

/// A list stays in order if the next number is put between those that come before it and those
/// that come after it.
pub proof fn lemma_insert(
    list: Seq<usize>,
    p: int,
    i: usize,
    wanted: spec_fn(int) -> bool,
    before: spec_fn(int, int) -> bool,
)
    requires
        0 <= p <= list.len(),
        wanted(i as int),
        holds(list, i as int, wanted),
        ordered(list, before),
        forall|a: int| 0 <= a < p ==> before((#[trigger] list[a]) as int, i as int),
        forall|a: int| p <= a < list.len() ==> before(i as int, (#[trigger] list[a]) as int),
    ensures
        holds(list.insert(p, i), i + 1, wanted),
        ordered(list.insert(p, i), before),
{
    let after = list.insert(p, i);
    assert forall|a: int, b: int| 0 <= a < b < after.len() implies before(
        (#[trigger] after[a]) as int,
        (#[trigger] after[b]) as int,
    ) by {
        if a < p && b > p {
            assert(before(list[a] as int, list[b - 1] as int));
        } else if a > p {
            assert(before(list[a - 1] as int, list[b - 1] as int));
        }
    }
    assert forall|x: usize| #[trigger] after.contains(x) <==> x < i + 1 && wanted(x as int) by {
        if after.contains(x) {
            let k = choose|k: int| 0 <= k < after.len() && after[k] == x;
            if k < p {
                assert(list.contains(list[k]));
            } else if k > p {
                assert(list.contains(list[k - 1]));
            }
        }
        if x < i && wanted(x as int) {
            assert(list.contains(x));
            let k = choose|k: int| 0 <= k < list.len() && list[k] == x;
            if k < p {
                assert(after[k] == x);
            } else {
                assert(after[k + 1] == x);
            }
        }
        if x == i {
            assert(after[p] == i);
        }
    }
}

/// What is picked is in range, is wanted, and comes in order, and all that is wanted is picked.
pub proof fn law_picked(n: int, wanted: spec_fn(int) -> bool)
    requires
        n <= usize::MAX,
    ensures
        holds(picked(n, wanted), n, wanted),
        ordered(picked(n, wanted), |i: int, j: int| i < j),
    decreases n,
{
    if n > 0 {
        law_picked(n - 1, wanted);
        let list = picked(n - 1, wanted);
        let i = (n - 1) as usize;
        if wanted(n - 1) {
            lemma_held_below(list, n - 1, wanted);
            lemma_insert(list, list.len() as int, i, wanted, |i: int, j: int| i < j);
            assert(list.insert(list.len() as int, i) == list.push(i));
        } else {
            assert forall|x: usize| #[trigger] list.contains(x) <==> x < n && wanted(x as int) by {
                if x < n - 1 && wanted(x as int) {
                    assert(list.contains(x));
                }
            }
        }
    } else {
        assert forall|x: usize| !(#[trigger] picked(n, wanted).contains(x)) by {}
    }
}

/// What is picked depends only on which of the numbers below `n` are wanted.
pub proof fn lemma_picked_same(n: int, a: spec_fn(int) -> bool, b: spec_fn(int) -> bool)
    requires
        forall|i: int| 0 <= i < n ==> #[trigger] a(i) == b(i),
    ensures
        picked(n, a) == picked(n, b),
    decreases n,
{
    if n > 0 {
        lemma_picked_same(n - 1, a, b);
        assert(a(n - 1) == b(n - 1));
    }
}

/// True if `at` holds each number below `n` once.
pub open spec fn is_shuffle(at: Seq<int>, n: int) -> bool {
    at.no_duplicates() && forall|i: int| #[trigger] at.contains(i) <==> 0 <= i < n
}

/// Each number below `n` has a place in a shuffle; without the largest one it is a shuffle of the
/// others.
pub proof fn lemma_shuffle(at: Seq<int>, n: int) -> (k: int)
    requires
        is_shuffle(at, n),
        n > 0,
    ensures
        0 <= k < at.len(),
        at[k] == n - 1,
        is_shuffle(at.take(k) + at.skip(k + 1), n - 1),
{
    assert(at.contains(n - 1));
    let k = choose|k: int| 0 <= k < at.len() && at[k] == n - 1;
    let rest = at.take(k) + at.skip(k + 1);
    assert forall|i: int, j: int| 0 <= i < rest.len() && 0 <= j < rest.len() && i != j implies rest[i]
        != rest[j] by {
        let x = if i < k {
            i
        } else {
            i + 1
        };
        let y = if j < k {
            j
        } else {
            j + 1
        };
        assert(rest[i] == at[x] && rest[j] == at[y]);
    }
    assert forall|i: int| #[trigger] rest.contains(i) <==> 0 <= i < n - 1 by {
        if rest.contains(i) {
            let j = choose|j: int| 0 <= j < rest.len() && rest[j] == i;
            let x = if j < k {
                j
            } else {
                j + 1
            };
            assert(at[x] == i);
            assert(at.contains(i));
        }
        if 0 <= i < n - 1 {
            assert(at.contains(i));
            let x = choose|x: int| 0 <= x < at.len() && at[x] == i;
            if x < k {
                assert(rest[x] == i);
            } else {
                assert(rest[x - 1] == i);
            }
        }
    }
    k
}

/// Two lists in strict order that hold the same numbers are the same.
pub proof fn lemma_same_order(a: Seq<int>, b: Seq<int>, before: spec_fn(int, int) -> bool)
    requires
        forall|x: int| #[trigger] a.contains(x) <==> b.contains(x),
        forall|i: int, j: int| 0 <= i < j < a.len() ==> before(#[trigger] a[i], #[trigger] a[j]),
        forall|i: int, j: int| 0 <= i < j < b.len() ==> before(#[trigger] b[i], #[trigger] b[j]),
        forall|x: int, y: int| #[trigger] before(x, y) ==> !before(y, x),
    ensures
        a == b,
    decreases a.len(),
{
    if a.len() == 0 {
        if b.len() > 0 {
            assert(b.contains(b[0]));
            assert(a.contains(b[0]));
        }
    } else {
        let x = a[a.len() - 1];
        assert(a.contains(x));
        assert(b.contains(x));
        let y = b[b.len() - 1];
        assert(b.contains(y));
        assert(a.contains(y));
        let k = choose|k: int| 0 <= k < b.len() && b[k] == x;
        let j = choose|j: int| 0 <= j < a.len() && a[j] == y;
        if x != y {
            assert(before(b[k], b[b.len() - 1]));
            assert(before(a[j], a[a.len() - 1]));
        }
        let c = a.drop_last();
        let d = b.drop_last();
        assert forall|z: int| #[trigger] c.contains(z) <==> d.contains(z) by {
            if c.contains(z) {
                let i = choose|i: int| 0 <= i < c.len() && c[i] == z;
                assert(a[i] == z);
                assert(a.contains(z));
                assert(b.contains(z));
                let m = choose|m: int| 0 <= m < b.len() && b[m] == z;
                assert(before(a[i], a[a.len() - 1]));
                assert(d[m] == z);
            }
            if d.contains(z) {
                let i = choose|i: int| 0 <= i < d.len() && d[i] == z;
                assert(b[i] == z);
                assert(b.contains(z));
                assert(a.contains(z));
                let m = choose|m: int| 0 <= m < a.len() && a[m] == z;
                assert(before(b[i], b[b.len() - 1]));
                assert(c[m] == z);
            }
        }
        assert forall|i: int, l: int| 0 <= i < l < c.len() implies before(
            #[trigger] c[i],
            #[trigger] c[l],
        ) by {
            assert(before(a[i], a[l]));
        }
        assert forall|i: int, l: int| 0 <= i < l < d.len() implies before(
            #[trigger] d[i],
            #[trigger] d[l],
        ) by {
            assert(before(b[i], b[l]));
        }
        lemma_same_order(c, d, before);
        assert(a == c.push(x));
        assert(b == d.push(y));
    }
}

/// What it is for a list to hold numbers: each that is wanted is in it, and no other.
pub proof fn law_held(list: Seq<usize>, n: int, wanted: spec_fn(int) -> bool)
    requires
        holds(list, n, wanted),
    ensures
        forall|i: usize| i < n && wanted(i as int) ==> #[trigger] list.contains(i),
        forall|k: int| 0 <= k < list.len() ==> (#[trigger] list[k]) < n && wanted(list[k] as int),
{
    assert forall|k: int| 0 <= k < list.len() implies (#[trigger] list[k]) < n && wanted(
        list[k] as int,
    ) by {
        assert(list.contains(list[k]));
    }
}

/// What it is for a list to be in order: of any two of its numbers the one that stands first comes
/// before the other.
pub proof fn law_in_order(list: Seq<usize>, before: spec_fn(int, int) -> bool, a: int, b: int)
    requires
        ordered(list, before),
        0 <= a < b < list.len(),
    ensures
        before(list[a] as int, list[b] as int),
{
}

} // verus!
