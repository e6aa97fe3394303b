//! What trimming, cutting and joining do to the words of a text.

use crate::chars::is_white;
use crate::text::{join, lemma_word_len, trim, trim_end, trim_start, word_len, words};
use vstd::prelude::*;

verus! {

/// True if `w` is a word: not empty and free of white space.
pub open spec fn is_word(w: Seq<char>) -> bool {
    w.len() > 0 && forall|k: int| 0 <= k < w.len() ==> !is_white(#[trigger] w[k])
}

/// True if `s` holds white space only.
pub open spec fn is_blank(s: Seq<char>) -> bool {
    forall|k: int| 0 <= k < s.len() ==> is_white(#[trigger] s[k])
}

/// True if no two spaces stand side by side in `s`.
pub open spec fn no_double_space(s: Seq<char>) -> bool {
    forall|i: int| 0 <= i < s.len() - 1 && #[trigger] s[i] == ' ' ==> s[i + 1] != ' '
}

/// True if a cut between `a` and `b` divides no word.
pub open spec fn clean_cut(a: Seq<char>, b: Seq<char>) -> bool {
    a.len() == 0 || b.len() == 0 || is_white(a.last()) || is_white(b[0])
}

/// The words of all `parts`, in order.
pub open spec fn all_words(parts: Seq<Seq<char>>) -> Seq<Seq<char>>
    decreases parts.len(),
{
    if parts.len() == 0 {
        Seq::empty()
    } else {
        all_words(parts.drop_last()) + words(parts.last())
    }
}

proof fn lemma_word_len_concat(a: Seq<char>, b: Seq<char>)
    requires
        word_len(a) < a.len() || b.len() == 0 || is_white(b[0]),
    ensures
        word_len(a + b) == word_len(a),
    decreases a.len(),
{
    if a.len() == 0 {
        assert(a + b == b);
    } else if !is_white(a[0]) {
        assert((a + b).skip(1) == a.skip(1) + b);
        lemma_word_len_concat(a.skip(1), b);
    }
}

/// A cut that divides no word divides the words.
pub proof fn lemma_words_concat(a: Seq<char>, b: Seq<char>)
    requires
        clean_cut(a, b),
    ensures
        words(a + b) == words(a) + words(b),
    decreases a.len(),
{
    if a.len() == 0 {
        assert(a + b == b);
        assert(words(a) + words(b) == words(b));
    } else if b.len() == 0 {
        assert(a + b == a);
        assert(words(a) + words(b) == words(a));
    } else if is_white(a[0]) {
        assert((a + b).skip(1) == a.skip(1) + b);
        lemma_words_concat(a.skip(1), b);
    } else {
        let k = word_len(a) as int;
        lemma_word_len(a);
        lemma_word_len_concat(a, b);
        assert((a + b).take(k) == a.take(k));
        assert((a + b).skip(k) == a.skip(k) + b);
        lemma_words_concat(a.skip(k), b);
        assert(seq![a.take(k)] + (words(a.skip(k)) + words(b)) == (seq![a.take(k)] + words(
            a.skip(k),
        )) + words(b));
    }
}

/// White space has no words.
pub proof fn lemma_words_blank(s: Seq<char>)
    requires
        is_blank(s),
    ensures
        words(s) == Seq::<Seq<char>>::empty(),
    decreases s.len(),
{
    if s.len() > 0 {
        assert(is_blank(s.skip(1)));
        lemma_words_blank(s.skip(1));
    }
}

/// A word is its own only word.
pub proof fn lemma_words_of_word(w: Seq<char>)
    requires
        is_word(w),
    ensures
        words(w) == seq![w],
{
    lemma_word_len(w);
    assert(word_len(w) == w.len());
    assert(w.take(w.len() as int) == w);
    assert(words(w.skip(w.len() as int)) == Seq::<Seq<char>>::empty());
    assert(words(w) == seq![w]);
}

/// The words of a text are words.
pub proof fn lemma_words_are_words(s: Seq<char>)
    ensures
        forall|i: int| 0 <= i < words(s).len() ==> is_word(#[trigger] words(s)[i]),
    decreases s.len(),
{
    if s.len() > 0 {
        if is_white(s[0]) {
            lemma_words_are_words(s.skip(1));
            assert(words(s) == words(s.skip(1)));
        } else {
            let k = word_len(s) as int;
            lemma_word_len(s);
            lemma_words_are_words(s.skip(k));
            assert forall|i: int| 0 <= i < words(s).len() implies is_word(
                #[trigger] words(s)[i],
            ) by {
                if i == 0 {
                    let w = s.take(k);
                    assert(words(s)[0] == w);
                    assert forall|j: int| 0 <= j < w.len() implies !is_white(#[trigger] w[j]) by {
                        assert(w[j] == s[j]);
                    }
                } else {
                    assert(words(s)[i] == words(s.skip(k))[i - 1]);
                }
            }
        }
    }
}

/// A text has a word unless it is blank.
pub proof fn lemma_words_nonempty(s: Seq<char>)
    ensures
        words(s).len() == 0 <==> is_blank(s),
        words(s).len() <= s.len(),
    decreases s.len(),
{
    if s.len() > 0 {
        if is_white(s[0]) {
            lemma_words_nonempty(s.skip(1));
            assert(is_blank(s.skip(1)) ==> is_blank(s)) by {
                if is_blank(s.skip(1)) {
                    assert forall|k: int| 0 <= k < s.len() implies is_white(#[trigger] s[k]) by {
                        if k > 0 {
                            assert(s.skip(1)[k - 1] == s[k]);
                        }
                    }
                }
            }
            assert(is_blank(s) ==> is_blank(s.skip(1)));
        } else {
            lemma_word_len(s);
            lemma_words_nonempty(s.skip(word_len(s) as int));
        }
    }
}

/// Trimming at the start takes white space only and keeps the words.
pub proof fn lemma_trim_start(s: Seq<char>)
    ensures
        trim_start(s).len() <= s.len(),
        s.skip(s.len() - trim_start(s).len()) == trim_start(s),
        is_blank(s.take(s.len() - trim_start(s).len())),
        trim_start(s).len() > 0 ==> !is_white(trim_start(s)[0]),
        words(trim_start(s)) == words(s),
    decreases s.len(),
{
    if s.len() > 0 && is_white(s[0]) {
        let t = s.skip(1);
        lemma_trim_start(t);
        let n = t.len() - trim_start(t).len();
        assert(s.skip(n + 1) == t.skip(n));
        assert forall|k: int| 0 <= k < n + 1 implies is_white(#[trigger] s.take(n + 1)[k]) by {
            if k > 0 {
                assert(t.take(n)[k - 1] == s[k]);
            }
        }
    } else {
        assert(s.skip(0) == s);
    }
}

/// Trimming at the end takes white space only and keeps the words.
pub proof fn lemma_trim_end(s: Seq<char>)
    ensures
        trim_end(s).len() <= s.len(),
        s.take(trim_end(s).len() as int) == trim_end(s),
        is_blank(s.skip(trim_end(s).len() as int)),
        trim_end(s).len() > 0 ==> !is_white(trim_end(s).last()),
        words(trim_end(s)) == words(s),
    decreases s.len(),
{
    if s.len() > 0 && is_white(s.last()) {
        let t = s.drop_last();
        let w = seq![s.last()];
        lemma_trim_end(t);
        let n = trim_end(t).len() as int;
        assert(s.take(n) == t.take(n));
        assert(s == t + w);
        lemma_words_concat(t, w);
        lemma_words_blank(w);
        assert(words(t) + words(w) == words(t));
        assert forall|k: int| 0 <= k < s.len() - n implies is_white(#[trigger] s.skip(n)[k]) by {
            if k < t.len() - n {
                assert(t.skip(n)[k] == s[n + k]);
            }
        }
    } else {
        assert(s.take(s.len() as int) == s);
    }
}

/// Trimming keeps the words, takes white space only, and leaves none at either end.
pub proof fn lemma_trim(s: Seq<char>)
    ensures
        trim(s).len() <= s.len(),
        words(trim(s)) == words(s),
        trim(s).len() > 0 ==> !is_white(trim(s)[0]) && !is_white(trim(s).last()),
        trim(s).len() == 0 <==> is_blank(s),
{
    lemma_trim_start(s);
    lemma_trim_end(trim_start(s));
    lemma_words_nonempty(s);
    lemma_words_nonempty(trim(s));
    let t = trim_start(s);
    if trim(s).len() > 0 {
        assert(t.take(trim(s).len() as int)[0] == t[0]);
    }
}

/// What is left after white space at the start is taken off is known by how it begins.
pub proof fn lemma_trim_start_is(w: Seq<char>, s: Seq<char>)
    requires
        is_blank(w),
        s.len() == 0 || !is_white(s[0]),
    ensures
        trim_start(w + s) == s,
    decreases w.len(),
{
    if w.len() == 0 {
        assert(w + s == s);
    } else {
        assert(is_white(w[0]));
        assert((w + s).skip(1) == w.skip(1) + s);
        lemma_trim_start_is(w.skip(1), s);
    }
}

/// What is left after white space at the end is taken off is known by how it ends.
pub proof fn lemma_trim_end_is(s: Seq<char>, w: Seq<char>)
    requires
        is_blank(w),
        s.len() == 0 || !is_white(s.last()),
    ensures
        trim_end(s + w) == s,
    decreases w.len(),
{
    if w.len() == 0 {
        assert(s + w == s);
    } else {
        assert(is_white(w[w.len() - 1]));
        assert((s + w).drop_last() == s + w.drop_last());
        assert forall|k: int| 0 <= k < w.len() - 1 implies is_white(#[trigger] w.drop_last()[k]) by {
            assert(w.drop_last()[k] == w[k]);
        }
        lemma_trim_end_is(s, w.drop_last());
    }
}

/// Trimming takes off the white space at both ends, all of it and nothing else.
pub proof fn law_trimmed(before: Seq<char>, s: Seq<char>, after: Seq<char>)
    requires
        is_blank(before),
        is_blank(after),
        s.len() == 0 || !is_white(s[0]) && !is_white(s.last()),
    ensures
        trim(before + s + after) == s,
{
    if s.len() == 0 {
        let all = before + s + after;
        assert(is_blank(all)) by {
            assert forall|k: int| 0 <= k < all.len() implies is_white(#[trigger] all[k]) by {
                if k < before.len() {
                    assert(all[k] == before[k]);
                } else {
                    assert(all[k] == after[k - before.len()]);
                }
            }
        }
        lemma_trim(all);
    } else {
        assert(before + s + after == before + (s + after));
        assert((s + after)[0] == s[0]);
        lemma_trim_start_is(before, s + after);
        lemma_trim_end_is(s, after);
    }
}

/// Trimming leaves the middle of a text alone.
pub proof fn lemma_trim_around(a: Seq<char>, m: Seq<char>, b: Seq<char>)
    requires
        m.len() > 0,
        !is_white(m[0]),
        !is_white(m.last()),
    ensures
        trim(a + m + b) == trim_start(a) + m + trim_end(b),
{
    lemma_trim_start(a);
    lemma_trim_end(b);
    let x = a.take(a.len() - trim_start(a).len());
    let s = trim_start(a) + m + trim_end(b);
    let y = b.skip(trim_end(b).len() as int);
    assert(a == x + trim_start(a));
    assert(b == trim_end(b) + y);
    assert(a + m + b == x + s + y);
    if trim_start(a).len() == 0 {
        assert(s[0] == m[0]);
    }
    if trim_end(b).len() == 0 {
        assert(s.last() == m.last());
    }
    law_trimmed(x, s, y);
}

/// Trimming what was trimmed at its end is trimming.
pub proof fn lemma_trim_of_end(s: Seq<char>)
    ensures
        trim(trim_end(s)) == trim(s),
{
    lemma_trim_end(s);
    let t = trim_end(s);
    let w = s.skip(t.len() as int);
    lemma_trim_start(t);
    let x = t.take(t.len() - trim_start(t).len());
    let u = trim_start(t);
    assert(t == x + u);
    assert(s == t + w);
    if u.len() > 0 {
        assert(u.last() == t.last());
        law_trimmed(x, u, Seq::empty());
        assert(x + u + Seq::<char>::empty() == t);
        law_trimmed(x, u, w);
        assert(x + u + w == s);
    } else {
        assert(t == x);
        lemma_trim(t);
        assert(is_blank(s)) by {
            assert forall|k: int| 0 <= k < s.len() implies is_white(#[trigger] s[k]) by {
                if k < t.len() {
                    assert(s[k] == x[k]);
                } else {
                    assert(s[k] == w[k - t.len()]);
                }
            }
        }
        lemma_trim(s);
    }
}

/// Joining with white space keeps the words.
pub proof fn lemma_words_join(parts: Seq<Seq<char>>, sep: Seq<char>)
    requires
        sep.len() > 0,
        is_blank(sep),
    ensures
        words(join(parts, sep)) == all_words(parts),
    decreases parts.len(),
{
    if parts.len() == 0 {
    } else if parts.len() == 1 {
        assert(parts.drop_last() == Seq::<Seq<char>>::empty());
        assert(all_words(parts.drop_last()) == Seq::<Seq<char>>::empty());
        assert(all_words(parts) == words(parts[0]));
    } else {
        let head = join(parts.drop_last(), sep);
        lemma_words_join(parts.drop_last(), sep);
        assert(is_white(sep[0]));
        assert(is_white(sep[sep.len() - 1]));
        lemma_words_concat(head, sep);
        lemma_words_blank(sep);
        assert((head + sep).last() == sep.last());
        lemma_words_concat(head + sep, parts.last());
        assert(words(head) + words(sep) == words(head));
    }
}

/// The words of a list of words are the list itself.
pub proof fn lemma_all_words_of_words(ws: Seq<Seq<char>>)
    requires
        forall|i: int| 0 <= i < ws.len() ==> is_word(#[trigger] ws[i]),
    ensures
        all_words(ws) == ws,
    decreases ws.len(),
{
    if ws.len() > 0 {
        lemma_all_words_of_words(ws.drop_last());
        lemma_words_of_word(ws.last());
        assert(ws.drop_last() + seq![ws.last()] == ws);
    }
}

/// The words of a single part are its own.
pub proof fn lemma_all_words_one(s: Seq<char>)
    ensures
        all_words(seq![s]) == words(s),
{
    assert(seq![s].drop_last() == Seq::<Seq<char>>::empty());
    assert(all_words(seq![s].drop_last()) == Seq::<Seq<char>>::empty());
    assert(Seq::<Seq<char>>::empty() + words(s) == words(s));
}

/// Splitting a list of parts divides its words.
pub proof fn lemma_all_words_concat(a: Seq<Seq<char>>, b: Seq<Seq<char>>)
    ensures
        all_words(a + b) == all_words(a) + all_words(b),
    decreases b.len(),
{
    if b.len() == 0 {
        assert(a + b == a);
        assert(all_words(a) + all_words(b) == all_words(a));
    } else {
        assert((a + b).drop_last() == a + b.drop_last());
        assert((a + b).last() == b.last());
        lemma_all_words_concat(a, b.drop_last());
        assert(all_words(a) + (all_words(b.drop_last()) + words(b.last())) == (all_words(a)
            + all_words(b.drop_last())) + words(b.last()));
    }
}

/// White space stands between words, so a text has at most half as many words as characters,
/// rounded up.
pub proof fn lemma_words_half(s: Seq<char>)
    ensures
        2 * words(s).len() <= s.len() + 1,
    decreases s.len(),
{
    if s.len() > 0 {
        if is_white(s[0]) {
            lemma_words_half(s.skip(1));
        } else {
            let k = word_len(s) as int;
            lemma_word_len(s);
            let rest = s.skip(k);
            if rest.len() > 0 {
                assert(rest[0] == s[k]);
                lemma_words_half(rest.skip(1));
                assert(words(rest) == words(rest.skip(1)));
            } else {
                assert(words(rest).len() == 0);
            }
        }
    }
}

/// What holds of all characters of a text holds of the characters of its words.
pub proof fn lemma_words_from(s: Seq<char>, ok: spec_fn(char) -> bool)
    requires
        forall|i: int| 0 <= i < s.len() ==> ok(#[trigger] s[i]),
    ensures
        forall|k: int, i: int|
            0 <= k < words(s).len() && 0 <= i < words(s)[k].len() ==> ok(
                #[trigger] words(s)[k][i],
            ),
    decreases s.len(),
{
    if s.len() > 0 {
        if is_white(s[0]) {
            let rest = s.skip(1);
            assert forall|i: int| 0 <= i < rest.len() implies ok(#[trigger] rest[i]) by {
                assert(rest[i] == s[i + 1]);
            }
            lemma_words_from(rest, ok);
            assert(words(s) == words(rest));
        } else {
            let n = word_len(s) as int;
            lemma_word_len(s);
            let rest = s.skip(n);
            assert forall|i: int| 0 <= i < rest.len() implies ok(#[trigger] rest[i]) by {
                assert(rest[i] == s[i + n]);
            }
            lemma_words_from(rest, ok);
            assert forall|k: int, i: int|
                0 <= k < words(s).len() && 0 <= i < words(s)[k].len() implies ok(
                #[trigger] words(s)[k][i],
            ) by {
                if k == 0 {
                    assert(words(s)[0] == s.take(n));
                    assert(s.take(n)[i] == s[i]);
                } else {
                    assert(words(s)[k] == words(rest)[k - 1]);
                }
            }
        }
    }
}

/// Words with single spaces between them: what holds of their characters holds of all but the
/// spaces, no white space stands at either end, and no two spaces stand side by side.
pub proof fn lemma_single_spaces(ws: Seq<Seq<char>>, ok: spec_fn(char) -> bool)
    requires
        forall|k: int| 0 <= k < ws.len() ==> is_word(#[trigger] ws[k]),
        forall|k: int, i: int|
            0 <= k < ws.len() && 0 <= i < ws[k].len() ==> ok(#[trigger] ws[k][i]),
    ensures
        ({
            let s = join(ws, seq![' ']);
            &&& forall|i: int| 0 <= i < s.len() ==> ok(#[trigger] s[i]) || s[i] == ' '
            &&& ws.len() > 0 ==> s.len() > 0 && !is_white(s[0]) && !is_white(s.last())
            &&& no_double_space(s)
        }),
    decreases ws.len(),
{
    if ws.len() == 1 {
        assert(is_word(ws[0]));
        assert(!is_white(ws[0][0]));
        assert(!is_white(ws[0][ws[0].len() - 1]));
        assert forall|i: int| 0 <= i < ws[0].len() implies ws[0][i] != ' ' by {
            assert(!is_white(ws[0][i]));
        }
    } else if ws.len() > 1 {
        let front = ws.drop_last();
        assert forall|k: int| 0 <= k < front.len() implies is_word(#[trigger] front[k]) by {
            assert(front[k] == ws[k]);
        }
        assert forall|k: int, i: int| 0 <= k < front.len() && 0 <= i < front[k].len() implies ok(
            #[trigger] front[k][i],
        ) by {
            assert(front[k] == ws[k]);
            assert(ok(ws[k][i]));
        }
        lemma_single_spaces(front, ok);
        let a = join(front, seq![' ']);
        let z = ws[ws.len() - 1];
        let s = join(ws, seq![' ']);
        assert(s == a + seq![' '] + z);
        assert(is_word(z));
        assert(!is_white(z[0]));
        assert(!is_white(z[z.len() - 1]));
        assert(s.last() == z[z.len() - 1]);
        assert(s[0] == a[0]);
        assert forall|i: int| 0 <= i < s.len() implies ok(#[trigger] s[i]) || s[i] == ' ' by {
            if i < a.len() {
                assert(s[i] == a[i]);
            } else if i > a.len() {
                assert(s[i] == ws[ws.len() - 1][i - a.len() - 1]);
            }
        }
        assert forall|i: int| 0 <= i < s.len() - 1 && #[trigger] s[i] == ' ' implies s[i + 1]
            != ' ' by {
            if i < a.len() {
                assert(s[i] == a[i]);
                assert(a.last() == a[a.len() - 1]);
                assert(i < a.len() - 1);
                assert(s[i + 1] == a[i + 1]);
            } else if i > a.len() {
                assert(s[i] == z[i - a.len() - 1]);
                assert(!is_white(z[i - a.len() - 1]));
            } else {
                assert(s[i + 1] == z[0]);
            }
        }
    }
}

} // verus!
