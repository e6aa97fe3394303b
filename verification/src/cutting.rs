//! Where texts are cut, what the pieces are, and what follows each.

use crate::chars::{is_white, width};
use crate::chunks::{
    after_words, blocks, byte_len, chunk_texts, chunk_views, chunks_of, cut, ended, ends_sentence,
    fit, fit_back, harvested, is_offset, last_sentence_end, last_white, lemma_after_words,
    lemma_byte_len_take, lemma_chunks_extend, lemma_encoded_len, lemma_fit_back, paragraph_end,
    paragraphs, parts, pieces, sentence_end, solid, tagged, window_start, Chunk,
};
use crate::records::Boundary;
use crate::search::{
    law_replaced_nothing, law_split_goes_on, law_split_of_nothing, lemma_find_is, stands,
};
use crate::text::{lemma_word_len, replaced, trim, word_len, words};
use crate::words::{
    lemma_trim, lemma_words_concat, lemma_words_nonempty, lemma_words_of_word,
};
use vstd::prelude::*;

verus! {

/// Two newlines in a row, which a blank line is made of.
pub open spec fn gap() -> Seq<char> {
    seq!['\n', '\n']
}

/// True if `s` holds no carriage return.
pub open spec fn returnless(s: Seq<char>) -> bool {
    forall|i: int| 0 <= i < s.len() ==> #[trigger] s[i] != '\r'
}

proof fn lemma_returnless(s: Seq<char>)
    requires
        returnless(s),
    ensures
        replaced(s, seq!['\r', '\n'], seq!['\n']) == s,
{
    let pat = seq!['\r', '\n'];
    assert forall|j: int| !#[trigger] stands(s, pat, j) by {
        if stands(s, pat, j) {
            assert(s.subrange(j, j + 2)[0] == s[j]);
        }
    }
    law_replaced_nothing(s, pat, seq!['\n']);
}

/// Text without a blank line is a single block, however many lines it has.
pub proof fn law_lines_stay_together(s: Seq<char>)
    requires
        returnless(s),
        forall|j: int| 0 <= j < s.len() - 1 ==> !(#[trigger] s[j] == '\n' && s[j + 1] == '\n'),
    ensures
        blocks(s) == seq![trim(s)],
{
    lemma_returnless(s);
    assert forall|j: int| !#[trigger] stands(s, gap(), j) by {
        if stands(s, gap(), j) {
            assert(s.subrange(j, j + 2)[0] == s[j]);
            assert(s.subrange(j, j + 2)[1] == s[j + 1]);
        }
    }
    law_split_of_nothing(s, gap());
    assert(blocks(s) == seq![trim(s)]);
}

/// A blank line separates blocks: what stands before the first one is a block, and what follows it
/// has the others.
pub proof fn law_blank_line_separates_blocks(a: Seq<char>, b: Seq<char>)
    requires
        returnless(a),
        returnless(b),
        forall|j: int| 0 <= j < a.len() - 1 ==> !(#[trigger] a[j] == '\n' && a[j + 1] == '\n'),
        a.len() > 0 ==> a.last() != '\n',
    ensures
        blocks(a + gap() + b) == seq![trim(a)] + blocks(b),
{
    let s = a + gap() + b;
    let n = a.len() as int;
    assert(returnless(s)) by {
        assert forall|i: int| 0 <= i < s.len() implies #[trigger] s[i] != '\r' by {
            if i < n {
                assert(s[i] == a[i]);
            } else if i >= n + 2 {
                assert(s[i] == b[i - n - 2]);
            }
        }
    }
    lemma_returnless(s);
    lemma_returnless(b);
    let t = a + gap();
    assert(t.subrange(n, n + 2) == gap());
    assert(stands(t, gap(), n));
    assert forall|j: int| j < n implies !#[trigger] stands(t, gap(), j) by {
        if stands(t, gap(), j) {
            assert(t.subrange(j, j + 2)[0] == a[j]);
            assert(t.subrange(j, j + 2)[1] == t[j + 1]);
            if j + 1 < n {
                assert(t[j + 1] == a[j + 1]);
            } else {
                assert(a.last() == a[j]);
            }
        }
    }
    lemma_find_is(t, gap(), n);
    law_split_goes_on(a, gap(), b);
    assert(blocks(s) == seq![trim(a)] + blocks(b));
}

/// A carriage return before a newline makes no difference to the blocks.
pub proof fn law_returns_do_not_count(raw: Seq<char>)
    requires
        returnless(replaced(raw, seq!['\r', '\n'], seq!['\n'])),
    ensures
        blocks(raw) == blocks(replaced(raw, seq!['\r', '\n'], seq!['\n'])),
{
    lemma_returnless(replaced(raw, seq!['\r', '\n'], seq!['\n']));
}

/// The paragraphs are the blocks with enough characters that are not white space, all of them and
/// in order.
pub proof fn law_paragraphs_are_big_blocks(raw: Seq<char>, min_chars: nat)
    ensures
        paragraphs(raw, min_chars) == blocks(raw).filter(
            |b: Seq<char>| b.filter(|c: char| !is_white(c)).len() >= min_chars,
        ),
{
    let big = |b: Seq<char>| b.filter(|c: char| !is_white(c)).len() >= min_chars;
    let all = blocks(raw);
    let own = |p: Seq<char>| solid(p) >= min_chars;
    assert forall|b: Seq<char>| #[trigger] big(b) == own(b) by {
        lemma_solid_filter(b);
    }
    assert(big =~= own);
}

proof fn lemma_solid_filter(s: Seq<char>)
    ensures
        solid(s) == s.filter(|c: char| !is_white(c)).len(),
    decreases s.len(),
{
    reveal(Seq::filter);
    if s.len() > 0 {
        lemma_solid_filter(s.drop_last());
    }
}

/// True if the `n`th word of `s` ends at `t` and white space follows it.
pub open spec fn is_target(s: Seq<char>, n: int, t: int) -> bool {
    &&& 0 < t < s.len()
    &&& words(s.take(t)).len() == n
    &&& !is_white(s[t - 1])
    &&& is_white(s[t])
}

/// The end of the `n`th word is where `n` words lie before it, the last one right before it.
pub proof fn law_end_of_word(s: Seq<char>, n: nat)
    requires
        0 < n < words(s).len(),
    ensures
        is_target(s, n as int, after_words(s, n as int) as int),
    decreases s.len(),
{
    let a = after_words(s, n as int) as int;
    lemma_after_words(s, n as int);
    lemma_words_nonempty(s);
    if is_white(s[0]) {
        let rest = s.skip(1);
        law_end_of_word(rest, n);
        assert(s.take(a).skip(1) == rest.take(a - 1));
        assert(s.take(a)[0] == s[0]);
        assert(rest[a - 2] == s[a - 1]);
        assert(rest[a - 1] == s[a]);
    } else {
        let k = word_len(s) as int;
        lemma_word_len(s);
        let rest = s.skip(k);
        let w = s.take(k);
        assert forall|j: int| 0 <= j < w.len() implies !is_white(#[trigger] w[j]) by {
            assert(w[j] == s[j]);
        }
        lemma_words_of_word(w);
        assert(words(s).len() == 1 + words(rest).len());
        if k == s.len() {
            lemma_words_nonempty(rest);
        }
        if n == 1 {
            assert(a == k);
        } else {
            law_end_of_word(rest, (n - 1) as nat);
            let b = a - k;
            lemma_after_words(rest, n - 1);
            assert(s.take(a) == w + rest.take(b));
            assert(rest.take(b)[0] == s[k]);
            lemma_words_concat(w, rest.take(b));
            assert(rest[b - 1] == s[a - 1]);
            assert(rest[b] == s[a]);
        }
    }
}

proof fn lemma_fit_back_is(s: Seq<char>, limit: int, k: int)
    requires
        0 <= k <= s.len(),
        limit >= 0,
    ensures
        byte_len(s.skip(s.len() - k)) <= limit <==> k <= fit_back(s, limit),
    decreases s.len(),
{
    if k == 0 {
        assert(s.skip(s.len() as int) == Seq::<char>::empty());
    } else {
        let t = s.skip(s.len() - k);
        let u = s.drop_last();
        assert(t.last() == s.last());
        assert(t.drop_last() == u.skip(u.len() - (k - 1)));
        assert(byte_len(t) == byte_len(t.drop_last()) + width(s.last()));
        if width(s.last()) <= limit {
            lemma_fit_back_is(u, limit - width(s.last()), k - 1);
        }
    }
}

/// True if a sentence ends at `i`, not after `t` and at most 150 bytes before it.
pub open spec fn sentence_cut(s: Seq<char>, t: int, i: int) -> bool {
    &&& 0 < i <= t < s.len()
    &&& s[i - 1] == '.' || s[i - 1] == '!' || s[i - 1] == '?'
    &&& is_white(s[i])
    &&& vstd::utf8::encode_utf8(s.subrange(i - 1, t)).len() <= 150
}

proof fn lemma_last_sentence_end_is(s: Seq<char>, lo: int, hi: int)
    ensures
        match last_sentence_end(s, lo, hi) {
            Some(c) => lo < c <= hi && ends_sentence(s, c - 1) && forall|i: int|
                c < i <= hi ==> !#[trigger] ends_sentence(s, i - 1),
            None => forall|i: int| lo < i <= hi ==> !#[trigger] ends_sentence(s, i - 1),
        },
    decreases hi - lo,
{
    if lo < hi && !ends_sentence(s, hi - 1) {
        lemma_last_sentence_end_is(s, lo, hi - 1);
    }
}

proof fn lemma_window(s: Seq<char>, t: int, i: int)
    requires
        0 < i <= t < s.len(),
    ensures
        vstd::utf8::encode_utf8(s.subrange(i - 1, t)).len() <= 150 <==> window_start(s, t) < i,
{
    let head = s.take(t);
    let k = t - (i - 1);
    lemma_fit_back_is(head, 150, k);
    assert(head.skip(t - k) == s.subrange(i - 1, t));
    lemma_encoded_len(s.subrange(i - 1, t));
}

/// A text of more than `n` words is cut at the last sentence end up to the end of its `n`th word
/// that is at most 150 bytes away. Where there is none it is cut behind the last white space
/// before that word, and where there is no such white space either, behind the word.
pub proof fn law_cut_at_last_sentence_end(s: Seq<char>, n: nat, t: int)
    requires
        0 < n < words(s).len(),
        is_target(s, n as int, t),
    ensures
        ({
            let c = cut(s, n);
            &&& (exists|i: int| #[trigger] sentence_cut(s, t, i)) ==> {
                &&& sentence_cut(s, t, c)
                &&& forall|i: int| #[trigger] sentence_cut(s, t, i) ==> i <= c
            }
            &&& (forall|i: int| !#[trigger] sentence_cut(s, t, i)) ==> {
                &&& 0 < c <= t
                &&& c == t || is_white(s[c - 1])
                &&& forall|j: int| c <= j < t ==> !is_white(#[trigger] s[j])
                &&& c == t ==> forall|j: int| 0 <= j < t ==> !is_white(#[trigger] s[j])
            }
        }),
{
    law_end_of_word(s, n);
    lemma_one_target(s, n as int, t, after_words(s, n as int) as int);
    let lo = window_start(s, t);
    lemma_fit_back(s.take(t), 150);
    lemma_last_sentence_end_is(s, lo, t);
    lemma_last_white_is(s.take(t));
    let c = cut(s, n);
    assert forall|i: int| 0 < i <= t implies #[trigger] sentence_cut(s, t, i) == (lo < i
        && ends_sentence(s, i - 1)) by {
        lemma_window(s, t, i);
    }
    match last_sentence_end(s, lo, t) {
        Some(e) => {
            assert(c == e);
            assert(sentence_cut(s, t, c));
            assert forall|i: int| #[trigger] sentence_cut(s, t, i) implies i <= c by {
                if i > c {
                    assert(!ends_sentence(s, i - 1));
                }
            }
        },
        None => {
            assert forall|i: int| !#[trigger] sentence_cut(s, t, i) by {
                if sentence_cut(s, t, i) {
                    assert(!ends_sentence(s, i - 1));
                }
            }
            assert(!is_white(s[t - 1]));
            match last_white(s.take(t)) {
                Some(p) => {
                    assert(c == p + 1);
                    assert(s.take(t)[p] == s[p]);
                    assert forall|j: int| c <= j < t implies !is_white(#[trigger] s[j]) by {
                        assert(s.take(t)[j] == s[j]);
                    }
                    assert(c != t);
                },
                None => {
                    assert forall|j: int| 0 <= j < t implies !is_white(#[trigger] s[j]) by {
                        assert(s.take(t)[j] == s[j]);
                    }
                },
            }
        },
    }
}

proof fn lemma_last_white_is(s: Seq<char>)
    ensures
        match last_white(s) {
            Some(p) => 0 <= p < s.len() && is_white(s[p]) && forall|j: int|
                p < j < s.len() ==> !is_white(#[trigger] s[j]),
            None => forall|j: int| 0 <= j < s.len() ==> !is_white(#[trigger] s[j]),
        },
    decreases s.len(),
{
    if s.len() > 0 && !is_white(s.last()) {
        let t = s.drop_last();
        lemma_last_white_is(t);
        match last_white(t) {
            Some(p) => {
                assert forall|j: int| p < j < s.len() implies !is_white(#[trigger] s[j]) by {
                    if j < t.len() {
                        assert(t[j] == s[j]);
                    }
                }
            },
            None => {
                assert forall|j: int| 0 <= j < s.len() implies !is_white(#[trigger] s[j]) by {
                    if j < t.len() {
                        assert(t[j] == s[j]);
                    }
                }
            },
        }
    }
}

proof fn lemma_one_target(s: Seq<char>, n: int, a: int, b: int)
    requires
        is_target(s, n, a),
        is_target(s, n, b),
    ensures
        a == b,
{
    if a < b {
        lemma_more_words(s, n, a, b);
    } else if b < a {
        lemma_more_words(s, n, b, a);
    }
}

proof fn lemma_more_words(s: Seq<char>, n: int, a: int, b: int)
    requires
        is_target(s, n, a),
        a < b < s.len(),
        !is_white(s[b - 1]),
    ensures
        words(s.take(b)).len() > n,
{
    let x = s.take(a);
    let y = s.subrange(a, b);
    assert(s.take(b) == x + y);
    assert(y[0] == s[a]);
    lemma_words_concat(x, y);
    lemma_words_nonempty(y);
    assert(y[b - a - 1] == s[b - 1]);
}

/// A text of at most `n` words is one piece, without the white space around it; a blank one has
/// none. The first piece of a longer text is what stands before its cut, and the others are the
/// pieces of what follows.
pub proof fn law_pieces_one_by_one(s: Seq<char>, n: nat)
    ensures
        words(s).len() == 0 ==> pieces(s, n).len() == 0,
        0 < words(s).len() <= n ==> pieces(s, n) == seq![trim(s)],
        words(s).len() > n ==> {
            &&& pieces(s, n).len() > 0
            &&& pieces(s, n)[0] == trim(s.take(cut(s, n)))
            &&& pieces(s, n).skip(1) == pieces(trim(s.skip(cut(s, n))), n)
        },
{
    lemma_trim(s);
    lemma_words_nonempty(s);
    if words(s).len() > n {
        let first = trim(s.take(cut(s, n)));
        let rest = pieces(trim(s.skip(cut(s, n))), n);
        assert((seq![first] + rest).skip(1) == rest);
    }
}

/// The texts that are voiced for a paragraph: all of it if there is no limit of words, else its
/// pieces.
pub open spec fn voiced(p: Seq<char>, max_words: nat) -> Seq<Seq<char>> {
    if max_words == 0 {
        seq![p]
    } else {
        pieces(p, max_words)
    }
}

/// Number of texts that are voiced for the first `n` of `paras`.
pub open spec fn count_voiced(paras: Seq<Seq<char>>, max_words: nat, n: int) -> int {
    paras.take(n).map_values(|p: Seq<char>| voiced(p, max_words)).flatten().len() as int
}

proof fn lemma_count_voiced(paras: Seq<Seq<char>>, max_words: nat, n: nat)
    requires
        n <= paras.len(),
    ensures
        chunks_of(paras, max_words, n).len() == count_voiced(paras, max_words, n as int),
    decreases n,
{
    let own = |p: Seq<char>| voiced(p, max_words);
    let all = paras.take(n as int).map_values(own);
    all.lemma_flatten_and_flatten_alt_are_equivalent();
    if n > 0 {
        let m = (n - 1) as nat;
        lemma_count_voiced(paras, max_words, m);
        let front = paras.take(m as int).map_values(own);
        assert(all.drop_last() == front);
        front.lemma_flatten_and_flatten_alt_are_equivalent();
        assert(all.last() == parts(paras[n - 1], max_words));
    }
}

/// Each paragraph is voiced in full and in its turn: text `k` of paragraph `p` is the chunk behind
/// those of the paragraphs before it and its own before. A sentence boundary follows it, but a
/// paragraph boundary if it is the last of its paragraph, and none if it is the last of all.
pub proof fn law_chunks_in_their_places(
    raw: Seq<char>,
    min_chars: nat,
    max_words: nat,
    p: int,
    k: int,
)
    requires
        0 <= p < paragraphs(raw, min_chars).len(),
        0 <= k < voiced(paragraphs(raw, min_chars)[p], max_words).len(),
    ensures
        ({
            let paras = paragraphs(raw, min_chars);
            let own = voiced(paras[p], max_words);
            let chunks = harvested(raw, min_chars, max_words);
            let at = count_voiced(paras, max_words, p) + k;
            &&& chunks.len() == count_voiced(paras, max_words, paras.len() as int)
            &&& at < chunks.len()
            &&& chunks[at].0 == own[k]
            &&& chunks[at].1 == if at + 1 == chunks.len() {
                None
            } else if k + 1 == own.len() {
                Some(Boundary::Paragraph)
            } else {
                Some(Boundary::Sentence)
            }
        }),
{
    let paras = paragraphs(raw, min_chars);
    let n = paras.len();
    let own = parts(paras[p], max_words);
    let all = chunks_of(paras, max_words, n);
    let before = chunks_of(paras, max_words, p as nat);
    let upto = chunks_of(paras, max_words, (p + 1) as nat);
    lemma_count_voiced(paras, max_words, p as nat);
    lemma_count_voiced(paras, max_words, n);
    lemma_chunks_extend(paras, max_words, (p + 1) as nat, n);
    let at = before.len() + k;
    let more = tagged(own, paragraph_end(paras, p));
    assert(upto == before + more);
    assert(upto[at] == more[k]);
    assert(all.take(upto.len() as int)[at] == all[at]);
    assert(ended(all).len() == all.len());
    assert(ended(all)[at].0 == all[at].0);
    if at + 1 < all.len() {
        assert(ended(all)[at] == all[at]);
        if k + 1 == own.len() {
            assert(p + 1 < n);
        }
    }
}

/// The chunks are as many as the texts that are voiced.
pub proof fn law_number_of_chunks(raw: Seq<char>, min_chars: nat, max_words: nat)
    ensures
        harvested(raw, min_chars, max_words).len() == count_voiced(
            paragraphs(raw, min_chars),
            max_words,
            paragraphs(raw, min_chars).len() as int,
        ),
{
    let paras = paragraphs(raw, min_chars);
    lemma_count_voiced(paras, max_words, paras.len());
}

/// The characters that lie within the first bytes of a text are as many as fit.
pub proof fn law_fit(s: Seq<char>, limit: int, k: int)
    requires
        0 <= k <= s.len(),
        limit >= 0,
    ensures
        fit(s, limit) <= s.len(),
        vstd::utf8::encode_utf8(s.take(k)).len() <= limit <==> k <= fit(s, limit),
    decreases s.len(),
{
    lemma_encoded_len(s.take(k));
    if s.len() > 0 {
        let rest = s.skip(1);
        if k > 0 {
            let t = s.take(k);
            assert(t.skip(1) == rest.take(k - 1));
            lemma_byte_len_first(t);
            lemma_encoded_len(rest.take(k - 1));
            if width(s[0]) <= limit {
                law_fit(rest, limit - width(s[0]), k - 1);
            }
        } else {
            assert(s.take(0) == Seq::<char>::empty());
            if width(s[0]) <= limit {
                law_fit(rest, limit - width(s[0]), 0);
            }
        }
    } else {
        assert(s.take(k) == Seq::<char>::empty());
    }
}

proof fn lemma_byte_len_first(s: Seq<char>)
    requires
        s.len() > 0,
    ensures
        byte_len(s) == width(s[0]) + byte_len(s.skip(1)),
    decreases s.len(),
{
    if s.len() == 1 {
        assert(s.drop_last() == Seq::<char>::empty());
        assert(s.skip(1) == Seq::<char>::empty());
    } else {
        lemma_byte_len_first(s.drop_last());
        assert(s.drop_last().skip(1) == s.skip(1).drop_last());
    }
}

/// The sentence end that is found is the first in its range: a full stop, an exclamation or a
/// question mark with white space or nothing behind it; nothing is found only where there is none.
pub proof fn law_first_sentence_end(s: Seq<char>, lo: int, hi: int)
    requires
        0 <= lo <= hi <= s.len(),
    ensures
        match sentence_end(s, lo, hi) {
            Some(c) => {
                &&& lo < c <= hi
                &&& s[c - 1] == '.' || s[c - 1] == '!' || s[c - 1] == '?'
                &&& c == s.len() || is_white(s[c])
                &&& forall|i: int| lo <= i < c - 1 ==> !#[trigger] ends_sentence(s, i)
            },
            None => forall|i: int|
                lo <= i < hi && (#[trigger] s[i] == '.' || s[i] == '!' || s[i] == '?') ==> i + 1
                    < s.len() && !is_white(s[i + 1]),
        },
    decreases hi - lo,
{
    if lo < hi && !ends_sentence(s, lo) {
        law_first_sentence_end(s, lo + 1, hi);
    }
}

/// A place in a text is where a character begins, or its end, exactly if the bytes of the
/// characters before it are as many as it says.
pub proof fn law_offsets(s: Seq<char>, offset: int)
    requires
        offset >= 0,
    ensures
        is_offset(s, offset) <==> exists|k: int|
            0 <= k <= s.len() && vstd::utf8::encode_utf8(#[trigger] s.take(k)).len() == offset,
{
    law_fit(s, offset, 0);
    let n = fit(s, offset) as int;
    lemma_encoded_len(s.take(n));
    if exists|k: int|
        0 <= k <= s.len() && vstd::utf8::encode_utf8(#[trigger] s.take(k)).len() == offset {
        let k = choose|k: int|
            0 <= k <= s.len() && vstd::utf8::encode_utf8(#[trigger] s.take(k)).len() == offset;
        law_fit(s, offset, k);
        law_fit(s, offset, n);
        lemma_encoded_len(s.take(k));
        lemma_byte_len_take(s, k, n);
    }
}

/// The chunks hold their texts and what follows each, in their order.
pub proof fn law_chunk_views(v: Seq<Chunk>)
    ensures
        chunk_views(v).len() == v.len(),
        forall|i: int|
            0 <= i < v.len() ==> #[trigger] chunk_views(v)[i] == (
                v[i].text@,
                v[i].trailing_boundary,
            ),
{
}

/// The texts of chunks are taken in their order, and cutting off the last boundary changes none.
pub proof fn law_chunk_texts(chunks: Seq<(Seq<char>, Option<Boundary>)>)
    ensures
        chunk_texts(chunks).len() == chunks.len(),
        forall|i: int| 0 <= i < chunks.len() ==> #[trigger] chunk_texts(chunks)[i] == chunks[i].0,
        chunk_texts(ended(chunks)) == chunk_texts(chunks),
        forall|i: int|
            0 <= i < chunks.len() - 1 ==> #[trigger] ended(chunks)[i] == chunks[i],
{
    assert(chunk_texts(ended(chunks)) == chunk_texts(chunks));
}

} // verus!
