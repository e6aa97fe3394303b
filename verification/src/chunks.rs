//! Splitting text into synthesis chunks.

use crate::chars::{is_white, is_whitespace, utf8_width, width};
use crate::records::Boundary;
use crate::text::{
    chars_of, count_words, lemma_word_len, part, replace_all, replaced, rows, split, split_on,
    string_of, strings_of, texts, trim, trimmed, word_end_from, word_len, words,
};
use crate::words::{
    all_words, clean_cut, is_blank, lemma_all_words_concat, lemma_all_words_one, lemma_trim,
    lemma_words_concat, lemma_words_nonempty, lemma_words_of_word,
};
use vstd::prelude::*;

verus! {

/// A synthesis unit: the text to voice plus the silence that follows it.
#[derive(Debug, Clone)]
pub struct Chunk {
    pub text: String,
    pub trailing_boundary: Option<Boundary>,
}

impl View for Chunk {
    type V = (Seq<char>, Option<Boundary>);

    open spec fn view(&self) -> (Seq<char>, Option<Boundary>) {
        (self.text@, self.trailing_boundary)
    }
}

/// What a list of chunks holds.
pub open spec fn chunk_views(v: Seq<Chunk>) -> Seq<(Seq<char>, Option<Boundary>)> {
    v.map_values(|c: Chunk| c@)
}

/// How many bytes before the target split point a sentence end is looked for.
pub const SEARCH_BYTES: usize = 150;

/// Number of bytes of `s` in UTF-8.
pub open spec fn byte_len(s: Seq<char>) -> nat
    decreases s.len(),
{
    if s.len() == 0 {
        0
    } else {
        byte_len(s.drop_last()) + width(s.last())
    }
}

/// How many of the first characters of `s` lie within its first `limit` bytes.
pub open spec fn fit(s: Seq<char>, limit: int) -> nat
    decreases s.len(),
{
    if s.len() == 0 || width(s[0]) > limit {
        0
    } else {
        1 + fit(s.skip(1), limit - width(s[0]))
    }
}

/// True if `offset` bytes into `s` a character begins, or `s` ends.
pub open spec fn is_offset(s: Seq<char>, offset: int) -> bool {
    byte_len(s.take(fit(s, offset) as int)) == offset
}

/// Position of the white space after the `n`th word of `s`; the end of `s` if there is none.
pub open spec fn after_words(s: Seq<char>, n: int) -> nat
    decreases s.len(),
{
    if s.len() == 0 {
        0
    } else if is_white(s[0]) {
        1 + after_words(s.skip(1), n)
    } else {
        let k = word_len(s);
        if k >= s.len() {
            s.len()
        } else if n == 1 {
            k
        } else {
            k + after_words(s.skip(k as int), n - 1)
        }
    }
}

/// True if `s` has a sentence-terminal character at `i` with white space or the end after it.
pub open spec fn ends_sentence(s: Seq<char>, i: int) -> bool {
    &&& 0 <= i < s.len()
    &&& s[i] == '.' || s[i] == '!' || s[i] == '?'
    &&& i + 1 == s.len() || is_white(s[i + 1])
}

/// The position just past the first sentence end of `s` from `lo` up to `hi`.
pub open spec fn sentence_end(s: Seq<char>, lo: int, hi: int) -> Option<int>
    decreases hi - lo,
{
    if lo >= hi {
        None
    } else if ends_sentence(s, lo) {
        Some(lo + 1)
    } else {
        sentence_end(s, lo + 1, hi)
    }
}

/// The position just past the last sentence end of `s` from `lo` up to `hi`.
pub open spec fn last_sentence_end(s: Seq<char>, lo: int, hi: int) -> Option<int>
    decreases hi - lo,
{
    if lo >= hi {
        None
    } else if ends_sentence(s, hi - 1) {
        Some(hi)
    } else {
        last_sentence_end(s, lo, hi - 1)
    }
}

/// Position of the last white space of `s`.
pub open spec fn last_white(s: Seq<char>) -> Option<int>
    decreases s.len(),
{
    if s.len() == 0 {
        None
    } else if is_white(s.last()) {
        Some(s.len() - 1)
    } else {
        last_white(s.drop_last())
    }
}

/// How many of the last characters of `s` lie within its last `limit` bytes.
pub open spec fn fit_back(s: Seq<char>, limit: int) -> nat
    decreases s.len(),
{
    if s.len() == 0 || width(s.last()) > limit {
        0
    } else {
        1 + fit_back(s.drop_last(), limit - width(s.last()))
    }
}

/// The start of the search window that ends at `hint`.
pub open spec fn window_start(s: Seq<char>, hint: int) -> int {
    hint - fit_back(s.take(hint), SEARCH_BYTES as int)
}

/// Where `s` is cut so that at most `n` words come before the cut: at the last sentence end
/// within the search window up to the end of the `n`th word, else after the last white space
/// before that word's end, else at that word's end.
pub open spec fn cut(s: Seq<char>, n: nat) -> int {
    let hint = after_words(s, n as int) as int;
    match last_sentence_end(s, window_start(s, hint), hint) {
        Some(i) => i,
        None => match last_white(s.take(hint)) {
            Some(p) => p + 1,
            None => hint,
        },
    }
}

/// The pieces of `s`: while more than `n` words are left, the part before the cut is taken off,
/// and both sides are trimmed.
pub open spec fn pieces(s: Seq<char>, n: nat) -> Seq<Seq<char>>
    decreases s.len(),
{
    if words(s).len() <= n {
        if trim(s).len() == 0 {
            Seq::empty()
        } else {
            seq![trim(s)]
        }
    } else {
        proof {
            lemma_pieces_shrink(s, n);
        }
        seq![trim(s.take(cut(s, n)))] + pieces(trim(s.skip(cut(s, n))), n)
    }
}

pub proof fn lemma_fit_back(s: Seq<char>, limit: int)
    ensures
        fit_back(s, limit) <= s.len(),
    decreases s.len(),
{
    if s.len() > 0 && width(s.last()) <= limit {
        lemma_fit_back(s.drop_last(), limit - width(s.last()));
    }
}

pub proof fn lemma_after_words(s: Seq<char>, n: int)
    ensures
        after_words(s, n) <= s.len(),
        s.len() > 0 ==> after_words(s, n) > 0,
        after_words(s, n) < s.len() ==> is_white(s[after_words(s, n) as int]),
    decreases s.len(),
{
    if s.len() > 0 {
        if is_white(s[0]) {
            lemma_after_words(s.skip(1), n);
        } else {
            let k = word_len(s);
            lemma_word_len(s);
            if k < s.len() && n != 1 {
                lemma_after_words(s.skip(k as int), n - 1);
            }
        }
    }
}

pub proof fn lemma_last_sentence_end(s: Seq<char>, lo: int, hi: int)
    ensures
        last_sentence_end(s, lo, hi) matches Some(i) ==> lo < i <= hi && ends_sentence(s, i - 1),
    decreases hi - lo,
{
    if lo < hi && !ends_sentence(s, hi - 1) {
        lemma_last_sentence_end(s, lo, hi - 1);
    }
}

pub proof fn lemma_last_white(s: Seq<char>)
    ensures
        last_white(s) matches Some(p) ==> 0 <= p < s.len() && is_white(s[p]),
    decreases s.len(),
{
    if s.len() > 0 && !is_white(s.last()) {
        lemma_last_white(s.drop_last());
    }
}

/// A cut is past the start, within the text, and divides no word.
pub proof fn lemma_cut(s: Seq<char>, n: nat)
    requires
        s.len() > 0,
    ensures
        0 < cut(s, n) <= after_words(s, n as int) <= s.len(),
        clean_cut(s.take(cut(s, n)), s.skip(cut(s, n))),
{
    let hint = after_words(s, n as int) as int;
    lemma_after_words(s, n as int);
    lemma_fit_back(s.take(hint), SEARCH_BYTES as int);
    lemma_last_sentence_end(s, window_start(s, hint), hint);
    lemma_last_white(s.take(hint));
    let c = cut(s, n);
    if c < s.len() {
        assert(s.skip(c)[0] == s[c]);
        assert(s.take(c).last() == s[c - 1]);
    }
}

pub proof fn lemma_pieces_shrink(s: Seq<char>, n: nat)
    requires
        s.len() > 0,
    ensures
        trim(s.skip(cut(s, n))).len() < s.len(),
{
    lemma_cut(s, n);
    lemma_trim(s.skip(cut(s, n)));
}

/// The position of the white space after the `n`th word of `cs`.
fn after_words_at(cs: &[char], n: usize) -> (r: usize)
    ensures
        r == after_words(cs@, n as int),
        r <= cs.len(),
{
    let mut i: usize = 0;
    let mut left: usize = n;
    let ghost mut skipped: int = 0;
    assert(cs@.skip(0) == cs@);
    while i < cs.len()
        invariant
            i <= cs.len(),
            n - skipped == left || (left == 0 && n - skipped <= 0),
            after_words(cs@, n as int) == i + after_words(cs@.skip(i as int), n - skipped),
        decreases cs.len() - i,
    {
        let ghost rest = cs@.skip(i as int);
        if is_whitespace(cs[i]) {
            assert(rest.skip(1) == cs@.skip(i + 1));
            i += 1;
        } else {
            let j = word_end_from(cs, i);
            proof {
                lemma_word_len(rest);
                assert(rest.skip(j - i) == cs@.skip(j as int));
            }
            if j == cs.len() || left == 1 {
                return j;
            }
            if left > 0 {
                left -= 1;
            }
            proof {
                skipped = skipped + 1;
            }
            i = j;
        }
    }
    i
}

/// The position just past the first sentence end of `cs` from `lo` up to `hi`.
fn sentence_end_in(cs: &[char], lo: usize, hi: usize) -> (r: Option<usize>)
    requires
        lo <= hi <= cs.len(),
    ensures
        r matches Some(i) ==> sentence_end(cs@, lo as int, hi as int) == Some(i as int) && lo < i
            <= hi,
        r is None ==> sentence_end(cs@, lo as int, hi as int) is None,
{
    let mut i: usize = lo;
    while i < hi
        invariant
            lo <= i <= hi <= cs.len(),
            sentence_end(cs@, lo as int, hi as int) == sentence_end(cs@, i as int, hi as int),
        decreases hi - i,
    {
        let c = cs[i];
        if (c == '.' || c == '!' || c == '?') && (i + 1 == cs.len() || is_whitespace(cs[i + 1])) {
            return Some(i + 1);
        }
        i += 1;
    }
    None
}

/// The position just past the last sentence end of `cs` from `lo` up to `hi`.
fn last_sentence_end_in(cs: &[char], lo: usize, hi: usize) -> (r: Option<usize>)
    requires
        lo <= hi <= cs.len(),
    ensures
        r matches Some(i) ==> last_sentence_end(cs@, lo as int, hi as int) == Some(i as int) && lo
            < i <= hi,
        r is None ==> last_sentence_end(cs@, lo as int, hi as int) is None,
{
    let mut i: usize = hi;
    while lo < i
        invariant
            lo <= i <= hi <= cs.len(),
            last_sentence_end(cs@, lo as int, hi as int) == last_sentence_end(
                cs@,
                lo as int,
                i as int,
            ),
        decreases i,
    {
        let c = cs[i - 1];
        if (c == '.' || c == '!' || c == '?') && (i == cs.len() || is_whitespace(cs[i])) {
            return Some(i);
        }
        i -= 1;
    }
    None
}

/// Position of the last white space among the first `n` characters of `cs`.
fn last_white_before(cs: &[char], n: usize) -> (r: Option<usize>)
    requires
        n <= cs.len(),
    ensures
        r matches Some(p) ==> last_white(cs@.take(n as int)) == Some(p as int) && p < n,
        r is None ==> last_white(cs@.take(n as int)) is None,
{
    let mut i: usize = n;
    while i > 0
        invariant
            i <= n <= cs.len(),
            last_white(cs@.take(n as int)) == last_white(cs@.take(i as int)),
        decreases i,
    {
        if is_whitespace(cs[i - 1]) {
            return Some(i - 1);
        }
        assert(cs@.take(i as int).drop_last() == cs@.take(i - 1));
        i -= 1;
    }
    None
}

/// The start of the search window that ends at `to`.
fn search_window(cs: &[char], to: usize) -> (r: usize)
    requires
        to <= cs.len(),
    ensures
        r == window_start(cs@, to as int),
        r <= to,
{
    let mut i: usize = to;
    let mut left: usize = SEARCH_BYTES;
    while i > 0 && utf8_width(cs[i - 1]) <= left
        invariant
            i <= to <= cs.len(),
            window_start(cs@, to as int) == i - fit_back(cs@.take(i as int), left as int),
        decreases i,
    {
        assert(cs@.take(i as int).drop_last() == cs@.take(i - 1));
        left -= utf8_width(cs[i - 1]);
        i -= 1;
    }
    i
}

/// The pieces of `text` of at most `max_words` words.
fn split_pieces(text: &[char], max_words: usize) -> (r: Vec<Vec<char>>)
    ensures
        rows(r@) == pieces(text@, max_words as nat),
{
    let mut out: Vec<Vec<char>> = Vec::new();
    let mut rest: Vec<char> = part(text, 0, text.len());
    let ghost n = max_words as nat;
    assert(rest@ == text@);
    assert(rows(out@) + pieces(rest@, n) == pieces(text@, n));
    while count_words(rest.as_slice()) > max_words
        invariant
            n == max_words,
            rows(out@) + pieces(rest@, n) == pieces(text@, n),
        decreases rest@.len(),
    {
        let ghost before = out@;
        let ghost s = rest@;
        proof {
            lemma_words_nonempty(s);
            lemma_cut(s, n);
            lemma_pieces_shrink(s, n);
        }
        let hint = after_words_at(rest.as_slice(), max_words);
        let from = search_window(rest.as_slice(), hint);
        let at: usize = match last_sentence_end_in(rest.as_slice(), from, hint) {
            Some(i) => i,
            None => match last_white_before(rest.as_slice(), hint) {
                Some(p) => p + 1,
                None => hint,
            },
        };
        assert(at == cut(s, n));
        let head = part(rest.as_slice(), 0, at);
        let tail = part(rest.as_slice(), at, rest.len());
        assert(head@ == s.take(at as int));
        assert(tail@ == s.skip(at as int));
        out.push(trimmed(head.as_slice()));
        rest = trimmed(tail.as_slice());
        assert(rows(out@) == rows(before).push(trim(head@)));
        assert(rows(out@) + pieces(rest@, n) == rows(before) + (seq![trim(head@)] + pieces(
            rest@,
            n,
        )));
    }
    let ghost before = out@;
    let last = trimmed(rest.as_slice());
    if last.len() > 0 {
        out.push(last);
        assert(rows(out@) == rows(before) + seq![trim(rest@)]);
    } else {
        assert(rows(before) + Seq::<Seq<char>>::empty() == rows(before));
    }
    out
}

/// Sub-splits a text block at sentence punctuation until every piece is at or below `max_words`.
/// Falls back to a word boundary if no sentence end is found within the search window before the
/// target split point.
pub fn sub_split_by_words(text: &str, max_words: usize) -> (r: Vec<String>)
    ensures
        texts(r@) == pieces(text@, max_words as nat),
        max_words >= 1 ==> forall|i: int|
            0 <= i < r@.len() ==> words(#[trigger] r@[i]@).len() <= max_words,
{
    let cs = chars_of(text);
    let list = split_pieces(cs.as_slice(), max_words);
    let out = strings_of(list.as_slice());
    proof {
        if max_words >= 1 {
            law_pieces_bound_words(text@, max_words as nat);
            assert forall|i: int| 0 <= i < out@.len() implies words(#[trigger] out@[i]@).len()
                <= max_words by {
                assert(texts(out@)[i] == out@[i]@);
            }
        }
    }
    out
}

/// Number of characters of `s` that are not white space.
pub open spec fn solid(s: Seq<char>) -> nat
    decreases s.len(),
{
    if s.len() == 0 {
        0
    } else {
        solid(s.drop_last()) + if is_white(s.last()) {
            0nat
        } else {
            1nat
        }
    }
}

/// The blocks of `raw` that blank lines separate, trimmed. A carriage return before a newline
/// does not count.
pub open spec fn blocks(raw: Seq<char>) -> Seq<Seq<char>> {
    split(replaced(raw, seq!['\r', '\n'], seq!['\n']), seq!['\n', '\n']).map_values(
        |p: Seq<char>| trim(p),
    )
}

/// The blocks of `raw` with at least `min_chars` characters that are not white space.
pub open spec fn paragraphs(raw: Seq<char>, min_chars: nat) -> Seq<Seq<char>> {
    blocks(raw).filter(|p: Seq<char>| solid(p) >= min_chars)
}

/// The texts that are voiced for the paragraph `p`: the whole of it if `max_words` is 0.
pub open spec fn parts(p: Seq<char>, max_words: nat) -> Seq<Seq<char>> {
    if max_words == 0 {
        seq![p]
    } else {
        pieces(p, max_words)
    }
}

/// `texts` with the boundary that follows each: `end` after the last one, a sentence boundary
/// after the others.
pub open spec fn tagged(texts: Seq<Seq<char>>, end: Option<Boundary>) -> Seq<
    (Seq<char>, Option<Boundary>),
> {
    Seq::new(
        texts.len(),
        |i: int|
            (
                texts[i],
                if i + 1 == texts.len() {
                    end
                } else {
                    Some(Boundary::Sentence)
                },
            ),
    )
}

/// The boundary that follows paragraph `i` of `paras`: none after the last one.
pub open spec fn paragraph_end(paras: Seq<Seq<char>>, i: int) -> Option<Boundary> {
    if i + 1 < paras.len() {
        Some(Boundary::Paragraph)
    } else {
        None
    }
}

/// The chunks of the first `count` of the paragraphs `paras`.
pub open spec fn chunks_of(paras: Seq<Seq<char>>, max_words: nat, count: nat) -> Seq<
    (Seq<char>, Option<Boundary>),
>
    decreases count,
{
    if count == 0 {
        Seq::empty()
    } else {
        chunks_of(paras, max_words, (count - 1) as nat) + tagged(
            parts(paras[count - 1], max_words),
            paragraph_end(paras, count - 1),
        )
    }
}

/// `chunks` with no boundary after the last one.
pub open spec fn ended(chunks: Seq<(Seq<char>, Option<Boundary>)>) -> Seq<
    (Seq<char>, Option<Boundary>),
> {
    if chunks.len() == 0 {
        chunks
    } else {
        chunks.drop_last().push((chunks.last().0, None))
    }
}

/// The chunks of `raw`. No boundary follows the last one, even where the paragraphs after it have
/// nothing to voice.
pub open spec fn harvested(raw: Seq<char>, min_chars: nat, max_words: nat) -> Seq<
    (Seq<char>, Option<Boundary>),
> {
    let paras = paragraphs(raw, min_chars);
    ended(chunks_of(paras, max_words, paras.len()))
}

/// Number of characters of `cs` that are not white space.
fn count_solid(cs: &[char]) -> (r: usize)
    ensures
        r == solid(cs@),
{
    let mut n: usize = 0;
    let mut i: usize = 0;
    while i < cs.len()
        invariant
            n <= i <= cs.len(),
            n == solid(cs@.take(i as int)),
        decreases cs.len() - i,
    {
        assert(cs@.take(i + 1).drop_last() == cs@.take(i as int));
        if !is_whitespace(cs[i]) {
            n += 1;
        }
        i += 1;
    }
    assert(cs@.take(cs@.len() as int) == cs@);
    n
}

/// The paragraphs of `raw`.
pub fn paragraph_rows(raw: &str, min_chars: usize) -> (r: Vec<Vec<char>>)
    ensures
        rows(r@) == paragraphs(raw@, min_chars as nat),
{
    let crlf: [char; 2] = ['\r', '\n'];
    let newline: [char; 1] = ['\n'];
    let gap: [char; 2] = ['\n', '\n'];
    assert(crlf@ == seq!['\r', '\n']);
    assert(newline@ == seq!['\n']);
    assert(gap@ == seq!['\n', '\n']);
    let raw_chars = chars_of(raw);
    let normal = replace_all(raw_chars.as_slice(), crlf.as_slice(), newline.as_slice());
    let parts = split_on(normal.as_slice(), gap.as_slice());
    let mut out: Vec<Vec<char>> = Vec::new();
    let ghost all = blocks(raw@);
    let ghost big = |p: Seq<char>| solid(p) >= min_chars;
    let mut i: usize = 0;
    proof {
        reveal(Seq::filter);
        assert(all.take(0).filter(big) == Seq::<Seq<char>>::empty());
    }
    while i < parts.len()
        invariant
            i <= parts.len(),
            all == rows(parts@).map_values(|p: Seq<char>| trim(p)),
            all.len() == parts.len(),
            big == (|p: Seq<char>| solid(p) >= min_chars),
            rows(out@) == all.take(i as int).filter(big),
        decreases parts.len() - i,
    {
        let ghost before = out@;
        let p = trimmed(parts[i].as_slice());
        assert(p@ == all[i as int]);
        proof {
            reveal(Seq::filter);
            assert(all.take(i + 1).drop_last() == all.take(i as int));
        }
        if count_solid(p.as_slice()) >= min_chars {
            out.push(p);
            assert(rows(out@) == rows(before).push(all[i as int]));
        }
        i += 1;
    }
    assert(all.take(all.len() as int) == all);
    out
}

/// Splits raw text into tagged synthesis chunks.
///
/// Blank lines separate paragraphs, and those with fewer than `min_chars` characters that are
/// not white space are left out. Each paragraph is followed by a paragraph boundary, the last one
/// by none: no boundary ever follows the last chunk. A paragraph over `max_words` words is split
/// further, with sentence boundaries between its pieces; its last piece is followed by what
/// follows the paragraph.
pub fn harvest_chunks(raw: &str, min_chars: usize, max_words: usize) -> (r: Vec<Chunk>)
    ensures
        chunk_views(r@) == harvested(raw@, min_chars as nat, max_words as nat),
{
    let list = paragraph_rows(raw, min_chars);
    let ghost paras = paragraphs(raw@, min_chars as nat);
    let ghost n = max_words as nat;
    let mut out: Vec<Chunk> = Vec::new();
    let mut i: usize = 0;
    assert(chunk_views(out@) == chunks_of(paras, n, 0));
    while i < list.len()
        invariant
            i <= list.len(),
            n == max_words,
            rows(list@) == paras,
            paras == paragraphs(raw@, min_chars as nat),
            chunk_views(out@) == chunks_of(paras, n, i as nat),
        decreases list.len() - i,
    {
        let end: Option<Boundary> = if i + 1 < list.len() {
            Some(Boundary::Paragraph)
        } else {
            None
        };
        assert(list@[i as int]@ == paras[i as int]);
        let ghost p = paras[i as int];
        let ghost before = out@;
        let split: Vec<Vec<char>> = if max_words == 0 {
            let mut one: Vec<Vec<char>> = Vec::new();
            one.push(part(list[i].as_slice(), 0, list[i].len()));
            assert(one@[0]@ == p);
            assert(rows(one@) == seq![p]);
            one
        } else {
            split_pieces(list[i].as_slice(), max_words)
        };
        let ghost sub = parts(p, n);
        assert(rows(split@) == sub);
        let mut j: usize = 0;
        assert(chunk_views(out@) == chunk_views(before) + tagged(sub, end).take(0));
        while j < split.len()
            invariant
                j <= split.len(),
                rows(split@) == sub,
                chunk_views(out@) == chunk_views(before) + tagged(sub, end).take(j as int),
            decreases split.len() - j,
        {
            let ghost so_far = out@;
            let trailing: Option<Boundary> = if j + 1 == split.len() {
                end
            } else {
                Some(Boundary::Sentence)
            };
            let chunk = Chunk {
                text: string_of(split[j].as_slice()),
                trailing_boundary: trailing,
            };
            assert(split@[j as int]@ == sub[j as int]);
            assert(chunk@ == tagged(sub, end)[j as int]);
            out.push(chunk);
            assert(chunk_views(out@) == chunk_views(so_far).push(tagged(sub, end)[j as int]));
            assert(tagged(sub, end).take(j + 1) == tagged(sub, end).take(j as int).push(
                tagged(sub, end)[j as int],
            ));
            j += 1;
        }
        assert(tagged(sub, end).take(sub.len() as int) == tagged(sub, end));
        i += 1;
    }
    let ghost all = out@;
    match out.pop() {
        Some(last) => {
            assert(chunk_views(all).drop_last() == chunk_views(out@));
            let ghost front = out@;
            out.push(Chunk { text: last.text, trailing_boundary: None });
            assert(chunk_views(out@) == chunk_views(front).push((last.text@, None)));
        },
        None => {
            assert(chunk_views(all).len() == 0);
        },
    }
    out
}

/// Number of bytes of `s`.
pub fn byte_count(s: &str) -> (r: usize)
    ensures
        r == byte_len(s@),
{
    proof {
        lemma_encoded_len(s@);
    }
    s.as_bytes().len()
}

proof fn lemma_byte_len_front(s: Seq<char>)
    requires
        s.len() > 0,
    ensures
        byte_len(s) == width(s[0]) + byte_len(s.skip(1)),
    decreases s.len(),
{
    if s.len() == 1 {
        assert(s.drop_last() == Seq::<char>::empty());
        assert(s.skip(1) == Seq::<char>::empty());
    } else {
        lemma_byte_len_front(s.drop_last());
        assert(s.drop_last().skip(1) == s.skip(1).drop_last());
    }
}

/// The bytes of a text are those of its UTF-8 encoding.
pub proof fn lemma_encoded_len(s: Seq<char>)
    ensures
        vstd::utf8::encode_utf8(s).len() == byte_len(s),
    decreases s.len(),
{
    if s.len() > 0 {
        vstd::utf8::char_is_scalar(s[0]);
        lemma_byte_len_front(s);
        assert(s.drop_first() == s.skip(1));
        lemma_encoded_len(s.skip(1));
    }
}

pub proof fn lemma_byte_len_take(s: Seq<char>, i: int, j: int)
    requires
        0 <= i <= j <= s.len(),
    ensures
        byte_len(s.take(i)) <= byte_len(s.take(j)) <= byte_len(s),
        byte_len(s.take(j)) - byte_len(s.take(i)) >= j - i,
    decreases s.len() - i,
{
    if i < j {
        assert(s.take(i + 1).drop_last() == s.take(i));
        lemma_byte_len_take(s, i + 1, j);
    } else if j < s.len() {
        assert(s.take(j + 1).drop_last() == s.take(j));
        lemma_byte_len_take(s, j + 1, j + 1);
    } else {
        assert(s.take(j) == s);
    }
}

/// Number of bytes of the first `n` characters of `cs`.
fn bytes_before(cs: &[char], n: usize) -> (r: usize)
    requires
        n <= cs.len(),
        byte_len(cs@) <= usize::MAX,
    ensures
        r == byte_len(cs@.take(n as int)),
{
    let mut total: usize = 0;
    let mut i: usize = 0;
    while i < n
        invariant
            i <= n <= cs.len(),
            byte_len(cs@) <= usize::MAX,
            total == byte_len(cs@.take(i as int)),
        decreases n - i,
    {
        proof {
            assert(cs@.take(i + 1).drop_last() == cs@.take(i as int));
            lemma_byte_len_take(cs@, i + 1, i + 1);
        }
        total += utf8_width(cs[i]);
        i += 1;
    }
    total
}

/// How many of the first characters of `cs` lie within its first `limit` bytes.
fn chars_within(cs: &[char], limit: usize) -> (r: usize)
    ensures
        r == fit(cs@, limit as int),
        r <= cs.len(),
{
    let mut i: usize = 0;
    let mut left: usize = limit;
    assert(cs@.skip(0) == cs@);
    while i < cs.len() && utf8_width(cs[i]) <= left
        invariant
            i <= cs.len(),
            fit(cs@, limit as int) == i + fit(cs@.skip(i as int), left as int),
        decreases cs.len() - i,
    {
        assert(cs@.skip(i as int).skip(1) == cs@.skip(i + 1));
        left -= utf8_width(cs[i]);
        i += 1;
    }
    i
}

/// The byte offset immediately after the `n`th word, which white space delimits; the length of
/// the text if no white space follows such a word.
pub fn byte_offset_after_nth_word(text: &str, n: usize) -> (r: usize)
    ensures
        r == byte_len(text@.take(after_words(text@, n as int) as int)),
{
    let _bytes: usize = byte_count(text);
    let cs = chars_of(text);
    let at = after_words_at(cs.as_slice(), n);
    bytes_before(cs.as_slice(), at)
}

/// Scans forward from `start` to `end` for a sentence-terminal character followed by white space
/// or the end of the text, and returns the byte offset just past it.
pub fn find_sentence_boundary(text: &str, start: usize, end: usize) -> (r: Option<usize>)
    requires
        start <= end,
        is_offset(text@, start as int),
        is_offset(text@, end as int),
    ensures
        match sentence_end(
            text@,
            fit(text@, start as int) as int,
            fit(text@, end as int) as int,
        ) {
            Some(i) => r == Some(byte_len(text@.take(i)) as usize) && byte_len(text@.take(i))
                <= usize::MAX,
            None => r is None,
        },
{
    let _bytes: usize = byte_count(text);
    let cs = chars_of(text);
    let lo = chars_within(cs.as_slice(), start);
    let hi = chars_within(cs.as_slice(), end);
    proof {
        if hi < lo {
            lemma_byte_len_take(text@, hi as int, lo as int);
        }
    }
    match sentence_end_in(cs.as_slice(), lo, hi) {
        Some(i) => {
            proof {
                lemma_byte_len_take(text@, i as int, i as int);
            }
            Some(bytes_before(cs.as_slice(), i))
        },
        None => None,
    }
}

/// The words of the pieces of a text are the words of the text, in order: splitting neither
/// loses, adds nor breaks a word.
pub proof fn law_pieces_keep_words(s: Seq<char>, n: nat)
    ensures
        all_words(pieces(s, n)) == words(s),
    decreases s.len(),
{
    if words(s).len() <= n {
        lemma_trim(s);
        if trim(s).len() == 0 {
            lemma_words_nonempty(s);
            assert(words(s) == Seq::<Seq<char>>::empty());
        } else {
            lemma_all_words_one(trim(s));
        }
    } else {
        let c = cut(s, n);
        let head = s.take(c);
        let tail = s.skip(c);
        lemma_cut(s, n);
        lemma_pieces_shrink(s, n);
        assert(s == head + tail);
        lemma_words_concat(head, tail);
        lemma_trim(head);
        lemma_trim(tail);
        law_pieces_keep_words(trim(tail), n);
        lemma_all_words_one(trim(head));
        lemma_all_words_concat(seq![trim(head)], pieces(trim(tail), n));
    }
}

/// Before the white space that follows the `n`th word there are at most `n` words.
proof fn lemma_words_before(s: Seq<char>, n: nat)
    requires
        n > 0,
    ensures
        words(s.take(after_words(s, n as int) as int)).len() <= n,
    decreases s.len(),
{
    let a = after_words(s, n as int) as int;
    lemma_after_words(s, n as int);
    if s.len() > 0 {
        if is_white(s[0]) {
            lemma_words_before(s.skip(1), n);
            lemma_after_words(s.skip(1), n as int);
            assert(s.take(a).skip(1) == s.skip(1).take(a - 1));
        } else {
            let k = word_len(s) as int;
            lemma_word_len(s);
            if k >= s.len() {
                assert(s.take(a) == s);
                assert(words(s.skip(k)).len() == 0);
            } else if n == 1 {
                let w = s.take(k);
                assert forall|j: int| 0 <= j < w.len() implies !is_white(#[trigger] w[j]) by {
                    assert(w[j] == s[j]);
                }
                lemma_words_of_word(w);
            } else {
                let rest = s.skip(k);
                lemma_words_before(rest, (n - 1) as nat);
                lemma_after_words(rest, n - 1);
                let b = a - k;
                assert(b > 0);
                let w = s.take(k);
                assert forall|j: int| 0 <= j < w.len() implies !is_white(#[trigger] w[j]) by {
                    assert(w[j] == s[j]);
                }
                lemma_words_of_word(w);
                assert(s.take(a) == w + rest.take(b));
                assert(rest.take(b)[0] == s[k]);
                lemma_words_concat(w, rest.take(b));
            }
        }
    }
}

/// A cut after `n` words leaves at most `n` words before it.
pub proof fn law_cut_bounds_words(s: Seq<char>, n: nat)
    requires
        n > 0,
        words(s).len() > n,
    ensures
        words(s.take(cut(s, n))).len() <= n,
{
    let hint = after_words(s, n as int) as int;
    let c = cut(s, n);
    lemma_words_before(s, n);
    lemma_words_nonempty(s);
    lemma_cut(s, n);
    let a = s.take(c);
    let b = s.subrange(c, hint);
    assert(s.take(hint) == a + b);
    if b.len() > 0 {
        assert(b[0] == s.skip(c)[0]);
    }
    lemma_words_concat(a, b);
}

/// Every piece is at or below `n` words.
pub proof fn law_pieces_bound_words(s: Seq<char>, n: nat)
    requires
        n > 0,
    ensures
        forall|i: int|
            0 <= i < pieces(s, n).len() ==> words(#[trigger] pieces(s, n)[i]).len() <= n,
    decreases s.len(),
{
    lemma_trim(s);
    if words(s).len() > n {
        let c = cut(s, n);
        let rest = trim(s.skip(c));
        lemma_cut(s, n);
        lemma_pieces_shrink(s, n);
        law_cut_bounds_words(s, n);
        lemma_trim(s.take(c));
        law_pieces_bound_words(rest, n);
        assert forall|i: int| 0 <= i < pieces(s, n).len() implies words(
            #[trigger] pieces(s, n)[i],
        ).len() <= n by {
            if i > 0 {
                assert(pieces(s, n)[i] == pieces(rest, n)[i - 1]);
            }
        }
    }
}

/// No chunk has more words than the limit that was asked for.
pub proof fn law_chunks_bound_words(raw: Seq<char>, min_chars: nat, max_words: nat)
    requires
        max_words > 0,
    ensures
        forall|i: int|
            0 <= i < harvested(raw, min_chars, max_words).len() ==> words(
                (#[trigger] harvested(raw, min_chars, max_words)[i]).0,
            ).len() <= max_words,
{
    let paras = paragraphs(raw, min_chars);
    let chunks = chunks_of(paras, max_words, paras.len());
    lemma_chunks_bound_words(paras, max_words, paras.len());
    assert forall|i: int| 0 <= i < chunks.len() implies words(
        (#[trigger] ended(chunks)[i]).0,
    ).len() <= max_words by {
        assert(ended(chunks)[i].0 == chunks[i].0);
    }
}

proof fn lemma_chunks_bound_words(paras: Seq<Seq<char>>, n: nat, count: nat)
    requires
        n > 0,
        count <= paras.len(),
    ensures
        forall|i: int|
            0 <= i < chunks_of(paras, n, count).len() ==> words(
                (#[trigger] chunks_of(paras, n, count)[i]).0,
            ).len() <= n,
    decreases count,
{
    if count > 0 {
        let before = chunks_of(paras, n, (count - 1) as nat);
        let sub = pieces(paras[count - 1], n);
        let more = tagged(sub, paragraph_end(paras, count - 1));
        lemma_chunks_bound_words(paras, n, (count - 1) as nat);
        law_pieces_bound_words(paras[count - 1], n);
        let chunks = before + more;
        assert forall|i: int| 0 <= i < chunks.len() implies words((#[trigger] chunks[i]).0).len()
            <= n by {
            if i < before.len() {
                assert(chunks[i] == before[i]);
            } else {
                assert(chunks[i].0 == sub[i - before.len()]);
            }
        }
    }
}

/// The texts of chunks.
pub open spec fn chunk_texts(chunks: Seq<(Seq<char>, Option<Boundary>)>) -> Seq<Seq<char>> {
    chunks.map_values(|c: (Seq<char>, Option<Boundary>)| c.0)
}

/// Harvesting keeps the words: those of the chunks are those of the paragraphs, in order.
pub proof fn law_harvest_keeps_words(raw: Seq<char>, min_chars: nat, max_words: nat)
    ensures
        all_words(chunk_texts(harvested(raw, min_chars, max_words))) == all_words(
            paragraphs(raw, min_chars),
        ),
{
    let paras = paragraphs(raw, min_chars);
    let chunks = chunks_of(paras, max_words, paras.len());
    lemma_chunks_keep_words(paras, max_words, paras.len());
    assert(paras.take(paras.len() as int) == paras);
    assert(chunk_texts(ended(chunks)) == chunk_texts(chunks));
}

proof fn lemma_chunks_keep_words(paras: Seq<Seq<char>>, n: nat, count: nat)
    requires
        count <= paras.len(),
    ensures
        all_words(chunk_texts(chunks_of(paras, n, count))) == all_words(paras.take(count as int)),
    decreases count,
{
    if count == 0 {
        assert(chunk_texts(chunks_of(paras, n, count)) == Seq::<Seq<char>>::empty());
        assert(paras.take(0) == Seq::<Seq<char>>::empty());
    } else {
        let p = paras[count - 1];
        let sub = parts(p, n);
        let before = chunks_of(paras, n, (count - 1) as nat);
        let more = tagged(sub, paragraph_end(paras, count - 1));
        lemma_chunks_keep_words(paras, n, (count - 1) as nat);
        assert(chunk_texts(more) == sub);
        assert(chunk_texts(before + more) == chunk_texts(before) + sub);
        lemma_all_words_concat(chunk_texts(before), sub);
        if n == 0 {
            lemma_all_words_one(p);
        } else {
            law_pieces_keep_words(p, n);
        }
        assert(paras.take(count as int).drop_last() == paras.take(count - 1));
    }
}

proof fn lemma_parts_nonempty(p: Seq<char>, n: nat)
    requires
        n == 0 || !is_blank(p),
    ensures
        parts(p, n).len() > 0,
{
    lemma_trim(p);
}

/// Silence follows every chunk but the last one, and none follows the last one.
pub proof fn law_only_last_chunk_ends(raw: Seq<char>, min_chars: nat, max_words: nat)
    ensures
        ({
            let chunks = harvested(raw, min_chars, max_words);
            &&& forall|i: int|
                0 <= i < chunks.len() - 1 ==> (#[trigger] chunks[i]).1 is Some
            &&& chunks.len() > 0 ==> chunks.last().1 is None
        }),
{
    let paras = paragraphs(raw, min_chars);
    let n = max_words;
    if paras.len() > 0 {
        let k = (paras.len() - 1) as nat;
        let before = chunks_of(paras, n, k);
        let sub = parts(paras.last(), n);
        let more = tagged(sub, paragraph_end(paras, k as int));
        lemma_earlier_chunks_go_on(paras, n, k);
        let chunks = before + more;
        assert(harvested(raw, min_chars, max_words) == ended(chunks));
        assert forall|i: int| 0 <= i < chunks.len() - 1 implies (#[trigger] ended(
            chunks,
        )[i]).1 is Some by {
            assert(ended(chunks)[i] == chunks[i]);
            if i < before.len() {
                assert(chunks[i] == before[i]);
            } else {
                assert(chunks[i] == more[i - before.len()]);
            }
        }
    }
}

proof fn lemma_earlier_chunks_go_on(paras: Seq<Seq<char>>, n: nat, count: nat)
    requires
        count < paras.len(),
    ensures
        forall|i: int|
            0 <= i < chunks_of(paras, n, count).len() ==> (#[trigger] chunks_of(
                paras,
                n,
                count,
            )[i]).1 is Some,
    decreases count,
{
    if count > 0 {
        let before = chunks_of(paras, n, (count - 1) as nat);
        let more = tagged(parts(paras[count - 1], n), paragraph_end(paras, count - 1));
        lemma_earlier_chunks_go_on(paras, n, (count - 1) as nat);
        let chunks = before + more;
        assert forall|i: int| 0 <= i < chunks.len() implies (#[trigger] chunks[i]).1 is Some by {
            if i < before.len() {
                assert(chunks[i] == before[i]);
            } else {
                assert(chunks[i] == more[i - before.len()]);
            }
        }
    }
}

/// The chunks of the first `count` paragraphs come before those of the others, and if a chunk
/// follows them, a paragraph boundary follows the last of them, however often paragraph
/// `count - 1` was split. A blank paragraph, which has no pieces, is left out.
pub proof fn law_paragraph_boundary_on_last_piece(
    raw: Seq<char>,
    min_chars: nat,
    max_words: nat,
    count: nat,
)
    requires
        0 < count < paragraphs(raw, min_chars).len(),
        max_words == 0 || !is_blank(paragraphs(raw, min_chars)[count - 1]),
    ensures
        ({
            let paras = paragraphs(raw, min_chars);
            let chunks = harvested(raw, min_chars, max_words);
            let first = chunks_of(paras, max_words, count);
            &&& 0 < first.len() <= chunks.len()
            &&& first.len() < chunks.len() ==> {
                &&& chunks.take(first.len() as int) == first
                &&& first.last().1 == Some(Boundary::Paragraph)
            }
        }),
{
    let paras = paragraphs(raw, min_chars);
    let all = chunks_of(paras, max_words, paras.len());
    let first = chunks_of(paras, max_words, count);
    lemma_chunks_extend(paras, max_words, count, paras.len());
    lemma_parts_nonempty(paras[count - 1], max_words);
    let before = chunks_of(paras, max_words, (count - 1) as nat);
    let more = tagged(parts(paras[count - 1], max_words), paragraph_end(paras, count - 1));
    assert((before + more).last() == more.last());
    if first.len() < all.len() {
        assert(ended(all).take(first.len() as int) == all.take(first.len() as int));
    }
}

/// The chunks of more paragraphs begin with those of fewer.
pub proof fn lemma_chunks_extend(paras: Seq<Seq<char>>, n: nat, a: nat, b: nat)
    requires
        a <= b <= paras.len(),
    ensures
        chunks_of(paras, n, a).len() <= chunks_of(paras, n, b).len(),
        chunks_of(paras, n, b).take(chunks_of(paras, n, a).len() as int) == chunks_of(paras, n, a),
    decreases b,
{
    let x = chunks_of(paras, n, a);
    if a < b {
        lemma_chunks_extend(paras, n, a, (b - 1) as nat);
        let y = chunks_of(paras, n, (b - 1) as nat);
        let more = tagged(parts(paras[b - 1], n), paragraph_end(paras, b - 1));
        assert((y + more).take(x.len() as int) == y.take(x.len() as int));
    } else {
        assert(x.take(x.len() as int) == x);
    }
}

proof fn lemma_solid(s: Seq<char>)
    ensures
        solid(s) > 0 ==> !is_blank(s),
    decreases s.len(),
{
    if s.len() > 0 && is_white(s.last()) {
        lemma_solid(s.drop_last());
        if is_blank(s) {
            let t = s.drop_last();
            assert forall|k: int| 0 <= k < t.len() implies is_white(#[trigger] t[k]) by {
                assert(t[k] == s[k]);
            }
        }
    }
}

/// A paragraph has at least the number of solid characters that was asked for, so with a minimum
/// of one or more none is blank.
pub proof fn law_paragraphs_are_solid(raw: Seq<char>, min_chars: nat)
    ensures
        forall|i: int|
            0 <= i < paragraphs(raw, min_chars).len() ==> {
                &&& solid(#[trigger] paragraphs(raw, min_chars)[i]) >= min_chars
                &&& min_chars > 0 ==> !is_blank(paragraphs(raw, min_chars)[i])
            },
{
    let big = |p: Seq<char>| solid(p) >= min_chars;
    let all = blocks(raw);
    broadcast use vstd::seq_lib::group_filter_ensures;

    assert forall|i: int| 0 <= i < paragraphs(raw, min_chars).len() implies {
        &&& solid(#[trigger] paragraphs(raw, min_chars)[i]) >= min_chars
        &&& min_chars > 0 ==> !is_blank(paragraphs(raw, min_chars)[i])
    } by {
        assert(big(all.filter(big)[i]));
        lemma_solid(all.filter(big)[i]);
    }
}

} // verus!
