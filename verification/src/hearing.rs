//! What a text sounds like, token by token, and how far two texts are apart.

use crate::chars::{alphabetic, is_digit, is_lower, is_upper, is_white, lower, small};
use crate::edits::{is_least, law_distance_is_least};
use crate::phonemes::{
    comparable, comparable_ascii, comparables, entry, normalized, plain, sounds, up_to,
    without_stress, word_sound, ErrorRate,
};
use crate::search::{law_found_first, lemma_find_in_front, lemma_find_is, lemma_find_none, stands};
use crate::text::{begins, find, join, words};
use crate::validation::{heard, is_rate};
use crate::words::{
    all_words, is_blank, is_word, lemma_all_words_of_words, lemma_words_are_words,
    lemma_words_concat, lemma_words_join, lemma_words_of_word,
};
use vstd::prelude::*;

verus! {

/// What is left of a text is what is left of its characters, one after the other.
pub proof fn law_compared_character_by_character(s: Seq<char>, left: spec_fn(char) -> Seq<char>)
    ensures
        comparables(s, left) == s.map_values(left).flatten(),
    decreases s.len(),
{
    let all = s.map_values(left);
    all.lemma_flatten_and_flatten_alt_are_equivalent();
    if s.len() > 0 {
        law_compared_character_by_character(s.drop_last(), left);
        let front = s.drop_last().map_values(left);
        assert(all.drop_last() == front);
        front.lemma_flatten_and_flatten_alt_are_equivalent();
    }
}

/// Letters and white space are compared, in their lower case, and nothing else is. Typographic
/// quotes count as plain ones, which are not compared, and dashes as spaces.
pub proof fn law_what_is_compared(c: char)
    ensures
        c == '\u{2018}' || c == '\u{2019}' ==> plain(c) == '\'',
        c == '\u{201C}' || c == '\u{201D}' ==> plain(c) == '"',
        c == '\u{2013}' || c == '\u{2014}' ==> plain(c) == ' ',
        !seq!['\u{2018}', '\u{2019}', '\u{201C}', '\u{201D}', '\u{2013}', '\u{2014}'].contains(c)
            ==> plain(c) == c,
        alphabetic(plain(c)) || is_white(plain(c)) ==> comparable(c) == small(plain(c)),
        !alphabetic(plain(c)) && !is_white(plain(c)) ==> comparable(c).len() == 0,
        is_lower(plain(c)) || is_white(plain(c)) ==> comparable_ascii(c) == seq![plain(c)],
        is_upper(plain(c)) ==> comparable_ascii(c) == seq![lower(plain(c))],
        !is_lower(plain(c)) && !is_upper(plain(c)) && !is_white(plain(c)) ==> comparable_ascii(
            c,
        ).len() == 0,
{
    let list = seq!['\u{2018}', '\u{2019}', '\u{201C}', '\u{201D}', '\u{2013}', '\u{2014}'];
    assert(list[0] == '\u{2018}' && list[1] == '\u{2019}' && list[2] == '\u{201C}' && list[3]
        == '\u{201D}' && list[4] == '\u{2013}' && list[5] == '\u{2014}');
}

/// The tokens of a word: its phonemes, or else its letters made capital, and the mark of its end.
pub open spec fn tokens(
    dict: Map<Seq<char>, Seq<Seq<char>>>,
    word: Seq<char>,
    cap: spec_fn(char) -> Seq<char>,
) -> Seq<Seq<char>> {
    (if dict.contains_key(word) {
        dict[word]
    } else {
        word.map_values(cap)
    }).push(seq!['|'])
}

/// True if the tokens of a word are words, so that white space keeps them apart.
pub open spec fn has_tokens(
    dict: Map<Seq<char>, Seq<Seq<char>>>,
    word: Seq<char>,
    cap: spec_fn(char) -> Seq<char>,
) -> bool {
    forall|i: int|
        0 <= i < tokens(dict, word, cap).len() ==> is_word(#[trigger] tokens(dict, word, cap)[i])
}

proof fn lemma_word_tokens(
    dict: Map<Seq<char>, Seq<Seq<char>>>,
    word: Seq<char>,
    cap: spec_fn(char) -> Seq<char>,
)
    requires
        has_tokens(dict, word, cap),
    ensures
        words(word_sound(dict, word, cap)) == tokens(dict, word, cap),
{
    let all = tokens(dict, word, cap);
    let own = all.drop_last();
    let mark = seq!['|'];
    let end = seq![' ', '|'];
    assert(is_blank(seq![' ']));
    assert forall|i: int| 0 <= i < own.len() implies is_word(#[trigger] own[i]) by {
        assert(own[i] == all[i]);
    }
    lemma_words_join(own, seq![' ']);
    lemma_all_words_of_words(own);
    let text = join(own, seq![' ']);
    assert(own == if dict.contains_key(word) {
        dict[word]
    } else {
        word.map_values(cap)
    });
    assert(word_sound(dict, word, cap) == text + end);
    lemma_words_concat(text, end);
    assert(end.skip(1) == mark);
    assert(is_word(mark));
    lemma_words_of_word(mark);
    assert(words(end) == words(end.skip(1)));
    assert(own + seq![mark] == all);
}

/// A text sounds like its words, one after the other: each gives its phonemes, or its letters if
/// the dictionary does not know it, and a mark; no token is lost, and none is added.
pub proof fn law_sounds_word_by_word(
    dict: Map<Seq<char>, Seq<Seq<char>>>,
    list: Seq<Seq<char>>,
    cap: spec_fn(char) -> Seq<char>,
)
    requires
        forall|k: int| 0 <= k < list.len() ==> has_tokens(dict, #[trigger] list[k], cap),
    ensures
        words(sounds(dict, list, cap)) == list.map_values(
            |w: Seq<char>| tokens(dict, w, cap),
        ).flatten(),
{
    let said = list.map_values(|w: Seq<char>| word_sound(dict, w, cap));
    assert(is_blank(seq![' ']));
    lemma_words_join(said, seq![' ']);
    lemma_said(dict, list, cap);
}

proof fn lemma_said(
    dict: Map<Seq<char>, Seq<Seq<char>>>,
    list: Seq<Seq<char>>,
    cap: spec_fn(char) -> Seq<char>,
)
    requires
        forall|k: int| 0 <= k < list.len() ==> has_tokens(dict, #[trigger] list[k], cap),
    ensures
        all_words(list.map_values(|w: Seq<char>| word_sound(dict, w, cap))) == list.map_values(
            |w: Seq<char>| tokens(dict, w, cap),
        ).flatten(),
    decreases list.len(),
{
    let sound_of = |w: Seq<char>| word_sound(dict, w, cap);
    let tokens_of = |w: Seq<char>| tokens(dict, w, cap);
    let said = list.map_values(sound_of);
    let all = list.map_values(tokens_of);
    all.lemma_flatten_and_flatten_alt_are_equivalent();
    if list.len() > 0 {
        let front = list.drop_last();
        assert forall|k: int| 0 <= k < front.len() implies has_tokens(
            dict,
            #[trigger] front[k],
            cap,
        ) by {
            assert(front[k] == list[k]);
        }
        lemma_said(dict, front, cap);
        assert(has_tokens(dict, list[list.len() - 1], cap));
        lemma_word_tokens(dict, list.last(), cap);
        assert(said.drop_last() == front.map_values(sound_of));
        assert(all.drop_last() == front.map_values(tokens_of));
        front.map_values(tokens_of).lemma_flatten_and_flatten_alt_are_equivalent();
    }
}

/// What is heard of a text are the tokens of its words, once it is made comparable.
pub proof fn law_heard_word_by_word(
    dict: Map<Seq<char>, Seq<Seq<char>>>,
    s: Seq<char>,
    left: spec_fn(char) -> Seq<char>,
    cap: spec_fn(char) -> Seq<char>,
)
    requires
        forall|k: int|
            0 <= k < words(comparables(s, left)).len() ==> has_tokens(
                dict,
                #[trigger] words(comparables(s, left))[k],
                cap,
            ),
    ensures
        words(heard(dict, s, left, cap)) == words(comparables(s, left)).map_values(
            |w: Seq<char>| tokens(dict, w, cap),
        ).flatten(),
{
    let ws = words(comparables(s, left));
    lemma_words_are_words(comparables(s, left));
    assert(is_blank(seq![' ']));
    lemma_words_join(ws, seq![' ']);
    lemma_all_words_of_words(ws);
    assert(words(normalized(s, left)) == ws);
    law_sounds_word_by_word(dict, ws, cap);
}

/// An error rate counts the least number of tokens to put in, take out or replace, against the
/// tokens of the longer side, of which there is at least one.
pub proof fn law_rate_counts_edits(rate: ErrorRate, original: Seq<char>, transcription: Seq<char>)
    requires
        is_rate(rate, original, transcription),
    ensures
        is_least(words(original), words(transcription), rate.errors as int),
        rate.tokens >= words(original).len(),
        rate.tokens >= words(transcription).len(),
        rate.tokens == 1 || rate.tokens == words(original).len() || rate.tokens == words(
            transcription,
        ).len(),
        rate.tokens >= 1,
{
    law_distance_is_least(words(original), words(transcription));
}

proof fn lemma_first_gap(word: Seq<char>, rest: Seq<char>)
    requires
        forall|j: int| 0 <= j < word.len() ==> #[trigger] word[j] != ' ',
    ensures
        find(word + seq![' ', ' '] + rest, seq![' ', ' ']) == Some(word.len() as int),
{
    let pat = seq![' ', ' '];
    let t = word + pat;
    let n = word.len() as int;
    assert(t.subrange(n, n + 2) == pat);
    assert(stands(t, pat, n));
    assert forall|j: int| j < n implies !#[trigger] stands(t, pat, j) by {
        if stands(t, pat, j) {
            assert(t.subrange(j, j + 2)[0] == word[j]);
        }
    }
    lemma_find_is(t, pat, n);
    lemma_find_in_front(word, pat, rest);
}

/// A line of the dictionary is a word, two spaces and its phonemes. The number of a variant, which
/// stands in brackets behind the word, is not part of the word.
pub proof fn law_dictionary_lines(word: Seq<char>, variant: Seq<char>, phones: Seq<char>)
    requires
        word.len() > 0,
        word[0] != ';',
        forall|j: int| 0 <= j < word.len() ==> #[trigger] word[j] != ' ' && word[j] != '(',
        forall|j: int| 0 <= j < variant.len() ==> #[trigger] variant[j] != ' ',
        variant.len() > 0 ==> variant[0] == '(',
    ensures
        entry(word + variant + seq![' ', ' '] + phones) == Some(
            (word, words(phones).map_values(|p: Seq<char>| without_stress(p))),
        ),
{
    let name = word + variant;
    let line = name + seq![' ', ' '] + phones;
    assert(forall|j: int|
        0 <= j < name.len() ==> #[trigger] name[j] == if j < word.len() {
            word[j]
        } else {
            variant[j - word.len()]
        });
    lemma_first_gap(name, phones);
    let comment = seq![';', ';', ';'];
    if begins(line, comment) {
        assert(line.take(3)[0] == line[0]);
        assert(line[0] == word[0]);
    }
    let n = name.len() as int;
    assert(line.take(n) == name);
    assert(line.skip(n + 2) == phones);
    let paren = seq!['('];
    law_found_first(name, paren);
    assert forall|j: int| j < word.len() implies !#[trigger] stands(name, paren, j) by {
        if stands(name, paren, j) {
            assert(name.subrange(j, j + 1)[0] == word[j]);
        }
    }
    let w = word.len() as int;
    if variant.len() > 0 {
        assert(name[w] == '(');
        assert(name.subrange(w, w + 1) == paren);
        assert(stands(name, paren, w));
        lemma_find_is(name, paren, w);
        assert(name.take(w) == word);
    } else {
        assert(name == word);
        assert forall|j: int| !#[trigger] stands(name, paren, j) by {
            if stands(name, paren, j) {
                assert(j + 1 <= name.len());
            }
        }
        lemma_find_none(name, paren);
    }
    assert(up_to(name, '(') == word);
}

/// Comments, empty lines and lines without two spaces in a row have no entry.
pub proof fn law_lines_without_entry(line: Seq<char>)
    ensures
        line.len() == 0 ==> entry(line) is None,
        line.len() >= 3 && line[0] == ';' && line[1] == ';' && line[2] == ';' ==> entry(
            line,
        ) is None,
        (forall|j: int|
            0 <= j < line.len() - 1 ==> !(#[trigger] line[j] == ' ' && line[j + 1] == ' '))
            ==> entry(line) is None,
{
    if line.len() >= 3 && line[0] == ';' && line[1] == ';' && line[2] == ';' {
        assert(line.take(3) == seq![';', ';', ';']);
    }
    if forall|j: int|
        0 <= j < line.len() - 1 ==> !(#[trigger] line[j] == ' ' && line[j + 1] == ' ') {
        let pat = seq![' ', ' '];
        assert forall|j: int| !#[trigger] stands(line, pat, j) by {
            if stands(line, pat, j) {
                assert(line.subrange(j, j + 2)[0] == line[j]);
                assert(line.subrange(j, j + 2)[1] == line[j + 1]);
            }
        }
        lemma_find_none(line, pat);
    }
}

/// A phoneme loses the digits at its end, and nothing else.
pub proof fn law_stress_is_stripped(phone: Seq<char>, digits: Seq<char>)
    requires
        phone.len() == 0 || !is_digit(phone.last()),
        forall|j: int| 0 <= j < digits.len() ==> '0' <= #[trigger] digits[j] <= '9',
    ensures
        without_stress(phone + digits) == phone,
    decreases digits.len(),
{
    let all = phone + digits;
    if digits.len() == 0 {
        assert(all == phone);
    } else {
        let front = digits.drop_last();
        assert(all.last() == digits[digits.len() - 1]);
        assert(all.drop_last() == phone + front);
        assert forall|j: int| 0 <= j < front.len() implies '0' <= #[trigger] front[j] <= '9' by {
            assert(front[j] == digits[j]);
        }
        law_stress_is_stripped(phone, front);
    }
}

} // verus!
