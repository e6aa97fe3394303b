//! Checking what was spoken against what was written: the error rate of a transcription, the one
//! retry, and the record of a chunk that failed.

use crate::chars::is_ascii;
use crate::numbers::{decimal, put_number};
use crate::phonemes::{
    ascii_capitals, capitals, comparable, comparable_ascii, comparables, distance,
    law_distance_zero_iff_same, max, normalize_for_comparison, normalized, phoneme_error_rate,
    plain, plain_ascii, sounds, words_to_phonemes, ErrorRate, PhoneDict,
};
use crate::speech::{head, preview, sanitize_chunk, sanitized};
use crate::text::{
    all_ascii, chars_of, each_ascii, join, put, slices_of, split_words, string_of, strings_of,
    words,
};
use crate::words::{
    is_blank, lemma_all_words_of_words, lemma_words_are_words, lemma_words_from, lemma_words_join,
};
use vstd::prelude::*;

verus! {

/// How the text `s` sounds, once `left` has left of it what is compared and `cap` spells the words
/// that the dictionary does not know.
pub open spec fn heard(
    dict: Map<Seq<char>, Seq<Seq<char>>>,
    s: Seq<char>,
    left: spec_fn(char) -> Seq<char>,
    cap: spec_fn(char) -> Seq<char>,
) -> Seq<char> {
    sounds(dict, words(normalized(s, left)), cap)
}

/// What is compared of a character.
pub open spec fn compared() -> spec_fn(char) -> Seq<char> {
    |c: char| comparable(c)
}

/// What is compared of an ASCII character.
pub open spec fn ascii_compared() -> spec_fn(char) -> Seq<char> {
    |c: char| comparable_ascii(c)
}

/// True if `rate` is the error rate of two strings of phoneme tokens.
pub open spec fn is_rate(rate: ErrorRate, original: Seq<char>, transcription: Seq<char>) -> bool {
    &&& rate.errors == distance(words(original), words(transcription))
    &&& rate.tokens == max(max(words(original).len(), words(transcription).len()), 1)
}

proof fn lemma_comparables_ascii(s: Seq<char>)
    requires
        plain_ascii(s),
    ensures
        all_ascii(comparables(s, ascii_compared())),
    decreases s.len(),
{
    if s.len() > 0 {
        let head = s.drop_last();
        assert forall|i: int| 0 <= i < head.len() implies is_ascii(plain(#[trigger] head[i])) by {
            assert(head[i] == s[i]);
        }
        lemma_comparables_ascii(head);
        assert(is_ascii(plain(s[s.len() - 1])));
    }
}

proof fn lemma_normalized_words_ascii(s: Seq<char>)
    requires
        plain_ascii(s),
    ensures
        each_ascii(words(normalized(s, ascii_compared()))),
{
    let left = comparables(s, ascii_compared());
    lemma_comparables_ascii(s);
    lemma_words_from(left, |c: char| is_ascii(c));
    lemma_words_are_words(left);
    assert(is_blank(seq![' ']));
    lemma_words_join(words(left), seq![' ']);
    lemma_all_words_of_words(words(left));
    let list = words(left);
    assert(words(normalized(s, ascii_compared())) == list);
    assert forall|k: int| 0 <= k < list.len() implies all_ascii(#[trigger] list[k]) by {
        assert forall|i: int| 0 <= i < list[k].len() implies is_ascii(#[trigger] list[k][i]) by {}
    }
}

/// How `text` sounds.
fn sound(dict: &PhoneDict, text: &str) -> (r: String)
    ensures
        r@ == heard(dict@, text@, compared(), capitals()),
        plain_ascii(text@) ==> r@ == heard(dict@, text@, ascii_compared(), ascii_capitals()),
{
    let norm = normalize_for_comparison(text);
    let cs = chars_of(norm.as_str());
    let rows = split_words(cs.as_slice());
    let list = strings_of(rows.as_slice());
    let names = slices_of(list.as_slice());
    proof {
        if plain_ascii(text@) {
            lemma_normalized_words_ascii(text@);
        }
    }
    words_to_phonemes(dict, names.as_slice())
}

/// The phoneme error rate of what was heard, `transcription`, against what was to be said.
pub fn transcription_error(dict: &PhoneDict, original: &str, transcription: &str) -> (r: ErrorRate)
    ensures
        is_rate(
            r,
            heard(dict@, original@, compared(), capitals()),
            heard(dict@, transcription@, compared(), capitals()),
        ),
        plain_ascii(original@) && plain_ascii(transcription@) ==> is_rate(
            r,
            heard(dict@, original@, ascii_compared(), ascii_capitals()),
            heard(dict@, transcription@, ascii_compared(), ascii_capitals()),
        ),
        r.errors <= r.tokens,
{
    let a = sound(dict, original);
    let b = sound(dict, transcription);
    phoneme_error_rate(a.as_str(), b.as_str())
}

/// Texts that are compared alike have no errors against each other.
pub proof fn law_same_text_has_no_error(
    dict: Map<Seq<char>, Seq<Seq<char>>>,
    a: Seq<char>,
    b: Seq<char>,
    left: spec_fn(char) -> Seq<char>,
    cap: spec_fn(char) -> Seq<char>,
)
    requires
        normalized(a, left) == normalized(b, left),
    ensures
        distance(words(heard(dict, a, left, cap)), words(heard(dict, b, left, cap))) == 0,
{
    law_distance_zero_iff_same(words(heard(dict, a, left, cap)), words(heard(dict, b, left, cap)));
}

/// Which take of a chunk is judged.
#[derive(Debug, Clone, Copy, PartialEq, Eq, Structural)]
pub enum Take {
    First,
    Second,
}

/// What becomes of a take.
#[derive(Debug, Clone, Copy, PartialEq, Eq, Structural)]
pub enum Verdict {
    Accept,
    /// The chunk is spoken once more.
    Retry,
    Quarantine,
}

/// What becomes of a take that passed, or did not.
pub open spec fn verdict(take: Take, passed: bool) -> Verdict {
    if passed {
        Verdict::Accept
    } else if take == Take::First {
        Verdict::Retry
    } else {
        Verdict::Quarantine
    }
}

impl Take {
    /// Number of takes so far.
    pub fn attempts(self) -> (r: u32)
        ensures
            r == if self == Take::First {
                1u32
            } else {
                2u32
            },
    {
        match self {
            Take::First => 1,
            Take::Second => 2,
        }
    }

    /// Judges this take by whether its error rate is within the threshold.
    pub fn judge(self, passed: bool) -> (r: Verdict)
        ensures
            r == verdict(self, passed),
    {
        if passed {
            Verdict::Accept
        } else {
            match self {
                Take::First => Verdict::Retry,
                Take::Second => Verdict::Quarantine,
            }
        }
    }
}

/// A chunk is accepted if one of its two takes passes, and quarantined if neither does.
pub proof fn law_two_takes(first: bool, second: bool)
    ensures
        ({
            let last = if verdict(Take::First, first) == Verdict::Retry {
                verdict(Take::Second, second)
            } else {
                verdict(Take::First, first)
            };
            &&& last == Verdict::Accept <==> first || second
            &&& last == Verdict::Quarantine <==> !first && !second
        }),
{
}

/// The text that is spoken on a retry: the sanitized one where that differs from the original by
/// more than white space, else the original.
pub open spec fn retried(s: Seq<char>) -> Seq<char> {
    if sanitized(s) != join(words(s), seq![' ']) {
        sanitized(s)
    } else {
        s
    }
}

/// The text for a retry, and whether it was sanitized.
pub fn retry_text(original: &str) -> (r: (String, bool))
    ensures
        r.0@ == retried(original@),
        r.1 == (sanitized(original@) != join(words(original@), seq![' '])),
{
    let (clean, dirty) = sanitize_chunk(original);
    if dirty {
        (clean, true)
    } else {
        (original.to_owned(), false)
    }
}

/// The outcome of a chunk whose takes all failed.
#[derive(Debug, Clone)]
pub struct ValidationFailure {
    pub original_text: String,
    pub transcription: String,
    pub phoneme_error: ErrorRate,
    pub attempts: u32,
}

impl ValidationFailure {
    /// The failure in words, with the error rate written as `rate`.
    pub fn describe(&self, rate: &str) -> (r: String)
        ensures
            r@ == "PER="@ + rate@ + " after "@ + decimal(self.attempts as nat)
                + " attempt(s)\n  original:      "@ + head(self.original_text@, 120)
                + "\n  transcription: "@ + head(self.transcription@, 120),
    {
        let mut out = chars_of("PER=");
        put(&mut out, rate);
        put(&mut out, " after ");
        put_number(&mut out, self.attempts as u64);
        put(&mut out, " attempt(s)\n  original:      ");
        let original = preview(self.original_text.as_str(), 120);
        put(&mut out, original.as_str());
        put(&mut out, "\n  transcription: ");
        let transcription = preview(self.transcription.as_str(), 120);
        put(&mut out, transcription.as_str());
        string_of(out.as_slice())
    }

    /// What is written beside a quarantined chunk, with the error rate written as `rate`.
    pub fn sidecar(&self, rate: &str) -> (r: String)
        ensures
            r@ == "ORIGINAL:\n"@ + self.original_text@ + "\n\nTRANSCRIPTION:\n"@
                + self.transcription@ + "\n\nPHONEME_ERROR: "@ + rate@ + "\nATTEMPTS: "@ + decimal(
                self.attempts as nat,
            ) + "\n"@,
    {
        let mut out = chars_of("ORIGINAL:\n");
        put(&mut out, self.original_text.as_str());
        put(&mut out, "\n\nTRANSCRIPTION:\n");
        put(&mut out, self.transcription.as_str());
        put(&mut out, "\n\nPHONEME_ERROR: ");
        put(&mut out, rate);
        put(&mut out, "\nATTEMPTS: ");
        put_number(&mut out, self.attempts as u64);
        put(&mut out, "\n");
        string_of(out.as_slice())
    }
}

/// What is compared and how words are spelled is the same for both texts of a comparison.
pub proof fn law_compared(c: char)
    ensures
        compared()(c) == comparable(c),
        ascii_compared()(c) == comparable_ascii(c),
{
}

/// A retry speaks the sanitized text if sanitizing changes more than white space, and else the
/// text as it is; either way it has no words that the sanitized text has not.
pub proof fn law_retry_text(s: Seq<char>)
    ensures
        sanitized(s) == join(words(s), seq![' ']) ==> retried(s) == s,
        sanitized(s) != join(words(s), seq![' ']) ==> retried(s) == sanitized(s),
        words(retried(s)) == words(sanitized(s)),
{
    lemma_words_are_words(s);
    assert(is_blank(seq![' ']));
    lemma_words_join(words(s), seq![' ']);
    lemma_all_words_of_words(words(s));
}

} // verus!
