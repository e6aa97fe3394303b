//! Comparing a transcription with its source text, phoneme by phoneme.

use crate::chars::{
    alphabetic, capital, capital_of, digit_char, is_ascii, is_digit, is_lower, is_upper, is_white,
    is_whitespace, lower, small, small_of, small_text, small_text_of, upper,
};
use crate::edits::{is_least, law_distance_is_least};
use crate::text::{
    all_ascii, begins, chars_of, each_ascii, extend, find, find_from, join, join_rows,
    lemma_find_fits, lemma_word_len, lines, lowered, part, rows, rows_of, same, slices,
    split_lines, split_words, stands_at, string_of, strings_of, texts, word_len, words,
};
use crate::words::{
    is_blank, is_word, lemma_all_words_of_words, lemma_single_spaces, lemma_words_are_words,
    lemma_words_from, lemma_words_half, lemma_words_join, no_double_space,
};
use vstd::hash_map::StringHashMap;
use vstd::prelude::*;

verus! {

/// `c` with typographic quotes made plain ones and dashes made spaces.
pub open spec fn plain(c: char) -> char {
    if c == '\u{2018}' || c == '\u{2019}' {
        '\''
    } else if c == '\u{201C}' || c == '\u{201D}' {
        '"'
    } else if c == '\u{2014}' || c == '\u{2013}' {
        ' '
    } else {
        c
    }
}

/// What is left of `c` for comparison: its lower-case mapping if it is a letter or white space.
pub open spec fn comparable(c: char) -> Seq<char> {
    if alphabetic(plain(c)) || is_white(plain(c)) {
        small(plain(c))
    } else {
        Seq::empty()
    }
}

/// What is left for comparison of a character that is ASCII once it is made plain.
pub open spec fn comparable_ascii(c: char) -> Seq<char> {
    let p = plain(c);
    if is_lower(p) || is_upper(p) || is_white(p) {
        seq![lower(p)]
    } else {
        Seq::empty()
    }
}

/// What `left` leaves of the characters of `s`.
pub open spec fn comparables(s: Seq<char>, left: spec_fn(char) -> Seq<char>) -> Seq<char>
    decreases s.len(),
{
    if s.len() == 0 {
        Seq::empty()
    } else {
        comparables(s.drop_last(), left) + left(s.last())
    }
}

/// `s` as it is compared: what `left` leaves of it, with single spaces between words.
pub open spec fn normalized(s: Seq<char>, left: spec_fn(char) -> Seq<char>) -> Seq<char> {
    join(words(comparables(s, left)), seq![' '])
}

/// True if all of `s` is ASCII once it is made plain.
pub open spec fn plain_ascii(s: Seq<char>) -> bool {
    forall|i: int| 0 <= i < s.len() ==> is_ascii(plain(#[trigger] s[i]))
}

fn plain_char(c: char) -> (r: char)
    ensures
        r == plain(c),
{
    if c == '\u{2018}' || c == '\u{2019}' {
        '\''
    } else if c == '\u{201C}' || c == '\u{201D}' {
        '"'
    } else if c == '\u{2014}' || c == '\u{2013}' {
        ' '
    } else {
        c
    }
}

/// The words of `cs` with single spaces between them.
pub fn squeeze(cs: &[char]) -> (r: Vec<char>)
    ensures
        r@ == join(words(cs@), seq![' ']),
{
    let space: [char; 1] = [' '];
    assert(space@ == seq![' ']);
    let list = split_words(cs);
    join_rows(list.as_slice(), space.as_slice())
}

/// Normalizes text for phoneme comparison: folds typographic punctuation, strips all but letters,
/// makes them small, and collapses white space.
pub fn normalize_for_comparison(text: &str) -> (r: String)
    ensures
        r@ == normalized(text@, |c: char| comparable(c)),
        plain_ascii(text@) ==> r@ == normalized(text@, |c: char| comparable_ascii(c)),
{
    let cs = chars_of(text);
    let ghost left_of = |c: char| comparable(c);
    let ghost ascii_of = |c: char| comparable_ascii(c);
    let mut left: Vec<char> = Vec::new();
    let mut i: usize = 0;
    while i < cs.len()
        invariant
            i <= cs.len(),
            left_of == (|c: char| comparable(c)),
            ascii_of == (|c: char| comparable_ascii(c)),
            left@ == comparables(cs@.take(i as int), left_of),
            plain_ascii(cs@) ==> left@ == comparables(cs@.take(i as int), ascii_of),
        decreases cs.len() - i,
    {
        assert(cs@.take(i + 1).drop_last() == cs@.take(i as int));
        let ghost before = left@;
        let c = plain_char(cs[i]);
        if c.is_alphabetic() || is_whitespace(c) {
            let more = small_of(c);
            extend(&mut left, more.as_slice());
        } else {
            assert(left@ + Seq::<char>::empty() == left@);
        }
        assert(left@ == before + comparable(cs@[i as int]));
        assert(is_ascii(c) ==> comparable(cs@[i as int]) == comparable_ascii(cs@[i as int]));
        i += 1;
    }
    assert(cs@.take(cs@.len() as int) == cs@);
    let out = squeeze(left.as_slice());
    string_of(out.as_slice())
}

/// `s` up to its first `c`; all of it if there is none.
pub open spec fn up_to(s: Seq<char>, c: char) -> Seq<char> {
    match find(s, seq![c]) {
        Some(i) => s.take(i),
        None => s,
    }
}

/// `s` without its trailing digits.
pub open spec fn without_stress(s: Seq<char>) -> Seq<char>
    decreases s.len(),
{
    if s.len() > 0 && is_digit(s.last()) {
        without_stress(s.drop_last())
    } else {
        s
    }
}

/// The phonemes that a line of the dictionary gives, without stress digits.
pub open spec fn entry_phones(after: Seq<char>) -> Seq<Seq<char>> {
    words(after).map_values(|p: Seq<char>| without_stress(p))
}

/// Where the word of a dictionary line ends: at the first two spaces. Comments and empty lines
/// have no word.
pub open spec fn entry_gap(line: Seq<char>) -> Option<int> {
    if line.len() == 0 || begins(line, seq![';', ';', ';']) {
        None
    } else {
        find(line, seq![' ', ' '])
    }
}

/// The entry of a dictionary line: its word without a variant number, and its phonemes.
pub open spec fn entry(line: Seq<char>) -> Option<(Seq<char>, Seq<Seq<char>>)> {
    match entry_gap(line) {
        Some(i) => Some((up_to(line.take(i), '('), entry_phones(line.skip(i + 2)))),
        None => None,
    }
}

/// `dict` with an entry for `word`, unless it has one.
pub open spec fn added(
    dict: Map<Seq<char>, Seq<Seq<char>>>,
    word: Seq<char>,
    phones: Seq<Seq<char>>,
) -> Map<Seq<char>, Seq<Seq<char>>> {
    if dict.contains_key(word) {
        dict
    } else {
        dict.insert(word, phones)
    }
}

/// The lower-case mapping of a text, as Unicode has it.
pub open spec fn small_words() -> spec_fn(Seq<char>) -> Seq<char> {
    |w: Seq<char>| small_text(w)
}

/// The lower-case mapping of a text, letter by letter.
pub open spec fn ascii_small_words() -> spec_fn(Seq<char>) -> Seq<char> {
    |w: Seq<char>| lowered(w)
}

/// The dictionary that the first `count` of `list` make up, with words made small by `key`; the
/// first entry for a word wins.
pub open spec fn dictionary(
    list: Seq<Seq<char>>,
    count: int,
    key: spec_fn(Seq<char>) -> Seq<char>,
) -> Map<Seq<char>, Seq<Seq<char>>>
    decreases count,
{
    if count <= 0 {
        Map::empty()
    } else {
        let before = dictionary(list, count - 1, key);
        match entry(list[count - 1]) {
            Some((word, phones)) => added(before, key(word), phones),
            None => before,
        }
    }
}

/// A pronouncing dictionary: the phonemes of words in small letters.
pub struct PhoneDict {
    map: StringHashMap<Vec<String>>,
}

impl View for PhoneDict {
    type V = Map<Seq<char>, Seq<Seq<char>>>;

    closed spec fn view(&self) -> Map<Seq<char>, Seq<Seq<char>>> {
        self.map@.map_values(|v: Vec<String>| texts(v@))
    }
}

impl PhoneDict {
    /// A dictionary without entries.
    pub fn new() -> (r: PhoneDict)
        ensures
            r@ == Map::<Seq<char>, Seq<Seq<char>>>::empty(),
    {
        let dict = PhoneDict { map: StringHashMap::new() };
        assert(dict@ == Map::<Seq<char>, Seq<Seq<char>>>::empty());
        dict
    }

    /// Adds an entry for `word`, unless there is one.
    pub fn add_first(&mut self, word: String, phones: Vec<String>)
        ensures
            final(self)@ == added(old(self)@, word@, texts(phones@)),
    {
        if !self.map.contains_key(word.as_str()) {
            let ghost before = self@;
            let ghost w = word@;
            let ghost p = texts(phones@);
            self.map.insert(word, phones);
            assert(self@ == before.insert(w, p));
        }
    }

    /// The phonemes of `word`, if it has an entry.
    pub fn phones(&self, word: &str) -> (r: Option<&Vec<String>>)
        ensures
            match r {
                Some(v) => self@.contains_key(word@) && texts(v@) == self@[word@],
                None => !self@.contains_key(word@),
            },
    {
        self.map.get(word)
    }
}

fn strip_stress(cs: &[char]) -> (r: Vec<char>)
    ensures
        r@ == without_stress(cs@),
{
    let mut n: usize = cs.len();
    assert(cs@.take(n as int) == cs@);
    while n > 0 && digit_char(cs[n - 1])
        invariant
            n <= cs.len(),
            without_stress(cs@.take(n as int)) == without_stress(cs@),
        decreases n,
    {
        assert(cs@.take(n as int).drop_last() == cs@.take(n - 1));
        n -= 1;
    }
    assert(cs@.subrange(0, n as int) == cs@.take(n as int));
    part(cs, 0, n)
}

fn phones_of(after: &[char]) -> (r: Vec<String>)
    ensures
        texts(r@) == entry_phones(after@),
{
    let list = split_words(after);
    let ghost want = entry_phones(after@);
    let mut out: Vec<Vec<char>> = Vec::new();
    let mut i: usize = 0;
    while i < list.len()
        invariant
            i <= list.len(),
            rows(list@) == words(after@),
            want == entry_phones(after@),
            rows(out@) == want.take(i as int),
        decreases list.len() - i,
    {
        let ghost before = out@;
        out.push(strip_stress(list[i].as_slice()));
        assert(rows(list@)[i as int] == list@[i as int]@);
        assert(rows(out@) == rows(before).push(want[i as int]));
        assert(want.take(i + 1) == want.take(i as int).push(want[i as int]));
        i += 1;
    }
    assert(want.take(want.len() as int) == want);
    strings_of(out.as_slice())
}

/// Parses a line of a pronouncing dictionary: the word, two spaces, its phonemes. A variant number
/// and stress digits are stripped.
pub fn parse_entry(line: &[char]) -> (r: Option<(String, Vec<String>)>)
    ensures
        match r {
            Some((word, phones)) => entry(line@) == Some((word@, texts(phones@))),
            None => entry(line@) is None,
        },
{
    let comment: [char; 3] = [';', ';', ';'];
    let gap: [char; 2] = [' ', ' '];
    let paren: [char; 1] = ['('];
    assert(comment@ == seq![';', ';', ';']);
    assert(gap@ == seq![' ', ' ']);
    assert(paren@ == seq!['(']);
    assert(line@.skip(0) == line@);
    if line.len() == 0 || stands_at(line, 0, comment.as_slice()) {
        return None;
    }
    let k: usize = match find_from(line, 0, gap.as_slice()) {
        Some(k) => k,
        None => {
            return None;
        },
    };
    let head = part(line, 0, k);
    assert(head@ == line@.take(k as int));
    assert(head@.skip(0) == head@);
    let end: usize = match find_from(head.as_slice(), 0, paren.as_slice()) {
        Some(j) => j,
        None => head.len(),
    };
    let name = part(head.as_slice(), 0, end);
    assert(name@ == up_to(head@, '(')) by {
        assert(head@.take(head@.len() as int) == head@);
    }
    let tail = part(line, k + 2, line.len());
    assert(tail@ == line@.skip(k + 2));
    let word = string_of(name.as_slice());
    let phones = phones_of(tail.as_slice());
    Some((word, phones))
}

proof fn lemma_entry_ascii(line: Seq<char>)
    requires
        all_ascii(line),
    ensures
        entry(line) matches Some((word, _)) ==> all_ascii(word),
{
    if let Some(i) = entry_gap(line) {
        lemma_find_fits(line, seq![' ', ' ']);
        let head = line.take(i);
        let word = up_to(head, '(');
        lemma_find_fits(head, seq!['(']);
        assert forall|k: int| 0 <= k < word.len() implies is_ascii(#[trigger] word[k]) by {
            assert(word[k] == line[k]);
        }
    }
}

/// A word is found under its small letters, with the phonemes of the first entry for it.
pub proof fn law_first_entry_wins(
    list: Seq<Seq<char>>,
    count: int,
    i: int,
    key: spec_fn(Seq<char>) -> Seq<char>,
)
    requires
        0 <= i < count <= list.len(),
        entry(list[i]) is Some,
        forall|j: int|
            0 <= j < i && entry(#[trigger] list[j]) is Some ==> key((entry(list[j])->0).0) != key(
                (entry(list[i])->0).0,
            ),
    ensures
        ({
            let dict = dictionary(list, count, key);
            let word = key((entry(list[i])->0).0);
            dict.contains_key(word) && dict[word] == (entry(list[i])->0).1
        }),
    decreases count,
{
    if i < count - 1 {
        law_first_entry_wins(list, count - 1, i, key);
    } else {
        lemma_unknown_word(list, i, key((entry(list[i])->0).0), key);
    }
}

proof fn lemma_unknown_word(
    list: Seq<Seq<char>>,
    count: int,
    word: Seq<char>,
    key: spec_fn(Seq<char>) -> Seq<char>,
)
    requires
        0 <= count <= list.len(),
        forall|j: int|
            0 <= j < count && entry(#[trigger] list[j]) is Some ==> key((entry(list[j])->0).0) != word,
    ensures
        !dictionary(list, count, key).contains_key(word),
    decreases count,
{
    if count > 0 {
        lemma_unknown_word(list, count - 1, word, key);
        assert(entry(list[count - 1]) is Some ==> key((entry(list[count - 1])->0).0) != word);
    }
}

/// Parses a pronouncing dictionary with one entry per line. Words are made small, and the first
/// variant of a word wins.
pub fn cmudict(raw: &str) -> (r: PhoneDict)
    ensures
        r@ == dictionary(lines(raw@), lines(raw@).len() as int, small_words()),
        each_ascii(lines(raw@)) ==> r@ == dictionary(
            lines(raw@),
            lines(raw@).len() as int,
            ascii_small_words(),
        ),
{
    let cs = chars_of(raw);
    let list = split_lines(cs.as_slice());
    let ghost all = lines(raw@);
    let mut dict = PhoneDict::new();
    let mut i: usize = 0;
    while i < list.len()
        invariant
            i <= list.len(),
            rows(list@) == all,
            dict@ == dictionary(all, i as int, small_words()),
            each_ascii(all) ==> dict@ == dictionary(all, i as int, ascii_small_words()),
        decreases list.len() - i,
    {
        assert(list@[i as int]@ == all[i as int]);
        if let Some((name, phones)) = parse_entry(list[i].as_slice()) {
            let word = small_text_of(name.as_str());
            proof {
                if each_ascii(all) {
                    assert(all_ascii(all[i as int]));
                    lemma_entry_ascii(all[i as int]);
                    assert(name@.map_values(|c: char| lower(c)) == lowered(name@));
                }
            }
            dict.add_first(word, phones);
        }
        i += 1;
    }
    dict
}

/// One word as it sounds: its phonemes, or its letters made capital by `cap` if the dictionary
/// does not know it, and a mark for its end.
pub open spec fn word_sound(
    dict: Map<Seq<char>, Seq<Seq<char>>>,
    word: Seq<char>,
    cap: spec_fn(char) -> Seq<char>,
) -> Seq<char> {
    join(
        if dict.contains_key(word) {
            dict[word]
        } else {
            word.map_values(cap)
        },
        seq![' '],
    ) + seq![' ', '|']
}

/// The words of `list` as they sound.
pub open spec fn sounds(
    dict: Map<Seq<char>, Seq<Seq<char>>>,
    list: Seq<Seq<char>>,
    cap: spec_fn(char) -> Seq<char>,
) -> Seq<char> {
    join(list.map_values(|w: Seq<char>| word_sound(dict, w, cap)), seq![' '])
}

/// Upper-case mapping, as Unicode has it.
pub open spec fn capitals() -> spec_fn(char) -> Seq<char> {
    |c: char| capital(c)
}

/// Upper-case mapping of ASCII characters.
pub open spec fn ascii_capitals() -> spec_fn(char) -> Seq<char> {
    |c: char| seq![upper(c)]
}

/// The characters of `word`, each made capital.
fn spell(word: &[char]) -> (r: Vec<Vec<char>>)
    ensures
        rows(r@) == word@.map_values(capitals()),
        all_ascii(word@) ==> rows(r@) == word@.map_values(ascii_capitals()),
{
    let ghost full = word@.map_values(capitals());
    let ghost plain = word@.map_values(ascii_capitals());
    let mut out: Vec<Vec<char>> = Vec::new();
    let mut j: usize = 0;
    while j < word.len()
        invariant
            j <= word.len(),
            full == word@.map_values(capitals()),
            plain == word@.map_values(ascii_capitals()),
            rows(out@) == full.take(j as int),
            all_ascii(word@) ==> rows(out@) == plain.take(j as int),
        decreases word.len() - j,
    {
        let ghost before = out@;
        out.push(capital_of(word[j]));
        assert(rows(out@) == rows(before).push(full[j as int]));
        assert(full.take(j + 1) == full.take(j as int).push(full[j as int]));
        assert(plain.take(j + 1) == plain.take(j as int).push(plain[j as int]));
        j += 1;
    }
    assert(full.take(full.len() as int) == full);
    assert(plain.take(plain.len() as int) == plain);
    out
}

/// One word as it sounds.
fn sound_of(dict: &PhoneDict, word: &str) -> (r: Vec<char>)
    ensures
        r@ == word_sound(dict@, word@, capitals()),
        all_ascii(word@) ==> r@ == word_sound(dict@, word@, ascii_capitals()),
{
    let space: [char; 1] = [' '];
    assert(space@ == seq![' ']);
    let tokens = match dict.phones(word) {
        Some(phones) => rows_of(phones.as_slice()),
        None => {
            let cs = chars_of(word);
            spell(cs.as_slice())
        },
    };
    let mut out = join_rows(tokens.as_slice(), space.as_slice());
    let ghost joined = out@;
    out.push(' ');
    out.push('|');
    assert(out@ == joined + seq![' ', '|']);
    out
}

/// Maps normalized words to a flat string of phoneme tokens with spaces between them. A word that
/// the dictionary does not know is spelled in capitals; `|` ends each word.
pub fn words_to_phonemes(dict: &PhoneDict, list: &[&str]) -> (r: String)
    ensures
        r@ == sounds(dict@, slices(list@), capitals()),
        each_ascii(slices(list@)) ==> r@ == sounds(dict@, slices(list@), ascii_capitals()),
{
    let space: [char; 1] = [' '];
    assert(space@ == seq![' ']);
    let ghost names = slices(list@);
    let ghost full = names.map_values(|w: Seq<char>| word_sound(dict@, w, capitals()));
    let ghost plain = names.map_values(|w: Seq<char>| word_sound(dict@, w, ascii_capitals()));
    let mut out: Vec<Vec<char>> = Vec::new();
    let mut i: usize = 0;
    while i < list.len()
        invariant
            i <= list.len(),
            names == slices(list@),
            full == names.map_values(|w: Seq<char>| word_sound(dict@, w, capitals())),
            plain == names.map_values(|w: Seq<char>| word_sound(dict@, w, ascii_capitals())),
            rows(out@) == full.take(i as int),
            each_ascii(names) ==> rows(out@) == plain.take(i as int),
        decreases list.len() - i,
    {
        let ghost before = out@;
        assert(names[i as int] == list@[i as int]@);
        assert(each_ascii(names) ==> all_ascii(names[i as int]));
        let more = sound_of(dict, list[i]);
        out.push(more);
        assert(rows(out@) == rows(before).push(more@));
        assert(full.take(i + 1) == full.take(i as int).push(full[i as int]));
        assert(plain.take(i + 1) == plain.take(i as int).push(plain[i as int]));
        i += 1;
    }
    assert(full.take(full.len() as int) == full);
    assert(plain.take(plain.len() as int) == plain);
    let all = join_rows(out.as_slice(), space.as_slice());
    string_of(all.as_slice())
}

pub open spec fn min(a: nat, b: nat) -> nat {
    if a <= b {
        a
    } else {
        b
    }
}

pub open spec fn max(a: nat, b: nat) -> nat {
    if a >= b {
        a
    } else {
        b
    }
}

/// The edit distance of two token lists: the least number of insertions, deletions and
/// substitutions that make one the other.
pub open spec fn distance(a: Seq<Seq<char>>, b: Seq<Seq<char>>) -> nat
    decreases a.len() + b.len(),
{
    if a.len() == 0 {
        b.len()
    } else if b.len() == 0 {
        a.len()
    } else {
        min(
            min(distance(a.drop_last(), b) + 1, distance(a, b.drop_last()) + 1),
            distance(a.drop_last(), b.drop_last()) + if a.last() == b.last() {
                0nat
            } else {
                1nat
            },
        )
    }
}

/// A phoneme error rate, as the fraction `errors` / `tokens`.
#[derive(Debug, Clone, Copy, PartialEq, Eq, Structural)]
pub struct ErrorRate {
    pub errors: usize,
    pub tokens: usize,
}

/// One row of the edit distance table from the row before it: `prev` holds the distances of
/// `a` without its last token to each prefix of `b`.
fn next_row(prev: &[usize], row: usize, token: &[char], b: &[Vec<char>], a: Ghost<Seq<Seq<char>>>) -> (r:
    Vec<usize>)
    requires
        a@.len() == row,
        row > 0,
        a@.last() == token@,
        prev.len() == b.len() + 1,
        forall|j: int|
            0 <= j <= b.len() ==> #[trigger] prev@[j] == distance(
                a@.drop_last(),
                rows(b@).take(j),
            ),
        row < usize::MAX,
        b.len() < usize::MAX,
    ensures
        r.len() == b.len() + 1,
        forall|j: int| 0 <= j <= b.len() ==> #[trigger] r@[j] == distance(a@, rows(b@).take(j)),
{
    let ghost full = a@;
    let ghost list = rows(b@);
    let mut curr: Vec<usize> = Vec::new();
    curr.push(row);
    assert(distance(full, list.take(0)) == row);
    let mut j: usize = 1;
    while j <= b.len()
        invariant
            1 <= j <= b.len() + 1,
            b.len() < usize::MAX,
            row < usize::MAX,
            full.len() == row,
            row > 0,
            full.last() == token@,
            list == rows(b@),
            prev.len() == b.len() + 1,
            forall|k: int|
                0 <= k <= b.len() ==> #[trigger] prev@[k] == distance(
                    full.drop_last(),
                    list.take(k),
                ),
            curr.len() == j,
            forall|k: int| 0 <= k < j ==> #[trigger] curr@[k] == distance(full, list.take(k)),
        decreases b.len() + 1 - j,
    {
        proof {
            assert(list.take(j as int).drop_last() == list.take(j - 1));
            assert(list.take(j as int).last() == b@[j - 1]@);
            law_distance_at_most_longer(full.drop_last(), list.take(j as int));
            law_distance_at_most_longer(full, list.take(j - 1));
            law_distance_at_most_longer(full.drop_last(), list.take(j - 1));
        }
        let cost: usize = if same(token, b[j - 1].as_slice()) {
            0
        } else {
            1
        };
        let above: usize = prev[j] + 1;
        let left: usize = curr[j - 1] + 1;
        let across: usize = prev[j - 1] + cost;
        let best: usize = if above <= left {
            above
        } else {
            left
        };
        let best: usize = if best <= across {
            best
        } else {
            across
        };
        curr.push(best);
        j += 1;
    }
    curr
}

/// Computes the phoneme edit distance of two strings of phoneme tokens, normalized by the larger
/// number of tokens: a fraction from 0 to 1. It is 0 if both have no tokens.
///
/// The word-end marks take part in the distance, so that different numbers of words count even
/// where stray phonemes agree.
pub fn phoneme_error_rate(original: &str, transcription: &str) -> (r: ErrorRate)
    ensures
        r.errors == distance(words(original@), words(transcription@)),
        r.tokens == max(max(words(original@).len(), words(transcription@).len()), 1),
        r.errors <= r.tokens,
        is_least(words(original@), words(transcription@), r.errors as int),
{
    let original_chars = chars_of(original);
    let transcription_chars = chars_of(transcription);
    let a = split_words(original_chars.as_slice());
    let b = split_words(transcription_chars.as_slice());
    proof {
        lemma_words_half(original@);
        lemma_words_half(transcription@);
    }
    let m: usize = a.len();
    let n: usize = b.len();
    assert(m == words(original@).len() && original_chars.len() == original@.len());
    assert(n == words(transcription@).len() && transcription_chars.len() == transcription@.len());
    let ghost first = words(original@);
    let ghost second = words(transcription@);
    let mut prev: Vec<usize> = Vec::new();
    let mut j: usize = 0;
    while j <= n
        invariant
            j <= n + 1,
            n == second.len(),
            n < usize::MAX,
            prev.len() == j,
            forall|k: int| 0 <= k < j ==> #[trigger] prev@[k] == k,
        decreases n + 1 - j,
    {
        prev.push(j);
        j += 1;
    }
    assert forall|k: int| 0 <= k <= n implies #[trigger] prev@[k] == distance(
        first.take(0),
        second.take(k),
    ) by {}
    let mut i: usize = 0;
    while i < m
        invariant
            i <= m,
            m == a.len(),
            n == b.len(),
            m < usize::MAX,
            n < usize::MAX,
            rows(a@) == first,
            rows(b@) == second,
            prev.len() == n + 1,
            forall|k: int|
                0 <= k <= n ==> #[trigger] prev@[k] == distance(
                    first.take(i as int),
                    second.take(k),
                ),
        decreases m - i,
    {
        let ghost here = first.take(i + 1);
        assert(here.drop_last() == first.take(i as int));
        assert(here.last() == a@[i as int]@);
        prev = next_row(prev.as_slice(), i + 1, a[i].as_slice(), b.as_slice(), Ghost(here));
        i += 1;
    }
    assert(first.take(m as int) == first);
    assert(second.take(n as int) == second);
    proof {
        law_distance_at_most_longer(first, second);
        law_distance_is_least(first, second);
    }
    let larger: usize = if m >= n {
        m
    } else {
        n
    };
    let tokens: usize = if larger >= 1 {
        larger
    } else {
        1
    };
    ErrorRate { errors: prev[n], tokens }
}

/// The distance is at most the larger number of tokens, so the error rate is at most 1.
pub proof fn law_distance_at_most_longer(a: Seq<Seq<char>>, b: Seq<Seq<char>>)
    ensures
        distance(a, b) <= max(a.len(), b.len()),
    decreases a.len() + b.len(),
{
    if a.len() > 0 && b.len() > 0 {
        law_distance_at_most_longer(a.drop_last(), b.drop_last());
    }
}

/// The distance is at least the difference of the numbers of tokens.
pub proof fn law_distance_at_least_difference(a: Seq<Seq<char>>, b: Seq<Seq<char>>)
    ensures
        distance(a, b) >= a.len() - b.len(),
        distance(a, b) >= b.len() - a.len(),
    decreases a.len() + b.len(),
{
    if a.len() > 0 && b.len() > 0 {
        law_distance_at_least_difference(a.drop_last(), b.drop_last());
        law_distance_at_least_difference(a, b.drop_last());
        law_distance_at_least_difference(a.drop_last(), b);
    }
}

/// The distance is 0 exactly if the token lists are the same.
pub proof fn law_distance_zero_iff_same(a: Seq<Seq<char>>, b: Seq<Seq<char>>)
    ensures
        distance(a, b) == 0 <==> a == b,
    decreases a.len() + b.len(),
{
    if a.len() == 0 || b.len() == 0 {
        assert(distance(a, b) == 0 ==> a == b);
    } else {
        law_distance_zero_iff_same(a.drop_last(), b.drop_last());
        if distance(a, b) == 0 {
            assert(a == a.drop_last().push(a.last()));
            assert(b == b.drop_last().push(b.last()));
        }
    }
}

/// The distance does not depend on the order of the two token lists.
pub proof fn law_distance_symmetric(a: Seq<Seq<char>>, b: Seq<Seq<char>>)
    ensures
        distance(a, b) == distance(b, a),
    decreases a.len() + b.len(),
{
    if a.len() > 0 && b.len() > 0 {
        law_distance_symmetric(a.drop_last(), b.drop_last());
        law_distance_symmetric(a, b.drop_last());
        law_distance_symmetric(a.drop_last(), b);
    }
}

/// The error rate is 1 if one side has tokens and the other has none.
pub proof fn law_distance_to_nothing(a: Seq<Seq<char>>)
    ensures
        distance(a, Seq::empty()) == a.len(),
        distance(Seq::empty(), a) == a.len(),
{
}

/// The error rate is 1 if the two sides share no token.
pub proof fn law_distance_of_strangers(a: Seq<Seq<char>>, b: Seq<Seq<char>>)
    requires
        forall|i: int, j: int|
            0 <= i < a.len() && 0 <= j < b.len() ==> #[trigger] a[i] != #[trigger] b[j],
    ensures
        distance(a, b) == max(a.len(), b.len()),
    decreases a.len() + b.len(),
{
    if a.len() > 0 && b.len() > 0 {
        let x = a.drop_last();
        let y = b.drop_last();
        assert forall|i: int, j: int| 0 <= i < x.len() && 0 <= j < b.len() implies #[trigger] x[i]
            != #[trigger] b[j] by {
            assert(x[i] == a[i]);
        }
        assert forall|i: int, j: int| 0 <= i < a.len() && 0 <= j < y.len() implies #[trigger] a[i]
            != #[trigger] y[j] by {
            assert(y[j] == b[j]);
        }
        assert forall|i: int, j: int| 0 <= i < x.len() && 0 <= j < y.len() implies #[trigger] x[i]
            != #[trigger] y[j] by {
            assert(x[i] == a[i] && y[j] == b[j]);
        }
        assert(a[a.len() - 1] != b[b.len() - 1]);
        law_distance_of_strangers(x, y);
        law_distance_of_strangers(a, y);
        law_distance_of_strangers(x, b);
    }
}

/// A detour over a third token list is never shorter.
pub proof fn law_distance_triangle(a: Seq<Seq<char>>, b: Seq<Seq<char>>, c: Seq<Seq<char>>)
    ensures
        distance(a, c) <= distance(a, b) + distance(b, c),
    decreases a.len() + b.len() + c.len(),
{
    if a.len() == 0 {
        law_distance_at_least_difference(b, c);
    } else if c.len() == 0 {
        law_distance_at_least_difference(a, b);
    } else if b.len() == 0 {
        law_distance_at_most_longer(a, c);
    } else {
        let x = a.drop_last();
        let y = b.drop_last();
        let z = c.drop_last();
        law_distance_triangle(x, b, c);
        law_distance_triangle(a, b, z);
        law_distance_triangle(a, y, c);
        law_distance_triangle(x, y, z);
        law_distance_triangle(x, y, c);
        law_distance_triangle(a, y, z);
        law_distance_triangle(x, b, z);
    }
}

/// `s` with its ASCII small letters made capital.
pub open spec fn in_capitals(s: Seq<char>) -> Seq<char> {
    s.map_values(|c: char| upper(c))
}

/// The letter that `c` is, made small, if it is an ASCII letter.
pub open spec fn letter(c: char) -> Seq<char> {
    if is_lower(c) || is_upper(c) {
        seq![lower(c)]
    } else {
        Seq::empty()
    }
}

/// The ASCII letters of `s`, in order, made small.
pub open spec fn letters(s: Seq<char>) -> Seq<char> {
    comparables(s, |c: char| letter(c))
}

proof fn lemma_comparables_concat(a: Seq<char>, b: Seq<char>, left: spec_fn(char) -> Seq<char>)
    ensures
        comparables(a + b, left) == comparables(a, left) + comparables(b, left),
    decreases b.len(),
{
    if b.len() == 0 {
        assert(a + b == a);
        assert(comparables(a, left) + comparables(b, left) == comparables(a, left));
    } else {
        assert((a + b).drop_last() == a + b.drop_last());
        assert((a + b).last() == b.last());
        lemma_comparables_concat(a, b.drop_last(), left);
        assert(comparables(a, left) + (comparables(b.drop_last(), left) + left(b.last())) == (
        comparables(a, left) + comparables(b.drop_last(), left)) + left(b.last()));
    }
}

/// What is left of all `parts`, in order.
spec fn all_comparables(parts: Seq<Seq<char>>, left: spec_fn(char) -> Seq<char>) -> Seq<char>
    decreases parts.len(),
{
    if parts.len() == 0 {
        Seq::empty()
    } else {
        comparables(parts[0], left) + all_comparables(parts.skip(1), left)
    }
}

proof fn lemma_all_comparables_push(
    parts: Seq<Seq<char>>,
    last: Seq<char>,
    left: spec_fn(char) -> Seq<char>,
)
    ensures
        all_comparables(parts.push(last), left) == all_comparables(parts, left) + comparables(
            last,
            left,
        ),
    decreases parts.len(),
{
    let all = parts.push(last);
    if parts.len() == 0 {
        assert(all.skip(1) == Seq::<Seq<char>>::empty());
        assert(all_comparables(all.skip(1), left) == Seq::<char>::empty());
        assert(comparables(last, left) + Seq::<char>::empty() == Seq::<char>::empty() + comparables(
            last,
            left,
        ));
    } else {
        assert(all.skip(1) == parts.skip(1).push(last));
        lemma_all_comparables_push(parts.skip(1), last, left);
        assert(comparables(parts[0], left) + (all_comparables(parts.skip(1), left) + comparables(
            last,
            left,
        )) == (comparables(parts[0], left) + all_comparables(parts.skip(1), left)) + comparables(
            last,
            left,
        ));
    }
}

proof fn lemma_comparables_one(c: char, left: spec_fn(char) -> Seq<char>)
    ensures
        comparables(seq![c], left) == left(c),
{
    assert(seq![c].drop_last() == Seq::<char>::empty());
    assert(comparables(seq![c].drop_last(), left) == Seq::<char>::empty());
    assert(Seq::<char>::empty() + left(c) == left(c));
}

/// Where nothing is left of white space, as much is left of the words of a text as of the text.
proof fn lemma_comparables_of_words(s: Seq<char>, left: spec_fn(char) -> Seq<char>)
    requires
        forall|c: char| is_white(c) ==> #[trigger] left(c) == Seq::<char>::empty(),
    ensures
        all_comparables(words(s), left) == comparables(s, left),
    decreases s.len(),
{
    if s.len() > 0 {
        if is_white(s[0]) {
            let rest = s.skip(1);
            lemma_comparables_of_words(rest, left);
            assert(s == seq![s[0]] + rest);
            lemma_comparables_concat(seq![s[0]], rest, left);
            lemma_comparables_one(s[0], left);
            assert(Seq::<char>::empty() + comparables(rest, left) == comparables(rest, left));
        } else {
            let k = word_len(s) as int;
            lemma_word_len(s);
            let rest = s.skip(k);
            lemma_comparables_of_words(rest, left);
            assert(s == s.take(k) + rest);
            lemma_comparables_concat(s.take(k), rest, left);
            assert(words(s)[0] == s.take(k));
            assert(words(s).skip(1) == words(rest));
        }
    }
}

/// Where nothing is left of a space, as much is left of joined parts as of the parts.
proof fn lemma_comparables_of_join(parts: Seq<Seq<char>>, left: spec_fn(char) -> Seq<char>)
    requires
        left(' ') == Seq::<char>::empty(),
    ensures
        comparables(join(parts, seq![' ']), left) == all_comparables(parts, left),
    decreases parts.len(),
{
    if parts.len() == 1 {
        assert(parts.skip(1) == Seq::<Seq<char>>::empty());
        assert(all_comparables(parts.skip(1), left) == Seq::<char>::empty());
        assert(comparables(parts[0], left) + Seq::<char>::empty() == comparables(parts[0], left));
    } else if parts.len() > 1 {
        let front = parts.drop_last();
        let a = join(front, seq![' ']);
        lemma_comparables_of_join(front, left);
        lemma_comparables_concat(a, seq![' '], left);
        lemma_comparables_one(' ', left);
        assert(comparables(a, left) + Seq::<char>::empty() == comparables(a, left));
        lemma_comparables_concat(a + seq![' '], parts.last(), left);
        assert(parts == front.push(parts.last()));
        lemma_all_comparables_push(front, parts.last(), left);
    }
}

proof fn lemma_lower_upper(c: char)
    ensures
        is_upper(c) ==> is_lower(lower(c)),
        is_lower(c) ==> is_upper(upper(c)) && lower(upper(c)) == c,
        !is_upper(c) ==> lower(c) == c,
{
}

/// What is left of a text are small letters and white space, and its letters are those of the
/// text.
proof fn lemma_comparables_ascii(s: Seq<char>)
    requires
        plain_ascii(s),
    ensures
        ({
            let left = comparables(s, |c: char| comparable_ascii(c));
            &&& forall|i: int|
                0 <= i < left.len() ==> is_lower(#[trigger] left[i]) || is_white(left[i])
            &&& letters(left) == letters(s)
        }),
    decreases s.len(),
{
    let ascii_of = |c: char| comparable_ascii(c);
    let letter_of = |c: char| letter(c);
    if s.len() > 0 {
        let head = s.drop_last();
        let c = s.last();
        assert(is_ascii(plain(s[s.len() - 1])));
        assert forall|i: int| 0 <= i < head.len() implies is_ascii(plain(#[trigger] head[i])) by {
            assert(head[i] == s[i]);
        }
        lemma_comparables_ascii(head);
        lemma_lower_upper(plain(c));
        let before = comparables(head, ascii_of);
        let more = comparable_ascii(c);
        let left = before + more;
        assert(left == comparables(s, ascii_of));
        assert forall|i: int| 0 <= i < left.len() implies is_lower(#[trigger] left[i]) || is_white(
            left[i],
        ) by {
            if i < before.len() {
                assert(left[i] == before[i]);
            } else {
                assert(left[i] == more[i - before.len()]);
            }
        }
        lemma_comparables_concat(before, more, letter_of);
        if more.len() > 0 {
            lemma_comparables_one(more[0], letter_of);
            assert(more == seq![more[0]]);
        }
        assert(comparables(more, letter_of) == letter(c));
    }
}

/// Small letters and spaces are left as they are.
proof fn lemma_comparables_stay(s: Seq<char>)
    requires
        forall|i: int| 0 <= i < s.len() ==> is_lower(#[trigger] s[i]) || s[i] == ' ',
    ensures
        comparables(s, |c: char| comparable_ascii(c)) == s,
        plain_ascii(s),
    decreases s.len(),
{
    if s.len() > 0 {
        let head = s.drop_last();
        assert(is_lower(s[s.len() - 1]) || s[s.len() - 1] == ' ');
        assert forall|i: int| 0 <= i < head.len() implies is_lower(#[trigger] head[i]) || head[i]
            == ' ' by {
            assert(head[i] == s[i]);
        }
        lemma_comparables_stay(head);
        assert(head + seq![s.last()] == s);
    }
}

/// A normalized ASCII text is made of small letters and single spaces, with none at either end,
/// and its letters are those of the text, in order.
pub proof fn law_normalized_is_letters(s: Seq<char>)
    requires
        plain_ascii(s),
    ensures
        ({
            let r = normalized(s, |c: char| comparable_ascii(c));
            &&& forall|i: int| 0 <= i < r.len() ==> is_lower(#[trigger] r[i]) || r[i] == ' '
            &&& r.len() > 0 ==> r[0] != ' ' && r.last() != ' '
            &&& no_double_space(r)
            &&& letters(r) == letters(s)
        }),
{
    let left = comparables(s, |c: char| comparable_ascii(c));
    let ws = words(left);
    let ok = |c: char| is_lower(c) || is_white(c);
    let letter_of = |c: char| letter(c);
    lemma_comparables_ascii(s);
    lemma_words_are_words(left);
    lemma_words_from(left, ok);
    assert forall|k: int, i: int| 0 <= k < ws.len() && 0 <= i < ws[k].len() implies is_lower(
        #[trigger] ws[k][i],
    ) by {
        assert(is_word(ws[k]));
        assert(ok(ws[k][i]));
        assert(!is_white(ws[k][i]));
    }
    lemma_single_spaces(ws, |c: char| is_lower(c));
    let r = join(ws, seq![' ']);
    assert forall|i: int| 0 <= i < r.len() implies is_lower(#[trigger] r[i]) || r[i] == ' ' by {
        assert((|c: char| is_lower(c))(r[i]) || r[i] == ' ');
    }
    lemma_comparables_of_words(left, letter_of);
    lemma_comparables_of_join(ws, letter_of);
}

/// Normalizing a normalized ASCII text changes nothing.
pub proof fn law_normalized_once(s: Seq<char>)
    requires
        plain_ascii(s),
    ensures
        ({
            let r = normalized(s, |c: char| comparable_ascii(c));
            plain_ascii(r) && normalized(r, |c: char| comparable_ascii(c)) == r
        }),
{
    let ws = words(comparables(s, |c: char| comparable_ascii(c)));
    law_normalized_is_letters(s);
    lemma_comparables_stay(normalized(s, |c: char| comparable_ascii(c)));
    lemma_words_are_words(comparables(s, |c: char| comparable_ascii(c)));
    assert(is_blank(seq![' ']));
    lemma_words_join(ws, seq![' ']);
    lemma_all_words_of_words(ws);
}

/// Whether a text is written in capitals makes no difference once it is normalized.
pub proof fn law_normalized_ignores_case(s: Seq<char>)
    requires
        plain_ascii(s),
    ensures
        plain_ascii(in_capitals(s)),
        normalized(in_capitals(s), |c: char| comparable_ascii(c)) == normalized(
            s,
            |c: char| comparable_ascii(c),
        ),
{
    assert forall|i: int| 0 <= i < s.len() implies is_ascii(plain(#[trigger] in_capitals(s)[i])) by {
        assert(is_ascii(plain(s[i])));
        lemma_lower_upper(s[i]);
    }
    lemma_comparables_of_capitals(s);
}

proof fn lemma_comparables_of_capitals(s: Seq<char>)
    ensures
        comparables(in_capitals(s), |c: char| comparable_ascii(c)) == comparables(
            s,
            |c: char| comparable_ascii(c),
        ),
    decreases s.len(),
{
    if s.len() > 0 {
        lemma_comparables_of_capitals(s.drop_last());
        assert(in_capitals(s).drop_last() == in_capitals(s.drop_last()));
        lemma_lower_upper(s.last());
        assert(comparable_ascii(upper(s.last())) == comparable_ascii(s.last()));
    }
}

/// Words that the dictionary does not know are spelled letter by letter in capitals, and its own
/// words are made small as a whole.
pub proof fn law_spelling(c: char, w: Seq<char>)
    ensures
        capitals()(c) == capital(c),
        ascii_capitals()(c) == seq![upper(c)],
        small_words()(w) == small_text(w),
        ascii_small_words()(w).len() == w.len(),
        forall|i: int| 0 <= i < w.len() ==> #[trigger] ascii_small_words()(w)[i] == lower(w[i]),
{
}

/// The dictionary has the words of its lines, and no others.
pub proof fn law_no_other_words(
    list: Seq<Seq<char>>,
    count: int,
    word: Seq<char>,
    key: spec_fn(Seq<char>) -> Seq<char>,
)
    requires
        0 <= count <= list.len(),
        dictionary(list, count, key).contains_key(word),
    ensures
        exists|j: int|
            0 <= j < count && entry(#[trigger] list[j]) is Some && key((entry(list[j])->0).0)
                == word,
{
    if forall|j: int|
        0 <= j < count && entry(#[trigger] list[j]) is Some ==> key((entry(list[j])->0).0)
            != word {
        lemma_unknown_word(list, count, word, key);
    }
}

} // verus!
