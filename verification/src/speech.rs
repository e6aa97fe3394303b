//! Preparing text for speech, and validating what was spoken.

use crate::chars::{is_graphic, is_white, is_whitespace};
use crate::numbers::{decimal, put_number};
use crate::phonemes::squeeze;
use crate::text::{
    chars_of, extend, join, join_rows, part, put, rows, same, string_of, texts, trim, trim_end,
    trimmed, words,
};
use crate::words::{
    all_words, is_blank, is_word, lemma_all_words_of_words, lemma_trim, lemma_trim_end_is,
    lemma_words_are_words, lemma_words_blank, lemma_words_from, lemma_words_join,
};
use vstd::prelude::*;

verus! {

/// True if `c` ends a sentence, or a quotation.
pub open spec fn is_terminal(c: char) -> bool {
    c == '.' || c == '!' || c == '?' || c == '\u{2026}' || c == '"' || c == '\''
}

/// `s` if it ends with terminal punctuation, up to trailing white space; else `s` without
/// trailing white space and with a full stop.
pub open spec fn punctuated(s: Seq<char>) -> Seq<char> {
    let t = trim_end(s);
    if t.len() > 0 && is_terminal(t.last()) {
        s
    } else {
        t.push('.')
    }
}

/// Ensures that the chunk ends with sentence-terminal punctuation.
pub fn ensure_terminal_punctuation(text: &str) -> (r: String)
    ensures
        r@ == punctuated(text@),
{
    let cs = chars_of(text);
    let mut n: usize = cs.len();
    assert(cs@.take(n as int) == cs@);
    while n > 0 && is_whitespace(cs[n - 1])
        invariant
            n <= cs.len(),
            trim_end(cs@.take(n as int)) == trim_end(cs@),
        decreases n,
    {
        assert(cs@.take(n as int).drop_last() == cs@.take(n - 1));
        n -= 1;
    }
    let ghost t = cs@.take(n as int);
    assert(trim_end(cs@) == t);
    if n > 0 {
        let c = cs[n - 1];
        if c == '.' || c == '!' || c == '?' || c == '\u{2026}' || c == '"' || c == '\'' {
            return text.to_owned();
        }
    }
    let mut out = part(cs.as_slice(), 0, n);
    assert(out@ == t);
    out.push('.');
    string_of(out.as_slice())
}

/// After punctuation a text ends with terminal punctuation, up to trailing white space, and
/// punctuating it again changes nothing.
pub proof fn law_punctuated_once(s: Seq<char>)
    ensures
        ({
            let t = trim_end(punctuated(s));
            &&& t.len() > 0 && is_terminal(t.last())
            &&& punctuated(punctuated(s)) == punctuated(s)
        }),
{
    let t = trim_end(s);
    if !(t.len() > 0 && is_terminal(t.last())) {
        assert(t.push('.').last() == '.');
        assert(trim_end(t.push('.')) == t.push('.'));
    }
}

/// `c` with typographic punctuation made plain.
pub open spec fn folded(c: char) -> Seq<char> {
    if c == '\u{2018}' || c == '\u{2019}' {
        seq!['\'']
    } else if c == '\u{201C}' || c == '\u{201D}' {
        seq!['"']
    } else if c == '\u{2014}' {
        seq![' ', '\u{2014}', ' ']
    } else if c == '\u{2013}' {
        seq![' ', '-', ' ']
    } else if c == '\u{2026}' {
        seq!['.', '.', '.']
    } else {
        seq![c]
    }
}

/// True if `c` is kept: a visible ASCII character, a space, a newline or a tab.
pub open spec fn is_kept(c: char) -> bool {
    is_graphic(c) || c == ' ' || c == '\n' || c == '\t'
}

/// The characters of `s` that are kept.
pub open spec fn kept(s: Seq<char>) -> Seq<char> {
    s.filter(|c: char| is_kept(c))
}

/// `s` with typographic punctuation made plain and then only what is kept.
pub open spec fn stripped(s: Seq<char>) -> Seq<char>
    decreases s.len(),
{
    if s.len() == 0 {
        Seq::empty()
    } else {
        stripped(s.drop_last()) + kept(folded(s.last()))
    }
}

/// `s` sanitized: stripped, with single spaces between words.
pub open spec fn sanitized(s: Seq<char>) -> Seq<char> {
    join(words(stripped(s)), seq![' '])
}

/// What is kept of `c` once it is made plain.
fn kept_of(c: char) -> (r: Vec<char>)
    ensures
        r@ == kept(folded(c)),
{
    let ghost keep = |c: char| is_kept(c);
    proof {
        reveal(Seq::filter);
    }
    let mut plain: Vec<char> = Vec::new();
    if c == '\u{2018}' || c == '\u{2019}' {
        plain.push('\'');
    } else if c == '\u{201C}' || c == '\u{201D}' {
        plain.push('"');
    } else if c == '\u{2014}' {
        plain.push(' ');
        plain.push('\u{2014}');
        plain.push(' ');
    } else if c == '\u{2013}' {
        plain.push(' ');
        plain.push('-');
        plain.push(' ');
    } else if c == '\u{2026}' {
        plain.push('.');
        plain.push('.');
        plain.push('.');
    } else {
        plain.push(c);
    }
    assert(plain@ == folded(c));
    let mut out: Vec<char> = Vec::new();
    assert(plain@.take(0).filter(keep) == Seq::<char>::empty());
    let mut i: usize = 0;
    while i < plain.len()
        invariant
            i <= plain.len(),
            keep == (|c: char| is_kept(c)),
            out@ == plain@.take(i as int).filter(keep),
        decreases plain.len() - i,
    {
        proof {
            reveal(Seq::filter);
            assert(plain@.take(i + 1).drop_last() == plain@.take(i as int));
        }
        let p = plain[i];
        if ('!' <= p && p <= '~') || p == ' ' || p == '\n' || p == '\t' {
            out.push(p);
        }
        i += 1;
    }
    assert(plain@.take(plain@.len() as int) == plain@);
    out
}

/// Sanitizes a synthesis chunk: makes typographic punctuation plain, strips what is not printable
/// ASCII, and collapses white space. Also tells whether this changes more than white space.
pub fn sanitize_chunk(text: &str) -> (r: (String, bool))
    ensures
        r.0@ == sanitized(text@),
        r.1 == (sanitized(text@) != join(words(text@), seq![' '])),
{
    let cs = chars_of(text);
    let mut left: Vec<char> = Vec::new();
    let mut i: usize = 0;
    while i < cs.len()
        invariant
            i <= cs.len(),
            left@ == stripped(cs@.take(i as int)),
        decreases cs.len() - i,
    {
        assert(cs@.take(i + 1).drop_last() == cs@.take(i as int));
        let more = kept_of(cs[i]);
        extend(&mut left, more.as_slice());
        i += 1;
    }
    assert(cs@.take(cs@.len() as int) == cs@);
    let clean = squeeze(left.as_slice());
    let plain = squeeze(cs.as_slice());
    let changed = !same(clean.as_slice(), plain.as_slice());
    (string_of(clean.as_slice()), changed)
}

/// `s` up to its first `n` characters.
pub open spec fn head(s: Seq<char>, n: int) -> Seq<char> {
    if s.len() <= n {
        s
    } else {
        s.take(n)
    }
}

/// The first `n` characters of `text`.
pub fn preview(text: &str, n: usize) -> (r: String)
    ensures
        r@ == head(text@, n as int),
{
    let cs = chars_of(text);
    let end: usize = if cs.len() <= n {
        cs.len()
    } else {
        n
    };
    let head = part(cs.as_slice(), 0, end);
    assert(head@ == text@.take(end as int));
    assert(text@.take(text@.len() as int) == text@);
    string_of(head.as_slice())
}

/// True if `s` is made of visible ASCII characters and spaces.
pub open spec fn is_printable(s: Seq<char>) -> bool {
    forall|i: int| 0 <= i < s.len() ==> is_graphic(#[trigger] s[i]) || s[i] == ' '
}

proof fn lemma_stripped_kept(s: Seq<char>)
    ensures
        forall|i: int| 0 <= i < stripped(s).len() ==> is_kept(#[trigger] stripped(s)[i]),
    decreases s.len(),
{
    broadcast use vstd::seq_lib::group_filter_ensures;

    if s.len() > 0 {
        lemma_stripped_kept(s.drop_last());
        let more = kept(folded(s.last()));
        assert forall|i: int| 0 <= i < stripped(s).len() implies is_kept(
            #[trigger] stripped(s)[i],
        ) by {
            let head = stripped(s.drop_last());
            if i < head.len() {
                assert(stripped(s)[i] == head[i]);
            } else {
                assert(stripped(s)[i] == more[i - head.len()]);
                assert(more.contains(more[i - head.len()]));
            }
        }
    }
}

proof fn lemma_stripped_printable(s: Seq<char>)
    requires
        is_printable(s),
    ensures
        stripped(s) == s,
    decreases s.len(),
{
    if s.len() > 0 {
        let head = s.drop_last();
        assert forall|i: int| 0 <= i < head.len() implies is_graphic(#[trigger] head[i]) || head[i]
            == ' ' by {
            assert(head[i] == s[i]);
        }
        lemma_stripped_printable(head);
        let c = s.last();
        assert(is_graphic(c) || c == ' ') by {
            assert(s[s.len() - 1] == c);
        }
        reveal(Seq::filter);
        let one = seq![c];
        assert(folded(c) == one);
        assert(one.drop_last() == Seq::<char>::empty());
        assert(kept(one) == one);
        assert(head + one == s);
    }
}

proof fn lemma_join_printable(list: Seq<Seq<char>>)
    requires
        forall|k: int| 0 <= k < list.len() ==> is_printable(#[trigger] list[k]),
    ensures
        is_printable(join(list, seq![' '])),
    decreases list.len(),
{
    if list.len() == 1 {
        assert(is_printable(list[0]));
    } else if list.len() > 1 {
        let head = list.drop_last();
        assert forall|k: int| 0 <= k < head.len() implies is_printable(#[trigger] head[k]) by {
            assert(head[k] == list[k]);
        }
        lemma_join_printable(head);
        let a = join(head, seq![' ']);
        let z = list.last();
        assert(is_printable(z)) by {
            assert(is_printable(list[list.len() - 1]));
        }
        let all = a + seq![' '] + z;
        assert forall|i: int| 0 <= i < all.len() implies is_graphic(#[trigger] all[i]) || all[i]
            == ' ' by {
            if i < a.len() {
                assert(all[i] == a[i]);
            } else if i > a.len() {
                assert(all[i] == z[i - a.len() - 1]);
            }
        }
    }
}

/// Sanitized text is made of visible ASCII characters and spaces.
pub proof fn law_sanitized_is_printable(s: Seq<char>)
    ensures
        is_printable(sanitized(s)),
{
    let list = words(stripped(s));
    lemma_stripped_kept(s);
    lemma_words_from(stripped(s), |c: char| is_kept(c));
    lemma_words_are_words(stripped(s));
    assert forall|k: int| 0 <= k < list.len() implies is_printable(#[trigger] list[k]) by {
        assert(is_word(list[k]));
        assert forall|i: int| 0 <= i < list[k].len() implies is_graphic(#[trigger] list[k][i])
            || list[k][i] == ' ' by {
            assert(is_kept(words(stripped(s))[k][i]));
            assert(!is_white(list[k][i]));
        }
    }
    lemma_join_printable(list);
}

/// Sanitizing text that was sanitized changes nothing, and finds nothing to change.
pub proof fn law_sanitized_once(s: Seq<char>)
    ensures
        sanitized(sanitized(s)) == sanitized(s),
        join(words(sanitized(s)), seq![' ']) == sanitized(s),
{
    law_sanitized_is_printable(s);
    lemma_stripped_printable(sanitized(s));
    let list = words(stripped(s));
    lemma_words_are_words(stripped(s));
    assert(is_blank(seq![' ']));
    lemma_words_join(list, seq![' ']);
    lemma_all_words_of_words(list);
}

/// Address of the server that cleans up text.
pub fn crane_llm_url(port: u16) -> (r: String)
    ensures
        r@ == "http://127.0.0.1:"@ + decimal(port as nat),
{
    let mut out = chars_of("http://127.0.0.1:");
    put_number(&mut out, port as u64);
    string_of(out.as_slice())
}

/// Address of the server that speaks.
pub fn crane_tts_url(port: u16) -> (r: String)
    ensures
        r@ == "http://127.0.0.1:"@ + decimal(port as nat),
{
    crane_llm_url(port)
}

/// `path` on the server at `base`.
pub fn endpoint(base: &str, path: &str) -> (r: String)
    ensures
        r@ == base@ + path@,
{
    let mut out = chars_of(base);
    put(&mut out, path);
    string_of(out.as_slice())
}

/// What is asked of the server that speaks.
#[derive(Debug, Clone)]
pub struct SpeechRequest {
    pub model: String,
    pub input: String,
    /// The named speaker.
    pub voice: String,
    pub response_format: String,
    pub language: Option<String>,
    /// A hint on the speaking style.
    pub instruct: Option<String>,
}

/// The text of an optional string.
pub open spec fn maybe(s: Option<String>) -> Option<Seq<char>> {
    match s {
        Some(t) => Some(t@),
        None => None,
    }
}

/// Who speaks, and how.
#[derive(Debug, Clone)]
pub struct Voice {
    pub name: String,
    pub language: Option<String>,
    pub instruct: Option<String>,
}

fn copy_of(s: &Option<String>) -> (r: Option<String>)
    ensures
        maybe(r) == maybe(*s),
{
    match s {
        Some(t) => Some(t.as_str().to_owned()),
        None => None,
    }
}

impl Voice {
    /// True if `r` asks this voice to speak `text`.
    pub open spec fn asks(&self, text: Seq<char>, r: SpeechRequest) -> bool {
        &&& r.model@ == "qwen3-tts"@
        &&& r.input@ == text
        &&& r.voice@ == self.name@
        &&& r.response_format@ == "wav"@
        &&& maybe(r.language) == maybe(self.language)
        &&& maybe(r.instruct) == maybe(self.instruct)
    }

    /// The request to speak `text` just as it is.
    pub fn request(&self, text: &str) -> (r: SpeechRequest)
        ensures
            self.asks(text@, r),
    {
        SpeechRequest {
            model: "qwen3-tts".to_owned(),
            input: text.to_owned(),
            voice: self.name.as_str().to_owned(),
            response_format: "wav".to_owned(),
            language: copy_of(&self.language),
            instruct: copy_of(&self.instruct),
        }
    }

    /// The request to speak a chunk, which gets a full stop where it lacks one.
    pub fn chunk_request(&self, text: &str) -> (r: SpeechRequest)
        ensures
            self.asks(punctuated(text@), r),
    {
        let input = ensure_terminal_punctuation(text);
        self.request(input.as_str())
    }
}

/// Those of the first `n` segments that are not blank, trimmed.
pub open spec fn spoken_segments(list: Seq<Seq<char>>, n: int) -> Seq<Seq<char>>
    decreases n,
{
    if n <= 0 {
        Seq::empty()
    } else if trim(list[n - 1]).len() > 0 {
        spoken_segments(list, n - 1).push(trim(list[n - 1]))
    } else {
        spoken_segments(list, n - 1)
    }
}

/// The segments of a transcription as one text.
pub fn join_segments(list: &[String]) -> (r: String)
    ensures
        r@ == join(spoken_segments(texts(list@), list@.len() as int), seq![' ']),
{
    let ghost all = texts(list@);
    let space: [char; 1] = [' '];
    assert(space@ == seq![' ']);
    let mut out: Vec<Vec<char>> = Vec::new();
    let mut i: usize = 0;
    assert(rows(out@) == Seq::<Seq<char>>::empty());
    while i < list.len()
        invariant
            i <= list.len(),
            all == texts(list@),
            rows(out@) == spoken_segments(all, i as int),
        decreases list.len() - i,
    {
        let ghost before = out@;
        let cs = chars_of(list[i].as_str());
        let t = trimmed(cs.as_slice());
        assert(all[i as int] == cs@);
        if t.len() > 0 {
            out.push(t);
            assert(rows(out@) == rows(before).push(t@));
        }
        i += 1;
    }
    let text = join_rows(out.as_slice(), space.as_slice());
    string_of(text.as_slice())
}

/// A text that ends with a full stop, another mark that ends a sentence, or a quote stays as it
/// is, white space behind it and all; any other loses that white space and gets a full stop.
pub proof fn law_punctuation(text: Seq<char>, c: char, space: Seq<char>)
    requires
        !is_white(c),
        is_blank(space),
    ensures
        seq!['.', '!', '?', '\u{2026}', '"', '\''].contains(c) ==> punctuated(
            text.push(c) + space,
        ) == text.push(c) + space,
        !seq!['.', '!', '?', '\u{2026}', '"', '\''].contains(c) ==> punctuated(
            text.push(c) + space,
        ) == text.push(c).push('.'),
        punctuated(space) == seq!['.'],
{
    let list = seq!['.', '!', '?', '\u{2026}', '"', '\''];
    assert(list[0] == '.' && list[1] == '!' && list[2] == '?' && list[3] == '\u{2026}' && list[4]
        == '"' && list[5] == '\'');
    lemma_trim_end_is(text.push(c), space);
    lemma_trim_end_is(Seq::empty(), space);
    assert(Seq::<char>::empty() + space == space);
    assert(Seq::<char>::empty().push('.') == seq!['.']);
}

/// What is left of a text once it is stripped is what is left of its characters, one after the
/// other.
pub proof fn law_stripped_character_by_character(s: Seq<char>)
    ensures
        stripped(s) == s.map_values(|c: char| kept(folded(c))).flatten(),
    decreases s.len(),
{
    let own = |c: char| kept(folded(c));
    let all = s.map_values(own);
    all.lemma_flatten_and_flatten_alt_are_equivalent();
    if s.len() > 0 {
        law_stripped_character_by_character(s.drop_last());
        let front = s.drop_last().map_values(own);
        assert(all.drop_last() == front);
        front.lemma_flatten_and_flatten_alt_are_equivalent();
    }
}

proof fn lemma_stripped_concat(a: Seq<char>, b: Seq<char>)
    ensures
        stripped(a + b) == stripped(a) + stripped(b),
    decreases b.len(),
{
    if b.len() == 0 {
        assert(a + b == a);
        assert(stripped(a) + stripped(b) == stripped(a));
    } else {
        assert((a + b).drop_last() == a + b.drop_last());
        lemma_stripped_concat(a, b.drop_last());
        assert(stripped(a) + (stripped(b.drop_last()) + kept(folded(b.last()))) == (stripped(a)
            + stripped(b.drop_last())) + kept(folded(b.last())));
    }
}

proof fn lemma_stripped_one(c: char)
    ensures
        stripped(seq![c]) == kept(folded(c)),
{
    assert(seq![c].drop_last() == Seq::<char>::empty());
    assert(stripped(seq![c].drop_last()) == Seq::<char>::empty());
    assert(Seq::<char>::empty() + kept(folded(c)) == kept(folded(c)));
}

/// What a typographic sign is read as; nothing if it has no plain form.
pub open spec fn plain_sign(c: char) -> Seq<char> {
    if c == '\u{2018}' || c == '\u{2019}' {
        "'"@
    } else if c == '\u{201C}' || c == '\u{201D}' {
        "\""@
    } else if c == '\u{2026}' {
        "..."@
    } else if c == '\u{2013}' {
        " - "@
    } else if c == '\u{2014}' {
        "  "@
    } else {
        ""@
    }
}

/// A typographic quote, dash or ellipsis makes no difference against the plain signs for it, and a
/// character that is neither one of those, printable ASCII nor white space makes none at all.
pub proof fn law_typographic_signs(a: Seq<char>, c: char, b: Seq<char>)
    requires
        !('!' <= c <= '~'),
        c != ' ' && c != '\n' && c != '\t',
    ensures
        sanitized(a.push(c) + b) == sanitized(a + plain_sign(c) + b),
{
    reveal(Seq::filter);
    reveal_strlit("'");
    reveal_strlit("\"");
    reveal_strlit("...");
    reveal_strlit(" - ");
    reveal_strlit("  ");
    reveal_strlit("");
    reveal_with_fuel(Seq::filter, 4);
    let p = plain_sign(c);
    let one = seq![c];
    assert(a.push(c) == a + one);
    lemma_stripped_concat(a + one, b);
    lemma_stripped_concat(a, one);
    lemma_stripped_one(c);
    lemma_stripped_concat(a + p, b);
    lemma_stripped_concat(a, p);
    lemma_stripped_all_kept(p);
    let f = folded(c);
    if f.len() == 3 {
        assert(f.drop_last().drop_last().drop_last() == Seq::<char>::empty());
        assert(kept(f) == p);
    } else {
        assert(f.drop_last() == Seq::<char>::empty());
        assert(kept(f) == p);
    }
}

proof fn lemma_stripped_all_kept(s: Seq<char>)
    requires
        forall|i: int| 0 <= i < s.len() ==> is_kept(#[trigger] s[i]),
    ensures
        stripped(s) == s,
    decreases s.len(),
{
    if s.len() > 0 {
        let front = s.drop_last();
        let c = s.last();
        assert(is_kept(s[s.len() - 1]));
        assert forall|i: int| 0 <= i < front.len() implies is_kept(#[trigger] front[i]) by {
            assert(front[i] == s[i]);
        }
        lemma_stripped_all_kept(front);
        reveal(Seq::filter);
        let one = seq![c];
        assert(folded(c) == one);
        assert(one.drop_last() == Seq::<char>::empty());
        assert(kept(one) == one);
        assert(front + one == s);
    }
}

/// Printable ASCII text loses nothing but spare white space.
pub proof fn law_plain_text_is_not_changed(s: Seq<char>)
    requires
        forall|i: int|
            0 <= i < s.len() ==> '!' <= #[trigger] s[i] <= '~' || s[i] == ' ' || s[i] == '\n'
                || s[i] == '\t',
    ensures
        sanitized(s) == join(words(s), seq![' ']),
{
    assert forall|i: int| 0 <= i < s.len() implies is_kept(#[trigger] s[i]) by {}
    lemma_stripped_all_kept(s);
}

/// A preview is the beginning of a text, as many characters as asked for if there are so many.
pub proof fn law_preview(s: Seq<char>, n: int)
    requires
        n >= 0,
    ensures
        head(s, n).len() == n || head(s, n).len() < n && head(s, n) == s,
        exists|rest: Seq<char>| s == #[trigger] (head(s, n) + rest),
{
    if s.len() <= n {
        assert(s == head(s, n) + Seq::<char>::empty());
    } else {
        assert(s == head(s, n) + s.skip(n));
    }
}

/// The segments of a transcription that are not blank make it up, all of them, trimmed and in
/// order; its words are those of all segments.
pub proof fn law_segments(list: Seq<Seq<char>>, n: int)
    requires
        0 <= n <= list.len(),
    ensures
        spoken_segments(list, n) == list.take(n).filter(|s: Seq<char>| !is_blank(s)).map_values(
            |s: Seq<char>| trim(s),
        ),
        words(join(spoken_segments(list, n), seq![' '])) == all_words(list.take(n)),
    decreases n,
{
    reveal(Seq::filter);
    let keep = |s: Seq<char>| !is_blank(s);
    let own = |s: Seq<char>| trim(s);
    assert(is_blank(seq![' ']));
    lemma_words_join(spoken_segments(list, n), seq![' ']);
    if n > 0 {
        law_segments(list, n - 1);
        lemma_words_join(spoken_segments(list, n - 1), seq![' ']);
        let s = list[n - 1];
        let before = list.take(n - 1).filter(keep);
        assert(list.take(n).drop_last() == list.take(n - 1));
        lemma_trim(s);
        if is_blank(s) {
            lemma_words_blank(s);
            assert(all_words(list.take(n - 1)) + words(s) == all_words(list.take(n - 1)));
        } else {
            assert(before.push(s).map_values(own) == before.map_values(own).push(trim(s)));
            let said = spoken_segments(list, n);
            assert(said.drop_last() == spoken_segments(list, n - 1));
        }
    } else {
        assert(list.take(n) == Seq::<Seq<char>>::empty());
        assert(spoken_segments(list, n) == Seq::<Seq<char>>::empty());
        assert(list.take(n).filter(keep).map_values(own) == Seq::<Seq<char>>::empty());
    }
}

/// A request asks for WAV audio of the text that was given, by the speaker, in the language and in
/// the style of the voice, each of these only if the voice has one.
pub proof fn law_requests(voice: Voice, text: Seq<char>, r: SpeechRequest)
    requires
        voice.asks(text, r),
    ensures
        r.input@ == text,
        r.voice@ == voice.name@,
        r.model@ == "qwen3-tts"@,
        r.response_format@ == "wav"@,
        r.language is Some <==> voice.language is Some,
        r.language is Some ==> r.language->0@ == voice.language->0@,
        r.instruct is Some <==> voice.instruct is Some,
        r.instruct is Some ==> r.instruct->0@ == voice.instruct->0@,
{
}

} // verus!
