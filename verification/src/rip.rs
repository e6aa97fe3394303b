//! From the lines of a paper to its prose: mending line breaks, leaving out what is not prose,
//! and putting lines together into paragraphs.

use crate::chars::{
    digit_char, is_ascii, is_digit, is_lower, is_upper, is_white, is_whitespace, lowercase,
    uppercase, utf8_width,
};
use crate::chunks::{byte_len, lemma_byte_len_take, lemma_encoded_len};
use crate::glyphs::{scrub, scrubbed};
use crate::text::{
    all_ascii, begins, chars_of, count_words, each_ascii, join, join_rows, lines, lower_all,
    lowered, rows, rows_of, rows_of_slices, same, slices, slices_of, split_lines, stands_at,
    string_of, strings_of, texts, trim, trim_start, trimmed, words,
};
use crate::search::{law_join_concat, law_lines_one_by_one, on_one_line, without_return};
use crate::words::{
    all_words, is_blank, lemma_all_words_concat, lemma_all_words_one, lemma_trim, lemma_trim_end,
    lemma_trim_start, lemma_words_blank, lemma_words_concat, lemma_words_join, lemma_words_nonempty,
};
use vstd::prelude::*;

verus! {

/// True if a hyphen at position `i` of `s` ends a word, and then a line, and the next line goes on
/// with a small letter.
pub open spec fn soft_hyphen(s: Seq<char>, i: int) -> bool {
    &&& 1 <= i && i + 2 < s.len()
    &&& !is_white(s[i - 1]) && s[i - 1] != '-'
    &&& s[i] == '-' && s[i + 1] == '\n' && is_lower(s[i + 2])
}

/// `s` from position `i` on, with the words that line breaks divided put together again.
pub open spec fn rejoined_from(s: Seq<char>, i: int) -> Seq<char>
    decreases (if i < s.len() { s.len() - i } else { 0 }),
{
    if i >= s.len() {
        Seq::empty()
    } else if soft_hyphen(s, i) {
        rejoined_from(s, i + 2)
    } else {
        seq![s[i]] + rejoined_from(s, i + 1)
    }
}

/// `s` with the words that line breaks divided put together again.
pub open spec fn rejoined(s: Seq<char>) -> Seq<char> {
    rejoined_from(s, 0)
}

fn rejoin(cs: &[char]) -> (r: Vec<char>)
    ensures
        r@ == rejoined(cs@),
{
    let mut out: Vec<char> = Vec::new();
    let mut i: usize = 0;
    assert(out@ + rejoined_from(cs@, 0) == rejoined(cs@));
    while i < cs.len()
        invariant
            i <= cs.len(),
            out@ + rejoined_from(cs@, i as int) == rejoined(cs@),
        decreases cs.len() - i,
    {
        let ghost before = out@;
        if cs[i] == '-' && i >= 1 && cs[i - 1] != '-' && !is_whitespace(cs[i - 1]) && cs.len() - i
            > 2 && cs[i + 1] == '\n' && 'a' <= cs[i + 2] && cs[i + 2] <= 'z' {
            assert(soft_hyphen(cs@, i as int));
            i += 2;
        } else {
            assert(!soft_hyphen(cs@, i as int));
            out.push(cs[i]);
            assert(out@ + rejoined_from(cs@, i + 1) == before + (seq![cs@[i as int]]
                + rejoined_from(cs@, i + 1)));
            i += 1;
        }
    }
    assert(out@ + rejoined_from(cs@, cs@.len() as int) == out@);
    out
}

/// Puts words together again that a line break divided: "perturba-\ntion" becomes
/// "perturbation". Only a hyphen goes that ends a word and stands right before a newline and a
/// small letter; dashes and compound words stay.
pub fn rejoin_hyphens(text: &str) -> (r: String)
    ensures
        r@ == rejoined(text@),
{
    let cs = chars_of(text);
    let whole = rejoin(cs.as_slice());
    string_of(whole.as_slice())
}

/// True if `c` can stand around a page number.
pub open spec fn is_rule(c: char) -> bool {
    c == '-' || c == ' '
}

/// True if `t` is a run of one or more digits between hyphens and spaces.
pub open spec fn is_number_line(t: Seq<char>) -> bool {
    exists|a: int, b: int| #[trigger] number_between(t, a, b)
}

pub open spec fn number_between(t: Seq<char>, a: int, b: int) -> bool {
    &&& 0 <= a < b <= t.len()
    &&& forall|i: int| 0 <= i < a ==> is_rule(#[trigger] t[i])
    &&& forall|i: int| a <= i < b ==> is_digit(#[trigger] t[i])
    &&& forall|i: int| b <= i < t.len() ==> is_rule(#[trigger] t[i])
}

fn number_line(t: &[char]) -> (r: bool)
    ensures
        r == is_number_line(t@),
{
    let mut a: usize = 0;
    while a < t.len() && (t[a] == '-' || t[a] == ' ')
        invariant
            a <= t.len(),
            forall|i: int| 0 <= i < a ==> is_rule(#[trigger] t@[i]),
        decreases t.len() - a,
    {
        a += 1;
    }
    if a == t.len() {
        assert forall|x: int, y: int| !number_between(t@, x, y) by {
            if number_between(t@, x, y) {
                assert(is_digit(t@[x]));
                assert(is_rule(t@[x]));
            }
        }
        return false;
    }
    let mut b: usize = t.len();
    while b > a && (t[b - 1] == '-' || t[b - 1] == ' ')
        invariant
            a < t.len(),
            !is_rule(t@[a as int]),
            a < b <= t.len(),
            forall|i: int| b <= i < t.len() ==> is_rule(#[trigger] t@[i]),
        decreases b,
    {
        b -= 1;
    }
    let mut k: usize = a;
    while k < b
        invariant
            a <= k <= b <= t.len(),
            a < b && !is_rule(t@[a as int]) && !is_rule(t@[b - 1]),
            forall|i: int| a <= i < k ==> is_digit(#[trigger] t@[i]),
        decreases b - k,
    {
        if !digit_char(t[k]) {
            assert forall|x: int, y: int| !number_between(t@, x, y) by {
                if number_between(t@, x, y) {
                    assert(!is_digit(t@[k as int]));
                    assert(!(x <= k < y));
                    if k < x {
                        assert(is_rule(t@[a as int]));
                    } else {
                        assert(is_rule(t@[b - 1]));
                    }
                }
            }
            return false;
        }
        k += 1;
    }
    assert(number_between(t@, a as int, b as int));
    true
}

/// True if the line is a page number: digits only, or with hyphens and spaces around them.
pub fn is_page_number(line: &str) -> (r: bool)
    ensures
        r == is_number_line(trim(line@)),
{
    let cs = chars_of(line);
    let t = trimmed(cs.as_slice());
    number_line(t.as_slice())
}

/// Shortest line, in bytes, that needs no full stop to count as prose.
pub const MIN_LINE_LEN: usize = 40;

/// True if `t` begins with "10.", four digits or more, and a slash.
pub open spec fn is_doi(t: Seq<char>) -> bool {
    begins(t, "10."@) && exists|k: int| #[trigger] slash_after(t, k)
}

pub open spec fn slash_after(t: Seq<char>, k: int) -> bool {
    &&& 7 <= k < t.len()
    &&& t[k] == '/'
    &&& forall|i: int| 3 <= i < k ==> is_digit(#[trigger] t[i])
}

/// True if `t` holds an upper-case character and no lower-case one.
pub open spec fn is_all_caps(t: Seq<char>) -> bool {
    &&& exists|i: int| 0 <= i < t.len() && uppercase(#[trigger] t[i])
    &&& forall|i: int| 0 <= i < t.len() ==> !lowercase(#[trigger] t[i])
}

/// True if `t` holds an ASCII capital letter and no small one.
pub open spec fn is_ascii_caps(t: Seq<char>) -> bool {
    &&& exists|i: int| 0 <= i < t.len() && is_upper(#[trigger] t[i])
    &&& forall|i: int| 0 <= i < t.len() ==> !is_lower(#[trigger] t[i])
}

/// True if `t` is too short for a line of prose and does not end a sentence either.
pub open spec fn is_fragment(t: Seq<char>) -> bool {
    &&& byte_len(t) < MIN_LINE_LEN
    &&& t.last() != '.' && t.last() != '?' && t.last() != '!'
}

/// True if the trimmed line `t` is no prose: a fragment, an address, a bare DOI, or all capitals,
/// which `caps` tells.
pub open spec fn is_noise_line(t: Seq<char>, caps: bool) -> bool {
    &&& t.len() > 0
    &&& {
        ||| is_fragment(t)
        ||| begins(t, "http://"@)
        ||| begins(t, "https://"@)
        ||| is_doi(t)
        ||| caps
    }
}

fn begins_with(t: &[char], head: &str) -> (r: bool)
    ensures
        r == begins(t@, head@),
{
    let p = chars_of(head);
    assert(t@.skip(0) == t@);
    stands_at(t, 0, p.as_slice())
}

fn bare_doi(t: &[char]) -> (r: bool)
    ensures
        r == is_doi(t@),
{
    if !begins_with(t, "10.") {
        return false;
    }
    proof {
        reveal_strlit("10.");
    }
    let mut k: usize = 3;
    while k < t.len() && digit_char(t[k])
        invariant
            3 <= k <= t.len(),
            forall|i: int| 3 <= i < k ==> is_digit(#[trigger] t@[i]),
        decreases t.len() - k,
    {
        k += 1;
    }
    if k >= 7 && k < t.len() && t[k] == '/' {
        assert(slash_after(t@, k as int));
        true
    } else {
        assert forall|j: int| !slash_after(t@, j) by {
            if slash_after(t@, j) {
                if j < k {
                    assert(is_digit(t@[j]));
                } else if k < j {
                    assert(is_digit(t@[k as int]));
                }
            }
        }
        false
    }
}

/// True if `t` takes fewer than `limit` bytes.
fn shorter_than(t: &[char], limit: usize) -> (r: bool)
    requires
        limit <= 0xffff,
    ensures
        r == (byte_len(t@) < limit),
{
    let mut n: usize = 0;
    let mut i: usize = 0;
    while i < t.len() && n < limit
        invariant
            i <= t.len(),
            limit <= 0xffff,
            n < limit + 4,
            n == byte_len(t@.take(i as int)),
        decreases t.len() - i,
    {
        assert(t@.take(i + 1).drop_last() == t@.take(i as int));
        n += utf8_width(t[i]);
        i += 1;
    }
    proof {
        assert(t@.take(t@.len() as int) == t@);
        lemma_byte_len_take(t@, i as int, t@.len() as int);
    }
    n < limit
}

fn all_caps(t: &[char]) -> (r: bool)
    ensures
        r == is_all_caps(t@),
        all_ascii(t@) ==> r == is_ascii_caps(t@),
{
    let mut up = false;
    let mut i: usize = 0;
    while i < t.len()
        invariant
            i <= t.len(),
            up == exists|k: int| 0 <= k < i && uppercase(#[trigger] t@[k]),
            forall|k: int| 0 <= k < i ==> !lowercase(#[trigger] t@[k]),
            all_ascii(t@) ==> up == exists|k: int| 0 <= k < i && is_upper(#[trigger] t@[k]),
            all_ascii(t@) ==> forall|k: int| 0 <= k < i ==> !is_lower(#[trigger] t@[k]),
        decreases t.len() - i,
    {
        let c = t[i];
        assert(c == t@[i as int]);
        assert(all_ascii(t@) ==> is_ascii(t@[i as int]));
        if c.is_lowercase() {
            return false;
        }
        if c.is_uppercase() {
            up = true;
        }
        i += 1;
    }
    up
}

fn noise_given(t: &[char], caps: bool) -> (r: bool)
    ensures
        r == is_noise_line(t@, caps),
{
    if t.len() == 0 {
        return false;
    }
    let last = t[t.len() - 1];
    if last != '.' && last != '?' && last != '!' && shorter_than(t, MIN_LINE_LEN) {
        return true;
    }
    begins_with(t, "http://") || begins_with(t, "https://") || bare_doi(t) || caps
}

/// True if the trimmed line is no prose, given whether it is all capitals.
pub fn is_noise_given(line: &str, caps: bool) -> (r: bool)
    ensures
        r == is_noise_line(line@, caps),
{
    let t = chars_of(line);
    noise_given(t.as_slice(), caps)
}

fn noise(t: &[char]) -> (r: bool)
    ensures
        r == is_noise_line(t@, is_all_caps(t@)),
        all_ascii(t@) ==> r == is_noise_line(t@, is_ascii_caps(t@)),
{
    let caps = all_caps(t);
    noise_given(t, caps)
}

proof fn lemma_trim_ascii(s: Seq<char>)
    requires
        all_ascii(s),
    ensures
        all_ascii(trim(s)),
{
    lemma_trim_start(s);
    lemma_trim_end(trim_start(s));
    let n = s.len() - trim_start(s).len();
    assert forall|i: int| 0 <= i < trim(s).len() implies is_ascii(#[trigger] trim(s)[i]) by {
        assert(trim_start(s).take(trim(s).len() as int)[i] == trim_start(s)[i]);
        assert(s.skip(n)[i] == s[n + i]);
    }
}

/// True if the line is no prose: a short line that does not end a sentence, an address, a bare
/// DOI, or a line of capitals. An empty line is not noise.
pub fn is_noise(line: &str) -> (r: bool)
    ensures
        r == is_noise_line(trim(line@), is_all_caps(trim(line@))),
        all_ascii(line@) ==> r == is_noise_line(trim(line@), is_ascii_caps(trim(line@))),
{
    let cs = chars_of(line);
    let t = trimmed(cs.as_slice());
    proof {
        if all_ascii(line@) {
            lemma_trim_ascii(line@);
        }
    }
    noise(t.as_slice())
}

/// True if the trimmed line `t` heads what follows the prose: references, acknowledgements or an
/// appendix.
pub open spec fn is_refs_line(t: Seq<char>) -> bool {
    let l = lowered(t);
    ||| l == "references"@
    ||| l == "bibliography"@
    ||| l == "acknowledgements"@
    ||| l == "acknowledgments"@
    ||| l == "appendix"@
}

fn is_text(t: &[char], text: &str) -> (r: bool)
    ensures
        r == (t@ == text@),
{
    let p = chars_of(text);
    same(t, p.as_slice())
}

fn refs_line(t: &[char]) -> (r: bool)
    ensures
        r == is_refs_line(t@),
{
    let l = lower_all(t);
    is_text(l.as_slice(), "references") || is_text(l.as_slice(), "bibliography") || is_text(
        l.as_slice(),
        "acknowledgements",
    ) || is_text(l.as_slice(), "acknowledgments") || is_text(l.as_slice(), "appendix")
}

/// True if the line is a heading below which everything is left out.
pub fn is_refs_heading(line: &str) -> (r: bool)
    ensures
        r == is_refs_line(trim(line@)),
{
    let cs = chars_of(line);
    let t = trimmed(cs.as_slice());
    refs_line(t.as_slice())
}

/// True if `l` begins with `head` and then a digit.
pub open spec fn is_numbered(l: Seq<char>, head: Seq<char>) -> bool {
    begins(l, head) && head.len() < l.len() && is_digit(l[head.len() as int])
}

/// True if the trimmed line `t` is the caption of a figure or a table.
pub open spec fn is_caption_line(t: Seq<char>) -> bool {
    let l = lowered(t);
    ||| is_numbered(l, "figure "@)
    ||| is_numbered(l, "fig. "@)
    ||| is_numbered(l, "fig "@)
    ||| is_numbered(l, "table "@)
    ||| is_numbered(l, "tbl. "@)
    ||| is_numbered(l, "tbl "@)
}

fn numbered(l: &[char], head: &str) -> (r: bool)
    ensures
        r == is_numbered(l@, head@),
{
    let p = chars_of(head);
    assert(l@.skip(0) == l@);
    stands_at(l, 0, p.as_slice()) && p.len() < l.len() && digit_char(l[p.len()])
}

fn caption_line(t: &[char]) -> (r: bool)
    ensures
        r == is_caption_line(t@),
{
    let l = lower_all(t);
    numbered(l.as_slice(), "figure ") || numbered(l.as_slice(), "fig. ") || numbered(
        l.as_slice(),
        "fig ",
    ) || numbered(l.as_slice(), "table ") || numbered(l.as_slice(), "tbl. ") || numbered(
        l.as_slice(),
        "tbl ",
    )
}

/// True if the line is the caption of a figure or a table.
pub fn is_caption(line: &str) -> (r: bool)
    ensures
        r == is_caption_line(trim(line@)),
{
    let cs = chars_of(line);
    let t = trimmed(cs.as_slice());
    caption_line(t.as_slice())
}

/// True if a heading of the references stands among the first `n` of `list`.
pub open spec fn refs_reached(list: Seq<Seq<char>>, n: int) -> bool {
    exists|i: int| 0 <= i < n && is_refs_line(trim(#[trigger] list[i]))
}

/// True if line `i` of `list` stays; `caps` tells which trimmed lines are all capitals.
pub open spec fn stays(
    list: Seq<Seq<char>>,
    i: int,
    skip_refs: bool,
    skip_captions: bool,
    caps: spec_fn(Seq<char>) -> bool,
) -> bool {
    let t = trim(list[i]);
    ||| t.len() == 0
    ||| {
        &&& !(skip_refs && refs_reached(list, i + 1))
        &&& !is_number_line(t)
        &&& !(skip_captions && is_caption_line(t))
        &&& !is_noise_line(t, caps(t))
    }
}

/// Those of the first `n` of `list` that stay.
pub open spec fn filtered(
    list: Seq<Seq<char>>,
    n: int,
    skip_refs: bool,
    skip_captions: bool,
    caps: spec_fn(Seq<char>) -> bool,
) -> Seq<Seq<char>>
    decreases n,
{
    if n <= 0 {
        Seq::empty()
    } else if stays(list, n - 1, skip_refs, skip_captions, caps) {
        filtered(list, n - 1, skip_refs, skip_captions, caps).push(list[n - 1])
    } else {
        filtered(list, n - 1, skip_refs, skip_captions, caps)
    }
}

/// Which lines are all capitals.
pub open spec fn caps_by_unicode() -> spec_fn(Seq<char>) -> bool {
    |t: Seq<char>| is_all_caps(t)
}

/// Which lines of ASCII characters are all capitals.
pub open spec fn caps_by_ascii() -> spec_fn(Seq<char>) -> bool {
    |t: Seq<char>| is_ascii_caps(t)
}

/// The lines that stay: blank lines and lines of prose, up to the heading of the references if
/// `skip_refs` is set, and without captions if `skip_captions` is set.
pub fn filter_lines<'a>(lines: &[&'a str], skip_refs: bool, skip_captions: bool) -> (r: Vec<&'a str>)
    ensures
        slices(r@) == filtered(
            slices(lines@),
            lines@.len() as int,
            skip_refs,
            skip_captions,
            caps_by_unicode(),
        ),
        each_ascii(slices(lines@)) ==> slices(r@) == filtered(
            slices(lines@),
            lines@.len() as int,
            skip_refs,
            skip_captions,
            caps_by_ascii(),
        ),
{
    let ghost list = slices(lines@);
    let mut out: Vec<&'a str> = Vec::new();
    let mut in_refs = false;
    let mut i: usize = 0;
    assert(slices(out@) == Seq::<Seq<char>>::empty());
    while i < lines.len()
        invariant
            i <= lines.len(),
            list == slices(lines@),
            in_refs == (skip_refs && refs_reached(list, i as int)),
            slices(out@) == filtered(list, i as int, skip_refs, skip_captions, caps_by_unicode()),
            each_ascii(list) ==> slices(out@) == filtered(
                list,
                i as int,
                skip_refs,
                skip_captions,
                caps_by_ascii(),
            ),
        decreases lines.len() - i,
    {
        let line: &'a str = lines[i];
        let cs = chars_of(line);
        let t = trimmed(cs.as_slice());
        let ghost before = out@;
        assert(list[i as int] == line@);
        proof {
            if each_ascii(list) {
                assert(all_ascii(list[i as int]));
                lemma_trim_ascii(line@);
            }
        }
        let heads = refs_line(t.as_slice());
        if skip_refs && heads {
            assert(refs_reached(list, i + 1));
            in_refs = true;
        } else {
            assert(skip_refs ==> refs_reached(list, i + 1) == refs_reached(list, i as int));
        }
        assert(in_refs == (skip_refs && refs_reached(list, i + 1)));
        let keep = t.len() == 0 || !(in_refs || number_line(t.as_slice()) || (skip_captions
            && caption_line(t.as_slice())) || noise(t.as_slice()));
        assert(keep == stays(list, i as int, skip_refs, skip_captions, caps_by_unicode()));
        assert(each_ascii(list) ==> keep == stays(
            list,
            i as int,
            skip_refs,
            skip_captions,
            caps_by_ascii(),
        ));
        if keep {
            out.push(line);
            assert(slices(out@) == slices(before).push(line@));
        }
        i += 1;
    }
    out
}

/// How many lines `list` begins with that are not blank.
pub open spec fn run_len(list: Seq<Seq<char>>) -> nat
    decreases list.len(),
{
    if list.len() == 0 || trim(list[0]).len() == 0 {
        0
    } else {
        1 + run_len(list.skip(1))
    }
}

/// Each of `list` without its leading and trailing white space.
pub open spec fn trims(list: Seq<Seq<char>>) -> Seq<Seq<char>> {
    list.map_values(|l: Seq<char>| trim(l))
}

pub proof fn lemma_run_len(list: Seq<Seq<char>>)
    ensures
        run_len(list) <= list.len(),
        forall|i: int| 0 <= i < run_len(list) ==> trim(#[trigger] list[i]).len() > 0,
    decreases list.len(),
{
    if list.len() > 0 && trim(list[0]).len() > 0 {
        lemma_run_len(list.skip(1));
        assert forall|i: int| 0 <= i < run_len(list) implies trim(#[trigger] list[i]).len() > 0 by {
            if i > 0 {
                assert(list.skip(1)[i - 1] == list[i]);
            }
        }
    }
}

/// The paragraphs of `list`: its maximal runs of lines that are not blank, each trimmed and put
/// together with single spaces.
pub open spec fn prose(list: Seq<Seq<char>>) -> Seq<Seq<char>>
    decreases list.len(),
{
    if list.len() == 0 {
        Seq::empty()
    } else if run_len(list) == 0 {
        prose(list.skip(1))
    } else {
        proof {
            lemma_run_len(list);
        }
        seq![join(trims(list.take(run_len(list) as int)), seq![' '])] + prose(
            list.skip(run_len(list) as int),
        )
    }
}

/// The trimmed lines from position `from` up to the first blank one.
fn run_from(list: &[Vec<char>], from: usize) -> (r: Vec<Vec<char>>)
    requires
        from <= list.len(),
    ensures
        from + r@.len() <= list.len(),
        r@.len() == run_len(rows(list@).skip(from as int)),
        rows(r@) == trims(rows(list@).subrange(from as int, from + r@.len())),
{
    let ghost all = rows(list@);
    let mut out: Vec<Vec<char>> = Vec::new();
    let mut i: usize = from;
    while i < list.len()
        invariant
            from <= i <= list.len(),
            all == rows(list@),
            i == from + out@.len(),
            run_len(all.skip(from as int)) == out@.len() + run_len(all.skip(i as int)),
            rows(out@) == trims(all.subrange(from as int, i as int)),
        decreases list.len() - i,
    {
        let ghost before = out@;
        let t = trimmed(list[i].as_slice());
        assert(all.skip(i as int)[0] == all[i as int]);
        if t.len() == 0 {
            return out;
        }
        assert(all.skip(i as int).skip(1) == all.skip(i + 1));
        out.push(t);
        assert(rows(out@) == rows(before).push(trim(all[i as int])));
        assert(trims(all.subrange(from as int, i + 1)) == trims(
            all.subrange(from as int, i as int),
        ).push(trim(all[i as int])));
        i += 1;
    }
    out
}

fn paragraphs_from(list: &[Vec<char>]) -> (r: Vec<Vec<char>>)
    ensures
        rows(r@) == prose(rows(list@)),
{
    let ghost all = rows(list@);
    let space: [char; 1] = [' '];
    assert(space@ == seq![' ']);
    let mut out: Vec<Vec<char>> = Vec::new();
    let mut i: usize = 0;
    assert(all.skip(0) == all);
    assert(rows(out@) + prose(all) == prose(all));
    while i < list.len()
        invariant
            i <= list.len(),
            all == rows(list@),
            space@ == seq![' '],
            rows(out@) + prose(all.skip(i as int)) == prose(all),
        decreases list.len() - i,
    {
        let ghost rest = all.skip(i as int);
        let ghost before = out@;
        let run = run_from(list, i);
        let n: usize = run.len();
        if n == 0 {
            assert(rest.skip(1) == all.skip(i + 1));
            i += 1;
        } else {
            let text = join_rows(run.as_slice(), space.as_slice());
            assert(all.subrange(i as int, i + n) == rest.take(n as int));
            assert(rest.skip(n as int) == all.skip(i + n));
            out.push(text);
            assert(rows(out@) == rows(before).push(text@));
            assert(rows(out@) + prose(all.skip(i + n)) == rows(before) + (seq![text@] + prose(
                all.skip(i + n),
            )));
            i += n;
        }
    }
    assert(rows(out@) + prose(all.skip(all.len() as int)) == rows(out@));
    out
}

/// Puts each run of lines that are not blank together into one paragraph.
pub fn lines_to_paragraphs(lines: &[&str]) -> (r: Vec<String>)
    ensures
        texts(r@) == prose(slices(lines@)),
{
    let list = rows_of_slices(lines);
    let out = paragraphs_from(list.as_slice());
    strings_of(out.as_slice())
}

/// What is left out of a paper.
pub struct RipConfig {
    pub skip_refs: bool,
    pub skip_captions: bool,
}

/// The prose of a paper as a text document.
pub struct Prose {
    /// The paragraphs with blank lines between them, and a newline at the end.
    pub text: String,
    pub paragraphs: usize,
    pub words: usize,
}

/// Each of `list` scrubbed.
pub open spec fn scrubs(list: Seq<Seq<char>>) -> Seq<Seq<char>> {
    list.map_values(|l: Seq<char>| scrubbed(l))
}

/// The lines of a paper with divided words put together and glyph names replaced.
pub open spec fn mended(list: Seq<Seq<char>>) -> Seq<Seq<char>> {
    scrubs(lines(rejoined(join(list, seq!['\n']))))
}

/// The paragraphs of a paper that has the lines `list`.
pub open spec fn paper_prose(
    list: Seq<Seq<char>>,
    skip_refs: bool,
    skip_captions: bool,
    caps: spec_fn(Seq<char>) -> bool,
) -> Seq<Seq<char>> {
    let whole = mended(list);
    prose(filtered(whole, whole.len() as int, skip_refs, skip_captions, caps))
}

/// The document that holds `paragraphs`.
pub open spec fn document(paragraphs: Seq<Seq<char>>) -> Seq<char> {
    join(paragraphs, seq!['\n', '\n']).push('\n')
}

fn mend(list: &[String]) -> (r: Vec<String>)
    ensures
        texts(r@) == mended(texts(list@)),
{
    let newline: [char; 1] = ['\n'];
    assert(newline@ == seq!['\n']);
    let own = rows_of(list);
    let text = join_rows(own.as_slice(), newline.as_slice());
    let whole = rejoin(text.as_slice());
    let cut = split_lines(whole.as_slice());
    let ghost all = rows(cut@);
    let mut out: Vec<String> = Vec::new();
    let mut i: usize = 0;
    assert(texts(out@) == scrubs(all).take(0));
    while i < cut.len()
        invariant
            i <= cut.len(),
            all == rows(cut@),
            texts(out@) == scrubs(all).take(i as int),
        decreases cut.len() - i,
    {
        let ghost before = out@;
        let clean = scrub(cut[i].as_slice());
        out.push(string_of(clean.as_slice()));
        assert(texts(out@) == texts(before).push(scrubbed(all[i as int])));
        assert(scrubs(all).take(i + 1) == scrubs(all).take(i as int).push(scrubbed(all[i as int])));
        i += 1;
    }
    assert(scrubs(all).take(all.len() as int) == scrubs(all));
    out
}

/// The paragraphs of a paper that has the lines `list`.
pub fn extract_paragraphs(list: &[String], cfg: &RipConfig) -> (r: Vec<String>)
    ensures
        texts(r@) == paper_prose(
            texts(list@),
            cfg.skip_refs,
            cfg.skip_captions,
            caps_by_unicode(),
        ),
        each_ascii(mended(texts(list@))) ==> texts(r@) == paper_prose(
            texts(list@),
            cfg.skip_refs,
            cfg.skip_captions,
            caps_by_ascii(),
        ),
{
    let whole = mend(list);
    let all = slices_of(whole.as_slice());
    let left = filter_lines(all.as_slice(), cfg.skip_refs, cfg.skip_captions);
    lines_to_paragraphs(left.as_slice())
}

/// The document that holds `paragraphs`, or `None` if there are none.
pub fn prose_document(paragraphs: &[String]) -> (r: Option<Prose>)
    ensures
        r is None <==> paragraphs@.len() == 0,
        r matches Some(p) ==> {
            &&& p.text@ == document(texts(paragraphs@))
            &&& p.paragraphs == paragraphs@.len()
            &&& p.words == all_words(texts(paragraphs@)).len()
        },
{
    if paragraphs.len() == 0 {
        return None;
    }
    let gap: [char; 2] = ['\n', '\n'];
    assert(gap@ == seq!['\n', '\n']);
    let list = rows_of(paragraphs);
    let mut all = join_rows(list.as_slice(), gap.as_slice());
    let ghost joined = all@;
    all.push('\n');
    let count: usize = count_words(all.as_slice());
    proof {
        let sep = seq!['\n', '\n'];
        let end = seq!['\n'];
        assert(is_blank(sep));
        assert(is_blank(end));
        lemma_words_join(texts(paragraphs@), sep);
        assert(joined.push('\n') == joined + end);
        lemma_words_concat(joined, end);
        lemma_words_blank(end);
        assert(words(joined) + words(end) == words(joined));
    }
    Some(
        Prose { text: string_of(all.as_slice()), paragraphs: paragraphs.len(), words: count },
    )
}

/// True if `r` is the prose of a paper that has the lines `list`, or `None` where it has none.
pub open spec fn is_rip(
    r: Option<Prose>,
    list: Seq<Seq<char>>,
    skip_refs: bool,
    skip_captions: bool,
) -> bool {
    &&& ripped(r, paper_prose(list, skip_refs, skip_captions, caps_by_unicode()))
    &&& each_ascii(mended(list)) ==> ripped(
        r,
        paper_prose(list, skip_refs, skip_captions, caps_by_ascii()),
    )
}

/// The prose of a paper that has the lines `list`, or `None` if it has none.
pub fn rip_lines(list: &[String], cfg: &RipConfig) -> (r: Option<Prose>)
    ensures
        is_rip(r, texts(list@), cfg.skip_refs, cfg.skip_captions),
{
    let paragraphs = extract_paragraphs(list, cfg);
    prose_document(paragraphs.as_slice())
}

/// The lines of the first `n` of `pages`, each page followed by an empty line.
pub open spec fn paged(pages: Seq<Vec<String>>, n: int) -> Seq<Seq<char>>
    decreases n,
{
    if n <= 0 {
        Seq::empty()
    } else {
        (paged(pages, n - 1) + texts(pages[n - 1]@)).push(Seq::empty())
    }
}

/// The prose of a paper whose pages have the lines `pages`, or `None` if it has none. A page ends
/// with an empty line.
pub fn rip_pages(pages: &[Vec<String>], cfg: &RipConfig) -> (r: Option<Prose>)
    ensures
        is_rip(r, paged(pages@, pages@.len() as int), cfg.skip_refs, cfg.skip_captions),
{
    let mut all: Vec<String> = Vec::new();
    let mut i: usize = 0;
    assert(texts(all@) == paged(pages@, 0));
    while i < pages.len()
        invariant
            i <= pages.len(),
            texts(all@) == paged(pages@, i as int),
        decreases pages.len() - i,
    {
        let ghost before = all@;
        let page = rows_of(pages[i].as_slice());
        let mut own = strings_of(page.as_slice());
        let ghost lines = own@;
        all.append(&mut own);
        assert(texts(all@) == texts(before) + texts(lines));
        let ghost so_far = all@;
        all.push(String::new());
        assert(texts(all@) == texts(so_far).push(Seq::empty()));
        i += 1;
    }
    rip_lines(all.as_slice(), cfg)
}

/// True if `r` is the document of `paragraphs`, or `None` where there are none.
pub open spec fn ripped(r: Option<Prose>, paragraphs: Seq<Seq<char>>) -> bool {
    match r {
        Some(p) => {
            &&& paragraphs.len() > 0
            &&& p.text@ == document(paragraphs)
            &&& p.paragraphs == paragraphs.len()
            &&& p.words == all_words(paragraphs).len()
        },
        None => paragraphs.len() == 0,
    }
}

proof fn lemma_nothing_rejoined(s: Seq<char>, i: int)
    requires
        0 <= i <= s.len(),
        forall|k: int| !soft_hyphen(s, k),
    ensures
        rejoined_from(s, i) == s.skip(i),
    decreases s.len() - i,
{
    if i < s.len() {
        assert(!soft_hyphen(s, i));
        lemma_nothing_rejoined(s, i + 1);
        assert(seq![s[i]] + s.skip(i + 1) == s.skip(i));
    }
}

/// Text without a hyphen that divides a word stays as it is.
pub proof fn law_rejoin_leaves_other_text(s: Seq<char>)
    requires
        forall|i: int| !soft_hyphen(s, i),
    ensures
        rejoined(s) == s,
{
    lemma_nothing_rejoined(s, 0);
    assert(s.skip(0) == s);
}

proof fn lemma_trims_keep_words(list: Seq<Seq<char>>)
    ensures
        all_words(trims(list)) == all_words(list),
    decreases list.len(),
{
    if list.len() > 0 {
        lemma_trims_keep_words(list.drop_last());
        assert(trims(list).drop_last() == trims(list.drop_last()));
        lemma_trim(list.last());
    }
}

/// The paragraphs have the words of the lines, in their order.
pub proof fn law_paragraphs_keep_words(list: Seq<Seq<char>>)
    ensures
        all_words(prose(list)) == all_words(list),
    decreases list.len(),
{
    if list.len() > 0 {
        let k = run_len(list) as int;
        lemma_run_len(list);
        if k == 0 {
            let rest = list.skip(1);
            assert(seq![list[0]] + rest == list);
            lemma_all_words_concat(seq![list[0]], rest);
            lemma_all_words_one(list[0]);
            lemma_trim(list[0]);
            lemma_words_blank(list[0]);
            assert(words(list[0]) + all_words(rest) == all_words(rest));
            law_paragraphs_keep_words(rest);
        } else {
            let run = list.take(k);
            let rest = list.skip(k);
            assert(run + rest == list);
            lemma_all_words_concat(run, rest);
            law_paragraphs_keep_words(rest);
            let p = join(trims(run), seq![' ']);
            assert(is_blank(seq![' ']));
            lemma_words_join(trims(run), seq![' ']);
            lemma_trims_keep_words(run);
            lemma_all_words_one(p);
            lemma_all_words_concat(seq![p], prose(rest));
        }
    }
}

/// A paragraph is never blank.
pub proof fn law_paragraphs_not_blank(list: Seq<Seq<char>>)
    ensures
        forall|i: int| 0 <= i < prose(list).len() ==> words(#[trigger] prose(list)[i]).len() > 0,
    decreases list.len(),
{
    if list.len() > 0 {
        let k = run_len(list) as int;
        lemma_run_len(list);
        if k == 0 {
            law_paragraphs_not_blank(list.skip(1));
            assert(prose(list) == prose(list.skip(1)));
        } else {
            let run = list.take(k);
            let p = join(trims(run), seq![' ']);
            law_paragraphs_not_blank(list.skip(k));
            assert(is_blank(seq![' ']));
            lemma_words_join(trims(run), seq![' ']);
            lemma_trims_keep_words(run);
            assert(run.last() == list[k - 1]);
            lemma_trim(run.last());
            lemma_words_nonempty(run.last());
            assert(all_words(run) == all_words(run.drop_last()) + words(run.last()));
            assert(words(p).len() > 0);
            assert forall|i: int| 0 <= i < prose(list).len() implies words(
                #[trigger] prose(list)[i],
            ).len() > 0 by {
                if i > 0 {
                    assert(prose(list)[i] == prose(list.skip(k))[i - 1]);
                }
            }
        }
    }
}

/// Once a heading of the references is reached, no words below it stay.
pub proof fn law_nothing_after_references(
    list: Seq<Seq<char>>,
    h: int,
    n: int,
    skip_captions: bool,
    caps: spec_fn(Seq<char>) -> bool,
)
    requires
        0 <= h < n <= list.len(),
        is_refs_line(trim(list[h])),
    ensures
        all_words(filtered(list, n, true, skip_captions, caps)) == all_words(
            filtered(list, h, true, skip_captions, caps),
        ),
    decreases n,
{
    let before = filtered(list, n - 1, true, skip_captions, caps);
    if h < n - 1 {
        law_nothing_after_references(list, h, n - 1, skip_captions, caps);
    }
    assert(refs_reached(list, n));
    let line = list[n - 1];
    if stays(list, n - 1, true, skip_captions, caps) {
        lemma_trim(line);
        lemma_words_blank(line);
        assert(before.push(line).drop_last() == before);
        assert(all_words(before) + words(line) == all_words(before));
    }
}

/// True if `line` is blank, or prose in itself.
spec fn passes(
    line: Seq<char>,
    skip_refs: bool,
    skip_captions: bool,
    caps: spec_fn(Seq<char>) -> bool,
) -> bool {
    let t = trim(line);
    ||| t.len() == 0
    ||| {
        &&& !(skip_refs && is_refs_line(t))
        &&& !is_number_line(t)
        &&& !(skip_captions && is_caption_line(t))
        &&& !is_noise_line(t, caps(t))
    }
}

proof fn lemma_filtered_lines(
    list: Seq<Seq<char>>,
    n: int,
    skip_refs: bool,
    skip_captions: bool,
    caps: spec_fn(Seq<char>) -> bool,
)
    requires
        0 <= n <= list.len(),
    ensures
        ({
            let left = filtered(list, n, skip_refs, skip_captions, caps);
            forall|i: int|
                0 <= i < left.len() ==> passes(#[trigger] left[i], skip_refs, skip_captions, caps)
        }),
    decreases n,
{
    if n > 0 {
        lemma_filtered_lines(list, n - 1, skip_refs, skip_captions, caps);
        if stays(list, n - 1, skip_refs, skip_captions, caps) {
            assert(is_refs_line(trim(list[n - 1])) ==> refs_reached(list, n));
            assert(passes(list[n - 1], skip_refs, skip_captions, caps));
        }
        let before = filtered(list, n - 1, skip_refs, skip_captions, caps);
        let left = filtered(list, n, skip_refs, skip_captions, caps);
        assert forall|i: int| 0 <= i < left.len() implies passes(
            #[trigger] left[i],
            skip_refs,
            skip_captions,
            caps,
        ) by {
            if i < before.len() {
                assert(left[i] == before[i]);
            }
        }
    }
}

proof fn lemma_refs_line_not_empty(t: Seq<char>)
    requires
        is_refs_line(t),
    ensures
        t.len() > 0,
{
    reveal_strlit("references");
    reveal_strlit("bibliography");
    reveal_strlit("acknowledgements");
    reveal_strlit("acknowledgments");
    reveal_strlit("appendix");
    assert(lowered(t).len() == t.len());
}

proof fn lemma_filter_all_stay(
    list: Seq<Seq<char>>,
    n: int,
    skip_refs: bool,
    skip_captions: bool,
    caps: spec_fn(Seq<char>) -> bool,
)
    requires
        0 <= n <= list.len(),
        forall|i: int| 0 <= i < list.len() ==> stays(list, i, skip_refs, skip_captions, caps),
    ensures
        filtered(list, n, skip_refs, skip_captions, caps) == list.take(n),
    decreases n,
{
    if n > 0 {
        lemma_filter_all_stay(list, n - 1, skip_refs, skip_captions, caps);
        assert(stays(list, n - 1, skip_refs, skip_captions, caps));
        assert(list.take(n) == list.take(n - 1).push(list[n - 1]));
    }
}

/// Lines that stayed stay when they are filtered again.
pub proof fn law_filter_once(
    list: Seq<Seq<char>>,
    skip_refs: bool,
    skip_captions: bool,
    caps: spec_fn(Seq<char>) -> bool,
)
    ensures
        ({
            let left = filtered(list, list.len() as int, skip_refs, skip_captions, caps);
            filtered(left, left.len() as int, skip_refs, skip_captions, caps) == left
        }),
{
    let left = filtered(list, list.len() as int, skip_refs, skip_captions, caps);
    lemma_filtered_lines(list, list.len() as int, skip_refs, skip_captions, caps);
    assert forall|i: int| 0 <= i < left.len() implies stays(
        left,
        i,
        skip_refs,
        skip_captions,
        caps,
    ) by {
        if skip_refs && refs_reached(left, i + 1) {
            let j = choose|j: int| 0 <= j < i + 1 && is_refs_line(trim(#[trigger] left[j]));
            lemma_refs_line_not_empty(trim(left[j]));
            assert(passes(left[j], skip_refs, skip_captions, caps));
        }
        assert(passes(left[i], skip_refs, skip_captions, caps));
    }
    lemma_filter_all_stay(left, left.len() as int, skip_refs, skip_captions, caps);
    assert(left.take(left.len() as int) == left);
}

/// The lines of a paper are those of all its pages, none lost and none added, with an empty line
/// behind each page.
pub proof fn law_pages_keep_lines(pages: Seq<Vec<String>>, n: int)
    requires
        0 <= n <= pages.len(),
    ensures
        paged(pages, n) == pages.take(n).map_values(
            |p: Vec<String>| texts(p@).push(Seq::empty()),
        ).flatten(),
        all_words(paged(pages, n)) == pages.take(n).map_values(
            |p: Vec<String>| all_words(texts(p@)),
        ).flatten(),
        n > 0 ==> paged(pages, n).len() == paged(pages, n - 1).len() + pages[n - 1]@.len() + 1,
        n > 0 ==> all_words(paged(pages, n)) == all_words(paged(pages, n - 1)) + all_words(
            texts(pages[n - 1]@),
        ),
    decreases n,
{
    let with_gap = |p: Vec<String>| texts(p@).push(Seq::empty());
    let own = |p: Vec<String>| all_words(texts(p@));
    let rows = pages.take(n).map_values(with_gap);
    let counts = pages.take(n).map_values(own);
    rows.lemma_flatten_and_flatten_alt_are_equivalent();
    counts.lemma_flatten_and_flatten_alt_are_equivalent();
    if n > 0 {
        law_pages_keep_lines(pages, n - 1);
        let before = paged(pages, n - 1);
        let page = texts(pages[n - 1]@);
        let front = pages.take(n - 1);
        assert(rows.drop_last() == front.map_values(with_gap));
        assert(counts.drop_last() == front.map_values(own));
        front.map_values(with_gap).lemma_flatten_and_flatten_alt_are_equivalent();
        front.map_values(own).lemma_flatten_and_flatten_alt_are_equivalent();
        assert((before + page).push(Seq::empty()) == before + page.push(Seq::empty()));
        assert(page.len() == pages[n - 1]@.len());
        let all = (before + page).push(Seq::empty());
        assert(all.drop_last() == before + page);
        assert(words(Seq::<char>::empty()) == Seq::<Seq<char>>::empty());
        assert(all_words(before + page) + Seq::<Seq<char>>::empty() == all_words(before + page));
        lemma_all_words_concat(before, page);
    }
}

/// Where no heading of the references stands, or they are wanted, a line stays exactly if it is
/// blank, or neither a page number, a caption that is not wanted, nor noise.
pub proof fn law_filter_takes_prose(
    list: Seq<Seq<char>>,
    n: int,
    skip_refs: bool,
    skip_captions: bool,
    caps: spec_fn(Seq<char>) -> bool,
)
    requires
        0 <= n <= list.len(),
        skip_refs ==> forall|i: int| 0 <= i < n ==> !is_refs_line(trim(#[trigger] list[i])),
    ensures
        filtered(list, n, skip_refs, skip_captions, caps) == list.take(n).filter(
            |l: Seq<char>|
                is_blank(l) || !(is_number_line(trim(l)) || (skip_captions && is_caption_line(
                    trim(l),
                )) || is_noise_line(trim(l), caps(trim(l)))),
        ),
    decreases n,
{
    reveal(Seq::filter);
    if n > 0 {
        law_filter_takes_prose(list, n - 1, skip_refs, skip_captions, caps);
        assert(list.take(n).drop_last() == list.take(n - 1));
        assert(list.take(n).last() == list[n - 1]);
        lemma_trim(list[n - 1]);
        assert(!(skip_refs && refs_reached(list, n)));
    } else {
        assert(list.take(n) == Seq::<Seq<char>>::empty());
    }
}

/// From a heading of the references on, only blank lines stay, and what stands above it is left
/// as if it were all.
pub proof fn law_filter_ends_at_references(
    list: Seq<Seq<char>>,
    h: int,
    n: int,
    skip_captions: bool,
    caps: spec_fn(Seq<char>) -> bool,
)
    requires
        0 <= h < n <= list.len(),
        is_refs_line(trim(list[h])),
    ensures
        filtered(list, n, true, skip_captions, caps) == filtered(
            list.take(h),
            h,
            true,
            skip_captions,
            caps,
        ) + list.subrange(h, n).filter(|l: Seq<char>| is_blank(l)),
    decreases n,
{
    reveal(Seq::filter);
    let blank = |l: Seq<char>| is_blank(l);
    lemma_trim(list[n - 1]);
    assert(refs_reached(list, n));
    let part = list.subrange(h, n);
    assert(part.drop_last() == list.subrange(h, n - 1));
    assert(part.last() == list[n - 1]);
    lemma_filtered_of_front(list, h, h, skip_captions, caps);
    let above = filtered(list.take(h), h, true, skip_captions, caps);
    if h < n - 1 {
        law_filter_ends_at_references(list, h, n - 1, skip_captions, caps);
    } else {
        assert(list.subrange(h, n - 1) == Seq::<Seq<char>>::empty());
        assert(above + Seq::<Seq<char>>::empty() == above);
    }
    let before = list.subrange(h, n - 1).filter(blank);
    assert(above + before.push(list[n - 1]) == (above + before).push(list[n - 1]));
}

proof fn lemma_filtered_of_front(
    list: Seq<Seq<char>>,
    h: int,
    n: int,
    skip_captions: bool,
    caps: spec_fn(Seq<char>) -> bool,
)
    requires
        0 <= n <= h <= list.len(),
    ensures
        filtered(list, n, true, skip_captions, caps) == filtered(
            list.take(h),
            n,
            true,
            skip_captions,
            caps,
        ),
    decreases n,
{
    if n > 0 {
        lemma_filtered_of_front(list, h, n - 1, skip_captions, caps);
        let front = list.take(h);
        assert(refs_reached(list, n) == refs_reached(front, n)) by {
            if refs_reached(list, n) {
                let i = choose|i: int| 0 <= i < n && is_refs_line(trim(#[trigger] list[i]));
                assert(front[i] == list[i]);
            }
            if refs_reached(front, n) {
                let i = choose|i: int| 0 <= i < n && is_refs_line(trim(#[trigger] front[i]));
                assert(front[i] == list[i]);
            }
        }
        assert(front[n - 1] == list[n - 1]);
    }
}

/// Lines none of which is blank make one paragraph.
pub proof fn law_run_is_a_paragraph(list: Seq<Seq<char>>)
    requires
        list.len() > 0,
        forall|i: int| 0 <= i < list.len() ==> !is_blank(#[trigger] list[i]),
    ensures
        prose(list) == seq![join(list.map_values(|l: Seq<char>| trim(l)), seq![' '])],
{
    lemma_whole_run(list);
    assert(list.take(list.len() as int) == list);
    let rest = list.skip(list.len() as int);
    assert(prose(rest) == Seq::<Seq<char>>::empty());
    let p = join(trims(list), seq![' ']);
    assert(seq![p] + Seq::<Seq<char>>::empty() == seq![p]);
}

proof fn lemma_whole_run(list: Seq<Seq<char>>)
    requires
        forall|i: int| 0 <= i < list.len() ==> !is_blank(#[trigger] list[i]),
    ensures
        run_len(list) == list.len(),
    decreases list.len(),
{
    if list.len() > 0 {
        assert(!is_blank(list[0]));
        lemma_trim(list[0]);
        let rest = list.skip(1);
        assert forall|i: int| 0 <= i < rest.len() implies !is_blank(#[trigger] rest[i]) by {
            assert(rest[i] == list[i + 1]);
        }
        lemma_whole_run(rest);
    }
}

/// A blank line separates paragraphs: those before it and those after it are put together apart.
pub proof fn law_blank_line_separates(a: Seq<Seq<char>>, blank: Seq<char>, b: Seq<Seq<char>>)
    requires
        is_blank(blank),
    ensures
        prose(a.push(blank) + b) == prose(a) + prose(b),
    decreases a.len(),
{
    let all = a.push(blank) + b;
    lemma_trim(blank);
    if a.len() == 0 {
        assert(all[0] == blank);
        assert(all.skip(1) == b);
        assert(prose(a) + prose(b) == prose(b));
    } else {
        let k = run_len(a) as int;
        lemma_run_len(a);
        lemma_run_stops(a, blank, b);
        if k == 0 {
            assert(all.skip(1) == a.skip(1).push(blank) + b);
            law_blank_line_separates(a.skip(1), blank, b);
        } else {
            assert(all.take(k) == a.take(k));
            assert(all.skip(k) == a.skip(k).push(blank) + b);
            law_blank_line_separates(a.skip(k), blank, b);
            let p = join(trims(a.take(k)), seq![' ']);
            assert(seq![p] + (prose(a.skip(k)) + prose(b)) == (seq![p] + prose(a.skip(k)))
                + prose(b));
        }
    }
}

proof fn lemma_run_stops(a: Seq<Seq<char>>, blank: Seq<char>, b: Seq<Seq<char>>)
    requires
        trim(blank).len() == 0,
    ensures
        run_len(a.push(blank) + b) == run_len(a),
    decreases a.len(),
{
    let all = a.push(blank) + b;
    if a.len() == 0 {
        assert(all[0] == blank);
    } else {
        assert(all[0] == a[0]);
        if trim(a[0]).len() > 0 {
            assert(all.skip(1) == a.skip(1).push(blank) + b);
            lemma_run_stops(a.skip(1), blank, b);
        }
    }
}

proof fn lemma_rejoined_up_to(s: Seq<char>, i: int, k: int)
    requires
        0 <= k <= i <= s.len(),
        forall|j: int| k <= j < i ==> !soft_hyphen(s, j),
    ensures
        rejoined_from(s, k) == s.subrange(k, i) + rejoined_from(s, i),
    decreases i - k,
{
    if k < i {
        assert(!soft_hyphen(s, k));
        lemma_rejoined_up_to(s, i, k + 1);
        assert(seq![s[k]] + (s.subrange(k + 1, i) + rejoined_from(s, i)) == s.subrange(k, i)
            + rejoined_from(s, i));
    } else {
        assert(s.subrange(k, i) + rejoined_from(s, i) == rejoined_from(s, i));
    }
}

proof fn lemma_rejoined_shift(s: Seq<char>, d: int, i: int)
    requires
        0 <= d,
        1 <= i,
        d + i <= s.len(),
    ensures
        rejoined_from(s, d + i) == rejoined_from(s.skip(d), i),
    decreases s.len() - i,
{
    let t = s.skip(d);
    if i < t.len() {
        assert(soft_hyphen(s, d + i) == soft_hyphen(t, i));
        if soft_hyphen(t, i) {
            lemma_rejoined_shift(s, d, i + 2);
        } else {
            lemma_rejoined_shift(s, d, i + 1);
        }
    }
}

/// A hyphen divides a word only where it follows a character of the word and a newline and a small
/// letter follow it: not behind white space or another hyphen, and not before anything else.
pub proof fn law_soft_hyphens(s: Seq<char>, i: int)
    ensures
        soft_hyphen(s, i) <==> exists|a: Seq<char>, c: char, d: char, b: Seq<char>|
            {
                &&& a.len() == i - 1
                &&& !is_white(c) && c != '-'
                &&& 'a' <= d <= 'z'
                &&& s == #[trigger] hyphenated(a, c, d, b)
            },
{
    if soft_hyphen(s, i) {
        let a = s.take(i - 1);
        let b = s.skip(i + 3);
        assert(s == hyphenated(a, s[i - 1], s[i + 2], b));
    }
    if exists|a: Seq<char>, c: char, d: char, b: Seq<char>|
        {
            &&& a.len() == i - 1
            &&& !is_white(c) && c != '-'
            &&& 'a' <= d <= 'z'
            &&& s == #[trigger] hyphenated(a, c, d, b)
        } {
        let (a, c, d, b) = choose|a: Seq<char>, c: char, d: char, b: Seq<char>|
            {
                &&& a.len() == i - 1
                &&& !is_white(c) && c != '-'
                &&& 'a' <= d <= 'z'
                &&& s == #[trigger] hyphenated(a, c, d, b)
            };
        assert(s[i - 1] == c && s[i] == '-' && s[i + 1] == '\n' && s[i + 2] == d);
    }
}

/// A text with a hyphen and a line break between `c` and `d`.
pub open spec fn hyphenated(a: Seq<char>, c: char, d: char, b: Seq<char>) -> Seq<char> {
    a + seq![c, '-', '\n', d] + b
}

/// The first hyphen that divides a word at the end of a line goes with its line break, what stands
/// before it stays as it is, and what follows is mended for itself.
pub proof fn law_divided_word_is_rejoined(s: Seq<char>, a: Seq<char>, b: Seq<char>)
    requires
        s == a + seq!['-', '\n'] + b,
        a.len() > 0 && !is_white(a.last()) && a.last() != '-',
        b.len() > 0 && 'a' <= b[0] <= 'z',
        forall|j: int| j < a.len() ==> !#[trigger] soft_hyphen(s, j),
    ensures
        rejoined(s) == a + rejoined(b),
{
    let n = a.len() as int;
    lemma_rejoined_up_to(s, n, 0);
    assert(s.subrange(0, n) == a);
    assert(s[n - 1] == a.last());
    assert(s[n + 2] == b[0]);
    assert(soft_hyphen(s, n));
    assert(s.skip(n + 2) == b);
    assert(!soft_hyphen(s, n + 2));
    assert(!soft_hyphen(b, 0));
    lemma_rejoined_shift(s, n + 2, 1);
    assert(rejoined_from(s, n) == rejoined_from(s, n + 2));
    assert(rejoined_from(s, n + 2) == seq![b[0]] + rejoined_from(s, n + 3));
    assert(rejoined_from(b, 0) == seq![b[0]] + rejoined_from(b, 1));
}

/// The paper's lines are mended one by one: if no line holds a newline or ends with a carriage
/// return, no word is divided, and the last line is not empty, each line is scrubbed for itself,
/// and none is lost.
pub proof fn law_lines_are_mended_one_by_one(list: Seq<Seq<char>>, text: Seq<char>)
    requires
        text == join(list, seq!['\n']),
        list.len() > 0,
        list.last().len() > 0,
        forall|i: int| 0 <= i < list.len() ==> on_one_line(#[trigger] list[i]),
        forall|i: int| 0 <= i < list.len() ==> without_return(#[trigger] list[i]) == list[i],
        forall|j: int| !#[trigger] soft_hyphen(text, j),
    ensures
        mended(list) == list.map_values(|l: Seq<char>| scrubbed(l)),
{
    law_rejoin_leaves_other_text(text);
    lemma_lines_of_join(list);
}

proof fn lemma_lines_of_join(list: Seq<Seq<char>>)
    requires
        list.len() > 0,
        list.last().len() > 0,
        forall|i: int| 0 <= i < list.len() ==> on_one_line(#[trigger] list[i]),
        forall|i: int| 0 <= i < list.len() ==> without_return(#[trigger] list[i]) == list[i],
    ensures
        lines(join(list, seq!['\n'])) == list,
    decreases list.len(),
{
    let nl = seq!['\n'];
    let a = list[0];
    assert(on_one_line(a));
    if list.len() == 1 {
        law_lines_one_by_one(a, Seq::empty());
        assert(list == seq![a]);
    } else {
        let rest = list.skip(1);
        assert forall|i: int| 0 <= i < rest.len() implies on_one_line(#[trigger] rest[i]) by {
            assert(rest[i] == list[i + 1]);
        }
        assert forall|i: int| 0 <= i < rest.len() implies without_return(#[trigger] rest[i])
            == rest[i] by {
            assert(rest[i] == list[i + 1]);
        }
        lemma_lines_of_join(rest);
        assert(list == seq![a] + rest);
        law_join_concat(seq![a], rest, nl);
        law_lines_one_by_one(a, join(rest, nl));
        assert(a + nl + join(rest, nl) == a.push('\n') + join(rest, nl));
        assert(without_return(list[0]) == list[0]);
    }
}

/// The document that comes out has the words of the lines that stayed, in their order, no others,
/// and there is none exactly if no words stayed. Its paragraphs stand between blank lines, and
/// their number and that of the words are told.
pub proof fn law_document_has_the_prose(
    r: Option<Prose>,
    list: Seq<Seq<char>>,
    skip_refs: bool,
    skip_captions: bool,
)
    requires
        is_rip(r, list, skip_refs, skip_captions),
    ensures
        ({
            let whole = mended(list);
            let left = filtered(
                whole,
                whole.len() as int,
                skip_refs,
                skip_captions,
                |t: Seq<char>| is_all_caps(t),
            );
            &&& r is None <==> all_words(left).len() == 0
            &&& r matches Some(p) ==> {
                &&& words(p.text@) == all_words(left)
                &&& p.words == all_words(left).len()
                &&& p.paragraphs == prose(left).len()
                &&& p.text@ == join(prose(left), seq!['\n', '\n']) + seq!['\n']
            }
        }),
{
    let whole = mended(list);
    let caps = |t: Seq<char>| is_all_caps(t);
    let left = filtered(whole, whole.len() as int, skip_refs, skip_captions, caps);
    let ps = prose(left);
    law_paragraphs_keep_words(left);
    law_paragraphs_not_blank(left);
    if ps.len() > 0 {
        assert(words(ps[ps.len() - 1]).len() > 0);
        assert(all_words(ps) == all_words(ps.drop_last()) + words(ps.last()));
        let sep = seq!['\n', '\n'];
        let end = seq!['\n'];
        assert(is_blank(sep));
        assert(is_blank(end));
        lemma_words_join(ps, sep);
        assert(document(ps) == join(ps, sep) + end);
        lemma_words_concat(join(ps, sep), end);
        lemma_words_blank(end);
        assert(words(join(ps, sep)) + words(end) == words(join(ps, sep)));
    }
}

/// A page number is one or more digits with nothing but hyphens and spaces around them.
pub proof fn law_page_numbers(before: Seq<char>, digits: Seq<char>, after: Seq<char>)
    requires
        forall|i: int| 0 <= i < before.len() ==> #[trigger] before[i] == '-' || before[i] == ' ',
        forall|i: int| 0 <= i < after.len() ==> #[trigger] after[i] == '-' || after[i] == ' ',
        forall|i: int| 0 <= i < digits.len() ==> '0' <= #[trigger] digits[i] <= '9',
    ensures
        is_number_line(before + digits + after) <==> digits.len() > 0,
{
    let s = before + digits + after;
    let a = before.len() as int;
    let b = a + digits.len();
    if digits.len() > 0 {
        assert(number_between(s, a, b));
    } else if is_number_line(s) {
        let (x, y) = choose|x: int, y: int| #[trigger] number_between(s, x, y);
        assert(is_digit(s[x]));
        if x < a {
            assert(s[x] == before[x]);
        } else {
            assert(s[x] == after[x - a]);
        }
    }
}

/// A line with a character that is neither a digit, a hyphen nor a space is no page number, nor is
/// one with a hyphen or a space between digits.
pub proof fn law_other_lines_are_no_page_numbers(s: Seq<char>, i: int, j: int, k: int)
    requires
        0 <= i <= j <= k < s.len(),
        !('0' <= s[j] <= '9'),
        (s[j] != '-' && s[j] != ' ') || ('0' <= s[i] <= '9' && '0' <= s[k] <= '9'),
    ensures
        !is_number_line(s),
{
    if is_number_line(s) {
        let (x, y) = choose|x: int, y: int| #[trigger] number_between(s, x, y);
        assert(is_digit(s[x]));
        if j < x {
            assert(is_rule(s[j]));
            assert(is_rule(s[i]));
        } else if j >= y {
            assert(is_rule(s[j]));
            assert(is_rule(s[k]));
        } else {
            assert(is_digit(s[j]));
        }
    }
}

/// A bare DOI is "10.", four digits or more, a slash, and anything.
pub proof fn law_bare_dois(digits: Seq<char>, rest: Seq<char>)
    requires
        forall|i: int| 0 <= i < digits.len() ==> '0' <= #[trigger] digits[i] <= '9',
        rest.len() > 0,
        !('0' <= rest[0] <= '9'),
    ensures
        is_doi("10."@ + digits + rest) <==> digits.len() >= 4 && rest[0] == '/',
{
    reveal_strlit("10.");
    let s = "10."@ + digits + rest;
    let n = 3 + digits.len() as int;
    assert(s.take(3) == "10."@);
    assert(s[n] == rest[0]);
    assert forall|i: int| 3 <= i < n implies is_digit(#[trigger] s[i]) by {
        assert(s[i] == digits[i - 3]);
    }
    if digits.len() >= 4 && rest[0] == '/' {
        assert(slash_after(s, n));
    }
    if is_doi(s) {
        let k = choose|k: int| #[trigger] slash_after(s, k);
        if k < n {
            assert(is_digit(s[k]));
        } else if k > n {
            assert(is_digit(s[n]));
        }
    }
}

/// A caption is one of six words, however its letters are written, with a digit behind it.
pub proof fn law_captions(t: Seq<char>)
    ensures
        is_caption_line(t) <==> exists|k: int, d: char, rest: Seq<char>|
            0 <= k < 6 && '0' <= d <= '9' && lowered(t) == #[trigger] captioned(k, d, rest),
{
    let l = lowered(t);
    let heads = caption_heads();
    if is_caption_line(t) {
        let k = if is_numbered(l, "figure "@) {
            0int
        } else if is_numbered(l, "fig. "@) {
            1
        } else if is_numbered(l, "fig "@) {
            2
        } else if is_numbered(l, "table "@) {
            3
        } else if is_numbered(l, "tbl. "@) {
            4
        } else {
            5
        };
        let head = heads[k];
        let n = head.len() as int;
        let d = l[n];
        let rest = l.skip(n + 1);
        assert(l.take(n) == head);
        assert(l == head.push(d) + rest);
        assert(captioned(k, d, rest) == l);
    }
    if exists|k: int, d: char, rest: Seq<char>|
        0 <= k < 6 && '0' <= d <= '9' && l == #[trigger] captioned(k, d, rest) {
        let (k, d, rest) = choose|k: int, d: char, rest: Seq<char>|
            0 <= k < 6 && '0' <= d <= '9' && l == #[trigger] captioned(k, d, rest);
        let head = heads[k];
        assert(l.take(head.len() as int) == head);
        assert(l[head.len() as int] == d);
    }
}

/// The words that a caption begins with.
pub open spec fn caption_heads() -> Seq<Seq<char>> {
    seq!["figure "@, "fig. "@, "fig "@, "table "@, "tbl. "@, "tbl "@]
}

/// A caption in small letters.
pub open spec fn captioned(k: int, d: char, rest: Seq<char>) -> Seq<char> {
    caption_heads()[k].push(d) + rest
}

/// Nothing but five headings, however their letters are written, ends the prose.
pub proof fn law_reference_headings(t: Seq<char>)
    ensures
        is_refs_line(t) <==> seq![
            "references"@,
            "bibliography"@,
            "acknowledgements"@,
            "acknowledgments"@,
            "appendix"@,
        ].contains(lowered(t)),
{
    let list = seq![
        "references"@,
        "bibliography"@,
        "acknowledgements"@,
        "acknowledgments"@,
        "appendix"@,
    ];
    assert(list[0] == "references"@ && list[1] == "bibliography"@ && list[2]
        == "acknowledgements"@ && list[3] == "acknowledgments"@ && list[4] == "appendix"@);
}

/// A line that ends a sentence, or has 40 bytes or more, is noise only if it is an address, a bare
/// DOI or all capitals; a shorter one that ends no sentence always is.
pub proof fn law_noise(t: Seq<char>, caps: bool)
    requires
        t.len() > 0,
    ensures
        ({
            let ends = t.last() == '.' || t.last() == '?' || t.last() == '!';
            let long = vstd::utf8::encode_utf8(t).len() >= 40;
            &&& !ends && !long ==> is_noise_line(t, caps)
            &&& ends || long ==> (is_noise_line(t, caps) <==> {
                ||| caps
                ||| is_doi(t)
                ||| exists|rest: Seq<char>| t == #[trigger] ("http://"@ + rest)
                ||| exists|rest: Seq<char>| t == #[trigger] ("https://"@ + rest)
            })
        }),
{
    lemma_encoded_len(t);
    lemma_begins(t, "http://"@);
    lemma_begins(t, "https://"@);
}

proof fn lemma_begins(t: Seq<char>, head: Seq<char>)
    ensures
        begins(t, head) <==> exists|rest: Seq<char>| t == #[trigger] (head + rest),
{
    if begins(t, head) {
        assert(t == head + t.skip(head.len() as int));
    }
    if exists|rest: Seq<char>| t == #[trigger] (head + rest) {
        let rest = choose|rest: Seq<char>| t == #[trigger] (head + rest);
        assert(t.take(head.len() as int) == head);
    }
}

/// A line is all capitals if it has capital letters and no small ones.
pub proof fn law_all_capitals(t: Seq<char>)
    ensures
        is_ascii_caps(t) <==> t.filter(|c: char| 'A' <= c <= 'Z').len() > 0 && t.filter(
            |c: char| 'a' <= c <= 'z',
        ).len() == 0,
        is_all_caps(t) <==> t.filter(|c: char| uppercase(c)).len() > 0 && t.filter(
            |c: char| lowercase(c),
        ).len() == 0,
        caps_by_unicode()(t) == is_all_caps(t),
        caps_by_ascii()(t) == is_ascii_caps(t),
{
    lemma_filter_any(t, |c: char| 'A' <= c <= 'Z');
    lemma_filter_any(t, |c: char| 'a' <= c <= 'z');
    lemma_filter_any(t, |c: char| uppercase(c));
    lemma_filter_any(t, |c: char| lowercase(c));
    let up = |c: char| 'A' <= c <= 'Z';
    let low = |c: char| 'a' <= c <= 'z';
    let upper_case = |c: char| uppercase(c);
    let lower_case = |c: char| lowercase(c);
    assert(forall|i: int| 0 <= i < t.len() ==> up(#[trigger] t[i]) == is_upper(t[i]));
    assert(forall|i: int| 0 <= i < t.len() ==> low(#[trigger] t[i]) == is_lower(t[i]));
    assert(forall|i: int| 0 <= i < t.len() ==> upper_case(#[trigger] t[i]) == uppercase(t[i]));
    assert(forall|i: int| 0 <= i < t.len() ==> lower_case(#[trigger] t[i]) == lowercase(t[i]));
}

proof fn lemma_filter_any(t: Seq<char>, ok: spec_fn(char) -> bool)
    ensures
        t.filter(ok).len() > 0 <==> exists|i: int| 0 <= i < t.len() && ok(#[trigger] t[i]),
    decreases t.len(),
{
    reveal(Seq::filter);
    if t.len() > 0 {
        let front = t.drop_last();
        lemma_filter_any(front, ok);
        if exists|i: int| 0 <= i < front.len() && ok(#[trigger] front[i]) {
            let i = choose|i: int| 0 <= i < front.len() && ok(#[trigger] front[i]);
            assert(ok(t[i]));
        }
        if exists|i: int| 0 <= i < t.len() && ok(#[trigger] t[i]) {
            let i = choose|i: int| 0 <= i < t.len() && ok(#[trigger] t[i]);
            if i < front.len() {
                assert(ok(front[i]));
            }
        }
        if ok(t.last()) {
            assert(ok(t[t.len() - 1]));
        }
    }
}

proof fn lemma_rejoined_alike(a: Seq<char>, b: Seq<char>, i: int)
    requires
        0 <= i <= a.len(),
        a.len() > 0 && !is_white(a.last()) && a.last() != '-',
        b.len() > 0 && is_lower(b[0]),
    ensures
        rejoined_from(a + seq!['-', '\n'] + b, i) == rejoined_from(a + b, i),
    decreases a.len() - i,
{
    let s = a + seq!['-', '\n'] + b;
    let u = a + b;
    let n = a.len() as int;
    assert(a.last() == a[n - 1]);
    if i == n {
        assert(s[n - 1] == a[n - 1]);
        assert(s[n + 2] == b[0]);
        assert(soft_hyphen(s, n));
        assert(s.skip(n + 2) == b);
        assert(u.skip(n) == b);
        lemma_rejoined_shift(s, n + 2, 1);
        lemma_rejoined_shift(u, n, 1);
        assert(rejoined_from(s, n) == rejoined_from(s, n + 2));
        assert(!soft_hyphen(s, n + 2));
        assert(!soft_hyphen(u, n));
        assert(u[n] == b[0]);
        assert(rejoined_from(s, n + 2) == seq![b[0]] + rejoined_from(s, n + 3));
        assert(rejoined_from(u, n) == seq![b[0]] + rejoined_from(u, n + 1));
    } else {
        assert(s[i] == a[i] && u[i] == a[i]);
        if i > 0 {
            assert(s[i - 1] == a[i - 1] && u[i - 1] == a[i - 1]);
        }
        if i + 2 < n {
            assert(s[i + 1] == a[i + 1] && u[i + 1] == a[i + 1]);
            assert(s[i + 2] == a[i + 2] && u[i + 2] == a[i + 2]);
            assert(soft_hyphen(s, i) == soft_hyphen(u, i));
        } else if i + 2 == n {
            assert(s[i + 1] == a[n - 1] && u[i + 1] == a[n - 1]);
            assert(!soft_hyphen(s, i));
            assert(!soft_hyphen(u, i));
        } else {
            assert(!soft_hyphen(s, i));
            assert(!soft_hyphen(u, i));
        }
        if soft_hyphen(s, i) {
            lemma_rejoined_alike(a, b, i + 2);
        } else {
            lemma_rejoined_alike(a, b, i + 1);
        }
    }
}

/// A word that is divided at the end of a line is mended as if it stood on one line.
pub proof fn law_divided_lines_are_mended(
    before: Seq<Seq<char>>,
    x: Seq<char>,
    y: Seq<char>,
    after: Seq<Seq<char>>,
)
    requires
        x.len() > 0 && !is_white(x.last()) && x.last() != '-',
        y.len() > 0 && 'a' <= y[0] <= 'z',
    ensures
        mended(before + seq![x.push('-'), y] + after) == mended(before + seq![x + y] + after),
{
    let nl = seq!['\n'];
    let none = Seq::<char>::empty();
    let pre = if before.len() > 0 {
        join(before, nl) + nl
    } else {
        none
    };
    let post = if after.len() > 0 {
        nl + join(after, nl)
    } else {
        none
    };
    let a = pre + x;
    let b = y + post;
    let two = seq![x.push('-'), y];
    let one = seq![x + y];
    assert(two == seq![x.push('-')] + seq![y]);
    law_join_concat(seq![x.push('-')], seq![y], nl);
    assert(join(two, nl) == x.push('-') + nl + y);
    lemma_join_around(before, two, after, pre, post);
    lemma_join_around(before, one, after, pre, post);
    let s = a + seq!['-', '\n'] + b;
    assert(pre + join(two, nl) + post == s);
    assert(pre + join(one, nl) + post == a + b);
    assert(a.last() == x.last());
    assert(b[0] == y[0]);
    lemma_rejoined_alike(a, b, 0);
}

proof fn lemma_join_around(
    before: Seq<Seq<char>>,
    mid: Seq<Seq<char>>,
    after: Seq<Seq<char>>,
    pre: Seq<char>,
    post: Seq<char>,
)
    requires
        mid.len() > 0,
        pre == if before.len() > 0 {
            join(before, seq!['\n']) + seq!['\n']
        } else {
            Seq::<char>::empty()
        },
        post == if after.len() > 0 {
            seq!['\n'] + join(after, seq!['\n'])
        } else {
            Seq::<char>::empty()
        },
    ensures
        join(before + mid + after, seq!['\n']) == pre + join(mid, seq!['\n']) + post,
{
    let nl = seq!['\n'];
    let m = join(mid, nl);
    let front = before + mid;
    if before.len() > 0 {
        law_join_concat(before, mid, nl);
    } else {
        assert(front == mid);
        assert(pre + m == m);
    }
    assert(join(front, nl) == pre + m);
    if after.len() > 0 {
        law_join_concat(front, after, nl);
        assert(pre + m + nl + join(after, nl) == pre + m + (nl + join(after, nl)));
    } else {
        assert(front + after == front);
        assert(pre + m + post == pre + m);
    }
}

} // verus!
