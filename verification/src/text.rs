//! Strings as sequences of characters: trimming, words, joining, searching and replacing.

use crate::chars::{is_ascii, is_white, is_whitespace, to_lower};
use vstd::prelude::*;

verus! {

/// The texts that a list of strings holds.
pub open spec fn texts(v: Seq<String>) -> Seq<Seq<char>> {
    v.map_values(|s: String| s@)
}

/// The texts that a list of string slices holds.
pub open spec fn slices(v: Seq<&str>) -> Seq<Seq<char>> {
    v.map_values(|s: &str| s@)
}

/// The texts that a list of character lists holds.
pub open spec fn rows(v: Seq<Vec<char>>) -> Seq<Seq<char>> {
    v.map_values(|r: Vec<char>| r@)
}

/// True if all of `s` is ASCII.
pub open spec fn all_ascii(s: Seq<char>) -> bool {
    forall|i: int| 0 <= i < s.len() ==> is_ascii(#[trigger] s[i])
}

/// True if every text of `list` is ASCII.
pub open spec fn each_ascii(list: Seq<Seq<char>>) -> bool {
    forall|i: int| 0 <= i < list.len() ==> all_ascii(#[trigger] list[i])
}

/// `s` without its leading white space.
pub open spec fn trim_start(s: Seq<char>) -> Seq<char>
    decreases s.len(),
{
    if s.len() > 0 && is_white(s[0]) {
        trim_start(s.skip(1))
    } else {
        s
    }
}

/// `s` without its trailing white space.
pub open spec fn trim_end(s: Seq<char>) -> Seq<char>
    decreases s.len(),
{
    if s.len() > 0 && is_white(s.last()) {
        trim_end(s.drop_last())
    } else {
        s
    }
}

/// `s` without its leading and trailing white space.
pub open spec fn trim(s: Seq<char>) -> Seq<char> {
    trim_end(trim_start(s))
}

/// Length of the longest prefix of `s` that holds no white space.
pub open spec fn word_len(s: Seq<char>) -> nat
    decreases s.len(),
{
    if s.len() == 0 || is_white(s[0]) {
        0
    } else {
        1 + word_len(s.skip(1))
    }
}

/// The maximal runs of characters of `s` that are not white space, in order.
pub open spec fn words(s: Seq<char>) -> Seq<Seq<char>>
    decreases s.len(),
{
    if s.len() == 0 {
        Seq::empty()
    } else if is_white(s[0]) {
        words(s.skip(1))
    } else {
        proof {
            lemma_word_len(s);
        }
        seq![s.take(word_len(s) as int)] + words(s.skip(word_len(s) as int))
    }
}

pub proof fn lemma_word_len(s: Seq<char>)
    ensures
        word_len(s) <= s.len(),
        forall|i: int| 0 <= i < word_len(s) ==> !is_white(#[trigger] s[i]),
        word_len(s) < s.len() ==> is_white(s[word_len(s) as int]),
    decreases s.len(),
{
    if s.len() > 0 && !is_white(s[0]) {
        lemma_word_len(s.skip(1));
        assert forall|i: int| 0 <= i < word_len(s) implies !is_white(#[trigger] s[i]) by {
            if i > 0 {
                assert(s.skip(1)[i - 1] == s[i]);
            }
        }
    }
}

/// `parts` one after the other with `sep` between neighbours.
pub open spec fn join(parts: Seq<Seq<char>>, sep: Seq<char>) -> Seq<char>
    decreases parts.len(),
{
    if parts.len() == 0 {
        Seq::empty()
    } else if parts.len() == 1 {
        parts[0]
    } else {
        join(parts.drop_last(), sep) + sep + parts.last()
    }
}

/// True if `s` begins with `pat`.
pub open spec fn begins(s: Seq<char>, pat: Seq<char>) -> bool {
    pat.len() <= s.len() && s.take(pat.len() as int) == pat
}

/// Where `pat` occurs first in `s`.
pub open spec fn find(s: Seq<char>, pat: Seq<char>) -> Option<int>
    decreases s.len(),
{
    if begins(s, pat) {
        Some(0)
    } else if s.len() == 0 {
        None
    } else {
        match find(s.skip(1), pat) {
            Some(i) => Some(i + 1),
            None => None,
        }
    }
}

/// The parts of `s` between the occurrences of `pat`, which are taken from the left and do not
/// overlap.
pub open spec fn split(s: Seq<char>, pat: Seq<char>) -> Seq<Seq<char>>
    decreases s.len(),
{
    match find(s, pat) {
        Some(i) if pat.len() > 0 && 0 <= i && i + pat.len() <= s.len() => seq![s.take(i)] + split(
            s.skip(i + pat.len()),
            pat,
        ),
        _ => seq![s],
    }
}

/// `s` with each occurrence of `pat` replaced by `with`; occurrences are taken from the left and
/// do not overlap.
pub open spec fn replaced(s: Seq<char>, pat: Seq<char>, with: Seq<char>) -> Seq<char> {
    join(split(s, pat), with)
}

/// `s` with its ASCII capital letters made small.
pub open spec fn lowered(s: Seq<char>) -> Seq<char> {
    s.map_values(|c: char| crate::chars::lower(c))
}

/// The lines of `s`. A line ends at a newline, or at a carriage return and a newline; the last
/// line needs no ending.
pub open spec fn lines(s: Seq<char>) -> Seq<Seq<char>>
    decreases s.len(),
{
    if s.len() == 0 {
        Seq::empty()
    } else {
        match find(s, seq!['\n']) {
            Some(i) if 0 <= i < s.len() => seq![
                if i > 0 && s[i - 1] == '\r' {
                    s.take(i - 1)
                } else {
                    s.take(i)
                },
            ] + lines(s.skip(i + 1)),
            _ => seq![s],
        }
    }
}

/// The characters of `s`.
pub fn chars_of(s: &str) -> (r: Vec<char>)
    ensures
        r@ == s@,
{
    let mut out: Vec<char> = Vec::new();
    for c in it: s.chars()
        invariant
            out@ == it.seq().take(it.index() as int),
            it.seq() == s@,
    {
        out.push(c);
    }
    assert(s@.take(s@.len() as int) == s@);
    out
}

/// The string made of `cs`.
pub fn string_of(cs: &[char]) -> (r: String)
    ensures
        r@ == cs@,
{
    let mut out: String = String::new();
    let mut i: usize = 0;
    while i < cs.len()
        invariant
            i <= cs.len(),
            out@ == cs@.take(i as int),
        decreases cs.len() - i,
    {
        out.push(cs[i]);
        i += 1;
    }
    assert(cs@.take(cs@.len() as int) == cs@);
    out
}

/// The part of `cs` from `from` up to `to`.
pub fn part(cs: &[char], from: usize, to: usize) -> (r: Vec<char>)
    requires
        from <= to <= cs.len(),
    ensures
        r@ == cs@.subrange(from as int, to as int),
{
    let mut out: Vec<char> = Vec::new();
    let mut i: usize = from;
    while i < to
        invariant
            from <= i <= to <= cs.len(),
            out@ == cs@.subrange(from as int, i as int),
        decreases to - i,
    {
        out.push(cs[i]);
        i += 1;
    }
    out
}

/// Puts `more` at the end of `out`.
pub fn extend(out: &mut Vec<char>, more: &[char])
    ensures
        final(out)@ == old(out)@ + more@,
{
    let ghost before = out@;
    let mut i: usize = 0;
    while i < more.len()
        invariant
            i <= more.len(),
            out@ == before + more@.take(i as int),
        decreases more.len() - i,
    {
        out.push(more[i]);
        i += 1;
    }
    assert(more@.take(more@.len() as int) == more@);
}

/// True if the two character lists are equal.
pub fn same(a: &[char], b: &[char]) -> (r: bool)
    ensures
        r == (a@ == b@),
{
    if a.len() != b.len() {
        return false;
    }
    let mut i: usize = 0;
    while i < a.len()
        invariant
            i <= a.len(),
            a.len() == b.len(),
            forall|k: int| 0 <= k < i ==> a@[k] == b@[k],
        decreases a.len() - i,
    {
        if a[i] != b[i] {
            return false;
        }
        i += 1;
    }
    assert(a@ == b@);
    true
}

/// True if `pat` stands in `cs` at position `at`.
pub fn stands_at(cs: &[char], at: usize, pat: &[char]) -> (r: bool)
    requires
        at <= cs.len(),
    ensures
        r == begins(cs@.skip(at as int), pat@),
{
    if cs.len() - at < pat.len() {
        return false;
    }
    let ghost rest = cs@.skip(at as int);
    let mut i: usize = 0;
    while i < pat.len()
        invariant
            i <= pat.len(),
            at + pat.len() <= cs.len(),
            rest == cs@.skip(at as int),
            forall|k: int| 0 <= k < i ==> rest[k] == pat@[k],
        decreases pat.len() - i,
    {
        if cs[at + i] != pat[i] {
            assert(rest[i as int] != pat@[i as int]);
            assert(rest.take(pat@.len() as int)[i as int] == rest[i as int]);
            return false;
        }
        i += 1;
    }
    assert(rest.take(pat@.len() as int) == pat@);
    true
}

/// Where `pat` occurs first in `cs` at or after `from`.
pub fn find_from(cs: &[char], from: usize, pat: &[char]) -> (r: Option<usize>)
    requires
        from <= cs.len(),
    ensures
        r matches Some(i) ==> from <= i && i + pat.len() <= cs.len() && find(
            cs@.skip(from as int),
            pat@,
        ) == Some(i - from),
        r is None ==> find(cs@.skip(from as int), pat@) is None,
{
    let mut i: usize = from;
    while i < cs.len()
        invariant
            from <= i <= cs.len(),
            find(cs@.skip(from as int), pat@) == (match find(cs@.skip(i as int), pat@) {
                Some(k) => Some(k + (i - from)),
                None => None::<int>,
            }),
        decreases cs.len() - i,
    {
        if stands_at(cs, i, pat) {
            return Some(i);
        }
        assert(cs@.skip(i as int).skip(1) == cs@.skip(i + 1));
        i += 1;
    }
    if stands_at(cs, i, pat) {
        return Some(i);
    }
    None
}

pub proof fn lemma_find_fits(s: Seq<char>, pat: Seq<char>)
    ensures
        find(s, pat) matches Some(i) ==> 0 <= i && i + pat.len() <= s.len() && s.subrange(
            i,
            i + pat.len(),
        ) == pat,
    decreases s.len(),
{
    if begins(s, pat) {
        assert(s.subrange(0, pat.len() as int) == s.take(pat.len() as int));
    } else if s.len() > 0 {
        lemma_find_fits(s.skip(1), pat);
        if let Some(i) = find(s.skip(1), pat) {
            assert(s.skip(1).subrange(i, i + pat.len()) == s.subrange(i + 1, i + 1 + pat.len()));
        }
    }
}

/// The parts of `cs` between the occurrences of `pat`.
pub fn split_on(cs: &[char], pat: &[char]) -> (r: Vec<Vec<char>>)
    requires
        pat.len() > 0,
    ensures
        rows(r@) == split(cs@, pat@),
        r@.len() > 0,
{
    let mut out: Vec<Vec<char>> = Vec::new();
    let mut from: usize = 0;
    assert(cs@.skip(0) == cs@);
    assert(rows(out@) + split(cs@, pat@) == split(cs@, pat@));
    loop
        invariant
            from <= cs.len(),
            pat.len() > 0,
            rows(out@) + split(cs@.skip(from as int), pat@) == split(cs@, pat@),
        decreases cs.len() - from,
    {
        proof {
            lemma_find_fits(cs@.skip(from as int), pat@);
        }
        let ghost rest = cs@.skip(from as int);
        let ghost before = out@;
        match find_from(cs, from, pat) {
            Some(i) => {
                out.push(part(cs, from, i));
                assert(cs@.subrange(from as int, i as int) == rest.take(i - from));
                assert(rest.skip(i - from + pat@.len()) == cs@.skip(i + pat@.len()));
                assert(rows(out@) == rows(before).push(rest.take(i - from)));
                assert(rows(out@) + split(cs@.skip(i + pat@.len()), pat@) == rows(before) + (seq![
                    rest.take(i - from),
                ] + split(cs@.skip(i + pat@.len()), pat@)));
                from = i + pat.len();
            },
            None => {
                out.push(part(cs, from, cs.len()));
                assert(cs@.subrange(from as int, cs@.len() as int) == rest);
                assert(rows(out@) == rows(before) + seq![rest]);
                return out;
            },
        }
    }
}

/// `parts` one after the other with `sep` between neighbours.
pub fn join_rows(parts: &[Vec<char>], sep: &[char]) -> (r: Vec<char>)
    ensures
        r@ == join(rows(parts@), sep@),
{
    let mut out: Vec<char> = Vec::new();
    let mut i: usize = 0;
    while i < parts.len()
        invariant
            i <= parts.len(),
            out@ == join(rows(parts@).take(i as int), sep@),
        decreases parts.len() - i,
    {
        let ghost so_far = rows(parts@).take(i as int);
        if i > 0 {
            extend(&mut out, sep);
        }
        extend(&mut out, parts[i].as_slice());
        proof {
            let next = rows(parts@).take(i + 1);
            assert(next.drop_last() == so_far);
            assert(next.last() == parts@[i as int]@);
        }
        i += 1;
    }
    assert(rows(parts@).take(parts@.len() as int) == rows(parts@));
    out
}

/// The characters of each of `list`.
pub fn rows_of(list: &[String]) -> (r: Vec<Vec<char>>)
    ensures
        rows(r@) == texts(list@),
{
    let mut out: Vec<Vec<char>> = Vec::new();
    let mut i: usize = 0;
    while i < list.len()
        invariant
            i <= list.len(),
            rows(out@) == texts(list@).take(i as int),
        decreases list.len() - i,
    {
        let ghost before = out@;
        out.push(chars_of(list[i].as_str()));
        assert(rows(out@) == rows(before).push(list@[i as int]@));
        assert(texts(list@).take(i + 1) == texts(list@).take(i as int).push(list@[i as int]@));
        i += 1;
    }
    assert(texts(list@).take(list@.len() as int) == texts(list@));
    out
}

/// The characters of each of `list`.
pub fn rows_of_slices(list: &[&str]) -> (r: Vec<Vec<char>>)
    ensures
        rows(r@) == slices(list@),
{
    let mut out: Vec<Vec<char>> = Vec::new();
    let mut i: usize = 0;
    while i < list.len()
        invariant
            i <= list.len(),
            rows(out@) == slices(list@).take(i as int),
        decreases list.len() - i,
    {
        let ghost before = out@;
        out.push(chars_of(list[i]));
        assert(rows(out@) == rows(before).push(list@[i as int]@));
        assert(slices(list@).take(i + 1) == slices(list@).take(i as int).push(list@[i as int]@));
        i += 1;
    }
    assert(slices(list@).take(list@.len() as int) == slices(list@));
    out
}

/// Each of `list` as a slice.
pub fn slices_of(list: &[String]) -> (r: Vec<&str>)
    ensures
        slices(r@) == texts(list@),
{
    let mut out: Vec<&str> = Vec::new();
    let mut i: usize = 0;
    while i < list.len()
        invariant
            i <= list.len(),
            slices(out@) == texts(list@).take(i as int),
        decreases list.len() - i,
    {
        let ghost before = out@;
        out.push(list[i].as_str());
        assert(slices(out@) == slices(before).push(list@[i as int]@));
        assert(texts(list@).take(i + 1) == texts(list@).take(i as int).push(list@[i as int]@));
        i += 1;
    }
    assert(texts(list@).take(list@.len() as int) == texts(list@));
    out
}

/// `cs` with each occurrence of `pat` replaced by `with`.
pub fn replace_all(cs: &[char], pat: &[char], with: &[char]) -> (r: Vec<char>)
    requires
        pat.len() > 0,
    ensures
        r@ == replaced(cs@, pat@, with@),
{
    let parts = split_on(cs, pat);
    join_rows(parts.as_slice(), with)
}

/// `cs` with each occurrence of the text `pat` replaced by the text `with`; an empty `pat` occurs
/// nowhere.
pub fn replace_text(cs: &[char], pat: &str, with: &str) -> (r: Vec<char>)
    ensures
        r@ == replaced(cs@, pat@, with@),
{
    let p = chars_of(pat);
    let w = chars_of(with);
    if p.len() == 0 {
        assert(split(cs@, pat@) == seq![cs@]);
        let all = part(cs, 0, cs.len());
        assert(all@ == cs@);
        return all;
    }
    replace_all(cs, p.as_slice(), w.as_slice())
}

/// Where the text of `cs` begins and ends once its leading and trailing white space is left out.
pub fn trim_range(cs: &[char]) -> (r: (usize, usize))
    ensures
        r.0 <= r.1 <= cs.len(),
        trim(cs@) == cs@.subrange(r.0 as int, r.1 as int),
{
    let mut a: usize = 0;
    assert(cs@.skip(0) == cs@);
    while a < cs.len() && is_whitespace(cs[a])
        invariant
            a <= cs.len(),
            trim_start(cs@.skip(a as int)) == trim_start(cs@),
        decreases cs.len() - a,
    {
        assert(cs@.skip(a as int).skip(1) == cs@.skip(a + 1));
        a += 1;
    }
    let ghost body = cs@.skip(a as int);
    assert(trim_start(cs@) == body);
    let mut b: usize = cs.len();
    assert(cs@.subrange(a as int, cs@.len() as int) == body);
    while a < b && is_whitespace(cs[b - 1])
        invariant
            a <= b <= cs.len(),
            trim_end(cs@.subrange(a as int, b as int)) == trim_end(body),
        decreases b,
    {
        assert(cs@.subrange(a as int, b as int).drop_last() == cs@.subrange(a as int, b - 1));
        b -= 1;
    }
    (a, b)
}

/// `cs` without its leading and trailing white space.
pub fn trimmed(cs: &[char]) -> (r: Vec<char>)
    ensures
        r@ == trim(cs@),
{
    let (a, b) = trim_range(cs);
    part(cs, a, b)
}

/// The end of the word that begins at `from`: the first white space at or after it, or the end.
pub fn word_end_from(cs: &[char], from: usize) -> (r: usize)
    requires
        from <= cs.len(),
    ensures
        from <= r <= cs.len(),
        r == from + word_len(cs@.skip(from as int)),
{
    let mut i: usize = from;
    while i < cs.len() && !is_whitespace(cs[i])
        invariant
            from <= i <= cs.len(),
            from + word_len(cs@.skip(from as int)) == i + word_len(cs@.skip(i as int)),
        decreases cs.len() - i,
    {
        assert(cs@.skip(i as int).skip(1) == cs@.skip(i + 1));
        i += 1;
    }
    i
}

/// The words of `cs`.
pub fn split_words(cs: &[char]) -> (r: Vec<Vec<char>>)
    ensures
        rows(r@) == words(cs@),
{
    let mut out: Vec<Vec<char>> = Vec::new();
    let mut i: usize = 0;
    assert(cs@.skip(0) == cs@);
    assert(rows(out@) + words(cs@) == words(cs@));
    while i < cs.len()
        invariant
            i <= cs.len(),
            rows(out@) + words(cs@.skip(i as int)) == words(cs@),
        decreases cs.len() - i,
    {
        let ghost rest = cs@.skip(i as int);
        let ghost before = out@;
        if is_whitespace(cs[i]) {
            assert(rest.skip(1) == cs@.skip(i + 1));
            i += 1;
        } else {
            let j = word_end_from(cs, i);
            out.push(part(cs, i, j));
            proof {
                lemma_word_len(rest);
                assert(rest.take(j - i) == cs@.subrange(i as int, j as int));
                assert(rest.skip(j - i) == cs@.skip(j as int));
                assert(rows(out@) == rows(before).push(rest.take(j - i)));
                assert(rows(out@) + words(cs@.skip(j as int)) == rows(before) + (seq![
                    rest.take(j - i),
                ] + words(cs@.skip(j as int))));
            }
            i = j;
        }
    }
    assert(rows(out@) + words(cs@.skip(cs@.len() as int)) == rows(out@));
    out
}

/// Number of words of `cs`.
pub fn count_words(cs: &[char]) -> (r: usize)
    ensures
        r == words(cs@).len(),
        r <= cs.len(),
{
    let mut n: usize = 0;
    let mut i: usize = 0;
    assert(cs@.skip(0) == cs@);
    while i < cs.len()
        invariant
            n <= i <= cs.len(),
            n + words(cs@.skip(i as int)).len() == words(cs@).len(),
        decreases cs.len() - i,
    {
        let ghost rest = cs@.skip(i as int);
        if is_whitespace(cs[i]) {
            assert(rest.skip(1) == cs@.skip(i + 1));
            i += 1;
        } else {
            let j = word_end_from(cs, i);
            proof {
                lemma_word_len(rest);
                assert(rest.skip(j - i) == cs@.skip(j as int));
            }
            n += 1;
            i = j;
        }
    }
    n
}

/// The lines of `cs`.
pub fn split_lines(cs: &[char]) -> (r: Vec<Vec<char>>)
    ensures
        rows(r@) == lines(cs@),
{
    let newline: [char; 1] = ['\n'];
    assert(newline@ == seq!['\n']);
    let mut out: Vec<Vec<char>> = Vec::new();
    let mut from: usize = 0;
    assert(cs@.skip(0) == cs@);
    assert(rows(out@) + lines(cs@) == lines(cs@));
    while from < cs.len()
        invariant
            from <= cs.len(),
            newline@ == seq!['\n'],
            rows(out@) + lines(cs@.skip(from as int)) == lines(cs@),
        decreases cs.len() - from,
    {
        let ghost rest = cs@.skip(from as int);
        let ghost before = out@;
        match find_from(cs, from, newline.as_slice()) {
            Some(i) => {
                let end: usize = if i > from && cs[i - 1] == '\r' {
                    i - 1
                } else {
                    i
                };
                out.push(part(cs, from, end));
                assert(cs@.subrange(from as int, end as int) == rest.take(end - from));
                assert(rest.skip(i - from + 1) == cs@.skip(i + 1));
                assert(rows(out@) == rows(before).push(rest.take(end - from)));
                assert(rows(out@) + lines(cs@.skip(i + 1)) == rows(before) + (seq![
                    rest.take(end - from),
                ] + lines(cs@.skip(i + 1))));
                from = i + 1;
            },
            None => {
                out.push(part(cs, from, cs.len()));
                assert(cs@.subrange(from as int, cs@.len() as int) == rest);
                assert(rows(out@) == rows(before) + seq![rest]);
                return out;
            },
        }
    }
    assert(rows(out@) + lines(cs@.skip(cs@.len() as int)) == rows(out@));
    out
}

/// `cs` with its ASCII capital letters made small.
pub fn lower_all(cs: &[char]) -> (r: Vec<char>)
    ensures
        r@ == lowered(cs@),
{
    let mut out: Vec<char> = Vec::new();
    let mut i: usize = 0;
    while i < cs.len()
        invariant
            i <= cs.len(),
            out@ == lowered(cs@).take(i as int),
        decreases cs.len() - i,
    {
        out.push(to_lower(cs[i]));
        assert(lowered(cs@).take(i + 1) == lowered(cs@).take(i as int).push(lowered(cs@)[i as int]));
        i += 1;
    }
    assert(lowered(cs@).take(cs@.len() as int) == lowered(cs@));
    out
}

/// The strings made of `list`.
pub fn strings_of(list: &[Vec<char>]) -> (r: Vec<String>)
    ensures
        texts(r@) == rows(list@),
{
    let mut out: Vec<String> = Vec::new();
    let mut i: usize = 0;
    while i < list.len()
        invariant
            i <= list.len(),
            texts(out@) == rows(list@).take(i as int),
        decreases list.len() - i,
    {
        let ghost before = out@;
        out.push(string_of(list[i].as_slice()));
        assert(texts(out@) == texts(before).push(list@[i as int]@));
        assert(rows(list@).take(i + 1) == rows(list@).take(i as int).push(list@[i as int]@));
        i += 1;
    }
    assert(rows(list@).take(list@.len() as int) == rows(list@));
    out
}

/// Puts the text `more` at the end of `out`.
pub fn put(out: &mut Vec<char>, more: &str)
    ensures
        final(out)@ == old(out)@ + more@,
{
    let cs = chars_of(more);
    extend(out, cs.as_slice());
}

/// A list of strings holds the text of each of them, in their order, and no other.
pub proof fn law_texts(v: Seq<String>, w: Seq<&str>, r: Seq<Vec<char>>)
    ensures
        texts(v).len() == v.len(),
        slices(w).len() == w.len(),
        rows(r).len() == r.len(),
        forall|i: int| 0 <= i < v.len() ==> #[trigger] texts(v)[i] == v[i]@,
        forall|i: int| 0 <= i < w.len() ==> #[trigger] slices(w)[i] == w[i]@,
        forall|i: int| 0 <= i < r.len() ==> #[trigger] rows(r)[i] == r[i]@,
{
}

/// Making a text small makes each of its characters small, and changes nothing else.
pub proof fn law_lowered(s: Seq<char>)
    ensures
        lowered(s).len() == s.len(),
        forall|i: int|
            0 <= i < s.len() ==> #[trigger] lowered(s)[i] as u32 == if 65 <= s[i] as u32 <= 90 {
                s[i] as u32 + 32
            } else {
                s[i] as u32 as int
            },
{
}

/// What it is for a text to begin with another: something can be put behind that to make it.
pub proof fn law_begins(s: Seq<char>, pat: Seq<char>)
    ensures
        begins(s, pat) <==> exists|rest: Seq<char>| s == #[trigger] (pat + rest),
{
    if begins(s, pat) {
        assert(s == pat + s.skip(pat.len() as int));
    }
    if exists|rest: Seq<char>| s == #[trigger] (pat + rest) {
        let rest = choose|rest: Seq<char>| s == #[trigger] (pat + rest);
        assert(s.take(pat.len() as int) == pat);
    }
}

} // verus!
