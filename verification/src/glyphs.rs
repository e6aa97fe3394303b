//! Names of glyphs that a paper's fonts leave in its text.

use crate::chars::{hex_char, is_hex, is_lower, is_upper, is_white};
use crate::text::{
    begins, chars_of, extend, find, find_from, replace_text, replaced, split, stands_at, string_of,
    trim, trim_start, trimmed,
};
use crate::words::{lemma_trim, lemma_trim_end, lemma_trim_start, no_double_space};
use vstd::prelude::*;

verus! {

/// The texts of named glyphs and what each stands for.
pub open spec fn glyphs() -> Seq<(Seq<char>, Seq<char>)> {
    seq![
        ("[bracketleft]"@, "["@),
        ("[bracketright]"@, "]"@),
        ("[parenleft]"@, "("@),
        ("[parenright]"@, ")"@),
        ("[bullet]"@, ""@),
        ("[dagger]"@, ""@),
        ("[daggerdbl]"@, ""@),
        ("[section]"@, ""@),
        ("[paragraph]"@, ""@),
        ("[endash]"@, "-"@),
        ("[emdash]"@, "\u{2014}"@),
        ("[quotedblleft]"@, "\u{201C}"@),
        ("[quotedblright]"@, "\u{201D}"@),
        ("[quoteleft]"@, "'"@),
        ("[quoteright]"@, "'"@),
        ("[fi]"@, "fi"@),
        ("[fl]"@, "fl"@),
        ("[ff]"@, "ff"@),
        ("[ffi]"@, "ffi"@),
        ("[ffl]"@, "ffl"@),
        ("[ft]"@, "ft"@),
        ("[st]"@, "st"@),
    ]
}

/// `s` with the first `n` named glyphs replaced, one after the other.
pub open spec fn named(s: Seq<char>, n: int) -> Seq<char>
    decreases n,
{
    if n <= 0 {
        s
    } else {
        replaced(named(s, n - 1), glyphs()[n - 1].0, glyphs()[n - 1].1)
    }
}

pub open spec fn is_letter(c: char) -> bool {
    is_lower(c) || is_upper(c)
}

/// Length of the single-character glyph that `s` begins with, a letter such as `[f]` or `[space]`;
/// 0 if there is none.
pub open spec fn small_glyph(s: Seq<char>) -> int {
    if begins(s, "[space]"@) {
        7
    } else if s.len() >= 3 && s[0] == '[' && is_letter(s[1]) && s[2] == ']' {
        3
    } else {
        0
    }
}

pub proof fn lemma_small_glyph(s: Seq<char>)
    ensures
        0 <= small_glyph(s) <= s.len(),
{
    reveal_strlit("[space]");
}

/// Number of single-character glyphs that `s` begins with, one right behind the other.
pub open spec fn run_count(s: Seq<char>) -> nat
    decreases s.len(),
{
    if small_glyph(s) == 0 {
        0
    } else {
        proof {
            lemma_small_glyph(s);
        }
        1 + run_count(s.skip(small_glyph(s)))
    }
}

/// Length of the run of single-character glyphs that `s` begins with.
pub open spec fn run_size(s: Seq<char>) -> int
    decreases s.len(),
{
    if small_glyph(s) == 0 {
        0
    } else {
        proof {
            lemma_small_glyph(s);
        }
        small_glyph(s) + run_size(s.skip(small_glyph(s)))
    }
}

pub proof fn lemma_run_size(s: Seq<char>)
    ensures
        run_size(s) <= s.len(),
        run_count(s) <= run_size(s),
    decreases s.len(),
{
    lemma_small_glyph(s);
    if small_glyph(s) > 0 {
        lemma_run_size(s.skip(small_glyph(s)));
    }
}

/// What the run of single-character glyphs that `s` begins with spells.
pub open spec fn run_text(s: Seq<char>) -> Seq<char>
    decreases s.len(),
{
    if small_glyph(s) == 0 {
        Seq::empty()
    } else {
        proof {
            lemma_small_glyph(s);
        }
        seq![
            if small_glyph(s) == 3 {
                s[1]
            } else {
                ' '
            },
        ] + run_text(s.skip(small_glyph(s)))
    }
}

/// `s` with each run of two or more single-character glyphs replaced by what it spells.
pub open spec fn spelled_out(s: Seq<char>) -> Seq<char>
    decreases s.len(),
{
    if s.len() == 0 {
        s
    } else if run_count(s) >= 2 {
        proof {
            lemma_run_size(s);
        }
        run_text(s) + spelled_out(s.skip(run_size(s)))
    } else {
        seq![s[0]] + spelled_out(s.skip(1))
    }
}

/// True if the `[` at position `i` of `s` opens the glyph `[fi]` right behind an e that begins a
/// word, with a c or a g behind it. No word begins with "efic" or "efig": such a glyph is what is
/// left of an ffi ligature, as in "efficient" or "effigy".
pub open spec fn lost_f(s: Seq<char>, i: int) -> bool {
    &&& 1 <= i && i + 4 < s.len()
    &&& begins(s.skip(i), "[fi]"@)
    &&& s[i + 4] == 'c' || s[i + 4] == 'g'
    &&& s[i - 1] == 'e' || s[i - 1] == 'E'
    &&& i == 1 || !is_letter(s[i - 2])
}

/// The first `n` characters of `s`, with the letter f put back where an ffi ligature lost it.
pub open spec fn refilled(s: Seq<char>, n: int) -> Seq<char>
    decreases n,
{
    if n <= 0 {
        Seq::empty()
    } else if lost_f(s, n - 1) {
        refilled(s, n - 1).push(s[n - 1]).push('f')
    } else {
        refilled(s, n - 1).push(s[n - 1])
    }
}

/// Length of the Unicode glyph name that `s` begins with, such as `[uni0041]`; 0 if there is none.
pub open spec fn unicode_glyph(s: Seq<char>) -> int {
    if begins(s, "[uni"@) {
        match find(s, seq![']']) {
            Some(c) => if 4 < c < s.len() && forall|i: int| 4 <= i < c ==> is_hex(#[trigger] s[i]) {
                c + 1
            } else {
                0
            },
            None => 0,
        }
    } else {
        0
    }
}

/// `s` without its Unicode glyph names.
pub open spec fn without_unicode_glyphs(s: Seq<char>) -> Seq<char>
    decreases s.len(),
{
    if s.len() == 0 {
        s
    } else if unicode_glyph(s) > 0 {
        without_unicode_glyphs(s.skip(unicode_glyph(s)))
    } else {
        seq![s[0]] + without_unicode_glyphs(s.skip(1))
    }
}

/// `s` with each run of spaces made one space.
pub open spec fn single_spaced(s: Seq<char>) -> Seq<char>
    decreases s.len(),
{
    if s.len() == 0 {
        s
    } else if s.len() >= 2 && s.last() == ' ' && s[s.len() - 2] == ' ' {
        single_spaced(s.drop_last())
    } else {
        single_spaced(s.drop_last()).push(s.last())
    }
}

/// `line` with its glyph names replaced or taken out.
pub open spec fn scrubbed(line: Seq<char>) -> Seq<char> {
    let spelled = spelled_out(line);
    let letters = named(refilled(spelled, spelled.len() as int), glyphs().len() as int);
    trim(single_spaced(without_unicode_glyphs(letters)))
}

/// Length of the single-character glyph at position `at` of `cs`.
fn small_glyph_at(cs: &[char], at: usize) -> (r: usize)
    requires
        at <= cs.len(),
    ensures
        r == small_glyph(cs@.skip(at as int)),
        r == 0 || r == 3 || r == 7,
        at + r <= cs.len(),
{
    let space = chars_of("[space]");
    proof {
        reveal_strlit("[space]");
    }
    if stands_at(cs, at, space.as_slice()) {
        return 7;
    }
    if cs.len() - at >= 3 && cs[at] == '[' && cs[at + 2] == ']' {
        let c = cs[at + 1];
        if ('a' <= c && c <= 'z') || ('A' <= c && c <= 'Z') {
            return 3;
        }
    }
    0
}

/// What the run of single-character glyphs at position `at` of `cs` spells, and where it ends.
fn run_at(cs: &[char], at: usize) -> (r: (Vec<char>, usize))
    requires
        at <= cs.len(),
    ensures
        r.0@ == run_text(cs@.skip(at as int)),
        r.0@.len() == run_count(cs@.skip(at as int)),
        r.1 == at + run_size(cs@.skip(at as int)),
        at <= r.1 <= cs.len(),
        r.0@.len() > 0 ==> at < r.1,
{
    let mut out: Vec<char> = Vec::new();
    let mut i: usize = at;
    let ghost s = cs@.skip(at as int);
    assert(out@ + run_text(s) == run_text(s));
    loop
        invariant
            at <= i <= cs.len(),
            s == cs@.skip(at as int),
            out@ + run_text(cs@.skip(i as int)) == run_text(s),
            out@.len() + run_count(cs@.skip(i as int)) == run_count(s),
            i + run_size(cs@.skip(i as int)) == at + run_size(s),
            out@.len() > 0 ==> at < i,
        decreases cs.len() - i,
    {
        let ghost rest = cs@.skip(i as int);
        let ghost before = out@;
        let n = small_glyph_at(cs, i);
        if n == 0 {
            assert(out@ + run_text(rest) == out@);
            return (out, i);
        }
        let c = if n == 3 {
            cs[i + 1]
        } else {
            ' '
        };
        out.push(c);
        proof {
            assert(rest.skip(n as int) == cs@.skip(i + n));
            assert(n == 3 ==> c == rest[1]);
            assert(out@ + run_text(rest.skip(n as int)) == before + (seq![c] + run_text(
                rest.skip(n as int),
            )));
        }
        i += n;
    }
}

fn spell_out(cs: &[char]) -> (r: Vec<char>)
    ensures
        r@ == spelled_out(cs@),
{
    let mut out: Vec<char> = Vec::new();
    let mut i: usize = 0;
    assert(cs@.skip(0) == cs@);
    assert(out@ + spelled_out(cs@) == spelled_out(cs@));
    while i < cs.len()
        invariant
            i <= cs.len(),
            out@ + spelled_out(cs@.skip(i as int)) == spelled_out(cs@),
        decreases cs.len() - i,
    {
        let ghost rest = cs@.skip(i as int);
        let ghost before = out@;
        let (letters, end) = run_at(cs, i);
        if letters.len() >= 2 {
            extend(&mut out, letters.as_slice());
            proof {
                assert(rest.skip(run_size(rest)) == cs@.skip(end as int));
                assert(out@ + spelled_out(cs@.skip(end as int)) == before + (letters@
                    + spelled_out(cs@.skip(end as int))));
            }
            i = end;
        } else {
            out.push(cs[i]);
            assert(rest.skip(1) == cs@.skip(i + 1));
            assert(out@ + spelled_out(rest.skip(1)) == before + (seq![rest[0]] + spelled_out(
                rest.skip(1),
            )));
            i += 1;
        }
    }
    assert(out@ + spelled_out(cs@.skip(cs@.len() as int)) == out@);
    out
}

fn refill(cs: &[char]) -> (r: Vec<char>)
    ensures
        r@ == refilled(cs@, cs@.len() as int),
{
    let glyph = chars_of("[fi]");
    let mut out: Vec<char> = Vec::new();
    let mut i: usize = 0;
    while i < cs.len()
        invariant
            i <= cs.len(),
            glyph@ == "[fi]"@,
            out@ == refilled(cs@, i as int),
        decreases cs.len() - i,
    {
        let c = cs[i];
        out.push(c);
        if i >= 1 && (cs[i - 1] == 'e' || cs[i - 1] == 'E') && stands_at(cs, i, glyph.as_slice())
            && cs.len() - i > 4 && (cs[i + 4] == 'c' || cs[i + 4] == 'g') {
            let starts = if i == 1 {
                true
            } else {
                let p = cs[i - 2];
                !(('a' <= p && p <= 'z') || ('A' <= p && p <= 'Z'))
            };
            if starts {
                out.push('f');
            }
        }
        i += 1;
    }
    out
}

fn replace_named(cs: Vec<char>) -> (r: Vec<char>)
    ensures
        r@ == named(cs@, glyphs().len() as int),
{
    let table: [(&str, &str); 22] = [
        ("[bracketleft]", "["),
        ("[bracketright]", "]"),
        ("[parenleft]", "("),
        ("[parenright]", ")"),
        ("[bullet]", ""),
        ("[dagger]", ""),
        ("[daggerdbl]", ""),
        ("[section]", ""),
        ("[paragraph]", ""),
        ("[endash]", "-"),
        ("[emdash]", "\u{2014}"),
        ("[quotedblleft]", "\u{201C}"),
        ("[quotedblright]", "\u{201D}"),
        ("[quoteleft]", "'"),
        ("[quoteright]", "'"),
        ("[fi]", "fi"),
        ("[fl]", "fl"),
        ("[ff]", "ff"),
        ("[ffi]", "ffi"),
        ("[ffl]", "ffl"),
        ("[ft]", "ft"),
        ("[st]", "st"),
    ];
    assert(glyphs().len() == 22);
    assert(forall|k: int|
        0 <= k < 22 ==> (#[trigger] table@[k]).0@ == glyphs()[k].0 && table@[k].1@ == glyphs()[k].1);
    let ghost first = cs@;
    let mut cur = cs;
    let mut i: usize = 0;
    while i < 22
        invariant
            i <= 22,
            table@.len() == 22,
            forall|k: int|
                0 <= k < 22 ==> (#[trigger] table@[k]).0@ == glyphs()[k].0 && table@[k].1@
                    == glyphs()[k].1,
            cur@ == named(first, i as int),
        decreases 22 - i,
    {
        let (name, with) = table[i];
        cur = replace_text(cur.as_slice(), name, with);
        i += 1;
    }
    cur
}

/// Length of the Unicode glyph name at position `at` of `cs`.
fn unicode_glyph_at(cs: &[char], at: usize) -> (r: usize)
    requires
        at <= cs.len(),
    ensures
        r == unicode_glyph(cs@.skip(at as int)),
        at + r <= cs.len(),
{
    let head = chars_of("[uni");
    if !stands_at(cs, at, head.as_slice()) {
        return 0;
    }
    let close: [char; 1] = [']'];
    assert(close@ == seq![']']);
    let ghost s = cs@.skip(at as int);
    match find_from(cs, at, close.as_slice()) {
        Some(c) => {
            if c - at <= 4 {
                return 0;
            }
            let mut i: usize = at + 4;
            while i < c
                invariant
                    at + 4 <= i <= c < cs.len(),
                    s == cs@.skip(at as int),
                    find(s, seq![']']) == Some(c - at),
                    forall|k: int| 4 <= k < i - at ==> is_hex(#[trigger] s[k]),
                decreases c - i,
            {
                if !hex_char(cs[i]) {
                    assert(!is_hex(s[i - at]));
                    return 0;
                }
                i += 1;
            }
            c - at + 1
        },
        None => 0,
    }
}

fn drop_unicode_glyphs(cs: &[char]) -> (r: Vec<char>)
    ensures
        r@ == without_unicode_glyphs(cs@),
{
    let mut out: Vec<char> = Vec::new();
    let mut i: usize = 0;
    assert(cs@.skip(0) == cs@);
    while i < cs.len()
        invariant
            i <= cs.len(),
            out@ + without_unicode_glyphs(cs@.skip(i as int)) == without_unicode_glyphs(cs@),
        decreases cs.len() - i,
    {
        let ghost rest = cs@.skip(i as int);
        let ghost before = out@;
        let n = unicode_glyph_at(cs, i);
        if n > 0 {
            assert(rest.skip(n as int) == cs@.skip(i + n));
            i += n;
        } else {
            out.push(cs[i]);
            assert(rest.skip(1) == cs@.skip(i + 1));
            assert(out@ + without_unicode_glyphs(rest.skip(1)) == before + (seq![rest[0]]
                + without_unicode_glyphs(rest.skip(1))));
            i += 1;
        }
    }
    assert(out@ + without_unicode_glyphs(cs@.skip(cs@.len() as int)) == out@);
    out
}

fn single_space(cs: &[char]) -> (r: Vec<char>)
    ensures
        r@ == single_spaced(cs@),
{
    let mut out: Vec<char> = Vec::new();
    let mut i: usize = 0;
    while i < cs.len()
        invariant
            i <= cs.len(),
            out@ == single_spaced(cs@.take(i as int)),
        decreases cs.len() - i,
    {
        assert(cs@.take(i + 1).drop_last() == cs@.take(i as int));
        if !(i >= 1 && cs[i] == ' ' && cs[i - 1] == ' ') {
            out.push(cs[i]);
        }
        i += 1;
    }
    assert(cs@.take(cs@.len() as int) == cs@);
    out
}

/// `cs` with its glyph names replaced or taken out.
pub fn scrub(cs: &[char]) -> (r: Vec<char>)
    ensures
        r@ == scrubbed(cs@),
{
    let spelled = spell_out(cs);
    let filled = refill(spelled.as_slice());
    let letters = replace_named(filled);
    let plain = drop_unicode_glyphs(letters.as_slice());
    let spaced = single_space(plain.as_slice());
    trimmed(spaced.as_slice())
}

/// Replaces runs of single-character glyphs by what they spell, and the names of glyphs by what
/// they stand for, takes out the names of Unicode glyphs and
/// of glyphs that stand for nothing that is read aloud, and collapses the spaces that are left.
pub fn scrub_glyph_artifacts(line: &str) -> (r: String)
    ensures
        r@ == scrubbed(line@),
{
    let cs = chars_of(line);
    let clean = scrub(cs.as_slice());
    string_of(clean.as_slice())
}

/// True if `s` holds no opening bracket.
pub open spec fn bracketless(s: Seq<char>) -> bool {
    forall|i: int| 0 <= i < s.len() ==> #[trigger] s[i] != '['
}

proof fn lemma_find_bracket(s: Seq<char>, pat: Seq<char>)
    requires
        bracketless(s),
        pat.len() > 0,
        pat[0] == '[',
    ensures
        find(s, pat) is None,
        !begins(s, pat),
    decreases s.len(),
{
    if begins(s, pat) {
        assert(s.take(pat.len() as int)[0] == s[0]);
    }
    if s.len() > 0 {
        assert(bracketless(s.skip(1)));
        lemma_find_bracket(s.skip(1), pat);
    }
}

proof fn lemma_glyphs_open()
    ensures
        forall|k: int|
            0 <= k < glyphs().len() ==> (#[trigger] glyphs()[k]).0.len() > 0 && glyphs()[k].0[0]
                == '[',
{
    reveal_strlit("[bracketleft]");
    reveal_strlit("[bracketright]");
    reveal_strlit("[parenleft]");
    reveal_strlit("[parenright]");
    reveal_strlit("[bullet]");
    reveal_strlit("[dagger]");
    reveal_strlit("[daggerdbl]");
    reveal_strlit("[section]");
    reveal_strlit("[paragraph]");
    reveal_strlit("[endash]");
    reveal_strlit("[emdash]");
    reveal_strlit("[quotedblleft]");
    reveal_strlit("[quotedblright]");
    reveal_strlit("[quoteleft]");
    reveal_strlit("[quoteright]");
    reveal_strlit("[fi]");
    reveal_strlit("[fl]");
    reveal_strlit("[ff]");
    reveal_strlit("[ffi]");
    reveal_strlit("[ffl]");
    reveal_strlit("[ft]");
    reveal_strlit("[st]");
}

proof fn lemma_named_bracketless(s: Seq<char>, n: int)
    requires
        bracketless(s),
        n <= glyphs().len(),
    ensures
        named(s, n) == s,
    decreases n,
{
    if n > 0 {
        lemma_named_bracketless(s, n - 1);
        lemma_glyphs_open();
        lemma_find_bracket(s, glyphs()[n - 1].0);
        assert(split(s, glyphs()[n - 1].0) == seq![s]);
    }
}

proof fn lemma_refilled_bracketless(s: Seq<char>, n: int)
    requires
        bracketless(s),
        0 <= n <= s.len(),
    ensures
        refilled(s, n) == s.take(n),
    decreases n,
{
    if n > 0 {
        lemma_refilled_bracketless(s, n - 1);
        reveal_strlit("[fi]");
        let rest = s.skip(n - 1);
        assert(bracketless(rest));
        lemma_find_bracket(rest, "[fi]"@);
        assert(s.take(n) == s.take(n - 1).push(s[n - 1]));
    }
}

proof fn lemma_unicode_bracketless(s: Seq<char>)
    requires
        bracketless(s),
    ensures
        without_unicode_glyphs(s) == s,
    decreases s.len(),
{
    if s.len() > 0 {
        reveal_strlit("[uni");
        lemma_find_bracket(s, "[uni"@);
        assert(bracketless(s.skip(1)));
        lemma_unicode_bracketless(s.skip(1));
        assert(seq![s[0]] + s.skip(1) == s);
    }
}

proof fn lemma_spelled_bracketless(s: Seq<char>)
    requires
        bracketless(s),
    ensures
        spelled_out(s) == s,
    decreases s.len(),
{
    if s.len() > 0 {
        reveal_strlit("[space]");
        lemma_find_bracket(s, "[space]"@);
        assert(s[0] != '[');
        assert(bracketless(s.skip(1)));
        lemma_spelled_bracketless(s.skip(1));
        assert(seq![s[0]] + s.skip(1) == s);
    }
}

/// A line without an opening bracket keeps everything but its spare spaces.
pub proof fn law_scrub_leaves_plain_text(s: Seq<char>)
    requires
        bracketless(s),
    ensures
        scrubbed(s) == trim(single_spaced(s)),
{
    lemma_spelled_bracketless(s);
    lemma_refilled_bracketless(s, s.len() as int);
    assert(s.take(s.len() as int) == s);
    lemma_named_bracketless(s, glyphs().len() as int);
    lemma_unicode_bracketless(s);
}

/// `s` as a font without its letters leaves it: each character as a glyph of its own.
pub open spec fn in_glyphs(s: Seq<char>) -> Seq<char>
    decreases s.len(),
{
    if s.len() == 0 {
        s
    } else if s[0] == ' ' {
        "[space]"@ + in_glyphs(s.skip(1))
    } else {
        seq!['[', s[0], ']'] + in_glyphs(s.skip(1))
    }
}

proof fn lemma_run_in_glyphs(s: Seq<char>)
    requires
        forall|i: int| 0 <= i < s.len() ==> is_letter(#[trigger] s[i]) || s[i] == ' ',
    ensures
        run_text(in_glyphs(s)) == s,
        run_count(in_glyphs(s)) == s.len(),
        run_size(in_glyphs(s)) == in_glyphs(s).len(),
    decreases s.len(),
{
    reveal_strlit("[space]");
    let all = in_glyphs(s);
    if s.len() > 0 {
        let rest = s.skip(1);
        assert forall|i: int| 0 <= i < rest.len() implies is_letter(#[trigger] rest[i]) || rest[i]
            == ' ' by {
            assert(rest[i] == s[i + 1]);
        }
        lemma_run_in_glyphs(rest);
        if s[0] == ' ' {
            assert(all.take(7) == "[space]"@);
            assert(all.skip(7) == in_glyphs(rest));
        } else {
            assert(is_letter(s[0]));
            assert(all[2] == ']');
            if begins(all, "[space]"@) {
                assert(all.take(7)[2] == 'p');
            }
            assert(all.skip(3) == in_glyphs(rest));
        }
        assert(seq![s[0]] + rest == s);
    }
}

/// Two or more letters and spaces that come as glyphs of their own are read as they are.
pub proof fn law_run_of_glyphs_is_read(s: Seq<char>)
    requires
        s.len() >= 2,
        forall|i: int| 0 <= i < s.len() ==> is_letter(#[trigger] s[i]) || s[i] == ' ',
    ensures
        scrubbed(in_glyphs(s)) == trim(single_spaced(s)),
{
    let all = in_glyphs(s);
    lemma_run_in_glyphs(s);
    lemma_run_size(all);
    assert(all.skip(all.len() as int) == Seq::<char>::empty());
    assert(spelled_out(all.skip(run_size(all))) == Seq::<char>::empty());
    assert(s + Seq::<char>::empty() == s);
    assert(spelled_out(all) == s);
    lemma_spelled_bracketless(s);
    law_scrub_leaves_plain_text(s);
}

proof fn lemma_single_spaced(s: Seq<char>)
    ensures
        no_double_space(single_spaced(s)),
        s.len() > 0 ==> single_spaced(s).len() > 0 && single_spaced(s).last() == s.last(),
    decreases s.len(),
{
    if s.len() > 0 {
        lemma_single_spaced(s.drop_last());
    }
}

/// A scrubbed line has no two spaces side by side, and no white space at either end.
pub proof fn law_scrubbed_is_single_spaced(s: Seq<char>)
    ensures
        no_double_space(scrubbed(s)),
        scrubbed(s).len() > 0 ==> !is_white(scrubbed(s)[0]) && !is_white(scrubbed(s).last()),
{
    let spelled = spelled_out(s);
    let plain = without_unicode_glyphs(
        named(refilled(spelled, spelled.len() as int), glyphs().len() as int),
    );
    let spaced = single_spaced(plain);
    lemma_single_spaced(plain);
    lemma_trim_start(spaced);
    lemma_trim_end(trim_start(spaced));
    lemma_trim(spaced);
    let t = trim(spaced);
    let n = spaced.len() - trim_start(spaced).len();
    assert forall|i: int| 0 <= i < t.len() - 1 && #[trigger] t[i] == ' ' implies t[i + 1] != ' ' by {
        assert(trim_start(spaced).take(t.len() as int)[i] == trim_start(spaced)[i]);
        assert(trim_start(spaced).take(t.len() as int)[i + 1] == trim_start(spaced)[i + 1]);
        assert(spaced.skip(n)[i] == spaced[n + i]);
        assert(spaced.skip(n)[i + 1] == spaced[n + i + 1]);
    }
}

} // verus!
