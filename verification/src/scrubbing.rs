//! What scrubbing makes of a line, piece by piece.

use crate::chars::is_hex;
use crate::glyphs::{
    bracketless, glyphs, in_glyphs, is_letter, lemma_run_size, lemma_small_glyph, lost_f, named,
    refilled, run_count, run_size, run_text, scrubbed, single_spaced, small_glyph, spelled_out,
    unicode_glyph, without_unicode_glyphs,
};
use crate::search::{
    law_found_first, law_replaced_goes_on, law_replaced_nothing, lemma_find_is, stands,
};
use crate::text::{begins, find, replaced, trim};
use crate::words::no_double_space;
use vstd::prelude::*;

verus! {

/// True if `s` is something in brackets, without brackets inside.
pub open spec fn is_token(s: Seq<char>) -> bool {
    &&& s.len() >= 2
    &&& s[0] == '['
    &&& s.last() == ']'
    &&& forall|i: int| 0 < i < s.len() - 1 ==> #[trigger] s[i] != '[' && s[i] != ']'
}

proof fn lemma_begins_token(name: Seq<char>, rest: Seq<char>, pat: Seq<char>)
    requires
        is_token(name),
        is_token(pat),
        begins(name + rest, pat),
    ensures
        pat == name,
{
    let s = name + rest;
    let n = name.len() as int;
    let m = pat.len() as int;
    assert(s.take(m) == pat);
    if m < n {
        assert(pat[m - 1] == s.take(m)[m - 1]);
        assert(s[m - 1] == name[m - 1]);
        assert(pat.last() == pat[m - 1]);
    } else if m > n {
        assert(pat[n - 1] == s.take(m)[n - 1]);
        assert(s[n - 1] == name[n - 1]);
        assert(name.last() == name[n - 1]);
    } else {
        assert(s.take(m) == name);
    }
}

/// A text in front in which no occurrence begins stays as it is.
proof fn lemma_replaced_behind(x: Seq<char>, t: Seq<char>, pat: Seq<char>, with: Seq<char>)
    requires
        pat.len() > 0,
        forall|i: int| 0 <= i < x.len() ==> !#[trigger] stands(x + t, pat, i),
    ensures
        replaced(x + t, pat, with) == x + replaced(t, pat, with),
{
    let s = x + t;
    let n = x.len() as int;
    law_found_first(t, pat);
    assert forall|i: int| i >= n implies #[trigger] stands(s, pat, i) == stands(t, pat, i - n) by {
        if i + pat.len() <= s.len() {
            assert(s.subrange(i, i + pat.len()) == t.subrange(i - n, i - n + pat.len()));
        }
    }
    match find(t, pat) {
        None => {
            assert forall|j: int| !#[trigger] stands(s, pat, j) by {
                if j >= n {
                    assert(!stands(t, pat, j - n));
                }
            }
            law_replaced_nothing(s, pat, with);
            law_replaced_nothing(t, pat, with);
        },
        Some(k) => {
            let a = t.take(k);
            let b = t.skip(k + pat.len());
            assert(t.subrange(k, k + pat.len()) == pat);
            assert(t == a + pat + b);
            assert(s == (x + a) + pat + b);
            lemma_first_here(t, a, pat, b, k);
            assert(stands(s, pat, n + k));
            assert forall|j: int| j < n + k implies !#[trigger] stands(s, pat, j) by {
                if j >= n {
                    assert(!stands(t, pat, j - n));
                } else if j >= 0 {
                    assert(!stands(x + t, pat, j));
                }
            }
            lemma_first_here(s, x + a, pat, b, n + k);
            law_replaced_goes_on(a, pat, b, with);
            law_replaced_goes_on(x + a, pat, b, with);
            let rest = replaced(b, pat, with);
            assert(x + a + with + rest == x + (a + with + rest));
        },
    }
}

proof fn lemma_first_here(s: Seq<char>, a: Seq<char>, pat: Seq<char>, b: Seq<char>, k: int)
    requires
        s == a + pat + b,
        k == a.len(),
        forall|j: int| j < k ==> !#[trigger] stands(s, pat, j),
    ensures
        find(a + pat, pat) == Some(a.len() as int),
{
    let t = a + pat;
    assert(t.subrange(k, k + pat.len()) == pat);
    assert(stands(t, pat, k));
    assert forall|j: int| j < k implies !#[trigger] stands(t, pat, j) by {
        if stands(t, pat, j) {
            assert(t.subrange(j, j + pat.len()) == s.subrange(j, j + pat.len()));
            assert(stands(s, pat, j));
        }
    }
    lemma_find_is(t, pat, k);
}

/// True if `s` is text without an opening bracket, or something in brackets.
pub open spec fn is_segment(s: Seq<char>) -> bool {
    bracketless(s) || is_token(s)
}

proof fn lemma_replaced_segments(segs: Seq<Seq<char>>, pat: Seq<char>, with: Seq<char>)
    requires
        is_token(pat),
        forall|i: int| 0 <= i < segs.len() ==> is_segment(#[trigger] segs[i]),
    ensures
        replaced(segs.flatten(), pat, with) == segs.map_values(
            |g: Seq<char>|
                if g == pat {
                    with
                } else {
                    g
                },
        ).flatten(),
    decreases segs.len(),
{
    let swap = |g: Seq<char>|
        if g == pat {
            with
        } else {
            g
        };
    let all = segs.map_values(swap);
    if segs.len() == 0 {
        let s = segs.flatten();
        assert(s == Seq::<char>::empty());
        assert forall|j: int| !#[trigger] stands(s, pat, j) by {}
        law_replaced_nothing(s, pat, with);
        assert(all.flatten() == Seq::<char>::empty());
    } else {
        let g = segs[0];
        let rest = segs.drop_first();
        assert forall|i: int| 0 <= i < rest.len() implies is_segment(#[trigger] rest[i]) by {
            assert(rest[i] == segs[i + 1]);
        }
        lemma_replaced_segments(rest, pat, with);
        let t = rest.flatten();
        let s = g + t;
        assert(segs.flatten() == s);
        assert(all.drop_first() == rest.map_values(swap));
        assert(all.flatten() == swap(g) + all.drop_first().flatten());
        assert(is_segment(g));
        if g == pat {
            let none = Seq::<char>::empty();
            assert(none + pat == pat);
            assert(pat.subrange(0, pat.len() as int) == pat);
            assert(stands(pat, pat, 0));
            lemma_find_is(pat, pat, 0);
            assert(none + pat + t == s);
            law_replaced_goes_on(none, pat, t, with);
            assert(none + with + replaced(t, pat, with) == with + replaced(t, pat, with));
        } else {
            assert forall|i: int| 0 <= i < g.len() implies !#[trigger] stands(g + t, pat, i) by {
                if stands(s, pat, i) {
                    assert(s.subrange(i, i + pat.len())[0] == s[i]);
                    assert(s[i] == g[i]);
                    if is_token(g) {
                        if i == 0 {
                            assert(s.subrange(0, pat.len() as int) == s.take(pat.len() as int));
                            lemma_begins_token(g, t, pat);
                        } else if i == g.len() - 1 {
                            assert(g[i] == g.last());
                        } else {
                            assert(g[i] != '[');
                        }
                    } else {
                        assert(g[i] != '[');
                    }
                }
            }
            lemma_replaced_behind(g, t, pat, with);
        }
    }
}

/// True if `g` is the name of glyph `k`.
pub open spec fn names(g: Seq<char>, k: int) -> bool {
    0 <= k < glyphs().len() && glyphs()[k].0 == g
}

/// What a piece of a line is read as: a glyph name as what it stands for, anything else as itself.
pub open spec fn read_as(g: Seq<char>) -> Seq<char> {
    if exists|k: int| #[trigger] names(g, k) {
        glyphs()[choose|k: int| #[trigger] names(g, k)].1
    } else {
        g
    }
}

/// A piece once the first `n` glyph names are replaced.
spec fn substituted(g: Seq<char>, n: int) -> Seq<char>
    decreases n,
{
    if n <= 0 {
        g
    } else {
        let h = substituted(g, n - 1);
        if h == glyphs()[n - 1].0 {
            glyphs()[n - 1].1
        } else {
            h
        }
    }
}

proof fn lemma_glyph_tokens()
    ensures
        glyphs().len() == 22,
        forall|k: int| 0 <= k < 22 ==> is_token((#[trigger] glyphs()[k]).0),
        forall|k: int| 0 <= k < 22 ==> (#[trigger] glyphs()[k]).0.len() >= 4,
        forall|k: int| 0 < k < 22 ==> bracketless((#[trigger] glyphs()[k]).1),
{
    reveal_strlit("[bracketleft]");
    reveal_strlit("[bracketright]");
    reveal_strlit("[parenleft]");
    reveal_strlit("[parenright]");
    reveal_strlit("[bullet]");
    reveal_strlit("[dagger]");
    reveal_strlit("[daggerdbl]");
    reveal_strlit("[section]");
    reveal_strlit("[paragraph]");
    reveal_strlit("[endash]");
    reveal_strlit("[emdash]");
    reveal_strlit("[quotedblleft]");
    reveal_strlit("[quotedblright]");
    reveal_strlit("[quoteleft]");
    reveal_strlit("[quoteright]");
    reveal_strlit("[fi]");
    reveal_strlit("[fl]");
    reveal_strlit("[ff]");
    reveal_strlit("[ffi]");
    reveal_strlit("[ffl]");
    reveal_strlit("[ft]");
    reveal_strlit("[st]");
    reveal_strlit("]");
    reveal_strlit("(");
    reveal_strlit(")");
    reveal_strlit("");
    reveal_strlit("-");
    reveal_strlit("\u{2014}");
    reveal_strlit("\u{201C}");
    reveal_strlit("\u{201D}");
    reveal_strlit("'");
    reveal_strlit("fi");
    reveal_strlit("fl");
    reveal_strlit("ff");
    reveal_strlit("ffi");
    reveal_strlit("ffl");
    reveal_strlit("ft");
    reveal_strlit("st");
}

/// What tells glyph names apart: their length and three of their letters.
spec fn key(s: Seq<char>) -> (nat, char, char, char) {
    (s.len(), s[1], s[2], s[s.len() - 2])
}

proof fn lemma_glyph_keys()
    ensures
        key("[bracketleft]"@) == (13nat, 'b', 'r', 't'),
        key("[bracketright]"@) == (14nat, 'b', 'r', 't'),
        key("[parenleft]"@) == (11nat, 'p', 'a', 't'),
        key("[parenright]"@) == (12nat, 'p', 'a', 't'),
        key("[bullet]"@) == (8nat, 'b', 'u', 't'),
        key("[dagger]"@) == (8nat, 'd', 'a', 'r'),
        key("[daggerdbl]"@) == (11nat, 'd', 'a', 'l'),
        key("[section]"@) == (9nat, 's', 'e', 'n'),
        key("[paragraph]"@) == (11nat, 'p', 'a', 'h'),
        key("[endash]"@) == (8nat, 'e', 'n', 'h'),
        key("[emdash]"@) == (8nat, 'e', 'm', 'h'),
        key("[quotedblleft]"@) == (14nat, 'q', 'u', 't'),
        key("[quotedblright]"@) == (15nat, 'q', 'u', 't'),
        key("[quoteleft]"@) == (11nat, 'q', 'u', 't'),
        key("[quoteright]"@) == (12nat, 'q', 'u', 't'),
        key("[fi]"@) == (4nat, 'f', 'i', 'i'),
        key("[fl]"@) == (4nat, 'f', 'l', 'l'),
        key("[ff]"@) == (4nat, 'f', 'f', 'f'),
        key("[ffi]"@) == (5nat, 'f', 'f', 'i'),
        key("[ffl]"@) == (5nat, 'f', 'f', 'l'),
        key("[ft]"@) == (4nat, 'f', 't', 't'),
        key("[st]"@) == (4nat, 's', 't', 't'),
        key("[space]"@) == (7nat, 's', 'p', 'e'),
{
    reveal_strlit("[bracketleft]");
    reveal_strlit("[bracketright]");
    reveal_strlit("[parenleft]");
    reveal_strlit("[parenright]");
    reveal_strlit("[bullet]");
    reveal_strlit("[dagger]");
    reveal_strlit("[daggerdbl]");
    reveal_strlit("[section]");
    reveal_strlit("[paragraph]");
    reveal_strlit("[endash]");
    reveal_strlit("[emdash]");
    reveal_strlit("[quotedblleft]");
    reveal_strlit("[quotedblright]");
    reveal_strlit("[quoteleft]");
    reveal_strlit("[quoteright]");
    reveal_strlit("[fi]");
    reveal_strlit("[fl]");
    reveal_strlit("[ff]");
    reveal_strlit("[ffi]");
    reveal_strlit("[ffl]");
    reveal_strlit("[ft]");
    reveal_strlit("[st]");
    reveal_strlit("[space]");
}

proof fn lemma_glyphs_differ(j: int, k: int)
    requires
        0 <= j < 22,
        0 <= k < 22,
        glyphs()[j].0 == glyphs()[k].0,
    ensures
        j == k,
        glyphs()[j].0 != "[space]"@,
{
    lemma_glyph_keys();
    assert(key(glyphs()[j].0) == key(glyphs()[k].0));
}

proof fn lemma_substituted(g: Seq<char>, k: int, n: int)
    requires
        0 < k < 22,
        g == glyphs()[k].0,
        0 <= n <= 22,
    ensures
        substituted(g, n) == if n <= k {
            g
        } else {
            glyphs()[k].1
        },
    decreases n,
{
    lemma_glyph_tokens();
    if n > 0 {
        lemma_substituted(g, k, n - 1);
        let name = glyphs()[n - 1].0;
        if n - 1 < k {
            if g == name {
                lemma_glyphs_differ(k, n - 1);
            }
        } else if n - 1 > k {
            assert(bracketless(glyphs()[k].1));
            assert(is_token(name));
            if glyphs()[k].1 == name {
                assert(name[0] == '[');
            }
        }
    }
}

proof fn lemma_substituted_text(g: Seq<char>, n: int)
    requires
        bracketless(g),
        0 <= n <= 22,
    ensures
        substituted(g, n) == g,
    decreases n,
{
    lemma_glyph_tokens();
    if n > 0 {
        lemma_substituted_text(g, n - 1);
        let name = glyphs()[n - 1].0;
        assert(is_token(name));
        if g == name {
            assert(g[0] == '[');
        }
    }
}

/// True if `g` is text without an opening bracket, or a glyph name other than that of an opening
/// bracket.
pub open spec fn is_piece(g: Seq<char>) -> bool {
    bracketless(g) || exists|k: int| 0 < k < glyphs().len() && (#[trigger] glyphs()[k]).0 == g
}

proof fn lemma_read_as(g: Seq<char>, m: int)
    requires
        0 <= m < glyphs().len(),
        glyphs()[m].0 == g,
    ensures
        read_as(g) == glyphs()[m].1,
{
    lemma_glyph_tokens();
    assert(names(g, m));
    lemma_glyphs_differ(choose|k: int| #[trigger] names(g, k), m);
}

proof fn lemma_piece(g: Seq<char>, n: int)
    requires
        is_piece(g),
        0 <= n <= 22,
    ensures
        is_segment(substituted(g, n)),
        n == 22 ==> substituted(g, n) == read_as(g) && bracketless(read_as(g)),
{
    lemma_glyph_tokens();
    if bracketless(g) {
        lemma_substituted_text(g, n);
        assert forall|k: int| !#[trigger] names(g, k) by {
            if names(g, k) {
                assert(is_token(glyphs()[k].0));
                assert(g[0] == '[');
            }
        }
    } else {
        let k = choose|k: int| 0 < k < glyphs().len() && (#[trigger] glyphs()[k]).0 == g;
        lemma_substituted(g, k, n);
        assert(is_token(glyphs()[k].0));
        assert(bracketless(glyphs()[k].1));
        lemma_read_as(g, k);
    }
}

proof fn lemma_named_pieces(segs: Seq<Seq<char>>, n: int)
    requires
        0 <= n <= 22,
        forall|i: int| 0 <= i < segs.len() ==> is_piece(#[trigger] segs[i]),
    ensures
        named(segs.flatten(), n) == segs.map_values(
            |g: Seq<char>| substituted(g, n),
        ).flatten(),
    decreases n,
{
    let now = segs.map_values(|g: Seq<char>| substituted(g, n));
    lemma_glyph_tokens();
    if n == 0 {
        assert(now == segs);
    } else {
        lemma_named_pieces(segs, n - 1);
        let before = segs.map_values(|g: Seq<char>| substituted(g, n - 1));
        let pat = glyphs()[n - 1].0;
        let with = glyphs()[n - 1].1;
        assert forall|i: int| 0 <= i < before.len() implies is_segment(#[trigger] before[i]) by {
            assert(is_piece(segs[i]));
            lemma_piece(segs[i], n - 1);
        }
        lemma_replaced_segments(before, pat, with);
        let swap = |g: Seq<char>|
            if g == pat {
                with
            } else {
                g
            };
        assert(before.map_values(swap) == now);
    }
}

proof fn lemma_bracketless_concat(segs: Seq<Seq<char>>)
    requires
        forall|i: int| 0 <= i < segs.len() ==> bracketless(#[trigger] segs[i]),
    ensures
        bracketless(segs.flatten()),
    decreases segs.len(),
{
    if segs.len() > 0 {
        let rest = segs.drop_first();
        assert forall|i: int| 0 <= i < rest.len() implies bracketless(#[trigger] rest[i]) by {
            assert(rest[i] == segs[i + 1]);
        }
        lemma_bracketless_concat(rest);
        let s = segs[0] + rest.flatten();
        assert(segs.flatten() == s);
        assert(bracketless(segs[0]));
        assert forall|i: int| 0 <= i < s.len() implies #[trigger] s[i] != '[' by {
            if i < segs[0].len() {
                assert(s[i] == segs[0][i]);
            } else {
                assert(s[i] == rest.flatten()[i - segs[0].len()]);
            }
        }
    }
}

/// A text in front in which no run of single-character glyphs begins stays as it is.
proof fn lemma_spelled_behind(x: Seq<char>, t: Seq<char>)
    requires
        forall|i: int| 0 <= i < x.len() ==> run_count(#[trigger] (x + t).skip(i)) < 2,
    ensures
        spelled_out(x + t) == x + spelled_out(t),
    decreases x.len(),
{
    let s = x + t;
    if x.len() == 0 {
        assert(s == t);
        assert(x + spelled_out(t) == spelled_out(t));
    } else {
        assert(s.skip(0) == s);
        assert(run_count(s.skip(0)) < 2);
        let y = x.skip(1);
        assert(s.skip(1) == y + t);
        assert forall|i: int| 0 <= i < y.len() implies run_count(#[trigger] (y + t).skip(i))
            < 2 by {
            assert((y + t).skip(i) == (x + t).skip(i + 1));
        }
        lemma_spelled_behind(y, t);
        assert(seq![s[0]] + (y + spelled_out(t)) == x + spelled_out(t));
    }
}

proof fn lemma_no_small_glyph(s: Seq<char>)
    requires
        s.len() == 0 || s[0] != '[',
    ensures
        small_glyph(s) == 0,
        run_count(s) == 0,
{
    reveal_strlit("[space]");
    if begins(s, "[space]"@) {
        assert(s.take(7)[0] == s[0]);
    }
}

proof fn lemma_spelled_pieces(segs: Seq<Seq<char>>)
    requires
        forall|i: int| 0 <= i < segs.len() ==> is_piece(#[trigger] segs[i]),
    ensures
        spelled_out(segs.flatten()) == segs.flatten(),
    decreases segs.len(),
{
    if segs.len() > 0 {
        let g = segs[0];
        let rest = segs.drop_first();
        assert forall|i: int| 0 <= i < rest.len() implies is_piece(#[trigger] rest[i]) by {
            assert(rest[i] == segs[i + 1]);
        }
        lemma_spelled_pieces(rest);
        let t = rest.flatten();
        let s = g + t;
        assert(segs.flatten() == s);
        assert(is_piece(g));
        assert forall|i: int| 0 <= i < g.len() implies run_count(#[trigger] (g + t).skip(i)) < 2 by {
            let u = s.skip(i);
            assert(u[0] == g[i]);
            if bracketless(g) {
                lemma_no_small_glyph(u);
            } else {
                lemma_glyph_tokens();
                let k = choose|k: int| 0 < k < glyphs().len() && (#[trigger] glyphs()[k]).0 == g;
                assert(is_token(g) && g.len() >= 4);
                if i > 0 {
                    if i == g.len() - 1 {
                        assert(g[i] == g.last());
                    }
                    lemma_no_small_glyph(u);
                } else {
                    assert(u == s);
                    reveal_strlit("[space]");
                    if begins(s, "[space]"@) {
                        assert(is_token("[space]"@));
                        lemma_begins_token(g, t, "[space]"@);
                        lemma_glyphs_differ(k, k);
                    }
                    assert(s[2] == g[2]);
                    assert(small_glyph(s) == 0);
                }
            }
        }
        lemma_spelled_behind(g, t);
    }
}

proof fn lemma_nothing_refilled(s: Seq<char>, n: int)
    requires
        0 <= n <= s.len(),
        forall|i: int| !#[trigger] lost_f(s, i),
    ensures
        refilled(s, n) == s.take(n),
    decreases n,
{
    if n > 0 {
        lemma_nothing_refilled(s, n - 1);
        assert(!lost_f(s, n - 1));
        assert(s.take(n) == s.take(n - 1).push(s[n - 1]));
    }
}

proof fn lemma_unicode_none(s: Seq<char>)
    requires
        bracketless(s),
    ensures
        without_unicode_glyphs(s) == s,
    decreases s.len(),
{
    if s.len() > 0 {
        reveal_strlit("[uni");
        if begins(s, "[uni"@) {
            assert(s.take(4)[0] == s[0]);
        }
        assert(bracketless(s.skip(1)));
        lemma_unicode_none(s.skip(1));
        assert(seq![s[0]] + s.skip(1) == s);
    }
}

/// A line is read piece by piece: text stays as it is and each glyph name is read as what it
/// stands for, however many there are and in whatever order; only spare spaces go. (A ligature
/// that lost a letter is left out here, and so is the name of an opening bracket.)
pub proof fn law_scrubbed_piece_by_piece(segs: Seq<Seq<char>>, line: Seq<char>)
    requires
        line == segs.flatten(),
        forall|i: int| 0 <= i < segs.len() ==> is_piece(#[trigger] segs[i]),
        forall|i: int| !#[trigger] lost_f(line, i),
    ensures
        scrubbed(line) == trim(
            single_spaced(segs.map_values(|g: Seq<char>| read_as(g)).flatten()),
        ),
{
    lemma_spelled_pieces(segs);
    lemma_nothing_refilled(line, line.len() as int);
    assert(line.take(line.len() as int) == line);
    lemma_glyph_tokens();
    lemma_named_pieces(segs, 22);
    let done = segs.map_values(|g: Seq<char>| substituted(g, 22));
    let read = segs.map_values(|g: Seq<char>| read_as(g));
    assert forall|i: int| 0 <= i < segs.len() implies #[trigger] done[i] == read[i] && bracketless(
        read[i],
    ) by {
        assert(is_piece(segs[i]));
        lemma_piece(segs[i], 22);
    }
    assert(done == read);
    assert forall|i: int| 0 <= i < read.len() implies bracketless(#[trigger] read[i]) by {
        assert(done[i] == read[i]);
    }
    lemma_bracketless_concat(read);
    lemma_unicode_none(read.flatten());
}

/// A letter is put back exactly where "[fi]" stands between an e that begins a word and a c or a
/// g, and nowhere else.
pub proof fn law_lost_letters(s: Seq<char>, i: int)
    ensures
        lost_f(s, i) <==> {
            &&& 1 <= i && i + 4 < s.len()
            &&& s.subrange(i, i + 4) == seq!['[', 'f', 'i', ']']
            &&& s[i - 1] == 'e' || s[i - 1] == 'E'
            &&& s[i + 4] == 'c' || s[i + 4] == 'g'
            &&& i == 1 || !('a' <= s[i - 2] <= 'z' || 'A' <= s[i - 2] <= 'Z')
        },
{
    reveal_strlit("[fi]");
    assert("[fi]"@ == seq!['[', 'f', 'i', ']']);
    if 1 <= i && i + 4 < s.len() {
        assert(s.skip(i).take(4) == s.subrange(i, i + 4));
    }
}

/// Where a letter was lost it is put back, behind the bracket that the ligature begins with, and
/// the other characters stay as they are.
pub proof fn law_lost_letter_is_put_back(s: Seq<char>, i: int)
    requires
        lost_f(s, i),
        forall|j: int| j != i ==> !#[trigger] lost_f(s, j),
    ensures
        refilled(s, s.len() as int) == s.take(i + 1).push('f') + s.skip(i + 1),
{
    lemma_refilled_once(s, i, s.len() as int);
    assert(s.subrange(i + 1, s.len() as int) == s.skip(i + 1));
}

proof fn lemma_refilled_once(s: Seq<char>, i: int, n: int)
    requires
        lost_f(s, i),
        forall|j: int| j != i ==> !#[trigger] lost_f(s, j),
        0 <= n <= s.len(),
    ensures
        refilled(s, n) == if n <= i {
            s.take(n)
        } else {
            s.take(i + 1).push('f') + s.subrange(i + 1, n)
        },
    decreases n,
{
    if n > 0 {
        lemma_refilled_once(s, i, n - 1);
        if n - 1 < i {
            assert(!lost_f(s, n - 1));
            assert(s.take(n) == s.take(n - 1).push(s[n - 1]));
        } else if n - 1 == i {
            assert(s.take(n) == s.take(n - 1).push(s[n - 1]));
            assert(s.subrange(i + 1, n) == Seq::<char>::empty());
            assert(s.take(i + 1).push('f') + Seq::<char>::empty() == s.take(i + 1).push('f'));
        } else {
            assert(!lost_f(s, n - 1));
            assert(s.subrange(i + 1, n) == s.subrange(i + 1, n - 1).push(s[n - 1]));
            assert(s.take(i + 1).push('f') + s.subrange(i + 1, n - 1).push(s[n - 1]) == (s.take(
                i + 1,
            ).push('f') + s.subrange(i + 1, n - 1)).push(s[n - 1]));
        }
    }
}

/// A text without two spaces in a row stays as it is, and two spaces in a row count as one.
pub proof fn law_spaces_collapse(a: Seq<char>, b: Seq<char>)
    ensures
        single_spaced(a + seq![' ', ' '] + b) == single_spaced(a + seq![' '] + b),
        no_double_space(a) ==> single_spaced(a) == a,
    decreases b.len(),
{
    let x = a + seq![' ', ' '] + b;
    let y = a + seq![' '] + b;
    if b.len() == 0 {
        assert(x.drop_last() == y);
        assert(x.last() == ' ' && x[x.len() - 2] == ' ');
    } else {
        law_spaces_collapse(a, b.drop_last());
        assert(x.drop_last() == a + seq![' ', ' '] + b.drop_last());
        assert(y.drop_last() == a + seq![' '] + b.drop_last());
        assert(x.last() == b.last() && y.last() == b.last());
        if b.len() >= 2 {
            assert(x[x.len() - 2] == b[b.len() - 2]);
            assert(y[y.len() - 2] == b[b.len() - 2]);
        } else {
            assert(x[x.len() - 2] == ' ');
            assert(y[y.len() - 2] == ' ');
        }
    }
    if no_double_space(a) {
        lemma_spaces_stay(a);
    }
}

proof fn lemma_spaces_stay(a: Seq<char>)
    requires
        no_double_space(a),
    ensures
        single_spaced(a) == a,
    decreases a.len(),
{
    if a.len() > 0 {
        let front = a.drop_last();
        assert forall|i: int| 0 <= i < front.len() - 1 && #[trigger] front[i] == ' ' implies front[i
            + 1] != ' ' by {
            assert(front[i] == a[i]);
            assert(front[i + 1] == a[i + 1]);
        }
        lemma_spaces_stay(front);
        if a.len() >= 2 {
            assert(a[a.len() - 2] == ' ' ==> a[a.len() - 2 + 1] != ' ');
        }
        assert(front.push(a.last()) == a);
    }
}

/// The name of a Unicode glyph, with one hexadecimal digit or more, goes; what stands before it
/// stays as it is, and what follows is looked through for itself.
pub proof fn law_unicode_names_go(a: Seq<char>, digits: Seq<char>, b: Seq<char>)
    requires
        bracketless(a),
        digits.len() > 0,
        forall|i: int| 0 <= i < digits.len() ==> is_hex(#[trigger] digits[i]),
    ensures
        without_unicode_glyphs(a + seq!['[', 'u', 'n', 'i'] + digits + seq![']'] + b) == a
            + without_unicode_glyphs(b),
    decreases a.len(),
{
    reveal_strlit("[uni");
    let u = seq!['[', 'u', 'n', 'i'] + digits + seq![']'];
    let s = a + seq!['[', 'u', 'n', 'i'] + digits + seq![']'] + b;
    assert(s == a + u + b);
    if a.len() == 0 {
        assert(s == u + b);
        assert("[uni"@ == seq!['[', 'u', 'n', 'i']);
        assert(s.take(4) == "[uni"@);
        let c = 4 + digits.len() as int;
        let close = seq![']'];
        assert(s[c] == ']');
        assert(s.subrange(c, c + 1) == close);
        assert(stands(s, close, c));
        assert forall|j: int| j < c implies !#[trigger] stands(s, close, j) by {
            if stands(s, close, j) {
                assert(s.subrange(j, j + 1)[0] == s[j]);
                if j >= 4 {
                    assert(s[j] == digits[j - 4]);
                    assert(is_hex(digits[j - 4]));
                }
            }
        }
        lemma_find_is(s, close, c);
        assert forall|i: int| 4 <= i < c implies is_hex(#[trigger] s[i]) by {
            assert(s[i] == digits[i - 4]);
        }
        assert(unicode_glyph(s) == c + 1);
        assert(s.skip(c + 1) == b);
        assert(a + without_unicode_glyphs(b) == without_unicode_glyphs(b));
    } else {
        let rest = a.skip(1);
        assert(bracketless(rest));
        law_unicode_names_go(rest, digits, b);
        assert(s[0] == a[0]);
        assert(s.skip(1) == rest + seq!['[', 'u', 'n', 'i'] + digits + seq![']'] + b);
        if begins(s, "[uni"@) {
            assert(s.take(4)[0] == s[0]);
        }
        assert(seq![a[0]] + (rest + without_unicode_glyphs(b)) == a + without_unicode_glyphs(b));
    }
}

/// Where a character begins no name of a Unicode glyph, it stays: a name needs a digit, digits
/// only, and a bracket at its end.
pub proof fn law_other_text_stays(s: Seq<char>)
    requires
        s.len() > 0,
        s[0] != '[' || !begins(s, seq!['[', 'u', 'n', 'i']) || (forall|j: int|
            !#[trigger] stands(s, seq![']'], j)) || (exists|i: int|
            4 <= i < s.len() && !is_hex(#[trigger] s[i]) && s[i] != ']' && forall|j: int|
                0 <= j < i ==> #[trigger] s[j] != ']') || (s.len() > 4 && s[4] == ']'),
    ensures
        without_unicode_glyphs(s) == seq![s[0]] + without_unicode_glyphs(s.skip(1)),
{
    reveal_strlit("[uni");
    assert("[uni"@ == seq!['[', 'u', 'n', 'i']);
    let close = seq![']'];
    law_found_first(s, close);
    if begins(s, "[uni"@) {
        assert(s.take(4)[0] == s[0] && s.take(4)[1] == s[1] && s.take(4)[2] == s[2] && s.take(4)[3]
            == s[3]);
        match find(s, close) {
            Some(c) => {
                assert(s.subrange(c, c + 1)[0] == s[c]);
                if s.len() > 4 && s[4] == ']' {
                    assert(s.subrange(4, 5) == close);
                    assert(stands(s, close, 4));
                } else {
                    let i = choose|i: int|
                        4 <= i < s.len() && !is_hex(#[trigger] s[i]) && s[i] != ']' && forall|j: int|
                            0 <= j < i ==> #[trigger] s[j] != ']';
                    assert(c > i);
                }
            },
            None => {},
        }
    }
}

/// A run of two or more glyphs of one character each is read as those characters, and what
/// follows it is read for itself; a glyph of one character that stands alone stays as it is.
pub proof fn law_runs_are_spelled_out(s: Seq<char>)
    requires
        s.len() > 0,
    ensures
        run_count(s) >= 2 ==> spelled_out(s) == run_text(s) + spelled_out(s.skip(run_size(s))),
        run_count(s) < 2 ==> spelled_out(s) == seq![s[0]] + spelled_out(s.skip(1)),
        run_text(s).len() == run_count(s),
        small_glyph(s) == 0 ==> run_count(s) == 0,
        small_glyph(s) == 3 <==> s.len() >= 3 && s[0] == '[' && s[2] == ']' && ('a' <= s[1] <= 'z'
            || 'A' <= s[1] <= 'Z'),
        small_glyph(s) == 7 <==> s.len() >= 7 && s.take(7) == "[space]"@,
        small_glyph(s) == 0 || small_glyph(s) == 3 || small_glyph(s) == 7,
        small_glyph(s) > 0 ==> {
            &&& run_count(s) == 1 + run_count(s.skip(small_glyph(s)))
            &&& run_text(s)[0] == if small_glyph(s) == 3 {
                s[1]
            } else {
                ' '
            }
        },
{
    reveal_strlit("[space]");
    lemma_run_text_len(s);
    if begins(s, "[space]"@) {
        assert(s.take(7)[2] == s[2]);
    }
}

proof fn lemma_run_text_len(s: Seq<char>)
    ensures
        run_text(s).len() == run_count(s),
    decreases s.len(),
{
    lemma_small_glyph(s);
    lemma_run_size(s);
    if small_glyph(s) > 0 {
        lemma_run_text_len(s.skip(small_glyph(s)));
    }
}

proof fn lemma_run_then(t: Seq<char>, b: Seq<char>)
    requires
        forall|i: int| 0 <= i < t.len() ==> is_letter(#[trigger] t[i]) || t[i] == ' ',
        b.len() == 0 || b[0] != '[',
    ensures
        run_text(in_glyphs(t) + b) == t,
        run_count(in_glyphs(t) + b) == t.len(),
        run_size(in_glyphs(t) + b) == in_glyphs(t).len(),
    decreases t.len(),
{
    reveal_strlit("[space]");
    let all = in_glyphs(t) + b;
    if t.len() == 0 {
        assert(all == b);
        lemma_no_small_glyph(b);
    } else {
        let rest = t.skip(1);
        assert forall|i: int| 0 <= i < rest.len() implies is_letter(#[trigger] rest[i]) || rest[i]
            == ' ' by {
            assert(rest[i] == t[i + 1]);
        }
        lemma_run_then(rest, b);
        if t[0] == ' ' {
            assert(all.take(7) == "[space]"@);
            assert(all.skip(7) == in_glyphs(rest) + b);
        } else {
            assert(is_letter(t[0]));
            assert(all[0] == '[' && all[1] == t[0] && all[2] == ']');
            if begins(all, "[space]"@) {
                assert(all.take(7)[2] == 'p');
            }
            assert(all.skip(3) == in_glyphs(rest) + b);
        }
        assert(seq![t[0]] + rest == t);
    }
}

/// Letters and spaces that come as glyphs of their own, two or more in a row, are read as they are
/// wherever they stand in a line; a single one stays as it is.
pub proof fn law_run_in_a_line(a: Seq<char>, t: Seq<char>, b: Seq<char>)
    requires
        bracketless(a),
        t.len() >= 1,
        forall|i: int| 0 <= i < t.len() ==> is_letter(#[trigger] t[i]) || t[i] == ' ',
        b.len() == 0 || b[0] != '[',
    ensures
        t.len() >= 2 ==> spelled_out(a + (in_glyphs(t) + b)) == a + (t + spelled_out(b)),
        t.len() == 1 ==> spelled_out(a + (in_glyphs(t) + b)) == a + (in_glyphs(t) + spelled_out(b)),
{
    let g = in_glyphs(t);
    let r = g + b;
    lemma_run_then(t, b);
    assert forall|i: int| 0 <= i < a.len() implies run_count(#[trigger] (a + r).skip(i)) < 2 by {
        assert((a + r).skip(i)[0] == a[i]);
        lemma_no_small_glyph((a + r).skip(i));
    }
    lemma_spelled_behind(a, r);
    lemma_run_size(r);
    if t.len() >= 2 {
        assert(r.skip(g.len() as int) == b);
    } else {
        reveal_strlit("[space]");
        let none = Seq::<char>::empty();
        assert(t.skip(1) == none);
        assert(in_glyphs(t.skip(1)) == none);
        if t[0] == ' ' {
            assert(g == "[space]"@);
        } else {
            assert(g == seq!['[', t[0], ']']);
        }
        assert forall|i: int| 0 <= i < g.len() implies run_count(#[trigger] (g + b).skip(i)) < 2 by {
            if i == 0 {
                assert(r.skip(0) == r);
            } else {
                assert(r.skip(i)[0] == g[i]);
                lemma_no_small_glyph(r.skip(i));
            }
        }
        lemma_spelled_behind(g, b);
    }
}

/// A line with the name of a Unicode glyph is read as if the name were not there.
pub proof fn law_unicode_names_are_not_read(a: Seq<char>, digits: Seq<char>, b: Seq<char>)
    requires
        bracketless(a),
        bracketless(b),
        digits.len() > 0,
        forall|i: int| 0 <= i < digits.len() ==> is_hex(#[trigger] digits[i]),
    ensures
        scrubbed(a + (seq!['[', 'u', 'n', 'i'] + digits + seq![']']) + b) == trim(
            single_spaced(a + b),
        ),
{
    let u = seq!['[', 'u', 'n', 'i'] + digits + seq![']'];
    let line = a + u + b;
    let segs = seq![a, u, b];
    let n = u.len() as int;
    assert(is_token(u)) by {
        assert(u[0] == '[' && u.last() == ']');
        assert forall|i: int| 0 < i < u.len() - 1 implies #[trigger] u[i] != '[' && u[i] != ']' by {
            if i >= 4 {
                assert(u[i] == digits[i - 4]);
                assert(is_hex(digits[i - 4]));
            }
        }
    }
    reveal_with_fuel(Seq::<Seq<char>>::flatten, 4);
    assert(segs.drop_first() == seq![u, b]);
    assert(segs.drop_first().drop_first() == seq![b]);
    assert(segs.drop_first().drop_first().drop_first() == Seq::<Seq<char>>::empty());
    assert(segs.flatten() == line);
    lemma_other_token(u, a, b);
    assert(spelled_out(line) == line);
    assert forall|i: int| !#[trigger] lost_f(line, i) by {
        law_lost_letters(line, i);
        if lost_f(line, i) {
            let f = line.subrange(i, i + 4);
            assert(f[0] == line[i] && f[1] == line[i + 1]);
            if i < a.len() {
                assert(line[i] == a[i]);
            } else if i >= a.len() + n {
                assert(line[i] == b[i - a.len() - n]);
            } else {
                assert(line[i] == u[i - a.len()]);
                if i - a.len() == n - 1 {
                    assert(u[n - 1] == u.last());
                }
                assert(i == a.len());
                assert(line[i + 1] == u[1]);
            }
        }
    }
    lemma_nothing_refilled(line, line.len() as int);
    assert(line.take(line.len() as int) == line);
    lemma_glyph_tokens();
    lemma_named_others(segs, u, 22);
    law_unicode_names_go(a, digits, b);
    assert(a + seq!['[', 'u', 'n', 'i'] + digits + seq![']'] + b == line);
    lemma_unicode_none(b);
}

proof fn lemma_other_token(u: Seq<char>, a: Seq<char>, b: Seq<char>)
    requires
        is_token(u),
        u.len() >= 6,
        u[1] == 'u',
        bracketless(a),
        bracketless(b),
    ensures
        spelled_out(a + u + b) == a + u + b,
{
    let t = u + b;
    assert forall|i: int| 0 <= i < a.len() implies run_count(#[trigger] (a + t).skip(i)) < 2 by {
        assert((a + t).skip(i)[0] == a[i]);
        lemma_no_small_glyph((a + t).skip(i));
    }
    lemma_spelled_behind(a, t);
    assert forall|i: int| 0 <= i < u.len() implies run_count(#[trigger] (u + b).skip(i)) < 2 by {
        let s = t.skip(i);
        assert(s[0] == u[i]);
        if i > 0 {
            if i == u.len() - 1 {
                assert(u[i] == u.last());
            }
            lemma_no_small_glyph(s);
        } else {
            reveal_strlit("[space]");
            assert(s[1] == u[1] && s[2] == u[2]);
            if begins(s, "[space]"@) {
                assert(s.take(7)[1] == s[1]);
            }
        }
    }
    lemma_spelled_behind(u, b);
    let none = Seq::<char>::empty();
    assert forall|i: int| 0 <= i < b.len() implies run_count(#[trigger] (b + none).skip(i)) < 2 by {
        assert((b + none).skip(i)[0] == b[i]);
        lemma_no_small_glyph((b + none).skip(i));
    }
    lemma_spelled_behind(b, none);
    assert(b + none == b);
    assert(spelled_out(none) == none);
    assert(a + t == a + u + b);
    assert(a + (u + b) == a + u + b);
}

proof fn lemma_named_others(segs: Seq<Seq<char>>, u: Seq<char>, n: int)
    requires
        0 <= n <= 22,
        segs.len() == 3,
        bracketless(segs[0]),
        segs[1] == u,
        bracketless(segs[2]),
        is_token(u),
        u[1] == 'u',
    ensures
        named(segs.flatten(), n) == segs.flatten(),
    decreases n,
{
    if n > 0 {
        lemma_named_others(segs, u, n - 1);
        lemma_glyph_tokens();
        lemma_glyph_keys();
        let pat = glyphs()[n - 1].0;
        let with = glyphs()[n - 1].1;
        assert(key(pat).1 != 'u');
        lemma_replaced_segments(segs, pat, with);
        let swap = |g: Seq<char>|
            if g == pat {
                with
            } else {
                g
            };
        assert(is_token(pat));
        assert forall|i: int| 0 <= i < 3 implies #[trigger] segs[i] != pat by {
            if segs[i] == pat {
                assert(pat[0] == '[');
            }
        }
        assert(segs.map_values(swap) == segs);
    }
}

/// A word that begins with "effic" or "effig" and lost a letter to a ligature is read in full.
pub proof fn law_ligature_is_read_in_full(a: Seq<char>, e: char, c: char, b: Seq<char>)
    requires
        bracketless(a),
        bracketless(b),
        e == 'e' || e == 'E',
        c == 'c' || c == 'g',
        a.len() == 0 || !is_letter(a.last()),
    ensures
        scrubbed(a.push(e) + "[fi]"@ + (seq![c] + b)) == trim(
            single_spaced(a.push(e) + "ffi"@ + (seq![c] + b)),
        ),
{
    reveal_strlit("[fi]");
    reveal_strlit("ffi");
    reveal_strlit("fi");
    let name = "[fi]"@;
    let x = a.push(e);
    let y = seq![c] + b;
    let line = x + name + y;
    let i = x.len() as int;
    lemma_glyph_tokens();
    assert(glyphs()[15].0 == name && glyphs()[15].1 == "fi"@);
    assert(bracketless(x)) by {
        assert forall|j: int| 0 <= j < x.len() implies #[trigger] x[j] != '[' by {
            if j < a.len() {
                assert(x[j] == a[j]);
            }
        }
    }
    assert(bracketless(y)) by {
        assert forall|j: int| 0 <= j < y.len() implies #[trigger] y[j] != '[' by {
            if j > 0 {
                assert(y[j] == b[j - 1]);
            }
        }
    }
    let segs = seq![x, name, y];
    reveal_with_fuel(Seq::<Seq<char>>::flatten, 4);
    assert(segs.drop_first() == seq![name, y]);
    assert(segs.drop_first().drop_first() == seq![y]);
    assert(segs.drop_first().drop_first().drop_first() == Seq::<Seq<char>>::empty());
    assert(segs.flatten() == line);
    assert(is_piece(name));
    lemma_spelled_pieces(segs);
    law_lost_letters(line, i);
    assert(line.subrange(i, i + 4) == seq!['[', 'f', 'i', ']']);
    assert(line[i - 1] == e);
    assert(line[i + 4] == c);
    if i > 1 {
        assert(line[i - 2] == a[i - 2]);
        assert(a.last() == a[i - 2]);
    }
    assert(lost_f(line, i));
    assert forall|j: int| j != i implies !#[trigger] lost_f(line, j) by {
        law_lost_letters(line, j);
        if lost_f(line, j) {
            assert(line.subrange(j, j + 4)[0] == line[j]);
            if j < i {
                assert(line[j] == x[j]);
            } else if j >= i + 4 {
                assert(line[j] == y[j - i - 4]);
            } else {
                assert(line[j] == name[j - i]);
            }
        }
    }
    law_lost_letter_is_put_back(line, i);
    let filled = line.take(i + 1).push('f') + line.skip(i + 1);
    reveal_strlit("[ffi]");
    assert(filled == x + "[ffi]"@ + y);
    lemma_filled_line(x, y, filled);
}

proof fn lemma_filled_line(x: Seq<char>, y: Seq<char>, filled: Seq<char>)
    requires
        bracketless(x),
        bracketless(y),
        filled == x + "[ffi]"@ + y,
    ensures
        without_unicode_glyphs(named(filled, glyphs().len() as int)) == x + "ffi"@ + y,
{
    reveal_strlit("[ffi]");
    reveal_strlit("ffi");
    lemma_glyph_tokens();
    let name = "[ffi]"@;
    assert(glyphs()[18].0 == name && glyphs()[18].1 == "ffi"@);
    let segs = seq![x, name, y];
    reveal_with_fuel(Seq::<Seq<char>>::flatten, 4);
    assert(segs.drop_first() == seq![name, y]);
    assert(segs.drop_first().drop_first() == seq![y]);
    assert(segs.drop_first().drop_first().drop_first() == Seq::<Seq<char>>::empty());
    assert(segs.flatten() == filled);
    assert(is_piece(name));
    lemma_named_pieces(segs, 22);
    let done = segs.map_values(|g: Seq<char>| substituted(g, 22));
    lemma_substituted_text(x, 22);
    lemma_substituted_text(y, 22);
    lemma_substituted(name, 18, 22);
    assert(done == seq![x, "ffi"@, y]);
    assert(done.drop_first() == seq!["ffi"@, y]);
    assert(done.drop_first().drop_first() == seq![y]);
    assert(done.drop_first().drop_first().drop_first() == Seq::<Seq<char>>::empty());
    assert(done.flatten() == x + "ffi"@ + y);
    assert forall|i: int| 0 <= i < done.len() implies bracketless(#[trigger] done[i]) by {
        if i == 1 {
            assert(done[i] == "ffi"@);
        }
    }
    lemma_bracketless_concat(done);
    lemma_unicode_none(done.flatten());
}

} // verus!
