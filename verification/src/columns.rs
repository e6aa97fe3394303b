//! The reading order of a page: columns, and the lines that its words make.

use crate::order::{
    holds, is_shuffle, lemma_held_below, lemma_insert, lemma_same_order, lemma_shuffle, ordered,
};
use crate::text::{chars_of, extend, join, rows, strings_of, texts, words};
use crate::words::{
    all_words, is_blank, lemma_all_words_concat, lemma_words_blank, lemma_words_concat,
};
use vstd::prelude::*;

verus! {

/// Where a word stands on a page.
#[derive(Debug, Clone, Copy, PartialEq, Eq, Structural)]
pub enum Band {
    Left,
    Right,
    /// Across the centre of the page.
    Spanning,
}

/// A word's place. Of two words the one with the smaller `top` stands higher, and the one with
/// the smaller `x0` further to the left.
#[derive(Debug, Clone, Copy, PartialEq, Eq, Structural)]
pub struct Place {
    pub band: Band,
    pub top: u64,
    pub x0: u64,
}

/// The order in which the words of a band are read: the one that stands higher, or as high and
/// further to the left, or in the same place and came first, before the other.
pub open spec fn by_place(page: Seq<Place>) -> spec_fn(int, int) -> bool {
    |i: int, j: int|
        {
            ||| page[i].top < page[j].top
            ||| page[i].top == page[j].top && page[i].x0 < page[j].x0
            ||| page[i].top == page[j].top && page[i].x0 == page[j].x0 && i < j
        }
}

/// True if `list` holds the words of `page` that `wanted` picks, each once, in reading order.
pub open spec fn lists(page: Seq<Place>, list: Seq<usize>, wanted: spec_fn(int) -> bool) -> bool {
    ordered(list, by_place(page)) && holds(list, page.len() as int, wanted)
}

/// The words of `page` that stand in `band`.
pub open spec fn in_band(page: Seq<Place>, band: Band) -> spec_fn(int) -> bool {
    |i: int| page[i].band == band
}

/// Number of words of `page` that stand in `band`.
pub open spec fn tally(page: Seq<Place>, band: Band) -> nat
    decreases page.len(),
{
    if page.len() == 0 {
        0
    } else if page.last().band == band {
        tally(page.drop_last(), band) + 1
    } else {
        tally(page.drop_last(), band)
    }
}

/// True if `page` is set in one column: more of its words span the centre than do not.
pub open spec fn one_column(page: Seq<Place>) -> bool {
    tally(page, Band::Spanning) > tally(page, Band::Left) + tally(page, Band::Right)
}

/// True if `order` lists the words of `page` in the groups in which they are read: all together
/// where there is one column, else those across the centre, the left column and the right one.
pub open spec fn is_reading_order(page: Seq<Place>, order: Seq<Vec<usize>>) -> bool {
    if one_column(page) {
        order.len() == 1 && lists(page, order[0]@, |i: int| true)
    } else {
        &&& order.len() == 3
        &&& lists(page, order[0]@, in_band(page, Band::Spanning))
        &&& lists(page, order[1]@, in_band(page, Band::Left))
        &&& lists(page, order[2]@, in_band(page, Band::Right))
    }
}

/// Puts word `i` into its place in `list`.
fn place_word(page: &[Place], list: &mut Vec<usize>, i: usize, wanted: Ghost<spec_fn(int) -> bool>)
    requires
        i < page.len(),
        ordered(old(list)@, by_place(page@)),
        holds(old(list)@, i as int, wanted@),
        wanted@(i as int),
    ensures
        ordered(final(list)@, by_place(page@)),
        holds(final(list)@, i + 1, wanted@),
{
    let ghost list0 = list@;
    let ghost before = by_place(page@);
    proof {
        lemma_held_below(list0, i as int, wanted@);
    }
    let here = page[i];
    let mut p: usize = list.len();
    while p > 0
        invariant
            p <= list.len(),
            list@ == list0,
            i < page.len(),
            here == page@[i as int],
            before == by_place(page@),
            forall|a: int| 0 <= a < list0.len() ==> (#[trigger] list0[a]) < i,
            forall|a: int| p <= a < list0.len() ==> before(
                i as int,
                (#[trigger] list0[a]) as int,
            ),
        ensures
            p > 0 ==> before(list0[p - 1] as int, i as int),
        decreases p,
    {
        let there = page[list[p - 1]];
        if !(here.top < there.top || (here.top == there.top && here.x0 < there.x0)) {
            break;
        }
        p -= 1;
    }
    list.insert(p, i);
    proof {
        assert forall|a: int| 0 <= a < p implies before((#[trigger] list0[a]) as int, i as int) by {
            if a < p - 1 {
                assert(before(list0[a] as int, list0[p - 1] as int));
            }
        }
        lemma_insert(list0, p as int, i, wanted@, before);
    }
}

/// The words of the page in the order in which they are read.
pub fn reading_order(page: &[Place]) -> (r: Vec<Vec<usize>>)
    ensures
        is_reading_order(page@, r@),
{
    let ghost every = |i: int| true;
    let mut all: Vec<usize> = Vec::new();
    let mut left: Vec<usize> = Vec::new();
    let mut right: Vec<usize> = Vec::new();
    let mut span: Vec<usize> = Vec::new();
    let mut n_span: usize = 0;
    let mut n_side: usize = 0;
    let mut i: usize = 0;
    while i < page.len()
        invariant
            i <= page.len(),
            every == (|i: int| true),
            ordered(all@, by_place(page@)),
            ordered(left@, by_place(page@)),
            ordered(right@, by_place(page@)),
            ordered(span@, by_place(page@)),
            holds(all@, i as int, every),
            holds(left@, i as int, in_band(page@, Band::Left)),
            holds(right@, i as int, in_band(page@, Band::Right)),
            holds(span@, i as int, in_band(page@, Band::Spanning)),
            n_span + n_side == i,
            n_span == tally(page@.take(i as int), Band::Spanning),
            n_side == tally(page@.take(i as int), Band::Left) + tally(
                page@.take(i as int),
                Band::Right,
            ),
        decreases page.len() - i,
    {
        assert(page@.take(i + 1).drop_last() == page@.take(i as int));
        place_word(page, &mut all, i, Ghost(every));
        match page[i].band {
            Band::Spanning => {
                place_word(page, &mut span, i, Ghost(in_band(page@, Band::Spanning)));
                n_span += 1;
            },
            Band::Left => {
                place_word(page, &mut left, i, Ghost(in_band(page@, Band::Left)));
                n_side += 1;
            },
            Band::Right => {
                place_word(page, &mut right, i, Ghost(in_band(page@, Band::Right)));
                n_side += 1;
            },
        }
        i += 1;
    }
    assert(page@.take(page@.len() as int) == page@);
    let mut order: Vec<Vec<usize>> = Vec::new();
    if n_span > n_side {
        order.push(all);
    } else {
        order.push(span);
        order.push(left);
        order.push(right);
    }
    order
}

/// A word of a page, and whether it begins a new line.
#[derive(Debug, Clone)]
pub struct LineWord {
    pub text: String,
    pub starts_line: bool,
}

impl View for LineWord {
    type V = (Seq<char>, bool);

    open spec fn view(&self) -> (Seq<char>, bool) {
        (self.text@, self.starts_line)
    }
}

/// The words with their marks.
pub open spec fn marked(list: Seq<LineWord>) -> Seq<(Seq<char>, bool)> {
    list.map_values(|w: LineWord| w@)
}

/// The lines that the first `n` words of `list` make: a word that begins no line goes to the line
/// before it, behind a space.
pub open spec fn clustered(list: Seq<(Seq<char>, bool)>, n: int) -> Seq<Seq<char>>
    decreases n,
{
    if n <= 0 {
        Seq::empty()
    } else {
        let done = clustered(list, n - 1);
        let text = list[n - 1].0;
        if done.len() == 0 || list[n - 1].1 {
            done.push(text)
        } else {
            done.drop_last().push(done.last().push(' ') + text)
        }
    }
}

/// The lines that the words of a group make.
pub fn cluster_into_lines(list: &[LineWord]) -> (r: Vec<String>)
    ensures
        texts(r@) == clustered(marked(list@), list@.len() as int),
{
    let ghost all = marked(list@);
    let mut done: Vec<Vec<char>> = Vec::new();
    let mut i: usize = 0;
    assert(rows(done@) == Seq::<Seq<char>>::empty());
    while i < list.len()
        invariant
            i <= list.len(),
            all == marked(list@),
            rows(done@) == clustered(all, i as int),
        decreases list.len() - i,
    {
        let ghost before = done@;
        let text = chars_of(list[i].text.as_str());
        assert(all[i as int] == (text@, list@[i as int].starts_line));
        match done.pop() {
            Some(line) => {
                assert(before == done@.push(line));
                assert(rows(before) == rows(done@).push(line@));
                assert(rows(before).drop_last() == rows(done@));
                let ghost shorter = done@;
                if list[i].starts_line {
                    done.push(line);
                    done.push(text);
                    assert(rows(done@) == rows(shorter).push(line@).push(text@));
                } else {
                    let mut longer = line;
                    longer.push(' ');
                    extend(&mut longer, text.as_slice());
                    done.push(longer);
                    assert(rows(done@) == rows(shorter).push(longer@));
                }
            },
            None => {
                assert(rows(before).len() == 0);
                done.push(text);
                assert(rows(done@) == rows(before).push(text@));
            },
        }
        i += 1;
    }
    strings_of(done.as_slice())
}

/// The words of `list` at the positions of `group`, with their marks.
pub open spec fn group_words(list: Seq<Seq<char>>, group: Seq<usize>, breaks: Seq<bool>) -> Seq<
    (Seq<char>, bool),
> {
    Seq::new(group.len(), |k: int| (list[group[k] as int], breaks[k]))
}

/// The lines of the first `n` groups of the words `list`, one group after the other.
pub open spec fn page_lines(
    list: Seq<Seq<char>>,
    order: Seq<Vec<usize>>,
    breaks: Seq<Vec<bool>>,
    n: int,
) -> Seq<Seq<char>>
    decreases n,
{
    if n <= 0 {
        Seq::empty()
    } else {
        page_lines(list, order, breaks, n - 1) + clustered(
            group_words(list, order[n - 1]@, breaks[n - 1]@),
            order[n - 1]@.len() as int,
        )
    }
}

/// True if `order` lists positions below `count`, and `breaks` has a mark for each of them.
pub open spec fn is_marked(count: int, order: Seq<Vec<usize>>, breaks: Seq<Vec<bool>>) -> bool {
    &&& order.len() == breaks.len()
    &&& forall|g: int| 0 <= g < order.len() ==> (#[trigger] order[g])@.len() == breaks[g]@.len()
    &&& forall|g: int, k: int|
        0 <= g < order.len() && 0 <= k < order[g]@.len() ==> (#[trigger] order[g]@[k]) < count
}

/// The lines of a page that has the words `list`: those of the groups of `order`, one group after
/// the other. `breaks` tells of each position in a group whether the word there begins a new line.
pub fn words_to_lines(list: &[String], order: &[Vec<usize>], breaks: &[Vec<bool>]) -> (r: Vec<
    String,
>)
    requires
        is_marked(list@.len() as int, order@, breaks@),
    ensures
        texts(r@) == page_lines(texts(list@), order@, breaks@, order@.len() as int),
{
    let ghost all = texts(list@);
    let mut out: Vec<String> = Vec::new();
    let mut g: usize = 0;
    assert(texts(out@) == page_lines(all, order@, breaks@, 0));
    while g < order.len()
        invariant
            g <= order.len(),
            all == texts(list@),
            is_marked(list@.len() as int, order@, breaks@),
            texts(out@) == page_lines(all, order@, breaks@, g as int),
        decreases order.len() - g,
    {
        let ghost group = group_words(all, order@[g as int]@, breaks@[g as int]@);
        let mut row: Vec<LineWord> = Vec::new();
        let mut k: usize = 0;
        assert(order@[g as int]@.len() == breaks@[g as int]@.len());
        assert(marked(row@) == group.take(0));
        while k < order[g].len()
            invariant
                g < order.len(),
                k <= order@[g as int]@.len(),
                order@[g as int]@.len() == breaks@[g as int]@.len(),
                all == texts(list@),
                is_marked(list@.len() as int, order@, breaks@),
                group == group_words(all, order@[g as int]@, breaks@[g as int]@),
                marked(row@) == group.take(k as int),
            decreases order@[g as int]@.len() - k,
        {
            let ghost before = row@;
            let i: usize = order[g][k];
            assert(order@[g as int]@[k as int] < list@.len());
            let starts_line: bool = breaks[g][k];
            row.push(LineWord { text: list[i].as_str().to_owned(), starts_line });
            assert(marked(row@) == marked(before).push(group[k as int]));
            assert(group.take(k + 1) == group.take(k as int).push(group[k as int]));
            k += 1;
        }
        assert(group.take(group.len() as int) == group);
        let ghost so_far = out@;
        let mut more = cluster_into_lines(row.as_slice());
        let ghost added = more@;
        assert(row@.len() == marked(row@).len());
        out.append(&mut more);
        assert(texts(out@) == texts(so_far) + texts(added));
        g += 1;
    }
    out
}

/// The lines have the words of a group, in their order.
pub proof fn law_lines_keep_words(list: Seq<(Seq<char>, bool)>, n: int)
    requires
        0 <= n <= list.len(),
    ensures
        all_words(clustered(list, n)) == all_words(
            list.take(n).map_values(|w: (Seq<char>, bool)| w.0),
        ),
    decreases n,
{
    let own = |k: int| list.take(k).map_values(|w: (Seq<char>, bool)| w.0);
    if n == 0 {
        assert(own(0) == Seq::<Seq<char>>::empty());
    } else {
        law_lines_keep_words(list, n - 1);
        let done = clustered(list, n - 1);
        let text = list[n - 1].0;
        assert(own(n) == own(n - 1).push(text));
        assert(own(n).drop_last() == own(n - 1));
        if done.len() == 0 || list[n - 1].1 {
            assert(done.push(text).drop_last() == done);
        } else {
            let line = done.last().push(' ') + text;
            let space = seq![' '];
            assert(is_blank(space));
            assert(done.last().push(' ') == done.last() + space);
            lemma_words_concat(done.last(), space);
            lemma_words_blank(space);
            assert(words(done.last()) + words(space) == words(done.last()));
            lemma_words_concat(done.last() + space, text);
            assert(done.drop_last().push(line).drop_last() == done.drop_last());
            assert(all_words(done.drop_last()) + (words(done.last()) + words(text)) == (all_words(
                done.drop_last(),
            ) + words(done.last())) + words(text));
        }
    }
}

/// The words of `list` at the positions of the first `n` groups, in order.
pub open spec fn words_read(list: Seq<Seq<char>>, order: Seq<Vec<usize>>, n: int) -> Seq<Seq<char>>
    decreases n,
{
    if n <= 0 {
        Seq::empty()
    } else {
        words_read(list, order, n - 1) + order[n - 1]@.map_values(|i: usize| list[i as int])
    }
}

/// The lines of a page have the words of its groups, in the order in which they are read.
pub proof fn law_page_lines_keep_words(
    list: Seq<Seq<char>>,
    order: Seq<Vec<usize>>,
    breaks: Seq<Vec<bool>>,
    n: int,
)
    requires
        is_marked(list.len() as int, order, breaks),
        0 <= n <= order.len(),
    ensures
        all_words(page_lines(list, order, breaks, n)) == all_words(words_read(list, order, n)),
    decreases n,
{
    if n > 0 {
        law_page_lines_keep_words(list, order, breaks, n - 1);
        let group = group_words(list, order[n - 1]@, breaks[n - 1]@);
        let own = order[n - 1]@.map_values(|i: usize| list[i as int]);
        law_lines_keep_words(group, group.len() as int);
        assert(group.take(group.len() as int) == group);
        assert(group.map_values(|w: (Seq<char>, bool)| w.0) == own);
        lemma_all_words_concat(
            page_lines(list, order, breaks, n - 1),
            clustered(group, group.len() as int),
        );
        lemma_all_words_concat(words_read(list, order, n - 1), own);
    }
}

/// The numbers of `list` as integers.
pub open spec fn integers(list: Seq<usize>) -> Seq<int> {
    list.map_values(|i: usize| i as int)
}

/// The positions that `order` lists, one group after the other.
spec fn positions(order: Seq<Vec<usize>>, n: int) -> Seq<int>
    decreases n,
{
    if n <= 0 {
        Seq::empty()
    } else {
        positions(order, n - 1) + integers(order[n - 1]@)
    }
}

proof fn lemma_words_at_positions(list: Seq<Seq<char>>, order: Seq<Vec<usize>>, n: int)
    requires
        0 <= n <= order.len(),
    ensures
        words_read(list, order, n) == positions(order, n).map_values(|i: int| list[i]),
    decreases n,
{
    if n > 0 {
        lemma_words_at_positions(list, order, n - 1);
        let own = order[n - 1]@.map_values(|i: usize| list[i as int]);
        let here = integers(order[n - 1]@);
        assert(own == here.map_values(|i: int| list[i]));
        assert((positions(order, n - 1) + here).map_values(|i: int| list[i]) == positions(
            order,
            n - 1,
        ).map_values(|i: int| list[i]) + here.map_values(|i: int| list[i]));
    }
}

/// A list in reading order holds what it should, each once.
proof fn lemma_listed(page: Seq<Place>, list: Seq<usize>, wanted: spec_fn(int) -> bool)
    requires
        lists(page, list, wanted),
        page.len() <= usize::MAX,
    ensures
        integers(list).no_duplicates(),
        forall|x: int|
            #[trigger] integers(list).contains(x) <==> 0 <= x < page.len()
                && wanted(x),
{
    let at = integers(list);
    let before = by_place(page);
    assert forall|a: int, b: int| 0 <= a < at.len() && 0 <= b < at.len() && a != b implies at[a]
        != at[b] by {
        if a < b {
            assert(before(list[a] as int, list[b] as int));
        } else {
            assert(before(list[b] as int, list[a] as int));
        }
    }
    assert forall|x: int| #[trigger] at.contains(x) <==> 0 <= x < page.len() && wanted(x) by {
        if at.contains(x) {
            let k = choose|k: int| 0 <= k < at.len() && at[k] == x;
            assert(list.contains(list[k]));
        }
        if 0 <= x < page.len() && wanted(x) {
            assert(list.contains(x as usize));
            let k = choose|k: int| 0 <= k < list.len() && list[k] == x as usize;
            assert(at[k] == x);
        }
    }
}

/// The groups of a page list each of its words once.
proof fn lemma_positions_shuffle(page: Seq<Place>, order: Seq<Vec<usize>>)
    requires
        is_reading_order(page, order),
        page.len() <= usize::MAX,
    ensures
        is_shuffle(positions(order, order.len() as int), page.len() as int),
{
    let all = positions(order, order.len() as int);
    let at = |g: int| integers(order[g]@);
    reveal_with_fuel(positions, 4);
    if one_column(page) {
        lemma_listed(page, order[0]@, |i: int| true);
        assert(all == at(0));
    } else {
        lemma_listed(page, order[0]@, in_band(page, Band::Spanning));
        lemma_listed(page, order[1]@, in_band(page, Band::Left));
        lemma_listed(page, order[2]@, in_band(page, Band::Right));
        let (a, b, c) = (at(0), at(1), at(2));
        assert(all == a + b + c);
        assert forall|i: int, j: int| 0 <= i < j < all.len() implies all[i] != all[j] by {
            if j < a.len() {
            } else if j < a.len() + b.len() {
                assert(b.contains(b[j - a.len()]));
                if i < a.len() {
                    assert(a.contains(a[i]));
                }
            } else {
                assert(c.contains(c[j - a.len() - b.len()]));
                if i < a.len() {
                    assert(a.contains(a[i]));
                } else if i < a.len() + b.len() {
                    assert(b.contains(b[i - a.len()]));
                }
            }
        }
        assert forall|x: int| #[trigger] all.contains(x) <==> 0 <= x < page.len() by {
            if all.contains(x) {
                let k = choose|k: int| 0 <= k < all.len() && all[k] == x;
                if k < a.len() {
                    assert(a.contains(a[k]));
                } else if k < a.len() + b.len() {
                    assert(b.contains(b[k - a.len()]));
                } else {
                    assert(c.contains(c[k - a.len() - b.len()]));
                }
            }
            if 0 <= x < page.len() {
                match page[x].band {
                    Band::Spanning => {
                        assert(a.contains(x));
                        let k = choose|k: int| 0 <= k < a.len() && a[k] == x;
                        assert(all[k] == x);
                    },
                    Band::Left => {
                        assert(b.contains(x));
                        let k = choose|k: int| 0 <= k < b.len() && b[k] == x;
                        assert(all[a.len() + k] == x);
                    },
                    Band::Right => {
                        assert(c.contains(x));
                        let k = choose|k: int| 0 <= k < c.len() && c[k] == x;
                        assert(all[a.len() + b.len() + k] == x);
                    },
                }
            }
        }
    }
}

/// The words of a text of which the parts are shuffled are the same.
proof fn lemma_shuffled_words(list: Seq<Seq<char>>, at: Seq<int>)
    requires
        is_shuffle(at, list.len() as int),
    ensures
        all_words(at.map_values(|i: int| list[i])).to_multiset() == all_words(list).to_multiset(),
    decreases list.len(),
{
    let of = |i: int| list[i];
    if list.len() == 0 {
        if at.len() > 0 {
            assert(at.contains(at[0]));
        }
        assert(at.map_values(of) == list);
    } else {
        let k = lemma_shuffle(at, list.len() as int);
        let front = list.drop_last();
        let a = at.take(k);
        let b = at.skip(k + 1);
        lemma_shuffled_words(front, a + b);
        let x = a.map_values(of);
        let y = b.map_values(of);
        let z = seq![list.last()];
        assert forall|j: int| 0 <= j < (a + b).len() implies 0 <= #[trigger] (a + b)[j]
            < front.len() by {
            assert((a + b).contains((a + b)[j]));
        }
        assert((a + b).map_values(|i: int| front[i]) == x + y);
        assert(at.map_values(of) == x + z + y);
        lemma_all_words_concat(x, y);
        lemma_all_words_concat(x, z);
        lemma_all_words_concat(x + z, y);
        assert(front + z == list);
        lemma_all_words_concat(front, z);
        let (p, q, r) = (all_words(x), all_words(y), all_words(z));
        vstd::seq_lib::lemma_multiset_commutative(p, q);
        vstd::seq_lib::lemma_multiset_commutative(p, r);
        vstd::seq_lib::lemma_multiset_commutative(p + r, q);
        vstd::seq_lib::lemma_multiset_commutative(all_words(front), r);
        assert(all_words(at.map_values(of)).to_multiset() =~= all_words(list).to_multiset());
    }
}

/// The words of all lines of a page are the words of the page: none is lost, and none repeated.
pub proof fn law_page_keeps_words(
    page: Seq<Place>,
    list: Seq<Seq<char>>,
    order: Seq<Vec<usize>>,
    breaks: Seq<Vec<bool>>,
)
    requires
        page.len() == list.len() <= usize::MAX,
        is_reading_order(page, order),
        is_marked(list.len() as int, order, breaks),
    ensures
        all_words(page_lines(list, order, breaks, order.len() as int)).to_multiset() == all_words(
            list,
        ).to_multiset(),
{
    let n = order.len() as int;
    law_page_lines_keep_words(list, order, breaks, n);
    lemma_words_at_positions(list, order, n);
    lemma_positions_shuffle(page, order);
    lemma_shuffled_words(list, positions(order, n));
}

proof fn lemma_clustered(list: Seq<(Seq<char>, bool)>, n: int)
    requires
        0 <= n <= list.len(),
    ensures
        clustered(list, n).len() == 0 <==> n == 0,
        (forall|i: int| 0 <= i < list.len() ==> (#[trigger] list[i]).0.len() > 0) ==> forall|i: int|
            0 <= i < clustered(list, n).len() ==> (#[trigger] clustered(list, n)[i]).len() > 0,
    decreases n,
{
    if n > 0 {
        lemma_clustered(list, n - 1);
    }
}

proof fn lemma_page_lines(
    list: Seq<Seq<char>>,
    order: Seq<Vec<usize>>,
    breaks: Seq<Vec<bool>>,
    n: int,
)
    requires
        is_marked(list.len() as int, order, breaks),
        0 <= n <= order.len(),
    ensures
        page_lines(list, order, breaks, n).len() == 0 <==> positions(order, n).len() == 0,
        (forall|i: int| 0 <= i < list.len() ==> (#[trigger] list[i]).len() > 0) ==> forall|i: int|
            0 <= i < page_lines(list, order, breaks, n).len() ==> (#[trigger] page_lines(
                list,
                order,
                breaks,
                n,
            )[i]).len() > 0,
    decreases n,
{
    if n > 0 {
        lemma_page_lines(list, order, breaks, n - 1);
        let group = group_words(list, order[n - 1]@, breaks[n - 1]@);
        lemma_clustered(group, group.len() as int);
        if forall|i: int| 0 <= i < list.len() ==> (#[trigger] list[i]).len() > 0 {
            assert forall|k: int| 0 <= k < group.len() implies (#[trigger] group[k]).0.len() > 0 by {
                assert(order[n - 1]@[k] < list.len());
                assert(list[order[n - 1]@[k] as int].len() > 0);
            }
            let before = page_lines(list, order, breaks, n - 1);
            let more = clustered(group, group.len() as int);
            assert forall|i: int| 0 <= i < (before + more).len() implies (#[trigger] (before
                + more)[i]).len() > 0 by {
                if i < before.len() {
                    assert((before + more)[i] == before[i]);
                } else {
                    assert((before + more)[i] == more[i - before.len()]);
                }
            }
        }
    }
}

/// A page has lines exactly if it has words, and if no word is empty no line is.
pub proof fn law_page_has_lines(
    page: Seq<Place>,
    list: Seq<Seq<char>>,
    order: Seq<Vec<usize>>,
    breaks: Seq<Vec<bool>>,
)
    requires
        page.len() == list.len() <= usize::MAX,
        is_reading_order(page, order),
        is_marked(list.len() as int, order, breaks),
    ensures
        ({
            let lines = page_lines(list, order, breaks, order.len() as int);
            &&& lines.len() == 0 <==> page.len() == 0
            &&& (forall|i: int| 0 <= i < list.len() ==> (#[trigger] list[i]).len() > 0) ==> forall|
                i: int,
            |
                0 <= i < lines.len() ==> (#[trigger] lines[i]).len() > 0
        }),
{
    let all = positions(order, order.len() as int);
    lemma_page_lines(list, order, breaks, order.len() as int);
    lemma_positions_shuffle(page, order);
    if page.len() > 0 {
        assert(all.contains(0));
    } else if all.len() > 0 {
        assert(all.contains(all[0]));
    }
}

/// True if no two words of `page` stand in the same place.
pub open spec fn all_apart(page: Seq<Place>) -> bool {
    forall|i: int, j: int|
        0 <= i < j < page.len() ==> (#[trigger] page[i]).top != (#[trigger] page[j]).top
            || page[i].x0 != page[j].x0
}

/// True if `other` has the words of `page` in another order: word `i` of it is word `from[i]` of
/// `page`.
pub open spec fn is_reordered(page: Seq<Place>, other: Seq<Place>, from: Seq<int>) -> bool {
    &&& is_shuffle(from, page.len() as int)
    &&& other == from.map_values(|i: int| page[i])
}

proof fn lemma_tally_concat(a: Seq<Place>, b: Seq<Place>, band: Band)
    ensures
        tally(a + b, band) == tally(a, band) + tally(b, band),
    decreases b.len(),
{
    if b.len() == 0 {
        assert(a + b == a);
    } else {
        assert((a + b).drop_last() == a + b.drop_last());
        lemma_tally_concat(a, b.drop_last(), band);
    }
}

proof fn lemma_tally_reordered(page: Seq<Place>, other: Seq<Place>, from: Seq<int>, band: Band)
    requires
        is_reordered(page, other, from),
    ensures
        tally(other, band) == tally(page, band),
    decreases page.len(),
{
    let of = |i: int| page[i];
    if page.len() == 0 {
        if from.len() > 0 {
            assert(from.contains(from[0]));
        }
        assert(other == page);
    } else {
        let k = lemma_shuffle(from, page.len() as int);
        let front = page.drop_last();
        let a = from.take(k);
        let b = from.skip(k + 1);
        let x = a.map_values(of);
        let y = b.map_values(of);
        let z = seq![page.last()];
        assert forall|j: int| 0 <= j < (a + b).len() implies 0 <= #[trigger] (a + b)[j]
            < front.len() by {
            assert((a + b).contains((a + b)[j]));
        }
        assert((a + b).map_values(|i: int| front[i]) == x + y);
        lemma_tally_reordered(front, x + y, a + b, band);
        assert(other == x + z + y);
        assert(page == front + z);
        lemma_tally_concat(x, y, band);
        lemma_tally_concat(x, z, band);
        lemma_tally_concat(x + z, y, band);
        lemma_tally_concat(front, z, band);
    }
}

proof fn lemma_group_reordered(
    page: Seq<Place>,
    other: Seq<Place>,
    from: Seq<int>,
    list: Seq<usize>,
    other_list: Seq<usize>,
    wanted: spec_fn(int) -> bool,
    other_wanted: spec_fn(int) -> bool,
)
    requires
        page.len() <= usize::MAX,
        all_apart(page),
        is_reordered(page, other, from),
        lists(page, list, wanted),
        lists(other, other_list, other_wanted),
        forall|i: int| 0 <= i < other.len() ==> #[trigger] other_wanted(i) == wanted(from[i]),
    ensures
        other_list.map_values(|i: usize| from[i as int]) == integers(list),
{
    lemma_shuffle_len(from, page.len() as int);
    let a = other_list.map_values(|i: usize| from[i as int]);
    let b = integers(list);
    let before = |x: int, y: int|
        0 <= x < page.len() && 0 <= y < page.len() && by_place(page)(x, y);
    let own = integers(other_list);
    lemma_listed(page, list, wanted);
    lemma_listed(other, other_list, other_wanted);
    assert forall|i: int, j: int| 0 <= i < j < b.len() implies before(
        #[trigger] b[i],
        #[trigger] b[j],
    ) by {
        assert(b.contains(b[i]));
        assert(b.contains(b[j]));
        assert(by_place(page)(list[i] as int, list[j] as int));
    }
    assert forall|i: int, j: int| 0 <= i < j < a.len() implies before(
        #[trigger] a[i],
        #[trigger] a[j],
    ) by {
        let x = other_list[i] as int;
        let y = other_list[j] as int;
        assert(own[i] == x && own[j] == y);
        assert(own.contains(x));
        assert(own.contains(y));
        assert(by_place(other)(x, y));
        assert(from.contains(from[x]));
        assert(from.contains(from[y]));
        assert(x != y);
        assert(from[x] != from[y]);
        assert(other[x] == page[from[x]]);
        assert(other[y] == page[from[y]]);
        if from[x] < from[y] {
            assert(page[from[x]].top != page[from[y]].top || page[from[x]].x0 != page[from[y]].x0);
        } else {
            assert(page[from[y]].top != page[from[x]].top || page[from[y]].x0 != page[from[x]].x0);
        }
    }
    assert forall|x: int| #[trigger] a.contains(x) <==> b.contains(x) by {
        if a.contains(x) {
            let k = choose|k: int| 0 <= k < a.len() && a[k] == x;
            let i = other_list[k] as int;
            assert(own[k] == i);
            assert(own.contains(i));
            assert(other_wanted(i));
            assert(from.contains(from[i]));
            assert(b.contains(x));
        }
        if b.contains(x) {
            assert(from.contains(x));
            let i = choose|i: int| 0 <= i < from.len() && from[i] == x;
            assert(other_wanted(i) == wanted(from[i]));
            assert(own.contains(i));
            let k = choose|k: int| 0 <= k < own.len() && own[k] == i;
            assert(a[k] == x);
        }
    }
    lemma_same_order(a, b, before);
}

proof fn lemma_shuffle_len(at: Seq<int>, n: int)
    requires
        is_shuffle(at, n),
        n >= 0,
    ensures
        at.len() == n,
    decreases n,
{
    if n == 0 {
        if at.len() > 0 {
            assert(at.contains(at[0]));
        }
    } else {
        let k = lemma_shuffle(at, n);
        lemma_shuffle_len(at.take(k) + at.skip(k + 1), n - 1);
    }
}

/// Where no two words stand in the same place, the order in which they come makes no difference:
/// the same words are read in the same order, and the same lines come out.
pub proof fn law_place_decides_order(
    page: Seq<Place>,
    other: Seq<Place>,
    from: Seq<int>,
    list: Seq<Seq<char>>,
    order: Seq<Vec<usize>>,
    other_order: Seq<Vec<usize>>,
    breaks: Seq<Vec<bool>>,
)
    requires
        page.len() == list.len() <= usize::MAX,
        all_apart(page),
        is_reordered(page, other, from),
        is_reading_order(page, order),
        is_reading_order(other, other_order),
    ensures
        order.len() == other_order.len(),
        forall|g: int|
            0 <= g < order.len() ==> (#[trigger] other_order[g])@.map_values(
                |i: usize| from[i as int],
            ) == integers(order[g]@),
        page_lines(
            from.map_values(|i: int| list[i]),
            other_order,
            breaks,
            order.len() as int,
        ) == page_lines(list, order, breaks, order.len() as int),
{
    lemma_shuffle_len(from, page.len() as int);
    lemma_tally_reordered(page, other, from, Band::Spanning);
    lemma_tally_reordered(page, other, from, Band::Left);
    lemma_tally_reordered(page, other, from, Band::Right);
    if one_column(page) {
        let every = |i: int| true;
        lemma_group_reordered(page, other, from, order[0]@, other_order[0]@, every, every);
    } else {
        lemma_group_reordered(
            page,
            other,
            from,
            order[0]@,
            other_order[0]@,
            in_band(page, Band::Spanning),
            in_band(other, Band::Spanning),
        );
        lemma_group_reordered(
            page,
            other,
            from,
            order[1]@,
            other_order[1]@,
            in_band(page, Band::Left),
            in_band(other, Band::Left),
        );
        lemma_group_reordered(
            page,
            other,
            from,
            order[2]@,
            other_order[2]@,
            in_band(page, Band::Right),
            in_band(other, Band::Right),
        );
    }
    lemma_order_below(other, other_order);
    lemma_same_lines(list, from, order, other_order, breaks, order.len() as int);
}

/// A reading order lists positions of the page.
pub proof fn lemma_order_below(page: Seq<Place>, order: Seq<Vec<usize>>)
    requires
        is_reading_order(page, order),
    ensures
        forall|g: int, k: int|
            0 <= g < order.len() && 0 <= k < order[g]@.len() ==> (#[trigger] order[g]@[k])
                < page.len(),
{
    if one_column(page) {
        lemma_held_below(order[0]@, page.len() as int, |i: int| true);
    } else {
        lemma_held_below(order[0]@, page.len() as int, in_band(page, Band::Spanning));
        lemma_held_below(order[1]@, page.len() as int, in_band(page, Band::Left));
        lemma_held_below(order[2]@, page.len() as int, in_band(page, Band::Right));
    }
}

proof fn lemma_same_lines(
    list: Seq<Seq<char>>,
    from: Seq<int>,
    order: Seq<Vec<usize>>,
    other_order: Seq<Vec<usize>>,
    breaks: Seq<Vec<bool>>,
    n: int,
)
    requires
        0 <= n <= order.len() == other_order.len(),
        forall|g: int|
            0 <= g < order.len() ==> (#[trigger] other_order[g])@.map_values(
                |i: usize| from[i as int],
            ) == integers(order[g]@),
        forall|g: int, k: int|
            0 <= g < other_order.len() && 0 <= k < other_order[g]@.len() ==> (
            #[trigger] other_order[g]@[k]) < from.len(),
    ensures
        page_lines(from.map_values(|i: int| list[i]), other_order, breaks, n) == page_lines(
            list,
            order,
            breaks,
            n,
        ),
    decreases n,
{
    if n > 0 {
        lemma_same_lines(list, from, order, other_order, breaks, n - 1);
        let moved = from.map_values(|i: int| list[i]);
        let a = other_order[n - 1]@;
        let b = order[n - 1]@;
        let x = a.map_values(|i: usize| from[i as int]);
        let y = integers(b);
        assert(x == y);
        assert(a.len() == x.len());
        assert(b.len() == y.len());
        assert forall|k: int| 0 <= k < a.len() implies moved[a[k] as int] == list[b[k] as int] by {
            assert(a[k] < from.len());
            assert(x[k] == y[k]);
        }
        assert(group_words(moved, a, breaks[n - 1]@) == group_words(list, b, breaks[n - 1]@));
    }
}

/// A page has one column exactly if more of its words span its centre than do not. Its groups are
/// then one, of all words; else those that span the centre, the left column and the right one,
/// each of all its words.
pub proof fn law_groups_of_a_page(page: Seq<Place>, order: Seq<Vec<usize>>)
    requires
        is_reading_order(page, order),
    ensures
        ({
            let one = page.filter(|p: Place| p.band == Band::Spanning).len() > page.filter(
                |p: Place| p.band != Band::Spanning,
            ).len();
            &&& order.len() == if one {
                1int
            } else {
                3
            }
            &&& forall|g: int, i: usize|
                0 <= g < order.len() ==> (#[trigger] order[g]@.contains(i) <==> i < page.len() && (
                one || page[i as int].band == seq![Band::Spanning, Band::Left, Band::Right][g]))
        }),
{
    lemma_tally_filter(page, Band::Spanning);
    lemma_sides_filter(page);
    let bands = seq![Band::Spanning, Band::Left, Band::Right];
    assert(bands[0] == Band::Spanning && bands[1] == Band::Left && bands[2] == Band::Right);
}

proof fn lemma_tally_filter(page: Seq<Place>, band: Band)
    ensures
        tally(page, band) == page.filter(|p: Place| p.band == band).len(),
    decreases page.len(),
{
    reveal(Seq::filter);
    if page.len() > 0 {
        lemma_tally_filter(page.drop_last(), band);
    }
}

proof fn lemma_sides_filter(page: Seq<Place>)
    ensures
        tally(page, Band::Left) + tally(page, Band::Right) == page.filter(
            |p: Place| p.band != Band::Spanning,
        ).len(),
    decreases page.len(),
{
    reveal(Seq::filter);
    if page.len() > 0 {
        lemma_sides_filter(page.drop_last());
    }
}

/// In a group a word comes before another if it stands higher, or as high and further to the left;
/// words in the same place keep their order. No word comes twice.
pub proof fn law_words_are_read_from_the_top(
    page: Seq<Place>,
    order: Seq<Vec<usize>>,
    g: int,
    a: int,
    b: int,
)
    requires
        is_reading_order(page, order),
        0 <= g < order.len(),
        0 <= a < b < order[g]@.len(),
    ensures
        ({
            let first = page[order[g]@[a] as int];
            let second = page[order[g]@[b] as int];
            &&& first.top <= second.top
            &&& first.top == second.top ==> first.x0 <= second.x0
            &&& first.top == second.top && first.x0 == second.x0 ==> order[g]@[a] < order[g]@[b]
            &&& order[g]@[a] != order[g]@[b]
        }),
{
    let list = order[g]@;
    let before = by_place(page);
    assert(ordered(list, before));
    assert(before(list[a] as int, list[b] as int));
}

/// Words of which none but the first begins a line make one line, with single spaces between
/// them.
pub proof fn law_words_share_a_line(list: Seq<(Seq<char>, bool)>, n: int)
    requires
        0 < n <= list.len(),
        forall|i: int| 0 < i < n ==> !(#[trigger] list[i]).1,
    ensures
        clustered(list, n) == seq![
            join(list.take(n).map_values(|w: (Seq<char>, bool)| w.0), seq![' ']),
        ],
    decreases n,
{
    let own = |w: (Seq<char>, bool)| w.0;
    let all = list.take(n).map_values(own);
    assert(clustered(list, 0) == Seq::<Seq<char>>::empty());
    if n == 1 {
        assert(all == seq![list[0].0]);
        assert(clustered(list, 1) == Seq::<Seq<char>>::empty().push(list[0].0));
        assert(Seq::<Seq<char>>::empty().push(list[0].0) == seq![list[0].0]);
    } else {
        law_words_share_a_line(list, n - 1);
        let front = list.take(n - 1).map_values(own);
        let line = join(front, seq![' ']);
        let text = list[n - 1].0;
        assert(all.drop_last() == front);
        assert(all.last() == text);
        assert(!list[n - 1].1);
        let done = clustered(list, n - 1);
        assert(done == seq![line]);
        assert(line + seq![' '] == line.push(' '));
        assert(join(all, seq![' ']) == line.push(' ') + text);
        assert(done.drop_last().push(line.push(' ') + text) == seq![line.push(' ') + text]);
    }
}

/// A word that begins a line ends the one before: the lines up to it and those from it on are made
/// apart.
pub proof fn law_line_break_separates(
    a: Seq<(Seq<char>, bool)>,
    b: Seq<(Seq<char>, bool)>,
    n: int,
)
    requires
        0 <= n <= b.len(),
        n > 0 ==> b[0].1,
    ensures
        clustered(a + b, a.len() + n) == clustered(a, a.len() as int) + clustered(b, n),
    decreases n,
{
    let all = a + b;
    let head = clustered(a, a.len() as int);
    if n == 0 {
        lemma_clustered_front(a, b, a.len() as int);
        assert(head + clustered(b, 0) == head);
    } else {
        law_line_break_separates(a, b, n - 1);
        let w = b[n - 1];
        assert(all[a.len() + n - 1] == w);
        let tail = clustered(b, n - 1);
        lemma_clustered(b, n - 1);
        if n == 1 {
            assert(tail == Seq::<Seq<char>>::empty());
            assert(head + tail == head);
            assert(head.push(w.0) == head + tail.push(w.0));
        } else if w.1 {
            assert((head + tail).push(w.0) == head + tail.push(w.0));
        } else {
            let longer = tail.last().push(' ') + w.0;
            assert((head + tail).last() == tail.last());
            assert((head + tail).drop_last() == head + tail.drop_last());
            assert((head + tail).drop_last().push(longer) == head + tail.drop_last().push(longer));
        }
    }
}

proof fn lemma_clustered_front(a: Seq<(Seq<char>, bool)>, b: Seq<(Seq<char>, bool)>, n: int)
    requires
        0 <= n <= a.len(),
    ensures
        clustered(a + b, n) == clustered(a, n),
    decreases n,
{
    if n > 0 {
        lemma_clustered_front(a, b, n - 1);
        assert((a + b)[n - 1] == a[n - 1]);
    }
}

/// The lines of a page are those of its groups, one group after the other.
pub proof fn law_page_group_by_group(
    list: Seq<Seq<char>>,
    order: Seq<Vec<usize>>,
    breaks: Seq<Vec<bool>>,
    n: int,
)
    requires
        0 <= n <= order.len(),
    ensures
        page_lines(list, order, breaks, n) == Seq::new(
            n as nat,
            |g: int|
                clustered(
                    Seq::new(
                        order[g]@.len(),
                        |k: int| (list[order[g]@[k] as int], breaks[g]@[k]),
                    ),
                    order[g]@.len() as int,
                ),
        ).flatten(),
    decreases n,
{
    let own = |g: int|
        clustered(
            Seq::new(order[g]@.len(), |k: int| (list[order[g]@[k] as int], breaks[g]@[k])),
            order[g]@.len() as int,
        );
    let all = Seq::new(n as nat, own);
    all.lemma_flatten_and_flatten_alt_are_equivalent();
    if n > 0 {
        law_page_group_by_group(list, order, breaks, n - 1);
        let front = Seq::new((n - 1) as nat, own);
        assert(all.drop_last() == front);
        front.lemma_flatten_and_flatten_alt_are_equivalent();
        assert(group_words(list, order[n - 1]@, breaks[n - 1]@) == Seq::new(
            order[n - 1]@.len(),
            |k: int| (list[order[n - 1]@[k] as int], breaks[n - 1]@[k]),
        ));
        assert(all.last() == own(n - 1));
    }
}

/// The words of a group are taken with their marks, in their order.
pub proof fn law_marked_words(list: Seq<LineWord>)
    ensures
        marked(list).len() == list.len(),
        forall|i: int|
            0 <= i < list.len() ==> #[trigger] marked(list)[i] == (
                list[i].text@,
                list[i].starts_line,
            ),
{
}

} // verus!
