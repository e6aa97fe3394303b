//! Numbers in decimal.

use crate::text::extend;
use vstd::prelude::*;

verus! {

/// The decimal digit for `d`.
pub open spec fn digit(d: nat) -> char {
    (('0' as u32) + d) as char
}

/// `n` in decimal, without leading zeros.
pub open spec fn decimal(n: nat) -> Seq<char>
    decreases n,
{
    if n < 10 {
        seq![digit(n)]
    } else {
        decimal(n / 10).push(digit(n % 10))
    }
}

/// `n` in decimal, with leading zeros up to `width` digits.
pub open spec fn padded(n: nat, width: nat) -> Seq<char> {
    if decimal(n).len() < width {
        Seq::new((width - decimal(n).len()) as nat, |i: int| '0') + decimal(n)
    } else {
        decimal(n)
    }
}

fn digit_of(d: u8) -> (r: char)
    requires
        d < 10,
    ensures
        r == digit(d as nat),
{
    (0x30u8 + d) as char
}

/// `n` in decimal.
pub fn decimal_of(n: u64) -> (r: Vec<char>)
    ensures
        r@ == decimal(n as nat),
    decreases n,
{
    if n < 10 {
        let mut out: Vec<char> = Vec::new();
        out.push(digit_of(n as u8));
        out
    } else {
        let mut out = decimal_of(n / 10);
        out.push(digit_of((n % 10) as u8));
        out
    }
}

/// The number after `n` in decimal.
pub fn next_decimal(n: usize) -> (r: Vec<char>)
    ensures
        r@ == decimal((n + 1) as nat),
{
    let last: u64 = ((n as u128 + 1) % 10) as u64;
    let rest: u64 = ((n as u128 + 1) / 10) as u64;
    if rest == 0 {
        return decimal_of(last);
    }
    let mut out = decimal_of(rest);
    out.push(digit_of(last as u8));
    out
}

/// `n` in decimal, with leading zeros up to `width` digits.
pub fn padded_of(n: u64, width: usize) -> (r: Vec<char>)
    ensures
        r@ == padded(n as nat, width as nat),
{
    let digits = decimal_of(n);
    let mut out: Vec<char> = Vec::new();
    let mut i: usize = digits.len();
    let ghost d = digits@.len();
    while i < width
        invariant
            d <= i,
            i <= width || i == d,
            out@ == Seq::new((i - d) as nat, |k: int| '0'),
        decreases width - i,
    {
        out.push('0');
        i += 1;
        assert(out@ == Seq::new((i - d) as nat, |k: int| '0'));
    }
    extend(&mut out, digits.as_slice());
    assert(out@ == padded(n as nat, width as nat));
    out
}

/// Puts `n` in decimal at the end of `out`.
pub fn put_number(out: &mut Vec<char>, n: u64)
    ensures
        final(out)@ == old(out)@ + decimal(n as nat),
{
    let digits = decimal_of(n);
    extend(out, digits.as_slice());
}

/// Puts `n` in decimal, with leading zeros up to `width` digits, at the end of `out`.
pub fn put_padded(out: &mut Vec<char>, n: u64, width: usize)
    ensures
        final(out)@ == old(out)@ + padded(n as nat, width as nat),
{
    let digits = padded_of(n, width);
    extend(out, digits.as_slice());
}

/// The number that a row of decimal digits stands for.
pub open spec fn value(s: Seq<char>) -> int {
    s.fold_left(0int, |v: int, c: char| 10 * v + (c as u32 - '0' as u32))
}

/// A number in decimal reads back: it is a row of digits that stands for the number, without
/// leading zeros.
pub proof fn law_decimal_reads_back(n: nat)
    ensures
        value(decimal(n)) == n,
        decimal(n).len() > 0,
        forall|i: int| 0 <= i < decimal(n).len() ==> '0' <= #[trigger] decimal(n)[i] <= '9',
        decimal(n)[0] == '0' ==> n == 0 && decimal(n).len() == 1,
    decreases n,
{
    let f = |v: int, c: char| 10 * v + (c as u32 - '0' as u32);
    let d = digit(n % 10);
    assert('0' <= d <= '9' && d as u32 - '0' as u32 == n % 10);
    reveal_with_fuel(Seq::fold_left, 2);
    if n < 10 {
        let s = seq![d];
        assert(decimal(n) == s);
        assert(s.drop_last() == Seq::<char>::empty());
        assert(s.fold_left(0int, f) == f(s.drop_last().fold_left(0int, f), d));
    } else {
        law_decimal_reads_back(n / 10);
        let front = decimal(n / 10);
        let s = front.push(d);
        assert(s.drop_last() == front);
        assert(s.fold_left(0int, f) == f(front.fold_left(0int, f), d));
        assert(s[0] == front[0]);
        assert forall|i: int| 0 <= i < s.len() implies '0' <= #[trigger] s[i] <= '9' by {
            if i < front.len() {
                assert(s[i] == front[i]);
            }
        }
    }
}

proof fn lemma_leading_zeros(k: nat, s: Seq<char>)
    ensures
        value(Seq::new(k, |i: int| '0') + s) == value(s),
    decreases s.len(),
{
    let f = |v: int, c: char| 10 * v + (c as u32 - '0' as u32);
    let zeros = Seq::new(k, |i: int| '0');
    let all = zeros + s;
    if s.len() == 0 {
        assert(all == zeros);
        lemma_zeros(k);
        reveal_with_fuel(Seq::fold_left, 2);
    } else {
        lemma_leading_zeros(k, s.drop_last());
        assert(all.drop_last() == zeros + s.drop_last());
        assert(all.last() == s.last());
        reveal_with_fuel(Seq::fold_left, 2);
        assert(all.fold_left(0int, f) == f(all.drop_last().fold_left(0int, f), all.last()));
        assert(s.fold_left(0int, f) == f(s.drop_last().fold_left(0int, f), s.last()));
    }
}

proof fn lemma_zeros(k: nat)
    ensures
        value(Seq::new(k, |i: int| '0')) == 0,
    decreases k,
{
    let f = |v: int, c: char| 10 * v + (c as u32 - '0' as u32);
    let zeros = Seq::new(k, |i: int| '0');
    reveal_with_fuel(Seq::fold_left, 2);
    if k > 0 {
        let m = (k - 1) as nat;
        lemma_zeros(m);
        assert(zeros.drop_last() == Seq::new(m, |i: int| '0'));
        assert(zeros.fold_left(0int, f) == f(zeros.drop_last().fold_left(0int, f), '0'));
    }
}

/// A padded number stands for the same number, and has as many digits as asked for, or more only
/// where it needs them.
pub proof fn law_padded_reads_back(n: nat, width: nat)
    ensures
        value(padded(n, width)) == n,
        padded(n, width).len() == width || padded(n, width).len() > width && padded(n, width)
            == decimal(n),
        forall|i: int|
            0 <= i < padded(n, width).len() ==> '0' <= #[trigger] padded(n, width)[i] <= '9',
{
    law_decimal_reads_back(n);
    if decimal(n).len() < width {
        lemma_leading_zeros((width - decimal(n).len()) as nat, decimal(n));
    }
}

} // verus!
