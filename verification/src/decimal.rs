//! Decimal digits and the numbers they spell.

use vstd::prelude::*;

verus! {

/// Whether `c` is one of the ten ASCII digits.
pub open spec fn is_digit(c: char) -> bool {
    '0' <= c <= '9'
}

/// The value of the digit `c`.
pub open spec fn digit_value(c: char) -> nat {
    if is_digit(c) {
        (c as u32 - '0' as u32) as nat
    } else {
        0
    }
}

/// The digit that stands for `n`, for `n` below ten.
pub open spec fn digit_char(n: nat) -> char {
    (('0' as u32 + n) as u8) as char
}

/// Whether `d` is a numeral: one ASCII digit or more and nothing else.
pub open spec fn is_number(d: Seq<char>) -> bool {
    d.len() > 0 && forall|i: int| 0 <= i < d.len() ==> is_digit(#[trigger] d[i])
}

/// The number that the digits `d` spell, read in base ten.
pub open spec fn value(d: Seq<char>) -> nat
    decreases d.len(),
{
    if d.len() == 0 {
        0
    } else {
        10 * value(d.drop_last()) + digit_value(d.last())
    }
}

/// The shortest numeral for `n`.
pub open spec fn digits(n: nat) -> Seq<char>
    decreases n,
{
    if n < 10 {
        seq![digit_char(n)]
    } else {
        digits(n / 10).push(digit_char(n % 10))
    }
}

/// `count` copies of `c` in a row.
pub open spec fn repeat(c: char, count: nat) -> Seq<char> {
    Seq::new(count, |i: int| c)
}

/// The shortest numeral for `n`, with spaces put before it until it is
/// `width` characters long. A numeral that is longer stays as it is.
pub open spec fn right_aligned(n: nat, width: nat) -> Seq<char> {
    let d = digits(n);
    if d.len() >= width {
        d
    } else {
        repeat(' ', (width - d.len()) as nat) + d
    }
}

/// A longer numeral spells no smaller number than its beginning does.
pub proof fn lemma_value_prefix(d: Seq<char>, k: int)
    requires
        0 <= k <= d.len(),
    ensures
        value(d.take(k)) <= value(d),
    decreases d.len() - k,
{
    if k < d.len() {
        lemma_value_prefix(d, k + 1);
        assert(d.take(k + 1).drop_last() == d.take(k));
    } else {
        assert(d.take(k) == d);
    }
}

/// The digit for a number below ten is a digit, and its value is that
/// number.
pub proof fn lemma_digit_char(n: nat)
    requires
        n < 10,
    ensures
        is_digit(digit_char(n)),
        digit_value(digit_char(n)) == n,
{
    assert('0' as u32 == 48);
    assert(digit_char(n) as u32 == 48 + n);
}

/// The shortest numeral for `n` is a numeral, and it spells `n`.
pub proof fn lemma_digits(n: nat)
    ensures
        is_number(digits(n)),
        value(digits(n)) == n,
    decreases n,
{
    if n < 10 {
        lemma_digit_char(n);
        let d = seq![digit_char(n)];
        assert(d.drop_last().len() == 0);
        assert(value(d.drop_last()) == 0);
    } else {
        lemma_digits(n / 10);
        lemma_digit_char(n % 10);
        let d = digits(n);
        assert(d.drop_last() == digits(n / 10));
    }
}

/// Zeros written before a numeral change neither that it is a numeral
/// nor the number it spells.
pub proof fn lemma_leading_zeros(zeros: nat, d: Seq<char>)
    requires
        d.len() > 0,
    ensures
        is_number(repeat('0', zeros) + d) == is_number(d),
        value(repeat('0', zeros) + d) == value(d),
    decreases d.len(),
{
    let padded = repeat('0', zeros) + d;
    assert(padded.last() == d.last());
    if d.len() == 1 {
        lemma_value_zeros(zeros);
        assert(padded.drop_last() == repeat('0', zeros));
        assert(value(d.drop_last()) == 0);
    } else {
        lemma_leading_zeros(zeros, d.drop_last());
        assert(padded.drop_last() == repeat('0', zeros) + d.drop_last());
    }
    if is_number(d) {
        assert forall|i: int| 0 <= i < padded.len() implies is_digit(#[trigger] padded[i]) by {
            if i >= zeros {
                assert(padded[i] == d[i - zeros]);
            }
        }
    }
    if is_number(padded) {
        assert forall|i: int| 0 <= i < d.len() implies is_digit(#[trigger] d[i]) by {
            assert(d[i] == padded[i + zeros]);
        }
    }
}

/// A row of zeros spells zero.
pub proof fn lemma_value_zeros(zeros: nat)
    ensures
        value(repeat('0', zeros)) == 0,
    decreases zeros,
{
    if zeros > 0 {
        lemma_value_zeros((zeros - 1) as nat);
        assert(repeat('0', zeros).drop_last() == repeat('0', (zeros - 1) as nat));
    }
}

/// Tells whether `c` is an ASCII digit.
pub fn char_is_digit(c: char) -> (b: bool)
    ensures
        b == is_digit(c),
{
    '0' <= c && c <= '9'
}

/// Reads the numeral `d`.
///
/// Gives the number it spells, and `None` where `d` is no numeral or
/// spells a number that does not fit.
pub fn parse_usize(d: &[char]) -> (r: Option<usize>)
    ensures
        r == if is_number(d@) && value(d@) <= usize::MAX {
            Some(value(d@) as usize)
        } else {
            None
        },
{
    if d.len() == 0 {
        return None;
    }
    let mut acc: usize = 0;
    let mut i: usize = 0;
    while i < d.len()
        invariant
            i <= d.len(),
            forall|j: int| 0 <= j < i ==> is_digit(#[trigger] d@[j]),
            acc == value(d@.take(i as int)),
        decreases d.len() - i,
    {
        let c = d[i];
        if !char_is_digit(c) {
            return None;
        }
        let digit: usize = (c as u32 - '0' as u32) as usize;
        proof {
            assert(d@.take(i + 1).drop_last() == d@.take(i as int));
            lemma_value_prefix(d@, i + 1);
        }
        if acc > (usize::MAX - digit) / 10 {
            return None;
        }
        acc = 10 * acc + digit;
        i += 1;
    }
    proof {
        assert(d@.take(i as int) == d@);
    }
    Some(acc)
}

/// Appends the shortest numeral for `n` to `out`.
pub fn push_decimal(n: u128, out: &mut Vec<char>)
    ensures
        final(out)@ == old(out)@ + digits(n as nat),
    decreases n,
{
    if n >= 10 {
        push_decimal(n / 10, out);
    }
    let low: u8 = (n % 10) as u8;
    out.push((48u8 + low) as char);
}

/// Appends to `out` the shortest numeral for `n`, with spaces before
/// it where it is shorter than `width`.
pub fn push_right_aligned(n: u128, width: usize, out: &mut Vec<char>)
    ensures
        final(out)@ == old(out)@ + right_aligned(n as nat, width as nat),
{
    let mut numeral: Vec<char> = Vec::new();
    push_decimal(n, &mut numeral);
    let mut i: usize = numeral.len();
    while i < width
        invariant
            numeral.len() <= i,
            i <= width || i == numeral.len(),
            out@ == old(out)@ + repeat(' ', (i - numeral.len()) as nat),
        decreases width - i,
    {
        out.push(' ');
        i += 1;
    }
    let mut k: usize = 0;
    while k < numeral.len()
        invariant
            k <= numeral.len(),
            numeral@ == digits(n as nat),
            out@ == old(out)@ + right_aligned(n as nat, width as nat).take(
                right_aligned(n as nat, width as nat).len() - numeral.len() + k,
            ),
        decreases numeral.len() - k,
    {
        out.push(numeral[k]);
        k += 1;
    }
}

} // verus!
