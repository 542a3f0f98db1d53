//! What holds of every selection: which are accepted, what they
//! stand for, and which are turned down.

use vstd::prelude::*;
use core::ops::Range;
use crate::cut::{position, selection_ranges, token_range, token_ranges, ParseErrorView};
use crate::decimal::{digits, is_digit, is_number, lemma_digits, lemma_leading_zeros, repeat, value};
use crate::seqs::{
    join, law_join_undoes_split, lemma_first_piece, lemma_last_piece, lemma_piece_holds, lemma_split_concat,
    lemma_split_insert, lemma_split_len, lemma_split_with_sep, lemma_split_without_sep, split,
};

verus! {

/// A numeral holds nothing but digits.
pub proof fn lemma_number_holds_digits_only(d: Seq<char>, c: char)
    requires
        is_number(d),
        !is_digit(c),
    ensures
        !d.contains(c),
{
}

/// Reading some items and then some more: the ranges of the first
/// lot come before those of the second, and the first bad item
/// decides the error.
pub proof fn lemma_token_ranges_concat(first: Seq<Seq<char>>, second: Seq<Seq<char>>)
    ensures
        token_ranges(first + second) == match (token_ranges(first), token_ranges(second)) {
            (Ok(a), Ok(b)) => Ok::<Seq<Range<usize>>, ParseErrorView>(a + b),
            (Ok(_), Err(e)) => Err(e),
            (Err(e), _) => Err(e),
        },
    decreases second.len(),
{
    if second.len() == 0 {
        assert(first + second == first);
        if let Ok(a) = token_ranges(first) {
            assert(a + Seq::<Range<usize>>::empty() == a);
        }
    } else {
        assert((first + second).drop_last() == first + second.drop_last());
        assert((first + second).last() == second.last());
        lemma_token_ranges_concat(first, second.drop_last());
        if let (Ok(a), Ok(b)) = (token_ranges(first), token_ranges(second.drop_last())) {
            if let Ok(r) = token_range(second.last()) {
                assert((a + b).push(r) == a + b.push(r));
            }
        }
    }
}

/// A selection of one position, written as the shortest numeral for
/// `n`, stands for the one range from `n - 1` to `n`.
pub proof fn law_single_position(n: usize)
    requires
        n >= 1,
    ensures
        selection_ranges(digits(n as nat)) == Ok::<Seq<Range<usize>>, ParseErrorView>(
            seq![Range { start: (n - 1) as usize, end: n }],
        ),
{
    let t = digits(n as nat);
    lemma_digits(n as nat);
    lemma_number_holds_digits_only(t, ',');
    lemma_number_holds_digits_only(t, '-');
    lemma_split_without_sep(t, ',');
    lemma_split_without_sep(t, '-');
    assert(seq![t].drop_last() == Seq::<Seq<char>>::empty());
    assert(token_ranges(seq![t].drop_last()) == Ok::<Seq<Range<usize>>, ParseErrorView>(Seq::empty()));
    assert(Seq::<Range<usize>>::empty().push(Range { start: (n - 1) as usize, end: n }) == seq![
        Range { start: (n - 1) as usize, end: n },
    ]);
}

/// What a range written as two numerals around a hyphen stands for:
/// with `low` below `high`, the positions from `low - 1` up to but
/// without `high`; otherwise nothing, and the error names both
/// numbers.
pub proof fn law_range_of_positions(low: usize, high: usize)
    requires
        low >= 1,
        high >= 1,
    ensures
        selection_ranges(digits(low as nat).push('-') + digits(high as nat)) == if low < high {
            Ok::<Seq<Range<usize>>, ParseErrorView>(seq![Range { start: (low - 1) as usize, end: high }])
        } else {
            Err(ParseErrorView::InvalidRangeOrder(low, high))
        },
{
    let a = digits(low as nat);
    let b = digits(high as nat);
    lemma_digits(low as nat);
    lemma_digits(high as nat);
    lemma_range_token(a, b);
    let t = a.push('-') + b;
    assert(seq![t].drop_last() == Seq::<Seq<char>>::empty());
    assert(token_ranges(seq![t].drop_last()) == Ok::<Seq<Range<usize>>, ParseErrorView>(Seq::empty()));
    if low < high {
        assert(Seq::<Range<usize>>::empty().push(Range { start: (low - 1) as usize, end: high }) == seq![
            Range { start: (low - 1) as usize, end: high },
        ]);
    }
}

/// Two numerals around a hyphen are one item of a selection, with the
/// numerals as its two parts.
pub proof fn lemma_range_token(a: Seq<char>, b: Seq<char>)
    requires
        is_number(a),
        is_number(b),
    ensures
        split(a.push('-') + b, ',') == seq![a.push('-') + b],
        split(a.push('-') + b, '-') == seq![a, b],
{
    let t = a.push('-') + b;
    lemma_number_holds_digits_only(a, ',');
    lemma_number_holds_digits_only(b, ',');
    lemma_number_holds_digits_only(a, '-');
    lemma_number_holds_digits_only(b, '-');
    assert forall|i: int| 0 <= i < t.len() implies t[i] != ',' by {
        if i < a.len() {
            assert(a.contains(t[i]));
        } else if i > a.len() {
            assert(b[i - a.len() - 1] == t[i]);
            assert(b.contains(t[i]));
        }
    }
    lemma_split_without_sep(t, ',');
    lemma_split_concat(a, b, '-');
    lemma_split_without_sep(a, '-');
    lemma_split_without_sep(b, '-');
    assert(seq![a] + seq![b] == seq![a, b]);
}

/// Zeros before a numeral do not change the position it names.
pub proof fn lemma_position_leading_zeros(zeros: nat, d: Seq<char>)
    requires
        is_number(d),
    ensures
        is_number(repeat('0', zeros) + d),
        position(repeat('0', zeros) + d) == position(d),
{
    lemma_leading_zeros(zeros, d);
}

/// Zeros written before a position change nothing in what a
/// selection of that position stands for.
pub proof fn law_leading_zeros_position(zeros: nat, d: Seq<char>)
    requires
        is_number(d),
    ensures
        selection_ranges(repeat('0', zeros) + d) is Ok <==> selection_ranges(d) is Ok,
        selection_ranges(d) is Ok ==> selection_ranges(repeat('0', zeros) + d) == selection_ranges(d),
{
    let padded = repeat('0', zeros) + d;
    lemma_position_leading_zeros(zeros, d);
    lemma_number_holds_digits_only(d, ',');
    lemma_number_holds_digits_only(d, '-');
    lemma_number_holds_digits_only(padded, ',');
    lemma_number_holds_digits_only(padded, '-');
    lemma_split_without_sep(d, ',');
    lemma_split_without_sep(d, '-');
    lemma_split_without_sep(padded, ',');
    lemma_split_without_sep(padded, '-');
    assert(seq![d].drop_last() == Seq::<Seq<char>>::empty());
    assert(seq![padded].drop_last() == Seq::<Seq<char>>::empty());
    assert(token_ranges(Seq::<Seq<char>>::empty()) == Ok::<Seq<Range<usize>>, ParseErrorView>(Seq::empty()));
}

/// Zeros written before the numbers of a range change nothing in
/// what a selection of that range stands for.
pub proof fn law_leading_zeros_range(zeros_low: nat, low: Seq<char>, zeros_high: nat, high: Seq<char>)
    requires
        is_number(low),
        is_number(high),
    ensures
        ({
            let plain = low.push('-') + high;
            let padded = (repeat('0', zeros_low) + low).push('-') + (repeat('0', zeros_high) + high);
            &&& selection_ranges(padded) is Ok <==> selection_ranges(plain) is Ok
            &&& selection_ranges(plain) is Ok ==> selection_ranges(padded) == selection_ranges(plain)
        }),
{
    let padded_low = repeat('0', zeros_low) + low;
    let padded_high = repeat('0', zeros_high) + high;
    let plain = low.push('-') + high;
    let padded = padded_low.push('-') + padded_high;
    lemma_position_leading_zeros(zeros_low, low);
    lemma_position_leading_zeros(zeros_high, high);
    lemma_range_token(low, high);
    lemma_range_token(padded_low, padded_high);
    assert(seq![plain].drop_last() == Seq::<Seq<char>>::empty());
    assert(seq![padded].drop_last() == Seq::<Seq<char>>::empty());
    assert(token_ranges(Seq::<Seq<char>>::empty()) == Ok::<Seq<Range<usize>>, ParseErrorView>(Seq::empty()));
}

/// The ranges of a selection stand in the order of its items: those
/// of what is written before a comma come before those of what is
/// written after it. Of two bad parts the first decides the error.
pub proof fn law_order_preserved(before: Seq<char>, after: Seq<char>)
    ensures
        selection_ranges(before.push(',') + after) == match (selection_ranges(before), selection_ranges(after)) {
            (Ok(a), Ok(b)) => Ok::<Seq<Range<usize>>, ParseErrorView>(a + b),
            (Ok(_), Err(e)) => Err(e),
            (Err(e), _) => Err(e),
        },
{
    lemma_split_concat(before, after, ',');
    lemma_token_ranges_concat(split(before, ','), split(after, ','));
}

/// A selection that is accepted has one range for each of its items,
/// and none of its ranges is empty.
pub proof fn law_ranges_not_empty(tokens: Seq<Seq<char>>)
    ensures
        token_ranges(tokens) matches Ok(ranges) ==> {
            &&& ranges.len() == tokens.len()
            &&& forall|i: int| 0 <= i < ranges.len() ==> (#[trigger] ranges[i]).start < ranges[i].end
        },
    decreases tokens.len(),
{
    if tokens.len() > 0 {
        law_ranges_not_empty(tokens.drop_last());
    }
}

/// One bad item makes the whole list bad.
pub proof fn lemma_one_bad_item(tokens: Seq<Seq<char>>, k: int)
    requires
        0 <= k < tokens.len(),
        token_range(tokens[k]) is Err,
    ensures
        token_ranges(tokens) is Err,
    decreases tokens.len(),
{
    if k < tokens.len() - 1 {
        lemma_one_bad_item(tokens.drop_last(), k);
    }
}

/// The empty selection is turned down as empty.
pub proof fn law_rejects_empty()
    ensures
        selection_ranges(Seq::empty()) == Err::<Seq<Range<usize>>, ParseErrorView>(ParseErrorView::EmptySelection),
{
    let tokens = seq![Seq::<char>::empty()];
    assert(tokens.drop_last() == Seq::<Seq<char>>::empty());
    assert(token_ranges(tokens.drop_last()) == Ok::<Seq<Range<usize>>, ParseErrorView>(Seq::empty()));
}

/// A selection with nothing before its first comma, between two
/// commas or after its last comma is turned down.
pub proof fn law_rejects_empty_items(before: Seq<char>, after: Seq<char>)
    ensures
        selection_ranges(before.push(',')) is Err,
        selection_ranges(seq![','] + after) is Err,
        selection_ranges(before.push(',').push(',') + after) is Err,
{
    let nothing = Seq::<char>::empty();
    law_rejects_empty();
    law_order_preserved(before, nothing);
    assert(before.push(',') + nothing == before.push(','));
    law_order_preserved(nothing, after);
    assert(nothing.push(',') + after == seq![','] + after);
    law_order_preserved(before.push(','), after);
}

/// A selection that holds anything but digits, commas and hyphens is
/// turned down.
pub proof fn law_rejects_other_characters(raw: Seq<char>, i: int)
    requires
        0 <= i < raw.len(),
        !is_digit(raw[i]),
        raw[i] != ',',
        raw[i] != '-',
    ensures
        selection_ranges(raw) is Err,
{
    let c = raw[i];
    let tokens = split(raw, ',');
    lemma_piece_holds(raw, ',', i);
    let k = choose|k: int| 0 <= k < tokens.len() && (#[trigger] tokens[k]).contains(c);
    let token = tokens[k];
    let j = choose|j: int| 0 <= j < token.len() && token[j] == c;
    lemma_piece_holds(token, '-', j);
    let parts = split(token, '-');
    let p = choose|p: int| 0 <= p < parts.len() && (#[trigger] parts[p]).contains(c);
    lemma_split_len(token, '-');
    if parts.len() == 1 {
        assert(!is_number(token));
    } else if parts.len() == 2 {
        assert(!is_number(parts[p])) by {
            if is_number(parts[p]) {
                lemma_number_holds_digits_only(parts[p], c);
            }
        }
    }
    assert(token_range(token) is Err);
    lemma_one_bad_item(tokens, k);
}

/// A numeral that spells zero names no position: by itself it is
/// turned down and quoted, and a range with it at either end is
/// turned down and quoted whole.
pub proof fn law_rejects_zero(zero: Seq<char>, other: Seq<char>)
    requires
        is_number(zero),
        value(zero) == 0,
        is_number(other),
    ensures
        selection_ranges(zero) == Err::<Seq<Range<usize>>, ParseErrorView>(ParseErrorView::InvalidToken(zero)),
        selection_ranges(zero.push('-') + other) == Err::<Seq<Range<usize>>, ParseErrorView>(
            ParseErrorView::InvalidToken(zero.push('-') + other),
        ),
        selection_ranges(other.push('-') + zero) == Err::<Seq<Range<usize>>, ParseErrorView>(
            ParseErrorView::InvalidToken(other.push('-') + zero),
        ),
{
    let nothing = Seq::<Seq<char>>::empty();
    assert(token_ranges(nothing) == Ok::<Seq<Range<usize>>, ParseErrorView>(Seq::empty()));
    lemma_number_holds_digits_only(zero, ',');
    lemma_number_holds_digits_only(zero, '-');
    lemma_split_without_sep(zero, ',');
    lemma_split_without_sep(zero, '-');
    assert(seq![zero].drop_last() == nothing);
    lemma_range_token(zero, other);
    assert(seq![zero.push('-') + other].drop_last() == nothing);
    lemma_range_token(other, zero);
    assert(seq![other.push('-') + zero].drop_last() == nothing);
}

/// A range with more than one hyphen, or with nothing on one side of
/// its hyphen, is turned down and quoted whole.
pub proof fn law_rejects_malformed_ranges(first: Seq<char>, second: Seq<char>, third: Seq<char>)
    requires
        !first.contains(','),
        !second.contains(','),
        !third.contains(','),
    ensures
        selection_ranges(first.push('-').push('-') + second) is Err,
        selection_ranges(first.push('-') + second.push('-') + third) is Err,
        !first.contains('-') ==> selection_ranges(first.push('-')) == Err::<Seq<Range<usize>>, ParseErrorView>(
            ParseErrorView::InvalidToken(first.push('-')),
        ),
        !second.contains('-') ==> selection_ranges(seq!['-'] + second) == Err::<Seq<Range<usize>>, ParseErrorView>(
            ParseErrorView::InvalidToken(seq!['-'] + second),
        ),
{
    let nothing = Seq::<char>::empty();
    let none = Seq::<Seq<char>>::empty();
    assert(token_ranges(none) == Ok::<Seq<Range<usize>>, ParseErrorView>(Seq::empty()));
    // two hyphens in a row
    let a = first.push('-').push('-') + second;
    lemma_three_parts(first, nothing + nothing, second);
    assert(first.push('-') + nothing.push('-') + second == a);
    // two hyphens apart
    lemma_three_parts(first, second, third);
    // nothing after the hyphen
    if !first.contains('-') {
        let t = first.push('-');
        lemma_no_comma(first, nothing);
        assert(first.push('-') + nothing == t);
        lemma_split_concat(first, nothing, '-');
        lemma_split_without_sep(first, '-');
        assert(split(t, '-') == seq![first, nothing]);
        assert(seq![t].drop_last() == none);
    }
    // nothing before the hyphen
    if !second.contains('-') {
        let t = seq!['-'] + second;
        lemma_no_comma(nothing, second);
        assert(nothing.push('-') + second == t);
        lemma_split_concat(nothing, second, '-');
        lemma_split_without_sep(second, '-');
        assert(split(t, '-') == seq![nothing, second]);
        assert(seq![t].drop_last() == none);
    }
}

/// Two texts without a comma, written around a hyphen, are one item.
pub proof fn lemma_no_comma(a: Seq<char>, b: Seq<char>)
    requires
        !a.contains(','),
        !b.contains(','),
    ensures
        split(a.push('-') + b, ',') == seq![a.push('-') + b],
{
    let t = a.push('-') + b;
    assert forall|i: int| 0 <= i < t.len() implies t[i] != ',' by {
        if i < a.len() {
            assert(a.contains(t[i]));
        } else if i > a.len() {
            assert(b[i - a.len() - 1] == t[i]);
            assert(b.contains(t[i]));
        }
    }
    lemma_split_without_sep(t, ',');
}

/// An item with two hyphens or more is turned down.
pub proof fn lemma_three_parts(a: Seq<char>, b: Seq<char>, c: Seq<char>)
    requires
        !a.contains(','),
        !b.contains(','),
        !c.contains(','),
    ensures
        selection_ranges(a.push('-') + b.push('-') + c) is Err,
{
    let t = a.push('-') + b.push('-') + c;
    let ab = a.push('-') + b;
    assert(t == ab.push('-') + c);
    lemma_no_comma(a, b);
    assert(!ab.contains(',')) by {
        if ab.contains(',') {
            lemma_split_with_sep(ab, ',');
        }
    }
    lemma_no_comma(ab, c);
    lemma_split_concat(ab, c, '-');
    lemma_split_concat(a, b, '-');
    lemma_split_len(a, '-');
    lemma_split_len(b, '-');
    lemma_split_len(c, '-');
    assert(split(t, '-').len() >= 3);
    assert(t.len() > 0);
    assert(token_range(t) is Err);
    lemma_one_bad_item(seq![t], 0);
}

/// Whether two outcomes are both a refusal or both the same result.
pub open spec fn same_if_accepted<T>(first: Result<T, ParseErrorView>, second: Result<T, ParseErrorView>) -> bool {
    match (first, second) {
        (Ok(a), Ok(b)) => a == b,
        (Err(_), Err(_)) => true,
        _ => false,
    }
}

/// Lists of items that stand, one by one, for the same ranges or for
/// none stand for the same ranges or for none.
pub proof fn lemma_items_alike(first: Seq<Seq<char>>, second: Seq<Seq<char>>)
    requires
        first.len() == second.len(),
        forall|i: int| 0 <= i < first.len() ==> same_if_accepted(token_range(first[i]), token_range(second[i])),
    ensures
        same_if_accepted(token_ranges(first), token_ranges(second)),
    decreases first.len(),
{
    if first.len() > 0 {
        lemma_items_alike(first.drop_last(), second.drop_last());
        assert(same_if_accepted(token_range(first.last()), token_range(second.last())));
    }
}

/// Zeros put before a run of digits in a text change neither whether
/// the text is a numeral nor the position it names.
pub proof fn lemma_zeros_in_numeral(before: Seq<char>, zeros: nat, after: Seq<char>)
    requires
        after.len() > 0,
        before.len() == 0 || !is_digit(before.last()),
    ensures
        is_number(before + repeat('0', zeros) + after) == is_number(before + after),
        position(before + repeat('0', zeros) + after) == position(before + after),
{
    let plain = before + after;
    let padded = before + repeat('0', zeros) + after;
    if before.len() == 0 {
        assert(plain == after);
        assert(padded == repeat('0', zeros) + after);
        lemma_leading_zeros(zeros, after);
    } else {
        assert(plain[before.len() - 1] == before.last());
        assert(padded[before.len() - 1] == before.last());
    }
}

/// Zeros put before a run of digits in an item change nothing in what
/// the item stands for, if it stands for anything.
pub proof fn lemma_zeros_in_item(before: Seq<char>, zeros: nat, after: Seq<char>)
    requires
        after.len() > 0,
        is_digit(after[0]),
        before.len() == 0 || !is_digit(before.last()),
    ensures
        same_if_accepted(token_range(before + after), token_range(before + repeat('0', zeros) + after)),
{
    let more = repeat('0', zeros);
    let plain = before + after;
    let padded = before + more + after;
    let left = split(before, '-');
    let right = split(after, '-');
    lemma_split_insert(before, more, after, '-');
    lemma_first_piece(after, '-');
    lemma_last_piece(before, '-');
    let old_part = left.last() + right[0];
    let new_part = left.last() + more + right[0];
    lemma_zeros_in_numeral(left.last(), zeros, right[0]);
    let parts = split(plain, '-');
    let padded_parts = split(padded, '-');
    let k = left.len() - 1;
    assert(parts.len() == padded_parts.len());
    assert(parts[k] == old_part);
    assert(padded_parts[k] == new_part);
    assert forall|i: int| 0 <= i < parts.len() implies position(#[trigger] parts[i]) == position(padded_parts[i]) by {
        if i != k {
            assert(parts[i] == padded_parts[i]);
        }
    }
    if parts.len() == 1 {
        law_join_undoes_split(plain, '-');
        law_join_undoes_split(padded, '-');
        assert(join(parts, '-') == parts[0]);
        assert(join(padded_parts, '-') == padded_parts[0]);
    }
}

/// Leading zeros change nothing: zeros put before any number of a
/// selection leave it accepted or turned down as it was, and an
/// accepted selection stands for the same ranges with them as
/// without.
///
/// The number begins at the start of `after`; `before` is what is
/// written before it, so it does not end with a digit.
pub proof fn law_leading_zeros(before: Seq<char>, zeros: nat, after: Seq<char>)
    requires
        after.len() > 0,
        is_digit(after[0]),
        before.len() == 0 || !is_digit(before.last()),
    ensures
        same_if_accepted(selection_ranges(before + after), selection_ranges(before + repeat('0', zeros) + after)),
{
    let more = repeat('0', zeros);
    let plain = before + after;
    let padded = before + more + after;
    let left = split(before, ',');
    let right = split(after, ',');
    lemma_split_insert(before, more, after, ',');
    lemma_first_piece(after, ',');
    lemma_last_piece(before, ',');
    lemma_zeros_in_item(left.last(), zeros, right[0]);
    let tokens = split(plain, ',');
    let padded_tokens = split(padded, ',');
    let k = left.len() - 1;
    assert(tokens[k] == left.last() + right[0]);
    assert(padded_tokens[k] == left.last() + more + right[0]);
    assert forall|i: int| 0 <= i < tokens.len() implies same_if_accepted(
        token_range(tokens[i]),
        token_range(padded_tokens[i]),
    ) by {
        if i != k {
            assert(tokens[i] == padded_tokens[i]);
        }
    }
    lemma_items_alike(tokens, padded_tokens);
}

} // verus!
