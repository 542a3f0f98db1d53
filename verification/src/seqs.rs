//! Splitting a sequence at a separator, joining it again, and picking
//! pieces of it by position.

use vstd::prelude::*;
use core::ops::Range;

verus! {

/// The pieces of `s` between the occurrences of `sep`, in order.
///
/// There is always one piece more than there are separators, so the
/// empty sequence has exactly one (empty) piece.
pub open spec fn split<T>(s: Seq<T>, sep: T) -> Seq<Seq<T>>
    decreases s.len(),
{
    if s.len() == 0 {
        seq![Seq::empty()]
    } else {
        let before = split(s.drop_last(), sep);
        if s.last() == sep {
            before.push(Seq::empty())
        } else {
            before.drop_last().push(before.last().push(s.last()))
        }
    }
}

/// The pieces of `parts` written one after another with `sep` between
/// each two neighbours.
pub open spec fn join<T>(parts: Seq<Seq<T>>, sep: T) -> Seq<T>
    decreases parts.len(),
{
    if parts.len() == 0 {
        Seq::empty()
    } else if parts.len() == 1 {
        parts[0]
    } else {
        join(parts.drop_last(), sep).push(sep) + parts.last()
    }
}

/// Where the range `r` begins once it is cut down to `len` items.
pub open spec fn clip_start(r: Range<usize>, len: nat) -> int {
    if r.start <= len {
        r.start as int
    } else {
        len as int
    }
}

/// Where the range `r` ends once it is cut down to `len` items. Never
/// before `clip_start`.
pub open spec fn clip_end(r: Range<usize>, len: nat) -> int {
    let end = if r.end <= len {
        r.end as int
    } else {
        len as int
    };
    if end < clip_start(r, len) {
        clip_start(r, len)
    } else {
        end
    }
}

/// The items of `items` whose position lies in `r`. Positions past the
/// end of `items` select nothing.
pub open spec fn pick<T>(items: Seq<T>, r: Range<usize>) -> Seq<T> {
    items.subrange(clip_start(r, items.len()), clip_end(r, items.len()))
}

/// What the ranges select from `items`, range after range in the order
/// in which they are listed.
pub open spec fn select<T>(items: Seq<T>, ranges: Seq<Range<usize>>) -> Seq<T>
    decreases ranges.len(),
{
    if ranges.len() == 0 {
        Seq::empty()
    } else {
        select(items, ranges.drop_last()) + pick(items, ranges.last())
    }
}

/// The stretches of `s` that `bounds` marks, in the order of `bounds`.
pub open spec fn pieces<T>(s: Seq<T>, bounds: Seq<Range<usize>>) -> Seq<Seq<T>> {
    Seq::new(bounds.len(), |k: int| s.subrange(bounds[k].start as int, bounds[k].end as int))
}

/// Whether each of `bounds` marks a stretch of a sequence of length
/// `len`.
pub open spec fn bounds_within(bounds: Seq<Range<usize>>, len: nat) -> bool {
    forall|k: int| 0 <= k < bounds.len() ==> (#[trigger] bounds[k]).start <= bounds[k].end <= len
}

/// Whether `bounds` mark stretches that lie in a row from the start to
/// the end of a sequence of length `len`, with one item left out
/// between each two neighbours.
pub open spec fn bounds_in_a_row(bounds: Seq<Range<usize>>, len: nat) -> bool {
    &&& bounds.len() >= 1
    &&& bounds[0].start == 0
    &&& bounds.last().end == len
    &&& forall|k: int| 0 < k < bounds.len() ==> (#[trigger] bounds[k]).start == bounds[k - 1].end + 1
}

/// Where piece `k` of `parts` begins in what the pieces were split
/// from: after the pieces before it and the separator behind each.
pub open spec fn piece_start<T>(parts: Seq<Seq<T>>, k: int) -> int
    decreases k,
{
    if k <= 0 {
        0
    } else {
        piece_start(parts, k - 1) + parts[k - 1].len() + 1
    }
}

/// Bounds that lie in a row begin where the pieces they mark begin.
pub proof fn lemma_bounds_in_a_row<T>(s: Seq<T>, bounds: Seq<Range<usize>>, k: int)
    requires
        bounds_within(bounds, s.len()),
        bounds_in_a_row(bounds, s.len()),
        0 <= k < bounds.len(),
    ensures
        bounds[k].start == piece_start(pieces(s, bounds), k),
    decreases k,
{
    if k > 0 {
        lemma_bounds_in_a_row(s, bounds, k - 1);
        assert(pieces(s, bounds)[k - 1].len() == bounds[k - 1].end - bounds[k - 1].start);
    }
}

/// How the split of the first `i` items of `s` grows by the item at
/// `i`: a separator closes the last piece and opens an empty one, any
/// other item lengthens the last piece.
pub proof fn lemma_split_grow<T>(s: Seq<T>, sep: T, done: Seq<Seq<T>>, start: int, i: int)
    requires
        0 <= start <= i < s.len(),
        split(s.take(i), sep) == done.push(s.subrange(start, i)),
    ensures
        s[i] == sep ==> split(s.take(i + 1), sep) == done.push(s.subrange(start, i)).push(
            s.subrange(i + 1, i + 1),
        ),
        s[i] != sep ==> split(s.take(i + 1), sep) == done.push(s.subrange(start, i + 1)),
{
    let grown = s.take(i + 1);
    let before = split(s.take(i), sep);
    assert(grown.drop_last() == s.take(i));
    assert(grown.last() == s[i]);
    if s[i] == sep {
        assert(s.subrange(i + 1, i + 1) == Seq::<T>::empty());
    } else {
        assert(before.drop_last() == done);
        assert(before.last().push(s[i]) == s.subrange(start, i + 1));
    }
}

/// Joining one more piece: it follows a separator unless it is the
/// first.
pub proof fn lemma_join_push<T>(parts: Seq<Seq<T>>, piece: Seq<T>, sep: T)
    ensures
        join(parts.push(piece), sep) == if parts.len() == 0 {
            piece
        } else {
            join(parts, sep).push(sep) + piece
        },
{
    assert(parts.push(piece).drop_last() == parts);
}

/// A split always yields at least one piece.
pub proof fn lemma_split_len<T>(s: Seq<T>, sep: T)
    ensures
        split(s, sep).len() >= 1,
    decreases s.len(),
{
    if s.len() > 0 {
        lemma_split_len(s.drop_last(), sep);
    }
}

/// No piece of a split holds the separator.
pub proof fn law_pieces_hold_no_separator<T>(s: Seq<T>, sep: T)
    ensures
        forall|k: int| 0 <= k < split(s, sep).len() ==> !(#[trigger] split(s, sep)[k]).contains(sep),
    decreases s.len(),
{
    if s.len() > 0 {
        lemma_split_len(s.drop_last(), sep);
        law_pieces_hold_no_separator(s.drop_last(), sep);
        let before = split(s.drop_last(), sep);
        if s.last() != sep {
            let grown = before.last().push(s.last());
            assert forall|j: int| 0 <= j < grown.len() implies grown[j] != sep by {
                if j < before.last().len() {
                    assert(before.last().contains(grown[j]));
                }
            }
        }
    }
}

/// Joining the pieces of a split gives the sequence back.
pub proof fn law_join_undoes_split<T>(s: Seq<T>, sep: T)
    ensures
        join(split(s, sep), sep) == s,
    decreases s.len(),
{
    if s.len() > 0 {
        let rest = s.drop_last();
        lemma_split_len(rest, sep);
        law_join_undoes_split(rest, sep);
        let before = split(rest, sep);
        if s.last() == sep {
            let all = before.push(Seq::empty());
            assert(all.drop_last() == before);
            assert(join(all, sep) == join(before, sep).push(sep) + Seq::<T>::empty());
            assert(join(all, sep) == s);
        } else {
            let grown = before.last().push(s.last());
            let all = before.drop_last().push(grown);
            assert(all.drop_last() == before.drop_last());
            assert(s == rest.push(s.last()));
            if before.len() == 1 {
                assert(join(before, sep) == before[0]);
                assert(join(all, sep) == grown);
            } else {
                let front = join(before.drop_last(), sep).push(sep);
                assert(join(before, sep) == front + before.last());
                assert(join(all, sep) == front + grown);
                assert(front + grown == (front + before.last()).push(s.last()));
            }
            assert(join(all, sep) == s);
        }
    }
}

/// A sequence without the separator is its own single piece.
pub proof fn lemma_split_without_sep<T>(s: Seq<T>, sep: T)
    requires
        !s.contains(sep),
    ensures
        split(s, sep) == seq![s],
    decreases s.len(),
{
    if s.len() > 0 {
        let rest = s.drop_last();
        assert forall|j: int| 0 <= j < rest.len() implies rest[j] != sep by {
            assert(s.contains(s[j]));
        }
        assert(s.contains(s.last()));
        lemma_split_without_sep(rest, sep);
        assert(s == rest.push(s.last()));
        assert(seq![rest].drop_last().push(rest.push(s.last())) == seq![s]);
    } else {
        assert(s == Seq::<T>::empty());
    }
}

/// A sequence that holds the separator has two pieces or more.
pub proof fn lemma_split_with_sep<T>(s: Seq<T>, sep: T)
    requires
        s.contains(sep),
    ensures
        split(s, sep).len() >= 2,
    decreases s.len(),
{
    let rest = s.drop_last();
    lemma_split_len(rest, sep);
    if s.last() != sep {
        let i = choose|i: int| 0 <= i < s.len() && s[i] == sep;
        assert(rest[i] == sep);
        lemma_split_with_sep(rest, sep);
    }
}

/// Splitting `a`, a separator and `b` written in a row gives the
/// pieces of `a` followed by the pieces of `b`.
pub proof fn lemma_split_concat<T>(a: Seq<T>, b: Seq<T>, sep: T)
    ensures
        split(a.push(sep) + b, sep) == split(a, sep) + split(b, sep),
    decreases b.len(),
{
    let whole = a.push(sep) + b;
    if b.len() == 0 {
        assert(whole == a.push(sep));
        assert(whole.drop_last() == a);
        assert(split(a, sep).push(Seq::empty()) == split(a, sep) + seq![Seq::<T>::empty()]);
    } else {
        let rest = b.drop_last();
        assert(whole.drop_last() == a.push(sep) + rest);
        assert(whole.last() == b.last());
        lemma_split_concat(a, rest, sep);
        lemma_split_len(rest, sep);
        let left = split(a, sep);
        let right = split(rest, sep);
        if b.last() == sep {
            assert((left + right).push(Seq::empty()) == left + right.push(Seq::empty()));
        } else {
            let grown = right.last().push(b.last());
            assert((left + right).drop_last() == left + right.drop_last());
            assert((left + right).last() == right.last());
            assert((left + right.drop_last()).push(grown) == left + right.drop_last().push(grown));
        }
    }
}

/// Items without a separator, written after a sequence, lengthen its
/// last piece.
pub proof fn lemma_split_lengthen<T>(s: Seq<T>, more: Seq<T>, sep: T)
    requires
        !more.contains(sep),
    ensures
        split(s + more, sep) == split(s, sep).drop_last().push(split(s, sep).last() + more),
    decreases more.len(),
{
    lemma_split_len(s, sep);
    let parts = split(s, sep);
    if more.len() == 0 {
        assert(s + more == s);
        assert(parts.last() + more == parts.last());
        assert(parts.drop_last().push(parts.last()) == parts);
    } else {
        let rest = more.drop_last();
        assert forall|i: int| 0 <= i < rest.len() implies rest[i] != sep by {
            assert(more.contains(more[i]));
        }
        assert(more.contains(more.last()));
        lemma_split_lengthen(s, rest, sep);
        assert((s + more).drop_last() == s + rest);
        assert((s + more).last() == more.last());
        let before = parts.drop_last().push(parts.last() + rest);
        assert(before.drop_last() == parts.drop_last());
        assert((parts.last() + rest).push(more.last()) == parts.last() + more);
    }
}

/// The last piece of a split is empty where the sequence is empty or
/// ends with a separator; else it ends as the sequence does.
pub proof fn lemma_last_piece<T>(s: Seq<T>, sep: T)
    ensures
        split(s, sep).len() >= 1,
        s.len() == 0 || s.last() == sep ==> split(s, sep).last().len() == 0,
        s.len() > 0 && s.last() != sep ==> split(s, sep).last().len() > 0 && split(s, sep).last().last() == s.last(),
{
    lemma_split_len(s, sep);
    if s.len() > 0 {
        lemma_split_len(s.drop_last(), sep);
    }
}

/// The first piece of a split begins as the sequence does, unless the
/// sequence begins with a separator.
pub proof fn lemma_first_piece<T>(s: Seq<T>, sep: T)
    requires
        s.len() > 0,
        s[0] != sep,
    ensures
        split(s, sep).len() >= 1,
        split(s, sep)[0].len() > 0,
        split(s, sep)[0][0] == s[0],
    decreases s.len(),
{
    let rest = s.drop_last();
    lemma_split_len(s, sep);
    lemma_split_len(rest, sep);
    if rest.len() > 0 {
        assert(rest[0] == s[0]);
        lemma_first_piece(rest, sep);
    }
}

/// Splitting two sequences in a row: the last piece of the first and
/// the first piece of the second become one piece; the other pieces
/// stay.
pub proof fn lemma_split_seam<T>(a: Seq<T>, b: Seq<T>, sep: T)
    ensures
        split(a, sep).len() >= 1,
        split(b, sep).len() >= 1,
        split(a + b, sep) == split(a, sep).drop_last().push(split(a, sep).last() + split(b, sep)[0]) + split(
            b,
            sep,
        ).drop_first(),
    decreases b.len(),
{
    let left = split(a, sep);
    let right = split(b, sep);
    lemma_split_len(a, sep);
    lemma_split_len(b, sep);
    if b.len() == 0 {
        assert(a + b == a);
        assert(left.last() + right[0] == left.last());
        assert(left.drop_last().push(left.last()) + right.drop_first() == left);
    } else {
        let rest = b.drop_last();
        let before = split(rest, sep);
        lemma_split_seam(a, rest, sep);
        assert((a + b).drop_last() == a + rest);
        assert((a + b).last() == b.last());
        let front = left.drop_last().push(left.last() + before[0]);
        let joined = front + before.drop_first();
        if b.last() == sep {
            assert(right[0] == before[0]);
            assert(right.drop_first() == before.drop_first().push(Seq::empty()));
            assert(joined.push(Seq::empty()) == front + before.drop_first().push(Seq::empty()));
        } else if before.len() == 1 {
            assert(joined == front);
            assert(right == seq![before[0].push(b.last())]);
            assert(right.drop_first() == Seq::<Seq<T>>::empty());
            assert((left.last() + before[0]).push(b.last()) == left.last() + before[0].push(b.last()));
            assert(joined.drop_last() == left.drop_last());
        } else {
            let grown = before.last().push(b.last());
            assert(right[0] == before[0]);
            assert(right.drop_first() == before.drop_first().drop_last().push(grown));
            assert(joined.last() == before.last());
            assert(joined.drop_last() == front + before.drop_first().drop_last());
            assert((front + before.drop_first().drop_last()).push(grown) == front + before.drop_first().drop_last().push(
                grown,
            ));
        }
    }
}

/// Items without a separator, put into a sequence, lengthen the piece
/// they are put into and leave the other pieces as they are.
pub proof fn lemma_split_insert<T>(before: Seq<T>, more: Seq<T>, after: Seq<T>, sep: T)
    requires
        !more.contains(sep),
    ensures
        split(before, sep).len() >= 1,
        split(after, sep).len() >= 1,
        split(before + after, sep) == split(before, sep).drop_last().push(
            split(before, sep).last() + split(after, sep)[0],
        ) + split(after, sep).drop_first(),
        split(before + more + after, sep) == split(before, sep).drop_last().push(
            split(before, sep).last() + more + split(after, sep)[0],
        ) + split(after, sep).drop_first(),
{
    lemma_split_seam(before, after, sep);
    lemma_split_lengthen(before, more, sep);
    lemma_split_seam(before + more, after, sep);
    let left = split(before, sep);
    let grown = left.drop_last().push(left.last() + more);
    assert(grown.drop_last() == left.drop_last());
    assert(grown.last() == left.last() + more);
}

/// Every item that is no separator stands in one of the pieces.
pub proof fn lemma_piece_holds<T>(s: Seq<T>, sep: T, i: int)
    requires
        0 <= i < s.len(),
        s[i] != sep,
    ensures
        exists|k: int| 0 <= k < split(s, sep).len() && (#[trigger] split(s, sep)[k]).contains(s[i]),
    decreases s.len(),
{
    let rest = s.drop_last();
    let before = split(rest, sep);
    let all = split(s, sep);
    lemma_split_len(rest, sep);
    if i == s.len() - 1 {
        let grown = before.last().push(s.last());
        assert(grown[grown.len() - 1] == s[i]);
        assert(all[all.len() - 1].contains(s[i]));
    } else {
        lemma_piece_holds(rest, sep, i);
        let k = choose|k: int| 0 <= k < before.len() && (#[trigger] before[k]).contains(rest[i]);
        let j = choose|j: int| 0 <= j < before[k].len() && before[k][j] == rest[i];
        if s.last() == sep || k < before.len() - 1 {
            assert(all[k] == before[k]);
        } else {
            assert(all[k][j] == s[i]);
        }
        assert(all[k].contains(s[i]));
    }
}

/// Pieces without the separator are what splitting their join gives:
/// a split is the one way to cut a sequence at all its separators.
pub proof fn law_split_undoes_join<T>(parts: Seq<Seq<T>>, sep: T)
    requires
        parts.len() >= 1,
        forall|k: int| 0 <= k < parts.len() ==> !(#[trigger] parts[k]).contains(sep),
    ensures
        split(join(parts, sep), sep) == parts,
    decreases parts.len(),
{
    if parts.len() == 1 {
        lemma_split_without_sep(parts[0], sep);
        assert(seq![parts[0]] == parts);
    } else {
        let front = parts.drop_last();
        law_split_undoes_join(front, sep);
        lemma_split_concat(join(front, sep), parts.last(), sep);
        lemma_split_without_sep(parts.last(), sep);
        assert(front + seq![parts.last()] == parts);
    }
}

/// Selecting with two lists of ranges in a row selects with the first
/// and then with the second.
pub proof fn law_select_in_turn<T>(items: Seq<T>, first: Seq<Range<usize>>, second: Seq<Range<usize>>)
    ensures
        select(items, first + second) == select(items, first) + select(items, second),
    decreases second.len(),
{
    if second.len() == 0 {
        assert(first + second == first);
    } else {
        assert((first + second).drop_last() == first + second.drop_last());
        assert((first + second).last() == second.last());
        law_select_in_turn(items, first, second.drop_last());
    }
}

/// Whatever is selected from `items` is an item of `items`.
pub proof fn lemma_select_within<T>(items: Seq<T>, ranges: Seq<Range<usize>>)
    ensures
        forall|i: int| 0 <= i < select(items, ranges).len() ==> items.contains(#[trigger] select(items, ranges)[i]),
    decreases ranges.len(),
{
    if ranges.len() > 0 {
        lemma_select_within(items, ranges.drop_last());
        let head = select(items, ranges.drop_last());
        let tail = pick(items, ranges.last());
        assert forall|i: int| 0 <= i < select(items, ranges).len() implies items.contains(
            #[trigger] select(items, ranges)[i],
        ) by {
            if i >= head.len() {
                let j = i - head.len();
                assert(tail[j] == items[clip_start(ranges.last(), items.len()) + j]);
            }
        }
    }
}

} // verus!
