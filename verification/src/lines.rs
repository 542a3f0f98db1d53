//! The lines of a text.

use vstd::prelude::*;
use core::ops::Range;
use crate::seqs::{bounds_within, lemma_bounds_in_a_row, lemma_split_len, piece_start, pieces, split};
use crate::text::{split_bounds, Symbol};

verus! {

/// `piece` without the carriage return at its end, if it ends in one.
pub open spec fn without_return<T>(piece: Seq<T>, cr: T) -> Seq<T> {
    if piece.len() > 0 && piece.last() == cr {
        piece.drop_last()
    } else {
        piece
    }
}

/// The lines of `text`, where `nl` is the line feed and `cr` the
/// carriage return.
///
/// A line ends at a line feed; the line feed is no part of it, nor is
/// a carriage return that stands right before the line feed. What
/// follows the last line feed is a line as it stands, unless it is
/// empty.
pub open spec fn lines_of<T>(text: Seq<T>, nl: T, cr: T) -> Seq<Seq<T>> {
    let parts = split(text, nl);
    let ended = Seq::new((parts.len() - 1) as nat, |k: int| without_return(parts[k], cr));
    if parts.last().len() == 0 {
        ended
    } else {
        ended.push(parts.last())
    }
}

/// The lines of a text of characters.
pub open spec fn text_lines(text: Seq<char>) -> Seq<Seq<char>> {
    lines_of(text, '\n', '\r')
}

/// Marks the lines of `text`: each from its first item up to but
/// without the line end.
pub fn line_bounds<T: Symbol>(text: &[T], nl: T, cr: T) -> (bounds: Vec<Range<usize>>)
    ensures
        bounds_within(bounds@, text@.len()),
        pieces(text@, bounds@) == lines_of(text@, nl, cr),
        forall|k: int| 0 <= k < bounds@.len() ==> (#[trigger] bounds@[k]).start == piece_start(split(text@, nl), k),
{
    let parts = split_bounds(text, nl);
    proof {
        lemma_split_len(text@, nl);
    }
    let ghost split_parts = split(text@, nl);
    proof {
        assert forall|j: int| 0 <= j < parts@.len() implies (#[trigger] parts@[j]).start == piece_start(
            split_parts,
            j,
        ) by {
            lemma_bounds_in_a_row(text@, parts@, j);
        }
    }
    let ended = parts.len() - 1;
    let mut bounds: Vec<Range<usize>> = Vec::new();
    let mut k: usize = 0;
    while k < ended
        invariant
            k <= ended,
            ended == parts@.len() - 1,
            bounds_within(parts@, text@.len()),
            pieces(text@, parts@) == split_parts,
            bounds_within(bounds@, text@.len()),
            bounds@.len() == k,
            forall|j: int| 0 <= j < parts@.len() ==> (#[trigger] parts@[j]).start == piece_start(split_parts, j),
            forall|j: int| 0 <= j < k ==> (#[trigger] bounds@[j]).start == piece_start(split_parts, j),
            pieces(text@, bounds@) == Seq::new(k as nat, |j: int| without_return(split_parts[j], cr)),
        decreases ended - k,
    {
        let start = parts[k].start;
        let mut end = parts[k].end;
        proof {
            assert(split_parts[k as int] == text@.subrange(start as int, end as int));
        }
        if start < end && text[end - 1].same(cr) {
            end = end - 1;
        }
        let ghost before = bounds@;
        bounds.push(Range { start: start, end: end });
        proof {
            assert(text@.subrange(start as int, end as int) == without_return(split_parts[k as int], cr));
            assert(pieces(text@, bounds@) == pieces(text@, before).push(text@.subrange(start as int, end as int)));
        }
        k += 1;
    }
    proof {
        assert(split_parts.last() == text@.subrange(parts@[ended as int].start as int, parts@[ended as int].end as int));
    }
    if parts[ended].start < parts[ended].end {
        let ghost before = bounds@;
        bounds.push(Range { start: parts[ended].start, end: parts[ended].end });
        proof {
            assert(pieces(text@, bounds@) == pieces(text@, before).push(split_parts.last()));
        }
    }
    bounds
}

} // verus!
