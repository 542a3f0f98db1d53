//! Writing a text out line by line, with or without line numbers.

use vstd::prelude::*;
use core::ops::Range;
use crate::decimal::{digits, push_decimal};
use crate::seqs::{bounds_within, pieces, split};
use crate::text::{chars_of, split_bounds, string_of};

verus! {

/// The pieces that are written out: all of them, or all but the empty
/// ones.
pub open spec fn kept(parts: Seq<Seq<char>>, skip_blank: bool) -> Seq<Seq<char>>
    decreases parts.len(),
{
    if parts.len() == 0 {
        Seq::empty()
    } else if skip_blank && parts.last().len() == 0 {
        kept(parts.drop_last(), skip_blank)
    } else {
        kept(parts.drop_last(), skip_blank).push(parts.last())
    }
}

/// One line of output: the line and a line feed, after its number and
/// a space where lines are numbered.
pub open spec fn output_line(index: nat, line: Seq<char>, numbering: bool) -> Seq<char> {
    if numbering {
        digits(index).push(' ') + line.push('\n')
    } else {
        line.push('\n')
    }
}

/// The lines written out one after another, each numbered by its
/// place in `lines`, counted from zero.
pub open spec fn output_lines(lines: Seq<Seq<char>>, numbering: bool) -> Seq<char>
    decreases lines.len(),
{
    if lines.len() == 0 {
        Seq::empty()
    } else {
        output_lines(lines.drop_last(), numbering) + output_line(
            (lines.len() - 1) as nat,
            lines.last(),
            numbering,
        )
    }
}

/// What is written for `contents`.
///
/// The text is cut at its line feeds. With `number_nonblank` the empty
/// pieces are left out. Each piece that remains is written with a line
/// feed after it, and with its number before it if either flag is set.
pub open spec fn output_of(contents: Seq<char>, number_lines: bool, number_nonblank: bool) -> Seq<char> {
    output_lines(kept(split(contents, '\n'), number_nonblank), number_lines || number_nonblank)
}

/// Writes `contents` out line by line.
///
/// With `number_nonblank` empty lines are dropped; with either flag
/// the lines that are written are numbered from zero.
pub fn get_output(contents: String, number_lines: bool, number_nonblank: bool) -> (out: String)
    ensures
        out@ == output_of(contents@, number_lines, number_nonblank),
{
    let chars = chars_of(contents.as_str());
    let text = chars.as_slice();
    let bounds = split_bounds(text, '\n');
    let numbering = number_lines || number_nonblank;
    let ghost parts = split(contents@, '\n');
    let mut out: Vec<char> = Vec::new();
    let mut written: usize = 0;
    let mut k: usize = 0;
    while k < bounds.len()
        invariant
            k <= bounds.len(),
            text@ == contents@,
            bounds_within(bounds@, text@.len()),
            pieces(text@, bounds@) == parts,
            written == kept(parts.take(k as int), number_nonblank).len(),
            written <= k,
            out@ == output_lines(kept(parts.take(k as int), number_nonblank), numbering),
        decreases bounds.len() - k,
    {
        let start = bounds[k].start;
        let end = bounds[k].end;
        proof {
            assert(parts.take(k + 1).drop_last() == parts.take(k as int));
            assert(parts.take(k + 1).last() == text@.subrange(start as int, end as int));
        }
        if !(number_nonblank && start == end) {
            let ghost before = kept(parts.take(k as int), number_nonblank);
            let ghost line = text@.subrange(start as int, end as int);
            proof {
                assert(before.push(line).drop_last() == before);
            }
            if numbering {
                push_decimal(written as u128, &mut out);
                out.push(' ');
            }
            let ghost base = out@;
            let mut i: usize = start;
            while i < end
                invariant
                    start <= i <= end <= text@.len(),
                    out@ == base + text@.subrange(start as int, i as int),
                decreases end - i,
            {
                out.push(text[i]);
                i += 1;
            }
            out.push('\n');
            written += 1;
        }
        k += 1;
    }
    proof {
        assert(parts.take(k as int) == parts);
    }
    string_of(out.as_slice())
}

} // verus!
