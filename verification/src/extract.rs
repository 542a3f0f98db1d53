//! Cutting fields, bytes or characters out of a line.

use vstd::prelude::*;
use vstd::slice::slice_subrange;
use vstd::string::StringSliceAdditionalSpecFns;
use vstd::utf8::{
    decode_utf8, encode_utf8, encode_utf8_decode_utf8, encode_utf8_valid_utf8, is_ascii_chars, valid_utf8,
};
use core::ops::Range;
use crate::cut::{Extract, PositionList};
use crate::encoding::{lemma_join_encode, lemma_select_ascii, lemma_select_encode, lemma_split_encode};
use crate::seqs::{bounds_within, join, lemma_join_push, lemma_select_within, pick, pieces, select, split};
use crate::text::{chars_of, decode_lossy, split_bounds, string_of, utf8_lossy};

verus! {

/// The fields of `line` that `positions` select, joined again by the
/// delimiter. Fields are what stands between delimiters.
pub open spec fn cut_fields<T>(line: Seq<T>, delimiter: T, positions: Seq<Range<usize>>) -> Seq<T> {
    join(select(split(line, delimiter), positions), delimiter)
}

/// The bytes that `how` cuts out of the UTF-8 bytes of `line`, where
/// it asks for fields or bytes.
pub open spec fn cut_bytes(line: Seq<char>, delimiter: u8, how: Extract) -> Seq<u8> {
    match how {
        Extract::Fields(positions) => cut_fields(encode_utf8(line), delimiter, positions@),
        Extract::Bytes(positions) => select(encode_utf8(line), positions@),
        Extract::Chars(positions) => Seq::empty(),
    }
}

/// What `how` cuts out of `line`.
///
/// Fields and bytes are cut out of the UTF-8 bytes of the line and
/// then read as text again; characters are cut out of the text.
pub open spec fn cut_line(line: Seq<char>, delimiter: u8, how: Extract) -> Seq<char> {
    match how {
        Extract::Chars(positions) => select(line, positions@),
        _ => utf8_lossy(cut_bytes(line, delimiter, how)),
    }
}

/// Copies out of `items` what `ranges` select.
pub fn select_items<T: Copy>(items: &[T], ranges: &[Range<usize>]) -> (out: Vec<T>)
    ensures
        out@ == select(items@, ranges@),
{
    let mut out: Vec<T> = Vec::new();
    let len = items.len();
    let mut r: usize = 0;
    while r < ranges.len()
        invariant
            r <= ranges.len(),
            len == items@.len(),
            out@ == select(items@, ranges@.take(r as int)),
        decreases ranges.len() - r,
    {
        let from = if ranges[r].start <= len {
            ranges[r].start
        } else {
            len
        };
        let end = if ranges[r].end <= len {
            ranges[r].end
        } else {
            len
        };
        let to = if end < from {
            from
        } else {
            end
        };
        let ghost before = out@;
        let mut i: usize = from;
        while i < to
            invariant
                from <= i <= to <= len,
                len == items@.len(),
                out@ == before + items@.subrange(from as int, i as int),
            decreases to - i,
        {
            out.push(items[i]);
            i += 1;
        }
        proof {
            assert(ranges@.take(r + 1).drop_last() == ranges@.take(r as int));
            assert(ranges@.take(r + 1).last() == ranges@[r as int]);
            assert(items@.subrange(from as int, to as int) == pick(items@, ranges@[r as int]));
        }
        r += 1;
    }
    proof {
        assert(ranges@.take(r as int) == ranges@);
    }
    out
}

/// Cuts fields out of `line`: the fields that `positions` select, in
/// the order of `positions`, with the delimiter between each two.
/// Positions past the last field select nothing.
pub fn extract_fields(line: &[u8], delimiter: u8, positions: &PositionList) -> (out: Vec<u8>)
    ensures
        out@ == cut_fields(line@, delimiter, positions@),
{
    let bounds = split_bounds(line, delimiter);
    let ghost fields = split(line@, delimiter);
    let count = bounds.len();
    let mut out: Vec<u8> = Vec::new();
    let mut first = true;
    let mut r: usize = 0;
    while r < positions.len()
        invariant
            r <= positions.len(),
            count == bounds@.len(),
            bounds_within(bounds@, line@.len()),
            pieces(line@, bounds@) == fields,
            first == (select(fields, positions@.take(r as int)).len() == 0),
            out@ == join(select(fields, positions@.take(r as int)), delimiter),
        decreases positions.len() - r,
    {
        let from = if positions[r].start <= count {
            positions[r].start
        } else {
            count
        };
        let end = if positions[r].end <= count {
            positions[r].end
        } else {
            count
        };
        let to = if end < from {
            from
        } else {
            end
        };
        let ghost chosen = select(fields, positions@.take(r as int));
        let mut k: usize = from;
        while k < to
            invariant
                from <= k <= to <= count,
                count == bounds@.len(),
                bounds_within(bounds@, line@.len()),
                pieces(line@, bounds@) == fields,
                first == ((chosen + fields.subrange(from as int, k as int)).len() == 0),
                out@ == join(chosen + fields.subrange(from as int, k as int), delimiter),
            decreases to - k,
        {
            let ghost so_far = chosen + fields.subrange(from as int, k as int);
            let field = slice_subrange(line, bounds[k].start, bounds[k].end);
            proof {
                assert(field@ == pieces(line@, bounds@)[k as int]);
                assert(chosen + fields.subrange(from as int, k + 1) == so_far.push(field@));
                lemma_join_push(so_far, field@, delimiter);
            }
            if !first {
                out.push(delimiter);
            }
            first = false;
            let ghost base = out@;
            let mut i: usize = 0;
            while i < field.len()
                invariant
                    i <= field.len(),
                    out@ == base + field@.take(i as int),
                decreases field.len() - i,
            {
                out.push(field[i]);
                i += 1;
            }
            proof {
                assert(field@.take(i as int) == field@);
            }
            k += 1;
        }
        proof {
            assert(positions@.take(r + 1).drop_last() == positions@.take(r as int));
            assert(positions@.take(r + 1).last() == positions@[r as int]);
            assert(fields.subrange(from as int, to as int) == pick(fields, positions@[r as int]));
        }
        r += 1;
    }
    proof {
        assert(positions@.take(r as int) == positions@);
    }
    out
}

/// Cuts bytes out of `line`: those that `positions` select, in the
/// order of `positions`. Positions past the end select nothing.
pub fn extract_bytes(line: &[u8], positions: &PositionList) -> (out: Vec<u8>)
    ensures
        out@ == select(line@, positions@),
{
    select_items(line, positions.as_slice())
}

/// Cuts characters out of `line`: those that `positions` select, in
/// the order of `positions`. Positions past the end select nothing.
pub fn extract_chars(line: &str, positions: &PositionList) -> (out: String)
    ensures
        out@ == select(line@, positions@),
{
    let chars = chars_of(line);
    let chosen = select_items(chars.as_slice(), positions.as_slice());
    string_of(chosen.as_slice())
}

/// Cuts out of `line` what `how` asks for. `delimiter` separates the
/// fields of the line; it matters for fields only.
///
/// Fields and bytes are cut out of the UTF-8 bytes of the line, and
/// what was cut out is read as UTF-8 again, with U+FFFD where a cut
/// went through a character. With an ASCII delimiter no cut between
/// fields does, and in an ASCII line no cut at all: there the fields
/// and bytes of the text itself come out.
pub fn extract(line: &str, delimiter: u8, how: &Extract) -> (out: String)
    ensures
        out@ == cut_line(line@, delimiter, *how),
        !(how is Chars) && valid_utf8(cut_bytes(line@, delimiter, *how)) ==> out@ == decode_utf8(
            cut_bytes(line@, delimiter, *how),
        ),
        delimiter < 128 ==> (how matches Extract::Fields(positions) ==> out@ == cut_fields(
            line@,
            delimiter as char,
            positions@,
        )),
        is_ascii_chars(line@) ==> (how matches Extract::Bytes(positions) ==> out@ == select(line@, positions@)),
{
    match how {
        Extract::Fields(positions) => {
            let chosen = extract_fields(line.as_bytes(), delimiter, positions);
            proof {
                if delimiter < 128 {
                    let text = cut_fields(line@, delimiter as char, positions@);
                    law_fields_of_text(line@, delimiter, positions@);
                    encode_utf8_valid_utf8(text);
                    encode_utf8_decode_utf8(text);
                }
            }
            decode_lossy(chosen.as_slice())
        },
        Extract::Bytes(positions) => {
            let chosen = extract_bytes(line.as_bytes(), positions);
            proof {
                if is_ascii_chars(line@) {
                    let text = select(line@, positions@);
                    law_bytes_of_ascii(line@, positions@);
                    encode_utf8_valid_utf8(text);
                    encode_utf8_decode_utf8(text);
                }
            }
            decode_lossy(chosen.as_slice())
        },
        Extract::Chars(positions) => extract_chars(line, positions),
    }
}

/// Fields between ASCII delimiters are cut out whole: cutting them
/// out of the UTF-8 bytes of a text gives the bytes of the fields cut
/// out of the text.
pub proof fn law_fields_of_text(line: Seq<char>, delimiter: u8, positions: Seq<Range<usize>>)
    requires
        delimiter < 128,
    ensures
        cut_fields(encode_utf8(line), delimiter, positions) == encode_utf8(
            cut_fields(line, delimiter as char, positions),
        ),
{
    lemma_split_encode(line, delimiter);
    lemma_select_encode(split(line, delimiter as char), positions);
    lemma_join_encode(select(split(line, delimiter as char), positions), delimiter);
}

/// In an ASCII text bytes are characters: cutting bytes out of its
/// UTF-8 bytes gives the bytes of the characters at the same
/// positions.
pub proof fn law_bytes_of_ascii(line: Seq<char>, positions: Seq<Range<usize>>)
    requires
        is_ascii_chars(line),
    ensures
        select(encode_utf8(line), positions) == encode_utf8(select(line, positions)),
{
    lemma_select_ascii(line, positions);
}

/// Cutting the same line in the same way twice gives the same text:
/// any two strings that `extract` may return for one line, one
/// delimiter and one request hold the same characters.
pub proof fn law_extract_repeatable(line: &str, delimiter: u8, how: &Extract, first: String, second: String)
    requires
        call_ensures(extract, (line, delimiter, how), first),
        call_ensures(extract, (line, delimiter, how), second),
    ensures
        first@ == second@,
{
}

/// Characters are cut out whole: each character of what is cut out of
/// a line is a character of that line.
pub proof fn law_chars_stay_whole(line: Seq<char>, positions: PositionList)
    ensures
        forall|i: int|
            0 <= i < cut_line(line, 0, Extract::Chars(positions)).len() ==> line.contains(
                #[trigger] cut_line(line, 0, Extract::Chars(positions))[i],
            ),
{
    lemma_select_within(line, positions@);
}

/// A range that lies within the items selects just the items at its
/// positions.
pub proof fn law_range_within<T>(items: Seq<T>, r: Range<usize>)
    requires
        r.start <= r.end <= items.len(),
    ensures
        pick(items, r) == items.subrange(r.start as int, r.end as int),
{
}

/// A range that reaches past the last item selects the items from its
/// start on, and nothing where it starts past the last item.
pub proof fn law_range_clipped<T>(items: Seq<T>, r: Range<usize>)
    requires
        r.end > items.len(),
    ensures
        r.start <= items.len() ==> pick(items, r) == items.skip(r.start as int),
        r.start >= items.len() ==> pick(items, r) == Seq::<T>::empty(),
{
}

/// Ranges that all start past the last item select nothing, so that
/// nothing is cut out, whether of fields, bytes or characters.
pub proof fn law_past_the_end<T>(items: Seq<T>, ranges: Seq<Range<usize>>)
    requires
        forall|k: int| 0 <= k < ranges.len() ==> (#[trigger] ranges[k]).start >= items.len(),
    ensures
        select(items, ranges) == Seq::<T>::empty(),
    decreases ranges.len(),
{
    if ranges.len() > 0 {
        law_past_the_end(items, ranges.drop_last());
        assert(pick(items, ranges.last()) == Seq::<T>::empty());
    }
}

} // verus!
