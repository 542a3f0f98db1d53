//! The beginning of a text: its first lines, or its first bytes.

use vstd::prelude::*;
use vstd::slice::slice_subrange;
use vstd::string::StringExecFns;
use vstd::utf8::{decode_utf8, valid_utf8};
use core::ops::Range;
use crate::decimal::{is_number, parse_usize, value};
use crate::lines::{line_bounds, lines_of};
use crate::seqs::{bounds_within, pieces};
use crate::text::{chars_of, decode_lossy, decode_strict, utf8_lossy};

verus! {

/// The digits of a count: `s` itself, or what follows its plus sign
/// where it begins with one.
pub open spec fn unsigned_part(s: Seq<char>) -> Seq<char> {
    if s.len() > 0 && s[0] == '+' {
        s.skip(1)
    } else {
        s
    }
}

/// The count that `s` spells: a numeral, which a plus sign may
/// precede, for a number that fits.
pub open spec fn count_of(s: Seq<char>) -> Option<usize> {
    let d = unsigned_part(s);
    if is_number(d) && value(d) <= usize::MAX {
        Some(value(d) as usize)
    } else {
        None
    }
}

/// Reads `n` as a count. Where it is none, the error is `n` itself.
pub fn parse_positive(n: &str) -> (r: Result<usize, String>)
    ensures
        match r {
            Ok(count) => count_of(n@) == Some(count),
            Err(text) => count_of(n@) is None && text@ == n@,
        },
{
    let chars = chars_of(n);
    let digits = if chars.len() > 0 && chars[0] == '+' {
        slice_subrange(chars.as_slice(), 1, chars.len())
    } else {
        chars.as_slice()
    };
    match parse_usize(digits) {
        Some(count) => Ok(count),
        None => Err(String::from_str(n)),
    }
}

/// Reads the number of lines to show. A value that is no count is
/// answered with `illegal line count -- ` and the value.
pub fn line_count(value: &str) -> (r: Result<usize, String>)
    ensures
        match r {
            Ok(count) => count_of(value@) == Some(count),
            Err(message) => count_of(value@) is None && message@ == "illegal line count -- "@ + value@,
        },
{
    match parse_positive(value) {
        Ok(count) => Ok(count),
        Err(text) => {
            let mut message = String::from_str("illegal line count -- ");
            message.append(text.as_str());
            Err(message)
        },
    }
}

/// Reads the number of bytes to show. A value that is no count is
/// answered with `illegal byte count -- ` and the value.
pub fn byte_count(value: &str) -> (r: Result<usize, String>)
    ensures
        match r {
            Ok(count) => count_of(value@) == Some(count),
            Err(message) => count_of(value@) is None && message@ == "illegal byte count -- "@ + value@,
        },
{
    match parse_positive(value) {
        Ok(count) => Ok(count),
        Err(text) => {
            let mut message = String::from_str("illegal byte count -- ");
            message.append(text.as_str());
            Err(message)
        },
    }
}

/// `text` with a plus sign before each of its characters.
pub open spec fn marked(text: Seq<char>) -> Seq<char> {
    Seq::new(
        2 * text.len(),
        |i: int|
            if i % 2 == 0 {
                '+'
            } else {
                text[i / 2]
            },
    )
}

/// One line as it is shown: its text and a line feed, or, where its
/// bytes are no valid UTF-8, the word `Something` and a line feed.
pub open spec fn shown_line(line: Seq<u8>) -> Seq<char> {
    if valid_utf8(line) {
        decode_utf8(line).push('\n')
    } else {
        "Something"@.push('\n')
    }
}

/// The lines as they are shown, one after another.
pub open spec fn shown_lines(lines: Seq<Seq<u8>>) -> Seq<char>
    decreases lines.len(),
{
    if lines.len() == 0 {
        Seq::empty()
    } else {
        shown_lines(lines.drop_last()) + shown_line(lines.last())
    }
}

/// The first `n` items of `s`, or all of them where there are fewer.
pub open spec fn first<T>(s: Seq<T>, n: usize) -> Seq<T> {
    if n <= s.len() {
        s.take(n as int)
    } else {
        s
    }
}

/// What is shown of the first lines of `data`.
pub open spec fn first_lines(data: Seq<u8>, n: usize) -> Seq<char> {
    shown_lines(first(lines_of(data, 10u8, 13u8), n))
}

/// Puts a plus sign before each character of `text`.
pub fn mark_chars(text: &str) -> (out: String)
    ensures
        out@ == marked(text@),
{
    let chars = chars_of(text);
    let mut out = String::new();
    let mut i: usize = 0;
    while i < chars.len()
        invariant
            i <= chars.len(),
            out@ == marked(chars@.take(i as int)),
        decreases chars.len() - i,
    {
        let ghost before = out@;
        out.push('+');
        out.push(chars[i]);
        proof {
            assert(out@ == marked(chars@.take(i + 1)));
        }
        i += 1;
    }
    proof {
        assert(chars@.take(i as int) == chars@);
    }
    out
}

/// Shows the first `n` bytes of `data`: they are read as UTF-8, with
/// U+FFFD for what is none, and each character is shown after a plus
/// sign.
pub fn head_bytes(data: &[u8], n: usize) -> (out: String)
    ensures
        out@ == marked(utf8_lossy(first(data@, n))),
        valid_utf8(first(data@, n)) ==> out@ == marked(decode_utf8(first(data@, n))),
{
    let end = if n <= data.len() {
        n
    } else {
        data.len()
    };
    let taken = slice_subrange(data, 0, end);
    proof {
        assert(taken@ == first(data@, n));
    }
    let text = decode_lossy(taken);
    mark_chars(text.as_str())
}

/// Shows the first `n` lines of `data`, each followed by a line feed.
/// A line that is no valid UTF-8 is shown as `Something`.
pub fn head_lines(data: &[u8], n: usize) -> (out: String)
    ensures
        out@ == first_lines(data@, n),
{
    let bounds = line_bounds(data, 10u8, 13u8);
    let ghost lines = lines_of(data@, 10u8, 13u8);
    let end = if n <= bounds.len() {
        n
    } else {
        bounds.len()
    };
    let mut out = String::new();
    let mut k: usize = 0;
    while k < end
        invariant
            k <= end <= bounds.len(),
            bounds_within(bounds@, data@.len()),
            pieces(data@, bounds@) == lines,
            out@ == shown_lines(lines.take(k as int)),
        decreases end - k,
    {
        let line = slice_subrange(data, bounds[k].start, bounds[k].end);
        proof {
            assert(line@ == lines[k as int]);
            assert(lines.take(k + 1).drop_last() == lines.take(k as int));
            assert(lines.take(k + 1).last() == line@);
        }
        match decode_strict(line) {
            Some(text) => {
                out.append(text.as_str());
            },
            None => {
                out.append("Something");
            },
        }
        out.push('\n');
        k += 1;
    }
    proof {
        assert(lines.take(end as int) == first(lines, n));
    }
    out
}

/// Whether `name` stands for the standard input: the empty name and
/// the name `-` do.
pub open spec fn is_standard_input(name: Seq<char>) -> bool {
    name.len() == 0 || name == seq!['-']
}

/// The header for the file `name`: an empty line, then the name
/// between arrows on a line of its own.
pub open spec fn header_of(name: Seq<char>) -> Seq<char> {
    "\n==> "@ + name + " <==\n"@
}

/// The header to show before what is shown of `filename`, one of
/// `num_files` inputs: a file gets a header where there are several
/// inputs; the standard input never gets one.
pub fn header(filename: &str, num_files: usize) -> (h: Option<String>)
    ensures
        h is Some <==> num_files > 1 && !is_standard_input(filename@),
        h matches Some(text) ==> text@ == header_of(filename@),
{
    let name = chars_of(filename);
    let standard_input = name.len() == 0 || (name.len() == 1 && name[0] == '-');
    proof {
        if name@.len() == 1 && name@[0] == '-' {
            assert(name@ == seq!['-']);
        }
    }
    if num_files > 1 && !standard_input {
        let mut text = String::from_str("\n==> ");
        text.append(filename);
        text.append(" <==\n");
        Some(text)
    } else {
        None
    }
}

/// What is shown of `data`: its first `num_bytes` bytes where a number
/// of bytes is given, else its first `num_lines` lines.
pub fn head_output(data: &[u8], num_lines: usize, num_bytes: Option<usize>) -> (out: String)
    ensures
        out@ == match num_bytes {
            Some(n) => marked(utf8_lossy(first(data@, n))),
            None => first_lines(data@, num_lines),
        },
        num_bytes matches Some(n) ==> (valid_utf8(first(data@, n)) ==> out@ == marked(
            decode_utf8(first(data@, n)),
        )),
{
    match num_bytes {
        Some(n) => head_bytes(data, n),
        None => head_lines(data, num_lines),
    }
}

} // verus!
