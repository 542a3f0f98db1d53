//! Counting the lines, words, bytes and characters of a text.

use vstd::prelude::*;
use vstd::string::StrSliceExecFns;
use vstd::string::StringExecFns;
use vstd::string::StringSliceAdditionalSpecFns;
use vstd::utf8::{decode_utf8, encode_utf8, valid_utf8};
use crate::decimal::{push_right_aligned, right_aligned};
use crate::lines::{line_bounds, text_lines};
use crate::text::{chars_of, decode_lossy, string_of, utf8_lossy};

verus! {

/// What the user asked for.
#[derive(Debug)]
pub struct Config {
    /// The files to count in; none for the standard input.
    pub files: Option<Vec<String>>,
    /// Whether lines are counted.
    pub lines: bool,
    /// Whether words are counted.
    pub words: bool,
    /// Whether bytes are counted.
    pub bytes: bool,
    /// Whether characters are counted.
    pub chars: bool,
}

/// Counts in a text what it was asked to count.
pub struct WcReader {
    /// Whether lines are counted.
    pub lines: bool,
    /// Whether words are counted.
    pub words: bool,
    /// Whether bytes are counted.
    pub bytes: bool,
    /// Whether characters are counted.
    pub chars: bool,
}

/// The counts of one text: lines, words, and bytes or characters, as
/// far as each was asked for, in this order.
#[derive(Clone, Debug)]
pub struct WcResult(pub Vec<u128>);

/// Whether `char::is_whitespace` holds of `c`: whether `c` has the
/// Unicode property White_Space.
pub uninterp spec fn is_whitespace(c: char) -> bool;

/// The ASCII characters with the Unicode property White_Space: the
/// space, and the controls from the tab to the carriage return.
pub open spec fn is_ascii_space(c: char) -> bool {
    c == ' ' || '\u{9}' <= c <= '\u{d}'
}

/// `char::is_whitespace` tells whether a character has the Unicode
/// property White_Space. Among the ASCII characters these are the
/// space and the controls from U+0009 to U+000D.
pub assume_specification[ char::is_whitespace ](c: char) -> (b: bool)
    ensures
        b == is_whitespace(c),
        c <= '\u{7f}' ==> b == is_ascii_space(c),
;

/// Whether `c` is whitespace: whether it has the Unicode property
/// White_Space.
pub open spec fn is_space(c: char) -> bool {
    if c <= '\u{7f}' {
        is_ascii_space(c)
    } else {
        is_whitespace(c)
    }
}

/// How many words `text` has: how many of its characters are no
/// whitespace and stand first or right after whitespace.
pub open spec fn word_count(text: Seq<char>) -> nat
    decreases text.len(),
{
    if text.len() == 0 {
        0
    } else {
        let starts_word = !is_space(text.last()) && (text.len() == 1 || is_space(text[text.len() - 2]));
        word_count(text.drop_last()) + if starts_word {
            1nat
        } else {
            0nat
        }
    }
}

/// The sums of the counts at the same place in `a` and in `b`, for as
/// many places as both have.
pub open spec fn sums(a: Seq<u128>, b: Seq<u128>) -> Seq<int> {
    Seq::new(
        if a.len() <= b.len() {
            a.len()
        } else {
            b.len()
        },
        |i: int| a[i] + b[i],
    )
}

/// The counts written one after another, each in a column of eight.
pub open spec fn columns(counts: Seq<u128>) -> Seq<char>
    decreases counts.len(),
{
    if counts.len() == 0 {
        Seq::empty()
    } else {
        columns(counts.drop_last()) + right_aligned(counts.last() as nat, 8)
    }
}

impl Config {
    /// The request for the given files and flags. With no flag set,
    /// lines, words and bytes are counted.
    pub fn new(files: Option<Vec<String>>, lines: bool, words: bool, bytes: bool, chars: bool) -> (c: Config)
        ensures
            c.files == files,
            c.chars == chars,
            if !lines && !words && !bytes && !chars {
                c.lines && c.words && c.bytes
            } else {
                c.lines == lines && c.words == words && c.bytes == bytes
            },
    {
        if !lines && !words && !bytes && !chars {
            Config { files, lines: true, words: true, bytes: true, chars }
        } else {
            Config { files, lines, words, bytes, chars }
        }
    }

    /// The reader that counts what `self` asks for.
    pub fn get_reader(&self) -> (reader: WcReader)
        ensures
            reader.lines == self.lines,
            reader.words == self.words,
            reader.bytes == self.bytes,
            reader.chars == self.chars,
    {
        WcReader::new(self)
    }
}

impl WcResult {
    /// The counts written one after another, each in a column of
    /// eight.
    pub fn format(&self) -> (out: String)
        ensures
            out@ == columns(self.0@),
    {
        let mut out: Vec<char> = Vec::new();
        let mut i: usize = 0;
        while i < self.0.len()
            invariant
                i <= self.0.len(),
                out@ == columns(self.0@.take(i as int)),
            decreases self.0.len() - i,
        {
            proof {
                assert(self.0@.take(i + 1).drop_last() == self.0@.take(i as int));
            }
            push_right_aligned(self.0[i], 8, &mut out);
            i += 1;
        }
        proof {
            assert(self.0@.take(i as int) == self.0@);
        }
        string_of(out.as_slice())
    }

    /// The result that holds the counts `v`.
    pub fn new(v: Vec<u128>) -> (r: WcResult)
        ensures
            r.0 == v,
    {
        WcResult(v)
    }

    /// Adds the counts of `other` to those of `self`, place by place,
    /// for as many places as both have.
    pub fn add(self, other: WcResult) -> (r: WcResult)
        requires
            forall|i: int| 0 <= i < sums(self.0@, other.0@).len() ==> #[trigger] sums(self.0@, other.0@)[i] <= u128::MAX,
        ensures
            r.0@.len() == sums(self.0@, other.0@).len(),
            forall|i: int| 0 <= i < r.0@.len() ==> #[trigger] r.0@[i] == sums(self.0@, other.0@)[i],
    {
        let mut v: Vec<u128> = Vec::new();
        let mut i: usize = 0;
        while i < self.0.len() && i < other.0.len()
            invariant
                i <= self.0.len(),
                i <= other.0.len(),
                v@.len() == i,
                forall|j: int| 0 <= j < sums(self.0@, other.0@).len() ==> #[trigger] sums(self.0@, other.0@)[j] <= u128::MAX,
                forall|j: int| 0 <= j < i ==> #[trigger] v@[j] == sums(self.0@, other.0@)[j],
            decreases self.0.len() - i,
        {
            proof {
                assert(sums(self.0@, other.0@)[i as int] <= u128::MAX);
            }
            v.push(self.0[i] + other.0[i]);
            i += 1;
        }
        WcResult::new(v)
    }
}

impl WcReader {
    /// The counts of `text` that `self` asks for: lines, then words,
    /// then bytes or, where no bytes are asked for, characters.
    pub open spec fn counts(&self, text: Seq<char>) -> Seq<u128> {
        let lines = if self.lines {
            seq![text_lines(text).len() as u128]
        } else {
            Seq::empty()
        };
        let words = if self.words {
            seq![word_count(text) as u128]
        } else {
            Seq::empty()
        };
        let size = if self.bytes {
            seq![encode_utf8(text).len() as u128]
        } else if self.chars {
            seq![text.len() as u128]
        } else {
            Seq::empty()
        };
        lines + words + size
    }

    /// Counts in the bytes of a file: the bytes are read as UTF-8,
    /// with U+FFFD for what is none, and the counts are those of the
    /// text read.
    pub fn wc(&self, data: &[u8]) -> (r: WcResult)
        ensures
            r.0@ == self.counts(utf8_lossy(data@)),
            valid_utf8(data@) ==> r.0@ == self.counts(decode_utf8(data@)),
    {
        let text = decode_lossy(data);
        self.tally(text.as_str())
    }

    /// Counts in `text` what `self` asks for.
    pub fn tally(&self, text: &str) -> (r: WcResult)
        ensures
            r.0@ == self.counts(text@),
    {
        let mut buf: Vec<u128> = Vec::new();
        if self.lines {
            buf.push(count_lines(text));
        }
        if self.words {
            buf.push(count_words(text));
        }
        if self.bytes {
            buf.push(count_bytes(text));
        } else if self.chars {
            buf.push(count_chars(text));
        }
        WcResult::new(buf)
    }

    /// The reader that counts what `c` asks for.
    pub fn new(c: &Config) -> (reader: WcReader)
        ensures
            reader.lines == c.lines,
            reader.words == c.words,
            reader.bytes == c.bytes,
            reader.chars == c.chars,
    {
        WcReader { lines: c.lines, words: c.words, bytes: c.bytes, chars: c.chars }
    }
}

/// How many bytes `source` takes in UTF-8.
pub fn count_bytes(source: &str) -> (n: u128)
    ensures
        n == encode_utf8(source@).len(),
{
    source.as_bytes().len() as u128
}

/// How many lines `source` has.
pub fn count_lines(source: &str) -> (n: u128)
    ensures
        n == text_lines(source@).len(),
{
    let chars = chars_of(source);
    let bounds = line_bounds(chars.as_slice(), '\n', '\r');
    bounds.len() as u128
}

/// How many characters `source` has.
pub fn count_chars(source: &str) -> (n: u128)
    ensures
        n == source@.len(),
{
    source.unicode_len() as u128
}

/// How many words `source` has, where whitespace separates words.
pub fn count_words(source: &str) -> (n: u128)
    ensures
        n == word_count(source@),
{
    let chars = chars_of(source);
    let mut n: usize = 0;
    let mut after_space = true;
    let mut i: usize = 0;
    while i < chars.len()
        invariant
            i <= chars.len(),
            chars@ == source@,
            n == word_count(chars@.take(i as int)),
            n <= i,
            after_space == (i == 0 || is_space(chars@[i - 1])),
        decreases chars.len() - i,
    {
        proof {
            assert(chars@.take(i + 1).drop_last() == chars@.take(i as int));
        }
        let space = chars[i].is_whitespace();
        if !space && after_space {
            n += 1;
        }
        after_space = space;
        i += 1;
    }
    proof {
        assert(chars@.take(i as int) == chars@);
    }
    n as u128
}

/// Words do not reach across whitespace: the words of two texts with
/// a whitespace character between them are those of the first and
/// those of the second.
pub proof fn law_words_across_space(before: Seq<char>, space: char, after: Seq<char>)
    requires
        is_space(space),
    ensures
        word_count(before.push(space) + after) == word_count(before) + word_count(after),
    decreases after.len(),
{
    let whole = before.push(space) + after;
    if after.len() == 0 {
        assert(whole == before.push(space));
        assert(whole.drop_last() == before);
    } else {
        assert(whole.drop_last() == before.push(space) + after.drop_last());
        assert(whole.last() == after.last());
        law_words_across_space(before, space, after.drop_last());
        if after.len() == 1 {
            assert(whole[whole.len() - 2] == space);
        } else {
            assert(whole[whole.len() - 2] == after[after.len() - 2]);
        }
    }
}

/// A text without whitespace is one word, unless it is empty.
pub proof fn law_one_word(text: Seq<char>)
    requires
        forall|i: int| 0 <= i < text.len() ==> !is_space(#[trigger] text[i]),
    ensures
        word_count(text) == if text.len() == 0 {
            0nat
        } else {
            1nat
        },
    decreases text.len(),
{
    if text.len() > 0 {
        let rest = text.drop_last();
        assert forall|i: int| 0 <= i < rest.len() implies !is_space(#[trigger] rest[i]) by {
            assert(rest[i] == text[i]);
        }
        law_one_word(rest);
    }
}

} // verus!
