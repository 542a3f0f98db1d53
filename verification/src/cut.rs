//! Position lists: reading a selection such as `1,7,3-5` into the
//! ranges of positions that it names.

use vstd::prelude::*;
use vstd::slice::slice_subrange;
use core::ops::Range;
use vstd::string::StringExecFns;
use crate::decimal::{digits, is_number, parse_usize, push_decimal, value};
use crate::seqs::{
    bounds_within, lemma_split_concat, lemma_split_len, lemma_split_with_sep, lemma_split_without_sep, pieces,
    split,
};
use crate::text::{chars_of, first_index_of, split_bounds, string_of};

verus! {

/// Ranges of positions, counted from zero, each with its end left out,
/// in the order in which they were asked for.
pub type PositionList = Vec<Range<usize>>;

/// What to cut out of each line, and by which positions.
#[derive(Debug, Clone, PartialEq, Eq)]
pub enum Extract {
    /// Fields between delimiters.
    Fields(PositionList),
    /// Bytes.
    Bytes(PositionList),
    /// Characters.
    Chars(PositionList),
}

/// Why a selection was turned down.
#[derive(Debug, Clone, PartialEq, Eq)]
pub enum ParseError {
    /// The quoted text is an item that names no positions: it is
    /// neither a numeral nor two numerals around one hyphen, or one of
    /// its numerals spells zero or a number too large.
    InvalidToken(String),
    /// A range whose first number is not below its second; both as
    /// counted from one.
    InvalidRangeOrder(usize, usize),
    /// The selection, or one item of it, is empty.
    EmptySelection,
}

/// A `ParseError` as contracts see it.
pub enum ParseErrorView {
    InvalidToken(Seq<char>),
    InvalidRangeOrder(usize, usize),
    EmptySelection,
}

impl View for ParseError {
    type V = ParseErrorView;

    open spec fn view(&self) -> ParseErrorView {
        match self {
            ParseError::InvalidToken(t) => ParseErrorView::InvalidToken(t@),
            ParseError::InvalidRangeOrder(low, high) => ParseErrorView::InvalidRangeOrder(*low, *high),
            ParseError::EmptySelection => ParseErrorView::EmptySelection,
        }
    }
}

/// The position that the numeral `d` names, counted from one: its value,
/// unless `d` is no numeral, or spells zero or a number that does not
/// fit.
pub open spec fn position(d: Seq<char>) -> Option<usize> {
    if is_number(d) && 1 <= value(d) <= usize::MAX {
        Some(value(d) as usize)
    } else {
        None
    }
}

/// The range that one item of a selection stands for, or the reason why
/// it stands for none.
///
/// An item is a numeral `n`, for the single position `n`, or two
/// numerals around a hyphen, `low-high`, for the positions from `low`
/// to `high`, both included. Positions are counted from one in the
/// item and from zero in the range.
///
/// An empty item is an empty selection. An item of another form, or
/// with a numeral that names no position, is quoted whole in the
/// error. Two positions that do not ascend are named in the error.
pub open spec fn token_range(t: Seq<char>) -> Result<Range<usize>, ParseErrorView> {
    let parts = split(t, '-');
    if t.len() == 0 {
        Err(ParseErrorView::EmptySelection)
    } else if parts.len() == 1 {
        match position(t) {
            Some(n) => Ok(Range { start: (n - 1) as usize, end: n }),
            None => Err(ParseErrorView::InvalidToken(t)),
        }
    } else if parts.len() == 2 {
        match (position(parts[0]), position(parts[1])) {
            (Some(low), Some(high)) => if low < high {
                Ok(Range { start: (low - 1) as usize, end: high })
            } else {
                Err(ParseErrorView::InvalidRangeOrder(low, high))
            },
            _ => Err(ParseErrorView::InvalidToken(t)),
        }
    } else {
        Err(ParseErrorView::InvalidToken(t))
    }
}

/// The ranges that the items stand for, one for each and in their
/// order, or the reason why the first bad item stands for none.
pub open spec fn token_ranges(tokens: Seq<Seq<char>>) -> Result<Seq<Range<usize>>, ParseErrorView>
    decreases tokens.len(),
{
    if tokens.len() == 0 {
        Ok(Seq::empty())
    } else {
        match token_ranges(tokens.drop_last()) {
            Err(e) => Err(e),
            Ok(ranges) => match token_range(tokens.last()) {
                Err(e) => Err(e),
                Ok(r) => Ok(ranges.push(r)),
            },
        }
    }
}

/// The ranges that a selection stands for: those of its items, which
/// commas separate.
pub open spec fn selection_ranges(raw: Seq<char>) -> Result<Seq<Range<usize>>, ParseErrorView> {
    token_ranges(split(raw, ','))
}

/// The outcome of reading one item, as contracts see it.
pub open spec fn range_outcome(r: Result<Range<usize>, ParseError>) -> Result<Range<usize>, ParseErrorView> {
    match r {
        Ok(range) => Ok(range),
        Err(e) => Err(e@),
    }
}

/// The outcome of reading a selection, as contracts see it.
pub open spec fn list_outcome(r: Result<PositionList, ParseError>) -> Result<Seq<Range<usize>>, ParseErrorView> {
    match r {
        Ok(list) => Ok(list@),
        Err(e) => Err(e@),
    }
}

/// The strings of `ls` as sequences of characters.
pub open spec fn texts(ls: Seq<String>) -> Seq<Seq<char>> {
    Seq::new(ls.len(), |i: int| ls[i]@)
}

/// Reads the numeral `d` as a position counted from one.
fn read_position(d: &[char]) -> (r: Option<usize>)
    ensures
        r == position(d@),
{
    match parse_usize(d) {
        Some(n) => if n >= 1 {
            Some(n)
        } else {
            None
        },
        None => None,
    }
}

/// The error that quotes `t`.
fn invalid_token(t: &[char]) -> (e: ParseError)
    ensures
        e@ == ParseErrorView::InvalidToken(t@),
{
    ParseError::InvalidToken(string_of(t))
}

/// Reads one item of a selection, given as characters.
fn range_of_chars(t: &[char]) -> (r: Result<Range<usize>, ParseError>)
    ensures
        range_outcome(r) == token_range(t@),
{
    if t.len() == 0 {
        return Err(ParseError::EmptySelection);
    }
    match first_index_of(t, '-') {
        None => {
            proof {
                lemma_split_without_sep(t@, '-');
            }
            match read_position(t) {
                Some(n) => Ok(Range { start: n - 1, end: n }),
                None => Err(invalid_token(t)),
            }
        },
        Some(hyphen) => {
            let first = slice_subrange(t, 0, hyphen);
            let second = slice_subrange(t, hyphen + 1, t.len());
            proof {
                assert(first@ == t@.take(hyphen as int));
                assert(t@ == first@.push('-') + second@);
                lemma_split_concat(first@, second@, '-');
                lemma_split_without_sep(first@, '-');
                lemma_split_len(second@, '-');
            }
            if first_index_of(second, '-').is_some() {
                proof {
                    assert(second@.contains('-'));
                    lemma_split_with_sep(second@, '-');
                }
                return Err(invalid_token(t));
            }
            proof {
                lemma_split_without_sep(second@, '-');
                assert(split(t@, '-') == seq![first@, second@]);
            }
            match read_position(first) {
                None => Err(invalid_token(t)),
                Some(low) => match read_position(second) {
                    None => Err(invalid_token(t)),
                    Some(high) => if low < high {
                        Ok(Range { start: low - 1, end: high })
                    } else {
                        Err(ParseError::InvalidRangeOrder(low, high))
                    },
                },
            }
        },
    }
}

/// Reads one item of a selection: a position such as `7`, or a range
/// of positions such as `3-5`.
pub fn to_range(s: &str) -> (r: Result<Range<usize>, ParseError>)
    ensures
        range_outcome(r) == token_range(s@),
{
    let chars = chars_of(s);
    range_of_chars(chars.as_slice())
}

/// Reads the items of a selection, one string each, and stops at the
/// first that is bad.
pub fn to_position_list(ls: Vec<String>) -> (r: Result<PositionList, ParseError>)
    ensures
        list_outcome(r) == token_ranges(texts(ls@)),
{
    let mut list: PositionList = Vec::new();
    let mut i: usize = 0;
    while i < ls.len()
        invariant
            i <= ls.len(),
            token_ranges(texts(ls@).take(i as int)) == Ok::<Seq<Range<usize>>, ParseErrorView>(list@),
        decreases ls.len() - i,
    {
        proof {
            assert(texts(ls@).take(i + 1).drop_last() == texts(ls@).take(i as int));
            assert(texts(ls@).take(i + 1).last() == ls@[i as int]@);
        }
        match to_range(ls[i].as_str()) {
            Ok(range) => {
                list.push(range);
            },
            Err(e) => {
                proof {
                    lemma_first_error_stays(texts(ls@), i + 1);
                }
                return Err(e);
            },
        }
        i += 1;
    }
    proof {
        assert(texts(ls@).take(i as int) == texts(ls@));
    }
    Ok(list)
}

/// Reads a selection: items separated by commas, each a position
/// such as `7` or a range of positions such as `3-5`, counted from
/// one. The ranges come in the order of the items; the first bad item
/// decides the error.
pub fn parse_pos(range: &str) -> (r: Result<PositionList, ParseError>)
    ensures
        list_outcome(r) == selection_ranges(range@),
{
    let chars = chars_of(range);
    let bounds = split_bounds(chars.as_slice(), ',');
    let ghost tokens = split(range@, ',');
    let mut list: PositionList = Vec::new();
    let mut k: usize = 0;
    while k < bounds.len()
        invariant
            k <= bounds.len(),
            chars@ == range@,
            bounds_within(bounds@, chars@.len()),
            tokens == split(range@, ','),
            pieces(chars@, bounds@) == tokens,
            token_ranges(tokens.take(k as int)) == Ok::<Seq<Range<usize>>, ParseErrorView>(list@),
        decreases bounds.len() - k,
    {
        let token = slice_subrange(chars.as_slice(), bounds[k].start, bounds[k].end);
        proof {
            assert(token@ == pieces(chars@, bounds@)[k as int]);
            assert(tokens.take(k + 1).drop_last() == tokens.take(k as int));
            assert(tokens.take(k + 1).last() == token@);
        }
        match range_of_chars(token) {
            Ok(range) => {
                list.push(range);
            },
            Err(e) => {
                proof {
                    assert(token_ranges(tokens.take(k + 1)) == Err::<Seq<Range<usize>>, ParseErrorView>(e@));
                    lemma_first_error_stays(tokens, k + 1);
                }
                return Err(e);
            },
        }
        k += 1;
    }
    proof {
        assert(tokens.take(k as int) == tokens);
    }
    Ok(list)
}

/// What `e` says to the user.
pub open spec fn message(e: ParseErrorView) -> Seq<char> {
    match e {
        ParseErrorView::InvalidToken(t) => "illegal list value: \""@ + t + "\""@,
        ParseErrorView::InvalidRangeOrder(low, high) => "First number in range ("@ + digits(low as nat)
            + ") must be lower than second number ("@ + digits(high as nat) + ")"@,
        ParseErrorView::EmptySelection => "illegal list value: \"\""@,
    }
}

/// The shortest numeral for `n`.
fn numeral(n: usize) -> (s: String)
    ensures
        s@ == digits(n as nat),
{
    let mut d: Vec<char> = Vec::new();
    push_decimal(n as u128, &mut d);
    string_of(d.as_slice())
}

impl ParseError {
    /// The message for the user.
    pub fn to_string(&self) -> (s: String)
        ensures
            s@ == message(self@),
    {
        match self {
            ParseError::InvalidToken(t) => {
                let mut s = String::from_str("illegal list value: \"");
                s.append(t.as_str());
                s.append("\"");
                s
            },
            ParseError::InvalidRangeOrder(low, high) => {
                let mut s = String::from_str("First number in range (");
                s.append(numeral(*low).as_str());
                s.append(") must be lower than second number (");
                s.append(numeral(*high).as_str());
                s.append(")");
                s
            },
            ParseError::EmptySelection => String::from_str("illegal list value: \"\""),
        }
    }
}

/// Pairs a position list with the kind of extraction that the letter
/// `s` names: `f` for fields, `c` for characters, `b` for bytes.
pub fn to_extract_type(s: &str, list: PositionList) -> (e: Extract)
    requires
        s@ == "f"@ || s@ == "c"@ || s@ == "b"@,
    ensures
        s@ == "f"@ ==> e == Extract::Fields(list),
        s@ == "c"@ ==> e == Extract::Chars(list),
        s@ == "b"@ ==> e == Extract::Bytes(list),
{
    proof {
        reveal_strlit("f");
        reveal_strlit("c");
        reveal_strlit("b");
    }
    let letter = s.get_char(0);
    if letter == 'f' {
        Extract::Fields(list)
    } else if letter == 'c' {
        Extract::Chars(list)
    } else {
        Extract::Bytes(list)
    }
}

/// Once the items up to some point have failed, the whole list fails
/// in the same way.
pub proof fn lemma_first_error_stays(tokens: Seq<Seq<char>>, k: int)
    requires
        0 <= k <= tokens.len(),
        token_ranges(tokens.take(k)) is Err,
    ensures
        token_ranges(tokens) == token_ranges(tokens.take(k)),
    decreases tokens.len() - k,
{
    if k < tokens.len() {
        assert(tokens.take(k + 1).drop_last() == tokens.take(k));
        lemma_first_error_stays(tokens, k + 1);
    } else {
        assert(tokens.take(k) == tokens);
    }
}

} // verus!
