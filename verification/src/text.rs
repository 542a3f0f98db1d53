//! Conversions between strings and sequences of characters.

use vstd::prelude::*;
use vstd::std_specs::iter::IteratorSpec;
use vstd::utf8::{decode_utf8, valid_utf8};
use core::ops::Range;
use crate::seqs::{bounds_in_a_row, bounds_within, lemma_split_grow, pieces, split};

verus! {

/// `String::push` appends one character to the end of the string.
pub assume_specification[ String::push ](s: &mut String, ch: char)
    ensures
        final(s)@ == old(s)@.push(ch),
;

/// The text that `String::from_utf8_lossy` reads out of `bytes`.
pub uninterp spec fn utf8_lossy(bytes: Seq<u8>) -> Seq<char>;

/// Decodes `bytes` as UTF-8 with `String::from_utf8_lossy`, which puts
/// U+FFFD where the bytes are no valid UTF-8. Valid UTF-8 is decoded
/// as it stands.
#[verifier::external_body]
pub(crate) fn decode_lossy(bytes: &[u8]) -> (s: String)
    ensures
        s@ == utf8_lossy(bytes@),
        valid_utf8(bytes@) ==> s@ == decode_utf8(bytes@),
{
    String::from_utf8_lossy(bytes).into_owned()
}

/// Reads `bytes` as UTF-8 with `core::str::from_utf8`: the text they
/// encode, or `None` where they are no valid UTF-8.
#[verifier::external_body]
pub(crate) fn decode_strict(bytes: &[u8]) -> (r: Option<String>)
    ensures
        r is Some <==> valid_utf8(bytes@),
        r matches Some(s) ==> s@ == decode_utf8(bytes@),
{
    match core::str::from_utf8(bytes) {
        Ok(s) => Some(String::from(s)),
        Err(_) => None,
    }
}

/// The characters of `s`, in order.
pub fn chars_of(s: &str) -> (v: Vec<char>)
    ensures
        v@ == s@,
{
    let mut v: Vec<char> = Vec::new();
    let chars = s.chars();
    for c in it: chars
        invariant
            it.seq() == s@,
            v@ == s@.take(it.index() as int),
    {
        v.push(c);
    }
    v
}

/// The string made of the characters of `v`, in order.
pub fn string_of(v: &[char]) -> (s: String)
    ensures
        s@ == v@,
{
    let mut s = String::new();
    let mut i: usize = 0;
    while i < v.len()
        invariant
            i <= v.len(),
            s@ == v@.take(i as int),
        decreases v.len() - i,
    {
        s.push(v[i]);
        i += 1;
    }
    s
}

/// What text is made of here: bytes, or characters. Two of a kind can
/// be told apart.
pub trait Symbol: Copy {
    /// Tells whether `self` and `other` are the same.
    fn same(self, other: Self) -> (b: bool)
        ensures
            b == (self == other),
    ;
}

impl Symbol for u8 {
    fn same(self, other: u8) -> (b: bool) {
        self == other
    }
}

impl Symbol for char {
    fn same(self, other: char) -> (b: bool) {
        self == other
    }
}

/// Where `c` first stands in `s`, if it does.
pub fn first_index_of<T: Symbol>(s: &[T], c: T) -> (r: Option<usize>)
    ensures
        match r {
            Some(i) => i < s@.len() && s@[i as int] == c && !s@.take(i as int).contains(c),
            None => !s@.contains(c),
        },
{
    let mut i: usize = 0;
    while i < s.len()
        invariant
            i <= s.len(),
            forall|j: int| 0 <= j < i ==> s@[j] != c,
        decreases s.len() - i,
    {
        if s[i].same(c) {
            return Some(i);
        }
        i += 1;
    }
    None
}

/// Marks the pieces of `s` between the occurrences of `sep`: each
/// from its first item up to but without the separator that ends it,
/// or up to the end of `s`.
pub fn split_bounds<T: Symbol>(s: &[T], sep: T) -> (bounds: Vec<Range<usize>>)
    ensures
        bounds_within(bounds@, s@.len()),
        bounds_in_a_row(bounds@, s@.len()),
        pieces(s@, bounds@) == split(s@, sep),
{
    let mut bounds: Vec<Range<usize>> = Vec::new();
    let mut start: usize = 0;
    let mut i: usize = 0;
    proof {
        assert(s@.take(0).len() == 0);
        assert(s@.subrange(0, 0) == Seq::<T>::empty());
        assert(pieces(s@, bounds@).push(s@.subrange(0, 0)) == seq![Seq::<T>::empty()]);
    }
    while i < s.len()
        invariant
            start <= i <= s.len(),
            bounds_within(bounds@, s@.len()),
            bounds@.len() == 0 ==> start == 0,
            bounds@.len() > 0 ==> bounds@[0].start == 0 && start == bounds@.last().end + 1,
            forall|k: int| 0 < k < bounds@.len() ==> (#[trigger] bounds@[k]).start == bounds@[k - 1].end + 1,
            split(s@.take(i as int), sep) == pieces(s@, bounds@).push(s@.subrange(start as int, i as int)),
        decreases s.len() - i,
    {
        proof {
            lemma_split_grow(s@, sep, pieces(s@, bounds@), start as int, i as int);
        }
        if s[i].same(sep) {
            let ghost before = bounds@;
            bounds.push(Range { start: start, end: i });
            start = i + 1;
            assert(pieces(s@, bounds@) == pieces(s@, before).push(s@.subrange(bounds@.last().start as int, i as int)));
        }
        i += 1;
    }
    let ghost before = bounds@;
    bounds.push(Range { start: start, end: i });
    proof {
        assert(s@.take(i as int) == s@);
        assert(pieces(s@, bounds@) == pieces(s@, before).push(s@.subrange(start as int, i as int)));
    }
    bounds
}

} // verus!
