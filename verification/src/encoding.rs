//! How cutting the UTF-8 bytes of a text relates to cutting the text.

use vstd::prelude::*;
use vstd::utf8::{
    char_is_scalar, encode_scalar, encode_utf8, has_width_1_encoding, has_width_2_encoding, has_width_3_encoding,
    is_ascii_chars, is_ascii_chars_encode_utf8,
};
use core::ops::Range;
use crate::seqs::{join, lemma_split_len, lemma_split_lengthen, pick, select, split};

verus! {

/// The UTF-8 bytes of each of `parts`.
pub open spec fn encode_each(parts: Seq<Seq<char>>) -> Seq<Seq<u8>> {
    Seq::new(parts.len(), |k: int| encode_utf8(parts[k]))
}

/// The bytes of two texts in a row are the bytes of the first and
/// then those of the second.
pub proof fn lemma_encode_concat(a: Seq<char>, b: Seq<char>)
    ensures
        encode_utf8(a + b) == encode_utf8(a) + encode_utf8(b),
    decreases a.len(),
{
    if a.len() == 0 {
        assert(a + b == b);
    } else {
        assert((a + b).drop_first() == a.drop_first() + b);
        lemma_encode_concat(a.drop_first(), b);
    }
}

/// The bytes of a text of one character are the bytes of that
/// character.
pub proof fn lemma_encode_one(c: char)
    ensures
        encode_utf8(seq![c]) == encode_scalar(c as u32),
{
    let one = seq![c];
    assert(one.drop_first().len() == 0);
    assert(encode_utf8(one.drop_first()) == Seq::<u8>::empty());
}

/// An ASCII character is encoded as the one byte of its code. No
/// byte of the encoding of any other character is the code of an
/// ASCII character.
pub proof fn lemma_ascii_byte(c: char, b: u8)
    requires
        b < 128,
    ensures
        c == b as char ==> encode_scalar(c as u32) == seq![b],
        c != b as char ==> !encode_scalar(c as u32).contains(b),
{
    let s = c as u32;
    char_is_scalar(c);
    let bytes = encode_scalar(s);
    if has_width_1_encoding(s) {
        assert((s & 0x7F) as u8 == s as u8) by (bit_vector)
            requires
                s <= 0x7F,
        ;
        if c != b as char {
            assert(bytes[0] != b);
        }
    } else {
        assert(0xC0u8 | ((s >> 6) & 0x1F) as u8 >= 128) by (bit_vector);
        assert(0xE0u8 | ((s >> 12) & 0x0F) as u8 >= 128) by (bit_vector);
        assert(0xF0u8 | ((s >> 18) & 0x7) as u8 >= 128) by (bit_vector);
        assert(0x80u8 | (s & 0x3F) as u8 >= 128) by (bit_vector);
        assert(0x80u8 | ((s >> 6) & 0x3F) as u8 >= 128) by (bit_vector);
        assert(0x80u8 | ((s >> 12) & 0x3F) as u8 >= 128) by (bit_vector);
        assert forall|i: int| 0 <= i < bytes.len() implies bytes[i] >= 128 by {
            if has_width_2_encoding(s) {
            } else if has_width_3_encoding(s) {
            } else {
            }
        }
    }
}

/// Splitting the bytes of a text at the byte of an ASCII character
/// gives the bytes of the pieces that splitting the text at that
/// character gives.
pub proof fn lemma_split_encode(s: Seq<char>, b: u8)
    requires
        b < 128,
    ensures
        split(encode_utf8(s), b) == encode_each(split(s, b as char)),
    decreases s.len(),
{
    let sep = b as char;
    if s.len() == 0 {
        assert(encode_each(seq![Seq::<char>::empty()]) == seq![Seq::<u8>::empty()]);
    } else {
        let rest = s.drop_last();
        let last = s.last();
        lemma_split_encode(rest, b);
        lemma_split_len(rest, sep);
        assert(s == rest + seq![last]);
        lemma_encode_concat(rest, seq![last]);
        lemma_encode_one(last);
        lemma_ascii_byte(last, b);
        let parts = split(rest, sep);
        if last == sep {
            assert(encode_utf8(s) == encode_utf8(rest).push(b));
            assert(encode_utf8(s).drop_last() == encode_utf8(rest));
            assert(encode_each(parts.push(Seq::empty())) == encode_each(parts).push(Seq::<u8>::empty()));
        } else {
            lemma_split_lengthen(encode_utf8(rest), encode_scalar(last as u32), b);
            let grown = parts.last().push(last);
            assert(grown == parts.last() + seq![last]);
            lemma_encode_concat(parts.last(), seq![last]);
            assert(encode_each(parts.drop_last().push(grown)) == encode_each(parts).drop_last().push(
                encode_utf8(grown),
            ));
        }
    }
}

/// Encoding piece by piece goes through putting lists of pieces in a
/// row.
pub proof fn lemma_encode_each_concat(a: Seq<Seq<char>>, b: Seq<Seq<char>>)
    ensures
        encode_each(a + b) == encode_each(a) + encode_each(b),
{
}

/// Selecting among the encoded pieces gives the encodings of the
/// pieces selected.
pub proof fn lemma_select_encode(parts: Seq<Seq<char>>, ranges: Seq<Range<usize>>)
    ensures
        select(encode_each(parts), ranges) == encode_each(select(parts, ranges)),
    decreases ranges.len(),
{
    if ranges.len() == 0 {
        assert(encode_each(Seq::<Seq<char>>::empty()) == Seq::<Seq<u8>>::empty());
    } else {
        lemma_select_encode(parts, ranges.drop_last());
        assert(pick(encode_each(parts), ranges.last()) == encode_each(pick(parts, ranges.last())));
        lemma_encode_each_concat(select(parts, ranges.drop_last()), pick(parts, ranges.last()));
    }
}

/// Joining the encoded pieces by the byte of an ASCII character gives
/// the bytes of the pieces joined by that character.
pub proof fn lemma_join_encode(parts: Seq<Seq<char>>, b: u8)
    requires
        b < 128,
    ensures
        join(encode_each(parts), b) == encode_utf8(join(parts, b as char)),
    decreases parts.len(),
{
    let sep = b as char;
    if parts.len() == 0 {
    } else if parts.len() == 1 {
    } else {
        let front = parts.drop_last();
        lemma_join_encode(front, b);
        assert(encode_each(parts).drop_last() == encode_each(front));
        lemma_ascii_byte(sep, b);
        lemma_encode_one(sep);
        assert(join(front, sep).push(sep) == join(front, sep) + seq![sep]);
        lemma_encode_concat(join(front, sep), seq![sep]);
        lemma_encode_concat(join(front, sep).push(sep), parts.last());
    }
}

/// What is selected from the bytes of an ASCII text is the bytes of
/// what is selected from the text.
pub proof fn lemma_select_ascii(line: Seq<char>, ranges: Seq<Range<usize>>)
    requires
        is_ascii_chars(line),
    ensures
        select(encode_utf8(line), ranges) == encode_utf8(select(line, ranges)),
    decreases ranges.len(),
{
    if ranges.len() > 0 {
        lemma_select_ascii(line, ranges.drop_last());
        let r = ranges.last();
        let piece = pick(line, r);
        is_ascii_chars_encode_utf8(line);
        assert(is_ascii_chars(piece));
        is_ascii_chars_encode_utf8(piece);
        assert(pick(encode_utf8(line), r) == encode_utf8(piece));
        lemma_encode_concat(select(line, ranges.drop_last()), piece);
    }
}

} // verus!
