//! Texts and their bytes.
//!
//! A text is a sequence of characters, its bytes are the UTF-8 encoding of
//! these. The library looks through the bytes and cuts the text at byte
//! offsets, and states what it finds in characters. This holds together
//! because the marks it looks for, the newline and the space, are ASCII
//! characters: each is one byte, and that byte occurs in no other
//! character.

use crate::scan::{first_at, first_where, lemma_first_where, lemma_first_where_is, same_as};
use vstd::prelude::*;
use vstd::string::*;
use vstd::utf8::*;

verus! {

/// The UTF-8 bytes of a text.
pub open spec fn bytes_of(text: Seq<char>) -> Seq<u8> {
    encode_utf8(text)
}

/// The byte offset at which the character with the number `index` starts:
/// the number of bytes of the characters before it.
pub open spec fn offset(text: Seq<char>, index: int) -> int {
    bytes_of(text.subrange(0, index)).len() as int
}

/// The bytes of two texts in a row are the bytes of the one followed by the
/// bytes of the other.
pub proof fn lemma_bytes_of_concat(first: Seq<char>, second: Seq<char>)
    ensures
        bytes_of(first + second) == bytes_of(first) + bytes_of(second),
    decreases first.len(),
{
    if first.len() == 0 {
        assert(first + second =~= second);
        assert(bytes_of(first) + bytes_of(second) =~= bytes_of(second));
    } else {
        lemma_bytes_of_concat(first.drop_first(), second);
        assert((first + second).drop_first() =~= first.drop_first() + second);
        assert(bytes_of(first + second) =~= bytes_of(first) + bytes_of(second));
    }
}

/// A text is given by its bytes: two texts with the same bytes are the same
/// text.
pub proof fn lemma_bytes_give_the_text(first: Seq<char>, second: Seq<char>)
    requires
        bytes_of(first) == bytes_of(second),
    ensures
        first == second,
{
    encode_utf8_decode_utf8(first);
    encode_utf8_decode_utf8(second);
}

/// The bytes of one character: an ASCII character is the one byte with its
/// number, and every byte of another character is above all ASCII bytes.
pub proof fn lemma_bytes_of_char(c: char)
    ensures
        bytes_of(seq![c]).len() >= 1,
        (c as u32) < 0x80 ==> bytes_of(seq![c]) == seq![c as u8],
        (c as u32) >= 0x80 ==> forall|k: int|
            0 <= k < bytes_of(seq![c]).len() ==> #[trigger] bytes_of(seq![c])[k] >= 0x80,
{
    let text = seq![c];
    let bytes = bytes_of(text);
    encode_utf8_first_scalar(text);
    assert(text.drop_first() =~= Seq::empty());
    assert(bytes_of(text.drop_first()) =~= Seq::empty());
    assert(bytes =~= encode_scalar(c as u32));
    let first = bytes[0];
    if is_leading_byte_width_1(first) {
        assert(codepoint_width_1(first) == first as u32) by (bit_vector)
            requires
                first <= 0x7f,
        ;
        assert(bytes =~= seq![c as u8]);
    } else {
        assert(c as u32 >= 0x80) by {
            if (c as u32) < 0x80 {
                let scalar = c as u32;
                assert(has_width_1_encoding(scalar));
                let only = leading_byte_width_1(scalar);
                assert(only <= 0x7f) by (bit_vector)
                    requires
                        only == (scalar & 0x7F) as u8,
                ;
            }
        }
    }
}

/// Where the characters start in the bytes: the first at offset 0, each no
/// earlier than the one before it, and the end of the text at the end of the
/// bytes. The bytes between two such offsets are the bytes of the
/// characters between them.
pub proof fn lemma_offsets(text: Seq<char>, from: int, to: int)
    requires
        0 <= from <= to <= text.len(),
    ensures
        offset(text, 0) == 0,
        offset(text, text.len() as int) == bytes_of(text).len(),
        0 <= offset(text, from) <= offset(text, to) <= bytes_of(text).len(),
        bytes_of(text).subrange(offset(text, from), offset(text, to)) == bytes_of(
            text.subrange(from, to),
        ),
{
    let head = text.subrange(0, from);
    let middle = text.subrange(from, to);
    let tail = text.subrange(to, text.len() as int);
    assert(text.subrange(0, 0) =~= Seq::empty());
    assert(text.subrange(0, text.len() as int) =~= text);
    assert(head + middle =~= text.subrange(0, to));
    assert(text.subrange(0, to) + tail =~= text);
    lemma_bytes_of_concat(head, middle);
    lemma_bytes_of_concat(text.subrange(0, to), tail);
    assert(bytes_of(text).subrange(offset(text, from), offset(text, to)) =~= bytes_of(middle));
}

/// The character behind a given one starts as many bytes later as the given
/// one has. An ASCII character is the byte at its offset; the bytes of
/// another character are all above the ASCII bytes.
pub proof fn lemma_offset_of_next(text: Seq<char>, index: int)
    requires
        0 <= index < text.len(),
    ensures
        offset(text, index) < offset(text, index + 1) <= bytes_of(text).len(),
        (text[index] as u32) < 0x80 ==> {
            &&& offset(text, index + 1) == offset(text, index) + 1
            &&& bytes_of(text)[offset(text, index)] == text[index] as u8
        },
        (text[index] as u32) >= 0x80 ==> forall|k: int|
            offset(text, index) <= k < offset(text, index + 1) ==> #[trigger] bytes_of(text)[k]
                >= 0x80,
{
    let from = offset(text, index);
    let to = offset(text, index + 1);
    let bytes = bytes_of(text);
    lemma_offsets(text, index, index + 1);
    lemma_bytes_of_char(text[index]);
    assert(text.subrange(index, index + 1) =~= seq![text[index]]);
    let one = bytes_of(seq![text[index]]);
    assert(bytes.subrange(from, to) == one);
    assert(to - from == one.len());
    if (text[index] as u32) < 0x80 {
        assert(bytes.subrange(from, to)[0] == bytes[from]);
    } else {
        assert forall|k: int| from <= k < to implies #[trigger] bytes[k] >= 0x80 by {
            assert(bytes.subrange(from, to)[k - from] == bytes[k]);
            assert(one[k - from] >= 0x80);
        }
    }
}

/// A kind of characters and a kind of bytes are the same kind: an ASCII
/// character is of the one exactly where its byte is of the other, and nothing
/// beyond ASCII is of either.
pub open spec fn same_kind(in_text: spec_fn(char) -> bool, in_bytes: spec_fn(u8) -> bool) -> bool {
    &&& forall|c: char| (c as u32) < 0x80 ==> #[trigger] in_text(c) == in_bytes(c as u8)
    &&& forall|c: char| (c as u32) >= 0x80 ==> !#[trigger] in_text(c)
    &&& forall|b: u8| b >= 0x80 ==> !#[trigger] in_bytes(b)
}

/// Looking through the bytes of a text for a byte of a kind of ASCII bytes, or
/// for the first byte that is not of that kind, finds the offset of the
/// character that looking through the text for the same kind of characters
/// finds.
pub proof fn lemma_first_where_in_bytes(
    text: Seq<char>,
    from: int,
    in_text: spec_fn(char) -> bool,
    in_bytes: spec_fn(u8) -> bool,
    hit: bool,
)
    requires
        0 <= from <= text.len(),
        same_kind(in_text, in_bytes),
    ensures
        first_where(bytes_of(text), offset(text, from), in_bytes, hit) == offset(
            text,
            first_where(text, from, in_text, hit),
        ),
    decreases text.len() - from,
{
    let bytes = bytes_of(text);
    lemma_offsets(text, from, from);
    if from < text.len() {
        lemma_offset_of_next(text, from);
        let here = offset(text, from);
        let next = offset(text, from + 1);
        let c = text[from];
        assert forall|k: int| here <= k < next implies in_bytes(#[trigger] bytes[k]) == in_text(
            c,
        ) by {
            if (c as u32) < 0x80 {
                assert(bytes[k] == c as u8);
            } else {
                assert(bytes[k] >= 0x80);
            }
        }
        if in_text(c) != hit {
            lemma_first_where_in_bytes(text, from + 1, in_text, in_bytes, hit);
            let found = first_where(bytes, next, in_bytes, hit);
            lemma_first_where(bytes, next, in_bytes, hit);
            lemma_first_where_is(bytes, here, found, in_bytes, hit);
        }
    }
}

/// Looking through the bytes of a text for an ASCII byte, or for the first
/// byte that differs from it, finds the offset of the character that looking
/// through the text for the ASCII character finds.
pub proof fn lemma_first_at_in_bytes(text: Seq<char>, from: int, mark: char, hit: bool)
    requires
        0 <= from <= text.len(),
        (mark as u32) < 0x80,
    ensures
        first_at(bytes_of(text), offset(text, from), mark as u8, hit) == offset(
            text,
            first_at(text, from, mark, hit),
        ),
{
    let in_text = same_as(mark);
    let in_bytes = same_as(mark as u8);
    assert forall|c: char| (c as u32) < 0x80 implies #[trigger] in_text(c) == in_bytes(
        c as u8,
    ) by {
        char_u32_cast(c, c as u32);
        char_u32_cast(mark, mark as u32);
        assert((c as u8) as u32 == c as u32);
        assert((mark as u8) as u32 == mark as u32);
    }
    lemma_first_where_in_bytes(text, from, in_text, in_bytes, hit);
}

/// Where a character starts at `index`, the next character boundary lies past
/// the encoding of that character.
proof fn lemma_boundary_step(bytes: Seq<u8>, index: int)
    requires
        valid_utf8(bytes),
        is_char_boundary(bytes, index),
        0 <= index < bytes.len(),
    ensures
        valid_first_scalar(bytes.subrange(index, bytes.len() as int)),
        is_char_boundary(
            bytes,
            index + length_of_first_scalar(bytes.subrange(index, bytes.len() as int)),
        ),
    decreases bytes.len(),
{
    reveal_with_fuel(is_char_boundary, 2);
    let first = length_of_first_scalar(bytes);
    let rest = pop_first_scalar(bytes);
    if index == 0 {
        assert(bytes.subrange(0, bytes.len() as int) =~= bytes);
        assert(is_char_boundary(rest, 0));
    } else {
        assert(is_char_boundary(rest, index - first));
        lemma_boundary_step(rest, index - first);
        assert(rest.subrange(index - first, rest.len() as int) =~= bytes.subrange(
            index,
            bytes.len() as int,
        ));
    }
}

/// The two offsets around an ASCII byte of a text lie between characters.
pub proof fn lemma_boundaries_around_ascii(bytes: Seq<u8>, index: int)
    requires
        valid_utf8(bytes),
        0 <= index < bytes.len(),
        bytes[index] < 0x80,
    ensures
        is_char_boundary(bytes, index),
        is_char_boundary(bytes, index + 1),
{
    is_char_boundary_iff_not_is_continuation_byte(bytes, index);
    lemma_boundary_step(bytes, index);
    assert(bytes.subrange(index, bytes.len() as int)[0] == bytes[index]);
}

/// A character boundary of a text is also one of the text's remainder from an
/// earlier boundary on.
proof fn lemma_boundary_in_suffix(bytes: Seq<u8>, from: int, to: int)
    requires
        valid_utf8(bytes),
        0 <= from <= to <= bytes.len(),
        is_char_boundary(bytes, from),
        is_char_boundary(bytes, to),
    ensures
        valid_utf8(bytes.subrange(from, bytes.len() as int)),
        is_char_boundary(bytes.subrange(from, bytes.len() as int), to - from),
{
    let suffix = bytes.subrange(from, bytes.len() as int);
    valid_utf8_split(bytes, from);
    if to == bytes.len() {
        is_char_boundary_start_end_of_seq(suffix);
    } else {
        is_char_boundary_iff_not_is_continuation_byte(bytes, to);
        is_char_boundary_iff_not_is_continuation_byte(suffix, to - from);
        assert(suffix[to - from] == bytes[to]);
    }
}

/// The part of `text` between the byte offsets `from` and `to`.
pub fn slice<'a>(text: &'a str, from: usize, to: usize) -> (part: &'a str)
    requires
        from <= to <= bytes_of(text@).len(),
        is_char_boundary(bytes_of(text@), from as int),
        is_char_boundary(bytes_of(text@), to as int),
    ensures
        bytes_of(part@) == bytes_of(text@).subrange(from as int, to as int),
{
    proof {
        encode_utf8_valid_utf8(text@);
        lemma_boundary_in_suffix(bytes_of(text@), from as int, to as int);
    }
    let (_, tail) = text.split_at(from);
    let (part, _) = tail.split_at(to - from);
    proof {
        let all = bytes_of(text@);
        assert(tail.spec_bytes() =~= all.subrange(from as int, all.len() as int));
        assert(part.spec_bytes() =~= all.subrange(from as int, to as int));
    }
    part
}

} // verus!
