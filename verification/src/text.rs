//! How positions in a text relate to positions in its UTF-8 encoding.
//!
//! A text is a sequence of characters; its encoding is a sequence of bytes in
//! which every character takes between one and four bytes. The functions here
//! translate a character index into the byte offset at which that character's
//! encoding begins, and the lemmas say how that translation behaves when a
//! text is cut in two.
use vstd::prelude::*;
use vstd::utf8::*;
use crate::search::{first_occurrence, lemma_first_occurrence_is_least, occurs_at};

verus! {

/// The number of bytes that the UTF-8 encoding of `c` takes.
pub open spec fn width(c: char) -> int {
    encode_scalar(c as u32).len() as int
}

/// The byte offset, in the encoding of `text`, at which the character with
/// index `index` begins; for `index == text.len()`, the length of the encoding.
pub open spec fn byte_offset(text: Seq<char>, index: int) -> int {
    encode_utf8(text.take(index)).len() as int
}

/// The number of bytes that `c` takes when encoded.
pub fn char_width(c: char) -> (w: usize)
    ensures
        w == width(c),
        1 <= w <= 4,
{
    let v: u32 = c as u32;
    if v < 0x80 {
        1
    } else if v < 0x800 {
        2
    } else if v < 0x10000 {
        3
    } else {
        4
    }
}

/// Encoding distributes over concatenation.
pub proof fn lemma_encode_concat(left: Seq<char>, right: Seq<char>)
    ensures
        encode_utf8(left + right) == encode_utf8(left) + encode_utf8(right),
    decreases left.len(),
{
    if left.len() == 0 {
        assert(left + right =~= right);
        assert(encode_utf8(left) + encode_utf8(right) =~= encode_utf8(right));
    } else {
        lemma_encode_concat(left.drop_first(), right);
        assert((left + right).drop_first() =~= left.drop_first() + right);
        assert(encode_utf8(left + right) =~= encode_utf8(left) + encode_utf8(right));
    }
}

/// Two texts with the same encoding are the same text.
pub proof fn lemma_encode_injective(a: Seq<char>, b: Seq<char>)
    requires
        encode_utf8(a) == encode_utf8(b),
    ensures
        a == b,
{
    encode_utf8_decode_utf8(a);
    encode_utf8_decode_utf8(b);
}

/// Cutting a text at a character index cuts its encoding at the matching byte
/// offset.
pub proof fn lemma_encode_split(text: Seq<char>, index: int)
    requires
        0 <= index <= text.len(),
    ensures
        0 <= byte_offset(text, index) <= encode_utf8(text).len(),
        encode_utf8(text).subrange(0, byte_offset(text, index)) == encode_utf8(text.take(index)),
        encode_utf8(text).subrange(byte_offset(text, index), encode_utf8(text).len() as int)
            == encode_utf8(text.skip(index)),
{
    lemma_encode_concat(text.take(index), text.skip(index));
    assert(text.take(index) + text.skip(index) =~= text);
    let head = encode_utf8(text.take(index));
    let tail = encode_utf8(text.skip(index));
    assert((head + tail).subrange(0, head.len() as int) =~= head);
    assert((head + tail).subrange(head.len() as int, (head + tail).len() as int) =~= tail);
}

/// The offset of a later character is the offset of an earlier one plus the
/// offset of the later one within the text that starts at the earlier one.
pub proof fn lemma_byte_offset_add(text: Seq<char>, first: int, second: int)
    requires
        0 <= first <= second <= text.len(),
    ensures
        byte_offset(text, second) == byte_offset(text, first) + byte_offset(
            text.skip(first),
            second - first,
        ),
{
    lemma_encode_concat(text.take(first), text.skip(first).take(second - first));
    assert(text.take(first) + text.skip(first).take(second - first) =~= text.take(second));
}

/// Offsets grow with indices, and strictly so.
pub proof fn lemma_byte_offset_monotone(text: Seq<char>, first: int, second: int)
    requires
        0 <= first <= second <= text.len(),
    ensures
        byte_offset(text, first) + (second - first) <= byte_offset(text, second),
    decreases second - first,
{
    if first < second {
        lemma_byte_offset_monotone(text, first, second - 1);
        lemma_encode_concat(text.take(second - 1), seq![text[second - 1]]);
        assert(text.take(second - 1) + seq![text[second - 1]] =~= text.take(second));
        lemma_encode_single(text[second - 1]);
    }
}

/// The encoding of a text of one character is that character's encoding.
pub proof fn lemma_encode_single(c: char)
    ensures
        encode_utf8(seq![c]) == encode_scalar(c as u32),
        encode_utf8(seq![c]).len() == width(c),
{
    let one = seq![c];
    assert(one.drop_first() =~= Seq::<char>::empty());
    assert(encode_utf8(one.drop_first()) =~= Seq::<u8>::empty());
    assert(encode_utf8(one) =~= encode_scalar(c as u32));
}

/// What follows the first character's bytes in an encoding is the encoding
/// of the rest of the text.
pub proof fn lemma_encode_first(text: Seq<char>)
    requires
        text.len() > 0,
    ensures
        valid_first_scalar(encode_utf8(text)),
        length_of_first_scalar(encode_utf8(text)) == width(text[0]),
        decode_first_scalar(encode_utf8(text)) == text[0] as u32,
        pop_first_scalar(encode_utf8(text)) == encode_utf8(text.drop_first()),
{
    encode_utf8_first_scalar(text);
    assert(pop_first_scalar(encode_utf8(text)) =~= encode_utf8(text.drop_first()));
}

/// The offset of every character, and the end of the encoding, is a character
/// boundary of the encoding.
pub proof fn lemma_byte_offset_is_boundary(text: Seq<char>, index: int)
    requires
        0 <= index <= text.len(),
    ensures
        is_char_boundary(encode_utf8(text), byte_offset(text, index)),
    decreases index,
{
    let bytes = encode_utf8(text);
    encode_utf8_valid_utf8(text);
    if index == 0 {
        assert(text.take(0) =~= Seq::<char>::empty());
    } else {
        let rest = text.drop_first();
        lemma_byte_offset_is_boundary(rest, index - 1);
        lemma_encode_first(text);
        lemma_encode_first(text.take(index));
        assert(text.take(index).drop_first() =~= rest.take(index - 1));
        lemma_encode_split(text, index);
        assert(byte_offset(text, index) == width(text[0]) + byte_offset(rest, index - 1));
    }
}

/// Every character boundary of an encoding is the offset of a character, or
/// the end of the encoding: the lemma returns the character's index.
pub proof fn lemma_boundary_is_byte_offset(text: Seq<char>, offset: int) -> (index: int)
    requires
        0 <= offset <= encode_utf8(text).len(),
        is_char_boundary(encode_utf8(text), offset),
    ensures
        0 <= index <= text.len(),
        byte_offset(text, index) == offset,
    decreases text.len(),
{
    encode_utf8_valid_utf8(text);
    if offset == 0 {
        assert(text.take(0) =~= Seq::<char>::empty());
        0
    } else {
        assert(text.len() > 0);
        let rest = text.drop_first();
        lemma_encode_first(text);
        encode_utf8_valid_utf8(rest);
        assert(is_char_boundary(encode_utf8(rest), offset - width(text[0])));
        let inner = lemma_boundary_is_byte_offset(rest, offset - width(text[0]));
        lemma_encode_first(text.take(inner + 1));
        assert(text.take(inner + 1).drop_first() =~= rest.take(inner));
        inner + 1
    }
}

/// Where the first bytes of a valid encoding are themselves a valid encoding,
/// they end on a character boundary.
pub proof fn lemma_valid_prefix_ends_on_boundary(bytes: Seq<u8>, cut: int)
    requires
        valid_utf8(bytes),
        0 <= cut <= bytes.len(),
        valid_utf8(bytes.subrange(0, cut)),
    ensures
        is_char_boundary(bytes, cut),
    decreases bytes.len(),
{
    if cut != 0 {
        let prefix = bytes.subrange(0, cut);
        let first = length_of_first_scalar(bytes);
        assert(prefix[0] == bytes[0]);
        assert(length_of_first_scalar(prefix) == first);
        assert(first <= cut);
        assert(pop_first_scalar(prefix) =~= pop_first_scalar(bytes).subrange(0, cut - first));
        lemma_valid_prefix_ends_on_boundary(pop_first_scalar(bytes), cut - first);
    }
}

/// Where a pattern occurs in a text, its encoding occurs in the text's
/// encoding, from the offset of the first matched character to the offset of
/// the character after the last.
pub proof fn lemma_occurrence_encodes(text: Seq<char>, pattern: Seq<char>, at: int)
    requires
        occurs_at(text, pattern, at),
    ensures
        occurs_at(encode_utf8(text), encode_utf8(pattern), byte_offset(text, at)),
        byte_offset(text, at + pattern.len()) == byte_offset(text, at) + encode_utf8(pattern).len(),
{
    let end = at + pattern.len();
    lemma_encode_split(text, at);
    lemma_encode_split(text.skip(at), pattern.len() as int);
    lemma_byte_offset_add(text, at, end);
    assert(text.skip(at).take(pattern.len() as int) =~= pattern);
    let bytes = encode_utf8(text);
    let from = byte_offset(text, at);
    let tail = encode_utf8(text.skip(at));
    assert(bytes.subrange(from, from + encode_utf8(pattern).len()) =~= tail.subrange(
        0,
        encode_utf8(pattern).len() as int,
    ));
}

/// Where the encoding of a pattern that is not empty occurs in the encoding
/// of a text, it begins at the offset of a character, and the pattern occurs
/// in the text at that character: the lemma returns its index.
pub proof fn lemma_occurrence_decodes(text: Seq<char>, pattern: Seq<char>, offset: int) -> (at: int)
    requires
        pattern.len() > 0,
        occurs_at(encode_utf8(text), encode_utf8(pattern), offset),
    ensures
        occurs_at(text, pattern, at),
        byte_offset(text, at) == offset,
{
    let bytes = encode_utf8(text);
    let needle = encode_utf8(pattern);
    encode_utf8_valid_utf8(text);
    encode_utf8_valid_utf8(pattern);
    lemma_encode_first(pattern);
    // The match begins with a leading byte, so it begins a character.
    assert(bytes.subrange(offset, offset + needle.len())[0] == needle[0]);
    assert(!is_continuation_byte(bytes[offset]));
    is_char_boundary_iff_not_is_continuation_byte(bytes, offset);
    let at = lemma_boundary_is_byte_offset(text, offset);
    // From that character on, the text's encoding begins with the pattern's.
    let rest = text.skip(at);
    let tail = encode_utf8(rest);
    lemma_encode_split(text, at);
    encode_utf8_valid_utf8(rest);
    assert(tail.subrange(0, needle.len() as int) =~= needle);
    lemma_valid_prefix_ends_on_boundary(tail, needle.len() as int);
    let count = lemma_boundary_is_byte_offset(rest, needle.len() as int);
    lemma_encode_split(rest, count);
    lemma_encode_injective(rest.take(count), pattern);
    assert(text.subrange(at, at + pattern.len()) =~= rest.take(count));
    at
}

/// Searching the encodings finds what searching the texts finds: the first
/// occurrence of a pattern's encoding in a text's encoding lies at the byte
/// offset of the pattern's first occurrence in the text, and there is the one
/// exactly when there is the other.
pub proof fn lemma_first_occurrence_encoded(text: Seq<char>, pattern: Seq<char>)
    ensures
        first_occurrence(encode_utf8(text), encode_utf8(pattern)) == match first_occurrence(
            text,
            pattern,
        ) {
            Some(at) => Some(byte_offset(text, at)),
            None => None,
        },
{
    let bytes = encode_utf8(text);
    let needle = encode_utf8(pattern);
    lemma_first_occurrence_is_least(text, pattern);
    lemma_first_occurrence_is_least(bytes, needle);
    if pattern.len() == 0 {
        assert(text.take(0) =~= Seq::<char>::empty());
        assert(occurs_at(text, pattern, 0));
        assert(occurs_at(bytes, needle, 0));
    } else {
        match first_occurrence(bytes, needle) {
            Some(offset) => {
                let at = lemma_occurrence_decodes(text, pattern, offset);
                let least = first_occurrence(text, pattern)->0;
                lemma_occurrence_encodes(text, pattern, least);
                lemma_byte_offset_monotone(text, least, at);
            },
            None => {
                if first_occurrence(text, pattern) is Some {
                    lemma_occurrence_encodes(text, pattern, first_occurrence(text, pattern)->0);
                }
            },
        }
    }
}

} // verus!
