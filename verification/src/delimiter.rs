//! What a text can be split at.
//!
//! A delimiter knows how to find its next occurrence in a text. Two are
//! provided, a literal pattern (`&str`) and a single character (`char`);
//! callers may add their own by implementing [`Delimiter`].
use vstd::prelude::*;
use vstd::string::StringSliceAdditionalSpecFns;
use vstd::utf8::encode_utf8;
use vstd::std_specs::iter::IteratorSpec;
use crate::search::{find_bytes, first_occurrence, occurs_at};
use crate::search::{lemma_first_occurrence_is_least, lemma_first_occurrence_unique};
use crate::text::{byte_offset, char_width, width};
use crate::text::{lemma_byte_offset_add, lemma_encode_single, lemma_encode_split};
use crate::text::{lemma_first_occurrence_encoded, lemma_occurrence_encodes};

verus! {

/// A rule that locates split points in a text.
///
/// The rule itself is the spec function `first_match`, which says where in a
/// text, counted in characters, the delimiter first occurs. `find_next` is
/// the executable search: it reports the same span as the two byte offsets at
/// which those characters begin in the text's UTF-8 encoding, so both offsets
/// fall on character boundaries.
pub trait Delimiter {
    /// The characters `[start, end)` of `text` that make up the earliest
    /// occurrence of this delimiter, or `None` where it does not occur.
    spec fn first_match(&self, text: Seq<char>) -> Option<(int, int)>;

    /// A match lies inside the text it was found in.
    proof fn lemma_first_match_in_bounds(&self, text: Seq<char>)
        ensures
            self.first_match(text) matches Some((start, end)) ==> 0 <= start <= end <= text.len(),
    ;

    /// Finds the earliest occurrence of this delimiter in `s` and returns the
    /// byte offsets of its start and of its end, relative to the start of `s`.
    fn find_next(&self, s: &str) -> (found: Option<(usize, usize)>)
        ensures
            match found {
                Some((from, to)) => {
                    &&& self.first_match(s@) matches Some((start, end))
                    &&& from == byte_offset(s@, start)
                    &&& to == byte_offset(s@, end)
                },
                None => self.first_match(s@) is None,
            },
    ;
}

/// A literal pattern matches where it stands in the text as a contiguous run.
/// The empty pattern matches at the very start of every text.
impl<'p> Delimiter for &'p str {
    open spec fn first_match(&self, text: Seq<char>) -> Option<(int, int)> {
        match first_occurrence(text, self@) {
            Some(at) => Some((at, at + self@.len())),
            None => None,
        }
    }

    proof fn lemma_first_match_in_bounds(&self, text: Seq<char>) {
        lemma_first_occurrence_is_least(text, self@);
    }

    /// The match is as long, in bytes, as the pattern is.
    fn find_next(&self, s: &str) -> (found: Option<(usize, usize)>)
        ensures
            found matches Some((from, to)) ==> to - from == encode_utf8(self@).len(),
    {
        let haystack = s.as_bytes();
        let needle = self.as_bytes();
        proof {
            lemma_first_occurrence_encoded(s@, self@);
            lemma_first_occurrence_is_least(s@, self@);
            lemma_first_occurrence_is_least(haystack@, needle@);
        }
        match find_bytes(haystack, needle) {
            Some(from) => {
                proof {
                    lemma_occurrence_encodes(s@, self@, first_occurrence(s@, self@)->0);
                    assert(haystack.len() == haystack@.len());
                }
                Some((from, from + needle.len()))
            },
            None => None,
        }
    }
}

/// A character matches at its first position in the text; the match is that
/// one character, however many bytes it takes.
impl Delimiter for char {
    open spec fn first_match(&self, text: Seq<char>) -> Option<(int, int)> {
        match first_occurrence(text, seq![*self]) {
            Some(at) => Some((at, at + 1)),
            None => None,
        }
    }

    proof fn lemma_first_match_in_bounds(&self, text: Seq<char>) {
        lemma_first_occurrence_is_least(text, seq![*self]);
    }

    /// The match is as long, in bytes, as the character is wide.
    fn find_next(&self, s: &str) -> (found: Option<(usize, usize)>)
        ensures
            found matches Some((from, to)) ==> to - from == width(*self),
    {
        let total: usize = s.as_bytes().len();
        let mut chars = s.chars();
        let mut offset: usize = 0;
        let ghost mut index: int = 0;
        proof {
            assert(s@.take(0) =~= Seq::<char>::empty());
        }
        loop
            invariant
                total == encode_utf8(s@).len(),
                0 <= index <= s@.len(),
                chars.obeys_prophetic_iter_laws(),
                chars.remaining() == s@.skip(index),
                offset == byte_offset(s@, index),
                forall|k: int| 0 <= k < index ==> s@[k] != *self,
            decreases s@.len() - index,
        {
            match chars.next() {
                None => {
                    proof {
                        lemma_char_absent(s@, *self);
                    }
                    return None;
                },
                Some(c) => {
                    assert(c == s@[index]);
                    assert(s@.skip(index).drop_first() =~= s@.skip(index + 1));
                    proof {
                        lemma_byte_offset_add(s@, index, index + 1);
                        assert(s@.skip(index).take(1) =~= seq![c]);
                        lemma_encode_single(c);
                        lemma_encode_split(s@, index + 1);
                    }
                    let next: usize = offset + char_width(c);
                    if c == *self {
                        proof {
                            lemma_char_first(s@, *self, index);
                        }
                        return Some((offset, next));
                    }
                    offset = next;
                    proof {
                        index = index + 1;
                    }
                },
            }
        }
    }
}

/// A character occurs, as a pattern of one, exactly where it stands.
pub proof fn lemma_char_occurs(text: Seq<char>, c: char, at: int)
    ensures
        occurs_at(text, seq![c], at) <==> 0 <= at < text.len() && text[at] == c,
{
    if 0 <= at < text.len() {
        assert(text.subrange(at, at + 1)[0] == text[at]);
    }
}

/// A text that does not hold a character gives it no match.
pub proof fn lemma_char_absent(text: Seq<char>, c: char)
    requires
        forall|k: int| 0 <= k < text.len() ==> text[k] != c,
    ensures
        first_occurrence(text, seq![c]) is None,
{
    assert forall|at: int| !occurs_at(text, seq![c], at) by {
        lemma_char_occurs(text, c, at);
    }
}

/// The first position at which a character stands is its first occurrence.
pub proof fn lemma_char_first(text: Seq<char>, c: char, at: int)
    requires
        0 <= at < text.len(),
        text[at] == c,
        forall|k: int| 0 <= k < at ==> text[k] != c,
    ensures
        first_occurrence(text, seq![c]) == Some(at),
{
    lemma_char_occurs(text, c, at);
    assert forall|earlier: int| 0 <= earlier < at implies !occurs_at(text, seq![c], earlier) by {
        lemma_char_occurs(text, c, earlier);
    }
    lemma_first_occurrence_unique(text, seq![c], at);
}

/// What a match of a character is: the one place where the character first
/// stands. It splits the text into what comes before, the character itself
/// and what comes after, and takes as many bytes as the character is wide.
pub proof fn lemma_char_match(c: char, text: Seq<char>)
    ensures
        match c.first_match(text) {
            Some((start, end)) => {
                &&& 0 <= start < text.len()
                &&& end == start + 1
                &&& text[start] == c
                &&& !text.take(start).contains(c)
                &&& text == text.take(start) + seq![c] + text.skip(end)
                &&& byte_offset(text, end) == byte_offset(text, start) + width(c)
                &&& 1 <= width(c) <= 4
            },
            None => !text.contains(c),
        },
{
    lemma_first_occurrence_is_least(text, seq![c]);
    match first_occurrence(text, seq![c]) {
        Some(start) => {
            lemma_char_occurs(text, c, start);
            assert forall|k: int| 0 <= k < start implies text.take(start)[k] != c by {
                lemma_char_occurs(text, c, k);
            }
            assert(text =~= text.take(start) + seq![c] + text.skip(start + 1));
            lemma_occurrence_encodes(text, seq![c], start);
            lemma_encode_single(c);
        },
        None => {
            assert forall|k: int| 0 <= k < text.len() implies text[k] != c by {
                lemma_char_occurs(text, c, k);
            }
        },
    }
}

} // verus!
