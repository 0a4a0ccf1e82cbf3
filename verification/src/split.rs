//! The splitter: a cursor over a borrowed text that hands out, one call at a
//! time, the segments that lie between the occurrences of a delimiter.
use vstd::prelude::*;
use vstd::string::StringSliceAdditionalSpecFns;
use vstd::utf8::encode_utf8;
use crate::delimiter::{lemma_char_match, Delimiter};
use crate::text::byte_offset;
use crate::text::{lemma_byte_offset_add, lemma_byte_offset_is_boundary, lemma_byte_offset_monotone};
use crate::text::{lemma_encode_injective, lemma_encode_split};

verus! {

/// `part` is what is left of `whole` when some of its first characters are
/// taken away.
pub open spec fn is_suffix(part: Seq<char>, whole: Seq<char>) -> bool {
    &&& part.len() <= whole.len()
    &&& whole.skip(whole.len() - part.len()) =~= part
}

/// The texts of a run of string slices.
pub open spec fn texts(segments: Seq<&str>) -> Seq<Seq<char>> {
    Seq::new(segments.len(), |i: int| segments[i]@)
}

/// A delimiter advances when none of its matches ends where the text begins,
/// so that cutting a text behind a match always leaves less than there was.
/// Only a match that is empty and stands at the very start fails this.
pub open spec fn advances<D: Delimiter>(delimiter: D) -> bool {
    forall|text: Seq<char>|
        (#[trigger] delimiter.first_match(text)) matches Some((start, end)) ==> end > 0
}

/// The segments into which an advancing delimiter cuts a text: what stands
/// before its first match, followed by the segments of what stands behind
/// that match; the whole text where there is no match.
pub open spec fn pieces<D: Delimiter>(delimiter: D, text: Seq<char>) -> Seq<Seq<char>>
    recommends
        advances(delimiter),
    decreases text.len(),
{
    match delimiter.first_match(text) {
        Some((start, end)) => {
            if 0 < end <= text.len() {
                seq![text.take(start)] + pieces(delimiter, text.skip(end))
            } else {
                arbitrary()
            }
        },
        None => seq![text],
    }
}

/// The segments that a splitter with the given remainder has still to yield:
/// none once it is exhausted.
pub open spec fn remaining_pieces<D: Delimiter>(
    delimiter: D,
    remainder: Option<Seq<char>>,
) -> Seq<Seq<char>> {
    match remainder {
        Some(rest) => pieces(delimiter, rest),
        None => Seq::empty(),
    }
}

/// A single pass over a text that yields the segments between the
/// occurrences of a delimiter.
///
/// The splitter borrows the text and never copies it: every segment is a
/// slice of the text it was made over. Once it has yielded the last segment
/// it is exhausted and stays so.
pub struct StrSplit<'h, D> {
    remainder: Option<&'h str>,
    delimiter: D,
    haystack: Ghost<Seq<char>>,
}

impl<'h, D> StrSplit<'h, D> {
    #[verifier::type_invariant]
    spec fn remainder_in_haystack(&self) -> bool {
        self.remainder matches Some(rest) ==> is_suffix(rest@, self.haystack@)
    }

    /// The text that this splitter was made over.
    pub closed spec fn haystack(&self) -> Seq<char> {
        self.haystack@
    }

    /// The part of the text that has not been searched yet, or `None` once
    /// the splitter is exhausted. An empty remainder is not exhaustion: it
    /// still yields one empty segment.
    pub closed spec fn remainder(&self) -> Option<Seq<char>> {
        match self.remainder {
            Some(rest) => Some(rest@),
            None => None,
        }
    }

    /// The delimiter that this splitter cuts at.
    pub closed spec fn delimiter(&self) -> D {
        self.delimiter
    }

    /// What remains is the end of the text that the splitter was made over.
    pub open spec fn anchored(&self) -> bool {
        self.remainder() matches Some(rest) ==> is_suffix(rest, self.haystack())
    }

    /// The index, in the haystack, of the character at which the remainder
    /// begins; the haystack's length once the splitter is exhausted.
    pub open spec fn position(&self) -> int {
        match self.remainder() {
            Some(rest) => self.haystack().len() - rest.len(),
            None => self.haystack().len() as int,
        }
    }

    /// The byte offset, in the haystack's encoding, at which the remainder
    /// begins.
    pub open spec fn byte_position(&self) -> int {
        byte_offset(self.haystack(), self.position())
    }

    /// Makes a splitter over the whole of `haystack`. Nothing is searched
    /// until the first segment is asked for.
    pub fn new(haystack: &'h str, delimiter: D) -> (split: Self)
        ensures
            split.haystack() == haystack@,
            split.remainder() == Some(haystack@),
            split.delimiter() == delimiter,
            split.anchored(),
            split.position() == 0,
    {
        Self { remainder: Some(haystack), delimiter, haystack: Ghost(haystack@) }
    }
}

impl<'h, D: Delimiter> StrSplit<'h, D> {
    /// Yields the next segment, or `None` when the splitter is exhausted.
    ///
    /// Where the delimiter occurs in the remainder, the segment is what
    /// stands before the match and the remainder becomes what stands behind
    /// it. Where it does not occur, the segment is the whole remainder and
    /// the splitter is exhausted from then on.
    pub fn next(&mut self) -> (segment: Option<&'h str>)
        ensures
            final(self).delimiter() == old(self).delimiter(),
            final(self).haystack() == old(self).haystack(),
            final(self).anchored(),
            match old(self).remainder() {
                None => segment is None && final(self).remainder() is None,
                Some(rest) => match old(self).delimiter().first_match(rest) {
                    Some((start, end)) => {
                        &&& segment matches Some(piece)
                        &&& piece@ == rest.take(start)
                        &&& final(self).remainder() == Some(rest.skip(end))
                        &&& final(self).position() == old(self).position() + end
                        &&& final(self).byte_position() == old(self).byte_position() + byte_offset(
                            rest,
                            end,
                        )
                    },
                    None => {
                        &&& segment matches Some(piece)
                        &&& piece@ == rest
                        &&& final(self).remainder() is None
                    },
                },
            },
            segment is None ==> final(self).remainder() is None,
            segment matches Some(piece) ==> piece@ == old(self).haystack().subrange(
                old(self).position(),
                old(self).position() + piece@.len(),
            ),
            old(self).position() <= final(self).position() <= old(self).haystack().len(),
            old(self).byte_position() <= final(self).byte_position(),
    {
        proof {
            use_type_invariant(&*self);
        }
        let ghost whole = self.haystack@;
        match self.remainder {
            None => None,
            Some(rest) => {
                let ghost before = whole.len() - rest@.len();
                match self.delimiter.find_next(rest) {
                    Some((from, to)) => {
                        let ghost (start, end) = self.delimiter.first_match(rest@)->0;
                        proof {
                            self.delimiter.lemma_first_match_in_bounds(rest@);
                            lemma_byte_offset_is_boundary(rest@, start);
                            lemma_byte_offset_is_boundary(rest@, end);
                            lemma_encode_split(rest@, start);
                            lemma_encode_split(rest@, end);
                        }
                        let (head, _) = rest.split_at(from);
                        let (_, tail) = rest.split_at(to);
                        proof {
                            lemma_encode_injective(head@, rest@.take(start));
                            lemma_encode_injective(tail@, rest@.skip(end));
                            assert(whole.skip(before + end) =~= rest@.skip(end));
                            assert(whole.subrange(before, before + start) =~= rest@.take(start));
                            lemma_byte_offset_add(whole, before, before + end);
                        }
                        self.remainder = Some(tail);
                        Some(head)
                    },
                    None => {
                        proof {
                            lemma_byte_offset_monotone(whole, before, whole.len() as int);
                            assert(whole.subrange(before, before + rest@.len()) =~= rest@);
                        }
                        self.remainder = None;
                        Some(rest)
                    },
                }
            },
        }
    }

    /// Runs the splitter to exhaustion and returns the segments it yields,
    /// in order.
    ///
    /// The delimiter has to advance: one that matches the empty run at the
    /// start of a text would yield empty segments without end.
    pub fn collect(self) -> (segments: Vec<&'h str>)
        requires
            advances(self.delimiter()),
        ensures
            texts(segments@) == remaining_pieces(self.delimiter(), self.remainder()),
    {
        let mut split = self;
        let mut segments: Vec<&'h str> = Vec::new();
        loop
            invariant
                advances(self.delimiter()),
                split.delimiter() == self.delimiter(),
                texts(segments@) + remaining_pieces(split.delimiter(), split.remainder())
                    == remaining_pieces(self.delimiter(), self.remainder()),
            decreases
                match split.remainder() {
                    Some(rest) => rest.len() + 1,
                    None => 0,
                },
        {
            let ghost before = split.remainder();
            let ghost so_far = segments@;
            match split.next() {
                None => {
                    assert(texts(segments@) + Seq::<Seq<char>>::empty() =~= texts(segments@));
                    return segments;
                },
                Some(piece) => {
                    segments.push(piece);
                    proof {
                        let rest = before->0;
                        split.delimiter().lemma_first_match_in_bounds(rest);
                        assert(texts(segments@) =~= texts(so_far) + seq![piece@]);
                        assert(seq![piece@] + remaining_pieces(split.delimiter(), split.remainder())
                            =~= remaining_pieces(self.delimiter(), before));
                    }
                },
            }
        }
    }
}

/// The text that stands before the first `c` in `s`; the whole of `s` where
/// it holds no `c`.
pub fn until_char(s: &str, c: char) -> (prefix: &str)
    ensures
        prefix@ == match c.first_match(s@) {
            Some((start, _)) => s@.take(start),
            None => s@,
        },
        prefix@.len() <= s@.len(),
        prefix@ == s@.take(prefix@.len() as int),
        !prefix@.contains(c),
        prefix@.len() < s@.len() ==> s@[prefix@.len() as int] == c,
{
    proof {
        lemma_char_match(c, s@);
    }
    StrSplit::new(s, c).next().expect("StrSplit always gives at least one result")
}

} // verus!
