//! What holds of splitting, whatever the text.
use vstd::prelude::*;
use crate::delimiter::{lemma_char_match, Delimiter};
use crate::search::{first_occurrence, lemma_first_occurrence_is_least, occurs_at};
use crate::split::{advances, pieces};

verus! {

/// A character advances: its match is one character long.
pub proof fn lemma_char_advances(c: char)
    ensures
        advances(c),
{
    assert forall|text: Seq<char>| c.first_match(text) is Some implies {
        let (start, end) = (#[trigger] c.first_match(text))->0;
        end > 0
    } by {
        lemma_char_match(c, text);
    }
}

/// A literal pattern advances exactly when it is not empty.
pub proof fn lemma_pattern_advances(pattern: &str)
    ensures
        advances(pattern) <==> pattern@.len() > 0,
{
    if pattern@.len() > 0 {
        assert forall|text: Seq<char>| pattern.first_match(text) is Some implies {
            let (start, end) = (#[trigger] pattern.first_match(text))->0;
            end > 0
        } by {
            lemma_first_occurrence_is_least(text, pattern@);
        }
    } else {
        let nothing = Seq::<char>::empty();
        assert(occurs_at(nothing, pattern@, 0));
        lemma_first_occurrence_is_least(nothing, pattern@);
        assert(pattern.first_match(nothing) == Some((0int, 0int)));
    }
}

/// A text in which the delimiter does not occur is its own single segment.
pub proof fn lemma_no_match_one_piece<D: Delimiter>(delimiter: D, text: Seq<char>)
    requires
        delimiter.first_match(text) is None,
    ensures
        pieces(delimiter, text) == seq![text],
{
}

/// Every text has a first segment: what stands before the first match, or
/// the whole text where there is none.
pub proof fn lemma_first_piece<D: Delimiter>(delimiter: D, text: Seq<char>)
    requires
        advances(delimiter),
    ensures
        pieces(delimiter, text).len() >= 1,
        pieces(delimiter, text)[0] == match delimiter.first_match(text) {
            Some((start, _)) => text.take(start),
            None => text,
        },
{
    delimiter.lemma_first_match_in_bounds(text);
}

/// No segment of a text split at a character holds that character.
pub proof fn lemma_char_pieces_exclude(c: char, text: Seq<char>)
    ensures
        forall|i: int|
            0 <= i < pieces(c, text).len() ==> !(#[trigger] pieces(c, text)[i]).contains(c),
    decreases text.len(),
{
    lemma_char_match(c, text);
    let all = pieces(c, text);
    match c.first_match(text) {
        Some((start, end)) => {
            let later = pieces(c, text.skip(end));
            lemma_char_pieces_exclude(c, text.skip(end));
            assert(all == seq![text.take(start)] + later);
            assert forall|i: int| 0 <= i < all.len() implies !(#[trigger] all[i]).contains(c) by {
                if i == 0 {
                    assert(all[0] == text.take(start));
                } else {
                    assert(all[i] == later[i - 1]);
                }
            }
        },
        None => {
            assert(all == seq![text]);
            assert forall|i: int| 0 <= i < all.len() implies !(#[trigger] all[i]).contains(c) by {
                assert(all[i] == text);
            }
        },
    }
}

/// The segments `parts` with `glue` put between each two neighbours.
pub open spec fn join(parts: Seq<Seq<char>>, glue: Seq<char>) -> Seq<char>
    decreases parts.len(),
{
    if parts.len() == 0 {
        Seq::empty()
    } else if parts.len() == 1 {
        parts[0]
    } else {
        parts[0] + glue + join(parts.drop_first(), glue)
    }
}

/// Every match of `delimiter`, in whatever text, is the run `glue`.
pub open spec fn spells<D: Delimiter>(delimiter: D, glue: Seq<char>) -> bool {
    forall|text: Seq<char>|
        (#[trigger] delimiter.first_match(text)) matches Some((start, end)) ==> text.subrange(
            start,
            end,
        ) == glue
}

/// Where every match of a delimiter spells the same run of characters,
/// joining the segments of a text with that run gives the text back.
pub proof fn lemma_pieces_join<D: Delimiter>(delimiter: D, glue: Seq<char>, text: Seq<char>)
    requires
        advances(delimiter),
        spells(delimiter, glue),
    ensures
        join(pieces(delimiter, text), glue) == text,
    decreases text.len(),
{
    delimiter.lemma_first_match_in_bounds(text);
    match delimiter.first_match(text) {
        Some((start, end)) => {
            let rest = text.skip(end);
            lemma_pieces_join(delimiter, glue, rest);
            lemma_first_piece(delimiter, rest);
            let all = pieces(delimiter, text);
            assert(all.drop_first() =~= pieces(delimiter, rest));
            assert(text =~= text.take(start) + text.subrange(start, end) + rest);
        },
        None => {},
    }
}

/// Splitting a text at a character and joining the segments with that
/// character gives the text back.
pub proof fn lemma_char_pieces_join(c: char, text: Seq<char>)
    ensures
        join(pieces(c, text), seq![c]) == text,
{
    lemma_char_advances(c);
    assert forall|any: Seq<char>| c.first_match(any) is Some implies {
        let (start, end) = (#[trigger] c.first_match(any))->0;
        any.subrange(start, end) == seq![c]
    } by {
        lemma_char_match(c, any);
        let (start, end) = c.first_match(any)->0;
        assert(any.subrange(start, end) =~= seq![c]);
    }
    lemma_pieces_join(c, seq![c], text);
}

/// Splitting a text at a pattern that is not empty and joining the segments
/// with that pattern gives the text back.
pub proof fn lemma_pattern_pieces_join(pattern: &str, text: Seq<char>)
    requires
        pattern@.len() > 0,
    ensures
        join(pieces(pattern, text), pattern@) == text,
{
    lemma_pattern_advances(pattern);
    assert forall|any: Seq<char>| pattern.first_match(any) is Some implies {
        let (start, end) = (#[trigger] pattern.first_match(any))->0;
        any.subrange(start, end) == pattern@
    } by {
        lemma_first_occurrence_is_least(any, pattern@);
    }
    lemma_pieces_join(pattern, pattern@, text);
}

} // verus!
