//! Character-level helpers: reading a string into a vector and cutting it at
//! separators.

use vstd::prelude::*;

verus! {

/// The pieces into which the separator `sep` cuts `text`, in order. Reading
/// from the left, a separator closes the current piece and opens a new, empty
/// one; any other character is added to the current piece. There is always at
/// least one piece: the empty text is cut into one empty piece.
pub open spec fn split(text: Seq<char>, sep: char) -> Seq<Seq<char>>
    decreases text.len(),
{
    if text.len() == 0 {
        seq![Seq::empty()]
    } else {
        let before = split(text.drop_last(), sep);
        if text.last() == sep {
            before.push(Seq::empty())
        } else {
            before.drop_last().push(before.last().push(text.last()))
        }
    }
}

/// The text that `parts` make when `sep` is put between each two of them.
pub open spec fn join(parts: Seq<Seq<char>>, sep: char) -> Seq<char>
    decreases parts.len(),
{
    if parts.len() == 0 {
        Seq::empty()
    } else if parts.len() == 1 {
        parts[0]
    } else {
        join(parts.drop_last(), sep) + seq![sep] + parts.last()
    }
}

/// Whether `parts` is a cutting of `text` at `sep`: at least one part, no
/// separator inside a part, and the parts joined by separators give `text`.
pub open spec fn is_cutting(parts: Seq<Seq<char>>, text: Seq<char>, sep: char) -> bool {
    &&& parts.len() >= 1
    &&& forall|k: int| 0 <= k < parts.len() ==> !(#[trigger] parts[k]).contains(sep)
    &&& join(parts, sep) =~= text
}

/// The pieces of `chars` that `ranges` marks, each range a pair of a start and
/// an end index.
pub open spec fn pieces(chars: Seq<char>, ranges: Seq<(usize, usize)>) -> Seq<Seq<char>> {
    Seq::new(ranges.len(), |k: int| chars.subrange(ranges[k].0 as int, ranges[k].1 as int))
}

/// Whether every range of `ranges` lies within `start..end`.
pub open spec fn ranges_within(ranges: Seq<(usize, usize)>, start: int, end: int) -> bool {
    forall|k: int| 0 <= k < ranges.len() ==> start <= (#[trigger] ranges[k]).0 <= ranges[k].1 <= end
}

/// Whether `ranges` cover `start..end` in order with one index, that of a
/// separator, left out between each two: the first range begins at `start`,
/// each next one begins one past the end of the one before, and the last ends
/// at `end`.
pub open spec fn ranges_chained(ranges: Seq<(usize, usize)>, start: int, end: int) -> bool {
    &&& ranges.len() >= 1
    &&& ranges[0].0 == start
    &&& ranges[ranges.len() - 1].1 == end
    &&& forall|k: int| 1 <= k < ranges.len() ==> (#[trigger] ranges[k]).0 == ranges[k - 1].1 + 1
}

/// The characters of `text`, in order.
pub fn to_chars(text: &str) -> (chars: Vec<char>)
    ensures
        chars@ == text@,
{
    let mut chars: Vec<char> = Vec::new();
    for c in it: text.chars()
        invariant
            it.seq() == text@,
            chars@ == text@.take(it.index() as int),
    {
        chars.push(c);
    }
    chars
}

/// Cuts the characters of `chars` from `start` up to `end` at each `sep` and
/// returns the index ranges of the pieces.
pub fn split_ranges(chars: &Vec<char>, start: usize, end: usize, sep: char) -> (ranges: Vec<
    (usize, usize),
>)
    requires
        start <= end <= chars.len(),
    ensures
        ranges_within(ranges@, start as int, end as int),
        ranges_chained(ranges@, start as int, end as int),
        pieces(chars@, ranges@) == split(chars@.subrange(start as int, end as int), sep),
{
    let mut ranges: Vec<(usize, usize)> = Vec::new();
    let mut piece_start: usize = start;
    let mut i: usize = start;
    proof {
        assert(pieces(chars@, ranges@.push((piece_start, i))) =~~= seq![Seq::<char>::empty()]);
    }
    while i < end
        invariant
            start <= piece_start <= i <= end <= chars.len(),
            ranges_within(ranges@, start as int, end as int),
            ranges_chained(ranges@.push((piece_start, i)), start as int, i as int),
            pieces(chars@, ranges@.push((piece_start, i))) == split(
                chars@.subrange(start as int, i as int),
                sep,
            ),
        decreases end - i,
    {
        let ghost old_ranges = ranges@.push((piece_start, i));
        let ghost old_pieces = pieces(chars@, old_ranges);
        proof {
            assert(chars@.subrange(start as int, i + 1).drop_last() == chars@.subrange(
                start as int,
                i as int,
            ));
        }
        if chars[i] == sep {
            ranges.push((piece_start, i));
            piece_start = i + 1;
            proof {
                let new_ranges = ranges@.push((piece_start, (i + 1) as usize));
                assert(pieces(chars@, new_ranges) =~~= old_pieces.push(Seq::empty()));
                assert forall|k: int| 1 <= k < new_ranges.len() implies (
                #[trigger] new_ranges[k]).0 == new_ranges[k - 1].1 + 1 by {
                    if k < old_ranges.len() {
                        assert(new_ranges[k] == old_ranges[k]);
                    }
                }
            }
        } else {
            proof {
                let new_ranges = ranges@.push((piece_start, (i + 1) as usize));
                assert(pieces(chars@, new_ranges) =~~= old_pieces.drop_last().push(
                    old_pieces.last().push(chars@[i as int]),
                ));
                assert forall|k: int| 1 <= k < new_ranges.len() implies (
                #[trigger] new_ranges[k]).0 == new_ranges[k - 1].1 + 1 by {
                    assert(new_ranges[k].0 == old_ranges[k].0);
                }
            }
        }
        i += 1;
    }
    ranges.push((piece_start, end));
    ranges
}

/// `split` cuts at every separator and nowhere else.
pub proof fn lemma_split_is_cutting(text: Seq<char>, sep: char)
    ensures
        is_cutting(split(text, sep), text, sep),
    decreases text.len(),
{
    if text.len() > 0 {
        let shorter = text.drop_last();
        let before = split(shorter, sep);
        let parts = split(text, sep);
        lemma_split_is_cutting(shorter, sep);
        if text.last() == sep {
            assert(parts.drop_last() == before);
        } else if before.len() > 1 {
            assert(parts.drop_last() == before.drop_last());
            assert(shorter.push(text.last()) == text);
        }
    }
}

/// There is one cutting only: whatever cuts `text` at every `sep` and nowhere
/// else is `split(text, sep)`.
pub proof fn lemma_cutting_is_split(parts: Seq<Seq<char>>, text: Seq<char>, sep: char)
    requires
        is_cutting(parts, text, sep),
    ensures
        parts == split(text, sep),
    decreases text.len(),
{
    if text.len() > 0 {
        let shorter = text.drop_last();
        let last = parts.last();
        // The text without its last character, cut the same way.
        let fewer = if last.len() == 0 {
            parts.drop_last()
        } else {
            parts.drop_last().push(last.drop_last())
        };
        if parts.len() > 1 {
            assert(text == join(parts.drop_last(), sep) + seq![sep] + last);
        }
        if last.len() > 0 {
            assert(last[last.len() - 1] == text.last());
            assert(fewer.drop_last() == parts.drop_last());
        }
        assert(is_cutting(fewer, shorter, sep));
        lemma_cutting_is_split(fewer, shorter, sep);
    }
    assert(parts =~~= split(text, sep));
}

} // verus!
