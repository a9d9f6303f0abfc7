//! From a mapping string to the table: cutting into lines and segments,
//! decoding each segment, and accumulating.

use crate::alphabet::{create_lookup_tables, decode_table, COMMA_CHAR, SEMICOLON_CHAR};
use crate::mapping::{process, process_spec, Entry, Mappings, RawMappings};
use crate::text::{pieces, ranges_within, split, split_ranges, to_chars};
use crate::vlq::{decode_range, decode_spec};
use std::collections::HashMap;
use vstd::prelude::*;

verus! {

/// The decoded segments of one line of a mapping string: the line is cut at
/// each comma and every piece is decoded as a token.
pub open spec fn line_segments(line: Seq<char>) -> Seq<Seq<i32>> {
    split(line, COMMA_CHAR).map_values(|token: Seq<char>| decode_spec(token))
}

/// The decoded segments of a mapping string: the string is cut into lines at
/// each semicolon.
pub open spec fn raw_mappings(text: Seq<char>) -> Seq<Seq<Seq<i32>>> {
    split(text, SEMICOLON_CHAR).map_values(|line: Seq<char>| line_segments(line))
}

/// The table that a mapping string decodes to.
pub open spec fn parse_spec(text: Seq<char>) -> Seq<Seq<Option<Entry>>> {
    process_spec(raw_mappings(text))
}

/// Decodes the segments of the line that `chars` holds from `start` up to `end`.
fn decode_line(
    table: &HashMap<u32, u8>,
    chars: &Vec<char>,
    start: usize,
    end: usize,
) -> (segments: Vec<Vec<i32>>)
    requires
        table@ == decode_table(),
        start <= end <= chars.len(),
    ensures
        segments.deep_view() == line_segments(chars@.subrange(start as int, end as int)),
{
    let ranges = split_ranges(chars, start, end, COMMA_CHAR);
    let ghost tokens = split(chars@.subrange(start as int, end as int), COMMA_CHAR);
    let mut segments: Vec<Vec<i32>> = Vec::new();
    let mut k: usize = 0;
    while k < ranges.len()
        invariant
            k <= ranges.len(),
            table@ == decode_table(),
            ranges_within(ranges@, start as int, end as int),
            end <= chars.len(),
            pieces(chars@, ranges@) == tokens,
            segments@.len() == k,
            forall|index: int|
                0 <= index < k ==> (#[trigger] segments@[index])@ == decode_spec(tokens[index]),
        decreases ranges.len() - k,
    {
        let range = ranges[k];
        segments.push(decode_range(table, chars, range.0, range.1));
        k += 1;
    }
    proof {
        assert(segments.deep_view() =~~= tokens.map_values(|token: Seq<char>| decode_spec(token)));
    }
    segments
}

/// Decodes a whole mapping string into the table of absolute positions.
///
/// Semicolons separate lines and commas separate the segments of a line, so
/// the table has one line more than the string has semicolons, and a line has
/// one slot more than it has commas: an empty line has one empty slot.
pub fn parse(mappings: &str) -> (table: Mappings)
    ensures
        table.deep_view() == parse_spec(mappings@),
{
    let tables = create_lookup_tables();
    let chars = to_chars(mappings);
    let ranges = split_ranges(&chars, 0, chars.len(), SEMICOLON_CHAR);
    proof {
        assert(chars@.subrange(0, chars.len() as int) == mappings@);
    }
    let ghost lines = split(mappings@, SEMICOLON_CHAR);
    let mut vlqs: RawMappings = Vec::new();
    let mut l: usize = 0;
    while l < ranges.len()
        invariant
            l <= ranges.len(),
            tables.0@ == decode_table(),
            ranges_within(ranges@, 0, chars.len() as int),
            pieces(chars@, ranges@) == lines,
            vlqs@.len() == l,
            forall|index: int|
                0 <= index < l ==> (#[trigger] vlqs@[index]).deep_view() == line_segments(
                    lines[index],
                ),
        decreases ranges.len() - l,
    {
        let range = ranges[l];
        vlqs.push(decode_line(&tables.0, &chars, range.0, range.1));
        l += 1;
    }
    proof {
        assert(vlqs.deep_view() =~= raw_mappings(mappings@));
    }
    process(vlqs)
}

/// The empty mapping string decodes to one line with one slot, which holds
/// no entry.
pub proof fn lemma_parse_empty()
    ensures
        parse_spec(Seq::empty()) == seq![seq![None::<Entry>]],
{
    let empty = Seq::<char>::empty();
    assert(line_segments(empty) == seq![Seq::<i32>::empty()]);
    assert(parse_spec(empty) =~~= seq![seq![None::<Entry>]]);
}

} // verus!
