//! From decoded segments to the table of absolute positions.
//!
//! Every decoded field is a delta. The generated column adds up along one
//! line and starts again at zero on the next; the source file index, source
//! line and source column add up over the whole input and are never reset.
//! All four sums are kept in 32-bit words and wrap around.

use crate::word::{add_wrapping, lemma_wrap32_add, lemma_wrap32_fits, wrap32};
use vstd::prelude::*;

verus! {

/// A mapping entry: generated column, source file index, source line and
/// source column, all counted from zero.
pub type Entry = (i32, i32, i32, i32);

/// Decoded segments: for each line, for each segment, its integers.
pub type RawMappings = Vec<Vec<Vec<i32>>>;

/// The table: for each line, for each segment, its entry if it has one.
pub type Mappings = Vec<Vec<Option<Entry>>>;

/// What a segment adds to the running total of `field`: its integer at that
/// place if it has exactly four, and nothing otherwise.
pub open spec fn delta(segment: Seq<i32>, field: int) -> int {
    if segment.len() == 4 {
        segment[field] as int
    } else {
        0
    }
}

/// The sum of the deltas of `field` over the segments of a line.
pub open spec fn line_total(line: Seq<Seq<i32>>, field: int) -> int
    decreases line.len(),
{
    if line.len() == 0 {
        0
    } else {
        line_total(line.drop_last(), field) + delta(line.last(), field)
    }
}

/// The sum of the deltas of `field` over all segments of `lines`.
pub open spec fn lines_total(lines: Seq<Seq<Seq<i32>>>, field: int) -> int
    decreases lines.len(),
{
    if lines.len() == 0 {
        0
    } else {
        lines_total(lines.drop_last(), field) + line_total(lines.last(), field)
    }
}

/// The entry of segment `index` on line `line`. A segment of four integers has
/// one: its generated column sums the deltas of its own line up to and
/// including itself; its three source fields sum the deltas of every segment
/// from the start of the input up to and including itself. A segment of any
/// other length has none.
pub open spec fn entry_at(raw: Seq<Seq<Seq<i32>>>, line: int, index: int) -> Option<Entry> {
    if raw[line][index].len() == 4 {
        let here = raw[line].take(index + 1);
        let earlier = raw.take(line);
        Some(
            (
                wrap32(line_total(here, 0)),
                wrap32(lines_total(earlier, 1) + line_total(here, 1)),
                wrap32(lines_total(earlier, 2) + line_total(here, 2)),
                wrap32(lines_total(earlier, 3) + line_total(here, 3)),
            ),
        )
    } else {
        None
    }
}

/// The table of decoded segments: one line per line, one slot per segment.
pub open spec fn process_spec(raw: Seq<Seq<Seq<i32>>>) -> Seq<Seq<Option<Entry>>> {
    Seq::new(
        raw.len(),
        |line: int| Seq::new(raw[line].len(), |index: int| entry_at(raw, line, index)),
    )
}

/// The entry of segment `index` of a line when the three source totals stand
/// at `carried` where the line begins.
spec fn line_entry(line: Seq<Seq<i32>>, carried: (i32, i32, i32), index: int) -> Option<Entry> {
    if line[index].len() == 4 {
        let here = line.take(index + 1);
        Some(
            (
                wrap32(line_total(here, 0)),
                wrap32(carried.0 + line_total(here, 1)),
                wrap32(carried.1 + line_total(here, 2)),
                wrap32(carried.2 + line_total(here, 3)),
            ),
        )
    } else {
        None
    }
}

/// Accumulates the segments of one line. The generated column starts at zero;
/// the three source totals start at `carried` and are handed back as they
/// stand after the line.
fn process_line(line: &Vec<Vec<i32>>, carried: (i32, i32, i32)) -> (out: (
    Vec<Option<Entry>>,
    (i32, i32, i32),
))
    ensures
        out.0@.len() == line@.len(),
        forall|index: int|
            0 <= index < line@.len() ==> #[trigger] out.0@[index] == line_entry(
                line.deep_view(),
                carried,
                index,
            ),
        out.1.0 == wrap32(carried.0 + line_total(line.deep_view(), 1)),
        out.1.1 == wrap32(carried.1 + line_total(line.deep_view(), 2)),
        out.1.2 == wrap32(carried.2 + line_total(line.deep_view(), 3)),
{
    let ghost segments = line.deep_view();
    proof {
        lemma_wrap32_fits(0);
        lemma_wrap32_fits(carried.0 as int);
        lemma_wrap32_fits(carried.1 as int);
        lemma_wrap32_fits(carried.2 as int);
    }
    let mut generated_code_column: i32 = 0;
    let mut source_file_index: i32 = carried.0;
    let mut source_code_line: i32 = carried.1;
    let mut source_code_column: i32 = carried.2;
    let mut entries: Vec<Option<Entry>> = Vec::new();
    let mut k: usize = 0;
    while k < line.len()
        invariant
            k <= line.len(),
            segments == line.deep_view(),
            entries@.len() == k,
            forall|index: int|
                0 <= index < k ==> #[trigger] entries@[index] == line_entry(
                    segments,
                    carried,
                    index,
                ),
            generated_code_column == wrap32(line_total(segments.take(k as int), 0)),
            source_file_index == wrap32(carried.0 + line_total(segments.take(k as int), 1)),
            source_code_line == wrap32(carried.1 + line_total(segments.take(k as int), 2)),
            source_code_column == wrap32(carried.2 + line_total(segments.take(k as int), 3)),
        decreases line.len() - k,
    {
        let segment = &line[k];
        proof {
            assert(segments.take(k + 1).drop_last() == segments.take(k as int));
        }
        let entry = if segment.len() == 4 {
            proof {
                let seen = segments.take(k as int);
                lemma_wrap32_add(line_total(seen, 0), segment[0] as int);
                lemma_wrap32_add(carried.0 + line_total(seen, 1), segment[1] as int);
                lemma_wrap32_add(carried.1 + line_total(seen, 2), segment[2] as int);
                lemma_wrap32_add(carried.2 + line_total(seen, 3), segment[3] as int);
            }
            generated_code_column = add_wrapping(generated_code_column, segment[0]);
            source_file_index = add_wrapping(source_file_index, segment[1]);
            source_code_line = add_wrapping(source_code_line, segment[2]);
            source_code_column = add_wrapping(source_code_column, segment[3]);
            Some((generated_code_column, source_file_index, source_code_line, source_code_column))
        } else {
            None
        };
        entries.push(entry);
        k += 1;
    }
    proof {
        assert(segments.take(k as int) == segments);
    }
    (entries, (source_file_index, source_code_line, source_code_column))
}

/// Accumulates decoded segments into the table of absolute positions.
///
/// A segment of four integers gives an entry; a segment of any other length,
/// the empty one included, gives an empty slot and changes no total.
pub fn process(decoded: RawMappings) -> (mappings: Mappings)
    ensures
        mappings.deep_view() == process_spec(decoded.deep_view()),
{
    let ghost raw = decoded.deep_view();
    let mut carried: (i32, i32, i32) = (0, 0, 0);
    proof {
        lemma_wrap32_fits(0);
    }
    let mut mappings: Mappings = Vec::new();
    let mut l: usize = 0;
    while l < decoded.len()
        invariant
            l <= decoded.len(),
            raw == decoded.deep_view(),
            mappings@.len() == l,
            forall|line: int|
                0 <= line < l ==> (#[trigger] mappings@[line])@ == process_spec(raw)[line],
            carried.0 == wrap32(lines_total(raw.take(l as int), 1)),
            carried.1 == wrap32(lines_total(raw.take(l as int), 2)),
            carried.2 == wrap32(lines_total(raw.take(l as int), 3)),
        decreases decoded.len() - l,
    {
        let out = process_line(&decoded[l], carried);
        proof {
            let earlier = raw.take(l as int);
            let this = raw[l as int];
            assert(raw.take(l + 1).drop_last() == earlier);
            assert forall|index: int| 0 <= index < out.0@.len() implies out.0@[index] == entry_at(
                raw,
                l as int,
                index,
            ) by {
                let here = this.take(index + 1);
                lemma_wrap32_add(lines_total(earlier, 1), line_total(here, 1));
                lemma_wrap32_add(lines_total(earlier, 2), line_total(here, 2));
                lemma_wrap32_add(lines_total(earlier, 3), line_total(here, 3));
            }
            lemma_wrap32_add(lines_total(earlier, 1), line_total(this, 1));
            lemma_wrap32_add(lines_total(earlier, 2), line_total(this, 2));
            lemma_wrap32_add(lines_total(earlier, 3), line_total(this, 3));
        }
        mappings.push(out.0);
        carried = out.1;
        l += 1;
    }
    proof {
        assert(mappings.deep_view() =~~= process_spec(raw));
    }
    mappings
}

/// A line without a segment of four integers adds nothing to any total.
pub proof fn lemma_line_without_entries_adds_nothing(line: Seq<Seq<i32>>, field: int)
    requires
        forall|k: int| 0 <= k < line.len() ==> (#[trigger] line[k]).len() != 4,
    ensures
        line_total(line, field) == 0,
    decreases line.len(),
{
    if line.len() > 0 {
        lemma_line_without_entries_adds_nothing(line.drop_last(), field);
    }
}

/// Taking out a line that adds nothing to a total leaves the total as it was.
proof fn lemma_lines_total_remove(lines: Seq<Seq<Seq<i32>>>, at: int, field: int)
    requires
        0 <= at < lines.len(),
        line_total(lines[at], field) == 0,
    ensures
        lines_total(lines.remove(at), field) == lines_total(lines, field),
    decreases lines.len(),
{
    if at < lines.len() - 1 {
        let shorter = lines.drop_last();
        assert(lines.remove(at).drop_last() == shorter.remove(at));
        lemma_lines_total_remove(shorter, at, field);
    }
}

/// Where no delta of `field` on a line is negative, the total of a shorter
/// prefix of the line is at most that of a longer one.
proof fn lemma_line_total_grows(line: Seq<Seq<i32>>, field: int, shorter: int, longer: int)
    requires
        0 <= shorter <= longer <= line.len(),
        forall|k: int| 0 <= k < line.len() ==> delta(#[trigger] line[k], field) >= 0,
    ensures
        0 <= line_total(line.take(shorter), field) <= line_total(line.take(longer), field),
    decreases longer,
{
    if longer > 0 {
        assert(line.take(longer).drop_last() == line.take(longer - 1));
        if shorter == longer {
            lemma_line_total_grows(line, field, shorter - 1, longer - 1);
        } else {
            lemma_line_total_grows(line, field, shorter, longer - 1);
        }
    }
}

/// The generated columns of a line depend on the segments of that line
/// alone: two lines with the same segments, wherever they stand and whatever
/// stands before them, have entries in the same slots with the same generated
/// columns.
pub proof fn lemma_generated_column_is_line_local(
    a: Seq<Seq<Seq<i32>>>,
    i: int,
    b: Seq<Seq<Seq<i32>>>,
    j: int,
    index: int,
)
    requires
        0 <= i < a.len(),
        0 <= j < b.len(),
        a[i] == b[j],
        0 <= index < a[i].len(),
    ensures
        process_spec(a)[i][index] is Some <==> process_spec(b)[j][index] is Some,
        process_spec(a)[i][index] is Some ==> process_spec(a)[i][index].unwrap().0
            == process_spec(b)[j][index].unwrap().0,
{
}

/// The first entry of a line has the generated column that its own segment
/// states: nothing is carried into a line.
pub proof fn lemma_first_entry_generated_column(raw: Seq<Seq<Seq<i32>>>, line: int, index: int)
    requires
        0 <= line < raw.len(),
        0 <= index < raw[line].len(),
        raw[line][index].len() == 4,
        forall|k: int| 0 <= k < index ==> (#[trigger] raw[line][k]).len() != 4,
    ensures
        process_spec(raw)[line][index] is Some,
        process_spec(raw)[line][index].unwrap().0 == raw[line][index][0],
{
    let here = raw[line].take(index + 1);
    lemma_line_without_entries_adds_nothing(here.drop_last(), 0);
    lemma_wrap32_fits(raw[line][index][0] as int);
}

/// The three source totals are carried across a line without entries: taking
/// such a line out of the input takes its line out of the table and changes
/// no entry of any other line.
pub proof fn lemma_line_without_entries_carries(raw: Seq<Seq<Seq<i32>>>, line: int)
    requires
        0 <= line < raw.len(),
        forall|k: int| 0 <= k < raw[line].len() ==> (#[trigger] raw[line][k]).len() != 4,
    ensures
        process_spec(raw.remove(line)) == process_spec(raw).remove(line),
{
    let less = raw.remove(line);
    assert forall|l: int, index: int|
        0 <= l < less.len() && 0 <= index < less[l].len() implies (#[trigger] process_spec(
        less,
    )[l][index]) == process_spec(raw).remove(line)[l][index] by {
        if l < line {
            assert(less.take(l) == raw.take(l));
        } else {
            assert(less.take(l) == raw.take(l + 1).remove(line));
            lemma_line_without_entries_adds_nothing(raw[line], 1);
            lemma_line_without_entries_adds_nothing(raw[line], 2);
            lemma_line_without_entries_adds_nothing(raw[line], 3);
            lemma_lines_total_remove(raw.take(l + 1), line, 1);
            lemma_lines_total_remove(raw.take(l + 1), line, 2);
            lemma_lines_total_remove(raw.take(l + 1), line, 3);
        }
    }
    assert(process_spec(less) =~~= process_spec(raw).remove(line));
}

/// On a line where no generated-column delta is negative and their sum fits
/// a 32-bit word, generated columns never decrease from one entry to the next.
pub proof fn lemma_generated_columns_ascend(raw: Seq<Seq<Seq<i32>>>, line: int, i: int, j: int)
    requires
        0 <= line < raw.len(),
        0 <= i <= j < raw[line].len(),
        raw[line][i].len() == 4,
        raw[line][j].len() == 4,
        forall|k: int| 0 <= k < raw[line].len() ==> delta(#[trigger] raw[line][k], 0) >= 0,
        line_total(raw[line], 0) <= i32::MAX,
    ensures
        process_spec(raw)[line][i] is Some,
        process_spec(raw)[line][j] is Some,
        process_spec(raw)[line][i].unwrap().0 <= process_spec(raw)[line][j].unwrap().0,
{
    let segments = raw[line];
    lemma_line_total_grows(segments, 0, i + 1, j + 1);
    lemma_line_total_grows(segments, 0, j + 1, segments.len() as int);
    assert(segments.take(segments.len() as int) == segments);
    lemma_wrap32_fits(line_total(segments.take(i + 1), 0));
    lemma_wrap32_fits(line_total(segments.take(j + 1), 0));
}

} // verus!
