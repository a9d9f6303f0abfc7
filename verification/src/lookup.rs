//! The position query: from a generated line and column to the source
//! position of the first entry at or after that column.
//!
//! Generated lines are counted from one, as are the source lines in answers;
//! columns are counted from zero on both sides.

use crate::mapping::{Entry, Mappings};
use crate::parser::{lemma_parse_empty, parse_spec};
use vstd::prelude::*;

verus! {

/// Whether a slot holds an entry whose generated column is at least `column`.
pub open spec fn reaches(slot: Option<Entry>, column: int) -> bool {
    slot matches Some(entry) && entry.0 >= column
}

/// Whether slot `k` reaches `column` and no slot before it does.
pub open spec fn is_first_reaching(
    slots: Seq<Option<Entry>>,
    column: int,
    k: int,
) -> bool {
    &&& 0 <= k < slots.len()
    &&& reaches(slots[k], column)
    &&& forall|j: int| 0 <= j < k ==> !reaches(#[trigger] slots[j], column)
}

/// The index of the first slot of `slots` that reaches `column`, or the number
/// of slots if none does.
pub open spec fn first_reaching(slots: Seq<Option<Entry>>, column: int) -> int
    decreases slots.len(),
{
    if slots.len() == 0 || reaches(slots[0], column) {
        0
    } else {
        1 + first_reaching(slots.skip(1), column)
    }
}

/// The `usize` in which the query hands out a stored number. A number that
/// is not negative stands for itself; a negative one wraps around the width
/// of `usize`, as a cast would have it.
pub open spec fn usize_of(n: int) -> usize {
    if n >= 0 {
        n as usize
    } else {
        (n + usize::MAX + 1) as usize
    }
}

/// The source position that an entry stands for: its source line, counted
/// from one, and its source column, counted from zero.
pub open spec fn source_position(entry: Entry) -> (usize, usize) {
    (usize_of(entry.2 + 1), usize_of(entry.3 as int))
}

/// The answer to a query: the source position of the first entry on the
/// one-based line `line` whose generated column is at least `column`, if the
/// table has that line and the line has such an entry.
pub open spec fn to_source_spec(
    table: Seq<Seq<Option<Entry>>>,
    line: int,
    column: int,
) -> Option<(usize, usize)> {
    if 1 <= line <= table.len() {
        let slots = table[line - 1];
        let found = first_reaching(slots, column);
        if found < slots.len() {
            Some(source_position(slots[found].unwrap()))
        } else {
            None
        }
    } else {
        None
    }
}

/// Turns a stored number into the `usize` that the query hands out.
fn to_usize(n: i64) -> (r: usize)
    requires
        i32::MIN <= n <= i32::MAX + 1,
    ensures
        r == usize_of(n as int),
{
    if n >= 0 {
        n as usize
    } else {
        usize::MAX - ((-(n + 1)) as usize)
    }
}

/// Looks up the source position for a generated position.
///
/// `line` counts from one. The slots of that line are searched in stored
/// order for the first entry whose generated column is at least `column`; its
/// source line, counted from one, and its source column are returned. The
/// answer is `None` when the table has no such line, line zero included, or
/// the line no such entry. An entry with a negative generated column is at
/// least no column, so it is never the answer.
pub fn to_source(mappings: &Mappings, line: usize, column: usize) -> (result: Option<
    (usize, usize),
>)
    ensures
        result == to_source_spec(mappings.deep_view(), line as int, column as int),
        line == 0 || line > mappings.len() ==> result is None,
        1 <= line <= mappings.len() && (forall|k: int|
            0 <= k < mappings[line - 1].len() ==> !reaches(
                #[trigger] mappings[line - 1]@[k],
                column as int,
            )) ==> result is None,
        result is Some ==> 1 <= line <= mappings.len() && exists|k: int|
            #[trigger] is_first_reaching(mappings[line - 1]@, column as int, k) && result == Some(
                source_position(mappings[line - 1]@[k].unwrap()),
            ),
{
    if line == 0 || line > mappings.len() {
        return None;
    }
    let line_mappings = &mappings[line - 1];
    let ghost slots = mappings.deep_view()[line - 1];
    let mut k: usize = 0;
    while k < line_mappings.len()
        invariant
            k <= line_mappings.len(),
            1 <= line <= mappings.len(),
            slots == mappings.deep_view()[line - 1],
            slots == line_mappings@,
            line_mappings@ == mappings[line - 1]@,
            forall|j: int| 0 <= j < k ==> !reaches(#[trigger] slots[j], column as int),
        decreases line_mappings.len() - k,
    {
        match line_mappings[k] {
            Some((gen_col, _, src_line, src_col)) => {
                if gen_col >= 0 && gen_col as usize >= column {
                    proof {
                        lemma_first_reaching_unique(slots, column as int, k as int);
                        assert(is_first_reaching(mappings[line - 1]@, column as int, k as int));
                    }
                    return Some((to_usize(src_line as i64 + 1), to_usize(src_col as i64)));
                }
            },
            None => {},
        }
        k += 1;
    }
    proof {
        lemma_first_reaching_unique(slots, column as int, k as int);
    }
    None
}

/// The first slot that reaches `column` is the only index with a slot that
/// reaches and none before it that does; where no slot reaches, the number of
/// slots stands in its place.
pub proof fn lemma_first_reaching_unique(slots: Seq<Option<Entry>>, column: int, k: int)
    requires
        0 <= k <= slots.len(),
        forall|j: int| 0 <= j < k ==> !reaches(#[trigger] slots[j], column),
        k < slots.len() ==> reaches(slots[k], column),
    ensures
        first_reaching(slots, column) == k,
    decreases slots.len(),
{
    if slots.len() > 0 && k > 0 {
        lemma_first_reaching_unique(slots.skip(1), column, k - 1);
    }
}

/// What `first_reaching` finds: an index within bounds or the number of
/// slots, with no slot before it that reaches `column`, and, where it is an
/// index, a slot that does.
pub proof fn lemma_first_reaching_found(slots: Seq<Option<Entry>>, column: int)
    ensures
        0 <= first_reaching(slots, column) <= slots.len(),
        forall|j: int|
            0 <= j < first_reaching(slots, column) ==> !reaches(#[trigger] slots[j], column),
        first_reaching(slots, column) < slots.len() ==> reaches(
            slots[first_reaching(slots, column)],
            column,
        ),
    decreases slots.len(),
{
    if slots.len() > 0 && !reaches(slots[0], column) {
        let rest = slots.skip(1);
        lemma_first_reaching_found(rest, column);
        assert forall|j: int| 0 <= j < first_reaching(slots, column) implies !reaches(
            #[trigger] slots[j],
            column,
        ) by {
            if j > 0 {
                assert(slots[j] == rest[j - 1]);
            }
        }
    }
}

/// Queries in increasing column order find entries in non-decreasing order of
/// generated column: if the query for `upper` finds an entry, so does the
/// query for any `lower <= upper`, no later in the line and with a generated
/// column that is not greater. This holds of every line, sorted or not.
pub proof fn lemma_lookup_monotone(
    slots: Seq<Option<Entry>>,
    lower: int,
    upper: int,
)
    requires
        lower <= upper,
        first_reaching(slots, upper) < slots.len(),
    ensures
        first_reaching(slots, lower) <= first_reaching(slots, upper),
        slots[first_reaching(slots, lower)] is Some,
        slots[first_reaching(slots, upper)] is Some,
        slots[first_reaching(slots, lower)].unwrap().0 <= slots[first_reaching(
            slots,
            upper,
        )].unwrap().0,
{
    lemma_first_reaching_found(slots, lower);
    lemma_first_reaching_found(slots, upper);
}

/// Against the table of the empty mapping string every query is answered
/// with `None`.
pub proof fn lemma_empty_input_has_no_answer(line: int, column: int)
    ensures
        to_source_spec(parse_spec(Seq::empty()), line, column) is None,
{
    lemma_parse_empty();
    let slots = seq![None::<Entry>];
    lemma_first_reaching_unique(slots, column, 1);
}

} // verus!
