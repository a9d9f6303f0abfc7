//! The fixed 65-symbol alphabet in which VLQ digits are written.

use std::collections::HashMap;
use vstd::prelude::*;

verus! {

broadcast use vstd::std_specs::hash::group_hash_axioms;

/// Separates the segments of one line.
pub const COMMA_CHAR: char = ',';

/// Filler for table slots that have not been assigned yet.
pub const SPACE_CHAR: char = ' ';

/// Separates the lines of a mapping string.
pub const SEMICOLON_CHAR: char = ';';

/// The alphabet: a symbol's position in this string is its value.
pub const VLQ_TABLE: &'static str =
    "ABCDEFGHIJKLMNOPQRSTUVWXYZabcdefghijklmnopqrstuvwxyz0123456789+/=";

/// The alphabet as a sequence of symbols.
pub open spec fn alphabet() -> Seq<char> {
    VLQ_TABLE@
}

/// The scalar values of the alphabet's symbols, in order.
pub open spec fn alphabet_scalars() -> Seq<u32> {
    alphabet().map_values(|c: char| c as u32)
}

/// The map that sends each of `scalars` to its position; of two equal ones the
/// later position stays.
pub open spec fn position_table(scalars: Seq<u32>) -> Map<u32, u8>
    decreases scalars.len(),
{
    if scalars.len() == 0 {
        Map::empty()
    } else {
        position_table(scalars.drop_last()).insert(scalars.last(), (scalars.len() - 1) as u8)
    }
}

/// The symbol-to-value table of the alphabet, keyed by scalar value.
pub open spec fn decode_table() -> Map<u32, u8> {
    position_table(alphabet_scalars())
}

/// The value of `c` if it is a symbol of the alphabet.
pub open spec fn symbol_code(c: char) -> Option<u8> {
    if decode_table().contains_key(c as u32) {
        Some(decode_table()[c as u32])
    } else {
        None
    }
}

/// The value of `c` written out by ranges: `A`-`Z` are 0 to 25, `a`-`z` are 26
/// to 51, `0`-`9` are 52 to 61, and `+`, `/`, `=` are 62, 63 and 64.
pub open spec fn code_by_range(c: char) -> Option<u8> {
    if 'A' <= c <= 'Z' {
        Some((c as int - 'A' as int) as u8)
    } else if 'a' <= c <= 'z' {
        Some((c as int - 'a' as int + 26) as u8)
    } else if '0' <= c <= '9' {
        Some((c as int - '0' as int + 52) as u8)
    } else if c == '+' {
        Some(62u8)
    } else if c == '/' {
        Some(63u8)
    } else if c == '=' {
        Some(64u8)
    } else {
        None
    }
}

/// Builds both lookup tables of the alphabet: from a symbol's scalar value to
/// its value, and from a value to its symbol.
pub fn create_lookup_tables() -> (tables: (HashMap<u32, u8>, Vec<char>))
    ensures
        tables.0@ == decode_table(),
        tables.1@ == alphabet(),
{
    proof {
        reveal_strlit("ABCDEFGHIJKLMNOPQRSTUVWXYZabcdefghijklmnopqrstuvwxyz0123456789+/=");
    }
    let mut char_to_integer: HashMap<u32, u8> = HashMap::new();
    let mut integer_to_char: Vec<char> = vec![SPACE_CHAR; 65];
    let mut i: u8 = 0;
    for c in it: VLQ_TABLE.chars()
        invariant
            it.seq() == alphabet(),
            alphabet().len() == 65,
            i == it.index(),
            char_to_integer@ == position_table(alphabet_scalars().take(i as int)),
            integer_to_char@.len() == 65,
            integer_to_char@.take(i as int) == alphabet().take(i as int),
    {
        proof {
            let grown = alphabet_scalars().take(i + 1);
            assert(grown.drop_last() == alphabet_scalars().take(i as int));
        }
        char_to_integer.insert(c as u32, i);
        integer_to_char.set(i as usize, c);
        i += 1;
    }
    proof {
        assert(alphabet_scalars().take(65) == alphabet_scalars());
        assert(integer_to_char@.take(65) == integer_to_char@);
    }
    (char_to_integer, integer_to_char)
}

/// The scalar value of the symbol at `position`, by ranges.
spec fn scalar_at(position: int) -> int {
    if position < 26 {
        'A' as int + position
    } else if position < 52 {
        'a' as int + position - 26
    } else if position < 62 {
        '0' as int + position - 52
    } else if position == 62 {
        '+' as int
    } else if position == 63 {
        '/' as int
    } else {
        '=' as int
    }
}

/// A scalar value that does not occur again later in `scalars` is mapped to
/// its position.
proof fn lemma_position_table_holds(scalars: Seq<u32>, i: int)
    requires
        0 <= i < scalars.len() <= 256,
        forall|j: int| i < j < scalars.len() ==> scalars[j] != scalars[i],
    ensures
        position_table(scalars).contains_key(scalars[i]),
        position_table(scalars)[scalars[i]] == i,
    decreases scalars.len(),
{
    if i < scalars.len() - 1 {
        lemma_position_table_holds(scalars.drop_last(), i);
    }
}

/// A scalar value that is none of `scalars` is not a key of their position table.
proof fn lemma_position_table_lacks(scalars: Seq<u32>, key: u32)
    requires
        forall|j: int| 0 <= j < scalars.len() ==> scalars[j] != key,
    ensures
        !position_table(scalars).contains_key(key),
    decreases scalars.len(),
{
    if scalars.len() > 0 {
        lemma_position_table_lacks(scalars.drop_last(), key);
    }
}

/// The alphabet's scalar values, position by position.
proof fn lemma_alphabet_scalars()
    ensures
        alphabet().len() == 65,
        alphabet_scalars().len() == 65,
        forall|i: int| 0 <= i < 65 ==> #[trigger] alphabet_scalars()[i] == scalar_at(i),
{
    reveal_strlit("ABCDEFGHIJKLMNOPQRSTUVWXYZabcdefghijklmnopqrstuvwxyz0123456789+/=");
}

/// The alphabet has 65 symbols, no two of them equal, and the value of each
/// is its position.
pub proof fn lemma_symbol_code_is_position(position: int)
    requires
        0 <= position < 65,
    ensures
        alphabet().len() == 65,
        alphabet().no_duplicates(),
        symbol_code(alphabet()[position]) == Some(position as u8),
{
    lemma_alphabet_scalars();
    let a = alphabet_scalars();
    lemma_position_table_holds(a, position);
    assert forall|i: int, j: int| 0 <= i < 65 && 0 <= j < 65 && i != j implies alphabet()[i]
        != alphabet()[j] by {
        assert(a[i] == alphabet()[i] as u32);
        assert(a[j] == alphabet()[j] as u32);
    }
}

/// The value of a symbol, which is its position in the alphabet, agrees with
/// the ranges of the alphabet; what lies in none of the ranges has no value.
pub proof fn lemma_symbol_code(c: char)
    ensures
        symbol_code(c) == code_by_range(c),
{
    lemma_alphabet_scalars();
    let a = alphabet_scalars();
    match code_by_range(c) {
        Some(v) => {
            lemma_position_table_holds(a, v as int);
        },
        None => {
            lemma_position_table_lacks(a, c as u32);
        },
    }
}

} // verus!
