//! Decoding of one token of VLQ digits into signed integers.
//!
//! A token is a run of alphabet symbols. Each symbol is a digit of six bits:
//! five payload bits and, as bit 5, a flag that says whether the group goes on.
//! A group spells one quantity, least significant digit first, in a 32-bit
//! word: payload bits that would land beyond bit 31 are lost. Bit 0 of the
//! finished word is the sign; the rest, shifted right arithmetically, is the
//! magnitude.

use crate::alphabet::{create_lookup_tables, decode_table, symbol_code};
use crate::text::to_chars;
use crate::word::wrap32;
use std::collections::HashMap;
use vstd::arithmetic::div_mod::lemma_mul_mod_noop_general;
use vstd::arithmetic::power::{lemma_pow0, pow};
use vstd::prelude::*;

verus! {

broadcast use vstd::std_specs::hash::group_hash_axioms;

/// The five payload bits of a digit.
pub open spec fn payload(code: u8) -> int {
    code as int % 32
}

/// Whether the continuation flag of a digit, its bit 5, is set.
pub open spec fn continues(code: u8) -> bool {
    (code as int / 32) % 2 == 1
}

/// The values of the alphabet symbols in `token`, in order. Characters outside
/// the alphabet leave no trace.
pub open spec fn symbol_codes(token: Seq<char>) -> Seq<u8>
    decreases token.len(),
{
    if token.len() == 0 {
        Seq::empty()
    } else {
        let before = symbol_codes(token.drop_last());
        match symbol_code(token.last()) {
            Some(code) => before.push(code),
            None => before,
        }
    }
}

/// The quantity that the digits of a group spell, least significant first:
/// the sum of `payload(group[i]) * 32^i`.
pub open spec fn group_value(group: Seq<u8>) -> int
    decreases group.len(),
{
    if group.len() == 0 {
        0
    } else {
        group_value(group.drop_last()) + payload(group.last()) * pow(
            32,
            (group.len() - 1) as nat,
        )
    }
}

/// The signed integer that a finished quantity stands for. Bit 0 of its 32-bit
/// word is the sign and the word shifted right by one is the magnitude; a
/// negative zero stands for the most negative integer.
pub open spec fn signed_value(quantity: int) -> i32 {
    let word = wrap32(quantity) as int;
    let magnitude = word / 2;
    if word % 2 == 0 {
        magnitude as i32
    } else if magnitude == 0 {
        i32::MIN
    } else {
        (-magnitude) as i32
    }
}

/// The digits that follow the last finished group: the group still open at the
/// end of `codes`.
pub open spec fn open_group(codes: Seq<u8>) -> Seq<u8>
    decreases codes.len(),
{
    if codes.len() == 0 || !continues(codes.last()) {
        Seq::empty()
    } else {
        open_group(codes.drop_last()).push(codes.last())
    }
}

/// The integers of the finished groups of `codes`, in order. A group left open
/// at the end yields nothing.
pub open spec fn vlq_integers(codes: Seq<u8>) -> Seq<i32>
    decreases codes.len(),
{
    if codes.len() == 0 {
        Seq::empty()
    } else {
        let before = codes.drop_last();
        if continues(codes.last()) {
            vlq_integers(before)
        } else {
            vlq_integers(before).push(
                signed_value(group_value(open_group(before).push(codes.last()))),
            )
        }
    }
}

/// The integers that a token encodes.
pub open spec fn decode_spec(token: Seq<char>) -> Seq<i32> {
    vlq_integers(symbol_codes(token))
}

/// Whether `group` is one whole group: digits that continue, closed by one
/// that does not.
pub open spec fn is_whole_group(group: Seq<u8>) -> bool {
    &&& group.len() >= 1
    &&& !continues(group.last())
    &&& forall|i: int| 0 <= i < group.len() - 1 ==> continues(#[trigger] group[i])
}

/// The digits of `groups`, one group after the other.
pub open spec fn in_a_row(groups: Seq<Seq<u8>>) -> Seq<u8>
    decreases groups.len(),
{
    if groups.len() == 0 {
        Seq::empty()
    } else {
        in_a_row(groups.drop_last()) + groups.last()
    }
}

/// Turns the 32-bit word of a finished group into its signed integer.
fn finish_group(word: u32) -> (integer: i32)
    ensures
        integer == signed_value(word as int),
{
    proof {
        reveal(wrap32);
    }
    let half: u32 = word / 2;
    let magnitude: i32 = if word < 0x8000_0000 {
        half as i32
    } else {
        (half as i64 - 0x8000_0000) as i32
    };
    if word % 2 == 0 {
        magnitude
    } else if magnitude == 0 {
        i32::MIN
    } else {
        -magnitude
    }
}

/// Only the low 32 bits of a quantity bear on its signed integer.
proof fn lemma_signed_value_low_bits(quantity: int)
    ensures
        signed_value(quantity % 0x1_0000_0000) == signed_value(quantity),
{
    reveal(wrap32);
}

/// Adding a digit to a word that holds an open group modulo 2^32 gives the
/// grown group modulo 2^32, and the next digit's weight is 32 times the last.
proof fn lemma_push_digit(group: Seq<u8>, code: u8, word: u32, weight: u32)
    requires
        word == group_value(group) % 0x1_0000_0000,
        weight == pow(32, group.len()) % 0x1_0000_0000,
    ensures
        word.wrapping_add((payload(code) as u32).wrapping_mul(weight)) == group_value(
            group.push(code),
        ) % 0x1_0000_0000,
        weight.wrapping_mul(32) == pow(32, group.len() + 1) % 0x1_0000_0000,
{
    let m = 0x1_0000_0000int;
    let p = payload(code);
    let w = pow(32, group.len());
    assert(group.push(code).drop_last() == group);
    lemma_mul_mod_noop_general(p, w, m);
    assert(pow(32, group.len() + 1) == 32 * w) by {
        reveal(pow);
    }
    lemma_mul_mod_noop_general(w, 32, m);
}

/// Decodes the characters of `chars` from `start` up to `end` as one token.
pub fn decode_range(
    table: &HashMap<u32, u8>,
    chars: &Vec<char>,
    start: usize,
    end: usize,
) -> (integers: Vec<i32>)
    requires
        table@ == decode_table(),
        start <= end <= chars.len(),
    ensures
        integers@ == decode_spec(chars@.subrange(start as int, end as int)),
{
    let mut result: Vec<i32> = Vec::new();
    // The word of the open group, and the weight of its next digit: 32 to the
    // number of its digits so far, in 32 bits, which is zero from the eighth
    // digit on.
    let mut value: u32 = 0;
    let mut weight: u32 = 1;
    let mut i: usize = start;
    proof {
        lemma_pow0(32);
    }
    while i < end
        invariant
            start <= i <= end <= chars.len(),
            table@ == decode_table(),
            result@ == decode_spec(chars@.subrange(start as int, i as int)),
            value == group_value(open_group(symbol_codes(chars@.subrange(start as int, i as int))))
                % 0x1_0000_0000,
            weight == pow(
                32,
                open_group(symbol_codes(chars@.subrange(start as int, i as int))).len(),
            ) % 0x1_0000_0000,
        decreases end - i,
    {
        let c = chars[i];
        let key: u32 = c as u32;
        let ghost seen = symbol_codes(chars@.subrange(start as int, i as int));
        proof {
            assert(chars@.subrange(start as int, i + 1).drop_last() == chars@.subrange(
                start as int,
                i as int,
            ));
        }
        match table.get(&key) {
            Some(code) => {
                let code: u8 = *code;
                proof {
                    assert(code & 31 == code % 32) by (bit_vector);
                    assert((code & 32 != 0) == ((code / 32) % 2 == 1)) by (bit_vector);
                    lemma_push_digit(open_group(seen), code, value, weight);
                    lemma_signed_value_low_bits(group_value(open_group(seen).push(code)));
                    assert(seen.push(code).drop_last() == seen);
                }
                value = value.wrapping_add(((code & 31) as u32).wrapping_mul(weight));
                if code & 32 != 0 {
                    weight = weight.wrapping_mul(32);
                } else {
                    result.push(finish_group(value));
                    value = 0;
                    weight = 1;
                    proof {
                        lemma_pow0(32);
                    }
                }
            },
            None => {},
        }
        i += 1;
    }
    result
}

/// Decodes one token: a run of alphabet symbols, without separators, into the
/// integers that it encodes. Characters outside the alphabet are passed over,
/// and a group that the token's end cuts short is dropped.
pub fn decode(string: &str) -> (integers: Vec<i32>)
    ensures
        integers@ == decode_spec(string@),
{
    let tables = create_lookup_tables();
    let chars = to_chars(string);
    proof {
        assert(chars@.subrange(0, chars.len() as int) == string@);
    }
    decode_range(&tables.0, &chars, 0, chars.len())
}

/// A character outside the alphabet changes nothing: a token decodes as it
/// would with that character taken out.
pub proof fn lemma_decode_skips_foreign(token: Seq<char>, i: int)
    requires
        0 <= i < token.len(),
        symbol_code(token[i]) is None,
    ensures
        symbol_codes(token.remove(i)) == symbol_codes(token),
        decode_spec(token.remove(i)) == decode_spec(token),
    decreases token.len(),
{
    if i < token.len() - 1 {
        let shorter = token.drop_last();
        assert(token.remove(i).drop_last() == shorter.remove(i));
        lemma_decode_skips_foreign(shorter, i);
    }
}

/// The symbols of a token are read one by one: the values of two runs of
/// characters, one after the other, are the values of the first followed by
/// those of the second.
pub proof fn lemma_symbol_codes_concat(first: Seq<char>, second: Seq<char>)
    ensures
        symbol_codes(first + second) == symbol_codes(first) + symbol_codes(second),
    decreases second.len(),
{
    if second.len() == 0 {
        assert(first + second == first);
    } else {
        assert((first + second).drop_last() == first + second.drop_last());
        lemma_symbol_codes_concat(first, second.drop_last());
    }
}

/// The sign convention on quantities whose magnitude is below 2^30: an even
/// quantity stands for its half, an odd one for the negative of its half, and
/// the quantity one, a negative zero, for the most negative integer.
pub proof fn lemma_signed_value(magnitude: int)
    requires
        0 <= magnitude < 0x4000_0000,
    ensures
        signed_value(2 * magnitude) == magnitude,
        magnitude != 0 ==> signed_value(2 * magnitude + 1) == -magnitude,
        signed_value(1) == i32::MIN,
{
    reveal(wrap32);
}

/// Digits that all have the continuation flag set finish no group: they are
/// one open group.
pub proof fn lemma_open_group_of_continuing(codes: Seq<u8>)
    requires
        forall|i: int| 0 <= i < codes.len() ==> continues(#[trigger] codes[i]),
    ensures
        vlq_integers(codes) == Seq::<i32>::empty(),
        open_group(codes) == codes,
    decreases codes.len(),
{
    if codes.len() > 0 {
        lemma_open_group_of_continuing(codes.drop_last());
    }
}

/// One whole group yields the one integer that its quantity stands for.
pub proof fn lemma_vlq_integers_of_one_group(group: Seq<u8>)
    requires
        is_whole_group(group),
    ensures
        vlq_integers(group) == seq![signed_value(group_value(group))],
{
    let shorter = group.drop_last();
    lemma_open_group_of_continuing(shorter);
    assert(shorter.push(group.last()) == group);
}

/// Groups are decoded one by one: after digits that leave no group open, what
/// follows decodes as it would alone.
pub proof fn lemma_vlq_integers_concat(first: Seq<u8>, second: Seq<u8>)
    requires
        first.len() == 0 || !continues(first.last()),
    ensures
        vlq_integers(first + second) == vlq_integers(first) + vlq_integers(second),
        open_group(first + second) == open_group(second),
    decreases second.len(),
{
    if second.len() > 0 {
        assert((first + second).drop_last() == first + second.drop_last());
        lemma_vlq_integers_concat(first, second.drop_last());
    }
}

/// Whole groups in a row leave no group open.
proof fn lemma_ends_closed(groups: Seq<Seq<u8>>)
    requires
        forall|k: int| 0 <= k < groups.len() ==> is_whole_group(#[trigger] groups[k]),
    ensures
        in_a_row(groups).len() == 0 || !continues(in_a_row(groups).last()),
{
    if groups.len() > 0 {
        assert(is_whole_group(groups.last()));
    }
}

/// What a run of digits decodes to, group by group: whole groups in a row,
/// followed by digits that all continue, yield one integer for each whole
/// group, in order, and nothing for what follows them.
pub proof fn lemma_vlq_integers_of_groups(groups: Seq<Seq<u8>>, rest: Seq<u8>)
    requires
        forall|k: int| 0 <= k < groups.len() ==> is_whole_group(#[trigger] groups[k]),
        forall|i: int| 0 <= i < rest.len() ==> continues(#[trigger] rest[i]),
    ensures
        vlq_integers(in_a_row(groups) + rest) == groups.map_values(
            |group: Seq<u8>| signed_value(group_value(group)),
        ),
    decreases groups.len(),
{
    let integer = |group: Seq<u8>| signed_value(group_value(group));
    lemma_open_group_of_continuing(rest);
    if groups.len() == 0 {
        assert(in_a_row(groups) + rest == rest);
    } else {
        let before = in_a_row(groups.drop_last());
        let last = groups.last();
        lemma_vlq_integers_of_groups(groups.drop_last(), Seq::empty());
        assert(before + Seq::<u8>::empty() == before);
        lemma_vlq_integers_of_one_group(last);
        lemma_ends_closed(groups.drop_last());
        lemma_vlq_integers_concat(before, last);
        lemma_vlq_integers_concat(before + last, rest);
        assert(groups.drop_last().map_values(integer).push(integer(last)) == groups.map_values(
            integer,
        ));
    }
}

} // verus!
