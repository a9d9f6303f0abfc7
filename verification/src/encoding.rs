//! The encoding that decoding undoes, stated as a specification only: the
//! library has no encoder. It is here to say what tokens the decoder is meant
//! for, and to show that it reads them back.

use crate::alphabet::{alphabet, lemma_symbol_code_is_position};
use crate::vlq::{
    decode_spec, group_value, in_a_row, is_whole_group, lemma_signed_value,
    lemma_vlq_integers_of_groups, payload, signed_value, symbol_codes,
};
use vstd::arithmetic::power::pow;
use vstd::prelude::*;

verus! {

/// The quantity that stands for an integer: twice its magnitude, plus one if
/// it is negative. The most negative integer is written as a negative zero.
pub open spec fn quantity_of(integer: i32) -> nat {
    if integer == i32::MIN {
        1
    } else if integer < 0 {
        (2 * -integer + 1) as nat
    } else {
        (2 * integer) as nat
    }
}

/// The digits that spell a quantity, least significant first: five bits a
/// digit, and the continuation flag on every digit but the last.
pub open spec fn digits_of(quantity: nat) -> Seq<u8>
    decreases quantity,
{
    if quantity < 32 {
        seq![quantity as u8]
    } else {
        seq![(quantity % 32 + 32) as u8] + digits_of(quantity / 32)
    }
}

/// The symbols that stand for digits: each digit's symbol is the one at its
/// position in the alphabet.
pub open spec fn symbols_of(digits: Seq<u8>) -> Seq<char> {
    digits.map_values(|digit: u8| alphabet()[digit as int])
}

/// The groups of digits that spell `integers`, one group for each.
pub open spec fn groups_of(integers: Seq<i32>) -> Seq<Seq<u8>> {
    integers.map_values(|integer: i32| digits_of(quantity_of(integer)))
}

/// The token that encodes `integers`: the digits of each integer's quantity,
/// one group after the other, written in the alphabet.
pub open spec fn encode_spec(integers: Seq<i32>) -> Seq<char> {
    symbols_of(in_a_row(groups_of(integers)))
}

/// Whether every digit is the value of a symbol that carries payload: below 64.
pub open spec fn below_64(digits: Seq<u8>) -> bool {
    forall|i: int| 0 <= i < digits.len() ==> #[trigger] digits[i] < 64
}

/// Whether the decoder reads an integer back from its encoding: its
/// magnitude is below 2^30, or it is the most negative integer.
pub open spec fn reads_back(integer: i32) -> bool {
    -0x4000_0000 < integer < 0x4000_0000 || integer == i32::MIN
}

/// A digit put in front of a group counts once, and the group after it
/// counts 32 times as much.
proof fn lemma_group_value_shift(digit: u8, group: Seq<u8>)
    ensures
        group_value(seq![digit] + group) == payload(digit) + 32 * group_value(group),
    decreases group.len(),
{
    let whole = seq![digit] + group;
    if group.len() == 0 {
        assert(pow(32, 0) == 1) by {
            reveal(pow);
        }
        assert(group_value(whole.drop_last()) == 0);
    } else {
        let shorter = group.drop_last();
        assert(whole.drop_last() == seq![digit] + shorter);
        lemma_group_value_shift(digit, shorter);
        let last = payload(group.last());
        let weight = pow(32, (group.len() - 1) as nat);
        assert(pow(32, group.len()) == 32 * weight) by {
            reveal(pow);
        }
        assert(last * (32 * weight) == 32 * (last * weight)) by (nonlinear_arith);
    }
}

/// The digits of a quantity are one whole group that spells the quantity.
pub proof fn lemma_digits_of(quantity: nat)
    ensures
        is_whole_group(digits_of(quantity)),
        group_value(digits_of(quantity)) == quantity,
        below_64(digits_of(quantity)),
    decreases quantity,
{
    if quantity < 32 {
        assert(group_value(digits_of(quantity).drop_last()) == 0);
        assert(pow(32, 0) == 1) by {
            reveal(pow);
        }
    } else {
        lemma_digits_of(quantity / 32);
        lemma_group_value_shift((quantity % 32 + 32) as u8, digits_of(quantity / 32));
    }
}

/// Digits below 64, written in the alphabet, are read back as they were.
pub proof fn lemma_symbols_read_back(digits: Seq<u8>)
    requires
        below_64(digits),
    ensures
        symbol_codes(symbols_of(digits)) == digits,
    decreases digits.len(),
{
    if digits.len() > 0 {
        let shorter = digits.drop_last();
        lemma_symbols_read_back(shorter);
        lemma_symbol_code_is_position(digits.last() as int);
        assert(symbols_of(digits).drop_last() == symbols_of(shorter));
    }
}

/// Every digit of an encoding is below 64.
proof fn lemma_encoding_below_64(integers: Seq<i32>)
    ensures
        below_64(in_a_row(groups_of(integers))),
    decreases integers.len(),
{
    if integers.len() > 0 {
        let fewer = integers.drop_last();
        lemma_encoding_below_64(fewer);
        lemma_digits_of(quantity_of(integers.last()));
        assert(groups_of(integers).drop_last() == groups_of(fewer));
    }
}

/// Decoding undoes encoding: the token that encodes a list of integers
/// decodes to that list, zero, negative integers and the most negative one
/// included, as long as every magnitude but that one's is below 2^30.
pub proof fn lemma_decode_undoes_encode(integers: Seq<i32>)
    requires
        forall|k: int| 0 <= k < integers.len() ==> reads_back(#[trigger] integers[k]),
    ensures
        decode_spec(encode_spec(integers)) == integers,
{
    let groups = groups_of(integers);
    let digits = in_a_row(groups);
    assert forall|k: int| 0 <= k < groups.len() implies is_whole_group(#[trigger] groups[k]) by {
        lemma_digits_of(quantity_of(integers[k]));
    }
    lemma_encoding_below_64(integers);
    lemma_symbols_read_back(digits);
    lemma_vlq_integers_of_groups(groups, Seq::empty());
    let read = groups.map_values(|group: Seq<u8>| signed_value(group_value(group)));
    assert forall|k: int| 0 <= k < integers.len() implies read[k] == integers[k] by {
        let integer = integers[k];
        lemma_digits_of(quantity_of(integer));
        if integer == i32::MIN {
            lemma_signed_value(0);
        } else if integer < 0 {
            lemma_signed_value(-integer as int);
        } else {
            lemma_signed_value(integer as int);
        }
    }
}

} // verus!
