use source_mappings::alphabet::{create_lookup_tables, VLQ_TABLE};
use source_mappings::decode;
use source_mappings::text::{split_ranges, to_chars};
use source_mappings::vlq::decode_range;

#[test]
fn lookup_tables_follow_the_alphabet() {
    let (char_to_integer, integer_to_char) = create_lookup_tables();
    assert_eq!(char_to_integer.len(), 65);
    assert_eq!(integer_to_char.len(), 65);
    for (i, c) in VLQ_TABLE.chars().enumerate() {
        assert_eq!(char_to_integer.get(&(c as u32)), Some(&(i as u8)));
        assert_eq!(integer_to_char[i], c);
    }
    assert_eq!(char_to_integer.get(&('A' as u32)), Some(&0));
    assert_eq!(char_to_integer.get(&('Z' as u32)), Some(&25));
    assert_eq!(char_to_integer.get(&('a' as u32)), Some(&26));
    assert_eq!(char_to_integer.get(&('z' as u32)), Some(&51));
    assert_eq!(char_to_integer.get(&('0' as u32)), Some(&52));
    assert_eq!(char_to_integer.get(&('9' as u32)), Some(&61));
    assert_eq!(char_to_integer.get(&('+' as u32)), Some(&62));
    assert_eq!(char_to_integer.get(&('/' as u32)), Some(&63));
    assert_eq!(char_to_integer.get(&('=' as u32)), Some(&64));
    assert_eq!(char_to_integer.get(&(' ' as u32)), None);
    assert_eq!(char_to_integer.get(&(',' as u32)), None);
    assert_eq!(char_to_integer.get(&(';' as u32)), None);
}

#[test]
fn decode_single_digits() {
    assert_eq!(decode("A"), vec![0]);
    assert_eq!(decode("C"), vec![1]);
    assert_eq!(decode("D"), vec![-1]);
    assert_eq!(decode("E"), vec![2]);
    assert_eq!(decode("F"), vec![-2]);
    assert_eq!(decode("e"), vec![15]);
    assert_eq!(decode("f"), vec![-15]);
}

#[test]
fn decode_negative_zero_is_the_most_negative_integer() {
    assert_eq!(decode("B"), vec![i32::MIN]);
    assert_eq!(decode("B"), vec![-0x80000000]);
    assert_eq!(decode("ABA"), vec![0, i32::MIN, 0]);
}

#[test]
fn decode_groups_with_continuation() {
    assert_eq!(decode("gB"), vec![16]);
    assert_eq!(decode("hB"), vec![-16]);
    assert_eq!(decode("mB"), vec![19]);
    assert_eq!(decode("+/////D"), vec![-1]);
    assert_eq!(decode("ggB"), vec![512]);
    assert_eq!(decode("w+B"), vec![1000]);
    assert_eq!(decode("x+B"), vec![-1000]);
}

#[test]
fn decode_segments_of_the_fixture() {
    assert_eq!(decode("IAQmB"), vec![4, 0, 8, 19]);
    assert_eq!(decode("OAAO"), vec![7, 0, 0, 7]);
    assert_eq!(decode("uBAGqC"), vec![23, 0, 3, 37]);
    assert_eq!(decode("OARzB"), vec![7, 0, -8, -25]);
    assert_eq!(decode("8BAAA"), vec![30, 0, 0, 0]);
}

/// Writes integers as a token: twice the magnitude plus the sign, five bits a
/// digit from the least significant, every digit but the last of an integer
/// flagged as continuing.
fn encode(integers: &[i32]) -> String {
    let (_, integer_to_char) = create_lookup_tables();
    let mut token = String::new();
    for &integer in integers {
        let mut quantity: u64 = if integer == i32::MIN {
            1
        } else if integer < 0 {
            2 * (-(integer as i64)) as u64 + 1
        } else {
            2 * integer as u64
        };
        loop {
            let digit = (quantity % 32) as usize;
            quantity /= 32;
            if quantity == 0 {
                token.push(integer_to_char[digit]);
                break;
            }
            token.push(integer_to_char[digit + 32]);
        }
    }
    token
}

#[test]
fn encode_helper_writes_known_tokens() {
    assert_eq!(encode(&[0]), "A");
    assert_eq!(encode(&[1, -1]), "CD");
    assert_eq!(encode(&[16]), "gB");
    assert_eq!(encode(&[4, 0, 8, 19]), "IAQmB");
    assert_eq!(encode(&[i32::MIN]), "B");
}

#[test]
fn decode_undoes_encoding() {
    let lists: Vec<Vec<i32>> = vec![
        vec![],
        vec![0],
        vec![0, 0, 0, 0],
        vec![1, -1, 2, -2],
        vec![15, -15, 16, -16, 31, 32, 33],
        vec![123, -123, 65535, -65536, 1000000, -1000000],
        vec![i32::MIN],
        vec![0, i32::MIN, -1, i32::MIN, 1],
        vec![1073741823, -1073741823],
        vec![4, 0, 8, 19],
    ];
    for integers in lists {
        assert_eq!(decode(&encode(&integers)), integers);
    }
    for integer in -2000..2000 {
        assert_eq!(decode(&encode(&[integer])), vec![integer]);
    }
}

#[test]
fn decode_wraps_magnitudes_from_two_to_the_thirty() {
    assert_eq!(encode(&[1073741824]), "ggggggC");
    assert_eq!(decode(&encode(&[1073741824])), vec![-1073741824]);
    assert_eq!(decode(&encode(&[-1073741824])), vec![1073741824]);
    assert_eq!(decode(&encode(&[i32::MAX])), vec![-1]);
}

#[test]
fn decode_round_trip_of_hand_encoded_integers() {
    // 0, 1, -1, 123, -123, 65535, negative zero
    assert_eq!(decode("ACD2H3H+//DB"), vec![0, 1, -1, 123, -123, 65535, i32::MIN]);
}

#[test]
fn decode_empty_token_yields_nothing() {
    assert_eq!(decode(""), Vec::<i32>::new());
}

#[test]
fn decode_passes_over_foreign_characters() {
    assert_eq!(decode("I A\tQ\nmB"), decode("IAQmB"));
    assert_eq!(decode(" "), Vec::<i32>::new());
    assert_eq!(decode("g B"), vec![16]);
    assert_eq!(decode("g-B"), decode("gB"));
    assert_eq!(decode("é漢C"), vec![1]);
    assert_eq!(decode("I,A;Q"), vec![4, 0, 8]);
}

#[test]
fn decode_drops_a_group_cut_short() {
    assert_eq!(decode("g"), Vec::<i32>::new());
    assert_eq!(decode("Cg"), vec![1]);
    assert_eq!(decode("Cgg"), vec![1]);
    assert_eq!(decode("gBg"), vec![16]);
}

#[test]
fn decode_padding_symbol_is_a_zero_digit() {
    // '=' has the value 64: no payload bits and no continuation flag.
    assert_eq!(decode("="), vec![0]);
    assert_eq!(decode("g="), vec![0]);
    assert_eq!(decode("j="), vec![-1]);
}

#[test]
fn decode_keeps_the_low_32_bits() {
    assert_eq!(decode("ggggggB"), vec![536870912]);
    assert_eq!(decode("ggggggC"), vec![-1073741824]);
    assert_eq!(decode("ggggggD"), vec![-536870912]);
    assert_eq!(decode("hgggggD"), vec![536870912]);
    assert_eq!(decode("gggggggB"), vec![0]);
    assert_eq!(decode("ggggggggB"), vec![0]);
    assert_eq!(decode("qgggggggggggggggB"), vec![5]);
    assert_eq!(decode("gggggggBC"), vec![0, 1]);
}

#[test]
fn decode_range_reads_only_its_range() {
    let tables = create_lookup_tables();
    let chars = to_chars("AC,gB;D");
    assert_eq!(decode_range(&tables.0, &chars, 0, 2), vec![0, 1]);
    assert_eq!(decode_range(&tables.0, &chars, 3, 5), vec![16]);
    assert_eq!(decode_range(&tables.0, &chars, 3, 4), Vec::<i32>::new());
    assert_eq!(decode_range(&tables.0, &chars, 6, 7), vec![-1]);
    assert_eq!(decode_range(&tables.0, &chars, 7, 7), Vec::<i32>::new());
    assert_eq!(decode_range(&tables.0, &chars, 0, 7), vec![0, 1, 16, -1]);
}

#[test]
fn to_chars_keeps_every_character() {
    assert_eq!(to_chars(""), Vec::<char>::new());
    assert_eq!(to_chars("a;é"), vec!['a', ';', 'é']);
}

#[test]
fn split_ranges_cuts_at_each_separator() {
    let chars = to_chars("ab;;c;");
    assert_eq!(split_ranges(&chars, 0, 6, ';'), vec![(0, 2), (3, 3), (4, 5), (6, 6)]);
    assert_eq!(split_ranges(&chars, 0, 2, ';'), vec![(0, 2)]);
    assert_eq!(split_ranges(&chars, 2, 4, ';'), vec![(2, 2), (3, 3), (4, 4)]);
    assert_eq!(split_ranges(&chars, 0, 0, ';'), vec![(0, 0)]);
    assert_eq!(split_ranges(&chars, 0, 6, ','), vec![(0, 6)]);
}
