use std::collections::HashMap;

use huffman::{
    assign_codes, compress, create_tree, decode_huffman_data, decompress, encode_message, encode_table,
    parse_huffman_data, push_value_bits, read_u64_be, serialize_huffman_data, value_of_bits, write_u64_be,
    count_frequencies, HuffmanData, HuffmanError, HuffmanNode,
};

fn code(value: u64, len: u8) -> Vec<bool> {
    let mut bits = Vec::new();
    push_value_bits(value, len, &mut bits);
    bits
}

fn golden_table() -> Vec<(char, Vec<bool>)> {
    vec![
        ('E', code(0b0, 1)),
        ('D', code(0b101, 3)),
        ('L', code(0b110, 3)),
        ('U', code(0b100, 3)),
        ('C', code(0b1110, 4)),
        ('M', code(0b11111, 5)),
        ('K', code(0b111101, 6)),
        ('Z', code(0b111100, 6)),
    ]
}

fn codes_of(freqs: Vec<(char, usize)>) -> HashMap<char, String> {
    let tree = create_tree(freqs).unwrap();
    assign_codes(tree)
        .into_iter()
        .map(|(c, bits)| (c, bits.iter().map(|b| if *b { '1' } else { '0' }).collect()))
        .collect()
}

#[test]
fn test_assign_codes() {
    let freqs = HashMap::from([
        ('E', 120),
        ('D', 42),
        ('L', 42),
        ('U', 37),
        ('C', 32),
        ('M', 24),
        ('K', 7),
        ('Z', 2),
    ]);

    let tree: HuffmanNode = create_tree(freqs.clone().into_iter().collect()).unwrap();
    let dict: HashMap<char, u64> = assign_codes(tree)
        .iter()
        .map(|(c, bits)| (*c, value_of_bits(bits)))
        .collect();

    let expected = HashMap::from([
        ('E', 0b0),
        ('D', 0b101),
        ('L', 0b110),
        ('U', 0b100),
        ('C', 0b1110),
        ('M', 0b11111),
        ('K', 0b111101),
        ('Z', 0b111100),
    ]);

    assert_eq!(expected, dict)
}

#[test]
fn test_encode() {
    let codes = golden_table();

    let message = "LUCKDUCKDE".to_owned();
    let (encoded_message, count) = encode_message(message, &codes);
    println!("{count}");
    for byte in encoded_message.iter() {
        println!("{:#010b}", byte)
    }
    let expected = Vec::from([
        0b110_100_11,
        0b10_111101_,
        0b101_100_11,
        0b10_111101,
        0b101_0_0000,
    ]);

    assert_eq!(encoded_message, expected)
}

#[test]
fn test_pack_unpack() {
    let data: Vec<u64> = vec![0b11, 0b11001, 0b11010, 0b10];

    let mut codes: Vec<u8> = Vec::new();
    for x in data.iter() {
        write_u64_be(&mut codes, *x);
    }

    for b in codes.iter() {
        println!("{:08b}", b);
    }

    let decomp: Vec<u64> = (0..codes.len() / 8).map(|i| read_u64_be(&codes, 8 * i)).collect();

    println!("\n--");

    for b in decomp.iter() {
        println!("{:b}", b);
    }
    assert_eq!(data, decomp);
}

#[test]
fn test_ordering() {
    let d = HuffmanNode::new(Some('D'), 42);
    let l = HuffmanNode::new(Some('L'), 42);
    assert!(d < l);
}

#[test]
fn encode_golden_padding_is_four() {
    let (bytes, pad) = encode_message("LUCKDUCKDE".to_owned(), &golden_table());
    assert_eq!(bytes.len(), 5);
    assert_eq!(pad, 4);
}

#[test]
fn encode_whole_bytes_has_no_padding() {
    // D U = 101 100, then E E = 0 0: eight bits exactly.
    let (bytes, pad) = encode_message("DUEE".to_owned(), &golden_table());
    assert_eq!(bytes, vec![0b1011_0000]);
    assert_eq!(pad, 0);
}

#[test]
fn golden_table_is_prefix_free() {
    let t = golden_table();
    for (i, (_, a)) in t.iter().enumerate() {
        for (j, (_, b)) in t.iter().enumerate() {
            if i != j {
                assert!(!(a.len() <= b.len() && b[..a.len()] == a[..]));
            }
        }
    }
}

#[test]
fn ordering_prefers_lower_frequency_then_leaf() {
    let a = HuffmanNode::new(Some('Z'), 1);
    let b = HuffmanNode::new(Some('A'), 2);
    assert!(a < b);
    let leaf = HuffmanNode::new(Some('Z'), 3);
    let inner = HuffmanNode::combine(HuffmanNode::new(Some('A'), 1), HuffmanNode::new(Some('B'), 2));
    assert!(leaf < inner);
    assert!(!(inner < leaf));
}

#[test]
fn equal_internal_nodes_merge_in_order_formed() {
    let codes = codes_of(vec![('D', 1), ('C', 1), ('B', 1), ('A', 1)]);
    let expected: HashMap<char, String> = [('A', "00"), ('B', "01"), ('C', "10"), ('D', "11")]
        .iter()
        .map(|(c, s)| (*c, s.to_string()))
        .collect();
    assert_eq!(codes, expected);
}

#[test]
fn leaf_goes_left_of_equal_internal_node() {
    let codes = codes_of(vec![('C', 1), ('A', 2), ('B', 1)]);
    let expected: HashMap<char, String> =
        [('A', "0"), ('B', "10"), ('C', "11")].iter().map(|(c, s)| (*c, s.to_string())).collect();
    assert_eq!(codes, expected);
}

#[test]
fn create_tree_of_nothing_fails() {
    assert!(matches!(create_tree(Vec::new()), Err(HuffmanError::EmptyInput)));
}

#[test]
fn frequencies_are_counted_and_sorted() {
    let f = count_frequencies("banana");
    assert_eq!(f, vec![('a', 3), ('b', 1), ('n', 2)]);
}

#[test]
fn round_trip_text() {
    let text = "It belongs in a museum! LUCKDUCKDE, said Indiana.\nZ";
    let blob = compress(text).unwrap();
    assert_eq!(decompress(&blob).unwrap(), text);
}

#[test]
fn round_trip_latin1() {
    let text = "caf\u{e9} na\u{ef}ve \u{ff}";
    let blob = compress(text).unwrap();
    assert_eq!(decompress(&blob).unwrap(), text);
}

#[test]
fn compress_is_deterministic() {
    let text = "abracadabra, abracadabra";
    assert_eq!(compress(text).unwrap(), compress(text).unwrap());
}

#[test]
fn singleton_alphabet_container() {
    let blob = compress("AAAA").unwrap();
    let expected: Vec<u8> = vec![0, 0, 0, 1, b'A', 1, 0, 0, 0, 0, 0, 0, 0, 0, 4, 0b0000_0000];
    assert_eq!(blob, expected);
    assert_eq!(decompress(&blob).unwrap(), "AAAA");
}

#[test]
fn singleton_gets_code_zero() {
    let codes = codes_of(vec![('Q', 9)]);
    assert_eq!(codes.get(&'Q').map(|s| s.as_str()), Some("0"));
}

#[test]
fn compress_empty_fails() {
    assert_eq!(compress(""), Err(HuffmanError::EmptyInput));
}

#[test]
fn compress_wide_symbol_fails() {
    assert_eq!(compress("price: 5\u{20ac}"), Err(HuffmanError::UnsupportedSymbol));
}

#[test]
fn decompress_truncated_fails() {
    assert_eq!(decompress(&vec![]), Err(HuffmanError::MalformedContainer));
    assert_eq!(decompress(&vec![0, 0, 0]), Err(HuffmanError::MalformedContainer));
    let mut blob = compress("AAAA").unwrap();
    blob.truncate(14);
    assert_eq!(decompress(&blob), Err(HuffmanError::MalformedContainer));
}

#[test]
fn decompress_zero_entries_fails() {
    assert_eq!(decompress(&vec![0, 0, 0, 0, 0]), Err(HuffmanError::MalformedContainer));
}

#[test]
fn decompress_bad_padding_fails() {
    let mut blob = compress("AAAA").unwrap();
    blob[14] = 8;
    assert_eq!(decompress(&blob), Err(HuffmanError::MalformedContainer));
}

#[test]
fn decompress_unmatched_bits_fail() {
    // Table of 'A' = "10" and 'B' = "11"; the payload starts with 0, which no code matches.
    let blob: Vec<u8> = vec![
        0, 0, 0, 2, b'A', b'B', 2, 0, 0, 0, 0, 0, 0, 0, 0b10, 2, 0, 0, 0, 0, 0, 0, 0, 0b11, 0, 0b0100_0000,
    ];
    assert_eq!(decompress(&blob), Err(HuffmanError::CorruptData));
}

#[test]
fn decompress_incomplete_code_fails() {
    // 'A' = "10", 'B' = "11"; payload 1 then 7 padding bits leaves half a code.
    let blob: Vec<u8> = vec![
        0, 0, 0, 2, b'A', b'B', 2, 0, 0, 0, 0, 0, 0, 0, 0b10, 2, 0, 0, 0, 0, 0, 0, 0, 0b11, 7, 0b1000_0000,
    ];
    assert_eq!(decompress(&blob), Err(HuffmanError::CorruptData));
}

#[test]
fn container_round_trip() {
    let table = encode_table(&golden_table()).unwrap();
    assert_eq!(table.len_table, 8);
    assert_eq!(table.codes[1], 0b101);
    assert_eq!(table.lengths[1], 3);
    let (message, extra_bits) = encode_message("LUCKDUCKDE".to_owned(), &golden_table());
    let data = HuffmanData { message: message.clone(), extra_bits, table };
    let bytes = serialize_huffman_data(&data);
    assert_eq!(&bytes[0..4], &[0, 0, 0, 8]);
    assert_eq!(bytes.len(), 4 + 8 * 10 + 1 + message.len());
    let back = parse_huffman_data(&bytes).unwrap();
    assert_eq!(back.message, message);
    assert_eq!(back.extra_bits, 4);
    assert_eq!(back.table.chars, vec!['E', 'D', 'L', 'U', 'C', 'M', 'K', 'Z']);
    assert_eq!(decode_huffman_data(back).unwrap(), "LUCKDUCKDE");
}

#[test]
fn encode_table_rejects_long_code() {
    let long = vec![('A', vec![true; 65]), ('B', vec![false])];
    assert!(matches!(encode_table(&long), Err(HuffmanError::UnassignableCode)));
}
