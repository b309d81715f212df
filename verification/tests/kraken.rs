//! The Kraken byte stream: its parts and whole streams.

use ghostline_red::kraken::arrays::{
    decode_array, decode_multi_array, decode_recursive_arrays, decode_rle, MAX_ARRAY_RECURSION,
};
use ghostline_red::kraken::cursor::Cursor;
use ghostline_red::kraken::decoder::{
    decode_quantum, BLOCK_SIZE, CHUNK_SIZE, COMPRESSED_BLOCK_HEADER,
};
use ghostline_red::kraken::encoder::{encode_entropy_array, encode_extended_length};
use ghostline_red::kraken::huffman::canonical_huffman_table;
use ghostline_red::kraken::huffman_encoder::{
    encode_array_envelope, encode_contiguous_new_huffman_header, huffman_code_lengths,
};
use ghostline_red::kraken::lz::{decode_lz_payload, execute_lz_commands};
use ghostline_red::kraken::lz_encoder::encode_greedy_lz_chunk;
use ghostline_red::kraken::readers::{decode_scaled_offset_value, PairedBits};
use ghostline_red::kraken::tables::{decode_huffman_table, decode_new_huffman_table};
use ghostline_red::kraken::tans_encoder::{encode_tans_array, encode_tans_header};
use ghostline_red::kraken::tans_weights::normalize_tans_weights;
use ghostline_red::kraken::writers::LsbWriter;
use ghostline_red::kraken::{decode, encode, KrakenError};

const STREAMINGWORLD_LITERAL_HEADER: &[u8] = &[
    0x8c, 0xdd, 0x80, 0x0b, 0x24, 0xcf, 0xf3, 0xf9, 0x42, 0x4a, 0x49, 0x49, 0x17, 0x35, 0x4e, 0x3e,
    0x4b, 0x29, 0x4c, 0x6c, 0xd0, 0x94, 0xb0, 0xa2, 0x59, 0xe6, 0x91, 0x24, 0x10, 0x82, 0xb1, 0xe2,
    0x12, 0xc5, 0x81, 0x1a, 0x48, 0x4c, 0x84, 0x21, 0x99, 0x91, 0x49, 0x29, 0xa6, 0x26, 0x53, 0x79,
    0xa7, 0xee, 0x52, 0xb5, 0x49, 0x69, 0x24, 0xf3, 0x1e, 0xa4, 0xa4, 0xa4, 0xa9, 0xf0, 0x6d, 0x83,
    0x6d, 0xfe, 0xfd, 0xbd, 0x4f, 0x3d, 0xb6, 0xcd, 0xe6, 0xfc, 0xdb, 0x3f, 0xd9, 0xd4, 0x7e, 0x02,
    0x07, 0x21, 0x11, 0xa0, 0x09, 0x00, 0x80, 0x18,
];
const MAINMENU_RLE_COMMAND_HEADER: &[u8] = &[
    0x97, 0x46, 0xc0, 0x8b, 0x92, 0x88, 0x86, 0x74, 0x4c, 0xb5, 0x95, 0x2f, 0x96, 0xe2, 0x6d, 0x5a,
    0x12, 0xd7, 0xab, 0x91, 0x4a, 0xa5, 0x5a, 0xba, 0x89, 0xa6, 0x7a, 0xeb, 0x7d, 0xeb, 0x4f, 0x18,
    0xdb, 0xce, 0xda, 0xd4, 0x76, 0x69, 0xcb, 0xbb, 0x16, 0x6b, 0x8d, 0xfc, 0xeb, 0x3b, 0x72, 0xbf,
    0xaf, 0x82, 0x0c, 0x17, 0x09, 0x22, 0x02, 0x80, 0x57, 0x00, 0x23, 0x4a, 0x41, 0x10, 0x55, 0x64,
    0x07, 0x20, 0x09, 0xda, 0x83, 0x86, 0x4f, 0xc4, 0x23, 0x08, 0x61, 0x04,
];

fn bytes(seed: u32, count: usize) -> Vec<u8> {
    let mut state = seed;
    (0..count)
        .map(|_| {
            state ^= state << 13;
            state ^= state >> 17;
            state ^= state << 5;
            state.to_le_bytes()[0]
        })
        .collect()
}

#[test]
fn round_trips_raw_and_constant_blocks() {
    for size in [
        0,
        1,
        255,
        256,
        BLOCK_SIZE - 1,
        BLOCK_SIZE,
        BLOCK_SIZE + 1,
        BLOCK_SIZE * 2,
    ] {
        let patterned: Vec<u8> = (0..size)
            .map(|index| index.wrapping_mul(73).to_le_bytes()[0])
            .collect();
        assert_eq!(decode(&encode(&patterned), size), Ok(patterned));
        let constant = vec![0xa5; size];
        assert_eq!(decode(&encode(&constant), size), Ok(constant));
    }
}

#[test]
fn constant_blocks_use_compact_quantums() {
    assert_eq!(
        encode(&vec![0x5a; BLOCK_SIZE]),
        [0x8c, 0x06, 0x07, 0xff, 0xff, 0x5a]
    );
}

#[test]
fn period_eight_inputs_use_lz_encoding() {
    let seed = [0x00, 0x49, 0x92, 0xdb, 0x24, 0x6d, 0xb6, 0x00];
    for size in [288_usize, 512, CHUNK_SIZE, BLOCK_SIZE, BLOCK_SIZE + 512] {
        let payload: Vec<u8> = seed.iter().copied().cycle().take(size).collect();
        let encoded = encode(&payload);
        assert!(encoded.len() < payload.len(), "encoded size {size}");
        assert_eq!(decode(&encoded, size), Ok(payload));
    }
}

#[test]
fn generic_repetitions_use_lz_encoding() {
    let seed: Vec<u8> = (0..97_u8)
        .map(|value| value.wrapping_mul(73).wrapping_add(19))
        .collect();
    let payload: Vec<u8> = seed.iter().copied().cycle().take(32 * 1024).collect();
    let encoded = encode(&payload);

    assert_eq!(encoded.get(..2), Some(COMPRESSED_BLOCK_HEADER.as_slice()));
    assert!(encoded.len() < payload.len() / 8);
    assert_eq!(decode(&encoded, payload.len()), Ok(payload));

    let mut state = 0x243f_6a88_u32;
    let large_seed: Vec<u8> = (0..4_093)
        .map(|_| {
            state ^= state << 13;
            state ^= state >> 17;
            state ^= state << 5;
            state.to_le_bytes()[0]
        })
        .collect();
    let payload: Vec<u8> = large_seed.iter().copied().cycle().take(32 * 1024).collect();
    let encoded = encode(&payload);
    assert!(encoded.len() < payload.len() / 2);
    assert_eq!(decode(&encoded, payload.len()), Ok(payload));
}

#[test]
fn greedy_lz_uses_multiple_explicit_offsets() {
    let initial = bytes(0x243f_6a88, 8);
    let first = bytes(0x85a3_08d3, 64);
    let second = bytes(0x1319_8a2e, 80);
    let third = bytes(0x0370_7344, 96);
    let mut payload = initial;
    payload.extend_from_slice(&first);
    payload.extend_from_slice(&second);
    payload.extend_from_slice(&first);
    payload.extend_from_slice(&third);
    payload.extend_from_slice(&second);
    payload.extend_from_slice(&third);

    let lz = encode_greedy_lz_chunk(&payload, true).unwrap();
    let mut cursor = Cursor::new(&lz, 0);
    cursor.advance(8).unwrap();
    decode_array(&mut cursor, None, 0).unwrap();
    decode_array(&mut cursor, None, 0).unwrap();
    assert_eq!(cursor.read_byte(), Ok(128));
    let packed_offsets = decode_array(&mut cursor, None, 0).unwrap();

    assert!(packed_offsets.len() >= 2);
    let mut output = Vec::new();
    assert_eq!(
        decode_lz_payload(&lz, payload.len(), &mut output, 1, 0),
        Ok(())
    );
    assert_eq!(output, payload);
}

#[test]
fn rejects_unread_lz_suffix_bytes() {
    let seed: Vec<u8> = (0..17_u8).map(|value| value.wrapping_mul(31)).collect();
    let payload: Vec<u8> = seed.iter().copied().cycle().take(1_024).collect();
    let lz = encode_greedy_lz_chunk(&payload, true).unwrap();
    let mut output = Vec::new();
    assert_eq!(
        decode_lz_payload(&lz, payload.len(), &mut output, 1, 0),
        Ok(())
    );
    assert_eq!(output, payload);

    let mut malformed = lz;
    malformed.push(0);
    let mut output = Vec::new();
    assert!(decode_lz_payload(&malformed, 1_024, &mut output, 1, 0).is_err());
}

#[test]
fn contiguous_alphabets_use_huffman_encoding() {
    for &alphabet in &[2_u8, 3, 4, 5, 8, 16, 32, 64, 128] {
        for size in [128_usize, CHUNK_SIZE, BLOCK_SIZE + 1_024] {
            let mut state = 0x510e_527f_u32 ^ u32::from(alphabet);
            let payload: Vec<u8> = (0..size)
                .map(|_| {
                    state ^= state << 13;
                    state ^= state >> 17;
                    state ^= state << 5;
                    let base = if alphabet <= 16 { 100 } else { 0 };
                    base + state.to_le_bytes()[0] % alphabet
                })
                .collect();
            let encoded = encode(&payload);
            if size >= CHUNK_SIZE {
                assert!(encoded.len() < payload.len(), "alphabet {alphabet}, {size}");
            }
            assert_eq!(
                decode(&encoded, payload.len()),
                Ok(payload),
                "alphabet {alphabet}, {size}"
            );
        }
    }
}

#[test]
fn sparse_small_alphabets_use_old_huffman_tables() {
    for symbols in [&[1_u8, 200][..], &[0_u8, 7, 255], &[0_u8, 5, 100, 255]] {
        let mut state = 0x1f83_d9ab_u32;
        let payload: Vec<u8> = (0..CHUNK_SIZE)
            .map(|_| {
                state ^= state << 13;
                state ^= state >> 17;
                state ^= state << 5;
                symbols[usize::try_from(state).unwrap() % symbols.len()]
            })
            .collect();
        let encoded = encode(&payload);
        assert!(encoded.len() < payload.len());
        assert_eq!(decode(&encoded, payload.len()), Ok(payload));
    }
}

#[test]
fn general_sparse_alphabets_use_frequency_huffman_tables() {
    for symbols in [
        &[0_u8, 17, 63, 129, 200, 255][..],
        &[1_u8, 9, 31, 65, 127, 191, 223, 254],
        &[
            0_u8, 3, 7, 12, 18, 25, 33, 42, 52, 63, 75, 88, 102, 117, 133, 150, 168, 187, 207,
            228, 250,
        ],
    ] {
        let mut payload = Vec::with_capacity(CHUNK_SIZE);
        for index in 0..CHUNK_SIZE {
            let rank = index.trailing_zeros() as usize % symbols.len();
            payload.push(symbols[rank]);
        }
        let encoded = encode(&payload);
        assert!(encoded.len() < payload.len());
        assert_eq!(decode(&encoded, payload.len()), Ok(payload));
    }
}

#[test]
fn encodes_compact_tans_arrays() {
    let mut encoded_cases = 0;
    let mut selected_cases = 0;
    for alphabet in [2_u8, 3, 5, 9] {
        let mut state = 0x6a09_e667_u32 ^ u32::from(alphabet);
        let payload: Vec<u8> = (0..CHUNK_SIZE)
            .map(|_| {
                state ^= state << 13;
                state ^= state >> 17;
                state ^= state << 5;
                state.to_le_bytes()[0] % alphabet
            })
            .collect();
        if let Some(encoded) = encode_tans_array(&payload) {
            encoded_cases += 1;
            let mut cursor = Cursor::new(&encoded, 0);
            assert_eq!(
                decode_array(&mut cursor, Some(payload.len()), 0),
                Ok(payload.clone())
            );
            assert!(cursor.is_empty());
        }
        if encode_entropy_array(&payload).is_some_and(|encoded| encoded[0] >> 4 & 7 == 1)
        {
            selected_cases += 1;
        }
    }
    assert!(encoded_cases >= 3);
    assert!(selected_cases >= 1);
}

#[test]
fn length_limited_huffman_fallback_is_complete() {
    let symbols: Vec<u8> = (0..64).collect();
    let mut frequencies = [0_usize; 256];
    let mut first = 1_usize;
    let mut second = 1_usize;
    for &symbol in &symbols {
        frequencies[usize::from(symbol)] = first;
        (first, second) = (second, first.saturating_add(second));
    }
    let lengths = huffman_code_lengths(&symbols, &frequencies).unwrap();
    assert!(lengths.iter().all(|&length| length <= 11));
    assert!(canonical_huffman_table(&symbols, &lengths).is_some());
}

#[test]
fn encodes_extended_length_tiers() {
    for (value, expected) in [
        (0_usize, &[0x80][..]),
        (12, &[0x98]),
        (63, &[0xfe]),
        (64, &[0x40, 0x00]),
        (112, &[0x58, 0x00]),
        (224, &[0x24, 0x00]),
        (480, &[0x11, 0x00]),
        (3_808, &[0x07, 0x90, 0x00]),
        (130_784, &[0x00, 0x3f, 0xe4, 0x00]),
    ] {
        assert_eq!(encode_extended_length(value), expected);
    }
}

#[test]
fn decodes_stored_quantums_and_non_restart_headers() {
    let payload: Vec<u8> = (0..65_536_usize)
        .map(|index| index.wrapping_mul(73).to_le_bytes()[0])
        .collect();
    let mut stored = vec![0x0c, 0x06, 0x00, 0xff, 0xff];
    stored.extend_from_slice(&payload);
    assert_eq!(decode(&stored, payload.len()), Ok(payload));

    assert_eq!(
        decode(&[0x0c, 0x06, 0x07, 0xff, 0xff, 0x5a], 16),
        Ok(vec![0x5a; 16])
    );
}

#[test]
fn rejects_truncated_and_unknown_streams() {
    assert_eq!(
        decode(&[0xcc, 0x06, 1], 2),
        Err(KrakenError::Truncated { offset: 2 })
    );
    assert_eq!(
        decode(&[0x8c, 0x06, 0x10, 0, 0], 1),
        Err(KrakenError::UnsupportedQuantum { offset: 2 })
    );
    assert_eq!(
        decode(&[0, 0], 1),
        Err(KrakenError::InvalidHeader { offset: 0 })
    );
}

#[test]
fn arbitrary_malformed_streams_fail_without_panicking() {
    let mut state = 0x9e37_79b9_u32;
    for case in 0..2_000_usize {
        let length = case % 129;
        let mut bytes = Vec::with_capacity(length);
        for _ in 0..length {
            state ^= state << 13;
            state ^= state >> 17;
            state ^= state << 5;
            bytes.push(state.to_le_bytes()[0]);
        }
        let decoded_size = state as usize % 4_097;
        let _ = decode(&bytes, decoded_size);
    }
}

#[test]
fn decodes_entropy_only_rle_quantum() {
    let stream = [
        0x8c, 0x06, // compressed Kraken block
        0x00, 0x00, 0x05, // six payload bytes
        0x30, 0x00, 0x3c, 0x00, 0x01, // long RLE envelope: 1 -> 16
        0xa5,
    ];
    assert_eq!(decode(&stream, 16), Ok(vec![0xa5; 16]));
}

#[test]
fn decodes_stored_entropy_arrays() {
    let bytes = [0x00, 0x00, 0x04, 1, 2, 3, 4];
    let mut cursor = Cursor::new(&bytes, 100);
    assert_eq!(decode_array(&mut cursor, Some(4), 0), Ok(vec![1, 2, 3, 4]));
    assert!(cursor.is_empty());
}

#[test]
fn decodes_real_dense_tans_array() {
    let encoded = decode_hex(
        "1001c4004e142ae484c46b9afe3293fc10141fbb0673488602b35ea00959305bd2\
         aeb37592c9893f8b958a4b65b3a27af652b1f577881104061aae6ae674d141dad1\
         c0b4ab18feea703da9a0212c9c071fd7d8",
    );
    let expected = decode_hex(
        "02030303070102030114241d04030513110c030b020100020201050505050505050502030005050505040c000106020202020202a201020b0a020200010602020506060605050506060600070201020206110611061d020902090215061106110611051f0221020912120215021502210310",
    );
    let mut cursor = Cursor::new(&encoded, 911);

    assert_eq!(decode_array(&mut cursor, Some(114), 0), Ok(expected));
    assert!(cursor.is_empty());

    let mut reserved = encoded.clone();
    reserved[5] |= 0x80;
    assert!(decode_array(&mut Cursor::new(&reserved, 0), Some(114), 0).is_err());
    assert!(decode_array(&mut Cursor::new(&encoded[..20], 0), Some(114), 0).is_err());
}

#[test]
fn decodes_old_table_binary_huffman_array() {
    let bytes = [
        0x20, 0x01, 0xfc, 0x00, 0x18, // type 2: 24 -> 128
        0x00, 0x80, 0x00, 0x08, // old-table symbols 0 and 1
        0x06, 0x00, // first forward stream is six bytes
        0x73, 0xe8, 0x8f, 0xc9, 0xf7, 0x06, // forward stream 0
        0x46, 0x24, 0xa4, 0x07, 0xef, 0x02, // forward stream 1
        0x07, 0xb0, 0xef, 0x2a, 0xab, 0x46, // backward stream
    ];
    let mut state = 0x9e37_79b9_u32;
    let expected: Vec<u8> = (0..128)
        .map(|_| {
            state ^= state << 13;
            state ^= state >> 17;
            state ^= state << 5;
            state.to_le_bytes()[0] & 1
        })
        .collect();
    let mut cursor = Cursor::new(&bytes, 0);
    assert_eq!(decode_array(&mut cursor, Some(128), 0), Ok(expected));
    assert!(cursor.is_empty());
}

#[test]
fn decodes_old_table_three_and_four_symbol_huffman_arrays() {
    let triple = [
        0x20, 0x01, 0xfc, 0x00, 0x23, // type 2: 35 -> 128
        0x00, 0xc8, 0x04, 0x04, 0x05, // old three-symbol table
        0x09, 0x00, // first forward stream is nine bytes
        0xfd, 0xf5, 0xb4, 0x37, 0xa9, 0x86, 0x36, 0xcf, 0x06, 0x73, 0xe7, 0xae, 0xeb, 0x28,
        0x6b, 0x7c, 0x15, 0xf7, 0x01, 0xef, 0x52, 0xc0, 0xe9, 0x55, 0xae, 0xbe, 0xab, 0xd2,
    ];
    let mut expected_triple: Vec<u8> = (0..128_usize)
        .map(|index| u8::try_from(index % 3).unwrap())
        .collect();
    deterministic_shuffle(&mut expected_triple, 0x243f_6a88);
    let mut cursor = Cursor::new(&triple, 0);
    assert_eq!(decode_array(&mut cursor, Some(128), 0), Ok(expected_triple));
    assert!(cursor.is_empty());

    let quad = [
        0x20, 0x01, 0xfc, 0x00, 0x2a, // type 2: 42 -> 128
        0x01, 0x08, 0x04, 0x06, 0x05, 0x03, 0x80, // old four-symbol table
        0x0b, 0x00, // first forward stream is eleven bytes
        0x9d, 0x30, 0xe3, 0x21, 0xf6, 0x13, 0x22, 0x94, 0xb2, 0x9b, 0x2a, 0xd8, 0x0d, 0xe5,
        0x9e, 0xf7, 0x74, 0xe6, 0xaf, 0x93, 0xd1, 0x04, 0x24, 0x3c, 0x94, 0xb1, 0xf5, 0x9a,
        0x07, 0x94, 0xfe, 0xb1, 0x00,
    ];
    let mut expected_quad: Vec<u8> = (0..128_usize)
        .map(|index| u8::try_from(index % 4).unwrap())
        .collect();
    deterministic_shuffle(&mut expected_quad, 0xb7e1_5163);
    let mut cursor = Cursor::new(&quad, 0);
    assert_eq!(decode_array(&mut cursor, Some(128), 0), Ok(expected_quad));
    assert!(cursor.is_empty());
}

#[test]
fn decodes_contiguous_new_table_five_and_eight_symbol_huffman_arrays() {
    let five = [
        0x20, 0x01, 0xfc, 0x00, 0x2e, // type 2: 46 -> 128
        0xa0, 0x40, 0x4b, 0xeb, 0xa0, // new five-symbol table
        0x0d, 0x00, // first forward stream is thirteen bytes
        0xd4, 0xbd, 0x6c, 0xba, 0xfe, 0x94, 0x2b, 0x84, 0xcb, 0xf6, 0xc6, 0x73, 0x08, 0x3b,
        0x7f, 0x8d, 0x8d, 0x6f, 0xd0, 0xff, 0x69, 0x25, 0xfd, 0x30, 0x1b, 0x0a, 0xae, 0x2f,
        0x58, 0xc2, 0xf3, 0xbb, 0x0f, 0x7c, 0x7f, 0xcb, 0x43, 0xad, 0xcd,
    ];
    let mut expected_five: Vec<u8> = (0..128_usize)
        .map(|index| u8::try_from(index % 5).unwrap())
        .collect();
    deterministic_shuffle(&mut expected_five, 0xa409_3822);
    let mut cursor = Cursor::new(&five, 0);
    assert_eq!(decode_array(&mut cursor, Some(128), 0), Ok(expected_five));
    assert!(cursor.is_empty());

    let bytes = [
        0x20, 0x01, 0xfc, 0x00, 0x3a, // type 2: 58 -> 128
        0x90, 0x70, 0x08, 0x95, 0xff, 0xe0, // new eight-symbol table
        0x11, 0x00, // first forward stream is seventeen bytes
        0xb9, 0x83, 0xc4, 0x2b, 0xb7, 0x3d, 0x80, 0x75, 0x94, 0xd1, 0x08, 0xe1, 0xe2, 0x60,
        0x7d, 0xdd, 0x00, 0x61, 0xac, 0x8a, 0x36, 0xe8, 0x67, 0xee, 0x03, 0x9e, 0x59, 0x75,
        0x46, 0x2c, 0xdb, 0xf6, 0x28, 0x00, 0xb2, 0xc5, 0xf5, 0x52, 0x74, 0xed, 0xd4, 0x60,
        0x3b, 0x82, 0x93, 0xce, 0x6e, 0xe1, 0x90, 0x3e,
    ];
    let mut expected: Vec<u8> = (0..128_usize)
        .map(|index| u8::try_from(index % 8).unwrap())
        .collect();
    deterministic_shuffle(&mut expected, 0x299f_31d0);
    let mut cursor = Cursor::new(&bytes, 0);
    assert_eq!(decode_array(&mut cursor, Some(128), 0), Ok(expected));
    assert!(cursor.is_empty());
}

#[test]
fn decodes_nonuniform_new_five_symbol_huffman_table() {
    let input: Vec<u8> = (0..128)
        .map(|index| u8::try_from(index % 5).unwrap())
        .collect();
    let table = canonical_huffman_table(&[0, 1, 2, 3, 4], &[1, 2, 3, 4, 4]).unwrap();
    let mut forward_zero = LsbWriter::with_capacity(32);
    let mut forward_one = LsbWriter::with_capacity(32);
    let mut backward = LsbWriter::with_capacity(32);
    for (index, &symbol) in input.iter().enumerate() {
        let &(code, length, _) = table
            .entries
            .iter()
            .find(|&&(_, _, entry_symbol)| entry_symbol == symbol)
            .unwrap();
        match index % 3 {
            0 => forward_zero.push(code, length),
            1 => backward.push(code, length),
            _ => forward_one.push(code, length),
        }
    }
    let forward_zero = forward_zero.finish();
    let forward_one = forward_one.finish();
    let mut backward = backward.finish();
    backward.reverse();
    let mut payload = vec![0xa0, 0x40, 0x2f, 0x7d, 0x40];
    payload.extend_from_slice(&u16::try_from(forward_zero.len()).unwrap().to_le_bytes());
    payload.extend_from_slice(&forward_zero);
    payload.extend_from_slice(&forward_one);
    payload.extend_from_slice(&backward);
    let encoded = encode_array_envelope(2, &payload, input.len()).unwrap();
    let mut cursor = Cursor::new(&encoded, 0);

    assert_eq!(decode_array(&mut cursor, Some(input.len()), 0), Ok(input));
    assert!(cursor.is_empty());
}

#[test]
fn recognizes_stock_streamingworld_huffman_table() {
    let (table, consumed) =
        decode_huffman_table(STREAMINGWORLD_LITERAL_HEADER, 21).unwrap();
    assert_eq!(consumed, STREAMINGWORLD_LITERAL_HEADER.len());
    assert_eq!(table.entries.len(), 206);
}

#[test]
fn recognizes_stock_mainmenu_rle_command_huffman_table() {
    let (table, consumed) =
        decode_huffman_table(MAINMENU_RLE_COMMAND_HEADER, 24).unwrap();
    assert_eq!(consumed, MAINMENU_RLE_COMMAND_HEADER.len());
    assert_eq!(table.entries.len(), 117);
}

#[test]
fn general_new_huffman_grammar_decodes_stock_tables() {
    for (header, expected_symbols) in [
        (STREAMINGWORLD_LITERAL_HEADER, 206),
        (MAINMENU_RLE_COMMAND_HEADER, 117),
    ] {
        let (table, consumed) = decode_new_huffman_table(header).unwrap();
        assert_eq!(consumed, header.len());
        assert_eq!(table.entries.len(), expected_symbols);
    }
}

#[test]
fn reproduces_contiguous_new_table_headers() {
    for (alphabet, start, expected) in [
        (5, 0, "a0404beba0"),
        (5, 1, "a0424bf5d0"),
        (5, 7, "a0424b9d7400"),
        (5, 127, "a0424b81d74000"),
        (8, 0, "90700895ffe0"),
        (8, 1, "90710895fff0"),
        (8, 7, "90710895e7fc00"),
        (8, 127, "90710895e07fc000"),
        (8, 247, "90710895e07ffc00"),
        (16, 0, "80f0008222abfe"),
        (16, 1, "80f0808222abff00"),
        (16, 15, "80f0808222abfe20"),
        (16, 127, "80f0808222abfe0400"),
        (16, 239, "80f0808222abfe0780"),
        (32, 0, "81f0011155ffffff80"),
        (64, 0, "83f0022afffffffffffffff0"),
        (128, 0, "87f0057ffffffffffffffffffffffffffffffe"),
    ] {
        assert_eq!(
            encode_contiguous_new_huffman_header(alphabet, start),
            decode_hex(expected)
        );
    }
}

#[test]
fn decodes_two_partition_huffman_array() {
    let group = [
        0x11, 0x00, // first forward stream is seventeen bytes
        0xb9, 0x83, 0xc4, 0x2b, 0xb7, 0x3d, 0x80, 0x75, 0x94, 0xd1, 0x08, 0xe1, 0xe2, 0x60,
        0x7d, 0xdd, 0x00, 0x61, 0xac, 0x8a, 0x36, 0xe8, 0x67, 0xee, 0x03, 0x9e, 0x59, 0x75,
        0x46, 0x2c, 0xdb, 0xf6, 0x28, 0x00, 0xb2, 0xc5, 0xf5, 0x52, 0x74, 0xed, 0xd4, 0x60,
        0x3b, 0x82, 0x93, 0xce, 0x6e, 0xe1, 0x90, 0x3e,
    ];
    let mut bytes = vec![
        0x40, 0x03, 0xfc, 0x00, 0x71, // type 4: 113 -> 256
        0x90, 0x70, 0x08, 0x95, 0xff, 0xe0, // new eight-symbol table
        0x34, 0x00, 0x00, // first partition is 52 bytes
    ];
    bytes.extend_from_slice(&group);
    bytes.extend_from_slice(&group);
    let mut half: Vec<u8> = (0..128_usize)
        .map(|index| u8::try_from(index % 8).unwrap())
        .collect();
    deterministic_shuffle(&mut half, 0x299f_31d0);
    let expected = [half.as_slice(), half.as_slice()].concat();
    let mut cursor = Cursor::new(&bytes, 0);
    assert_eq!(decode_array(&mut cursor, Some(256), 0), Ok(expected));
    assert!(cursor.is_empty());
}

fn decode_hex(value: &str) -> Vec<u8> {
    value
        .as_bytes()
        .chunks_exact(2)
        .map(|pair| {
            let pair = std::str::from_utf8(pair).unwrap();
            u8::from_str_radix(pair, 16).unwrap()
        })
        .collect()
}

fn deterministic_shuffle(values: &mut [u8], mut state: u32) {
    for index in (1..values.len()).rev() {
        state ^= state << 13;
        state ^= state >> 17;
        state ^= state << 5;
        values.swap(index, usize::try_from(state).unwrap() % (index + 1));
    }
}

#[test]
fn rejects_malformed_binary_huffman_stream_boundaries() {
    let bytes = [
        0x20, 0x00, 0x3c, 0x00, 0x0f, // type 2: 15 -> 16
        0x00, 0x80, 0x00, 0x08, // old-table symbols 0 and 1
        0x03, 0x00, // invalid: first stream should contain one byte
        0, 0, 0, 0, 0, 0, 0, 0, 0,
    ];
    let mut cursor = Cursor::new(&bytes, 20);
    assert!(matches!(
        decode_array(&mut cursor, Some(16), 0),
        Err(KrakenError::InvalidArray { .. })
    ));
}

#[test]
fn decodes_bidirectional_rle_commands() {
    let bytes = [
        0x30, 0x00, 0x10, 0x00, 0x04, // type 3: 4 -> 5
        0x00, 0x00, b'A', 0x3d, // marker, two literals, then three zero bytes
    ];
    let mut cursor = Cursor::new(&bytes, 0);
    assert_eq!(
        decode_array(&mut cursor, Some(5), 0),
        Ok(vec![0, b'A', 0, 0, 0])
    );
    assert!(cursor.is_empty());
}

#[test]
fn decodes_zero_byte_compact_rle_literal_command() {
    let mut payload = vec![0];
    payload.extend(1_u8..=15);
    payload.push(0);

    assert_eq!(decode_rle(&payload, 15, 0, 0), Ok((1_u8..=15).collect()));
}

#[test]
fn decodes_simple_recursive_array_composition() {
    let bytes = [
        0x50, 0x00, 0x3c, 0x00, 0x0d, // type 5: 13 -> 16
        0x02, // two arrays
        0x30, 0x00, 0x1c, 0x00, 0x01, b'a', // RLE: 1 -> 8
        0x30, 0x00, 0x1c, 0x00, 0x01, b'b', // RLE: 1 -> 8
    ];
    let mut cursor = Cursor::new(&bytes, 0);
    assert_eq!(
        decode_array(&mut cursor, Some(16), 0),
        Ok([vec![b'a'; 8], vec![b'b'; 8]].concat())
    );
    assert!(cursor.is_empty());
}

#[test]
fn decodes_zero_source_multi_array_passthrough() {
    let bytes = [
        0x50, 0x00, 0x3c, 0x00, 0x07, // type 5: 7 -> 16
        0x80, // multi-array form with zero temporary source arrays
        0x30, 0x00, 0x3c, 0x00, 0x01, b'x', // one requested destination array
    ];
    let mut cursor = Cursor::new(&bytes, 0);
    assert_eq!(decode_array(&mut cursor, Some(16), 0), Ok(vec![b'x'; 16]));
    assert!(cursor.is_empty());
}

#[test]
fn decodes_indexed_multi_array_composition() {
    let prefix = [
        0x82, // indexed composition with two temporary source arrays
        0x00, 0x00, 0x03, b'a', b'b', b'c', // source 1
        0x00, 0x00, 0x03, b'X', b'Y', b'Z', // source 2
    ];
    for (control, indexes, logs) in [
        (
            [0x02, 0x00],
            &[0x00, 0x00, 0x03, 0x01, 0x02, 0x00][..],
            &[0x00, 0x00, 0x02, 0x02, 0x02][..],
        ),
        (
            [0x02, 0x80],
            &[0x00, 0x00, 0x03, 0x21, 0x22, 0x00][..],
            &[][..],
        ),
    ] {
        let mut payload = prefix.to_vec();
        payload.extend_from_slice(&control);
        payload.extend_from_slice(indexes);
        payload.extend_from_slice(logs);
        payload.extend_from_slice(&[0xc0, 0xc0]);

        assert_eq!(
            decode_recursive_arrays(&payload, 6, 0, 1),
            Ok(b"abcXYZ".to_vec())
        );
    }
}

#[test]
fn decodes_stored_lz_chunk() {
    let payload = [0x80, 0x00, 0x04, 9, 8, 7, 6];
    let mut output = Vec::new();
    assert_eq!(decode_quantum(&payload, 4, &mut output, 0), Ok(()));
    assert_eq!(output, [9, 8, 7, 6]);
}

#[test]
fn executes_mode_one_lz_commands() {
    let mut output = b"abcdefgh".to_vec();
    assert_eq!(
        execute_lz_commands(&mut output, 14, b"XY", &[0x0a], &[], &[], 1, 0),
        Ok(())
    );
    assert_eq!(output, b"abcdefghXYcdef");
}

#[test]
fn executes_mode_zero_delta_literals() {
    let mut output = b"abcdefgh".to_vec();
    assert_eq!(
        execute_lz_commands(&mut output, 14, &[1, 1], &[0x0a], &[], &[], 0, 0),
        Ok(())
    );
    assert_eq!(output, b"abcdefghbccdef");
}

#[test]
fn rejects_lz_matches_before_output_history() {
    let mut output = b"abcdefgh".to_vec();
    assert_eq!(
        execute_lz_commands(&mut output, 12, &[], &[0xc8], &[-9], &[], 1, 42),
        Err(KrakenError::InvalidQuantum { offset: 42 })
    );
}

#[test]
fn decodes_backward_gamma_extended_length_counts() {
    let mut none = PairedBits::new(&[0x80], 0);
    assert_eq!(none.read_back_gamma_minus_one(), Ok(0));

    let mut one = PairedBits::new(&[0x40], 0);
    assert_eq!(one.read_back_gamma_minus_one(), Ok(1));

    let mut truncated = PairedBits::new(&[0], 7);
    assert_eq!(
        truncated.read_back_gamma_minus_one(),
        Err(KrakenError::InvalidQuantum { offset: 7 })
    );
}

#[test]
fn decodes_forward_extended_lengths() {
    for (bytes, expected) in [
        (&[0x80, 0x40][..], 0_usize),
        (&[0x98, 0x40], 12),
        (&[0xfe, 0x40], 63),
        (&[0x40, 0x00, 0x40], 64),
        (&[0x58, 0x00, 0x40], 112),
        (&[0x24, 0x00, 0x40], 224),
        (&[0x11, 0x00, 0x40], 480),
        (&[0x07, 0x90, 0x00, 0x40], 3_808),
        (&[0x00, 0x3f, 0xe4, 0x00, 0x40], 130_784),
    ] {
        let mut bits = PairedBits::new(bytes, 0);
        assert_eq!(bits.read_back_gamma_minus_one(), Ok(1));
        assert_eq!(bits.read_front_extended_length(), Ok(expected));
    }
}

#[test]
fn decodes_legacy_distance_tiers() {
    for (bytes, packed, count, expected) in [
        (&[0x00, 0x80][..], 0x01, 0_usize, 9_usize),
        (&[0x10, 0x80], 0x00, 0, 24),
        (&[0xf0, 0x80], 0x08, 0, 256),
        (&[0x3a, 0xd8, 0x80, 0x6a], 0x18, 2, 384),
        (&[0x3c, 0x66, 0xc0, 0x28, 0x63], 0x28, 2, 1024),
    ] {
        let mut bits = PairedBits::new(bytes, 0);
        assert_eq!(bits.read_back_gamma_minus_one(), Ok(count));
        assert_eq!(bits.read_front_distance(packed), Ok(expected));
    }
}

#[test]
fn decodes_scaled_offset_values() {
    assert_eq!(decode_scaled_offset_value(0x08, 1, 0, 0), Ok(-8));
    assert_eq!(decode_scaled_offset_value(0x08, 1, 1, 0), Ok(-9));
    assert_eq!(decode_scaled_offset_value(0x10, 2, 0, 0), Ok(-24));
    assert_eq!(
        decode_scaled_offset_value(0xd8, 27, 0, 9),
        Err(KrakenError::InvalidQuantum { offset: 9 })
    );
}

#[test]
fn decodes_scaled_offset_lz_payload() {
    let payload = [
        b'a', b'b', b'c', b'd', b'e', b'f', b'g', b'h', // initial history
        0x00, 0x00, 0x00, // no literals
        0x00, 0x00, 0x01, 0xc8, // one explicit-offset, four-byte match
        0x81, // scaled offsets, scale 2
        0x00, 0x00, 0x01, 0x04, // raw scaled offset -4
        0x00, 0x00, 0x01, 0x00, // low digit 0: -4 * 2 = -8
        0x00, 0x00, 0x00, // no long lengths
        0x80, // no extended lengths or offset bits
    ];
    let mut output = Vec::new();
    assert_eq!(decode_lz_payload(&payload, 12, &mut output, 1, 0), Ok(()));
    assert_eq!(output, b"abcdefghabcd");
}

#[test]
fn decodes_native_period_eight_lz_vector() {
    let stream = [
        0x8c, 0x06, 0x00, 0x00, 0x25, // outer quantum: 38 bytes
        0x88, 0x00, 0x23, // mode 1 LZ chunk: 35 bytes
        0x00, 0x49, 0x92, 0xdb, 0x24, 0x6d, 0xb6, 0x00, // initial history
        0x00, 0x00, 0x08, // eight stored literals
        0x00, 0x49, 0x92, 0xdb, 0x24, 0x6d, 0xb6, 0x00, 0x00, 0x00, 0x01,
        0x7c, // one command
        0x00, 0x00, 0x00, // no explicit offsets
        0x00, 0x00, 0x01, 0xff, // one extended packed length
        0x00, 0x3f, 0xe4, 0x00, 0x40, // extended value and count
    ];
    let seed = [0x00, 0x49, 0x92, 0xdb, 0x24, 0x6d, 0xb6, 0x00];
    let expected: Vec<u8> = seed.iter().copied().cycle().take(131_072).collect();
    assert_eq!(decode(&stream, expected.len()), Ok(expected));
}

#[test]
fn rejects_recursive_array_depth_bombs() {
    let mut cursor = Cursor::new(&[0x00, 0x00, 0x00], 0);
    assert_eq!(
        decode_array(&mut cursor, None, MAX_ARRAY_RECURSION),
        Err(KrakenError::InvalidArray { offset: 0 })
    );
}

#[test]
fn the_shortest_form_is_chosen() {
    assert_eq!(encode(&[0x5a]), [0xcc, 0x06, 0x5a]);
    assert_eq!(encode(&[0x5a; 2]), [0xcc, 0x06, 0x5a, 0x5a]);
    assert_eq!(encode(&[0x5a; 3]), [0xcc, 0x06, 0x5a, 0x5a, 0x5a]);
    assert_eq!(encode(&[0x5a; 5]), [0x8c, 0x06, 0x07, 0xff, 0xff, 0x5a]);
    let mut two = vec![1; BLOCK_SIZE];
    two.extend(vec![2; BLOCK_SIZE]);
    let encoded = encode(&two);
    assert_eq!(encoded.len(), 12);
    assert_eq!(decode(&encoded, two.len()), Ok(two));
}

#[test]
fn failed_commands_keep_the_output() {
    let mut output = b"abcdefgh".to_vec();
    assert!(execute_lz_commands(&mut output, 12, &[], &[0xc8], &[-9], &[], 1, 42).is_err());
    assert_eq!(output, b"abcdefgh");
    assert!(execute_lz_commands(&mut output, 14, b"XY", &[0x0a], &[], &[], 2, 0).is_err());
    assert!(execute_lz_commands(&mut output, 7, b"XY", &[0x0a], &[], &[], 1, 0).is_err());
    assert_eq!(output, b"abcdefgh");
    assert!(execute_lz_commands(&mut output, 11, b"XY", &[0x0a], &[], &[], 1, 0).is_err());
    assert_eq!(output, b"abcdefghXY");
}

#[test]
fn failed_chunks_keep_the_output() {
    let mut output = Vec::new();
    assert_eq!(
        decode_lz_payload(b"abcdefgh", 100, &mut output, 1, 0),
        Err(KrakenError::Truncated { offset: 8 })
    );
    assert_eq!(output, b"abcdefgh");
    let mut output = b"ab".to_vec();
    assert_eq!(
        decode_quantum(&[0x80, 0x00, 0x04, 9], 4, &mut output, 0),
        Err(KrakenError::Truncated { offset: 3 })
    );
    assert_eq!(output, b"ab");
}

#[test]
fn picked_arrays_take_all_that_is_left() {
    let payload = [
        0x00, 0x00, 0x03, b'a', b'b', b'c', 0x00, 0x00, 0x03, b'X', b'Y', b'Z', 0x02, 0x00, 0x00,
        0x00, 0x03, 0x01, 0x02, 0x00, 0x00, 0x00, 0x02, 0x02, 0x02, 0xc0, 0xc0,
    ];
    let mut cursor = Cursor::new(&payload, 1);
    assert_eq!(
        decode_multi_array(&mut cursor, 2, 1, 6, 0, 1),
        Ok(b"abcXYZ".to_vec())
    );
    assert!(cursor.is_empty());
}

#[test]
fn extended_lengths_come_back() {
    for value in [0, 63, 64, 130_784, 0x3fff_ffff, 0x4000_0000, 0xffff_ffbf] {
        let mut bytes = encode_extended_length(value);
        bytes.push(0x40);
        let mut bits = PairedBits::new(&bytes, 0);
        assert_eq!(bits.read_back_gamma_minus_one(), Ok(1));
        assert_eq!(bits.read_front_extended_length(), Ok(value));
    }
}

#[test]
fn states_are_shared_out() {
    let mut counts = [0_usize; 256];
    counts[1] = 1;
    counts[2] = 2;
    counts[3] = 5;
    assert_eq!(
        normalize_tans_weights(&[1, 2, 3], &counts, 16),
        Some(vec![(1, 3), (2, 4), (3, 9)])
    );
    assert_eq!(
        normalize_tans_weights(&[1, 2, 3], &counts, 3),
        Some(vec![(1, 1), (2, 1), (3, 1)])
    );
    assert_eq!(normalize_tans_weights(&[1, 2, 3], &counts, 2), None);
    assert_eq!(normalize_tans_weights(&[], &counts, 2), Some(vec![]));
    counts[4] = usize::MAX;
    assert_eq!(normalize_tans_weights(&[3, 4], &counts, 16), None);
    assert_eq!(normalize_tans_weights(&[4], &counts, 16), None);
}

#[test]
fn table_headers_list_weights() {
    assert_eq!(
        encode_tans_header(&[(1, 2), (2, 254)], 8),
        Some(vec![0x00, 0x40, 0x30, 0x10])
    );
    assert_eq!(
        encode_tans_header(&[(1, 2), (2, 2046)], 11),
        Some(vec![0x60, 0x40, 0x30, 0x10])
    );
    assert_eq!(encode_tans_header(&[(1, 2), (2, 254)], 7), None);
    assert_eq!(encode_tans_header(&[(1, 256), (2, 256)], 8), None);
    assert_eq!(encode_tans_header(&[(1, 3), (2, 2), (3, 251)], 8), None);
    assert_eq!(encode_tans_header(&[(1, 256)], 8), None);
}
