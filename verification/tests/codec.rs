use mojibake::{decode, encode, Alphabet, DecodeError, GraphemeReader, StreamEncoder, TokenDecoder};
use unicode_segmentation::UnicodeSegmentation;

/// A concrete alphabet for the tests: 2048 distinct ideographs for the main
/// table, nine Greek letters for the tail table. Every symbol is a single
/// self-standing grapheme cluster.
fn test_alphabet() -> Alphabet {
    let mut main: Vec<String> = Vec::new();
    for i in 0..2048u32 {
        main.push(char::from_u32(0x4E00 + i).unwrap().to_string());
    }
    let mut tail: Vec<String> = Vec::new();
    for i in 0..9u32 {
        tail.push(char::from_u32(0x3B1 + i).unwrap().to_string());
    }
    Alphabet::new(main, tail).expect("the test tables are well formed")
}

fn main_sym(a: &Alphabet, i: u16) -> String {
    a.main_symbol(i).clone()
}

fn tail_sym(a: &Alphabet, i: u16) -> String {
    a.tail_symbol(i).clone()
}

/// Simple deterministic byte generator for round-trip coverage.
fn pseudo_bytes(len: usize, seed: u64) -> Vec<u8> {
    let mut state = seed.wrapping_mul(6364136223846793005).wrapping_add(1442695040888963407);
    let mut v = Vec::new();
    for _ in 0..len {
        state = state.wrapping_mul(6364136223846793005).wrapping_add(1442695040888963407);
        v.push((state >> 33) as u8);
    }
    v
}

#[test]
fn test_read_next_grapheme() {
    let a = test_alphabet();
    let mut data = String::new();
    for i in 0..2048u16 {
        data.push_str(a.main_symbol(i).as_str());
    }
    let bytes = data.as_bytes();
    let mut reader = GraphemeReader::new();
    let mut collected: Vec<String> = Vec::new();
    let mut pos = 0;
    loop {
        match reader.read_next_grapheme() {
            Some(g) => collected.push(g),
            None => {
                if pos >= bytes.len() {
                    break;
                }
                let end = (pos + 4).min(bytes.len());
                reader.push_chunk(&bytes[pos..end]);
                pos = end;
            }
        }
    }
    if let Ok(Some(g)) = reader.finish() {
        collected.push(g);
    }
    let expected: Vec<&str> = data.graphemes(true).collect();
    assert_eq!(collected.len(), expected.len());
    for (left, right) in collected.iter().zip(expected.iter()) {
        assert_eq!(left.as_str(), *right);
    }
}

#[test]
fn test_decode_invalid_input() {
    let a = test_alphabet();
    let invalid_encoded_data = "Invalid data";
    let decoded = decode(&a, invalid_encoded_data);
    assert_eq!(decoded, None);
}

#[test]
fn test_decode_empty_input() {
    let a = test_alphabet();
    let empty_encoded_data = "";
    let decoded = decode(&a, empty_encoded_data);
    assert_eq!(decoded, Some(vec![]));
}

#[test]
fn test_lookup_map_codegen() {
    let a = test_alphabet();
    assert_eq!(a.main_len(), 2048);
    assert!(a.tail_len() > 8);
    for key in 0..2048u16 {
        let value = a.main_symbol(key).clone();
        let matching_num = a.main_index(&value);
        assert!(matching_num.is_some());
        assert_eq!(key, matching_num.unwrap());
    }
    for key in 0..9u16 {
        let value = a.tail_symbol(key).clone();
        let matching_num = a.tail_index(&value);
        assert!(matching_num.is_some());
        assert_eq!(key, matching_num.unwrap());
    }
}

#[test]
fn test_encode_empty() {
    let a = test_alphabet();
    assert_eq!(encode(&a, &[]), String::new());
}

#[test]
fn test_encode_decode_round_trip() {
    let a = test_alphabet();
    for len in 0..40 {
        let bytes = pseudo_bytes(len, len as u64 + 17);
        let encoded = encode(&a, &bytes);
        let decoded = decode(&a, encoded.as_str());
        assert_eq!(decoded, Some(bytes));
    }
    let all: Vec<u8> = (0..=255).collect();
    let encoded = encode(&a, &all);
    assert_eq!(decode(&a, encoded.as_str()), Some(all));
}

#[test]
fn test_concrete_scenario() {
    let a = test_alphabet();
    let bytes = vec![0x31, 0x32, 0x33];
    let encoded = encode(&a, &bytes);
    let expected = format!(
        "{}{}{}",
        main_sym(&a, 393),
        main_sym(&a, 1164),
        tail_sym(&a, 3)
    );
    assert_eq!(encoded, expected);
    assert_eq!(decode(&a, encoded.as_str()), Some(bytes));
    let symbols: Vec<&str> = encoded.graphemes(true).collect();
    assert_eq!(symbols.len(), 3);
    let last = symbols[2].to_string();
    assert_eq!(a.tail_index(&last), Some(3));
    assert_eq!(a.main_index(&last), None);
    assert!(a.tail_index(&symbols[0].to_string()).is_none());
    assert!(a.tail_index(&symbols[1].to_string()).is_none());
}

#[test]
fn test_tail_validity_boundary() {
    let a = test_alphabet();
    // After two full main symbols, 22 bits have arrived and two bytes have
    // been delivered, so 6 bits are pending: the tail must supply 2 bits.
    let good = format!("{}{}{}", main_sym(&a, 393), main_sym(&a, 1164), tail_sym(&a, 3));
    let decoded = decode(&a, good.as_str());
    assert_eq!(decoded, Some(vec![0x31, 0x32, 0x33]));
    let bad = format!("{}{}{}", main_sym(&a, 393), main_sym(&a, 1164), tail_sym(&a, 4));
    assert_eq!(decode(&a, bad.as_str()), None);
}

#[test]
fn test_decode_rejects_mixed_foreign() {
    let a = test_alphabet();
    let mixed = format!("{}x", main_sym(&a, 0));
    assert_eq!(decode(&a, mixed.as_str()), None);
}

#[test]
fn test_alphabet_shape_rejected() {
    let mut main: Vec<String> = Vec::new();
    for i in 0..2047u32 {
        main.push(char::from_u32(0x4E00 + i).unwrap().to_string());
    }
    let tail: Vec<String> = (0..9u32)
        .map(|i| char::from_u32(0x3B1 + i).unwrap().to_string())
        .collect();
    assert!(Alphabet::new(main.clone(), tail.clone()).is_none());
    main.push("一".to_string());
    assert!(Alphabet::new(main.clone(), vec!["α".to_string()]).is_none());
    let mut dup = main.clone();
    dup[5] = dup[4].clone();
    assert!(Alphabet::new(dup, tail.clone()).is_none());
    let mut overlap_tail = tail.clone();
    overlap_tail[0] = main[7].clone();
    assert!(Alphabet::new(main, overlap_tail).is_none());
}

#[test]
fn test_stream_encoder_matches_encode() {
    let a = test_alphabet();
    for len in [0usize, 1, 2, 3, 7, 11, 23] {
        let bytes = pseudo_bytes(len, 99 + len as u64);
        let mut enc = StreamEncoder::new();
        let mut streamed = String::new();
        for b in &bytes {
            if let Some(sym) = enc.push_byte(&a, *b) {
                streamed.push_str(sym.as_str());
            }
        }
        if let Some(sym) = enc.finish(&a) {
            streamed.push_str(sym.as_str());
        }
        assert_eq!(streamed, encode(&a, &bytes));
    }
}

#[test]
fn test_decode_stream_equivalence() {
    let a = test_alphabet();
    for len in [0usize, 1, 2, 3, 5, 8, 13, 21, 34] {
        let bytes = pseudo_bytes(len, 7 + len as u64);
        let encoded = encode(&a, &bytes);
        let data = encoded.as_bytes();
        let mut reader = GraphemeReader::new();
        let mut dec = TokenDecoder::new(&a);
        let mut output: Vec<u8> = Vec::new();
        let mut pos = 0;
        loop {
            match reader.read_next_grapheme() {
                Some(g) => {
                    let part = dec.push_symbol(&a, &g).expect("valid stream");
                    output.extend_from_slice(&part);
                }
                None => {
                    if pos >= data.len() {
                        break;
                    }
                    let end = (pos + 3).min(data.len());
                    reader.push_chunk(&data[pos..end]);
                    pos = end;
                }
            }
        }
        if let Ok(Some(g)) = reader.finish() {
            let part = dec.push_symbol(&a, &g).expect("valid stream");
            output.extend_from_slice(&part);
        }
        let last = dec.finish(&a).expect("valid stream");
        output.extend_from_slice(&last);
        assert_eq!(output, bytes);
        assert_eq!(decode(&a, encoded.as_str()), Some(output));
    }
}

#[test]
fn test_token_decoder_rejects_foreign() {
    let a = test_alphabet();
    let mut dec = TokenDecoder::new(&a);
    let first = main_sym(&a, 10);
    assert!(dec.push_symbol(&a, &first).is_ok());
    let foreign = "Z".to_string();
    assert_eq!(dec.push_symbol(&a, &foreign), Err(DecodeError::InvalidSymbol));
}

#[test]
fn test_grapheme_reader_invalid_data() {
    let mut reader = GraphemeReader::new();
    reader.push_chunk(&[0xff, 0xfe, 0xfd]);
    assert_eq!(reader.finish(), Err(DecodeError::InvalidData));
}

#[test]
fn test_single_byte_values() {
    let a = test_alphabet();
    for b in [0u8, 1, 0x7f, 0x80, 0xff] {
        let encoded = encode(&a, &[b]);
        let symbols: Vec<&str> = encoded.graphemes(true).collect();
        assert_eq!(symbols.len(), 1);
        assert_eq!(decode(&a, encoded.as_str()), Some(vec![b]));
    }
}

#[test]
fn test_full_group_boundary() {
    let a = test_alphabet();
    // Eleven bytes carry 88 bits: exactly eight full groups, no tail symbol.
    let bytes = pseudo_bytes(11, 4242);
    let encoded = encode(&a, &bytes);
    let symbols: Vec<&str> = encoded.graphemes(true).collect();
    assert_eq!(symbols.len(), 8);
    for s in &symbols {
        assert!(a.main_index(&s.to_string()).is_some());
    }
    assert_eq!(decode(&a, encoded.as_str()), Some(bytes));
}

#[test]
fn test_single_tail_symbol_stream() {
    let a = test_alphabet();
    // A lone tail symbol completes the first byte directly: it contributes
    // the eight bits still needed, so its index becomes one output byte.
    let s = tail_sym(&a, 5);
    assert_eq!(decode(&a, s.as_str()), Some(vec![5]));
}
