use cchuff::decoder::decode;
use cchuff::encoder::{encode, encode_fits_exec};
use cchuff::huffman_tree::{build, generate_coding_map};
use cchuff::HuffError;

fn round_trip(text: &str) {
    assert!(encode_fits_exec(text));
    let encoded = encode(text).unwrap();
    let decoded = decode(encoded).unwrap();
    assert_eq!(decoded, text);
}

#[test]
fn test_round_trip_simple() {
    round_trip("hello world");
}

#[test]
fn test_round_trip_empty() {
    round_trip("");
}

#[test]
fn test_round_trip_single_symbol() {
    round_trip("a");
}

#[test]
fn test_round_trip_control_chars() {
    round_trip("a\nb\tc\0d\r");
}

#[test]
fn test_round_trip_unicode() {
    round_trip("héllo wörld \u{2603} \u{10348}");
}

#[test]
fn test_round_trip_longer_text() {
    round_trip("this is a longer piece of text, with repetition, repetition, repetition!");
}

#[test]
fn test_degenerate_alphabet() {
    // Encoding a one-symbol text yields a one-entry table with a 1-bit code.
    let root = build("aaaa").unwrap();
    let map = generate_coding_map(root);
    assert_eq!(map.len(), 1);
    assert_eq!(map[0].1.len(), 1);
    assert_eq!(map[0].1, vec![false]);
    round_trip("aaaa");
}

#[test]
fn test_balanced_four_symbols() {
    // Four equally frequent symbols get the four two-bit codes.
    let root = build("abcd").unwrap();
    let map = generate_coding_map(root);
    assert_eq!(map.len(), 4);
    let mut codes: Vec<String> = map
        .iter()
        .map(|e| e.1.iter().map(|b| if *b { '1' } else { '0' }).collect())
        .collect();
    codes.sort();
    codes.dedup();
    assert_eq!(codes, vec!["00", "01", "10", "11"]);

    let encoded = encode("abcd").unwrap();
    // Header: 7 bytes + 4 entries of 7 bytes; payload: bit count + 1 byte.
    assert_eq!(u16::from_le_bytes([encoded[5], encoded[6]]), 4);
    assert_eq!(
        u32::from_le_bytes([encoded[35], encoded[36], encoded[37], encoded[38]]),
        8
    );
    assert_eq!(encoded.len(), 40); // the packed payload is exactly 1 byte
    round_trip("abcd");
}

#[test]
fn test_empty_text_artifact() {
    let encoded = encode("").unwrap();
    // Signature, version, 0 symbol entries, validBitCount = 0, no payload.
    assert_eq!(encoded, vec![0x43, 0x43, 0x48, 0x46, 1, 0, 0, 0, 0, 0, 0]);
    assert_eq!(u16::from_le_bytes([encoded[5], encoded[6]]), 0);
    assert_eq!(
        u32::from_le_bytes([encoded[7], encoded[8], encoded[9], encoded[10]]),
        0
    );
}

#[test]
fn test_invalid_signature() {
    let data = vec![0x58, 0x58, 0x48, 0x46, 1, 0, 0, 0, 0, 0, 0];
    assert_eq!(decode(data), Err(HuffError::InvalidSignature));
}

#[test]
fn test_invalid_version() {
    let data = vec![0x43, 0x43, 0x48, 0x46, 2, 0, 0, 0, 0, 0, 0];
    assert_eq!(decode(data), Err(HuffError::InvalidSignature));
}

#[test]
fn test_short_input() {
    assert_eq!(decode(vec![0x43, 0x43]), Err(HuffError::UnexpectedEndOfInput));
    assert_eq!(decode(Vec::new()), Err(HuffError::UnexpectedEndOfInput));
}

#[test]
fn test_truncated_artifact() {
    let mut encoded = encode("abcd").unwrap();
    encoded.pop();
    assert_eq!(decode(encoded), Err(HuffError::UnexpectedEndOfInput));
}

#[test]
fn test_truncated_empty_artifact() {
    let mut encoded = encode("").unwrap();
    encoded.pop();
    assert_eq!(decode(encoded), Err(HuffError::UnexpectedEndOfInput));
}

#[test]
fn test_truncated_header() {
    let encoded = encode("abcd").unwrap();
    // Cut in the middle of the symbol entries.
    let cut = encoded[..20].to_vec();
    assert_eq!(decode(cut), Err(HuffError::UnexpectedEndOfInput));
}

#[test]
fn test_invalid_codepoint() {
    // One entry whose codepoint bytes form a surrogate value.
    let mut data = vec![0x43, 0x43, 0x48, 0x46, 1, 1, 0];
    data.extend_from_slice(&0xD800u32.to_le_bytes());
    data.extend_from_slice(&1u16.to_le_bytes());
    data.push(0);
    data.extend_from_slice(&0u32.to_le_bytes());
    assert_eq!(decode(data), Err(HuffError::InvalidCodepoint));
}

#[test]
fn test_incomplete_code() {
    // Table: 'a' -> "00"; a single payload bit cannot end on a code.
    let mut data = vec![0x43, 0x43, 0x48, 0x46, 1, 1, 0];
    data.extend_from_slice(&('a' as u32).to_le_bytes());
    data.extend_from_slice(&2u16.to_le_bytes());
    data.push(0);
    data.extend_from_slice(&1u32.to_le_bytes());
    data.push(0);
    assert_eq!(decode(data), Err(HuffError::IncompleteCode));
}

#[test]
fn test_decode_handcrafted() {
    // Table: 'a' -> "0", 'b' -> "10", 'c' -> "110", 'd' -> "111";
    // payload "abcd" = 0 10 110 111, 9 bits.
    let mut data = vec![0x43, 0x43, 0x48, 0x46, 1, 4, 0];
    for (cp, len, byte) in [
        ('a', 1u16, 0b00000000u8),
        ('b', 2, 0b10000000),
        ('c', 3, 0b11000000),
        ('d', 3, 0b11100000),
    ] {
        data.extend_from_slice(&(cp as u32).to_le_bytes());
        data.extend_from_slice(&len.to_le_bytes());
        data.push(byte);
    }
    data.extend_from_slice(&9u32.to_le_bytes());
    data.push(0b01011011);
    data.push(0b10000000);
    assert_eq!(decode(data).unwrap(), "abcd");
}

#[test]
fn test_pack_bits() {
    let packed = cchuff::bits::pack_bits_exec(&vec![true, false, true]);
    assert_eq!(packed, vec![0b10100000]);
    let packed = cchuff::bits::pack_bits_exec(&vec![
        true, true, true, true, true, true, true, true, true,
    ]);
    assert_eq!(packed, vec![0xFF, 0b10000000]);
    let empty = cchuff::bits::pack_bits_exec(&Vec::new());
    assert_eq!(empty, Vec::<u8>::new());
}

#[test]
fn test_encode_fits() {
    assert!(encode_fits_exec(""));
    assert!(encode_fits_exec("hello world"));
    assert!(encode_fits_exec("aaaa"));
}

#[test]
fn test_round_trip_many_symbols() {
    let text: String = (0x100u32..0x300u32)
        .filter_map(char::from_u32)
        .collect();
    round_trip(&text);
}

#[test]
fn test_distinct_symbol_limit() {
    // More than u16::MAX distinct symbols cannot be represented in the
    // header's symbol count.
    let text: String = (0u32..0x11000u32).filter_map(char::from_u32).collect();
    assert!(text.chars().count() > 0xFFFF);
    assert!(!encode_fits_exec(&text));
}
