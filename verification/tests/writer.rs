use cchuff::encoder::{write_data, write_header};
use cchuff::HuffError;

fn bits(s: &str) -> Vec<bool> {
    s.chars().map(|c| c == '1').collect()
}

fn create_test_map() -> Vec<(char, Vec<bool>)> {
    vec![
        ('a', bits("0")),
        ('b', bits("10")),
        ('c', bits("110")),
        ('d', bits("111")),
    ]
}

#[test]
fn test_write_header() {
    let map = create_test_map();
    let written = write_header(&map);

    assert_eq!(&written[0..4], b"CCHF");
    assert_eq!(written[4], 1); // version
    assert_eq!(u16::from_le_bytes([written[5], written[6]]), 4); // map length
    // First entry: codepoint 'a', one code bit, one packed byte.
    assert_eq!(u32::from_le_bytes([written[7], written[8], written[9], written[10]]), 'a' as u32);
    assert_eq!(u16::from_le_bytes([written[11], written[12]]), 1);
    assert_eq!(written[13], 0b00000000);
}

#[test]
fn test_write_data() {
    let map = create_test_map();
    let input = "abcd";
    let written = write_data(&map, input).unwrap();

    assert_eq!(written.len(), 6); // 4 bytes for the bit count + 2 bytes of data
    assert_eq!(
        u32::from_le_bytes([written[0], written[1], written[2], written[3]]),
        9
    ); // valid bits
    assert_eq!(written[4], 0b01011011); // encoded data
    assert_eq!(written[5], 0b10000000); // final bit, zero-padded
}

#[test]
fn test_write_complete() {
    let map = create_test_map();
    let input = "abcd";
    let written = cchuff::encoder::write(input, &map).unwrap();

    assert!(written.len() > 9); // header + bit count + data
    assert_eq!(&written[0..4], b"CCHF");
}

#[test]
fn test_write_empty_input() {
    let map: Vec<(char, Vec<bool>)> = Vec::new();
    let input = "";
    let written = cchuff::encoder::write(input, &map).unwrap();

    assert_eq!(written.len(), 11); // CCHF + version + map length (0) + bit count (0)
}

#[test]
fn test_write_single_char() {
    let mut map: Vec<(char, Vec<bool>)> = Vec::new();
    map.push(('a', bits("0")));
    let input = "a";
    let written = cchuff::encoder::write(input, &map).unwrap();

    assert!(written.len() > 11);
    assert_eq!(written[written.len() - 1], 0b00000000); // the zero bit '0', zero-padded
}

#[test]
fn test_write_with_newline() {
    let mut map = create_test_map();
    map.push(('\n', bits("1111")));
    let input = "a\nb";
    let written = cchuff::encoder::write(input, &map).unwrap();

    assert!(written.len() > 11);
    // 1 + 4 + 2 = 7 payload bits: 0 1111 10, zero-padded.
    assert_eq!(written[written.len() - 1], 0b01111100);
}

#[test]
fn test_write_long_input() {
    let map = create_test_map();
    let input = "abcdabcdabcd"; // 27 payload bits, packed into 4 bytes
    let written = cchuff::encoder::write(input, &map).unwrap();

    assert!(written.len() > 15);

    // Header: 7 bytes + 4 entries of 7 bytes each.
    let base = 35;
    assert_eq!(
        u32::from_le_bytes([written[base], written[base + 1], written[base + 2], written[base + 3]]),
        27
    );
    assert_eq!(written[base + 4], 0b01011011);
    assert_eq!(written[base + 5], 0b10101101);
    assert_eq!(written[base + 6], 0b11010110);
    assert_eq!(written[base + 7], 0b11100000); // last byte with padding
    assert_eq!(written.len(), base + 8);
}

#[test]
fn test_write_unknown_symbol() {
    let map = create_test_map();
    let r = cchuff::encoder::write("abx", &map);
    assert_eq!(r, Err(HuffError::UnknownSymbol));
}
