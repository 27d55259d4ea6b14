use cchuff::huffman_tree::{calculate_frequency, generate_coding_map, generate_queue, generate_tree, HuffNode};

fn count_for(table: &[(char, u64)], c: char) -> Option<u64> {
    table.iter().find(|e| e.0 == c).map(|e| e.1)
}

fn code_str(map: &[(char, Vec<bool>)], c: char) -> String {
    let entry = map.iter().find(|e| e.0 == c).expect("symbol missing from code map");
    entry.1.iter().map(|b| if *b { '1' } else { '0' }).collect()
}

#[test]
fn test_calc_freq() {
    let string = "hello world";
    let freq = calculate_frequency(string);

    assert_eq!(count_for(&freq, 'h'), Some(1));
    assert_eq!(count_for(&freq, 'e'), Some(1));
    assert_eq!(count_for(&freq, 'l'), Some(3));
    assert_eq!(count_for(&freq, 'o'), Some(2));
    assert_eq!(count_for(&freq, 'w'), Some(1));
    assert_eq!(count_for(&freq, 'd'), Some(1));
    assert_eq!(count_for(&freq, 'r'), Some(1));
    assert_eq!(count_for(&freq, ' '), Some(1));
    assert_eq!(freq.len(), 8);

    // The table is kept in ascending codepoint order.
    for w in freq.windows(2) {
        assert!((w[0].0 as u32) < (w[1].0 as u32));
    }
}

fn leaf(c: char, freq: u64) -> HuffNode {
    HuffNode { value: Some(c), freq, left: None, right: None }
}

#[test]
fn test_code_map() {
    let mut vec = vec![
        leaf('C', 32),
        leaf('D', 42),
        leaf('E', 120),
        leaf('K', 7),
        leaf('L', 42),
        leaf('M', 24),
        leaf('U', 37),
        leaf('Z', 2),
    ];
    vec.sort_by_key(|node| node.freq);

    let res = generate_tree(vec);
    let map = generate_coding_map(res);

    assert_eq!(map.len(), 8);
    assert_eq!(code_str(&map, 'E'), "0");
    assert_eq!(code_str(&map, 'U'), "100");
    assert_eq!(code_str(&map, 'D'), "101");
    assert_eq!(code_str(&map, 'L'), "110");
    assert_eq!(code_str(&map, 'C'), "1110");
    assert_eq!(code_str(&map, 'M'), "11111");
    assert_eq!(code_str(&map, 'Z'), "111100");
    assert_eq!(code_str(&map, 'K'), "111101");

    // No code is a prefix of another.
    for (c1, code1) in map.iter().map(|e| (e.0, code_str(&map, e.0))) {
        for (c2, code2) in map.iter().map(|e| (e.0, code_str(&map, e.0))) {
            if c1 != c2 {
                assert!(!code1.starts_with(&code2));
                assert!(!code2.starts_with(&code1));
            }
        }
    }
}

#[test]
fn test_generate_queue_order() {
    let freq = calculate_frequency("aabbc");
    let queue = generate_queue(&freq);
    assert_eq!(queue.len(), 3);
    assert_eq!(queue[0].value, Some('a'));
    assert_eq!(queue[0].freq, 2);
    assert_eq!(queue[1].value, Some('b'));
    assert_eq!(queue[1].freq, 2);
    assert_eq!(queue[2].value, Some('c'));
    assert_eq!(queue[2].freq, 1);
}

#[test]
fn test_generate_tree_weight() {
    let freq = calculate_frequency("aaabbc");
    let queue = generate_queue(&freq);
    let tree = generate_tree(queue);
    assert_eq!(tree.freq, 6);
    assert_eq!(tree.value, None);
}

#[test]
fn test_single_symbol_code_map() {
    let root = match cchuff::huffman_tree::build("aaaa") {
        Some(root) => root,
        None => panic!("a non-empty text must yield a tree"),
    };
    assert_eq!(root.value, Some('a'));
    assert_eq!(root.freq, 4);
    let map = generate_coding_map(root);
    assert_eq!(map.len(), 1);
    assert_eq!(map[0].0, 'a');
    assert_eq!(map[0].1, vec![false]);
}

#[test]
fn test_build_empty_text_has_no_tree() {
    assert!(cchuff::huffman_tree::build("").is_none());
}
