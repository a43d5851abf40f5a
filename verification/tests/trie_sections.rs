use rsmarisa::grimoire::io::Reader;
use rsmarisa::{Agent, Trie};
use sudachi_wasm::bytes::read_u32_le;
use sudachi_wasm::marisa::{build_marisa_section, check_keys, marisa_section};
use sudachi_wasm::prefix::has_few_prefixes;

fn entry(key: &[u8], value: u32) -> (Vec<u8>, u32) {
    (key.to_vec(), value)
}

/// The trie and the table of values of a section, which has to end with the table.
fn open_section(section: &[u8]) -> (Trie, Vec<u32>) {
    let size = read_u32_le(section, 0) as usize;
    let mut reader = Reader::from_bytes(&section[4..4 + size]);
    let mut trie = Trie::new();
    trie.read(&mut reader).unwrap();
    let count = read_u32_le(section, 4 + size) as usize;
    assert_eq!(section.len(), 8 + size + 4 * count);
    let table = (0..count)
        .map(|i| read_u32_le(section, 8 + size + 4 * i))
        .collect();
    (trie, table)
}

fn find(trie: &Trie, table: &[u32], key: &[u8]) -> Option<u32> {
    let mut agent = Agent::new();
    agent.set_query_bytes(key);
    if trie.lookup(&mut agent) {
        Some(table[agent.key().id()])
    } else {
        None
    }
}

#[test]
fn section_layout_is_exact() {
    assert_eq!(
        marisa_section(&[7, 8, 9], &[0x0102_0304, 5]),
        vec![3, 0, 0, 0, 7, 8, 9, 2, 0, 0, 0, 4, 3, 2, 1, 5, 0, 0, 0]
    );
    assert_eq!(marisa_section(&[], &[]), vec![0; 8]);
}

#[test]
fn section_answers_each_key_with_its_value() {
    let entries = vec![
        entry(b"tokyo", 10),
        entry(b"to", 20),
        entry(b"kyoto", 30),
        entry(b"k", 40),
        entry("\u{6771}\u{4eac}".as_bytes(), 50),
        entry(&[0, 255, 0], 60),
    ];
    assert!(check_keys(&entries));
    let section = build_marisa_section(&entries);
    let (trie, table) = open_section(&section);
    assert_eq!(trie.num_keys(), 6);
    assert_eq!(table.len(), 6);
    for (key, value) in &entries {
        assert_eq!(find(&trie, &table, key), Some(*value));
    }
    assert_eq!(find(&trie, &table, b"toky"), None);
    assert_eq!(find(&trie, &table, b"tokyoto"), None);
    assert_eq!(find(&trie, &table, b""), None);
}

#[test]
fn last_value_of_an_equal_key_counts() {
    let entries = vec![entry(b"a", 1), entry(b"b", 2), entry(b"a", 3)];
    let section = build_marisa_section(&entries);
    let (trie, table) = open_section(&section);
    assert_eq!(trie.num_keys(), 2);
    assert_eq!(find(&trie, &table, b"a"), Some(3));
    assert_eq!(find(&trie, &table, b"b"), Some(2));
}

#[test]
fn section_of_no_keys() {
    let section = build_marisa_section(&vec![]);
    let (trie, table) = open_section(&section);
    assert_eq!(trie.num_keys(), 0);
    assert!(table.is_empty());
    assert!(read_u32_le(&section, 0) > 0);
}

#[test]
fn section_with_an_empty_key() {
    let entries = vec![entry(b"x", 8), entry(b"", 7)];
    assert!(check_keys(&entries));
    let section = build_marisa_section(&entries);
    let (trie, table) = open_section(&section);
    assert_eq!(trie.num_keys(), 2);
    assert_eq!(find(&trie, &table, b""), Some(7));
    assert_eq!(find(&trie, &table, b"x"), Some(8));
    assert_eq!(find(&trie, &table, b"y"), None);
}

#[test]
fn empty_key_needs_a_short_key_before_it() {
    assert!(check_keys(&vec![]));
    assert!(!check_keys(&vec![entry(b"", 9)]));
    assert!(!check_keys(&vec![entry(b"", 7), entry(b"x", 8)]));
    assert!(!check_keys(&vec![entry(&[1; 1025], 7), entry(b"", 8)]));
    let entries = vec![entry(&[1; 1024], 7), entry(b"", 8), entry(&[1; 1025], 9)];
    assert!(check_keys(&entries));
    let (trie, table) = open_section(&build_marisa_section(&entries));
    assert_eq!(find(&trie, &table, &[1; 1024]), Some(7));
    assert_eq!(find(&trie, &table, b""), Some(8));
    assert_eq!(find(&trie, &table, &[1; 1025]), Some(9));
}

#[test]
fn section_of_many_keys() {
    let mut entries = Vec::new();
    for i in 0u32..5000 {
        let key = format!("{:x}-{}", i.wrapping_mul(2_654_435_761), i % 7);
        entries.push((key.into_bytes(), i));
    }
    let section = build_marisa_section(&entries);
    let (trie, table) = open_section(&section);
    assert_eq!(trie.num_keys(), 5000);
    for (key, value) in &entries {
        assert_eq!(find(&trie, &table, key), Some(*value));
    }
    assert_eq!(build_marisa_section(&entries), section);
}

#[test]
fn beginnings_of_keys_are_counted_once() {
    let keys: Vec<Vec<u8>> = ["abd", "ab", "abc", "abd", "b"]
        .iter()
        .map(|key| key.as_bytes().to_vec())
        .collect();
    assert!(has_few_prefixes(&keys, 5));
    assert!(!has_few_prefixes(&keys, 4));
    assert!(has_few_prefixes(&vec![], 0));
    assert!(has_few_prefixes(&vec![vec![]], 0));
    assert!(!has_few_prefixes(&vec![vec![], vec![0]], 0));
}

#[test]
fn keys_with_a_long_common_beginning() {
    let entries: Vec<(Vec<u8>, u32)> = (0..40u32)
        .map(|i| {
            let mut key = vec![b'x'; 600];
            key.extend_from_slice(&i.to_be_bytes());
            (key, 1000 + i)
        })
        .collect();
    let keys: Vec<Vec<u8>> = entries.iter().map(|entry| entry.0.clone()).collect();
    assert!(has_few_prefixes(&keys, 643));
    assert!(!has_few_prefixes(&keys, 642));
    assert!(check_keys(&entries));
    let (trie, table) = open_section(&build_marisa_section(&entries));
    assert_eq!(trie.num_keys(), 40);
    for (key, value) in &entries {
        assert_eq!(find(&trie, &table, key), Some(*value));
    }
}
