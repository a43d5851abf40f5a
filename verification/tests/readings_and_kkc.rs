use rsmarisa::grimoire::io::Reader;
use rsmarisa::{Agent, Trie};
use sudachi_wasm::bytes::{read_i16_le, read_u16_le, read_u32_le};
use sudachi_wasm::kkc::{build_kkc_dict, check_kkc_readings, KkcEntry, KkcParams};
use sudachi_wasm::export::load_adjusted_csv;
use sudachi_wasm::lines::split_lines;
use sudachi_wasm::order::{group_by_key, is_before, is_same};
use sudachi_wasm::params::parse_params;
use sudachi_wasm::reading::{
    build_reading_keyed_sections, build_reading_trie_section, check_readings, words_in_hiragana, Word,
};
use sudachi_wasm::table::lay_out;

fn word(id: u32, reading: &str) -> Word {
    Word { id, reading: Some(reading.to_string()) }
}

/// The value that a trie section gives a key, and the size of the section.
fn ask(section: &[u8], key: &str) -> (Option<u32>, usize) {
    let size = read_u32_le(section, 0) as usize;
    let mut reader = Reader::from_bytes(&section[4..4 + size]);
    let mut trie = Trie::new();
    trie.read(&mut reader).unwrap();
    let count = read_u32_le(section, 4 + size) as usize;
    let mut agent = Agent::new();
    agent.set_query_bytes(key.as_bytes());
    let found = trie.lookup(&mut agent);
    let value = if found {
        Some(read_u32_le(section, 8 + size + 4 * agent.key().id()))
    } else {
        None
    };
    (value, 8 + size + 4 * count)
}

fn ids_at(table: &[u8], place: usize) -> Vec<u32> {
    (0..table[place] as usize)
        .map(|i| read_u32_le(table, place + 1 + 4 * i))
        .collect()
}

fn kkc(reading: &str, surface: &str, numbers: (i16, i16, i16, u16)) -> KkcEntry {
    KkcEntry {
        reading_hiragana: reading.to_string(),
        surface: surface.to_string(),
        cost: numbers.0,
        left_id: numbers.1,
        right_id: numbers.2,
        pos_id: numbers.3,
    }
}

#[test]
fn byte_strings_compare_as_slices_do() {
    let samples: [&[u8]; 7] = [b"", b"a", b"ab", b"b", &[0], &[255], b"abc"];
    for a in samples {
        for b in samples {
            assert_eq!(is_before(a, b), a < b);
            assert_eq!(is_same(a, b), a == b);
        }
    }
}

#[test]
fn items_are_grouped_by_key() {
    let keys: Vec<Vec<u8>> = [&b"b"[..], b"a", b"b", b"", b"a", b"ab", b"a"]
        .iter()
        .map(|key| key.to_vec())
        .collect();
    assert_eq!(
        group_by_key(&keys),
        vec![vec![3], vec![1, 4, 6], vec![5], vec![0, 2]]
    );
    assert!(group_by_key(&vec![]).is_empty());
    let many: Vec<Vec<u8>> = (0u32..1000).map(|i| format!("{}", i % 37).into_bytes()).collect();
    let groups = group_by_key(&many);
    assert_eq!(groups.len(), 37);
    for pair in groups.windows(2) {
        assert!(many[pair[0][0]] < many[pair[1][0]]);
    }
    for group in &groups {
        assert!(group.windows(2).all(|pair| pair[0] < pair[1]));
        assert!(group.iter().all(|&i| many[i] == many[group[0]]));
    }
}

#[test]
fn rows_are_laid_out_one_after_the_other() {
    let rows = vec![vec![1, 2], vec![], vec![3], vec![4, 5, 6]];
    let (data, starts) = lay_out(&rows);
    assert_eq!(data, vec![1, 2, 3, 4, 5, 6]);
    assert_eq!(starts, vec![0, 2, 2, 3]);
    for (row, start) in rows.iter().zip(starts) {
        assert_eq!(data[start as usize..start as usize + row.len()], row[..]);
    }
}

#[test]
fn reading_trie_lists_the_words_of_a_reading() {
    let words = vec![
        word(5, "カ"),
        word(6, ""),
        Word { id: 7, reading: None },
        word(8, "ア"),
        word(9, "カ"),
        word(3, "カキ"),
    ];
    assert!(check_readings(&words));
    let out = build_reading_trie_section(&words);
    assert_eq!(read_u32_le(&out, 0), 0x5254_5249);
    assert_eq!(&out[..4], b"IRTR");
    let (place, size) = ask(&out[4..], "カ");
    let table_size = read_u32_le(&out, 4 + size) as usize;
    let table = &out[8 + size..];
    assert_eq!(table.len(), table_size);
    assert_eq!(table, [1, 8, 0, 0, 0, 2, 5, 0, 0, 0, 9, 0, 0, 0, 1, 3, 0, 0, 0]);
    assert_eq!(ids_at(table, place.unwrap() as usize), vec![5, 9]);
    assert_eq!(ids_at(table, ask(&out[4..], "ア").0.unwrap() as usize), vec![8]);
    assert_eq!(ids_at(table, ask(&out[4..], "カキ").0.unwrap() as usize), vec![3]);
    assert_eq!(ask(&out[4..], "キ").0, None);
}

#[test]
fn only_the_first_words_of_a_reading_are_listed() {
    let mut words: Vec<Word> = (0..300).map(|id| word(id, "ア")).collect();
    words.push(word(999, "イ"));
    let out = build_reading_trie_section(&words);
    let (place, size) = ask(&out[4..], "ア");
    let table = &out[8 + size..];
    let listed = ids_at(table, place.unwrap() as usize);
    assert_eq!(listed, (0..255).collect::<Vec<u32>>());
    let next = ask(&out[4..], "イ").0.unwrap() as usize;
    assert_eq!(next, 1 + 4 * 255);
    assert_eq!(ids_at(table, next), vec![999]);
}

#[test]
fn reading_keyed_sections_are_in_hiragana() {
    let words = vec![word(1, "トウ"), word(2, "とう"), word(3, "キョウ"), word(4, "")];
    let converted = words_in_hiragana(&words);
    assert_eq!(converted[0].reading.as_deref(), Some("とう"));
    assert_eq!(converted[0].id, 1);
    assert!(check_readings(&converted));
    let (section, ids) = build_reading_keyed_sections(&words);
    let (place, size) = ask(&section, "とう");
    assert_eq!(size, section.len());
    assert_eq!(ids, [14, 0, 0, 0, 1, 3, 0, 0, 0, 2, 1, 0, 0, 0, 2, 0, 0, 0]);
    assert_eq!(place, Some(5));
    assert_eq!(ask(&section, "きょう").0, Some(0));
    assert_eq!(ask(&section, "トウ").0, None);
}

#[test]
fn no_readings_make_an_empty_table() {
    let out = build_reading_trie_section(&vec![Word { id: 1, reading: None }]);
    assert_eq!(out[out.len() - 4..], [0, 0, 0, 0]);
    let (section, ids) = build_reading_keyed_sections(&vec![]);
    assert_eq!(ids, vec![0, 0, 0, 0]);
    assert_eq!(ask(&section, "ア").0, None);
}

#[test]
fn kkc_dictionary_has_its_entries() {
    let entries = vec![
        kkc("とう", "塔", (100, 1, 2, 3)),
        kkc("か", "火", (-5, -6, -7, 65535)),
        kkc("とう", "東", (200, 4, 5, 6)),
        kkc("か", "塔", (0, 0, 0, 0)),
    ];
    assert!(check_kkc_readings(&entries));
    let out = build_kkc_dict(&entries, KkcParams { alpha: 500, beta: -2 });
    assert_eq!(&out[..4], b"DCKK");
    assert_eq!(read_u32_le(&out, 4), 1);
    assert_eq!(read_u32_le(&out, 8), 4);
    assert_eq!(read_i16_le(&out, 12), 500);
    assert_eq!(read_i16_le(&out, 14), -2);
    let section = &out[16..];
    let (tou, size) = ask(section, "とう");
    let (ka, _) = ask(section, "か");
    assert_eq!(ka, Some(0));
    assert_eq!(tou, Some(2 + 2 * 14));
    assert_eq!(ask(section, "と").0, None);
    let table_at = 16 + size + 4;
    assert_eq!(read_u32_le(&out, 16 + size), 2 * (2 + 2 * 14));
    let pool_at = table_at + 60 + 4;
    assert_eq!(read_u32_le(&out, table_at + 60), 9);
    assert_eq!(&out[pool_at..], "塔火東".as_bytes());
    let row = table_at + 30;
    assert_eq!(read_u16_le(&out, row), 2);
    let fields = |at: usize| {
        (
            read_u32_le(&out, at),
            read_u16_le(&out, at + 4),
            read_i16_le(&out, at + 6),
            read_i16_le(&out, at + 8),
            read_i16_le(&out, at + 10),
            read_u16_le(&out, at + 12),
        )
    };
    assert_eq!(fields(row + 2), (0, 3, 100, 1, 2, 3));
    assert_eq!(fields(row + 16), (6, 3, 200, 4, 5, 6));
    assert_eq!(fields(table_at + 2), (3, 3, -5, -6, -7, 65535));
    assert_eq!(fields(table_at + 16), (0, 3, 0, 0, 0, 0));
}

#[test]
fn kkc_dictionary_of_nothing() {
    let out = build_kkc_dict(&vec![], KkcParams::default());
    assert_eq!(read_u32_le(&out, 8), 0);
    assert_eq!(out[12..16], [0, 0, 0, 0]);
    assert_eq!(out[out.len() - 8..], [0; 8]);
}

#[test]
fn kkc_row_counts_at_most_65535_entries() {
    let entries: Vec<KkcEntry> = (0..65_540)
        .map(|i| kkc("あ", if i % 2 == 0 { "亜" } else { "阿" }, (1, 2, 3, 4)))
        .collect();
    let out = build_kkc_dict(&entries, KkcParams { alpha: 0, beta: 0 });
    assert_eq!(read_u32_le(&out, 8), 2);
    let (_, size) = ask(&out[16..], "あ");
    assert_eq!(read_u32_le(&out, 16 + size), 2 + 65_535 * 14);
    assert_eq!(read_u16_le(&out, 20 + size), 65_535);
}

#[test]
fn kkc_dictionary_cannot_hold_an_empty_reading() {
    assert!(!check_kkc_readings(&vec![kkc("", "x", (0, 0, 0, 0))]));
    assert!(!check_kkc_readings(&vec![
        kkc("あ", "x", (0, 0, 0, 0)),
        kkc("", "x", (0, 0, 0, 0)),
    ]));
}

#[test]
fn kkc_header_counts_different_entries() {
    let csv = "h\n0,あ,ア,A,1,1,1,1\n0,あ,ア,A,1,1,1,1\n";
    let entries = load_adjusted_csv(&split_lines(csv));
    assert_eq!(entries.len(), 2);
    let out = build_kkc_dict(&entries, parse_params("{}"));
    assert_eq!(out[8..12], [1, 0, 0, 0]);
    let (_, size) = ask(&out[16..], "あ");
    assert_eq!(read_u32_le(&out, 16 + size), 2 + 2 * 14);
    assert_eq!(read_u16_le(&out, 20 + size), 2);
}

#[test]
fn kkc_entries_differ_in_any_of_their_parts() {
    let entries = vec![
        kkc("あ", "亜", (1, 2, 3, 4)),
        kkc("い", "亜", (1, 2, 3, 4)),
        kkc("あ", "阿", (1, 2, 3, 4)),
        kkc("あ", "亜", (-1, 2, 3, 4)),
        kkc("あ", "亜", (1, -2, 3, 4)),
        kkc("あ", "亜", (1, 2, -3, 4)),
        kkc("あ", "亜", (1, 2, 3, 40000)),
        kkc("あい", "亜", (1, 2, 3, 4)),
        kkc("あ", "い亜", (1, 2, 3, 4)),
        kkc("あ", "亜", (1, 2, 3, 4)),
    ];
    let out = build_kkc_dict(&entries, KkcParams { alpha: -5, beta: 6 });
    assert_eq!(read_u32_le(&out, 0), 0x4B4B_4344);
    assert_eq!(read_u32_le(&out, 4), 1);
    assert_eq!(read_u32_le(&out, 8), 9);
    assert_eq!(read_i16_le(&out, 12), -5);
    assert_eq!(read_i16_le(&out, 14), 6);
    let none = build_kkc_dict(&vec![], KkcParams { alpha: 0, beta: 0 });
    assert_eq!(read_u32_le(&none, 8), 0);
}
