use rsmarisa::grimoire::io::Reader;
use rsmarisa::{Agent, Trie};
use std::collections::HashMap;
use sudachi_wasm::bytes::{read_i16_le, read_u32_le};
use sudachi_wasm::convert::{
    append_reading_trie, assemble, plan_conversion, swap_to_readings, Conversion, ConvertError,
};
use sudachi_wasm::grammar::{
    check_grammar, has_grammar, has_synonym_group_ids, parse_grammar, SYSTEM_DICT_V1, SYSTEM_DICT_V2,
    USER_DICT_V2, USER_DICT_V3,
};
use sudachi_wasm::marisa::{build_marisa_section, check_keys};
use sudachi_wasm::matrix::{bitpack_connection_matrix, PackedBlock};
use sudachi_wasm::reading::{build_reading_keyed_sections, build_reading_trie_section, Word};
use sudachi_wasm::word_info::vbyte_encode_word_infos;
use sudachi_wasm::yada::{
    check_yada, extract_yada_entries, parse_yada_array, yada_dfs, yada_has_leaf, yada_label,
    yada_offset, yada_value,
};

const VALUE: u32 = 1 << 31;

/// A unit that the byte leads to, whose children are at `node`.
fn unit(at: usize, byte: u8, leaf: bool, node: usize) -> u32 {
    byte as u32 | (leaf as u32) << 8 | ((at ^ node) as u32) << 10
}

/// A trie with the keys "a", "ab" and "c", and "b" on the way to "bd".
fn small_trie() -> Vec<u32> {
    let mut array = vec![VALUE; 2048];
    array[0] = 256 << 10;
    let a = 256 ^ 0x61;
    array[a] = unit(a, b'a', true, 512);
    array[512] = VALUE | 11;
    let ab = 512 ^ 0x62;
    array[ab] = unit(ab, b'b', true, 768);
    array[768] = VALUE | 22;
    let b = 256 ^ 0x62;
    array[b] = unit(b, b'b', false, 1024);
    let bd = 1024 ^ 0x64;
    array[bd] = unit(bd, b'd', true, 1280);
    array[1280] = VALUE | 0x7FFF_FFFF;
    let c = 256 ^ 0x63;
    array[c] = unit(c, b'c', true, 1536);
    array[1536] = VALUE;
    array
}

fn small_entries() -> Vec<(Vec<u8>, u32)> {
    vec![
        (b"a".to_vec(), 11),
        (b"ab".to_vec(), 22),
        (b"bd".to_vec(), 0x7FFF_FFFF),
        (b"c".to_vec(), 0),
    ]
}

fn record(id: u32) -> Vec<u8> {
    let mut out = vec![1, b'a', 0, 1, 3, 0, 0];
    out.extend_from_slice(&(-1i32).to_le_bytes());
    out.push(0);
    out.push(1);
    out.extend_from_slice(&id.to_le_bytes());
    out.extend_from_slice(&[0, 0]);
    out
}

/// A dictionary of a version, with the given grammar section.
fn dictionary(version: u64, grammar: &[u8]) -> Vec<u8> {
    let mut out = version.to_le_bytes().to_vec();
    out.resize(272, 0x55);
    out.extend_from_slice(grammar);
    let trie = small_trie();
    out.extend_from_slice(&(trie.len() as u32).to_le_bytes());
    for unit in trie {
        out.extend_from_slice(&unit.to_le_bytes());
    }
    out.extend_from_slice(&3u32.to_le_bytes());
    out.extend_from_slice(&[7, 8, 9]);
    out.extend_from_slice(&2u32.to_le_bytes());
    for n in [1i16, 2, -3, 4, 5, -6] {
        out.extend_from_slice(&n.to_le_bytes());
    }
    let synonyms = version == SYSTEM_DICT_V2 || version == USER_DICT_V3;
    let mut first = record(70);
    let mut second = record(80);
    if synonyms {
        first.push(0);
        second.push(0);
    }
    let place = out.len() + 8;
    out.extend_from_slice(&(place as u32).to_le_bytes());
    out.extend_from_slice(&((place + first.len()) as u32).to_le_bytes());
    out.extend_from_slice(&first);
    out.extend_from_slice(&second);
    out
}

/// One part of speech, and a matrix with two left and three right numbers.
fn grammar_section() -> Vec<u8> {
    let mut out = vec![1, 0];
    out.extend_from_slice(&[1, b'x', 0]);
    out.extend_from_slice(&[0x80, 0x02, 1, 2, 3, 4]);
    out.extend_from_slice(&[0, 0, 0]);
    out.extend_from_slice(&[1, b'*', 0]);
    out.extend_from_slice(&2i16.to_le_bytes());
    out.extend_from_slice(&3i16.to_le_bytes());
    for cost in [10i16, 20, 30, 40, 50, 60] {
        out.extend_from_slice(&cost.to_le_bytes());
    }
    out
}

const POS_SIZE: usize = 2 + 3 + 6 + 3 + 3 + 4;

fn failure(result: Result<Conversion, ConvertError>) -> Option<ConvertError> {
    result.err()
}

fn find(section: &[u8], key: &[u8]) -> Option<u32> {
    let size = read_u32_le(section, 0) as usize;
    let mut reader = Reader::from_bytes(&section[4..4 + size]);
    let mut trie = Trie::new();
    trie.read(&mut reader).unwrap();
    let mut agent = Agent::new();
    agent.set_query_bytes(key);
    if trie.lookup(&mut agent) {
        Some(read_u32_le(section, 8 + size + 4 * agent.key().id()))
    } else {
        None
    }
}

#[test]
fn units_are_taken_apart() {
    assert_eq!(yada_label(0x8000_01FF), 0x8000_00FF);
    assert_eq!(yada_label(0x7FFF_FF00), 0);
    assert!(yada_has_leaf(0x100));
    assert!(!yada_has_leaf(0xFFFF_FEFF));
    assert_eq!(yada_offset(0x0000_0400), 1);
    assert_eq!(yada_offset(0x0000_0600), 256);
    assert_eq!(yada_offset(0xFFFF_FFFF), 0x3FFF_FF00);
    assert_eq!(yada_offset(0xFFFF_FDFF), 0x003F_FFFF);
    assert_eq!(yada_value(0xFFFF_FFFF), 0x7FFF_FFFF);
    assert_eq!(yada_value(5), 5);
    for n in [0u32, 1, 0x1FF, 0x200, 0x3FF, 0x400, 0xDEAD_BEEF, 0x8000_0000, u32::MAX] {
        assert_eq!(yada_label(n), n & ((1 << 31) | 0xFF));
        assert_eq!(yada_has_leaf(n), (n >> 8) & 1 == 1);
        assert_eq!(yada_offset(n), (n >> 10) << ((n & (1 << 9)) >> 6));
        assert_eq!(yada_value(n), n & ((1 << 31) - 1));
    }
}

#[test]
fn tries_are_read_from_their_size_on() {
    let mut buf = vec![9, 2, 0, 0, 0];
    buf.extend_from_slice(&[1, 2, 3, 4, 5, 6, 7, 8, 99]);
    assert_eq!(parse_yada_array(&buf, 1), (vec![0x0403_0201, 0x0807_0605], 13));
    assert_eq!(parse_yada_array(&[0; 4], 0), (vec![], 4));
}

#[test]
fn keys_are_extracted_in_order() {
    let array = small_trie();
    assert!(check_yada(&array));
    assert_eq!(extract_yada_entries(&array), small_entries());
    assert!(check_yada(&[]));
    assert!(extract_yada_entries(&[]).is_empty());
    let mut path = vec![1, 2];
    let mut results = vec![(vec![], 5)];
    yada_dfs(&array, 1024, &mut path, &mut results);
    assert_eq!(path, vec![1, 2]);
    assert_eq!(results, vec![(vec![], 5), (vec![1, 2, b'd'], 0x7FFF_FFFF)]);
}

#[test]
fn values_past_the_end_are_left_out() {
    let mut array = vec![VALUE; 512];
    array[0] = 256 << 10;
    let a = 256 ^ 0x61;
    array[a] = unit(a, b'a', true, 4096);
    assert!(check_yada(&array));
    assert!(extract_yada_entries(&array).is_empty());
}

#[test]
fn circles_are_noticed() {
    assert!(!check_yada(&[0]));
    let mut array = small_trie();
    let e = 768 ^ 0x65;
    array[e] = unit(e, b'e', false, 512);
    assert!(!check_yada(&array));
    let mut shared = small_trie();
    let f = 1280 ^ 0x66;
    shared[f] = unit(f, b'f', false, 512);
    assert!(check_yada(&shared));
    assert_eq!(
        extract_yada_entries(&shared)[3],
        (b"bdfb".to_vec(), 22)
    );
}

#[test]
fn versions_tell_what_a_dictionary_has() {
    for version in [SYSTEM_DICT_V1, SYSTEM_DICT_V2, USER_DICT_V2, USER_DICT_V3] {
        assert!(has_grammar(version));
        assert!(!has_grammar(version ^ 1));
    }
    assert!(!has_grammar(0x9fdeb5a90168d867));
    assert!(has_synonym_group_ids(SYSTEM_DICT_V2));
    assert!(has_synonym_group_ids(USER_DICT_V3));
    assert!(!has_synonym_group_ids(SYSTEM_DICT_V1));
    assert!(!has_synonym_group_ids(USER_DICT_V2));
}

#[test]
fn grammar_sections_are_read() {
    let mut buf = vec![0xAB; 3];
    buf.extend_from_slice(&grammar_section());
    assert!(check_grammar(&buf, 3));
    let (pos, left, right, start, end) = parse_grammar(&buf, 3);
    assert_eq!(pos, buf[3..3 + POS_SIZE]);
    assert_eq!((left, right), (2, 3));
    assert_eq!((start, end), (3 + POS_SIZE, 3 + POS_SIZE + 12));
    for cut in 0..3 + POS_SIZE {
        assert!(!check_grammar(&buf[..cut], 3));
    }
    assert!(check_grammar(&buf[..3 + POS_SIZE], 3));
    assert!(!check_grammar(&buf, usize::MAX));
}

#[test]
fn negative_dimensions_count_as_machine_words() {
    let buf = [0, 0, 0xFF, 0xFF, 0, 0];
    assert!(check_grammar(&buf, 0));
    let (_, left, right, start, end) = parse_grammar(&buf, 0);
    assert_eq!((left, right, start, end), (usize::MAX, 0, 6, 6));
    assert!(!check_grammar(&[0, 0, 0xFF, 0xFF, 1, 0], 0));
    assert!(!check_grammar(&[0, 0, 0xFE, 0xFF, 0xFE, 0xFF], 0));
}

#[test]
fn dictionary_without_grammar_is_converted() {
    let input = dictionary(0x1234, &[]);
    let conversion = plan_conversion(input.clone(), &None, &None).unwrap();
    assert_eq!(conversion.version, 0x1234);
    assert_eq!(conversion.head, input[..272]);
    assert!(conversion.matrix.is_none());
    assert_eq!(conversion.lexicon.trie_units, 2048);
    assert_eq!(conversion.lexicon.entries, small_entries());
    assert!(check_keys(&conversion.lexicon.entries));
    assert_eq!(conversion.lexicon.word_ids, vec![3, 0, 0, 0, 7, 8, 9]);
    assert_eq!(conversion.lexicon.word_params.len(), 16);
    assert_eq!(conversion.lexicon.adjusted, 0);
    assert_eq!(conversion.lexicon.records.len(), 2);
    let records = vec![vec![1, 1], vec![2]];
    let out = assemble(&conversion, &vec![], &records);
    let mut expected = input[..272].to_vec();
    assert_eq!(out.lexicon_offset, 272);
    let section = build_marisa_section(&conversion.lexicon.entries);
    for (key, value) in small_entries() {
        assert_eq!(find(&out.bytes[272..], &key), Some(value));
    }
    assert_eq!(find(&out.bytes[272..], b"b"), None);
    expected.extend_from_slice(&section);
    expected.extend_from_slice(&conversion.lexicon.word_ids);
    assert_eq!(out.word_params_offset, expected.len());
    expected.extend_from_slice(&conversion.lexicon.word_params);
    expected.extend_from_slice(&vbyte_encode_word_infos(&records));
    assert_eq!(out.bytes, expected);
}

#[test]
fn dictionary_with_grammar_is_converted() {
    let input = dictionary(SYSTEM_DICT_V2, &grammar_section());
    let mut patches = HashMap::new();
    patches.insert(65536 + 1, 5i16);
    patches.insert(7 * 65536, 5);
    let mut costs = HashMap::new();
    costs.insert(1u32, 1000i16);
    costs.insert(2, 2000);
    let conversion = plan_conversion(input.clone(), &Some(costs), &Some(patches)).unwrap();
    assert_eq!(conversion.head, input[..272 + POS_SIZE]);
    let matrix = conversion.matrix.as_ref().unwrap();
    assert_eq!((matrix.num_left, matrix.num_right, matrix.applied), (2, 3, 1));
    assert_eq!(matrix.blocks.len(), 1);
    assert_eq!(matrix.blocks[0].min_val, 10);
    assert_eq!(matrix.blocks[0].range, 50);
    assert_eq!(matrix.blocks[0].offsets, vec![0, 10, 20, 35, 40, 50]);
    let params = &conversion.lexicon.word_params;
    assert_eq!(read_u32_le(params, 0), 2);
    let numbers: Vec<i16> = (0..6).map(|i| read_i16_le(params, 4 + 2 * i)).collect();
    assert_eq!(numbers, vec![1, 2, -3, 4, 5, 1000]);
    assert_eq!(conversion.lexicon.adjusted, 1);
    assert_eq!(conversion.lexicon.records[0].len(), 6 + 4 + 1);
    let distances = vec![PackedBlock { bit_width: 6, packed: vec![1, 2, 3, 4, 5] }];
    let out = assemble(&conversion, &distances, &vec![vec![], vec![]]);
    let packed = bitpack_connection_matrix(2, 3, &matrix.blocks, &distances);
    assert_eq!(packed[16..], [10, 0, 6, 1, 2, 3, 4, 5]);
    assert_eq!(out.lexicon_offset, 272 + POS_SIZE + packed.len());
    assert_eq!(out.bytes[..272 + POS_SIZE], input[..272 + POS_SIZE]);
    assert_eq!(out.bytes[272 + POS_SIZE..out.lexicon_offset], packed);
    let unpatched = plan_conversion(input, &None, &None).unwrap();
    assert_eq!(unpatched.head, conversion.head);
    assert_eq!(unpatched.lexicon.word_ids, conversion.lexicon.word_ids);
    assert_eq!(unpatched.lexicon.entries, conversion.lexicon.entries);
}

#[test]
fn adjustments_that_hit_nothing_change_nothing() {
    let input = dictionary(USER_DICT_V2, &grammar_section());
    let plain = plan_conversion(input.clone(), &None, &None).unwrap();
    let adjusted =
        plan_conversion(input, &Some(HashMap::new()), &Some(HashMap::new())).unwrap();
    assert_eq!(plain.lexicon.word_params, adjusted.lexicon.word_params);
    assert_eq!(adjusted.lexicon.adjusted, 0);
    assert_eq!(adjusted.matrix.unwrap().applied, 0);
}

#[test]
fn dictionaries_that_are_cut_are_not_converted() {
    let input = dictionary(SYSTEM_DICT_V1, &grammar_section());
    assert_eq!(
        failure(plan_conversion(input[..271].to_vec(), &None, &None)),
        Some(ConvertError::TooSmall)
    );
    assert_eq!(
        failure(plan_conversion(vec![], &None, &None)),
        Some(ConvertError::TooSmall)
    );
    for cut in [272, 280, 272 + POS_SIZE, 400, 8500, input.len() - 1] {
        assert_eq!(
            failure(plan_conversion(input[..cut].to_vec(), &None, &None)),
            Some(ConvertError::Malformed)
        );
    }
    let mut circular = dictionary(0, &[]);
    circular.truncate(272);
    circular.extend_from_slice(&[1, 0, 0, 0, 0, 0, 0, 0, 0, 0, 0, 0, 0, 0, 0, 0]);
    assert_eq!(
        failure(plan_conversion(circular, &None, &None)),
        Some(ConvertError::Malformed)
    );
    assert!(plan_conversion(input, &None, &None).is_ok());
}

#[test]
fn smallest_dictionary_is_converted() {
    let mut input = vec![0; 272];
    input.extend_from_slice(&[0; 12]);
    let conversion = plan_conversion(input, &None, &None).unwrap();
    assert!(conversion.lexicon.entries.is_empty());
    assert_eq!(conversion.lexicon.word_ids, vec![0; 4]);
    assert_eq!(conversion.lexicon.word_params, vec![0; 4]);
    assert!(conversion.lexicon.records.is_empty());
}

#[test]
fn readings_replace_the_trie_and_the_word_numbers() {
    let words = vec![
        Word { id: 4, reading: Some("カ".to_string()) },
        Word { id: 5, reading: None },
    ];
    let (section, ids) = build_reading_keyed_sections(&words);
    let swapped = swap_to_readings(&[1, 2, 3, 4, 5, 6], 2, 5, &words);
    let mut expected = vec![1, 2];
    expected.extend_from_slice(&section);
    expected.extend_from_slice(&ids);
    expected.push(6);
    assert_eq!(swapped, expected);
    assert_eq!(find(&swapped[2..], "か".as_bytes()), Some(0));
    assert_eq!(find(&swapped[2..], "カ".as_bytes()), None);
    let table = swapped.len() - 1 - (ids.len() - 4);
    assert_eq!(swapped[table..table + 5], [1, 4, 0, 0, 0]);
    let mut appended = vec![9, 9];
    append_reading_trie(&mut appended, &words);
    assert_eq!(appended[..2], [9, 9]);
    assert_eq!(appended[2..], build_reading_trie_section(&words));
}
