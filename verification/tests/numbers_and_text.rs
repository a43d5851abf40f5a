use sudachi_wasm::bytes::{
    low_u32, push_bytes, push_i16, push_len, push_len16, push_u16, push_u32, push_u32s, read_i16_le,
    read_i32_le, read_u16_le, read_u32_le, read_u64_le,
};
use sudachi_wasm::kana::katakana_to_hiragana;
use sudachi_wasm::mode::{parse_mode, Mode};
use sudachi_wasm::params::{extract_json_i16, parse_params};
use sudachi_wasm::text::{
    chars_of, is_white_space, parse_i16, parse_u16, parse_u32, push_integer, push_natural, same_text,
    string_of, trim,
};

#[test]
fn integers_read_little_endian() {
    let buf = [0x01, 0x02, 0xFF, 0xFF, 0x00, 0x80, 0xEF, 0xCD, 0xAB, 0x89];
    assert_eq!(read_u16_le(&buf, 0), 0x0201);
    assert_eq!(read_i16_le(&buf, 2), -1);
    assert_eq!(read_i16_le(&buf, 4), -32768);
    assert_eq!(read_u32_le(&buf, 0), 0xFFFF_0201);
    assert_eq!(read_i32_le(&buf, 2), -2_147_418_113);
    assert_eq!(read_u64_le(&buf, 2), 0x89AB_CDEF_8000_FFFF);
}

#[test]
fn written_integers_read_back() {
    for n in [i16::MIN, -256, -1, 0, 1, 255, 256, i16::MAX] {
        let mut out = vec![9];
        push_i16(&mut out, n);
        assert_eq!(out[1..], n.to_le_bytes());
        assert_eq!(read_i16_le(&out, 1), n);
    }
    for n in [0u32, 1, 0xFFFF, 0x1_0000, 0x8000_0000, u32::MAX] {
        let mut out = vec![];
        push_u32(&mut out, n);
        assert_eq!(out, n.to_le_bytes());
        assert_eq!(read_u32_le(&out, 0), n);
        assert_eq!(read_i32_le(&out, 0), n as i32);
    }
    let mut out = vec![];
    push_u16(&mut out, 0xABCD);
    push_u32s(&mut out, &[1, 0x0203_0405]);
    push_bytes(&mut out, &[7, 7]);
    assert_eq!(out, vec![0xCD, 0xAB, 1, 0, 0, 0, 5, 4, 3, 2, 7, 7]);
}

#[test]
fn lengths_are_cut_to_their_low_bits() {
    let mut out = vec![];
    push_len(&mut out, 0x1_2345_6789);
    push_len16(&mut out, 0x12_3456);
    assert_eq!(out, vec![0x89, 0x67, 0x45, 0x23, 0x56, 0x34]);
    assert_eq!(low_u32(0x1_2345_6789), 0x2345_6789);
}

#[test]
fn numbers_are_read_as_the_standard_library_reads_them() {
    let cases = [
        "", "+", "-", "0", "-0", "+0", "007", "+5", "-5", "32767", "32768", "-32768", "-32769",
        "65535", "65536", "4294967295", "4294967296", "99999999999999999999", "1_000", " 1", "1 ",
        "0x10", "--5", "+-5", "5-", "\u{ff15}", "-99999999999999999999", "000000000000000000000012",
        "100000000000", "100000000001", "1.5",
    ];
    for case in cases {
        assert_eq!(parse_i16(case), case.parse::<i16>().ok(), "{}", case);
        assert_eq!(parse_u16(case), case.parse::<u16>().ok(), "{}", case);
        assert_eq!(parse_u32(case), case.parse::<u32>().ok(), "{}", case);
    }
    for n in i16::MIN..=i16::MAX {
        let mut text = String::new();
        push_integer(&mut text, n);
        assert_eq!(text, n.to_string());
        assert_eq!(parse_i16(&text), Some(n));
    }
    for n in [0u64, 9, 10, 99, 100, 4294967295, u64::MAX] {
        let mut text = String::from("n=");
        push_natural(&mut text, n);
        assert_eq!(text, format!("n={}", n));
    }
}

#[test]
fn white_space_is_that_of_the_standard_library() {
    for n in 0..=0x10FFFFu32 {
        if let Some(c) = char::from_u32(n) {
            assert_eq!(is_white_space(c), c.is_whitespace(), "U+{:04X}", n);
        }
    }
    for text in ["", "  ", " a ", "\t\n a b \u{3000}", "a", "\u{85}x\u{a0}"] {
        let chars: Vec<char> = text.chars().collect();
        let kept: String = trim(&chars).iter().collect();
        assert_eq!(kept, text.trim());
    }
}

#[test]
fn characters_and_strings() {
    assert_eq!(chars_of("a\u{3042}\u{1F600}"), vec!['a', '\u{3042}', '\u{1F600}']);
    assert_eq!(string_of(&['x', '\u{3042}']), "x\u{3042}");
    assert!(same_text("", ""));
    assert!(same_text("\u{3042}b", "\u{3042}b"));
    assert!(!same_text("ab", "ac"));
    assert!(!same_text("ab", "abc"));
}

#[test]
fn katakana_becomes_hiragana() {
    assert_eq!(katakana_to_hiragana("トウキョウ"), "とうきょう");
    assert_eq!(katakana_to_hiragana("ァヶ"), "ぁゖ");
    assert_eq!(katakana_to_hiragana("ヷー゠東京abcとう"), "ヷー゠東京abcとう");
    assert_eq!(katakana_to_hiragana(""), "");
    for n in 0..=0x10FFFFu32 {
        if let Some(c) = char::from_u32(n) {
            let expected = if (0x30A1..=0x30F6).contains(&n) {
                char::from_u32(n - 0x60).unwrap()
            } else {
                c
            };
            let converted = katakana_to_hiragana(&c.to_string());
            assert_eq!(converted, expected.to_string());
            assert_eq!(katakana_to_hiragana(&converted), converted);
        }
    }
}

#[test]
fn modes_are_letters_in_either_case() {
    assert_eq!(parse_mode("A"), Mode::A);
    assert_eq!(parse_mode("a"), Mode::A);
    assert_eq!(parse_mode("B"), Mode::B);
    assert_eq!(parse_mode("b"), Mode::B);
    for other in ["C", "c", "", "AA", "ab", " A", "D", "\u{ff21}"] {
        assert_eq!(parse_mode(other), Mode::C);
    }
    for n in 0..=0x10FFFFu32 {
        if let Some(c) = char::from_u32(n) {
            let text = c.to_string();
            let expected = match text.to_uppercase().as_str() {
                "A" => Mode::A,
                "B" => Mode::B,
                _ => Mode::C,
            };
            assert_eq!(parse_mode(&text), expected);
        }
    }
}

#[test]
fn json_numbers_follow_their_key() {
    let json = "{\n  \"alpha\" : -450 ,\n  \"beta\":\t9000}";
    assert_eq!(extract_json_i16(json, "alpha"), Some(-450));
    assert_eq!(extract_json_i16(json, "beta"), Some(9000));
    assert_eq!(extract_json_i16(json, "gamma"), None);
    assert_eq!(extract_json_i16("{\"alpha\"}", "alpha"), None);
    assert_eq!(extract_json_i16("{\"alpha\": }", "alpha"), None);
    assert_eq!(extract_json_i16("{\"alpha\": \"5\"}", "alpha"), None);
    assert_eq!(extract_json_i16("{\"alpha\": 40000}", "alpha"), None);
    assert_eq!(extract_json_i16("{\"alpha\": --4}", "alpha"), None);
    assert_eq!(extract_json_i16("{\"alpha\": 12.9}", "alpha"), Some(12));
    assert_eq!(extract_json_i16("{\"alpha\": 7", "alpha"), Some(7));
    assert_eq!(
        extract_json_i16("{\"alphabet\": 1, \"alpha\": 2, \"alpha\": 3}", "alpha"),
        Some(2)
    );
    assert_eq!(extract_json_i16("{\"note\": \"alpha\", \"x\": 4}", "alpha"), Some(4));
    assert_eq!(extract_json_i16("", "alpha"), None);
    assert_eq!(extract_json_i16("\"\":3", ""), Some(3));
}

#[test]
fn parameters_have_defaults() {
    let given = parse_params("{\"alpha\": 1, \"beta\": -2}");
    assert_eq!((given.alpha, given.beta), (1, -2));
    let missing = parse_params("{}");
    assert_eq!((missing.alpha, missing.beta), (500, 12000));
    let broken = parse_params("{\"alpha\": x, \"beta\": 99999}");
    assert_eq!((broken.alpha, broken.beta), (500, 12000));
}
