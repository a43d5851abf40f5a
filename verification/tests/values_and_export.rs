use sudachi_wasm::adjust::{load_cost_csv, load_matrix_patches};
use sudachi_wasm::csv::{csv_escape, parse_csv_line, split_commas};
use sudachi_wasm::export::{
    export_dict, load_adjusted_csv, wants_text, ExportWord, WordText, EXPORT_HEADER,
};
use sudachi_wasm::lines::split_lines;

fn lines(text: &[&str]) -> Vec<String> {
    text.iter().map(|line| line.to_string()).collect()
}

fn word(
    numbers: (i16, i16, i16),
    surface: &str,
    reading: &str,
    katakana: &str,
    pos: (u16, &[&str]),
) -> ExportWord {
    ExportWord {
        left_id: numbers.0,
        right_id: numbers.1,
        cost: numbers.2,
        text: Some(WordText {
            surface: surface.to_string(),
            reading: reading.to_string(),
            katakana: katakana.to_string(),
            pos_id: pos.0,
            pos: lines(pos.1),
        }),
    }
}

#[test]
fn fields_are_quoted_where_they_have_to_be() {
    assert_eq!(csv_escape("plain"), "plain");
    assert_eq!(csv_escape(""), "");
    assert_eq!(csv_escape("a,b"), "\"a,b\"");
    assert_eq!(csv_escape("say \"hi\""), "\"say \"\"hi\"\"\"");
    assert_eq!(csv_escape("two\nlines"), "\"two\nlines\"");
    assert_eq!(csv_escape("cr\ronly"), "cr\ronly");
}

#[test]
fn lines_are_split_into_fields() {
    assert_eq!(parse_csv_line(""), vec![""]);
    assert_eq!(parse_csv_line("a,b,,c"), vec!["a", "b", "", "c"]);
    assert_eq!(parse_csv_line("\"a,b\",c"), vec!["a,b", "c"]);
    assert_eq!(parse_csv_line("\"a\"\"b\",\"\""), vec!["a\"b", ""]);
    assert_eq!(parse_csv_line("x\"y,z\"w"), vec!["xy,zw"]);
    assert_eq!(parse_csv_line("\"open,end"), vec!["open,end"]);
    assert_eq!(parse_csv_line("a\"\"b"), vec!["ab"]);
    assert_eq!(parse_csv_line(","), vec!["", ""]);
}

#[test]
fn written_fields_read_back() {
    let fields = ["a", "", "b,c", "\"", "\"\",\"", "line\nbreak", "\u{65e5}\u{672c}", ","];
    let written: Vec<String> = fields.iter().map(|field| csv_escape(field)).collect();
    assert_eq!(parse_csv_line(&written.join(",")), fields);
}

#[test]
fn lines_are_cut_at_commas() {
    for line in ["", ",", "a,b,c,d", "a", "\"x,y\",z", ",,,"] {
        for n in 0..6 {
            let expected: Vec<&str> = line.splitn(n, ',').collect();
            assert_eq!(split_commas(line, n), expected);
        }
    }
}

#[test]
fn costs_come_from_the_first_and_fifth_part() {
    let costs = load_cost_csv(&lines(&[
        "5,h,k,s,100,rest",
        "0,h,k,s,-200,1,2,3",
        "7,h,k,s,300",
        "8,h,k,s",
        "-1,h,k,s,1,x",
        "9,h,k,s,40000,x",
        "10,h,k,\"a,b\",1,x",
        "7,h,k,s,301,x",
        "4294967295,h,k,s,+7,x",
    ]));
    assert_eq!(costs.len(), 3);
    assert_eq!(costs.get(&0), Some(&-200));
    assert_eq!(costs.get(&7), Some(&301));
    assert_eq!(costs.get(&4294967295), Some(&7));
    assert!(load_cost_csv(&vec![]).is_empty());
}

#[test]
fn patches_are_keyed_by_their_pair() {
    let patches = load_matrix_patches(&lines(&[
        "1,2,3",
        "1,2,-3",
        "65535,65535, 10 ",
        "4,5,6,7,8",
        "1,2",
        " 1,2,3",
        "1,65536,3",
        "2,1,\u{3000}9\t",
        "4,5,60",
    ]));
    assert_eq!(patches.len(), 4);
    assert_eq!(patches.get(&(2 * 65536 + 1)), Some(&-3));
    assert_eq!(patches.get(&u32::MAX), Some(&10));
    assert_eq!(patches.get(&(5 * 65536 + 4)), Some(&60));
    assert_eq!(patches.get(&(65536 + 2)), Some(&9));
}

#[test]
fn words_are_exported_with_their_number() {
    let words = vec![
        word((1, 2, -30), "東京", "トウキョウ", "トウキョウ", (4, &["名詞", "固有名詞"])),
        word((-1, 2, 0), "a", "エー", "エー", (1, &[])),
        word((0, 0, 5), "b,\"c", "びー", "ビー", (2, &["x,y"])),
        word((0, 0, 5), "", "ビー", "ビー", (2, &["x"])),
        word((0, 0, 5), "x", "", "", (2, &["x"])),
        ExportWord { left_id: 3, right_id: 4, cost: 5, text: None },
        word((3, -4, 5), "x", "エックス", "エックス", (2, &["x"])),
    ];
    let export = export_dict(&words);
    assert_eq!(
        export.text,
        "word_id,reading_hiragana,reading_katakana,surface,cost,left_id,right_id,pos_id,pos_str,char_count\n\
         0,とうきょう,トウキョウ,東京,-30,1,2,4,名詞-固有名詞,2\n\
         2,びー,ビー,\"b,\"\"c\",5,0,0,2,\"x,y\",4\n"
    );
    assert_eq!(export.exported, 2);
    assert_eq!(export.skipped, 5);
    assert!(export.text.starts_with(EXPORT_HEADER));
    let none = export_dict(&vec![]);
    assert_eq!(none.text, format!("{}\n", EXPORT_HEADER));
    assert_eq!((none.exported, none.skipped), (0, 0));
}

#[test]
fn text_is_wanted_of_words_that_connect() {
    assert!(wants_text(0, 0));
    assert!(!wants_text(-1, 0));
    assert!(!wants_text(0, -1));
}

#[test]
fn exported_words_read_back_as_entries() {
    let words = vec![
        word((1, 2, -30), "東京", "トウキョウ", "トウキョウ", (4, &["名詞"])),
        word((-1, 0, 0), "skipped", "x", "x", (1, &[])),
        word((7, 8, 9), "a,b\"c", "エービー", "エービー", (65535, &["-"])),
    ];
    let export = export_dict(&words);
    let read: Vec<String> = split_lines(&export.text);
    assert_eq!(read.len(), 3);
    assert_eq!(read[0], EXPORT_HEADER);
    let entries = load_adjusted_csv(&read);
    assert_eq!(entries.len(), 2);
    assert_eq!(entries[0].reading_hiragana, "とうきょう");
    assert_eq!(entries[0].surface, "東京");
    assert_eq!(
        (entries[0].cost, entries[0].left_id, entries[0].right_id, entries[0].pos_id),
        (-30, 1, 2, 4)
    );
    assert_eq!(entries[1].surface, "a,b\"c");
    assert_eq!(entries[1].pos_id, 65535);
    let costs = load_cost_csv(&read);
    assert_eq!(costs.len(), 1);
    assert_eq!(costs.get(&0), Some(&-30));
}

#[test]
fn rows_that_are_not_entries_are_left_out() {
    let entries = load_adjusted_csv(&lines(&[
        "0,heading,k,s,1,2,3,4",
        "0,h,k,s,1,2,3,4",
        "1,h,k,s,1,2,3",
        "2,h,k,s,x,2,3,4",
        "3,h,k,s,1,x,3,4",
        "4,h,k,s,1,2,x,4",
        "5,h,k,s,1,2,3,-4",
        "6,,k,,1,2,3,4,more,fields",
    ]));
    assert_eq!(entries.len(), 2);
    assert_eq!(entries[0].reading_hiragana, "h");
    assert_eq!(entries[1].reading_hiragana, "");
    assert_eq!(entries[1].surface, "");
}

#[test]
fn lines_end_with_breaks_or_with_the_text() {
    for text in ["", "\n", "a", "a\n", "a\r\n", "a\r", "a\r\r\nb\rc\n\n\r\nd", "\r\n\r"] {
        let expected: Vec<String> = std::io::BufRead::lines(text.as_bytes())
            .map(|line| line.unwrap())
            .collect();
        assert_eq!(split_lines(text), expected);
    }
    assert_eq!(split_lines("x\r\n\ny"), lines(&["x", "", "y"]));
}

#[test]
fn line_break_in_a_word_ends_its_line() {
    let words = vec![word((1, 2, 3), "a\nb", "エー", "エー", (4, &["x"]))];
    let read = split_lines(&export_dict(&words).text);
    assert_eq!(read.len(), 3);
    assert!(load_adjusted_csv(&read).is_empty());
}
