//! The words of a dictionary as comma-separated values, and the entries of a kana-kanji conversion
//! dictionary read from such values.

use crate::adjust::cost_row;
use crate::csv::{
    csv_escape, csv_fields, csv_row, doubled, escaped, first_comma, is_first_comma,
    law_csv_reads_back, needs_quotes, parse_csv_line, split_line, texts,
};
use crate::kana::{hiragana, in_hiragana, katakana_to_hiragana};
use crate::kkc::{kkc_views, EntryView, KkcEntry};
use crate::lines::{is_line, law_lines_read_back, lines_of, lines_text};
use crate::text::{
    chars_of, decimal, i16_of, is_digit, law_decimal_reads_back, parse_i16, parse_u16, push_integer,
    push_natural, push_text, u16_of,
};
use vstd::prelude::*;

verus! {

/// The heading of the values.
pub const EXPORT_HEADER: &'static str = "word_id,reading_hiragana,reading_katakana,surface,cost,left_id,right_id,pos_id,pos_str,char_count";

/// What a dictionary says of a word: its surface, its reading, the reading in katakana, and its
/// part of speech by number and by components.
pub struct WordText {
    pub surface: String,
    pub reading: String,
    pub katakana: String,
    pub pos_id: u16,
    pub pos: Vec<String>,
}

/// A word of a dictionary: how it connects, its cost, and its text where that could be read.
pub struct ExportWord {
    pub left_id: i16,
    pub right_id: i16,
    pub cost: i16,
    pub text: Option<WordText>,
}

/// What a dictionary says of a word, by content.
pub struct TextView {
    pub surface: Seq<char>,
    pub reading: Seq<char>,
    pub katakana: Seq<char>,
    pub pos_id: u16,
    pub pos: Seq<Seq<char>>,
}

/// A word of a dictionary, by content.
pub struct WordView {
    pub left_id: i16,
    pub right_id: i16,
    pub cost: i16,
    pub text: Option<TextView>,
}

impl View for WordText {
    type V = TextView;

    open spec fn view(&self) -> TextView {
        TextView {
            surface: self.surface@,
            reading: self.reading@,
            katakana: self.katakana@,
            pos_id: self.pos_id,
            pos: texts(self.pos@),
        }
    }
}

impl View for ExportWord {
    type V = WordView;

    open spec fn view(&self) -> WordView {
        WordView {
            left_id: self.left_id,
            right_id: self.right_id,
            cost: self.cost,
            text: match self.text {
                Some(text) => Some(text@),
                None => None,
            },
        }
    }
}

/// A list of words, by content.
pub open spec fn export_views(words: Seq<ExportWord>) -> Seq<WordView> {
    words.map_values(|word: ExportWord| word@)
}

/// Whether a word connects on both sides, so that its text is wanted.
pub open spec fn connects(left_id: i16, right_id: i16) -> bool {
    left_id >= 0 && right_id >= 0
}

/// Whether a word is exported: it connects on both sides, its text could be read, and neither its
/// reading nor its surface is empty.
pub open spec fn is_exported(word: WordView) -> bool {
    &&& connects(word.left_id, word.right_id)
    &&& word.text matches Some(text) && text.reading.len() > 0 && text.surface.len() > 0
}

/// Parts with hyphens between them.
pub open spec fn hyphenated(parts: Seq<Seq<char>>) -> Seq<char>
    decreases parts.len(),
{
    if parts.len() == 0 {
        Seq::empty()
    } else if parts.len() == 1 {
        parts[0]
    } else {
        hyphenated(parts.drop_last()) + seq!['-'] + parts.last()
    }
}

/// The fields of a word.
pub open spec fn export_fields(word_id: int, word: WordView) -> Seq<Seq<char>> {
    let text = word.text->0;
    seq![
        decimal(word_id),
        in_hiragana(text.katakana),
        text.katakana,
        text.surface,
        decimal(word.cost as int),
        decimal(word.left_id as int),
        decimal(word.right_id as int),
        decimal(text.pos_id as int),
        hyphenated(text.pos),
        decimal(text.surface.len() as int),
    ]
}

/// The lines of the words that are exported, each numbered by its place among all words.
pub open spec fn export_rows(words: Seq<WordView>) -> Seq<Seq<char>>
    decreases words.len(),
{
    if words.len() == 0 {
        Seq::empty()
    } else {
        let before = export_rows(words.drop_last());
        if is_exported(words.last()) {
            before.push(csv_row(export_fields(words.len() - 1, words.last())))
        } else {
            before
        }
    }
}

/// Whether a word connects on both sides, so that its text is wanted.
pub fn wants_text(left_id: i16, right_id: i16) -> (r: bool)
    ensures
        r == connects(left_id, right_id),
{
    left_id >= 0 && right_id >= 0
}

/// Puts parts together with hyphens between them.
fn join_hyphens(parts: &Vec<String>) -> (r: String)
    ensures
        r@ == hyphenated(texts(parts@)),
{
    let ghost views = texts(parts@);
    let mut r: String = String::new();
    let mut i: usize = 0;
    assert(views.take(0) =~= Seq::empty());
    while i < parts.len()
        invariant
            i <= parts@.len(),
            views == texts(parts@),
            r@ == hyphenated(views.take(i as int)),
        decreases parts.len() - i,
    {
        assert(views.take(i + 1).drop_last() =~= views.take(i as int));
        assert(views.take(i + 1).last() == parts@[i as int]@);
        let ghost before = r@;
        if i > 0 {
            r.push('-');
        }
        push_text(&mut r, parts[i].as_str());
        if i > 0 {
            assert(r@ =~= before + seq!['-'] + parts@[i as int]@);
        } else {
            assert(r@ =~= views.take(1)[0]);
        }
        i = i + 1;
    }
    assert(views.take(i as int) =~= views);
    r
}

/// A number in decimal needs no quotes.
proof fn lemma_decimal_plain(n: int)
    ensures
        escaped(decimal(n)) == decimal(n),
        !decimal(n).contains(','),
        !decimal(n).contains('\n'),
{
    law_decimal_reads_back(n);
    let s = decimal(n);
    assert forall|c: char| s.contains(c) implies is_digit(c) || c == '-' by {
        let i = choose|i: int| 0 <= i < s.len() && s[i] == c;
        assert(is_digit(s[i]) || s[i] == '-');
    }
}

/// Takes the first field off a line.
proof fn lemma_row_step(fields: Seq<Seq<char>>)
    requires
        fields.len() > 1,
    ensures
        csv_row(fields) == escaped(fields[0]) + seq![','] + csv_row(fields.drop_first()),
{
    assert(csv_row(fields) =~= escaped(fields[0]) + seq![','] + csv_row(fields.drop_first()));
}

/// Appends a field and a comma to a line.
fn push_field(line: &mut String, field: &str)
    ensures
        final(line)@ == old(line)@ + escaped(field@) + seq![','],
{
    push_text(line, csv_escape(field).as_str());
    line.push(',');
    assert(line@ =~= old(line)@ + escaped(field@) + seq![',']);
}

/// Appends a number that is not negative and a comma to a line.
fn push_natural_field(line: &mut String, n: u64)
    ensures
        final(line)@ == old(line)@ + escaped(decimal(n as int)) + seq![','],
{
    proof {
        lemma_decimal_plain(n as int);
    }
    push_natural(line, n);
    line.push(',');
    assert(line@ =~= old(line)@ + decimal(n as int) + seq![',']);
}

/// Appends a number and a comma to a line.
fn push_integer_field(line: &mut String, n: i16)
    ensures
        final(line)@ == old(line)@ + escaped(decimal(n as int)) + seq![','],
{
    proof {
        lemma_decimal_plain(n as int);
    }
    push_integer(line, n);
    line.push(',');
    assert(line@ =~= old(line)@ + decimal(n as int) + seq![',']);
}

/// A line that has the first fields of a row, and the fields that are left.
spec fn row_so_far(fields: Seq<Seq<char>>, n: int, line: Seq<char>) -> bool {
    0 <= n < fields.len() && csv_row(fields) == line + csv_row(fields.skip(n))
}

/// One more field of a row.
proof fn lemma_row_next(fields: Seq<Seq<char>>, n: int, line: Seq<char>)
    requires
        row_so_far(fields, n, line),
        n + 1 < fields.len(),
    ensures
        row_so_far(fields, n + 1, line + escaped(fields[n]) + seq![',']),
{
    let rest = fields.skip(n);
    lemma_row_step(rest);
    assert(rest.drop_first() =~= fields.skip(n + 1));
    assert(line + csv_row(rest) =~= line + escaped(fields[n]) + seq![','] + csv_row(
        fields.skip(n + 1),
    ));
}

/// The line of a word that is exported.
fn export_row(word_id: u32, word: &ExportWord, text: &WordText) -> (line: String)
    requires
        word@.text == Some(text@),
    ensures
        line@ == csv_row(export_fields(word_id as int, word@)),
{
    let hiragana: String = katakana_to_hiragana(text.katakana.as_str());
    let pos: String = join_hyphens(&text.pos);
    let char_count: usize = chars_of(text.surface.as_str()).len();
    let ghost fields = export_fields(word_id as int, word@);
    let mut line: String = String::new();
    assert(fields.skip(0) =~= fields);
    assert(line@ + csv_row(fields) =~= csv_row(fields));
    assert(row_so_far(fields, 0, line@));
    proof {
        lemma_row_next(fields, 0, line@);
    }
    push_natural_field(&mut line, word_id as u64);
    proof {
        lemma_row_next(fields, 1, line@);
    }
    push_field(&mut line, hiragana.as_str());
    proof {
        lemma_row_next(fields, 2, line@);
    }
    push_field(&mut line, text.katakana.as_str());
    proof {
        lemma_row_next(fields, 3, line@);
    }
    push_field(&mut line, text.surface.as_str());
    proof {
        lemma_row_next(fields, 4, line@);
    }
    push_integer_field(&mut line, word.cost);
    proof {
        lemma_row_next(fields, 5, line@);
    }
    push_integer_field(&mut line, word.left_id);
    proof {
        lemma_row_next(fields, 6, line@);
    }
    push_integer_field(&mut line, word.right_id);
    proof {
        lemma_row_next(fields, 7, line@);
    }
    push_natural_field(&mut line, text.pos_id as u64);
    proof {
        lemma_row_next(fields, 8, line@);
    }
    push_field(&mut line, pos.as_str());
    proof {
        lemma_decimal_plain(char_count as int);
        assert(fields.skip(9) =~= seq![fields[9]]);
    }
    push_natural(&mut line, char_count as u64);
    line
}

/// The exported words: the text, and how many words are in it and how many are not.
pub struct Export {
    pub text: String,
    pub exported: u32,
    pub skipped: u32,
}

/// Exports the words of a dictionary, the word numbered `i` being the one at place `i`.
pub fn export_dict(words: &Vec<ExportWord>) -> (out: Export)
    requires
        words@.len() <= u32::MAX,
    ensures
        out.text@ == lines_text(seq![EXPORT_HEADER@] + export_rows(export_views(words@))),
        out.exported == export_rows(export_views(words@)).len(),
        out.exported + out.skipped == words@.len(),
{
    let ghost views = export_views(words@);
    let ghost head = seq![EXPORT_HEADER@];
    let mut text: String = String::new();
    push_text(&mut text, EXPORT_HEADER);
    text.push('\n');
    proof {
        reveal_with_fuel(lines_text, 2);
        assert(head.drop_last() =~= Seq::<Seq<char>>::empty());
        assert(text@ =~= lines_text(head));
        assert(views.take(0) =~= Seq::<WordView>::empty());
        assert(head + export_rows(views.take(0)) =~= head);
    }
    let mut exported: u32 = 0;
    let mut skipped: u32 = 0;
    let mut i: usize = 0;
    while i < words.len()
        invariant
            i <= words@.len() <= u32::MAX,
            views == export_views(words@),
            head == seq![EXPORT_HEADER@],
            text@ == lines_text(head + export_rows(views.take(i as int))),
            exported == export_rows(views.take(i as int)).len(),
            exported + skipped == i,
        decreases words.len() - i,
    {
        let ghost rows = export_rows(views.take(i as int));
        assert(views.take(i + 1).drop_last() =~= views.take(i as int));
        assert(views.take(i + 1).last() == words@[i as int]@);
        let mut kept: bool = false;
        if wants_text(words[i].left_id, words[i].right_id) {
            if let Some(info) = &words[i].text {
                if !info.reading.as_str().is_empty() && !info.surface.as_str().is_empty() {
                    let line: String = export_row(i as u32, &words[i], info);
                    push_text(&mut text, line.as_str());
                    text.push('\n');
                    kept = true;
                    proof {
                        let all = head + rows.push(line@);
                        assert(all.drop_last() =~= head + rows);
                        assert(text@ =~= lines_text(all));
                    }
                }
            }
        }
        assert(kept == is_exported(views[i as int]));
        if kept {
            exported = exported + 1;
        } else {
            skipped = skipped + 1;
        }
        i = i + 1;
    }
    assert(views.take(i as int) =~= views);
    Export { text, exported, skipped }
}

/// The entry in a line: the second field is the reading, the fourth the surface, and the fifth to
/// eighth are numbers. There is none where a field is missing or is not such a number.
pub open spec fn adjusted_row(line: Seq<char>) -> Option<EntryView> {
    let fields = csv_fields(line);
    if fields.len() >= 8 && i16_of(fields[4]) is Some && i16_of(fields[5]) is Some && i16_of(
        fields[6],
    ) is Some && u16_of(fields[7]) is Some {
        Some(
            EntryView {
                reading: fields[1],
                surface: fields[3],
                cost: i16_of(fields[4])->0 as i16,
                left_id: i16_of(fields[5])->0 as i16,
                right_id: i16_of(fields[6])->0 as i16,
                pos_id: u16_of(fields[7])->0 as u16,
            },
        )
    } else {
        None
    }
}

/// The entries in lines, of which the first is a heading.
pub open spec fn adjusted_entries(lines: Seq<Seq<char>>) -> Seq<EntryView>
    decreases lines.len(),
{
    if lines.len() <= 1 {
        Seq::empty()
    } else {
        let before = adjusted_entries(lines.drop_last());
        match adjusted_row(lines.last()) {
            Some(entry) => before.push(entry),
            None => before,
        }
    }
}

/// The entry in a line.
fn read_adjusted_row(line: &str) -> (r: Option<KkcEntry>)
    ensures
        r is Some <==> adjusted_row(line@) is Some,
        r matches Some(entry) ==> entry@ == adjusted_row(line@)->0,
{
    let fields: Vec<String> = parse_csv_line(line);
    let ghost views = csv_fields(line@);
    assert(fields@.len() == views.len());
    assert forall|i: int| 0 <= i < views.len() implies #[trigger] views[i] == fields@[i]@ by {}
    if fields.len() < 8 {
        return None;
    }
    let cost: i16 = match parse_i16(fields[4].as_str()) {
        Some(n) => n,
        None => return None,
    };
    let left_id: i16 = match parse_i16(fields[5].as_str()) {
        Some(n) => n,
        None => return None,
    };
    let right_id: i16 = match parse_i16(fields[6].as_str()) {
        Some(n) => n,
        None => return None,
    };
    let pos_id: u16 = match parse_u16(fields[7].as_str()) {
        Some(n) => n,
        None => return None,
    };
    Some(
        KkcEntry {
            reading_hiragana: fields[1].clone(),
            surface: fields[3].clone(),
            cost,
            left_id,
            right_id,
            pos_id,
        },
    )
}

/// Reads the entries of a kana-kanji conversion dictionary.
pub fn load_adjusted_csv(lines: &Vec<String>) -> (entries: Vec<KkcEntry>)
    ensures
        kkc_views(entries@) == adjusted_entries(texts(lines@)),
{
    let ghost views = texts(lines@);
    let mut entries: Vec<KkcEntry> = Vec::new();
    assert(kkc_views(entries@) =~= Seq::empty());
    let mut i: usize = 0;
    while i < lines.len()
        invariant
            i <= lines@.len(),
            views == texts(lines@),
            kkc_views(entries@) == adjusted_entries(views.take(i as int)),
        decreases lines.len() - i,
    {
        assert(views.take(i + 1).drop_last() =~= views.take(i as int));
        assert(views.take(i + 1).last() == lines@[i as int]@);
        if i > 0 {
            if let Some(entry) = read_adjusted_row(lines[i].as_str()) {
                let ghost before = entries@;
                let ghost added = entry@;
                entries.push(entry);
                assert(kkc_views(entries@) =~= kkc_views(before).push(added));
            }
        }
        i = i + 1;
    }
    assert(views.take(i as int) =~= views);
    entries
}

/// The entry of a word that is exported.
pub open spec fn entry_of(word: WordView) -> EntryView {
    EntryView {
        reading: in_hiragana(word.text->0.katakana),
        surface: word.text->0.surface,
        cost: word.cost,
        left_id: word.left_id,
        right_id: word.right_id,
        pos_id: word.text->0.pos_id,
    }
}

/// The entries of the words that are exported.
pub open spec fn exported_entries(words: Seq<WordView>) -> Seq<EntryView> {
    words.filter(|word: WordView| is_exported(word)).map_values(|word: WordView| entry_of(word))
}

/// The line of a word reads back as its entry.
pub proof fn law_row_reads_back(word_id: int, word: WordView)
    requires
        is_exported(word),
    ensures
        adjusted_row(csv_row(export_fields(word_id, word))) == Some(entry_of(word)),
{
    let fields = export_fields(word_id, word);
    law_csv_reads_back(fields);
    law_decimal_reads_back(word.cost as int);
    law_decimal_reads_back(word.left_id as int);
    law_decimal_reads_back(word.right_id as int);
    law_decimal_reads_back(word.text->0.pos_id as int);
}

/// The lines of an export read back, each of them taken as one: each exported word gives its
/// entry, in the order of the words.
pub proof fn law_rows_read_back(words: Seq<WordView>)
    ensures
        adjusted_entries(seq![EXPORT_HEADER@] + export_rows(words)) == exported_entries(words),
    decreases words.len(),
{
    let head = seq![EXPORT_HEADER@];
    let rows = export_rows(words);
    let wanted = |word: WordView| is_exported(word);
    if words.len() == 0 {
        assert(head + rows =~= head);
        reveal(Seq::filter);
        assert(exported_entries(words) =~= Seq::empty());
    } else {
        let rest = words.drop_last();
        let word = words.last();
        law_rows_read_back(rest);
        assert(words =~= rest.push(word));
        reveal(Seq::filter);
        assert(words.filter(wanted) == if is_exported(word) {
            rest.filter(wanted).push(word)
        } else {
            rest.filter(wanted)
        });
        if is_exported(word) {
            let row = csv_row(export_fields(words.len() - 1, word));
            law_row_reads_back(words.len() - 1, word);
            let all = head + rows;
            assert(all.drop_last() =~= head + export_rows(rest));
            assert(all.last() == row);
            assert(exported_entries(words) =~= exported_entries(rest).push(entry_of(word)));
        }
    }
}

/// Whether the text of a word has no line break in it.
pub open spec fn is_one_line(word: WordView) -> bool {
    &&& !word.text->0.katakana.contains('\n')
    &&& !word.text->0.surface.contains('\n')
    &&& !hyphenated(word.text->0.pos).contains('\n')
}

/// Doubling quotes brings no line break.
proof fn lemma_doubled_breaks(s: Seq<char>)
    ensures
        doubled(s).contains('\n') ==> s.contains('\n'),
    decreases s.len(),
{
    if s.len() > 0 {
        let rest = s.drop_first();
        lemma_doubled_breaks(rest);
        let front = if s[0] == '"' {
            seq!['"', '"']
        } else {
            seq![s[0]]
        };
        if doubled(s).contains('\n') {
            let i = choose|i: int| 0 <= i < doubled(s).len() && doubled(s)[i] == '\n';
            if i < front.len() {
                assert(s[0] == '\n');
            } else {
                assert(doubled(rest)[i - front.len()] == '\n');
                let j = choose|j: int| 0 <= j < rest.len() && rest[j] == '\n';
                assert(s[j + 1] == '\n');
            }
        }
    }
}

/// Escaping brings no line break.
proof fn lemma_escaped_breaks(s: Seq<char>)
    requires
        !s.contains('\n'),
    ensures
        !escaped(s).contains('\n'),
{
    lemma_doubled_breaks(s);
    if needs_quotes(s) && escaped(s).contains('\n') {
        let i = choose|i: int| 0 <= i < escaped(s).len() && escaped(s)[i] == '\n';
        assert(0 < i < escaped(s).len() - 1);
        assert(doubled(s)[i - 1] == '\n');
    }
}

/// Fields without line breaks, of which the last is not empty, make a line.
proof fn lemma_row_is_line(fields: Seq<Seq<char>>)
    requires
        fields.len() > 0,
        forall|i: int| 0 <= i < fields.len() ==> !(#[trigger] fields[i]).contains('\n'),
        fields.last().len() > 0,
        fields.last().last() != '\r',
    ensures
        is_line(csv_row(fields)),
        csv_row(fields).len() > 0,
    decreases fields.len(),
{
    lemma_escaped_breaks(fields[0]);
    if fields.len() == 1 {
        assert(csv_row(fields) =~= escaped(fields[0]));
    } else {
        let rest = fields.drop_first();
        lemma_row_is_line(rest);
        lemma_row_step(fields);
        let front = escaped(fields[0]) + seq![','];
        let row = csv_row(fields);
        assert(row == front + csv_row(rest));
        assert(row.last() == csv_row(rest).last());
        if row.contains('\n') {
            let i = choose|i: int| 0 <= i < row.len() && row[i] == '\n';
            if i < escaped(fields[0]).len() {
                assert(escaped(fields[0])[i] == '\n');
            } else if i >= front.len() {
                assert(csv_row(rest)[i - front.len()] == '\n');
            }
        }
    }
}

/// The line of a word is a line.
proof fn lemma_export_row_is_line(word_id: int, word: WordView)
    requires
        is_one_line(word),
    ensures
        is_line(csv_row(export_fields(word_id, word))),
{
    let text = word.text->0;
    let fields = export_fields(word_id, word);
    lemma_decimal_plain(word_id);
    lemma_decimal_plain(word.cost as int);
    lemma_decimal_plain(word.left_id as int);
    lemma_decimal_plain(word.right_id as int);
    lemma_decimal_plain(text.pos_id as int);
    lemma_decimal_plain(text.surface.len() as int);
    law_decimal_reads_back(text.surface.len() as int);
    let h = in_hiragana(text.katakana);
    if h.contains('\n') {
        let i = choose|i: int| 0 <= i < h.len() && h[i] == '\n';
        assert(hiragana(text.katakana[i]) == '\n');
        assert(text.katakana[i] == '\n');
    }
    lemma_row_is_line(fields);
}

/// The lines of the exported words are lines.
proof fn lemma_export_rows_are_lines(words: Seq<WordView>)
    requires
        forall|i: int|
            0 <= i < words.len() && is_exported(#[trigger] words[i]) ==> is_one_line(words[i]),
    ensures
        forall|i: int|
            0 <= i < export_rows(words).len() ==> is_line(#[trigger] export_rows(words)[i]),
    decreases words.len(),
{
    if words.len() > 0 {
        let rest = words.drop_last();
        assert forall|i: int| 0 <= i < rest.len() && is_exported(#[trigger] rest[i]) implies
            is_one_line(rest[i]) by {
            assert(rest[i] == words[i]);
        }
        lemma_export_rows_are_lines(rest);
        if is_exported(words.last()) {
            assert(is_one_line(words[words.len() - 1]));
            lemma_export_row_is_line(words.len() - 1, words.last());
        }
        assert forall|i: int| 0 <= i < export_rows(words).len() implies is_line(
            #[trigger] export_rows(words)[i],
        ) by {
            if i < export_rows(rest).len() {
                assert(is_line(export_rows(rest)[i]));
            }
        }
    }
}

/// The heading is a line.
proof fn lemma_heading_is_line()
    ensures
        is_line(EXPORT_HEADER@),
{
    reveal_strlit(
        "word_id,reading_hiragana,reading_katakana,surface,cost,left_id,right_id,pos_id,pos_str,char_count",
    );
}

/// What was exported is read back from the text: each exported word gives its entry, in the order
/// of the words, as long as no text of a word has a line break in it.
pub proof fn law_export_reads_back(words: Seq<WordView>)
    requires
        forall|i: int|
            0 <= i < words.len() && is_exported(#[trigger] words[i]) ==> is_one_line(words[i]),
    ensures
        ({
            let text = lines_text(seq![EXPORT_HEADER@] + export_rows(words));
            adjusted_entries(lines_of(text)) == exported_entries(words)
        }),
{
    let lines = seq![EXPORT_HEADER@] + export_rows(words);
    lemma_heading_is_line();
    lemma_export_rows_are_lines(words);
    assert forall|i: int| 0 <= i < lines.len() implies is_line(#[trigger] lines[i]) by {
        if i > 0 {
            assert(lines[i] == export_rows(words)[i - 1]);
        }
    }
    law_lines_read_back(lines);
    law_rows_read_back(words);
}

/// A field without a comma is the first part of its line.
proof fn lemma_split_plain(s: Seq<char>, tail: Seq<char>, n: nat)
    requires
        !s.contains(','),
        n > 1,
    ensures
        split_line(s + seq![','] + tail, n) == seq![s] + split_line(tail, (n - 1) as nat),
{
    let line = s + seq![','] + tail;
    let k = s.len() as int;
    assert(line[k] == ',');
    assert forall|j: int| 0 <= j < k implies line[j] != ',' by {
        assert(s.contains(s[j]));
    }
    assert(is_first_comma(line, k));
    let c = first_comma(line);
    assert(is_first_comma(line, c));
    assert(c == k) by {
        if c < k {
            assert(line[c] != ',');
        }
    }
    assert(line.take(k) =~= s);
    assert(line.skip(k + 1) =~= tail);
}

/// Without commas there is nothing in hiragana that would have to be quoted.
proof fn lemma_hiragana_plain(s: Seq<char>)
    requires
        !needs_quotes(s),
    ensures
        !needs_quotes(in_hiragana(s)),
{
    let h = in_hiragana(s);
    assert forall|c: char| (c == ',' || c == '"' || c == '\n') && h.contains(c) implies s.contains(
        c,
    ) by {
        let i = choose|i: int| 0 <= i < h.len() && h[i] == c;
        assert(hiragana(s[i]) == c);
        assert(s[i] == c);
    }
}

/// The line of a word gives its cost to a reader that knows nothing of quotes, as long as its
/// reading and its surface need none.
pub proof fn law_cost_reads_back(word_id: int, word: WordView)
    requires
        0 <= word_id <= u32::MAX,
        is_exported(word),
        !needs_quotes(word.text->0.katakana),
        !needs_quotes(word.text->0.surface),
    ensures
        cost_row(csv_row(export_fields(word_id, word))) == Some((word_id as u32, word.cost)),
{
    let fields = export_fields(word_id, word);
    lemma_hiragana_plain(word.text->0.katakana);
    lemma_decimal_plain(word_id);
    lemma_decimal_plain(word.cost as int);
    law_decimal_reads_back(word_id);
    law_decimal_reads_back(word.cost as int);
    let f1 = fields.drop_first();
    let f2 = f1.drop_first();
    let f3 = f2.drop_first();
    let f4 = f3.drop_first();
    let f5 = f4.drop_first();
    lemma_row_step(fields);
    lemma_row_step(f1);
    lemma_row_step(f2);
    lemma_row_step(f3);
    lemma_row_step(f4);
    lemma_split_plain(fields[0], csv_row(f1), 6);
    lemma_split_plain(f1[0], csv_row(f2), 5);
    lemma_split_plain(f2[0], csv_row(f3), 4);
    lemma_split_plain(f3[0], csv_row(f4), 3);
    lemma_split_plain(f4[0], csv_row(f5), 2);
    let parts = split_line(csv_row(fields), 6);
    assert(parts[0] == fields[0]);
    assert(parts[4] == fields[4]);
}

/// Parts that follow others come after them and a hyphen, and a part alone is as it is: no part is
/// left out, however many there are.
pub proof fn law_hyphens_joined(a: Seq<Seq<char>>, b: Seq<Seq<char>>, part: Seq<char>)
    ensures
        a.len() > 0 && b.len() > 0 ==> hyphenated(a + b) == hyphenated(a) + seq!['-'] + hyphenated(
            b,
        ),
        hyphenated(seq![part]) == part,
        hyphenated(Seq::empty()) == Seq::<char>::empty(),
    decreases b.len(),
{
    if a.len() > 0 && b.len() > 0 {
        assert((a + b).drop_last() =~= a + b.drop_last());
        assert((a + b).last() == b.last());
        if b.len() == 1 {
            assert(a + b.drop_last() =~= a);
        } else {
            law_hyphens_joined(a, b.drop_last(), part);
            assert(hyphenated(a + b) =~= hyphenated(a) + seq!['-'] + hyphenated(b));
        }
    }
}

/// The characters of parts together.
pub open spec fn total_len(parts: Seq<Seq<char>>) -> int
    decreases parts.len(),
{
    if parts.len() == 0 {
        0
    } else {
        parts[0].len() + total_len(parts.drop_first())
    }
}

/// What stands between the hyphens of a text.
pub open spec fn between_hyphens(s: Seq<char>) -> Seq<Seq<char>>
    decreases s.len(),
{
    if s.len() == 0 {
        seq![s]
    } else {
        let others = between_hyphens(s.drop_first());
        if s[0] == '-' {
            seq![Seq::empty()] + others
        } else {
            seq![seq![s[0]] + others[0]] + others.drop_first()
        }
    }
}

/// A text has something, or nothing, between its hyphens.
proof fn lemma_between_some(s: Seq<char>)
    ensures
        between_hyphens(s).len() > 0,
    decreases s.len(),
{
    if s.len() > 0 {
        lemma_between_some(s.drop_first());
    }
}

/// A part without hyphens stands alone before the next hyphen.
proof fn lemma_between_step(part: Seq<char>, rest: Seq<char>)
    requires
        !part.contains('-'),
    ensures
        between_hyphens(part) == seq![part],
        between_hyphens(part + seq!['-'] + rest) == seq![part] + between_hyphens(rest),
    decreases part.len(),
{
    let all = part + seq!['-'] + rest;
    lemma_between_some(rest);
    if part.len() == 0 {
        assert(part =~= Seq::empty());
        assert(all.drop_first() =~= rest);
        assert(all[0] == '-');
    } else {
        let others = part.drop_first();
        assert(part.contains(part[0]));
        assert forall|c: char| others.contains(c) implies part.contains(c) by {
            let i = choose|i: int| 0 <= i < others.len() && others[i] == c;
            assert(part[i + 1] == c);
        }
        lemma_between_step(others, rest);
        assert(all.drop_first() =~= others + seq!['-'] + rest);
        assert(seq![part[0]] + others =~= part);
        assert((seq![others] + between_hyphens(rest)).drop_first() =~= between_hyphens(rest));
        assert(seq![others].drop_first() =~= Seq::empty());
        assert(between_hyphens(part) =~= seq![part]);
        assert(between_hyphens(all) =~= seq![part] + between_hyphens(rest));
    }
}

/// Parts with hyphens between them can be taken apart again, all of them and in their order, where
/// no part has a hyphen in it. A text has as many characters as its parts, and one for each hyphen.
pub proof fn law_hyphens_split(parts: Seq<Seq<char>>)
    requires
        parts.len() > 0,
    ensures
        (forall|i: int| 0 <= i < parts.len() ==> !(#[trigger] parts[i]).contains('-'))
            ==> between_hyphens(hyphenated(parts)) == parts,
        hyphenated(parts).len() == total_len(parts) + parts.len() - 1,
    decreases parts.len(),
{
    let rest = parts.drop_first();
    if parts.len() == 1 {
        assert(parts =~= seq![parts[0]]);
        assert(total_len(rest) == 0);
        if forall|i: int| 0 <= i < parts.len() ==> !(#[trigger] parts[i]).contains('-') {
            assert(!parts[0].contains('-'));
            lemma_between_step(parts[0], Seq::empty());
        }
    } else {
        law_hyphens_split(rest);
        law_hyphens_joined(seq![parts[0]], rest, parts[0]);
        assert(parts =~= seq![parts[0]] + rest);
        if forall|i: int| 0 <= i < parts.len() ==> !(#[trigger] parts[i]).contains('-') {
            assert(!parts[0].contains('-'));
            assert forall|i: int| 0 <= i < rest.len() implies !(#[trigger] rest[i]).contains(
                '-',
            ) by {
                assert(rest[i] == parts[i + 1]);
            }
            lemma_between_step(parts[0], hyphenated(rest));
        }
    }
}

/// The line of a word has ten fields: the word's number, its reading in hiragana and in katakana,
/// its surface, its cost, its left and right numbers, its part of speech by number, and with its
/// components joined by hyphens, and the number of characters of its surface.
pub proof fn law_export_columns(word_id: int, word: WordView)
    requires
        word.text is Some,
    ensures
        ({
            let text = word.text->0;
            let fields = csv_fields(csv_row(export_fields(word_id, word)));
            &&& fields.len() == 10
            &&& fields[0] == decimal(word_id)
            &&& fields[1] == in_hiragana(text.katakana)
            &&& fields[2] == text.katakana
            &&& fields[3] == text.surface
            &&& fields[4] == decimal(word.cost as int)
            &&& fields[5] == decimal(word.left_id as int)
            &&& fields[6] == decimal(word.right_id as int)
            &&& fields[7] == decimal(text.pos_id as int)
            &&& fields[8] == hyphenated(text.pos)
            &&& text.pos.len() > 0 && (forall|i: int|
                0 <= i < text.pos.len() ==> !(#[trigger] text.pos[i]).contains('-'))
                ==> between_hyphens(fields[8]) == text.pos
            &&& text.pos.len() > 0 ==> fields[8].len() == total_len(text.pos) + text.pos.len() - 1
            &&& text.pos.len() == 0 ==> fields[8].len() == 0
            &&& fields[9] == decimal(text.surface.len() as int)
        }),
{
    let text = word.text->0;
    let fields = export_fields(word_id, word);
    law_csv_reads_back(fields);
    if text.pos.len() > 0 {
        law_hyphens_split(text.pos);
    }
}

/// A word is exported exactly where it connects on both sides, its text could be read, and neither
/// its reading nor its surface is empty. Its line comes after those of the words before it, and has
/// the number of words before it as its number, exported or not.
pub proof fn law_export_step(words: Seq<WordView>, word: WordView)
    ensures
        export_rows(Seq::empty()) == Seq::<Seq<char>>::empty(),
        word.left_id >= 0 && word.right_id >= 0 && word.text is Some && word.text->0.reading.len()
            > 0 && word.text->0.surface.len() > 0 ==> export_rows(words.push(word)) == export_rows(
            words,
        ).push(csv_row(export_fields(words.len() as int, word))),
        word.left_id < 0 || word.right_id < 0 || word.text is None || word.text->0.reading.len()
            == 0 || word.text->0.surface.len() == 0 ==> export_rows(words.push(word))
            == export_rows(words),
{
    assert(words.push(word).drop_last() =~= words);
}

/// A line gives an entry exactly where it has at least eight fields and the fifth to eighth are
/// numbers: the reading is its second field, the surface its fourth one, and the numbers are cost,
/// left number, right number and part of speech.
pub proof fn law_adjusted_row(fields: Seq<Seq<char>>)
    requires
        fields.len() > 0,
    ensures
        ({
            let row = adjusted_row(csv_row(fields));
            &&& row is Some <==> fields.len() >= 8 && i16_of(fields[4]) is Some && i16_of(
                fields[5],
            ) is Some && i16_of(fields[6]) is Some && u16_of(fields[7]) is Some
            &&& row is Some ==> {
                &&& row->0.reading == fields[1]
                &&& row->0.surface == fields[3]
                &&& row->0.cost == i16_of(fields[4])->0
                &&& row->0.left_id == i16_of(fields[5])->0
                &&& row->0.right_id == i16_of(fields[6])->0
                &&& row->0.pos_id == u16_of(fields[7])->0
            }
        }),
{
    law_csv_reads_back(fields);
}

/// What a line gives depends on its fields alone.
pub proof fn law_adjusted_row_of_fields(line: Seq<char>, other: Seq<char>)
    requires
        csv_fields(line) == csv_fields(other),
    ensures
        adjusted_row(line) == adjusted_row(other),
{
}

/// The heading gives no entry, and each line after it that gives one adds it to those before it.
pub proof fn law_adjusted_step(lines: Seq<Seq<char>>, line: Seq<char>)
    ensures
        adjusted_entries(Seq::empty()) == Seq::<EntryView>::empty(),
        lines.len() == 0 ==> adjusted_entries(lines.push(line)) == Seq::<EntryView>::empty(),
        lines.len() > 0 && adjusted_row(line) is None ==> adjusted_entries(lines.push(line))
            == adjusted_entries(lines),
        lines.len() > 0 && adjusted_row(line) is Some ==> adjusted_entries(lines.push(line))
            == adjusted_entries(lines).push(adjusted_row(line)->0),
{
    assert(lines.push(line).drop_last() =~= lines);
}

/// The content of a word is that of each of its parts, and that of words is that of each of them.
pub proof fn law_word_contents(words: Seq<ExportWord>, i: int)
    requires
        0 <= i < words.len(),
    ensures
        ({
            let word = words[i];
            let view = export_views(words)[i];
            &&& export_views(words).len() == words.len()
            &&& view.left_id == word.left_id
            &&& view.right_id == word.right_id
            &&& view.cost == word.cost
            &&& view.text is None <==> word.text is None
            &&& word.text is Some ==> {
                &&& view.text->0.surface == word.text->0.surface@
                &&& view.text->0.reading == word.text->0.reading@
                &&& view.text->0.katakana == word.text->0.katakana@
                &&& view.text->0.pos_id == word.text->0.pos_id
                &&& view.text->0.pos == texts(word.text->0.pos@)
            }
        }),
{
}

/// A word's text is wanted where neither of its numbers is negative.
pub proof fn law_connects(left_id: i16, right_id: i16)
    ensures
        connects(left_id, right_id) <==> left_id >= 0 && right_id >= 0,
{
}

} // verus!
