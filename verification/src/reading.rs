//! Words looked up by their reading.
//!
//! A table of word numbers has one row for each reading: the count of the words that are listed,
//! in one byte, and then their numbers. A trie leads from a reading to the place of its row.

use crate::bytes::{
    law_le32_reads_back, law_le32s_read_back, le32, le32s, lemma_le32s_len, lemma_u32_within,
    push_bytes, push_len, push_u32, push_u32s, u32_at,
};
use crate::kana::{in_hiragana, katakana_to_hiragana};
use crate::marisa::{
    build_marisa_section, entry_keys, entry_views, is_marisa_section, is_section_with, keys_fit,
    law_section_lookup, lemma_section_answers, lemma_section_keys, lemma_section_spans,
    lemma_spans_within, section_answers, section_spans, trie_ids, trie_image,
};
use crate::order::{
    byte_views, count_key, distinct_keys, group_by_key, group_key, group_views, grouping_of,
    is_group, is_grouped, law_grouping_exists, lemma_group_size, lemma_lex_irreflexive, lemma_rank,
    lex_lt,
};
use crate::prefix::prefixes;
use crate::table::{
    check_distinct, concat, law_distinct_keys_fit, law_places_of_keys, law_row_found,
    law_size_before, lemma_place_keys, lemma_sized_within, place_rows, places, row_start, sized,
};
use rsmarisa::Trie;
use vstd::prelude::*;
use vstd::slice::slice_to_vec;
use vstd::utf8::{encode_utf8, encode_utf8_decode_utf8};

verus! {

/// What a reading trie section starts with: `RTRI`.
pub const READING_TRIE_MAGIC: u32 = 0x5254_5249;

/// The number of a word, and its reading where it could be read.
pub struct Word {
    pub id: u32,
    pub reading: Option<String>,
}

/// A word, by content.
pub open spec fn word_view(word: Word) -> (u32, Option<Seq<char>>) {
    (
        word.id,
        match word.reading {
            Some(reading) => Some(reading@),
            None => None,
        },
    )
}

/// A list of words, by content.
pub open spec fn word_views(words: Seq<Word>) -> Seq<(u32, Option<Seq<char>>)> {
    words.map_values(|word: Word| word_view(word))
}

/// The words that have a reading which is not empty, each as the bytes of its reading with its
/// number.
pub open spec fn readable(words: Seq<(u32, Option<Seq<char>>)>) -> Seq<(Seq<u8>, u32)>
    decreases words.len(),
{
    if words.len() == 0 {
        Seq::empty()
    } else {
        let before = readable(words.drop_last());
        match words.last().1 {
            Some(reading) => if reading.len() > 0 {
                before.push((encode_utf8(reading), words.last().0))
            } else {
                before
            },
            None => before,
        }
    }
}

/// The words with their readings in hiragana.
pub open spec fn with_hiragana(words: Seq<(u32, Option<Seq<char>>)>) -> Seq<
    (u32, Option<Seq<char>>),
> {
    words.map_values(
        |word: (u32, Option<Seq<char>>)|
            (
                word.0,
                match word.1 {
                    Some(reading) => Some(in_hiragana(reading)),
                    None => None,
                },
            ),
    )
}

/// The word numbers of a list of readings with word numbers.
pub open spec fn entry_ids(items: Seq<(Seq<u8>, u32)>) -> Seq<u32> {
    items.map_values(|item: (Seq<u8>, u32)| item.1)
}

/// The words of a group that are listed: the first 255.
pub open spec fn listed(group: Seq<usize>) -> Seq<usize> {
    if group.len() <= 255 {
        group
    } else {
        group.take(255)
    }
}

/// The row of a group of words.
pub open spec fn id_row(ids: Seq<u32>, group: Seq<usize>) -> Seq<u8> {
    seq![listed(group).len() as u8] + le32s(listed(group).map_values(|i: usize| ids[i as int]))
}

/// The rows of all readings.
pub open spec fn id_rows(items: Seq<(Seq<u8>, u32)>) -> Seq<Seq<u8>> {
    grouping_of(entry_keys(items)).map_values(|group: Seq<usize>| id_row(entry_ids(items), group))
}

/// The table of word numbers.
pub open spec fn id_table(items: Seq<(Seq<u8>, u32)>) -> Seq<u8> {
    concat(id_rows(items))
}

/// Each reading with the place of its row.
pub open spec fn id_places(items: Seq<(Seq<u8>, u32)>) -> Seq<(Seq<u8>, u32)> {
    places(entry_keys(items), id_rows(items))
}

/// Whether a trie can be relied upon to hold the readings of the words.
pub open spec fn readings_fit(items: Seq<(Seq<u8>, u32)>) -> bool {
    keys_fit(distinct_keys(entry_keys(items)))
}

/// The readings that are not empty, and the numbers of their words.
fn collect_readings(words: &Vec<Word>) -> (r: (Vec<Vec<u8>>, Vec<u32>))
    ensures
        byte_views(r.0@) == entry_keys(readable(word_views(words@))),
        r.1@ == entry_ids(readable(word_views(words@))),
{
    let ghost views = word_views(words@);
    let mut keys: Vec<Vec<u8>> = Vec::new();
    let mut ids: Vec<u32> = Vec::new();
    let mut i: usize = 0;
    while i < words.len()
        invariant
            views == word_views(words@),
            i <= words.len(),
            byte_views(keys@) == entry_keys(readable(views.take(i as int))),
            ids@ == entry_ids(readable(views.take(i as int))),
        decreases words.len() - i,
    {
        let ghost before = readable(views.take(i as int));
        assert(views.take(i + 1).drop_last() == views.take(i as int));
        assert(views[i as int] == word_view(words@[i as int]));
        if let Some(reading) = &words[i].reading {
            if !reading.as_str().is_empty() {
                let key: Vec<u8> = slice_to_vec(reading.as_str().as_bytes());
                let ghost item = (encode_utf8(reading@), words@[i as int].id);
                assert(readable(views.take(i + 1)) == before.push(item));
                assert(entry_keys(before.push(item)) =~= entry_keys(before).push(item.0));
                assert(entry_ids(before.push(item)) =~= entry_ids(before).push(item.1));
                let ghost kept = keys@;
                keys.push(key);
                assert(byte_views(keys@) =~= byte_views(kept).push(key@));
                ids.push(words[i].id);
            }
        }
        i = i + 1;
    }
    assert(views.take(i as int) == views);
    (keys, ids)
}

/// The row of a group of words.
fn build_id_row(ids: &Vec<u32>, group: &Vec<usize>) -> (row: Vec<u8>)
    requires
        forall|m: int| 0 <= m < group@.len() ==> #[trigger] group@[m] < ids@.len(),
    ensures
        row@ == id_row(ids@, group@),
{
    let count: usize = if group.len() <= 255 {
        group.len()
    } else {
        255
    };
    let mut numbers: Vec<u32> = Vec::new();
    let mut m: usize = 0;
    while m < count
        invariant
            m <= count <= group@.len(),
            count == listed(group@).len(),
            forall|k: int| 0 <= k < group@.len() ==> #[trigger] group@[k] < ids@.len(),
            numbers@ == listed(group@).map_values(|i: usize| ids@[i as int]).take(m as int),
        decreases count - m,
    {
        numbers.push(ids[group[m]]);
        m = m + 1;
    }
    let mut row: Vec<u8> = Vec::new();
    row.push(count as u8);
    push_u32s(&mut row, numbers.as_slice());
    assert(numbers@ =~= listed(group@).map_values(|i: usize| ids@[i as int]));
    row
}

/// The table of word numbers, and each reading with the place of its row.
fn build_id_table(
    keys: &Vec<Vec<u8>>,
    ids: &Vec<u32>,
    Ghost(items): Ghost<Seq<(Seq<u8>, u32)>>,
) -> (r: (Vec<u8>, Vec<(Vec<u8>, u32)>))
    requires
        byte_views(keys@) == entry_keys(items),
        ids@ == entry_ids(items),
    ensures
        r.0@ == id_table(items),
        entry_views(r.1@) == id_places(items),
{
    let groups: Vec<Vec<usize>> = group_by_key(keys);
    let ghost all = group_views(groups@);
    let ghost views = byte_views(keys@);
    assert forall|g: int| 0 <= g < groups@.len() implies is_group(
        views,
        #[trigger] groups@[g]@,
    ) by {
        assert(is_group(views, all[g]));
    }
    let mut rows: Vec<Vec<u8>> = Vec::new();
    let mut g: usize = 0;
    while g < groups.len()
        invariant
            g <= groups.len(),
            views == byte_views(keys@),
            views == entry_keys(items),
            ids@ == entry_ids(items),
            all == group_views(groups@),
            all == grouping_of(views),
            forall|h: int| 0 <= h < groups@.len() ==> is_group(views, #[trigger] groups@[h]@),
            byte_views(rows@) == id_rows(items).take(g as int),
        decreases groups.len() - g,
    {
        assert(is_group(views, groups@[g as int]@));
        let ghost before = rows@;
        let row: Vec<u8> = build_id_row(ids, &groups[g]);
        rows.push(row);
        assert(all[g as int] == groups@[g as int]@);
        assert(byte_views(rows@) =~= byte_views(before).push(row@));
        assert(id_rows(items).take(g + 1) =~= id_rows(items).take(g as int).push(row@));
        g = g + 1;
    }
    assert(byte_views(rows@) =~= id_rows(items));
    place_rows(keys, &groups, &rows)
}

/// Whether a trie can be relied upon to hold the readings of the words.
pub fn check_readings(words: &Vec<Word>) -> (fits: bool)
    ensures
        fits == readings_fit(readable(word_views(words@))),
{
    let (keys, _) = collect_readings(words);
    check_distinct(&keys)
}

/// Whether `bytes` are a reading trie section for the words: what it starts with, a trie section
/// that leads to the places of the rows, and the size and content of the table.
pub open spec fn is_reading_trie(items: Seq<(Seq<u8>, u32)>, bytes: Seq<u8>) -> bool {
    exists|section: Seq<u8>|
        {
            &&& #[trigger] is_marisa_section(id_places(items), section)
            &&& bytes == le32(READING_TRIE_MAGIC as int) + section + sized(id_table(items))
        }
}

/// Builds the section that leads from readings to words.
pub fn build_reading_trie_section(words: &Vec<Word>) -> (out: Vec<u8>)
    requires
        readings_fit(readable(word_views(words@))),
    ensures
        is_reading_trie(readable(word_views(words@)), out@),
{
    let (keys, ids) = collect_readings(words);
    let ghost items = readable(word_views(words@));
    let (table, places) = build_id_table(&keys, &ids, Ghost(items));
    proof {
        lemma_place_keys(entry_keys(items), id_rows(items));
    }
    let section: Vec<u8> = build_marisa_section(&places);
    let mut out: Vec<u8> = Vec::new();
    push_u32(&mut out, READING_TRIE_MAGIC);
    push_bytes(&mut out, section.as_slice());
    push_len(&mut out, table.len());
    push_bytes(&mut out, table.as_slice());
    assert(is_marisa_section(id_places(items), section@));
    reveal(sized);
    assert(out@ =~= le32(READING_TRIE_MAGIC as int) + section@ + sized(table@));
    out
}

/// The words with their readings in hiragana.
pub fn words_in_hiragana(words: &Vec<Word>) -> (out: Vec<Word>)
    ensures
        word_views(out@) == with_hiragana(word_views(words@)),
{
    let mut out: Vec<Word> = Vec::new();
    let mut i: usize = 0;
    while i < words.len()
        invariant
            i <= words.len(),
            out@.len() == i,
            forall|j: int|
                0 <= j < i ==> word_view(#[trigger] out@[j]) == with_hiragana(
                    word_views(words@),
                )[j],
        decreases words.len() - i,
    {
        let reading: Option<String> = match &words[i].reading {
            Some(reading) => Some(katakana_to_hiragana(reading.as_str())),
            None => None,
        };
        out.push(Word { id: words[i].id, reading });
        i = i + 1;
    }
    assert(word_views(out@) =~= with_hiragana(word_views(words@)));
    out
}

/// Builds the trie section and the table of word numbers, with its size before it, that make
/// hiragana readings the keys of a dictionary.
pub fn build_reading_keyed_sections(words: &Vec<Word>) -> (out: (Vec<u8>, Vec<u8>))
    requires
        readings_fit(readable(with_hiragana(word_views(words@)))),
    ensures
        is_marisa_section(id_places(readable(with_hiragana(word_views(words@)))), out.0@),
        out.1@ == sized(id_table(readable(with_hiragana(word_views(words@))))),
{
    let converted: Vec<Word> = words_in_hiragana(words);
    let (keys, ids) = collect_readings(&converted);
    let ghost items = readable(word_views(converted@));
    let (table, places) = build_id_table(&keys, &ids, Ghost(items));
    proof {
        lemma_place_keys(entry_keys(items), id_rows(items));
    }
    let section: Vec<u8> = build_marisa_section(&places);
    let mut id_section: Vec<u8> = Vec::new();
    push_len(&mut id_section, table.len());
    push_bytes(&mut id_section, table.as_slice());
    reveal(sized);
    (section, id_section)
}

/// Each word is listed under its reading, unless 255 words before it have that reading: some row
/// `g` is the row of the reading, the word is the one numbered `m` of that reading, and its
/// number stands there in the row.
pub proof fn law_word_listed(items: Seq<(Seq<u8>, u32)>, i: int) -> (place: (int, int))
    requires
        items.len() <= usize::MAX,
        0 <= i < items.len(),
    ensures
        ({
            let (g, m) = place;
            let group = grouping_of(entry_keys(items))[g];
            let start = row_start(id_rows(items), g);
            &&& 0 <= g < id_places(items).len()
            &&& id_places(items)[g].0 == items[i].0
            &&& id_places(items)[g].1 == start % 0x1_0000_0000
            &&& forall|h: int|
                g < h < id_places(items).len() ==> (#[trigger] id_places(items)[h]).0 != items[i].0
            &&& 0 <= m < group.len()
            &&& group[m] == i
            &&& 0 <= start < id_table(items).len()
            &&& id_table(items)[start] == listed(group).len()
            &&& m < 255 ==> start + 5 + 4 * m <= id_table(items).len() && u32_at(
                id_table(items),
                start + 1 + 4 * m,
            ) == items[i].1
        }),
{
    let keys = entry_keys(items);
    let groups = grouping_of(keys);
    law_grouping_exists(keys);
    assert(is_grouped(groups, i));
    let (g, m) = choose|g: int, m: int|
        0 <= g < groups.len() && 0 <= m < groups[g].len() && #[trigger] groups[g][m] == i;
    let group = groups[g];
    assert(is_group(keys, group));
    assert(keys[i] == items[i].0);
    let rows = id_rows(items);
    law_row_found(rows, g);
    let row = rows[g];
    let start = row_start(rows, g);
    let table = id_table(items);
    let numbers = listed(group).map_values(|x: usize| entry_ids(items)[x as int]);
    assert(row == id_row(entry_ids(items), group));
    lemma_le32s_len(numbers);
    assert(table.subrange(start, start + row.len())[0] == table[start]);
    if m < 255 {
        let head = seq![listed(group).len() as u8];
        assert(row =~= head + le32s(numbers) + Seq::<u8>::empty());
        law_le32s_read_back(numbers, head, Seq::<u8>::empty(), m);
        assert(numbers[m] == items[i].1);
        assert forall|k: int| 0 <= k < row.len() implies #[trigger] row[k] == table[start + k] by {
            assert(table.subrange(start, start + row.len())[k] == table[start + k]);
        }
    }
    assert forall|h: int| g < h < id_places(items).len() implies (#[trigger] id_places(items)[h]).0
        != items[i].0 by {
        lemma_lex_irreflexive(items[i].0);
        assert(lex_lt(group_key(keys, groups[g]), group_key(keys, groups[h])));
    }
    (g, m)
}

/// Whether `bytes` hold at `start` a trie section whose trie has the reading, and at `table_at` a
/// table in which, at the place that the section gives for the reading, the word is the one
/// numbered `m` of its row.
#[verifier::opaque]
pub open spec fn reading_answers(
    trie: Trie,
    bytes: Seq<u8>,
    start: int,
    table_at: int,
    reading: Seq<u8>,
    m: int,
    word: u32,
) -> bool {
    let image = trie_image(trie);
    let place = u32_at(bytes, start + 8 + image.len() + 4 * trie_ids(trie)[reading]);
    &&& trie_ids(trie).contains_key(reading)
    &&& bytes.subrange(start + 4, start + 4 + image.len()) == image
    &&& u32_at(bytes, table_at + place + 1 + 4 * m) == word
}

/// A reading trie section answers which words have a reading: its trie holds the reading, the
/// number of the reading leads to a row of the table at the end of the section, and each of the
/// first 255 words with the reading is listed there, in their order.
pub proof fn law_reading_trie_lookup(items: Seq<(Seq<u8>, u32)>, bytes: Seq<u8>, i: int)
    requires
        is_reading_trie(items, bytes),
        items.len() <= usize::MAX,
        id_table(items).len() < 0x1_0000_0000,
        0 <= i < items.len(),
        same_before(items, i) < 255,
    ensures
        ({
            let table_at = bytes.len() - id_table(items).len();
            let m = same_before(items, i);
            exists|trie: Trie|
                reading_answers(trie, bytes, 4, table_at, items[i].0, m, items[i].1)
        }),
{
    let table = id_table(items);
    let section = choose|section: Seq<u8>|
        {
            &&& #[trigger] is_marisa_section(id_places(items), section)
            &&& bytes == le32(READING_TRIE_MAGIC as int) + section + sized(table)
        };
    let table_at = bytes.len() - table.len();
    let head = le32(READING_TRIE_MAGIC as int);
    let none = Seq::<u8>::empty();
    lemma_sized_within(head + section, table, none);
    assert(bytes =~= head + section + sized(table) + none);
    assert(bytes.subrange(4, 4int + section.len()) =~= section);
    lemma_word_found(items, bytes, section, 4, table_at, i);
}

/// A word is found in bytes that hold a trie section for the places of rows, and the table.
pub proof fn lemma_word_found(
    items: Seq<(Seq<u8>, u32)>,
    bytes: Seq<u8>,
    section: Seq<u8>,
    start: int,
    table_at: int,
    i: int,
)
    requires
        is_marisa_section(id_places(items), section),
        items.len() <= usize::MAX,
        id_table(items).len() < 0x1_0000_0000,
        0 <= i < items.len(),
        same_before(items, i) < 255,
        0 <= start,
        start + section.len() <= bytes.len(),
        bytes.subrange(start, start + section.len()) == section,
        0 <= table_at,
        table_at + id_table(items).len() <= bytes.len(),
        bytes.subrange(table_at, table_at + id_table(items).len()) == id_table(items),
    ensures
        exists|trie: Trie|
            reading_answers(
                trie,
                bytes,
                start,
                table_at,
                items[i].0,
                same_before(items, i),
                items[i].1,
            ),
{
    let (trie, place) = lemma_trie_leads_to_word(items, section, i);
    lemma_section_then_table(
        trie,
        bytes,
        section,
        id_table(items),
        start,
        table_at,
        (items[i].0, place),
        same_before(items, i),
        items[i].1,
    );
}

/// A trie section for the places of rows leads from a reading to its words.
proof fn lemma_trie_leads_to_word(items: Seq<(Seq<u8>, u32)>, section: Seq<u8>, i: int) -> (r: (
    Trie,
    u32,
))
    requires
        is_marisa_section(id_places(items), section),
        items.len() <= usize::MAX,
        id_table(items).len() < 0x1_0000_0000,
        0 <= i < items.len(),
        same_before(items, i) < 255,
    ensures
        section_answers(r.0, section, items[i].0, r.1),
        0 <= same_before(items, i),
        r.1 + 5 + 4 * same_before(items, i) <= id_table(items).len(),
        u32_at(id_table(items), r.1 + 1 + 4 * same_before(items, i)) == items[i].1,
{
    let places = id_places(items);
    let (g, m) = law_word_listed(items, i);
    lemma_rank(entry_keys(items), g, m);
    assert(m == same_before(items, i));
    law_section_lookup(places, section, g);
    let trie = choose|trie: Trie| section_answers(trie, section, places[g].0, places[g].1);
    (trie, places[g].1)
}

/// A place found in the trie section leads to a word in the table.
proof fn lemma_section_then_table(
    trie: Trie,
    bytes: Seq<u8>,
    section: Seq<u8>,
    table: Seq<u8>,
    start: int,
    table_at: int,
    place: (Seq<u8>, u32),
    m: int,
    word: u32,
)
    requires
        0 <= start,
        start + section.len() <= bytes.len(),
        bytes.subrange(start, start + section.len()) == section,
        0 <= table_at,
        table_at + table.len() <= bytes.len(),
        bytes.subrange(table_at, table_at + table.len()) == table,
        section_answers(trie, section, place.0, place.1),
        0 <= m,
        place.1 + 5 + 4 * m <= table.len(),
        u32_at(table, place.1 + 1 + 4 * m) == word,
    ensures
        reading_answers(trie, bytes, start, table_at, place.0, m, word),
{
    reveal(section_answers);
    reveal(reading_answers);
    let image = trie_image(trie);
    let id = trie_ids(trie)[place.0];
    assert(bytes.subrange(start + 4, start + 4 + image.len()) =~= section.subrange(
        4,
        4int + image.len(),
    ));
    lemma_u32_within(bytes, section, start, 8int + image.len() + 4 * id);
    lemma_u32_within(bytes, table, table_at, place.1 + 1 + 4 * m);
}

/// How many words before word `i` have the reading of word `i`.
pub open spec fn same_before(items: Seq<(Seq<u8>, u32)>, i: int) -> int {
    count_key(entry_keys(items).take(i), items[i].0)
}

/// The words with readings among the first `n` words come first among all of them.
proof fn lemma_readable_prefix(words: Seq<(u32, Option<Seq<char>>)>, n: int)
    requires
        0 <= n <= words.len(),
    ensures
        readable(words.take(n)).len() <= readable(words).len() <= words.len(),
        readable(words).take(readable(words.take(n)).len() as int) == readable(words.take(n)),
    decreases words.len(),
{
    if n == words.len() {
        assert(words.take(n) =~= words);
        assert(readable(words).take(readable(words).len() as int) =~= readable(words));
        if n > 0 {
            lemma_readable_prefix(words.drop_last(), n - 1);
        }
    } else {
        let rest = words.drop_last();
        lemma_readable_prefix(rest, n);
        assert(rest.take(n) =~= words.take(n));
        let k = readable(words.take(n)).len() as int;
        assert(readable(words).take(k) =~= readable(rest).take(k));
    }
}

/// The item of a word with a reading.
proof fn lemma_item_of_word(words: Seq<(u32, Option<Seq<char>>)>, k: int)
    requires
        0 <= k < words.len(),
        words[k].1 is Some,
        words[k].1->0.len() > 0,
    ensures
        ({
            let items = readable(words);
            let i = readable(words.take(k)).len() as int;
            &&& i < items.len() <= words.len()
            &&& items[i] == (encode_utf8(words[k].1->0), words[k].0)
            &&& items.take(i) == readable(words.take(k))
        }),
{
    let i = readable(words.take(k)).len() as int;
    lemma_readable_prefix(words, k);
    lemma_readable_prefix(words, k + 1);
    assert(words.take(k + 1).drop_last() =~= words.take(k));
    let more = readable(words.take(k + 1));
    assert(more == readable(words.take(k)).push((encode_utf8(words[k].1->0), words[k].0)));
    assert(readable(words).take(more.len() as int)[i] == more[i]);
}

/// As many items have the bytes of a reading as words have the reading.
proof fn lemma_count_readings(
    words: Seq<Word>,
    views: Seq<(u32, Option<Seq<char>>)>,
    reading: Seq<char>,
    same: spec_fn(Word) -> bool,
)
    requires
        views.len() == words.len(),
        reading.len() > 0,
        forall|j: int|
            0 <= j < words.len() ==> (same(#[trigger] words[j]) <==> views[j].1 == Some(reading)),
    ensures
        count_key(entry_keys(readable(views)), encode_utf8(reading)) == words.filter(same).len(),
    decreases words.len(),
{
    reveal(Seq::filter);
    if words.len() > 0 {
        let rest = words.drop_last();
        let rest_views = views.drop_last();
        let key = encode_utf8(reading);
        assert forall|j: int| 0 <= j < rest.len() implies (same(#[trigger] rest[j])
            <==> rest_views[j].1 == Some(reading)) by {
            assert(rest[j] == words[j]);
        }
        lemma_count_readings(rest, rest_views, reading, same);
        assert(same(words[words.len() - 1]) <==> views.last().1 == Some(reading));
        let before = readable(rest_views);
        if views.last().1 is Some && views.last().1->0.len() > 0 {
            let other = views.last().1->0;
            let item = (encode_utf8(other), views.last().0);
            assert(readable(views) == before.push(item));
            assert(entry_keys(before.push(item)).drop_last() =~= entry_keys(before));
            assert(entry_keys(before.push(item)).last() == encode_utf8(other));
            encode_utf8_decode_utf8(other);
            encode_utf8_decode_utf8(reading);
        }
    }
}

/// The row of a word's reading: how many words it lists, and the word.
proof fn lemma_row_of_item(
    items: Seq<(Seq<u8>, u32)>,
    section: Seq<u8>,
    trie: Trie,
    i: int,
) -> (place: u32)
    requires
        is_section_with(id_places(items), section, trie),
        items.len() <= usize::MAX,
        id_table(items).len() < 0x1_0000_0000,
        0 <= i < items.len(),
    ensures
        ({
            let table = id_table(items);
            let total = count_key(entry_keys(items), items[i].0);
            let m = same_before(items, i);
            &&& section_answers(trie, section, items[i].0, place)
            &&& place < table.len()
            &&& table[place as int] == if total < 255 {
                total
            } else {
                255
            }
            &&& 0 <= m
            &&& m < 255 ==> place + 5 + 4 * m <= table.len() && u32_at(table, place + 1 + 4 * m)
                == items[i].1
        }),
{
    let places = id_places(items);
    let (g, m) = law_word_listed(items, i);
    lemma_rank(entry_keys(items), g, m);
    assert(m == same_before(items, i));
    lemma_group_size(entry_keys(items), g);
    assert(group_key(entry_keys(items), grouping_of(entry_keys(items))[g]) == items[i].0);
    lemma_section_answers(places, section, trie, g);
    places[g].1
}

/// Whether a trie that starts at `start`, with a table of word numbers after its section, leads
/// from a reading to a row that lists so many words, but at most 255, and where word `m`, unless
/// it is past them, has the number `id`. The size of the table stands before it.
#[verifier::opaque]
pub open spec fn lists_word(
    trie: Trie,
    bytes: Seq<u8>,
    start: int,
    reading: Seq<char>,
    total: int,
    m: int,
    id: u32,
) -> bool {
    let key = encode_utf8(reading);
    let values = start + 8 + trie_image(trie).len();
    let table_at = values + 4 * trie_ids(trie).dom().len() + 4;
    let row = table_at + u32_at(bytes, values + 4 * trie_ids(trie)[key]);
    &&& trie_ids(trie).contains_key(key)
    &&& table_at <= row < bytes.len()
    &&& bytes[row] == if total < 255 {
        total
    } else {
        255
    }
    &&& m < 255 ==> row + 5 + 4 * m <= bytes.len() && u32_at(bytes, row + 1 + 4 * m) == id
}

/// A section and a table give the row of a word.
proof fn lemma_lists_word(
    trie: Trie,
    bytes: Seq<u8>,
    section: Seq<u8>,
    table: Seq<u8>,
    start: int,
    reading: Seq<char>,
    place: u32,
    total: int,
    m: int,
    id: u32,
)
    requires
        0 <= start,
        0 <= m,
        section_spans(trie, section, 0, section.len() as int),
        section_answers(trie, section, encode_utf8(reading), place),
        start + section.len() + 4 + table.len() <= bytes.len(),
        bytes.subrange(start, start + section.len()) == section,
        bytes.subrange(start + section.len() + 4, start + section.len() + 4 + table.len())
            == table,
        place < table.len(),
        table[place as int] == if total < 255 {
            total
        } else {
            255
        },
        m < 255 ==> place + 5 + 4 * m <= table.len() && u32_at(table, place + 1 + 4 * m) == id,
    ensures
        lists_word(trie, bytes, start, reading, total, m, id),
{
    reveal(section_spans);
    reveal(section_answers);
    reveal(lists_word);
    let key = encode_utf8(reading);
    let image = trie_image(trie);
    let at = 8int + image.len() + 4 * trie_ids(trie)[key];
    let table_at = start + section.len() + 4;
    lemma_u32_within(bytes, section, start, at);
    assert(bytes.subrange(table_at, table_at + table.len())[place as int] == bytes[table_at
        + place]);
    if m < 255 {
        lemma_u32_within(bytes, table, table_at, place + 1 + 4 * m);
    }
}

/// Whether a word has a reading, in the given writing, that is not empty.
pub open spec fn has_reading(word: Word, reading: Seq<char>, hiragana: bool) -> bool {
    &&& word.reading is Some
    &&& reading.len() > 0
    &&& reading == if hiragana {
        in_hiragana(word.reading->0@)
    } else {
        word.reading->0@
    }
}

/// The content of words, in the given writing.
spec fn written(words: Seq<Word>, hiragana: bool) -> Seq<(u32, Option<Seq<char>>)> {
    if hiragana {
        with_hiragana(word_views(words))
    } else {
        word_views(words)
    }
}

/// The content of a word, in the given writing.
proof fn lemma_written(words: Seq<Word>, hiragana: bool, k: int)
    requires
        0 <= k < words.len(),
    ensures
        written(words, hiragana).len() == words.len(),
        written(words, hiragana)[k].0 == words[k].id,
        words[k].reading is None <==> written(words, hiragana)[k].1 is None,
        words[k].reading is Some ==> written(words, hiragana)[k].1->0 == if hiragana {
            in_hiragana(words[k].reading->0@)
        } else {
            words[k].reading->0@
        },
{
}

/// Each word is listed in the row of its reading.
proof fn lemma_word_listed(
    words: Seq<Word>,
    hiragana: bool,
    bytes: Seq<u8>,
    section: Seq<u8>,
    trie: Trie,
    start: int,
    k: int,
    reading: Seq<char>,
)
    requires
        words.len() <= usize::MAX,
        0 <= k < words.len(),
        has_reading(words[k], reading, hiragana),
        is_section_with(id_places(readable(written(words, hiragana))), section, trie),
        id_table(readable(written(words, hiragana))).len() < 0x1_0000_0000,
        0 <= start,
        ({
            let table = id_table(readable(written(words, hiragana)));
            let table_at = start + section.len() + 4;
            &&& table_at + table.len() <= bytes.len()
            &&& bytes.subrange(start, start + section.len()) == section
            &&& bytes.subrange(table_at, table_at + table.len()) == table
        }),
    ensures
        ({
            let same = |word: Word| has_reading(word, reading, hiragana);
            let total = words.filter(same).len() as int;
            let m = words.take(k).filter(same).len() as int;
            lists_word(trie, bytes, start, reading, total, m, words[k].id)
        }),
{
    let views = written(words, hiragana);
    let items = readable(views);
    let same = |word: Word| has_reading(word, reading, hiragana);
    lemma_written(words, hiragana, k);
    lemma_item_of_word(views, k);
    let i = readable(views.take(k)).len() as int;
    assert forall|j: int| 0 <= j < words.len() implies (same(#[trigger] words[j])
        <==> views[j].1 == Some(reading)) by {
        lemma_written(words, hiragana, j);
    }
    lemma_count_readings(words, views, reading, same);
    let first = words.take(k);
    assert forall|j: int| 0 <= j < first.len() implies (same(#[trigger] first[j])
        <==> views.take(k)[j].1 == Some(reading)) by {
        assert(same(words[j]) <==> views[j].1 == Some(reading));
    }
    lemma_count_readings(first, views.take(k), reading, same);
    assert(entry_keys(items).take(i) =~= entry_keys(items.take(i)));
    let place = lemma_row_of_item(items, section, trie, i);
    lemma_section_spans(id_places(items), section, trie);
    lemma_lists_word(
        trie,
        bytes,
        section,
        id_table(items),
        start,
        reading,
        place,
        words.filter(same).len() as int,
        first.filter(same).len() as int,
        words[k].id,
    );
}

/// The trie has the readings of the words, and no other keys.
proof fn lemma_keys_are_readings(
    words: Seq<Word>,
    hiragana: bool,
    section: Seq<u8>,
    trie: Trie,
    key: Seq<u8>,
)
    requires
        words.len() <= usize::MAX,
        is_section_with(id_places(readable(written(words, hiragana))), section, trie),
    ensures
        trie_ids(trie).contains_key(key) <==> exists|k: int, reading: Seq<char>|
            0 <= k < words.len() && #[trigger] has_reading(words[k], reading, hiragana)
                && encode_utf8(reading) == key,
{
    let views = written(words, hiragana);
    let items = readable(views);
    let places = id_places(items);
    lemma_section_keys(places, section, trie, key);
    lemma_place_keys(entry_keys(items), id_rows(items));
    lemma_readable_prefix(views, views.len() as int);
    law_places_of_keys(entry_keys(items), id_rows(items));
    if entry_keys(places).contains(key) {
        let g = choose|g: int| 0 <= g < entry_keys(places).len() && entry_keys(places)[g] == key;
        assert(places[g].0 == key);
        assert(entry_keys(items).contains(places[g].0));
        let i = choose|i: int| 0 <= i < entry_keys(items).len() && entry_keys(items)[i] == key;
        let k = lemma_word_of_item(views, i);
        lemma_written(words, hiragana, k);
        assert(has_reading(words[k], views[k].1->0, hiragana));
    }
    if exists|k: int, reading: Seq<char>|
        0 <= k < words.len() && #[trigger] has_reading(words[k], reading, hiragana)
            && encode_utf8(reading) == key {
        let (k, reading) = choose|k: int, reading: Seq<char>|
            0 <= k < words.len() && #[trigger] has_reading(words[k], reading, hiragana)
                && encode_utf8(reading) == key;
        lemma_written(words, hiragana, k);
        lemma_item_of_word(views, k);
        let i = readable(views.take(k)).len() as int;
        assert(entry_keys(items)[i] == key);
        assert(entry_keys(items).contains(key));
        let g = choose|g: int| 0 <= g < places.len() && (#[trigger] places[g]).0 == key;
        assert(entry_keys(places)[g] == key);
    }
}

/// The word of an item.
proof fn lemma_word_of_item(words: Seq<(u32, Option<Seq<char>>)>, i: int) -> (k: int)
    requires
        0 <= i < readable(words).len(),
    ensures
        0 <= k < words.len(),
        words[k].1 is Some,
        words[k].1->0.len() > 0,
        readable(words)[i] == (encode_utf8(words[k].1->0), words[k].0),
    decreases words.len(),
{
    let rest = words.drop_last();
    if i < readable(rest).len() {
        lemma_word_of_item(rest, i)
    } else {
        words.len() - 1
    }
}

/// A reading trie section answers for the words that it was built from: it says what it is, holds a
/// trie of the readings that are not empty, and after it a table with its size before it. The row
/// of a reading in the table counts the words with the reading, up to 255, and lists their numbers
/// in the order of the words.
pub proof fn law_reading_trie_of_words(words: Seq<Word>, bytes: Seq<u8>)
    requires
        words.len() <= usize::MAX,
        is_reading_trie(readable(word_views(words)), bytes),
        bytes.len() < 0x1_0000_0000,
    ensures
        exists|trie: Trie, end: int|
            {
                &&& #[trigger] section_spans(trie, bytes, 4, end)
                &&& u32_at(bytes, 0) == 0x5254_5249
                &&& end + 4 <= bytes.len()
                &&& u32_at(bytes, end) == bytes.len() - end - 4
                &&& answers_for_words(trie, words, false, bytes, 4)
            },
{
    let table = id_table(readable(word_views(words)));
    let section = choose|section: Seq<u8>|
        {
            &&& #[trigger] is_marisa_section(id_places(readable(word_views(words))), section)
            &&& bytes == le32(READING_TRIE_MAGIC as int) + section + sized(table)
        };
    let head = le32(READING_TRIE_MAGIC as int);
    let none = Seq::<u8>::empty();
    law_size_before(table);
    lemma_sized_within(head + section, table, none);
    assert(bytes =~= head + section + sized(table) + none);
    assert(bytes.subrange(4, 4int + section.len()) =~= section);
    assert(bytes =~= none + head + (section + sized(table)));
    law_le32_reads_back(READING_TRIE_MAGIC as int, none, section + sized(table));
    let end = 4 + section.len() as int;
    assert(bytes.subrange(end, end + sized(table).len()) =~= sized(table));
    lemma_u32_within(bytes, sized(table), end, 0);
    let trie = lemma_answers_for_words(words, false, bytes, section, 4);
    assert(section_spans(trie, bytes, 4, end));
}

/// Whether a trie that starts at `start`, and the table after its section, answer for words: the
/// trie has the readings of the words that are not empty, and no other keys, and each word with a
/// reading is listed in the row of the reading, after the words before it that have the reading.
#[verifier::opaque]
pub open spec fn answers_for_words(
    trie: Trie,
    words: Seq<Word>,
    hiragana: bool,
    bytes: Seq<u8>,
    start: int,
) -> bool {
    &&& forall|k: int, reading: Seq<char>|
        0 <= k < words.len() && #[trigger] has_reading(words[k], reading, hiragana) ==> {
            let same = |word: Word| has_reading(word, reading, hiragana);
            lists_word(
                trie,
                bytes,
                start,
                reading,
                words.filter(same).len() as int,
                words.take(k).filter(same).len() as int,
                words[k].id,
            )
        }
    &&& forall|key: Seq<u8>| #[trigger]
        trie_ids(trie).contains_key(key) <==> exists|k: int, reading: Seq<char>|
            0 <= k < words.len() && #[trigger] has_reading(words[k], reading, hiragana)
                && encode_utf8(reading) == key
}

/// A section and the table after it answer for words.
proof fn lemma_answers_for_words(
    words: Seq<Word>,
    hiragana: bool,
    bytes: Seq<u8>,
    section: Seq<u8>,
    start: int,
) -> (trie: Trie)
    requires
        words.len() <= usize::MAX,
        is_marisa_section(id_places(readable(written(words, hiragana))), section),
        id_table(readable(written(words, hiragana))).len() < 0x1_0000_0000,
        0 <= start,
        ({
            let table = id_table(readable(written(words, hiragana)));
            let table_at = start + section.len() + 4;
            &&& table_at + table.len() <= bytes.len()
            &&& bytes.subrange(start, start + section.len()) == section
            &&& bytes.subrange(table_at, table_at + table.len()) == table
        }),
    ensures
        answers_for_words(trie, words, hiragana, bytes, start),
        section_spans(trie, bytes, start, start + section.len()),
{
    reveal(is_marisa_section);
    reveal(answers_for_words);
    let items = readable(written(words, hiragana));
    let trie = choose|trie: Trie| is_section_with(id_places(items), section, trie);
    lemma_section_spans(id_places(items), section, trie);
    lemma_spans_within(trie, bytes, section, start);
    assert forall|k: int, reading: Seq<char>|
        0 <= k < words.len() && #[trigger] has_reading(words[k], reading, hiragana) implies {
        let same = |word: Word| has_reading(word, reading, hiragana);
        lists_word(
            trie,
            bytes,
            start,
            reading,
            words.filter(same).len() as int,
            words.take(k).filter(same).len() as int,
            words[k].id,
        )
    } by {
        lemma_word_listed(words, hiragana, bytes, section, trie, start, k, reading);
    }
    assert forall|key: Seq<u8>| #[trigger]
        trie_ids(trie).contains_key(key) <==> exists|k: int, reading: Seq<char>|
            0 <= k < words.len() && #[trigger] has_reading(words[k], reading, hiragana)
                && encode_utf8(reading) == key by {
        lemma_keys_are_readings(words, hiragana, section, trie, key);
    }
    trie
}

/// The sections that make hiragana readings the keys of a dictionary answer for the words that they
/// were built from: the trie has the readings in hiragana that are not empty, and the table after
/// it, with its size before it, counts in the row of a reading the words with the reading, up to
/// 255, and lists their numbers in the order of the words.
pub proof fn law_keyed_sections_of_words(
    words: Seq<Word>,
    bytes: Seq<u8>,
    section: Seq<u8>,
    ids: Seq<u8>,
    start: int,
)
    requires
        words.len() <= usize::MAX,
        is_marisa_section(id_places(readable(with_hiragana(word_views(words)))), section),
        ids == sized(id_table(readable(with_hiragana(word_views(words))))),
        ids.len() < 0x1_0000_0000,
        0 <= start,
        start + section.len() + ids.len() <= bytes.len(),
        bytes.subrange(start, start + section.len()) == section,
        bytes.subrange(start + section.len(), start + section.len() + ids.len()) == ids,
    ensures
        exists|trie: Trie|
            {
                &&& #[trigger] section_spans(trie, bytes, start, start + section.len())
                &&& u32_at(bytes, start + section.len()) == ids.len() - 4
                &&& answers_for_words(trie, words, true, bytes, start)
            },
{
    let table = id_table(readable(with_hiragana(word_views(words))));
    let end = start + section.len();
    law_size_before(table);
    lemma_u32_within(bytes, ids, end, 0);
    assert(bytes.subrange(end + 4, end + 4 + table.len()) =~= bytes.subrange(
        end,
        end + ids.len(),
    ).skip(4));
    let trie = lemma_answers_for_words(words, true, bytes, section, start);
    assert(section_spans(trie, bytes, start, end));
}

/// Writing readings in hiragana keeps the words, their numbers and their order, and each reading
/// but for its writing.
pub proof fn law_words_in_hiragana(words: Seq<Word>, out: Seq<Word>, k: int)
    requires
        word_views(out) == with_hiragana(word_views(words)),
        0 <= k < words.len(),
    ensures
        out.len() == words.len(),
        out[k].id == words[k].id,
        out[k].reading is None <==> words[k].reading is None,
        words[k].reading is Some ==> out[k].reading->0@ == in_hiragana(words[k].reading->0@),
{
    assert(word_views(out).len() == out.len());
    assert(word_views(out)[k] == word_view(out[k]));
    assert(with_hiragana(word_views(words))[k].0 == words[k].id);
}

/// The readings of words can be held where the words are not too many and their readings have not
/// too many beginnings.
pub proof fn law_readings_fit(words: Seq<(u32, Option<Seq<char>>)>)
    requires
        words.len() < 0x1_0000_0000,
        words.len() <= usize::MAX,
        prefixes(entry_keys(readable(words))).len() <= 2147483645,
    ensures
        readings_fit(readable(words)),
{
    let items = readable(words);
    lemma_readable_prefix(words, words.len() as int);
    assert forall|i: int| 0 <= i < entry_keys(items).len() implies (
    #[trigger] entry_keys(items)[i]).len() > 0 by {
        let k = lemma_word_of_item(words, i);
        let reading = words[k].1->0;
        if encode_utf8(reading).len() == 0 {
            encode_utf8_decode_utf8(reading);
            encode_utf8_decode_utf8(Seq::<char>::empty());
            assert(encode_utf8(reading) =~= encode_utf8(Seq::<char>::empty()));
        }
    }
    law_distinct_keys_fit(entry_keys(items));
}

/// A reading trie section has nothing but its parts: what it starts with, a trie section that gives
/// each reading the place of its row, and the rows with their size before them.
pub proof fn law_reading_trie_layout(items: Seq<(Seq<u8>, u32)>, bytes: Seq<u8>)
    requires
        is_reading_trie(items, bytes),
        bytes.len() < 0x1_0000_0000,
    ensures
        exists|section: Seq<u8>|
            {
                let table = id_table(items);
                let end = 4 + section.len() as int;
                &&& #[trigger] is_marisa_section(id_places(items), section)
                &&& bytes.len() == end + 4 + table.len()
                &&& u32_at(bytes, 0) == 0x5254_5249
                &&& bytes.subrange(4, end) == section
                &&& u32_at(bytes, end) == table.len()
                &&& bytes.skip(end + 4) == table
            },
{
    let table = id_table(items);
    let head = le32(READING_TRIE_MAGIC as int);
    let none = Seq::<u8>::empty();
    let section = choose|section: Seq<u8>|
        {
            &&& #[trigger] is_marisa_section(id_places(items), section)
            &&& bytes == head + section + sized(table)
        };
    let end = 4 + section.len() as int;
    law_size_before(table);
    assert(bytes.subrange(4, end) =~= section);
    assert(bytes =~= none + head + (section + sized(table)));
    law_le32_reads_back(READING_TRIE_MAGIC as int, none, section + sized(table));
    assert(bytes.subrange(end, end + sized(table).len()) =~= sized(table));
    lemma_u32_within(bytes, sized(table), end, 0);
    assert(bytes.skip(end + 4) =~= sized(table).skip(4));
    assert(is_marisa_section(id_places(items), section));
}

/// A row has nothing but its count, in one byte, and its words, up to 255 of them, in four bytes
/// each. There is one row for each reading, and the rows make up the table.
pub proof fn law_id_row_size(items: Seq<(Seq<u8>, u32)>, g: int)
    requires
        items.len() <= usize::MAX,
        0 <= g < id_rows(items).len(),
    ensures
        ({
            let total = count_key(entry_keys(items), id_places(items)[g].0);
            &&& id_rows(items).len() == id_places(items).len()
            &&& id_table(items) == concat(id_rows(items))
            &&& id_rows(items)[g].len() == 1 + 4 * if total < 255 {
                total
            } else {
                255
            }
        }),
{
    let keys = entry_keys(items);
    let group = grouping_of(keys)[g];
    lemma_group_size(keys, g);
    lemma_le32s_len(listed(group).map_values(|i: usize| entry_ids(items)[i as int]));
    assert(id_places(items)[g].0 == group_key(keys, group));
}

/// What it means that a section and a table answer for words: for a word with a reading, the value
/// that the trie's number for the reading leads to is the place of a row in the table; the row
/// starts with the number of words that have the reading, or 255 if there are more, and goes on
/// with the words' numbers, of four bytes each. The number of the word comes after those of the
/// words before it that have the reading.
pub proof fn law_word_reads(
    trie: Trie,
    words: Seq<Word>,
    hiragana: bool,
    bytes: Seq<u8>,
    start: int,
    k: int,
    reading: Seq<char>,
)
    requires
        answers_for_words(trie, words, hiragana, bytes, start),
        0 <= k < words.len(),
        words[k].reading is Some,
        reading.len() > 0,
        hiragana ==> reading == in_hiragana(words[k].reading->0@),
        !hiragana ==> reading == words[k].reading->0@,
    ensures
        ({
            let same = |word: Word| has_reading(word, reading, hiragana);
            let total = words.filter(same).len();
            let m = words.take(k).filter(same).len();
            let values = start + 8 + trie_image(trie).len();
            let table_at = values + 4 * trie_ids(trie).dom().len() + 4;
            let row = table_at + u32_at(bytes, values + 4 * trie_ids(trie)[encode_utf8(reading)]);
            &&& trie_ids(trie).contains_key(encode_utf8(reading))
            &&& table_at <= row < bytes.len()
            &&& total < 255 ==> bytes[row] == total
            &&& total >= 255 ==> bytes[row] == 255
            &&& m < 255 ==> row + 5 + 4 * m <= bytes.len()
            &&& m < 255 ==> u32_at(bytes, row + 1 + 4 * m) == words[k].id
        }),
{
    reveal(answers_for_words);
    reveal(lists_word);
    assert(has_reading(words[k], reading, hiragana));
}

/// A word has a reading in the given writing where its reading in that writing is the one asked
/// for, and that is not empty.
pub proof fn law_has_reading(word: Word, reading: Seq<char>)
    ensures
        has_reading(word, reading, false) <==> word.reading is Some && word.reading->0@ == reading
            && reading.len() > 0,
        has_reading(word, reading, true) <==> word.reading is Some && in_hiragana(
            word.reading->0@,
        ) == reading && reading.len() > 0,
{
}

/// The trie of words has no other keys than their readings.
pub proof fn law_key_reads(
    trie: Trie,
    words: Seq<Word>,
    hiragana: bool,
    bytes: Seq<u8>,
    start: int,
    key: Seq<u8>,
) -> (k: int)
    requires
        answers_for_words(trie, words, hiragana, bytes, start),
        trie_ids(trie).contains_key(key),
    ensures
        0 <= k < words.len(),
        words[k].reading is Some,
        words[k].reading->0@.len() > 0,
        hiragana ==> encode_utf8(in_hiragana(words[k].reading->0@)) == key,
        !hiragana ==> encode_utf8(words[k].reading->0@) == key,
{
    reveal(answers_for_words);
    let (k, reading) = choose|k: int, reading: Seq<char>|
        0 <= k < words.len() && #[trigger] has_reading(words[k], reading, hiragana)
            && encode_utf8(reading) == key;
    k
}

} // verus!
