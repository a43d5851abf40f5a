//! Kana-kanji conversion dictionaries.
//!
//! A dictionary starts with a header of 16 bytes: `KKCD`, the version, the number of different
//! entries and the two parameters. A trie section follows that leads from each hiragana reading to
//! the place of its row in the entry table, then the entry table and the string pool, each with its
//! size before it. A row holds the number of its entries and then the entries, of 14 bytes each.

use crate::bytes::{
    i16_at, law_le16_reads_back, law_le32_reads_back, le16, le32, lemma_u32_within, push_bytes,
    push_i16, push_len, push_len16, push_u16, push_u32, u16_at, u32_at, u64_at,
};
use crate::marisa::{
    build_marisa_section, entry_keys, entry_views, is_marisa_section, is_section_with, keys_fit,
    law_section_lookup, lemma_section_answers, lemma_section_keys, lemma_section_spans,
    lemma_spans_within, section_answers, section_spans, trie_ids, trie_image,
};
use crate::order::{
    byte_views, count_key, distinct_keys, group_by_key, group_key, group_views, grouping_of,
    is_group, is_grouped, is_grouping, law_grouping_exists, lemma_group_size,
    lemma_item_in_group_of_its_key, lemma_lex_irreflexive, lemma_rank, lex_lt,
};
use crate::prefix::prefixes;
use crate::table::{
    check_distinct, concat, law_distinct_keys_fit, law_places_of_keys, law_row_found,
    law_size_before, lemma_place_keys, lemma_row_start_step, place_rows, places, row_start, sized,
};
use rsmarisa::Trie;
use vstd::prelude::*;
use vstd::slice::slice_to_vec;
use vstd::utf8::{encode_utf8, encode_utf8_decode_utf8};

verus! {

/// What a dictionary starts with: `KKCD`.
pub const KKC_MAGIC: u32 = 0x4B4B_4344;

/// The version of the format.
pub const KKC_VERSION: u32 = 1;

/// One conversion: a hiragana reading, what it is converted to, and how it connects.
pub struct KkcEntry {
    pub reading_hiragana: String,
    pub surface: String,
    pub cost: i16,
    pub left_id: i16,
    pub right_id: i16,
    pub pos_id: u16,
}

/// A conversion, by content.
pub struct EntryView {
    pub reading: Seq<char>,
    pub surface: Seq<char>,
    pub cost: i16,
    pub left_id: i16,
    pub right_id: i16,
    pub pos_id: u16,
}

impl View for KkcEntry {
    type V = EntryView;

    open spec fn view(&self) -> EntryView {
        EntryView {
            reading: self.reading_hiragana@,
            surface: self.surface@,
            cost: self.cost,
            left_id: self.left_id,
            right_id: self.right_id,
            pos_id: self.pos_id,
        }
    }
}

/// The parameters of a dictionary: `alpha` is the compound boost, `beta` the identity penalty.
#[derive(Clone, Copy, Debug, Default, PartialEq, Eq, Structural)]
pub struct KkcParams {
    pub alpha: i16,
    pub beta: i16,
}

/// A list of conversions, by content.
pub open spec fn kkc_views(entries: Seq<KkcEntry>) -> Seq<EntryView> {
    entries.map_values(|entry: KkcEntry| entry@)
}

/// The bytes of the readings.
pub open spec fn readings(entries: Seq<EntryView>) -> Seq<Seq<u8>> {
    entries.map_values(|entry: EntryView| encode_utf8(entry.reading))
}

/// The bytes of the surfaces.
pub open spec fn surfaces(entries: Seq<EntryView>) -> Seq<Seq<u8>> {
    entries.map_values(|entry: EntryView| encode_utf8(entry.surface))
}

/// The different strings among `strings`, one after the other, in the order in which they first
/// occur.
pub open spec fn string_pool(strings: Seq<Seq<u8>>) -> Seq<u8>
    decreases strings.len(),
{
    if strings.len() == 0 {
        Seq::empty()
    } else {
        let before = strings.drop_last();
        if before.contains(strings.last()) {
            string_pool(before)
        } else {
            string_pool(before) + strings.last()
        }
    }
}

/// Whether string `first` is the first one that equals string `i`.
pub open spec fn is_first(strings: Seq<Seq<u8>>, i: int, first: int) -> bool {
    &&& 0 <= first <= i
    &&& strings[first] == strings[i]
    &&& forall|j: int| 0 <= j < first ==> #[trigger] strings[j] != strings[i]
}

/// The place of string `i` in the pool: the pool's size when the string first occurs.
pub open spec fn pool_place(strings: Seq<Seq<u8>>, i: int) -> int {
    string_pool(strings.take(choose|first: int| is_first(strings, i, first))).len() as int
}

/// The bytes of an entry: the place and length of the surface in the pool, and the numbers.
#[verifier::opaque]
pub open spec fn entry_bytes(entries: Seq<EntryView>, i: int) -> Seq<u8> {
    le32(pool_place(surfaces(entries), i)) + le16(surfaces(entries)[i].len() as int) + le16(
        entries[i].cost as int,
    ) + le16(entries[i].left_id as int) + le16(entries[i].right_id as int) + le16(
        entries[i].pos_id as int,
    )
}

/// The entries of a group that are listed: the first 65535.
pub open spec fn listed(group: Seq<usize>) -> Seq<usize> {
    if group.len() <= 0xFFFF {
        group
    } else {
        group.take(0xFFFF)
    }
}

/// The row of a group of entries: how many are listed, and each of them.
pub open spec fn kkc_row(entries: Seq<EntryView>, group: Seq<usize>) -> Seq<u8> {
    le16(listed(group).len() as int) + concat(
        listed(group).map_values(|i: usize| entry_bytes(entries, i as int)),
    )
}

/// The rows of all readings.
pub open spec fn kkc_rows(entries: Seq<EntryView>) -> Seq<Seq<u8>> {
    grouping_of(readings(entries)).map_values(|group: Seq<usize>| kkc_row(entries, group))
}

/// Each reading with the place of its row.
pub open spec fn kkc_places(entries: Seq<EntryView>) -> Seq<(Seq<u8>, u32)> {
    places(readings(entries), kkc_rows(entries))
}

/// The header of a dictionary with so many different entries.
#[verifier::opaque]
pub open spec fn kkc_header(num_entries: int, params: KkcParams) -> Seq<u8> {
    le32(KKC_MAGIC as int) + le32(KKC_VERSION as int) + le32(num_entries) + le16(
        params.alpha as int,
    ) + le16(params.beta as int)
}

/// Whether a trie can be relied upon to hold the readings.
pub open spec fn kkc_fits(entries: Seq<EntryView>) -> bool {
    keys_fit(distinct_keys(readings(entries)))
}

/// Whether `bytes` are a dictionary of the entries.
pub open spec fn is_kkc_dict(entries: Seq<EntryView>, params: KkcParams, bytes: Seq<u8>) -> bool {
    exists|section: Seq<u8>|
        {
            &&& #[trigger] is_marisa_section(kkc_places(entries), section)
            &&& bytes == kkc_header(entries.to_set().len() as int, params) + section + sized(
                concat(kkc_rows(entries)),
            ) + sized(string_pool(surfaces(entries)))
        }
}

/// The bytes of the readings and those of the surfaces.
fn collect_strings(entries: &Vec<KkcEntry>) -> (r: (Vec<Vec<u8>>, Vec<Vec<u8>>))
    ensures
        byte_views(r.0@) == readings(kkc_views(entries@)),
        byte_views(r.1@) == surfaces(kkc_views(entries@)),
{
    let ghost views = kkc_views(entries@);
    let mut keys: Vec<Vec<u8>> = Vec::new();
    let mut strings: Vec<Vec<u8>> = Vec::new();
    let mut i: usize = 0;
    while i < entries.len()
        invariant
            i <= entries.len(),
            views == kkc_views(entries@),
            keys@.len() == i,
            strings@.len() == i,
            forall|j: int| 0 <= j < i ==> #[trigger] keys@[j]@ == readings(views)[j],
            forall|j: int| 0 <= j < i ==> #[trigger] strings@[j]@ == surfaces(views)[j],
        decreases entries.len() - i,
    {
        keys.push(slice_to_vec(entries[i].reading_hiragana.as_str().as_bytes()));
        strings.push(slice_to_vec(entries[i].surface.as_str().as_bytes()));
        i = i + 1;
    }
    assert(byte_views(keys@) =~= readings(views));
    assert(byte_views(strings@) =~= surfaces(views));
    (keys, strings)
}

/// The first item of a group is the first one with the key.
proof fn lemma_first_of_group(strings: Seq<Seq<u8>>, groups: Seq<Seq<usize>>, g: int, m: int)
    requires
        is_grouping(strings, groups),
        0 <= g < groups.len(),
        0 <= m < groups[g].len(),
    ensures
        groups[g][m] < strings.len(),
        is_first(strings, groups[g][m] as int, groups[g][0] as int),
{
    let group = groups[g];
    assert(is_group(strings, group));
    assert(strings[group[m] as int] == strings[group[0] as int]);
    assert forall|j: int| 0 <= j < group[0] implies #[trigger] strings[j]
        != strings[group[m] as int] by {
        if strings[j] == strings[group[m] as int] {
            lemma_item_in_group_of_its_key(strings, groups, g, j);
            let x = choose|x: int| 0 <= x < group.len() && #[trigger] group[x] == j;
            if x > 0 {
                assert(group[0] < group[x]);
            }
        }
    }
    if m > 0 {
        assert(group[0] < group[m]);
    }
}

/// For each string the first one that equals it.
fn find_firsts(strings: &Vec<Vec<u8>>) -> (firsts: Vec<usize>)
    ensures
        firsts@.len() == strings@.len(),
        forall|i: int|
            0 <= i < firsts@.len() ==> is_first(
                byte_views(strings@),
                i,
                #[trigger] firsts@[i] as int,
            ),
{
    let groups: Vec<Vec<usize>> = group_by_key(strings);
    let ghost views = byte_views(strings@);
    let ghost all = group_views(groups@);
    let mut firsts: Vec<usize> = vec![0usize; strings.len()];
    let mut g: usize = 0;
    while g < groups.len()
        invariant
            g <= groups.len(),
            views == byte_views(strings@),
            all == group_views(groups@),
            is_grouping(views, all),
            firsts@.len() == strings@.len(),
            forall|h: int, m: int|
                0 <= h < g && 0 <= m < all[h].len() ==> is_first(
                    views,
                    #[trigger] all[h][m] as int,
                    firsts@[all[h][m] as int] as int,
                ),
        decreases groups.len() - g,
    {
        assert(all[g as int] == groups@[g as int]@);
        assert(is_group(views, all[g as int]));
        let first: usize = groups[g][0];
        let mut m: usize = 0;
        while m < groups[g].len()
            invariant
                g < groups.len(),
                views == byte_views(strings@),
                all == group_views(groups@),
                all[g as int] == groups@[g as int]@,
                is_grouping(views, all),
                first == all[g as int][0],
                firsts@.len() == strings@.len(),
                m <= groups@[g as int]@.len(),
                forall|h: int, k: int|
                    0 <= h < g && 0 <= k < all[h].len() ==> is_first(
                        views,
                        #[trigger] all[h][k] as int,
                        firsts@[all[h][k] as int] as int,
                    ),
                forall|k: int|
                    0 <= k < m ==> is_first(
                        views,
                        #[trigger] all[g as int][k] as int,
                        firsts@[all[g as int][k] as int] as int,
                    ),
            decreases groups@[g as int]@.len() - m,
        {
            proof {
                lemma_first_of_group(views, all, g as int, m as int);
                assert forall|h: int, k: int| 0 <= h < g && 0 <= k < all[h].len() implies
                    #[trigger] all[h][k] != all[g as int][m as int] by {
                    lemma_first_of_group(views, all, h, k);
                    assert(is_group(views, all[h]) && is_group(views, all[g as int]));
                    assert(lex_lt(
                        group_key(views, all[h]),
                        group_key(views, all[g as int]),
                    ));
                    lemma_lex_irreflexive(views[all[h][k] as int]);
                }
                assert forall|k: int| 0 <= k < m implies #[trigger] all[g as int][k]
                    != all[g as int][m as int] by {
                    assert(is_group(views, all[g as int]));
                }
            }
            let item: usize = groups[g][m];
            firsts.set(item, first);
            m = m + 1;
        }
        g = g + 1;
    }
    assert forall|i: int| 0 <= i < firsts@.len() implies is_first(
        views,
        i,
        #[trigger] firsts@[i] as int,
    ) by {
        assert(is_grouped(all, i));
        let (h, m) = choose|h: int, m: int|
            0 <= h < all.len() && 0 <= m < all[h].len() && #[trigger] all[h][m] == i;
        assert(is_first(views, all[h][m] as int, firsts@[all[h][m] as int] as int));
    }
    firsts
}

/// A string occurs before itself exactly where it is not the first of its kind.
proof fn lemma_first_is_new(strings: Seq<Seq<u8>>, i: int, first: int)
    requires
        0 <= i < strings.len(),
        is_first(strings, i, first),
    ensures
        strings.take(i).contains(strings[i]) <==> first != i,
        pool_place(strings, i) == string_pool(strings.take(first)).len(),
{
    if first != i {
        assert(strings.take(i)[first] == strings[i]);
    } else if strings.take(i).contains(strings[i]) {
        let j = choose|j: int| 0 <= j < i && strings.take(i)[j] == strings[i];
        assert(strings[j] == strings[i]);
    }
    let chosen = choose|chosen: int| is_first(strings, i, chosen);
    assert(is_first(strings, i, chosen));
    if chosen < first {
        assert(strings[chosen] != strings[i]);
    }
    if first < chosen {
        assert(strings[first] != strings[i]);
    }
}

/// The string pool, and the place of each string in it.
fn build_pool(strings: &Vec<Vec<u8>>) -> (r: (Vec<u8>, Vec<usize>))
    ensures
        r.0@ == string_pool(byte_views(strings@)),
        r.1@.len() == strings@.len(),
        forall|i: int|
            0 <= i < r.1@.len() ==> #[trigger] r.1@[i] == pool_place(byte_views(strings@), i),
{
    let firsts: Vec<usize> = find_firsts(strings);
    let ghost views = byte_views(strings@);
    let mut pool: Vec<u8> = Vec::new();
    let mut starts: Vec<usize> = Vec::new();
    let mut spots: Vec<usize> = Vec::new();
    let mut i: usize = 0;
    while i < strings.len()
        invariant
            i <= strings.len(),
            views == byte_views(strings@),
            firsts@.len() == strings@.len(),
            forall|j: int|
                0 <= j < firsts@.len() ==> is_first(views, j, #[trigger] firsts@[j] as int),
            pool@ == string_pool(views.take(i as int)),
            starts@.len() == i,
            spots@.len() == i,
            forall|j: int|
                0 <= j < i ==> #[trigger] starts@[j] == string_pool(views.take(j)).len(),
            forall|j: int| 0 <= j < i ==> #[trigger] spots@[j] == pool_place(views, j),
        decreases strings.len() - i,
    {
        assert(is_first(views, i as int, firsts@[i as int] as int));
        proof {
            lemma_first_is_new(views, i as int, firsts@[i as int] as int);
        }
        assert(views.take(i + 1).drop_last() =~= views.take(i as int));
        assert(views.take(i + 1).last() == strings@[i as int]@);
        starts.push(pool.len());
        spots.push(starts[firsts[i]]);
        if firsts[i] == i {
            push_bytes(&mut pool, strings[i].as_slice());
        }
        i = i + 1;
    }
    assert(views.take(i as int) =~= views);
    (pool, spots)
}

/// Appends an entry.
fn push_entry(
    out: &mut Vec<u8>,
    entries: &Vec<KkcEntry>,
    strings: &Vec<Vec<u8>>,
    spots: &Vec<usize>,
    i: usize,
)
    requires
        i < entries@.len(),
        byte_views(strings@) == surfaces(kkc_views(entries@)),
        spots@.len() == entries@.len(),
        spots@[i as int] == pool_place(surfaces(kkc_views(entries@)), i as int),
    ensures
        final(out)@ == old(out)@ + entry_bytes(kkc_views(entries@), i as int),
{
    assert(strings@.len() == entries@.len()) by {
        assert(byte_views(strings@).len() == strings@.len());
    }
    assert(byte_views(strings@)[i as int] == strings@[i as int]@);
    push_len(out, spots[i]);
    push_len16(out, strings[i].len());
    push_i16(out, entries[i].cost);
    push_i16(out, entries[i].left_id);
    push_i16(out, entries[i].right_id);
    push_u16(out, entries[i].pos_id);
    reveal(entry_bytes);
    assert(out@ =~= old(out)@ + entry_bytes(kkc_views(entries@), i as int));
}

/// The row of a group of entries.
fn build_kkc_row(
    entries: &Vec<KkcEntry>,
    strings: &Vec<Vec<u8>>,
    spots: &Vec<usize>,
    group: &Vec<usize>,
) -> (row: Vec<u8>)
    requires
        byte_views(strings@) == surfaces(kkc_views(entries@)),
        spots@.len() == entries@.len(),
        forall|i: int|
            0 <= i < spots@.len() ==> #[trigger] spots@[i] == pool_place(
                surfaces(kkc_views(entries@)),
                i,
            ),
        forall|m: int| 0 <= m < group@.len() ==> #[trigger] group@[m] < entries@.len(),
    ensures
        row@ == kkc_row(kkc_views(entries@), group@),
{
    let count: usize = if group.len() <= 0xFFFF {
        group.len()
    } else {
        0xFFFF
    };
    let ghost views = kkc_views(entries@);
    let ghost wanted = listed(group@).map_values(|i: usize| entry_bytes(views, i as int));
    let mut row: Vec<u8> = Vec::new();
    push_u16(&mut row, count as u16);
    let ghost head = row@;
    let mut m: usize = 0;
    while m < count
        invariant
            m <= count <= group@.len(),
            count == listed(group@).len(),
            views == kkc_views(entries@),
            wanted == listed(group@).map_values(|i: usize| entry_bytes(views, i as int)),
            byte_views(strings@) == surfaces(views),
            spots@.len() == entries@.len(),
            forall|i: int|
                0 <= i < spots@.len() ==> #[trigger] spots@[i] == pool_place(surfaces(views), i),
            forall|k: int| 0 <= k < group@.len() ==> #[trigger] group@[k] < entries@.len(),
            row@ == head + concat(wanted.take(m as int)),
        decreases count - m,
    {
        assert(group@[m as int] < entries@.len());
        push_entry(&mut row, entries, strings, spots, group[m]);
        assert(wanted.take(m + 1).drop_last() =~= wanted.take(m as int));
        assert(wanted.take(m + 1).last() == entry_bytes(views, group@[m as int] as int));
        m = m + 1;
    }
    assert(wanted.take(m as int) =~= wanted);
    row
}

/// The entry table, and each reading with the place of its row.
fn build_entry_table(
    entries: &Vec<KkcEntry>,
    keys: &Vec<Vec<u8>>,
    strings: &Vec<Vec<u8>>,
    spots: &Vec<usize>,
) -> (r: (Vec<u8>, Vec<(Vec<u8>, u32)>))
    requires
        byte_views(keys@) == readings(kkc_views(entries@)),
        byte_views(strings@) == surfaces(kkc_views(entries@)),
        spots@.len() == entries@.len(),
        forall|i: int|
            0 <= i < spots@.len() ==> #[trigger] spots@[i] == pool_place(
                surfaces(kkc_views(entries@)),
                i,
            ),
    ensures
        r.0@ == concat(kkc_rows(kkc_views(entries@))),
        entry_views(r.1@) == kkc_places(kkc_views(entries@)),
{
    let groups: Vec<Vec<usize>> = group_by_key(keys);
    let ghost views = kkc_views(entries@);
    let ghost all = group_views(groups@);
    let mut rows: Vec<Vec<u8>> = Vec::new();
    let mut g: usize = 0;
    while g < groups.len()
        invariant
            g <= groups.len(),
            views == kkc_views(entries@),
            all == group_views(groups@),
            all == grouping_of(readings(views)),
            is_grouping(readings(views), all),
            byte_views(strings@) == surfaces(views),
            spots@.len() == entries@.len(),
            forall|i: int|
                0 <= i < spots@.len() ==> #[trigger] spots@[i] == pool_place(surfaces(views), i),
            byte_views(rows@) == kkc_rows(views).take(g as int),
        decreases groups.len() - g,
    {
        assert(is_group(readings(views), all[g as int]));
        assert(all[g as int] == groups@[g as int]@);
        let ghost before = rows@;
        let row: Vec<u8> = build_kkc_row(entries, strings, spots, &groups[g]);
        rows.push(row);
        assert(byte_views(rows@) =~= byte_views(before).push(row@));
        assert(kkc_rows(views).take(g + 1) =~= kkc_rows(views).take(g as int).push(row@));
        g = g + 1;
    }
    assert(byte_views(rows@) =~= kkc_rows(views));
    place_rows(keys, &groups, &rows)
}

/// Whether a trie can be relied upon to hold the readings of the entries.
pub fn check_kkc_readings(entries: &Vec<KkcEntry>) -> (fits: bool)
    ensures
        fits == kkc_fits(kkc_views(entries@)),
{
    let (keys, _) = collect_strings(entries);
    check_distinct(&keys)
}

/// The fixed part of an entry's run of bytes.
#[verifier::opaque]
spec fn entry_key_head(entry: EntryView) -> Seq<u8> {
    let n = encode_utf8(entry.reading).len() as int;
    le32(n) + le32(n / 0x1_0000_0000) + le16(entry.cost as int) + le16(entry.left_id as int)
        + le16(entry.right_id as int) + le16(entry.pos_id as int)
}

/// An entry as one run of bytes.
#[verifier::opaque]
spec fn entry_key(entry: EntryView) -> Seq<u8> {
    entry_key_head(entry) + encode_utf8(entry.reading) + encode_utf8(entry.surface)
}

/// Where two runs of bytes are equal and their first parts are equally long, the parts are equal.
proof fn lemma_same_parts(a: Seq<u8>, b: Seq<u8>, c: Seq<u8>, d: Seq<u8>)
    requires
        a.len() == c.len(),
        a + b == c + d,
    ensures
        a == c,
        b == d,
{
    let n = a.len() as int;
    assert(a =~= (a + b).take(n) && c =~= (c + d).take(n));
    assert(b =~= (a + b).skip(n) && d =~= (c + d).skip(n));
}

/// Reads the fixed part of an entry's run of bytes back.
proof fn lemma_entry_key_head(entry: EntryView)
    requires
        encode_utf8(entry.reading).len() <= u64::MAX,
    ensures
        entry_key_head(entry).len() == 16,
        u64_at(entry_key_head(entry), 0) == encode_utf8(entry.reading).len(),
        i16_at(entry_key_head(entry), 8) == entry.cost,
        i16_at(entry_key_head(entry), 10) == entry.left_id,
        i16_at(entry_key_head(entry), 12) == entry.right_id,
        u16_at(entry_key_head(entry), 14) == entry.pos_id,
{
    reveal(entry_key_head);
    let head = entry_key_head(entry);
    let n = encode_utf8(entry.reading).len() as int;
    let low = le32(n);
    let high = le32(n / 0x1_0000_0000);
    let cost = le16(entry.cost as int);
    let left = le16(entry.left_id as int);
    let right = le16(entry.right_id as int);
    let pos = le16(entry.pos_id as int);
    let none = Seq::<u8>::empty();
    assert(head =~= none + low + (high + cost + left + right + pos));
    law_le32_reads_back(n, none, high + cost + left + right + pos);
    assert(head =~= low + high + (cost + left + right + pos));
    law_le32_reads_back(n / 0x1_0000_0000, low, cost + left + right + pos);
    assert(head =~= (low + high) + cost + (left + right + pos));
    law_le16_reads_back(entry.cost as int, low + high, left + right + pos);
    assert(head =~= (low + high + cost) + left + (right + pos));
    law_le16_reads_back(entry.left_id as int, low + high + cost, right + pos);
    assert(head =~= (low + high + cost + left) + right + pos);
    law_le16_reads_back(entry.right_id as int, low + high + cost + left, pos);
    assert(head =~= (low + high + cost + left + right) + pos + none);
    law_le16_reads_back(entry.pos_id as int, low + high + cost + left + right, none);
}

/// Entries with the same run of bytes are the same.
proof fn lemma_entry_key_injective(a: EntryView, b: EntryView)
    requires
        encode_utf8(a.reading).len() <= u64::MAX,
        encode_utf8(b.reading).len() <= u64::MAX,
        entry_key(a) == entry_key(b),
    ensures
        a == b,
{
    lemma_entry_key_head(a);
    lemma_entry_key_head(b);
    reveal(entry_key);
    let rest_a = encode_utf8(a.reading) + encode_utf8(a.surface);
    let rest_b = encode_utf8(b.reading) + encode_utf8(b.surface);
    assert(entry_key(a) =~= entry_key_head(a) + rest_a);
    assert(entry_key(b) =~= entry_key_head(b) + rest_b);
    lemma_same_parts(entry_key_head(a), rest_a, entry_key_head(b), rest_b);
    lemma_same_parts(
        encode_utf8(a.reading),
        encode_utf8(a.surface),
        encode_utf8(b.reading),
        encode_utf8(b.surface),
    );
    encode_utf8_decode_utf8(a.reading);
    encode_utf8_decode_utf8(b.reading);
    encode_utf8_decode_utf8(a.surface);
    encode_utf8_decode_utf8(b.surface);
}

/// There are as many groups of equal entries as there are different entries.
proof fn lemma_groups_are_entries(
    entries: Seq<EntryView>,
    keys: Seq<Seq<u8>>,
    groups: Seq<Seq<usize>>,
)
    requires
        keys.len() == entries.len(),
        forall|i: int| 0 <= i < keys.len() ==> #[trigger] keys[i] == entry_key(entries[i]),
        forall|i: int|
            0 <= i < entries.len() ==> encode_utf8((#[trigger] entries[i]).reading).len()
                <= u64::MAX,
        is_grouping(keys, groups),
    ensures
        groups.len() == entries.to_set().len(),
{
    let firsts = groups.map_values(|group: Seq<usize>| entries[group[0] as int]);
    assert forall|g: int, h: int| 0 <= g < firsts.len() && 0 <= h < firsts.len() && g != h implies
        firsts[g] != firsts[h] by {
        assert(is_group(keys, groups[g]) && is_group(keys, groups[h]));
        assert(keys[groups[g][0] as int] == entry_key(firsts[g]));
        assert(keys[groups[h][0] as int] == entry_key(firsts[h]));
        lemma_lex_irreflexive(entry_key(firsts[g]));
        if g < h {
            assert(lex_lt(group_key(keys, groups[g]), group_key(keys, groups[h])));
        } else {
            assert(lex_lt(group_key(keys, groups[h]), group_key(keys, groups[g])));
        }
    }
    firsts.unique_seq_to_set();
    assert forall|entry: EntryView| firsts.contains(entry) <==> entries.contains(entry) by {
        if firsts.contains(entry) {
            let g = choose|g: int| 0 <= g < firsts.len() && firsts[g] == entry;
            assert(is_group(keys, groups[g]));
            assert(entries[groups[g][0] as int] == entry);
        }
        if entries.contains(entry) {
            let i = choose|i: int| 0 <= i < entries.len() && entries[i] == entry;
            assert(is_grouped(groups, i));
            let (g, m) = choose|g: int, m: int|
                0 <= g < groups.len() && 0 <= m < groups[g].len() && #[trigger] groups[g][m] == i;
            assert(is_group(keys, groups[g]));
            assert(keys[groups[g][0] as int] == keys[i]);
            lemma_entry_key_injective(entries[groups[g][0] as int], entry);
            assert(firsts[g] == entry);
        }
    }
    assert(firsts.to_set() =~= entries.to_set());
}

/// The number of different entries.
fn count_entries(entries: &Vec<KkcEntry>) -> (count: usize)
    ensures
        count == kkc_views(entries@).to_set().len(),
{
    let ghost views = kkc_views(entries@);
    let mut keys: Vec<Vec<u8>> = Vec::new();
    let mut i: usize = 0;
    while i < entries.len()
        invariant
            i <= entries.len(),
            views == kkc_views(entries@),
            keys@.len() == i,
            forall|j: int| 0 <= j < i ==> #[trigger] keys@[j]@ == entry_key(views[j]),
            forall|j: int|
                0 <= j < i ==> encode_utf8((#[trigger] views[j]).reading).len() <= u64::MAX,
        decreases entries.len() - i,
    {
        let reading: &[u8] = entries[i].reading_hiragana.as_str().as_bytes();
        let mut key: Vec<u8> = Vec::new();
        push_len(&mut key, reading.len());
        push_u32(&mut key, (reading.len() as u64 / 0x1_0000_0000) as u32);
        push_i16(&mut key, entries[i].cost);
        push_i16(&mut key, entries[i].left_id);
        push_i16(&mut key, entries[i].right_id);
        push_u16(&mut key, entries[i].pos_id);
        assert(key@ =~= entry_key_head(views[i as int])) by {
            reveal(entry_key_head);
        }
        push_bytes(&mut key, reading);
        push_bytes(&mut key, entries[i].surface.as_str().as_bytes());
        assert(key@ =~= entry_key(views[i as int])) by {
            reveal(entry_key);
        }
        keys.push(key);
        i = i + 1;
    }
    let groups: Vec<Vec<usize>> = group_by_key(&keys);
    proof {
        lemma_groups_are_entries(views, byte_views(keys@), group_views(groups@));
    }
    groups.len()
}

/// Builds a dictionary.
pub fn build_kkc_dict(entries: &Vec<KkcEntry>, params: KkcParams) -> (out: Vec<u8>)
    requires
        kkc_fits(kkc_views(entries@)),
    ensures
        is_kkc_dict(kkc_views(entries@), params, out@),
{
    let ghost views = kkc_views(entries@);
    let (keys, strings) = collect_strings(entries);
    let (pool, spots) = build_pool(&strings);
    let (table, noted) = build_entry_table(entries, &keys, &strings, &spots);
    proof {
        lemma_place_keys(readings(views), kkc_rows(views));
    }
    let section: Vec<u8> = build_marisa_section(&noted);
    let mut out: Vec<u8> = Vec::new();
    push_u32(&mut out, KKC_MAGIC);
    push_u32(&mut out, KKC_VERSION);
    push_len(&mut out, count_entries(entries));
    push_i16(&mut out, params.alpha);
    push_i16(&mut out, params.beta);
    assert(out@ =~= kkc_header(views.to_set().len() as int, params)) by {
        reveal(kkc_header);
    }
    push_bytes(&mut out, section.as_slice());
    push_len(&mut out, table.len());
    push_bytes(&mut out, table.as_slice());
    push_len(&mut out, pool.len());
    push_bytes(&mut out, pool.as_slice());
    assert(is_marisa_section(kkc_places(views), section@));
    assert(out@ =~= kkc_header(views.to_set().len() as int, params) + section@ + sized(table@)
        + sized(pool@)) by {
        reveal(sized);
    }
    out
}

/// A dictionary says in its header what it is, how many different entries it has, and its
/// parameters.
pub proof fn law_kkc_header(entries: Seq<EntryView>, params: KkcParams, bytes: Seq<u8>)
    requires
        is_kkc_dict(entries, params, bytes),
    ensures
        16 <= bytes.len(),
        u32_at(bytes, 0) == 0x4B4B_4344,
        u32_at(bytes, 4) == 1,
        u32_at(bytes, 8) == entries.to_set().len() as int % 0x1_0000_0000,
        i16_at(bytes, 12) == params.alpha,
        i16_at(bytes, 14) == params.beta,
{
    let count = entries.to_set().len() as int;
    let header = kkc_header(count, params);
    let table = sized(concat(kkc_rows(entries)));
    let pool = sized(string_pool(surfaces(entries)));
    let section = choose|section: Seq<u8>|
        {
            &&& #[trigger] is_marisa_section(kkc_places(entries), section)
            &&& bytes == header + section + table + pool
        };
    lemma_header_reads_back(count, params, section + table + pool);
    assert(bytes =~= header + (section + table + pool));
}

/// Reads the parts of a header back.
proof fn lemma_header_reads_back(count: int, params: KkcParams, rest: Seq<u8>)
    ensures
        ({
            let bytes = kkc_header(count, params) + rest;
            &&& 16 <= bytes.len()
            &&& u32_at(bytes, 0) == KKC_MAGIC
            &&& u32_at(bytes, 4) == KKC_VERSION
            &&& u32_at(bytes, 8) == count % 0x1_0000_0000
            &&& i16_at(bytes, 12) == params.alpha
            &&& i16_at(bytes, 14) == params.beta
        }),
{
    reveal(kkc_header);
    let bytes = kkc_header(count, params) + rest;
    let none = Seq::<u8>::empty();
    let magic = le32(KKC_MAGIC as int);
    let version = le32(KKC_VERSION as int);
    let number = le32(count);
    let alpha = le16(params.alpha as int);
    let beta = le16(params.beta as int);
    assert(bytes =~= none + magic + (version + number + alpha + beta + rest));
    law_le32_reads_back(KKC_MAGIC as int, none, version + number + alpha + beta + rest);
    assert(bytes =~= magic + version + (number + alpha + beta + rest));
    law_le32_reads_back(KKC_VERSION as int, magic, number + alpha + beta + rest);
    assert(bytes =~= (magic + version) + number + (alpha + beta + rest));
    law_le32_reads_back(count, magic + version, alpha + beta + rest);
    assert(bytes =~= (magic + version + number) + alpha + (beta + rest));
    law_le16_reads_back(params.alpha as int, magic + version + number, beta + rest);
    assert(bytes =~= (magic + version + number + alpha) + beta + rest);
    law_le16_reads_back(params.beta as int, magic + version + number + alpha, rest);
}

/// The pool of some strings is the beginning of the pool of these strings and more.
proof fn lemma_pool_grows(strings: Seq<Seq<u8>>, n: int)
    requires
        0 <= n <= strings.len(),
    ensures
        string_pool(strings.take(n)).len() <= string_pool(strings).len(),
        string_pool(strings).take(string_pool(strings.take(n)).len() as int) == string_pool(
            strings.take(n),
        ),
    decreases strings.len() - n,
{
    if n == strings.len() {
        assert(strings.take(n) =~= strings);
        assert(string_pool(strings).take(string_pool(strings).len() as int) =~= string_pool(
            strings,
        ));
    } else {
        let more = strings.take(n + 1);
        lemma_pool_grows(strings, n + 1);
        assert(more.drop_last() =~= strings.take(n));
        let len = string_pool(strings.take(n)).len() as int;
        assert(string_pool(more).take(len) =~= string_pool(strings.take(n)));
        assert(string_pool(strings).take(string_pool(more).len() as int).take(len)
            =~= string_pool(strings).take(len));
    }
}

/// Each string stands in the pool at its place.
pub proof fn law_string_in_pool(strings: Seq<Seq<u8>>, i: int)
    requires
        0 <= i < strings.len(),
    ensures
        0 <= pool_place(strings, i),
        pool_place(strings, i) + strings[i].len() <= string_pool(strings).len(),
        string_pool(strings).subrange(
            pool_place(strings, i),
            pool_place(strings, i) + strings[i].len(),
        ) == strings[i],
{
    let first = lemma_some_first(strings, i, 0);
    lemma_first_is_new(strings, i, first);
    lemma_first_is_new(strings, first, first);
    let more = strings.take(first + 1);
    assert(more.drop_last() =~= strings.take(first));
    assert(string_pool(more) == string_pool(strings.take(first)) + strings[i]);
    lemma_pool_grows(strings, first + 1);
    let a = pool_place(strings, i);
    let b = a + strings[i].len();
    let pool = string_pool(strings);
    assert(pool.subrange(a, b) =~= pool.take(string_pool(more).len() as int).subrange(a, b));
    assert(pool.subrange(a, b) =~= strings[i]);
}

/// Finds the first string that equals string `i`, none of those before `from` being one.
proof fn lemma_some_first(strings: Seq<Seq<u8>>, i: int, from: int) -> (first: int)
    requires
        0 <= from <= i < strings.len(),
        forall|j: int| 0 <= j < from ==> #[trigger] strings[j] != strings[i],
    ensures
        is_first(strings, i, first),
    decreases i - from,
{
    if strings[from] == strings[i] {
        from
    } else {
        lemma_some_first(strings, i, from + 1)
    }
}

/// Rows of 14 bytes start at multiples of 14.
proof fn lemma_entries_evenly_spaced(rows: Seq<Seq<u8>>, m: int)
    requires
        0 <= m <= rows.len(),
        forall|k: int| 0 <= k < rows.len() ==> (#[trigger] rows[k]).len() == 14,
    ensures
        row_start(rows, m) == 14 * m,
    decreases m,
{
    if m == 0 {
        assert(rows.take(0) =~= Seq::<Seq<u8>>::empty());
    } else {
        lemma_entries_evenly_spaced(rows, m - 1);
        lemma_row_start_step(rows, m - 1);
    }
}

/// An entry takes 14 bytes.
proof fn lemma_entry_len(entries: Seq<EntryView>, i: int)
    ensures
        entry_bytes(entries, i).len() == 14,
{
    reveal(entry_bytes);
}

/// An entry within the row of its group.
proof fn lemma_within_row(entries: Seq<EntryView>, group: Seq<usize>, m: int)
    requires
        0 <= m < group.len(),
        m < 0xFFFF,
    ensures
        16 + 14 * m <= kkc_row(entries, group).len(),
        kkc_row(entries, group).subrange(2 + 14 * m, 16 + 14 * m) == entry_bytes(
            entries,
            group[m] as int,
        ),
{
    let row = kkc_row(entries, group);
    let listing = listed(group).map_values(|x: usize| entry_bytes(entries, x as int));
    assert forall|k: int| 0 <= k < listing.len() implies (#[trigger] listing[k]).len() == 14 by {
        lemma_entry_len(entries, listed(group)[k] as int);
    }
    lemma_entries_evenly_spaced(listing, m);
    law_row_found(listing, m);
    assert(row.subrange(2 + 14 * m, 16 + 14 * m) =~= concat(listing).subrange(
        14 * m,
        14 * m + 14,
    ));
}

/// How many entries before entry `i` have the reading of entry `i`.
pub open spec fn same_before(entries: Seq<EntryView>, i: int) -> int {
    count_key(readings(entries).take(i), readings(entries)[i])
}

/// Each of the first 65535 entries of a reading stands in the row of its reading, in their order:
/// some row `g` is the row of the reading, and there the entry is the one numbered by how many
/// entries before it have the reading.
pub proof fn law_entry_listed(entries: Seq<EntryView>, i: int) -> (g: int)
    requires
        entries.len() <= usize::MAX,
        0 <= i < entries.len(),
        same_before(entries, i) < 0xFFFF,
    ensures
        0 <= g < kkc_places(entries).len(),
        kkc_places(entries)[g].0 == readings(entries)[i],
        kkc_places(entries)[g].1 == row_start(kkc_rows(entries), g) % 0x1_0000_0000,
        forall|h: int|
            g < h < kkc_places(entries).len() ==> (#[trigger] kkc_places(entries)[h]).0
                != readings(entries)[i],
        ({
            let at = row_start(kkc_rows(entries), g) + 2 + 14 * same_before(entries, i);
            &&& 0 <= row_start(kkc_rows(entries), g) <= at
            &&& at + 14 <= concat(kkc_rows(entries)).len()
            &&& concat(kkc_rows(entries)).subrange(at, at + 14) == entry_bytes(entries, i)
        }),
{
    let keys = readings(entries);
    let groups = grouping_of(keys);
    law_grouping_exists(keys);
    assert(is_grouped(groups, i));
    let (g, m) = choose|g: int, m: int|
        0 <= g < groups.len() && 0 <= m < groups[g].len() && #[trigger] groups[g][m] == i;
    let group = groups[g];
    assert(is_group(keys, group));
    lemma_rank(keys, g, m);
    let rows = kkc_rows(entries);
    let table = concat(rows);
    law_row_found(rows, g);
    let row = rows[g];
    assert(row == kkc_row(entries, group));
    let start = row_start(rows, g);
    lemma_within_row(entries, group, m);
    let at = start + 2 + 14 * m;
    assert(table.subrange(at, at + 14) =~= table.subrange(start, start + row.len()).subrange(
        2 + 14 * m,
        16 + 14 * m,
    ));
    assert forall|h: int| g < h < kkc_places(entries).len() implies (#[trigger] kkc_places(
        entries,
    )[h]).0 != keys[i] by {
        lemma_lex_irreflexive(keys[i]);
        assert(lex_lt(group_key(keys, groups[g]), group_key(keys, groups[h])));
    }
    g
}

/// Whether `bytes`, which end with a table of `table_size` bytes and a pool of `pool_size` bytes,
/// each with its size before it, hold a trie that has the reading of the entry, a place in the
/// table at the trie's number for the reading, and in the row there, as the one numbered `m`,
/// the entry.
#[verifier::opaque]
pub open spec fn kkc_answers(
    trie: Trie,
    bytes: Seq<u8>,
    table_size: nat,
    pool_size: nat,
    m: int,
    entry: EntryView,
) -> bool {
    let image = trie_image(trie);
    let reading = encode_utf8(entry.reading);
    let place = u32_at(bytes, 24int + image.len() + 4 * trie_ids(trie)[reading]);
    let pool = bytes.len() - pool_size;
    let at = pool - 4 - table_size + place + 2 + 14 * m;
    let surface = pool + u32_at(bytes, at);
    &&& trie_ids(trie).contains_key(reading)
    &&& bytes.subrange(20, 20int + image.len()) == image
    &&& bytes.subrange(surface, surface + u16_at(bytes, at + 4)) == encode_utf8(entry.surface)
    &&& i16_at(bytes, at + 6) == entry.cost
    &&& i16_at(bytes, at + 8) == entry.left_id
    &&& i16_at(bytes, at + 10) == entry.right_id
    &&& u16_at(bytes, at + 12) == entry.pos_id
}

/// A dictionary gives back what it was built from: each of the first 65535 entries of a reading
/// is found through the trie, the entry table and the string pool, as long as the table and the
/// pool can be addressed with 32 bits and the surface measured with 16.
pub proof fn law_kkc_lookup(
    entries: Seq<EntryView>,
    params: KkcParams,
    bytes: Seq<u8>,
    i: int,
)
    requires
        is_kkc_dict(entries, params, bytes),
        entries.len() <= usize::MAX,
        concat(kkc_rows(entries)).len() < 0x1_0000_0000,
        string_pool(surfaces(entries)).len() < 0x1_0000_0000,
        0 <= i < entries.len(),
        surfaces(entries)[i].len() < 0x1_0000,
        same_before(entries, i) < 0xFFFF,
    ensures
        exists|trie: Trie|
            kkc_answers(
                trie,
                bytes,
                concat(kkc_rows(entries)).len(),
                string_pool(surfaces(entries)).len(),
                same_before(entries, i),
                entries[i],
            ),
{
    let noted = kkc_places(entries);
    let table = concat(kkc_rows(entries));
    let pool = string_pool(surfaces(entries));
    let header = kkc_header(entries.to_set().len() as int, params);
    let section = choose|section: Seq<u8>|
        {
            &&& #[trigger] is_marisa_section(noted, section)
            &&& bytes == header + section + sized(table) + sized(pool)
        };
    let m = same_before(entries, i);
    let g = law_entry_listed(entries, i);
    lemma_rank_not_negative(readings(entries).take(i), readings(entries)[i]);
    law_string_in_pool(surfaces(entries), i);
    law_section_lookup(noted, section, g);
    let trie = choose|trie: Trie| section_answers(trie, section, noted[g].0, noted[g].1);
    assert(header.len() == 16) by {
        reveal(kkc_header);
    }
    lemma_kkc_parts(trie, header, section, table, pool, noted[g].1, m, entries, i);
}

/// Nothing occurs less than zero times.
proof fn lemma_rank_not_negative(keys: Seq<Seq<u8>>, key: Seq<u8>)
    ensures
        count_key(keys, key) >= 0,
    decreases keys.len(),
{
    if keys.len() > 0 {
        lemma_rank_not_negative(keys.drop_last(), key);
    }
}

/// What a section says, read from bytes that hold it after a header.
proof fn lemma_section_within(
    trie: Trie,
    bytes: Seq<u8>,
    section: Seq<u8>,
    key: Seq<u8>,
    value: u32,
)
    requires
        16 + section.len() <= bytes.len(),
        bytes.subrange(16, 16int + section.len()) == section,
        section_answers(trie, section, key, value),
    ensures
        trie_ids(trie).contains_key(key),
        bytes.subrange(20, 20int + trie_image(trie).len()) == trie_image(trie),
        u32_at(bytes, 24int + trie_image(trie).len() + 4 * trie_ids(trie)[key]) == value,
{
    reveal(section_answers);
    let image = trie_image(trie);
    let id = trie_ids(trie)[key];
    assert(bytes.subrange(20, 20int + image.len()) =~= section.subrange(4, 4int + image.len())) by {
        assert forall|k: int| 4 <= k < 4 + image.len() implies #[trigger] section[k]
            == bytes[16 + k] by {
            assert(bytes.subrange(16, 16int + section.len())[k] == bytes[16 + k]);
        }
    }
    lemma_u32_within(bytes, section, 16, 8int + image.len() + 4 * id);
}

/// Parts of a table and of a pool, read from bytes that end with both, each with its size before
/// it.
proof fn lemma_table_and_pool_within(
    front: Seq<u8>,
    table: Seq<u8>,
    pool: Seq<u8>,
    in_table: (int, int),
    in_pool: (int, int),
)
    requires
        0 <= in_table.0 <= in_table.1 <= table.len(),
        0 <= in_pool.0 <= in_pool.1 <= pool.len(),
    ensures
        ({
            let bytes = front + sized(table) + sized(pool);
            let pool_at = bytes.len() - pool.len();
            let table_at = pool_at - 4 - table.len();
            &&& table_at == front.len() + 4
            &&& bytes.subrange(table_at + in_table.0, table_at + in_table.1) == table.subrange(
                in_table.0,
                in_table.1,
            )
            &&& bytes.subrange(pool_at + in_pool.0, pool_at + in_pool.1) == pool.subrange(
                in_pool.0,
                in_pool.1,
            )
        }),
{
    reveal(sized);
    let bytes = front + sized(table) + sized(pool);
    let pool_at = bytes.len() - pool.len();
    let table_at = pool_at - 4 - table.len();
    assert(bytes.subrange(table_at + in_table.0, table_at + in_table.1) =~= table.subrange(
        in_table.0,
        in_table.1,
    ));
    assert(bytes.subrange(pool_at + in_pool.0, pool_at + in_pool.1) =~= pool.subrange(
        in_pool.0,
        in_pool.1,
    ));
}

/// Reads an entry back from the parts of a dictionary.
proof fn lemma_kkc_parts(
    trie: Trie,
    header: Seq<u8>,
    section: Seq<u8>,
    table: Seq<u8>,
    pool: Seq<u8>,
    place: u32,
    m: int,
    entries: Seq<EntryView>,
    i: int,
)
    requires
        header.len() == 16,
        0 <= i < entries.len(),
        section_answers(trie, section, readings(entries)[i], place),
        0 <= m,
        place + 16 + 14 * m <= table.len(),
        table.subrange(place + 2 + 14 * m, place + 16 + 14 * m) == entry_bytes(entries, i),
        pool.len() < 0x1_0000_0000,
        surfaces(entries)[i].len() < 0x1_0000,
        0 <= pool_place(surfaces(entries), i),
        pool_place(surfaces(entries), i) + surfaces(entries)[i].len() <= pool.len(),
        pool.subrange(
            pool_place(surfaces(entries), i),
            pool_place(surfaces(entries), i) + surfaces(entries)[i].len(),
        ) == surfaces(entries)[i],
    ensures
        kkc_answers(
            trie,
            header + section + sized(table) + sized(pool),
            table.len(),
            pool.len(),
            m,
            entries[i],
        ),
{
    let front = header + section;
    let bytes = front + sized(table) + sized(pool);
    let reading = readings(entries)[i];
    let a = pool_place(surfaces(entries), i);
    let b = a + surfaces(entries)[i].len();
    let from = place + 2 + 14 * m;
    assert(bytes.subrange(16, 16int + section.len()) =~= section);
    lemma_section_within(trie, bytes, section, reading, place);
    lemma_table_and_pool_within(front, table, pool, (from, from + 14), (a, b));
    let pool_at = bytes.len() - pool.len();
    let at = pool_at - 4 - table.len() + from;
    lemma_entry_reads_back(bytes, at, entries, i);
    assert(reading == encode_utf8(entries[i].reading));
    assert(surfaces(entries)[i] == encode_utf8(entries[i].surface));
    assert(kkc_answers(trie, bytes, table.len(), pool.len(), m, entries[i])) by {
        reveal(kkc_answers);
    }
}

/// Reads the parts of an entry back; of the length of the surface the 16 low bits.
proof fn lemma_entry_reads_back(bytes: Seq<u8>, at: int, entries: Seq<EntryView>, i: int)
    requires
        0 <= at,
        at + 14 <= bytes.len(),
        bytes.subrange(at, at + 14) == entry_bytes(entries, i),
        0 <= pool_place(surfaces(entries), i) < 0x1_0000_0000,
    ensures
        u32_at(bytes, at) == pool_place(surfaces(entries), i),
        u16_at(bytes, at + 4) == surfaces(entries)[i].len() as int % 0x1_0000,
        i16_at(bytes, at + 6) == entries[i].cost,
        i16_at(bytes, at + 8) == entries[i].left_id,
        i16_at(bytes, at + 10) == entries[i].right_id,
        u16_at(bytes, at + 12) == entries[i].pos_id,
{
    reveal(entry_bytes);
    let before = bytes.take(at);
    let after = bytes.skip(at + 14);
    let place = le32(pool_place(surfaces(entries), i));
    let len = le16(surfaces(entries)[i].len() as int);
    let cost = le16(entries[i].cost as int);
    let left = le16(entries[i].left_id as int);
    let right = le16(entries[i].right_id as int);
    let pos = le16(entries[i].pos_id as int);
    assert(bytes =~= before + entry_bytes(entries, i) + after);
    assert(bytes =~= before + place + (len + cost + left + right + pos + after));
    law_le32_reads_back(
        pool_place(surfaces(entries), i),
        before,
        len + cost + left + right + pos + after,
    );
    assert(bytes =~= (before + place) + len + (cost + left + right + pos + after));
    law_le16_reads_back(
        surfaces(entries)[i].len() as int,
        before + place,
        cost + left + right + pos + after,
    );
    assert(bytes =~= (before + place + len) + cost + (left + right + pos + after));
    law_le16_reads_back(entries[i].cost as int, before + place + len, left + right + pos + after);
    assert(bytes =~= (before + place + len + cost) + left + (right + pos + after));
    law_le16_reads_back(
        entries[i].left_id as int,
        before + place + len + cost,
        right + pos + after,
    );
    assert(bytes =~= (before + place + len + cost + left) + right + (pos + after));
    law_le16_reads_back(
        entries[i].right_id as int,
        before + place + len + cost + left,
        pos + after,
    );
    assert(bytes =~= (before + place + len + cost + left + right) + pos + after);
    law_le16_reads_back(
        entries[i].pos_id as int,
        before + place + len + cost + left + right,
        after,
    );
}

/// As many readings have the bytes of a reading as entries have the reading.
proof fn lemma_count_entries_of(
    entries: Seq<KkcEntry>,
    reading: Seq<char>,
    same: spec_fn(KkcEntry) -> bool,
)
    requires
        forall|entry: KkcEntry| #[trigger]
            same(entry) <==> entry.reading_hiragana@ == reading,
    ensures
        count_key(readings(kkc_views(entries)), encode_utf8(reading)) == entries.filter(same).len(),
    decreases entries.len(),
{
    reveal(Seq::filter);
    if entries.len() > 0 {
        let rest = entries.drop_last();
        lemma_count_entries_of(rest, reading, same);
        let keys = readings(kkc_views(entries));
        assert(keys.drop_last() =~= readings(kkc_views(rest)));
        let other = entries.last().reading_hiragana@;
        assert(keys.last() == encode_utf8(other));
        assert(same(entries.last()) <==> other == reading);
        encode_utf8_decode_utf8(other);
        encode_utf8_decode_utf8(reading);
    }
}

/// The row of an entry's reading: how many entries it lists, and the entry.
proof fn lemma_row_of_entry(
    entries: Seq<EntryView>,
    section: Seq<u8>,
    trie: Trie,
    i: int,
) -> (place: u32)
    requires
        is_section_with(kkc_places(entries), section, trie),
        entries.len() <= usize::MAX,
        concat(kkc_rows(entries)).len() < 0x1_0000_0000,
        0 <= i < entries.len(),
    ensures
        ({
            let table = concat(kkc_rows(entries));
            let total = count_key(readings(entries), readings(entries)[i]);
            let m = same_before(entries, i);
            &&& section_answers(trie, section, readings(entries)[i], place)
            &&& place + 2 <= table.len()
            &&& u16_at(table, place as int) == if total < 0xFFFF {
                total
            } else {
                0xFFFF
            }
            &&& 0 <= m
            &&& m < 0xFFFF ==> place + 16 + 14 * m <= table.len() && table.subrange(
                place + 2 + 14 * m,
                place + 16 + 14 * m,
            ) == entry_bytes(entries, i)
        }),
{
    let keys = readings(entries);
    let groups = grouping_of(keys);
    law_grouping_exists(keys);
    assert(is_grouped(groups, i));
    let (g, m) = choose|g: int, m: int|
        0 <= g < groups.len() && 0 <= m < groups[g].len() && #[trigger] groups[g][m] == i;
    let group = groups[g];
    assert(is_group(keys, group));
    lemma_rank(keys, g, m);
    lemma_group_size(keys, g);
    assert(group_key(keys, group) == keys[i]);
    let rows = kkc_rows(entries);
    let table = concat(rows);
    law_row_found(rows, g);
    let row = rows[g];
    assert(row == kkc_row(entries, group));
    let start = row_start(rows, g);
    let none = Seq::<u8>::empty();
    let listing = listed(group).map_values(|x: usize| entry_bytes(entries, x as int));
    assert(row =~= none + le16(listed(group).len() as int) + concat(listing));
    law_le16_reads_back(listed(group).len() as int, none, concat(listing));
    assert(table.subrange(start, start + row.len())[0] == table[start]);
    assert(table.subrange(start, start + row.len())[1] == table[start + 1]);
    if m < 0xFFFF {
        lemma_within_row(entries, group, m);
        let at = start + 2 + 14 * m;
        assert(table.subrange(at, at + 14) =~= table.subrange(start, start + row.len()).subrange(
            2 + 14 * m,
            16 + 14 * m,
        ));
    }
    let places = kkc_places(entries);
    assert forall|h: int| g < h < places.len() implies (#[trigger] places[h]).0 != keys[i] by {
        lemma_lex_irreflexive(keys[i]);
        assert(lex_lt(group_key(keys, groups[g]), group_key(keys, groups[h])));
    }
    lemma_section_answers(places, section, trie, g);
    assert(places[g].1 == start);
    places[g].1
}

/// Whether a trie that starts at 16, with an entry table after its section and a pool at `pool_at`,
/// leads from the reading of an entry to a row that counts so many entries, but at most 65535, and
/// where entry `m`, unless it is past them, is the entry: the place of its surface in the pool and
/// the length of it, of which the 16 low bits are written, its cost, its left and right numbers,
/// and its part of speech.
#[verifier::opaque]
pub open spec fn lists_entry(
    trie: Trie,
    bytes: Seq<u8>,
    pool_at: int,
    total: int,
    m: int,
    entry: KkcEntry,
) -> bool {
    let key = encode_utf8(entry.reading_hiragana@);
    let surface = encode_utf8(entry.surface@);
    let values = 24int + trie_image(trie).len();
    let table_at = values + 4 * trie_ids(trie).dom().len() + 4;
    let row = table_at + u32_at(bytes, values + 4 * trie_ids(trie)[key]);
    let at = row + 2 + 14 * m;
    let from = pool_at + u32_at(bytes, at);
    &&& trie_ids(trie).contains_key(key)
    &&& table_at <= row
    &&& row + 2 <= pool_at - 4
    &&& u16_at(bytes, row as int) == if total < 0xFFFF {
        total
    } else {
        0xFFFF
    }
    &&& m < 0xFFFF ==> {
        &&& at + 14 <= pool_at - 4
        &&& from + surface.len() <= bytes.len()
        &&& bytes.subrange(from, from + surface.len()) == surface
        &&& u16_at(bytes, at + 4) == surface.len() as int % 0x1_0000
        &&& i16_at(bytes, at + 6) == entry.cost
        &&& i16_at(bytes, at + 8) == entry.left_id
        &&& i16_at(bytes, at + 10) == entry.right_id
        &&& u16_at(bytes, at + 12) == entry.pos_id
    }
}

/// The parts of a dictionary give the row of an entry.
proof fn lemma_lists_entry(
    trie: Trie,
    header: Seq<u8>,
    section: Seq<u8>,
    table: Seq<u8>,
    pool: Seq<u8>,
    place: u32,
    total: int,
    m: int,
    entries: Seq<EntryView>,
    i: int,
    entry: KkcEntry,
)
    requires
        header.len() == 16,
        0 <= i < entries.len(),
        entries[i] == entry@,
        section_spans(trie, section, 0, section.len() as int),
        section_answers(trie, section, readings(entries)[i], place),
        0 <= m,
        place + 2 <= table.len(),
        u16_at(table, place as int) == if total < 0xFFFF {
            total
        } else {
            0xFFFF
        },
        m < 0xFFFF ==> place + 16 + 14 * m <= table.len() && table.subrange(
            place + 2 + 14 * m,
            place + 16 + 14 * m,
        ) == entry_bytes(entries, i),
        pool.len() < 0x1_0000_0000,
        0 <= pool_place(surfaces(entries), i),
        pool_place(surfaces(entries), i) + surfaces(entries)[i].len() <= pool.len(),
        pool.subrange(
            pool_place(surfaces(entries), i),
            pool_place(surfaces(entries), i) + surfaces(entries)[i].len(),
        ) == surfaces(entries)[i],
    ensures
        ({
            let bytes = header + section + sized(table) + sized(pool);
            lists_entry(trie, bytes, bytes.len() - pool.len(), total, m, entry)
        }),
{
    let front = header + section;
    let bytes = front + sized(table) + sized(pool);
    let reading = readings(entries)[i];
    let a = pool_place(surfaces(entries), i);
    let b = a + surfaces(entries)[i].len();
    let pool_at = bytes.len() - pool.len();
    let table_at = pool_at - 4 - table.len();
    assert(bytes.subrange(16, 16int + section.len()) =~= section);
    lemma_section_within(trie, bytes, section, reading, place);
    lemma_table_and_pool_within(front, table, pool, (place as int, place + 2), (a, b));
    assert(u16_at(bytes, table_at + place) == u16_at(table, place as int)) by {
        let part = bytes.subrange(table_at + place, table_at + place + 2);
        assert(part[0] == bytes[table_at + place] && part[1] == bytes[table_at + place + 1]);
        let own = table.subrange(place as int, place + 2);
        assert(own[0] == table[place as int] && own[1] == table[place + 1]);
    }
    assert(reading == encode_utf8(entry.reading_hiragana@));
    assert(surfaces(entries)[i] == encode_utf8(entry.surface@));
    if m < 0xFFFF {
        let from = place + 2 + 14 * m;
        lemma_table_and_pool_within(front, table, pool, (from, from + 14), (a, b));
        lemma_entry_reads_back(bytes, table_at + from, entries, i);
    }
    assert(table_at == 24 + trie_image(trie).len() + 4 * trie_ids(trie).dom().len() + 4) by {
        reveal(section_spans);
    }
    assert(lists_entry(trie, bytes, pool_at, total, m, entry)) by {
        reveal(lists_entry);
    }
}

/// Whether a trie that starts at 16, and what follows its section, answer for entries: the trie has
/// their readings and no other keys, and each entry is listed in the row of its reading, after the
/// entries before it that have the reading.
#[verifier::opaque]
pub open spec fn answers_for_entries(
    trie: Trie,
    entries: Seq<KkcEntry>,
    bytes: Seq<u8>,
    pool_at: int,
) -> bool {
    &&& forall|k: int|
        0 <= k < entries.len() ==> {
            let same = |entry: KkcEntry|
                entry.reading_hiragana@ == entries[k].reading_hiragana@;
            lists_entry(
                trie,
                bytes,
                pool_at,
                entries.filter(same).len() as int,
                entries.take(k).filter(same).len() as int,
                #[trigger] entries[k],
            )
        }
    &&& forall|key: Seq<u8>| #[trigger]
        trie_ids(trie).contains_key(key) <==> exists|k: int|
            0 <= k < entries.len() && encode_utf8((#[trigger] entries[k]).reading_hiragana@) == key
}

/// A dictionary answers for the entries that it was built from: after its header it holds a trie of
/// their readings, an entry table and a string pool, each of the two with its size before it. The
/// row of a reading in the entry table counts the entries with the reading, up to 65535, and lists
/// them in their order.
pub proof fn law_kkc_of_entries(entries: Seq<KkcEntry>, params: KkcParams, bytes: Seq<u8>)
    requires
        entries.len() <= usize::MAX,
        is_kkc_dict(kkc_views(entries), params, bytes),
        bytes.len() < 0x1_0000_0000,
    ensures
        exists|trie: Trie, end: int|
            {
                let table_size = u32_at(bytes, end);
                let pool_at = end + 4 + table_size + 4;
                &&& #[trigger] section_spans(trie, bytes, 16, end)
                &&& pool_at <= bytes.len()
                &&& u32_at(bytes, end + 4 + table_size) == bytes.len() - pool_at
                &&& answers_for_entries(trie, entries, bytes, pool_at)
            },
{
    let views = kkc_views(entries);
    let table = concat(kkc_rows(views));
    let pool = string_pool(surfaces(views));
    let header = kkc_header(views.to_set().len() as int, params);
    let section = choose|section: Seq<u8>|
        {
            &&& #[trigger] is_marisa_section(kkc_places(views), section)
            &&& bytes == header + section + sized(table) + sized(pool)
        };
    assert(header.len() == 16) by {
        reveal(kkc_header);
    }
    law_size_before(table);
    law_size_before(pool);
    lemma_dict_layout(header, section, table, pool);
    reveal(is_marisa_section);
    let trie = choose|trie: Trie| is_section_with(kkc_places(views), section, trie);
    lemma_section_spans(kkc_places(views), section, trie);
    lemma_spans_within(trie, bytes, section, 16);
    lemma_answers_for_entries(entries, header, section, table, pool, trie);
    assert(section_spans(trie, bytes, 16, 16int + section.len()));
}

/// The parts of a dictionary in their order.
proof fn lemma_dict_layout(header: Seq<u8>, section: Seq<u8>, table: Seq<u8>, pool: Seq<u8>)
    requires
        header.len() == 16,
        table.len() < 0x1_0000_0000,
        pool.len() < 0x1_0000_0000,
    ensures
        ({
            let bytes = header + section + sized(table) + sized(pool);
            let end = 16 + section.len() as int;
            let pool_at = end + 4 + table.len() + 4;
            &&& bytes.len() == pool_at + pool.len()
            &&& bytes.subrange(16, end) == section
            &&& u32_at(bytes, end) == table.len()
            &&& u32_at(bytes, pool_at - 4) == pool.len()
        }),
{
    law_size_before(table);
    law_size_before(pool);
    let bytes = header + section + sized(table) + sized(pool);
    let end = 16 + section.len() as int;
    let pool_at = end + 4 + table.len() + 4;
    assert(bytes.subrange(16, end) =~= section);
    assert(bytes.subrange(end, end + sized(table).len()) =~= sized(table));
    lemma_u32_within(bytes, sized(table), end, 0);
    assert(bytes.subrange(pool_at - 4, pool_at - 4 + sized(pool).len()) =~= sized(pool));
    lemma_u32_within(bytes, sized(pool), pool_at - 4, 0);
}

/// The parts of a dictionary answer for one entry.
proof fn lemma_answers_for_entry(
    entries: Seq<KkcEntry>,
    header: Seq<u8>,
    section: Seq<u8>,
    table: Seq<u8>,
    pool: Seq<u8>,
    trie: Trie,
    k: int,
)
    requires
        entries.len() <= usize::MAX,
        0 <= k < entries.len(),
        header.len() == 16,
        table == concat(kkc_rows(kkc_views(entries))),
        pool == string_pool(surfaces(kkc_views(entries))),
        table.len() < 0x1_0000_0000,
        pool.len() < 0x1_0000_0000,
        is_section_with(kkc_places(kkc_views(entries)), section, trie),
    ensures
        ({
            let same = |entry: KkcEntry|
                entry.reading_hiragana@ == entries[k].reading_hiragana@;
            let bytes = header + section + sized(table) + sized(pool);
            lists_entry(
                trie,
                bytes,
                bytes.len() - pool.len(),
                entries.filter(same).len() as int,
                entries.take(k).filter(same).len() as int,
                entries[k],
            )
        }),
{
    let views = kkc_views(entries);
    let reading = entries[k].reading_hiragana@;
    let same = |entry: KkcEntry| entry.reading_hiragana@ == entries[k].reading_hiragana@;
    lemma_count_entries_of(entries, reading, same);
    lemma_count_entries_of(entries.take(k), reading, same);
    assert(readings(kkc_views(entries.take(k))) =~= readings(views).take(k));
    assert(views[k] == entries[k]@);
    let place = lemma_row_of_entry(views, section, trie, k);
    law_string_in_pool(surfaces(views), k);
    lemma_section_spans(kkc_places(views), section, trie);
    lemma_lists_entry(
        trie,
        header,
        section,
        table,
        pool,
        place,
        entries.filter(same).len() as int,
        entries.take(k).filter(same).len() as int,
        views,
        k,
        entries[k],
    );
}

/// The parts of a dictionary answer for all entries.
proof fn lemma_answers_for_entries(
    entries: Seq<KkcEntry>,
    header: Seq<u8>,
    section: Seq<u8>,
    table: Seq<u8>,
    pool: Seq<u8>,
    trie: Trie,
)
    requires
        entries.len() <= usize::MAX,
        header.len() == 16,
        table == concat(kkc_rows(kkc_views(entries))),
        pool == string_pool(surfaces(kkc_views(entries))),
        table.len() < 0x1_0000_0000,
        pool.len() < 0x1_0000_0000,
        is_section_with(kkc_places(kkc_views(entries)), section, trie),
    ensures
        ({
            let bytes = header + section + sized(table) + sized(pool);
            answers_for_entries(trie, entries, bytes, bytes.len() - pool.len())
        }),
{
    let bytes = header + section + sized(table) + sized(pool);
    let pool_at = bytes.len() - pool.len();
    assert forall|k: int| 0 <= k < entries.len() implies {
        let same = |entry: KkcEntry| entry.reading_hiragana@ == entries[k].reading_hiragana@;
        lists_entry(
            trie,
            bytes,
            pool_at,
            entries.filter(same).len() as int,
            entries.take(k).filter(same).len() as int,
            #[trigger] entries[k],
        )
    } by {
        lemma_answers_for_entry(entries, header, section, table, pool, trie, k);
    }
    assert forall|key: Seq<u8>| #[trigger]
        trie_ids(trie).contains_key(key) <==> exists|k: int|
            0 <= k < entries.len() && encode_utf8((#[trigger] entries[k]).reading_hiragana@)
                == key by {
        lemma_keys_are_readings(entries, section, trie, key);
    }
    reveal(answers_for_entries);
}

/// The trie has the readings of the entries, and no other keys.
proof fn lemma_keys_are_readings(
    entries: Seq<KkcEntry>,
    section: Seq<u8>,
    trie: Trie,
    key: Seq<u8>,
)
    requires
        entries.len() <= usize::MAX,
        is_section_with(kkc_places(kkc_views(entries)), section, trie),
    ensures
        trie_ids(trie).contains_key(key) <==> exists|k: int|
            0 <= k < entries.len() && encode_utf8((#[trigger] entries[k]).reading_hiragana@) == key,
{
    let views = kkc_views(entries);
    let keys = readings(views);
    let places = kkc_places(views);
    lemma_section_keys(places, section, trie, key);
    law_places_of_keys(keys, kkc_rows(views));
    if entry_keys(places).contains(key) {
        let g = choose|g: int| 0 <= g < entry_keys(places).len() && entry_keys(places)[g] == key;
        assert(places[g].0 == key);
        assert(keys.contains(places[g].0));
        let k = choose|k: int| 0 <= k < keys.len() && keys[k] == key;
        assert(encode_utf8(entries[k].reading_hiragana@) == key);
    }
    if exists|k: int|
        0 <= k < entries.len() && encode_utf8((#[trigger] entries[k]).reading_hiragana@) == key {
        let k = choose|k: int|
            0 <= k < entries.len() && encode_utf8((#[trigger] entries[k]).reading_hiragana@)
                == key;
        assert(keys[k] == key);
        assert(keys.contains(key));
        let g = choose|g: int| 0 <= g < places.len() && (#[trigger] places[g]).0 == key;
        assert(entry_keys(places)[g] == key);
    }
}

/// A string is added to the pool exactly where it was not in it yet.
pub proof fn law_pool_step(strings: Seq<Seq<u8>>, s: Seq<u8>)
    ensures
        string_pool(Seq::empty()) == Seq::<u8>::empty(),
        string_pool(strings.push(s)) == if exists|i: int|
            0 <= i < strings.len() && #[trigger] strings[i] == s {
            string_pool(strings)
        } else {
            string_pool(strings) + s
        },
{
    assert(strings.push(s).drop_last() =~= strings);
    if exists|i: int| 0 <= i < strings.len() && #[trigger] strings[i] == s {
        assert(strings.contains(s));
    }
}

/// The content of an entry is that of each of its parts, and that of entries is that of each of
/// them.
pub proof fn law_entry_contents(entries: Seq<KkcEntry>, i: int)
    requires
        0 <= i < entries.len(),
    ensures
        kkc_views(entries).len() == entries.len(),
        kkc_views(entries)[i].reading == entries[i].reading_hiragana@,
        kkc_views(entries)[i].surface == entries[i].surface@,
        kkc_views(entries)[i].cost == entries[i].cost,
        kkc_views(entries)[i].left_id == entries[i].left_id,
        kkc_views(entries)[i].right_id == entries[i].right_id,
        kkc_views(entries)[i].pos_id == entries[i].pos_id,
{
}

/// The readings of entries can be held where the entries are not too many, no reading is empty, and
/// the readings have not too many beginnings.
pub proof fn law_kkc_fits(entries: Seq<EntryView>)
    requires
        entries.len() < 0x1_0000_0000,
        entries.len() <= usize::MAX,
        forall|i: int| 0 <= i < entries.len() ==> (#[trigger] entries[i]).reading.len() > 0,
        prefixes(readings(entries)).len() <= 2147483645,
    ensures
        kkc_fits(entries),
{
    assert forall|i: int| 0 <= i < readings(entries).len() implies (
    #[trigger] readings(entries)[i]).len() > 0 by {
        let reading = entries[i].reading;
        assert(reading.len() > 0);
        if encode_utf8(reading).len() == 0 {
            encode_utf8_decode_utf8(reading);
            encode_utf8_decode_utf8(Seq::<char>::empty());
            assert(encode_utf8(reading) =~= encode_utf8(Seq::<char>::empty()));
        }
    }
    law_distinct_keys_fit(readings(entries));
}

/// A dictionary has nothing but its parts: the header of 16 bytes, a trie section that gives each
/// reading the place of its row, the rows with their size before them, and the pool of the
/// surfaces with its size before it.
pub proof fn law_kkc_layout(entries: Seq<EntryView>, params: KkcParams, bytes: Seq<u8>)
    requires
        is_kkc_dict(entries, params, bytes),
        bytes.len() < 0x1_0000_0000,
    ensures
        exists|section: Seq<u8>|
            {
                let table = concat(kkc_rows(entries));
                let pool = string_pool(surfaces(entries));
                let end = 16 + section.len() as int;
                let pool_at = end + 4 + table.len() + 4;
                &&& #[trigger] is_marisa_section(kkc_places(entries), section)
                &&& bytes.len() == pool_at + pool.len()
                &&& bytes.subrange(16, end) == section
                &&& u32_at(bytes, end) == table.len()
                &&& bytes.subrange(end + 4, pool_at - 4) == table
                &&& u32_at(bytes, pool_at - 4) == pool.len()
                &&& bytes.skip(pool_at) == pool
            },
{
    let table = concat(kkc_rows(entries));
    let pool = string_pool(surfaces(entries));
    let header = kkc_header(entries.to_set().len() as int, params);
    let section = choose|section: Seq<u8>|
        {
            &&& #[trigger] is_marisa_section(kkc_places(entries), section)
            &&& bytes == header + section + sized(table) + sized(pool)
        };
    assert(header.len() == 16) by {
        reveal(kkc_header);
    }
    law_size_before(table);
    law_size_before(pool);
    lemma_dict_layout(header, section, table, pool);
    lemma_table_and_pool_within(
        header + section,
        table,
        pool,
        (0, table.len() as int),
        (0, pool.len() as int),
    );
    let end = 16 + section.len() as int;
    let pool_at = end + 4 + table.len() + 4;
    assert(table.subrange(0, table.len() as int) =~= table);
    assert(pool.subrange(0, pool.len() as int) =~= pool);
    assert(bytes.skip(pool_at) =~= bytes.subrange(pool_at, bytes.len() as int));
    assert(is_marisa_section(kkc_places(entries), section));
}

/// A row has nothing but its count, in two bytes, and its entries, up to 65535 of them, in 14 bytes
/// each. There is one row for each reading.
pub proof fn law_kkc_row_size(entries: Seq<EntryView>, g: int)
    requires
        entries.len() <= usize::MAX,
        0 <= g < kkc_rows(entries).len(),
    ensures
        ({
            let total = count_key(readings(entries), kkc_places(entries)[g].0);
            &&& kkc_rows(entries).len() == kkc_places(entries).len()
            &&& kkc_rows(entries)[g].len() == 2 + 14 * if total < 0xFFFF {
                total
            } else {
                0xFFFF
            }
        }),
{
    let keys = readings(entries);
    let group = grouping_of(keys)[g];
    lemma_group_size(keys, g);
    let listing = listed(group).map_values(|x: usize| entry_bytes(entries, x as int));
    assert forall|k: int| 0 <= k < listing.len() implies (#[trigger] listing[k]).len() == 14 by {
        lemma_entry_len(entries, listed(group)[k] as int);
    }
    lemma_entries_evenly_spaced(listing, listing.len() as int);
    assert(listing.take(listing.len() as int) =~= listing);
    assert(kkc_places(entries)[g].0 == group_key(keys, group));
}

/// What it means that a dictionary answers for entries: for an entry, the value that the trie's
/// number for the reading leads to is the place of a row in the entry table; the row starts with
/// the number of entries that have the reading, or 65535 if there are more, in two bytes, and goes
/// on with the entries, of 14 bytes each. The entry comes after the entries before it that have the
/// reading, and leads to its surface in the pool.
pub proof fn law_entry_reads(
    trie: Trie,
    entries: Seq<KkcEntry>,
    bytes: Seq<u8>,
    pool_at: int,
    k: int,
)
    requires
        answers_for_entries(trie, entries, bytes, pool_at),
        0 <= k < entries.len(),
    ensures
        ({
            let entry = entries[k];
            let same = |other: KkcEntry| other.reading_hiragana@ == entries[k].reading_hiragana@;
            let total = entries.filter(same).len();
            let m = entries.take(k).filter(same).len();
            let key = encode_utf8(entry.reading_hiragana@);
            let surface = encode_utf8(entry.surface@);
            let values = 24int + trie_image(trie).len();
            let table_at = values + 4 * trie_ids(trie).dom().len() + 4;
            let row = table_at + u32_at(bytes, values + 4 * trie_ids(trie)[key]);
            let at = row + 2 + 14 * m;
            let from = pool_at + u32_at(bytes, at);
            &&& trie_ids(trie).contains_key(key)
            &&& table_at <= row
            &&& row + 2 <= pool_at - 4
            &&& total < 65535 ==> u16_at(bytes, row) == total
            &&& total >= 65535 ==> u16_at(bytes, row) == 65535
            &&& m < 65535 ==> {
                &&& at + 14 <= pool_at - 4
                &&& from + surface.len() <= bytes.len()
                &&& bytes.subrange(from, from + surface.len()) == surface
                &&& u16_at(bytes, at + 4) == surface.len() as int % 65536
                &&& i16_at(bytes, at + 6) == entry.cost
                &&& i16_at(bytes, at + 8) == entry.left_id
                &&& i16_at(bytes, at + 10) == entry.right_id
                &&& u16_at(bytes, at + 12) == entry.pos_id
            }
        }),
{
    reveal(answers_for_entries);
    reveal(lists_entry);
    let entry = entries[k];
}

/// The trie of a dictionary has no other keys than the readings of its entries.
pub proof fn law_key_reads(
    trie: Trie,
    entries: Seq<KkcEntry>,
    bytes: Seq<u8>,
    pool_at: int,
    key: Seq<u8>,
) -> (k: int)
    requires
        answers_for_entries(trie, entries, bytes, pool_at),
        trie_ids(trie).contains_key(key),
    ensures
        0 <= k < entries.len(),
        encode_utf8(entries[k].reading_hiragana@) == key,
{
    reveal(answers_for_entries);
    choose|k: int|
        0 <= k < entries.len() && encode_utf8((#[trigger] entries[k]).reading_hiragana@) == key
}

} // verus!
