//! Rows of bytes, one after the other, found by the place at which each starts.

use crate::bytes::{law_le32_reads_back, le32, low_u32, push_bytes, u32_at};
use crate::marisa::{check_keys, entry_keys, entry_views, keys_fit, law_keys_fit};
use crate::order::{
    byte_views, distinct_keys, group_by_key, group_key, group_views, grouping_of, is_group,
    is_grouped, is_grouping, law_grouping_exists, law_grouping_unique, lemma_lex_irreflexive,
    lex_lt,
};
use crate::prefix::{lemma_distinct_prefixes, prefixes};
use vstd::prelude::*;
use vstd::seq_lib::seq_to_set_is_finite;
use vstd::set_lib::lemma_len_subset;
use vstd::slice::slice_to_vec;

verus! {

/// All rows, one after the other.
pub open spec fn concat(rows: Seq<Seq<u8>>) -> Seq<u8>
    decreases rows.len(),
{
    if rows.len() == 0 {
        Seq::empty()
    } else {
        concat(rows.drop_last()) + rows.last()
    }
}

/// The place at which a row starts.
pub open spec fn row_start(rows: Seq<Seq<u8>>, i: int) -> int {
    concat(rows.take(i)).len() as int
}

/// The places at which the rows start, of each the 32 low bits.
pub open spec fn row_starts(rows: Seq<Seq<u8>>) -> Seq<u32> {
    Seq::new(rows.len(), |i: int| (row_start(rows, i) % 0x1_0000_0000) as u32)
}

/// Puts rows one after the other, and notes where each starts.
pub fn lay_out(rows: &Vec<Vec<u8>>) -> (r: (Vec<u8>, Vec<u32>))
    ensures
        r.0@ == concat(byte_views(rows@)),
        r.1@ == row_starts(byte_views(rows@)),
{
    let ghost views = byte_views(rows@);
    let mut data: Vec<u8> = Vec::new();
    let mut starts: Vec<u32> = Vec::new();
    let mut i: usize = 0;
    while i < rows.len()
        invariant
            views == byte_views(rows@),
            i <= rows.len(),
            data@ == concat(views.take(i as int)),
            starts@ == row_starts(views).take(i as int),
        decreases rows.len() - i,
    {
        starts.push(low_u32(data.len()));
        push_bytes(&mut data, rows[i].as_slice());
        assert(views.take(i + 1).drop_last() == views.take(i as int));
        i = i + 1;
    }
    assert(views.take(i as int) == views);
    assert(row_starts(views).take(i as int) == row_starts(views));
    (data, starts)
}

/// A table with its size before it.
#[verifier::opaque]
pub open spec fn sized(table: Seq<u8>) -> Seq<u8> {
    le32(table.len() as int) + table
}

/// Where a table stands in bytes that hold it with its size before it, between others.
pub proof fn lemma_sized_within(before: Seq<u8>, table: Seq<u8>, after: Seq<u8>)
    ensures
        ({
            let bytes = before + sized(table) + after;
            let at = bytes.len() - after.len() - table.len();
            &&& at == before.len() + 4
            &&& bytes.subrange(at, at + table.len()) == table
        }),
{
    reveal(sized);
    let bytes = before + sized(table) + after;
    let at = bytes.len() - after.len() - table.len();
    assert(bytes.subrange(at, at + table.len()) =~= table);
}

/// Each of the different keys, in ascending order, with the place at which its row starts.
pub open spec fn places(keys: Seq<Seq<u8>>, rows: Seq<Seq<u8>>) -> Seq<(Seq<u8>, u32)> {
    Seq::new(
        distinct_keys(keys).len(),
        |g: int| (distinct_keys(keys)[g], row_starts(rows)[g]),
    )
}

/// The keys of the places are the different keys.
pub proof fn lemma_place_keys(keys: Seq<Seq<u8>>, rows: Seq<Seq<u8>>)
    ensures
        entry_keys(places(keys, rows)) == distinct_keys(keys),
{
    assert(entry_keys(places(keys, rows)) =~= distinct_keys(keys));
}

/// Puts the rows of groups of items one after the other, and notes the place of each key.
pub fn place_rows(keys: &Vec<Vec<u8>>, groups: &Vec<Vec<usize>>, rows: &Vec<Vec<u8>>) -> (r: (
    Vec<u8>,
    Vec<(Vec<u8>, u32)>,
))
    requires
        is_grouping(byte_views(keys@), group_views(groups@)),
        rows@.len() == groups@.len(),
    ensures
        r.0@ == concat(byte_views(rows@)),
        entry_views(r.1@) == places(byte_views(keys@), byte_views(rows@)),
{
    let ghost views = byte_views(keys@);
    let ghost all = group_views(groups@);
    let ghost wanted = places(views, byte_views(rows@));
    proof {
        law_grouping_unique(views, all, grouping_of(views));
    }
    let (table, starts) = lay_out(rows);
    let mut noted: Vec<(Vec<u8>, u32)> = Vec::new();
    let mut g: usize = 0;
    while g < groups.len()
        invariant
            g <= groups.len(),
            starts@.len() == groups@.len(),
            views == byte_views(keys@),
            all == group_views(groups@),
            all == grouping_of(views),
            is_grouping(views, all),
            starts@ == row_starts(byte_views(rows@)),
            wanted == places(views, byte_views(rows@)),
            entry_views(noted@) == wanted.take(g as int),
        decreases groups.len() - g,
    {
        assert(is_group(views, all[g as int]));
        assert(all[g as int] == groups@[g as int]@);
        let ghost before = noted@;
        let first: usize = groups[g][0];
        let key: Vec<u8> = slice_to_vec(keys[first].as_slice());
        noted.push((key, starts[g]));
        assert(distinct_keys(views)[g as int] == group_key(views, all[g as int]));
        assert(entry_views(noted@) =~= entry_views(before).push((key@, starts@[g as int])));
        assert(wanted.take(g + 1) =~= wanted.take(g as int).push((key@, starts@[g as int])));
        g = g + 1;
    }
    assert(wanted.take(g as int) =~= wanted);
    (table, noted)
}

/// Whether a trie can be relied upon to hold the different ones among keys.
pub fn check_distinct(keys: &Vec<Vec<u8>>) -> (fits: bool)
    ensures
        fits == keys_fit(distinct_keys(byte_views(keys@))),
{
    let ghost views = byte_views(keys@);
    let groups: Vec<Vec<usize>> = group_by_key(keys);
    let ghost all = group_views(groups@);
    let mut entries: Vec<(Vec<u8>, u32)> = Vec::new();
    let mut g: usize = 0;
    while g < groups.len()
        invariant
            g <= groups.len(),
            views == byte_views(keys@),
            all == group_views(groups@),
            all == grouping_of(views),
            is_grouping(views, all),
            entries@.len() == g,
            forall|h: int| 0 <= h < g ==> (#[trigger] entries@[h]).0@ == distinct_keys(views)[h],
        decreases groups.len() - g,
    {
        assert(is_group(views, all[g as int]));
        assert(all[g as int] == groups@[g as int]@);
        let first: usize = groups[g][0];
        entries.push((slice_to_vec(keys[first].as_slice()), 0));
        g = g + 1;
    }
    assert(entry_keys(entry_views(entries@)) =~= distinct_keys(views));
    check_keys(&entries)
}

/// Each row is found at the place at which it starts.
pub proof fn law_row_found(rows: Seq<Seq<u8>>, i: int)
    requires
        0 <= i < rows.len(),
    ensures
        row_start(rows, i) + rows[i].len() <= concat(rows).len(),
        concat(rows).subrange(row_start(rows, i), row_start(rows, i) + rows[i].len())
            == rows[i],
        concat(rows).len() < 0x1_0000_0000 ==> row_starts(rows)[i] == row_start(rows, i),
    decreases rows.len(),
{
    let rest = rows.drop_last();
    let a = row_start(rows, i);
    let b = a + rows[i].len();
    if i < rows.len() - 1 {
        law_row_found(rest, i);
        assert(rest.take(i) =~= rows.take(i));
        assert(concat(rows).subrange(a, b) =~= concat(rest).subrange(a, b));
    } else {
        assert(rest =~= rows.take(i));
        assert(concat(rows).subrange(a, b) =~= rows[i]);
    }
}

/// A row of `rows` starts where the rows before it end.
pub proof fn lemma_row_start_step(rows: Seq<Seq<u8>>, i: int)
    requires
        0 <= i < rows.len(),
    ensures
        row_start(rows, i + 1) == row_start(rows, i) + rows[i].len(),
{
    assert(rows.take(i + 1).drop_last() =~= rows.take(i));
}

/// Rows that follow others come after them, without a gap, and a row alone is as it is.
pub proof fn law_rows_joined(a: Seq<Seq<u8>>, b: Seq<Seq<u8>>, row: Seq<u8>)
    ensures
        concat(a + b) == concat(a) + concat(b),
        concat(seq![row]) == row,
        concat(Seq::empty()) == Seq::<u8>::empty(),
    decreases b.len(),
{
    reveal_with_fuel(concat, 2);
    assert(seq![row].drop_last() =~= Seq::empty());
    assert(concat(seq![row]) =~= row);
    if b.len() == 0 {
        assert(a + b =~= a);
        assert(concat(a) + concat(b) =~= concat(a));
    } else {
        law_rows_joined(a, b.drop_last(), row);
        assert((a + b).drop_last() =~= a + b.drop_last());
        assert(concat(a + b) =~= concat(a) + concat(b));
    }
}

/// The first row starts at zero, and each other row where the row before it ends; of the places the
/// 32 low bits are noted.
pub proof fn law_row_places(rows: Seq<Seq<u8>>, i: int)
    requires
        0 <= i < rows.len(),
    ensures
        row_starts(rows).len() == rows.len(),
        row_start(rows, 0) == 0,
        row_start(rows, i + 1) == row_start(rows, i) + rows[i].len(),
        row_start(rows, rows.len() as int) == concat(rows).len(),
        row_starts(rows)[i] == row_start(rows, i) % 0x1_0000_0000,
{
    assert(rows.take(0) =~= Seq::empty());
    assert(rows.take(rows.len() as int) =~= rows);
    lemma_row_start_step(rows, i);
}

/// A table has its size before it, of which the 32 low bits are written.
pub proof fn law_size_before(table: Seq<u8>)
    ensures
        sized(table).len() == table.len() + 4,
        u32_at(sized(table), 0) == table.len() as int % 0x1_0000_0000,
        sized(table).skip(4) == table,
{
    reveal(sized);
    let none = Seq::<u8>::empty();
    law_le32_reads_back(table.len() as int, none, table);
    assert(sized(table) =~= none + le32(table.len() as int) + table);
    assert(sized(table).skip(4) =~= table);
}

/// Each of the different keys has one place: the keys ascend, each of them is a key of the items,
/// and each key of the items is among them.
pub proof fn law_places_of_keys(keys: Seq<Seq<u8>>, rows: Seq<Seq<u8>>)
    requires
        keys.len() <= usize::MAX,
    ensures
        forall|g: int, h: int|
            0 <= g < h < places(keys, rows).len() ==> lex_lt(
                (#[trigger] places(keys, rows)[g]).0,
                (#[trigger] places(keys, rows)[h]).0,
            ),
        forall|g: int|
            0 <= g < places(keys, rows).len() ==> keys.contains(
                (#[trigger] places(keys, rows)[g]).0,
            ) && places(keys, rows)[g].1 == row_starts(rows)[g],
        forall|key: Seq<u8>| #[trigger]
            keys.contains(key) ==> exists|g: int|
                0 <= g < places(keys, rows).len() && (#[trigger] places(keys, rows)[g]).0 == key,
{
    let groups = grouping_of(keys);
    let all = places(keys, rows);
    law_grouping_exists(keys);
    assert forall|g: int, h: int| 0 <= g < h < all.len() implies lex_lt(
        (#[trigger] all[g]).0,
        (#[trigger] all[h]).0,
    ) by {
        assert(lex_lt(group_key(keys, groups[g]), group_key(keys, groups[h])));
    }
    assert forall|g: int| 0 <= g < all.len() implies keys.contains((#[trigger] all[g]).0)
        && all[g].1 == row_starts(rows)[g] by {
        assert(is_group(keys, groups[g]));
        assert(keys[groups[g][0] as int] == all[g].0);
    }
    assert forall|key: Seq<u8>| #[trigger] keys.contains(key) implies exists|g: int|
        0 <= g < all.len() && (#[trigger] all[g]).0 == key by {
        let i = choose|i: int| 0 <= i < keys.len() && keys[i] == key;
        assert(is_grouped(groups, i));
        let (g, m) = choose|g: int, m: int|
            0 <= g < groups.len() && 0 <= m < groups[g].len() && #[trigger] groups[g][m] == i;
        assert(is_group(keys, groups[g]));
        assert(all[g].0 == keys[i]);
    }
}

/// The different ones among keys can be held where the keys are not too many, none of them is
/// empty, and they have not too many beginnings.
pub proof fn law_distinct_keys_fit(keys: Seq<Seq<u8>>)
    requires
        keys.len() < 0x1_0000_0000,
        keys.len() <= usize::MAX,
        forall|i: int| 0 <= i < keys.len() ==> (#[trigger] keys[i]).len() > 0,
        prefixes(keys).len() <= 2147483645,
    ensures
        keys_fit(distinct_keys(keys)),
{
    let groups = grouping_of(keys);
    let distinct = distinct_keys(keys);
    law_grouping_exists(keys);
    lemma_distinct_prefixes(keys, groups);
    assert(distinct =~= groups.map_values(|group: Seq<usize>| group_key(keys, group)));
    assert forall|g: int, h: int| 0 <= g < distinct.len() && 0 <= h < distinct.len() && g != h
        implies distinct[g] != distinct[h] by {
        lemma_lex_irreflexive(distinct[g]);
        if g < h {
            assert(lex_lt(group_key(keys, groups[g]), group_key(keys, groups[h])));
        } else {
            assert(lex_lt(group_key(keys, groups[h]), group_key(keys, groups[g])));
        }
    }
    distinct.unique_seq_to_set();
    keys.lemma_cardinality_of_set();
    assert forall|g: int| 0 <= g < distinct.len() implies keys.contains(#[trigger] distinct[g])
        && distinct[g].len() > 0 by {
        assert(is_group(keys, groups[g]));
        assert(keys[groups[g][0] as int] == distinct[g]);
    }
    assert(distinct.to_set().subset_of(keys.to_set()));
    seq_to_set_is_finite(keys);
    lemma_len_subset(distinct.to_set(), keys.to_set());
    law_keys_fit(distinct);
}

} // verus!
