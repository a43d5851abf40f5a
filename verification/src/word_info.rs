//! Word information records, and their variable-length form.
//!
//! A record holds the surface, the length of the head word, the part of speech, the normalized
//! form, the dictionary form, the reading, and three or four lists of numbers. In the
//! variable-length form the integers are written with as many bytes as they need, and the strings
//! and the length of the head word as they were. What is to be written is given as a list of
//! pieces.

use crate::bytes::{
    i32_at, law_le16_reads_back, law_le32_reads_back, law_le32s_read_back, le16, le32, le32s,
    lemma_le32_low_bits, lemma_le32s_len, push_bytes, push_len, push_u32, push_u32s, read_i32_le,
    read_u16_le, read_u32_le, u16_at, u32_at,
};
use crate::order::byte_views;
use crate::table::{concat, law_row_found, law_row_places, lay_out, row_start, row_starts};
use vstd::prelude::*;
use vstd::slice::{slice_subrange, slice_to_vec};

verus! {

/// What variable-length word information starts with: `MWVB`.
pub const VBYTE_WI_MAGIC: u32 = 0x4D57_5642;

/// How many bytes a length takes that starts with the byte `first`.
pub open spec fn length_size(first: u8) -> int {
    if first < 128 {
        1
    } else {
        2
    }
}

/// The length that `field` starts with: one byte, or two with the high byte first and its top bit
/// set.
pub open spec fn length_value(field: Seq<u8>) -> int {
    if field[0] < 128 {
        field[0] as int
    } else {
        (field[0] - 128) * 0x100 + field[1]
    }
}

/// Whether `field` is a length and nothing else.
pub open spec fn is_length(field: Seq<u8>) -> bool {
    field.len() > 0 && field.len() == length_size(field[0])
}

/// Whether `field` is a string: a length, and as many code units of two bytes.
pub open spec fn is_string(field: Seq<u8>) -> bool {
    &&& field.len() > 0
    &&& field.len() >= length_size(field[0])
    &&& field.len() == length_size(field[0]) + 2 * length_value(field)
}

/// The information on a word. Strings are kept as they are written.
pub struct WordInfo {
    pub surface: Vec<u8>,
    pub head_word_length: Vec<u8>,
    pub pos_id: u16,
    pub normalized_form: Vec<u8>,
    pub dictionary_form: i32,
    pub reading_form: Vec<u8>,
    pub lists: Vec<Vec<u32>>,
}

/// The information on a word, by content.
pub struct InfoView {
    pub surface: Seq<u8>,
    pub head_word_length: Seq<u8>,
    pub pos_id: u16,
    pub normalized_form: Seq<u8>,
    pub dictionary_form: i32,
    pub reading_form: Seq<u8>,
    pub lists: Seq<Seq<u32>>,
}

/// A list of lists, by content.
pub open spec fn list_views(lists: Seq<Vec<u32>>) -> Seq<Seq<u32>> {
    lists.map_values(|list: Vec<u32>| list@)
}

impl View for WordInfo {
    type V = InfoView;

    open spec fn view(&self) -> InfoView {
        InfoView {
            surface: self.surface@,
            head_word_length: self.head_word_length@,
            pos_id: self.pos_id,
            normalized_form: self.normalized_form@,
            dictionary_form: self.dictionary_form,
            reading_form: self.reading_form@,
            lists: list_views(self.lists@),
        }
    }
}

/// A list of numbers: how many, in one byte, and the numbers.
pub open spec fn list_bytes(list: Seq<u32>) -> Seq<u8> {
    seq![list.len() as u8] + le32s(list)
}

/// Lists of numbers, one after the other.
pub open spec fn lists_bytes(lists: Seq<Seq<u32>>) -> Seq<u8>
    decreases lists.len(),
{
    if lists.len() == 0 {
        Seq::empty()
    } else {
        list_bytes(lists[0]) + lists_bytes(lists.drop_first())
    }
}

/// How many lists a record has.
pub open spec fn list_count(has_synonym_group_ids: bool) -> nat {
    if has_synonym_group_ids {
        4
    } else {
        3
    }
}

/// Whether the parts of a record are what they should be.
pub open spec fn is_info(info: InfoView, has_synonym_group_ids: bool) -> bool {
    &&& is_string(info.surface)
    &&& is_length(info.head_word_length)
    &&& is_string(info.normalized_form)
    &&& is_string(info.reading_form)
    &&& info.lists.len() == list_count(has_synonym_group_ids)
    &&& forall|k: int| 0 <= k < info.lists.len() ==> (#[trigger] info.lists[k]).len() <= 255
}

/// The record of a word.
pub open spec fn record_bytes(info: InfoView) -> Seq<u8> {
    info.surface + (info.head_word_length + (le16(info.pos_id as int) + (info.normalized_form + (
    le32(info.dictionary_form as int) + (info.reading_form + lists_bytes(info.lists))))))
}

/// Whether `record` starts with the record of a word.
pub open spec fn is_record(record: Seq<u8>, has_synonym_group_ids: bool, info: InfoView) -> bool {
    &&& is_info(info, has_synonym_group_ids)
    &&& record_bytes(info).is_prefix_of(record)
}

/// A field and what follows it, where `s` starts with `size` bytes.
pub open spec fn split(s: Seq<u8>, size: int) -> Option<(Seq<u8>, Seq<u8>)> {
    if 0 <= size <= s.len() {
        Some((s.take(size), s.skip(size)))
    } else {
        None
    }
}

/// The length at the start of `s`, and what follows it.
spec fn take_length(s: Seq<u8>) -> Option<(Seq<u8>, Seq<u8>)> {
    if s.len() == 0 {
        None
    } else {
        split(s, length_size(s[0]))
    }
}

/// The string at the start of `s`, and what follows it.
spec fn take_string(s: Seq<u8>) -> Option<(Seq<u8>, Seq<u8>)> {
    if take_length(s) is None {
        None
    } else {
        split(s, length_size(s[0]) + 2 * length_value(s))
    }
}

/// The list at the start of `s`, and what follows it.
spec fn take_list(s: Seq<u8>) -> Option<(Seq<u32>, Seq<u8>)> {
    if s.len() == 0 || s.len() < 1 + 4 * s[0] {
        None
    } else {
        Some(
            (
                Seq::new(s[0] as nat, |i: int| u32_at(s, 1 + 4 * i) as u32),
                s.skip(1 + 4 * s[0]),
            ),
        )
    }
}

/// A length is taken exactly where one stands.
proof fn lemma_take_length(s: Seq<u8>, field: Seq<u8>, rest: Seq<u8>)
    ensures
        take_length(s) == Some((field, rest)) <==> is_length(field) && s == field + rest,
{
    if is_length(field) && s == field + rest {
        assert(s[0] == field[0]);
        assert(s.take(field.len() as int) =~= field);
        assert(s.skip(field.len() as int) =~= rest);
    }
    if take_length(s) == Some((field, rest)) {
        assert(s =~= field + rest);
    }
}

/// A string is taken exactly where one stands.
proof fn lemma_take_string(s: Seq<u8>, field: Seq<u8>, rest: Seq<u8>)
    ensures
        take_string(s) == Some((field, rest)) <==> is_string(field) && s == field + rest,
{
    if is_string(field) && s == field + rest {
        assert(s[0] == field[0]);
        if field.len() > 1 {
            assert(s[1] == field[1]);
        }
        assert(s.take(field.len() as int) =~= field);
        assert(s.skip(field.len() as int) =~= rest);
    }
    if take_string(s) == Some((field, rest)) {
        assert(s =~= field + rest);
        assert(s[0] == field[0]);
        if s[0] >= 128 {
            assert(s[1] == field[1]);
        }
    }
}

/// Reads the numbers of a table from the bytes it is written as.
proof fn lemma_table_of_bytes(table: Seq<u32>, s: Seq<u8>)
    requires
        s.len() == 4 * table.len(),
        forall|i: int| 0 <= i < table.len() ==> u32_at(s, 4 * i) == #[trigger] table[i],
    ensures
        le32s(table) == s,
    decreases table.len(),
{
    if table.len() == 0 {
        assert(le32s(table) =~= s);
    } else {
        let n = table.len() - 1;
        let rest = table.drop_last();
        let part = s.take(4 * n);
        assert forall|i: int| 0 <= i < rest.len() implies u32_at(part, 4 * i)
            == #[trigger] rest[i] by {
            assert(u32_at(s, 4 * i) == table[i]);
            assert(part[4 * i] == s[4 * i] && part[4 * i + 1] == s[4 * i + 1]);
            assert(part[4 * i + 2] == s[4 * i + 2] && part[4 * i + 3] == s[4 * i + 3]);
        }
        lemma_table_of_bytes(rest, part);
        assert(u32_at(s, 4 * n) == table[n]);
        lemma_le32_of_bytes(s[4 * n], s[4 * n + 1], s[4 * n + 2], s[4 * n + 3]);
        assert(le32(table[n] as int) =~= s.skip(4 * n));
        assert(le32s(table) =~= s);
    }
}

/// Writing an integer of four bytes gives the bytes back.
proof fn lemma_le32_of_bytes(a: u8, b: u8, c: u8, d: u8)
    ensures
        le32(a + 0x100 * b + 0x1_0000 * (c + 0x100 * d)) == seq![a, b, c, d],
{
    let low = a + 0x100 * b;
    let high = c + 0x100 * d;
    let n = low + 0x1_0000 * high;
    assert(n / 0x1_0000 == high);
    assert(n % 0x100 == a);
    assert(n / 0x100 == b + 0x100 * high);
    assert(le32(n) =~= seq![a, b, c, d]);
}

/// A list is taken exactly where one stands.
proof fn lemma_take_list(s: Seq<u8>, list: Seq<u32>, rest: Seq<u8>)
    ensures
        take_list(s) == Some((list, rest)) <==> list.len() <= 255 && s == list_bytes(list) + rest,
{
    lemma_le32s_len(list);
    if list.len() <= 255 && s == list_bytes(list) + rest {
        let head = seq![list.len() as u8];
        assert(s =~= head + le32s(list) + rest);
        assert(s[0] == list.len());
        let read = Seq::new(s[0] as nat, |i: int| u32_at(s, 1 + 4 * i) as u32);
        assert forall|i: int| 0 <= i < list.len() implies #[trigger] list[i] == read[i] by {
            law_le32s_read_back(list, head, rest, i);
        }
        assert(read =~= list);
        assert(s.skip(1 + 4 * s[0]) =~= rest);
    }
    if take_list(s) == Some((list, rest)) {
        let bytes = s.subrange(1, 1 + 4 * s[0]);
        assert forall|i: int| 0 <= i < list.len() implies u32_at(bytes, 4 * i)
            == #[trigger] list[i] by {
            assert(bytes[4 * i] == s[1 + 4 * i] && bytes[4 * i + 1] == s[2 + 4 * i]);
            assert(bytes[4 * i + 2] == s[3 + 4 * i] && bytes[4 * i + 3] == s[4 + 4 * i]);
            assert(0 <= u32_at(s, 1 + 4 * i) <= u32::MAX);
        }
        lemma_table_of_bytes(list, bytes);
        assert(s =~= list_bytes(list) + rest);
    }
}

/// So many lists at the start of `s`, and what follows them.
spec fn take_lists(s: Seq<u8>, n: nat) -> Option<(Seq<Seq<u32>>, Seq<u8>)>
    decreases n,
{
    if n == 0 {
        Some((Seq::empty(), s))
    } else {
        match take_list(s) {
            None => None,
            Some((list, more)) => match take_lists(more, (n - 1) as nat) {
                None => None,
                Some((lists, rest)) => Some((seq![list] + lists, rest)),
            },
        }
    }
}

/// Lists are taken exactly where they stand.
proof fn lemma_take_lists(s: Seq<u8>, n: nat, lists: Seq<Seq<u32>>, rest: Seq<u8>)
    ensures
        take_lists(s, n) == Some((lists, rest)) <==> {
            &&& lists.len() == n
            &&& forall|k: int| 0 <= k < lists.len() ==> (#[trigger] lists[k]).len() <= 255
            &&& s == lists_bytes(lists) + rest
        },
    decreases n,
{
    if n == 0 {
        assert(Seq::<u8>::empty() + rest =~= rest);
        if lists.len() == 0 {
            assert(lists =~= Seq::empty());
        }
    } else {
        if lists.len() == n {
            let others = lists.drop_first();
            let more = lists_bytes(others) + rest;
            lemma_take_list(s, lists[0], more);
            lemma_take_lists(more, (n - 1) as nat, others, rest);
            assert(list_bytes(lists[0]) + more =~= lists_bytes(lists) + rest);
            assert(lists =~= seq![lists[0]] + others);
            if forall|k: int| 0 <= k < lists.len() ==> (#[trigger] lists[k]).len() <= 255 {
                assert forall|k: int| 0 <= k < others.len() implies (#[trigger] others[k]).len()
                    <= 255 by {
                    assert(others[k] == lists[k + 1]);
                }
                assert(lists[0].len() <= 255);
            }
        }
        if take_lists(s, n) == Some((lists, rest)) {
            let (list, more) = take_list(s)->0;
            let (others, _) = take_lists(more, (n - 1) as nat)->0;
            lemma_take_list(s, list, more);
            lemma_take_lists(more, (n - 1) as nat, others, rest);
            assert(lists == seq![list] + others);
            assert(lists.drop_first() =~= others);
            assert(list_bytes(list) + more =~= lists_bytes(lists) + rest);
            assert forall|k: int| 0 <= k < lists.len() implies (#[trigger] lists[k]).len()
                <= 255 by {
                if k > 0 {
                    assert(lists[k] == others[k - 1]);
                }
            }
        }
    }
}

/// The unsigned 16-bit integer at the start of `s`, and what follows it.
spec fn take_u16(s: Seq<u8>) -> Option<(u16, Seq<u8>)> {
    if s.len() < 2 {
        None
    } else {
        Some((u16_at(s, 0) as u16, s.skip(2)))
    }
}

/// The signed 32-bit integer at the start of `s`, and what follows it.
spec fn take_i32(s: Seq<u8>) -> Option<(i32, Seq<u8>)> {
    if s.len() < 4 {
        None
    } else {
        Some((i32_at(s, 0) as i32, s.skip(4)))
    }
}

/// A 16-bit integer is taken exactly where it stands.
proof fn lemma_take_u16(s: Seq<u8>, value: u16, rest: Seq<u8>)
    ensures
        take_u16(s) == Some((value, rest)) <==> s == le16(value as int) + rest,
{
    let none = Seq::<u8>::empty();
    if s == le16(value as int) + rest {
        assert(s =~= none + le16(value as int) + rest);
        law_le16_reads_back(value as int, none, rest);
        assert(s.skip(2) =~= rest);
    }
    if take_u16(s) == Some((value, rest)) {
        assert(value == s[0] + 0x100 * s[1]);
        assert(value as int % 0x100 == s[0] && value as int / 0x100 == s[1]);
        assert(s =~= le16(value as int) + rest);
    }
}

/// The four bytes of a signed integer are those that it is written as.
proof fn lemma_i32_of_bytes(s: Seq<u8>, value: i32)
    requires
        s.len() >= 4,
        i32_at(s, 0) == value,
    ensures
        le32(value as int) == seq![s[0], s[1], s[2], s[3]],
{
    let n = u32_at(s, 0);
    assert(le32(n) == seq![s[0], s[1], s[2], s[3]]) by {
        lemma_le32_of_bytes(s[0], s[1], s[2], s[3]);
    }
    lemma_le32_low_bits(value as int);
    assert(0 <= n < 0x1_0000_0000);
    assert(value as int % 0x1_0000_0000 == n);
}

/// A signed integer of four bytes and what follows it.
proof fn lemma_four_and_rest(s: Seq<u8>, four: Seq<u8>, rest: Seq<u8>)
    requires
        four.len() == 4,
    ensures
        s == four + rest <==> s.len() >= 4 && four == seq![s[0], s[1], s[2], s[3]] && s.skip(4)
            == rest,
{
    if s == four + rest {
        assert(four =~= seq![s[0], s[1], s[2], s[3]]);
        assert(s.skip(4) =~= rest);
    }
    if s.len() >= 4 && four == seq![s[0], s[1], s[2], s[3]] && s.skip(4) == rest {
        assert(s =~= four + rest);
    }
}

/// A 32-bit integer is taken exactly where it stands.
proof fn lemma_take_i32(s: Seq<u8>, value: i32, rest: Seq<u8>)
    ensures
        take_i32(s) == Some((value, rest)) <==> s == le32(value as int) + rest,
{
    let four = le32(value as int);
    lemma_four_and_rest(s, four, rest);
    if s == four + rest {
        assert(i32_at(s, 0) == value) by {
            let none = Seq::<u8>::empty();
            assert(s =~= none + four + rest);
            law_le32_reads_back(value as int, none, rest);
        }
    }
    if take_i32(s) == Some((value, rest)) {
        assert(-0x8000_0000 <= i32_at(s, 0) < 0x8000_0000);
        lemma_i32_of_bytes(s, value);
    }
}

/// The parts of the record at the start of `s`.
spec fn take_record(s: Seq<u8>, has_synonym_group_ids: bool) -> Option<(InfoView, Seq<u8>)> {
    match take_string(s) {
        None => None,
        Some((surface, s1)) => match take_length(s1) {
            None => None,
            Some((head_word_length, s2)) => match take_u16(s2) {
                None => None,
                Some((pos_id, s3)) => match take_string(s3) {
                    None => None,
                    Some((normalized_form, s4)) => match take_i32(s4) {
                        None => None,
                        Some((dictionary_form, s5)) => match take_string(s5) {
                            None => None,
                            Some((reading_form, s6)) => match take_lists(
                                s6,
                                list_count(has_synonym_group_ids),
                            ) {
                                None => None,
                                Some((lists, rest)) => Some(
                                    (
                                        InfoView {
                                            surface,
                                            head_word_length,
                                            pos_id,
                                            normalized_form,
                                            dictionary_form,
                                            reading_form,
                                            lists,
                                        },
                                        rest,
                                    ),
                                ),
                            },
                        },
                    },
                },
            },
        },
    }
}

/// A record and what follows it, part by part.
proof fn lemma_record_parts(info: InfoView, rest: Seq<u8>)
    ensures
        record_bytes(info) + rest == info.surface + (info.head_word_length + (le16(
            info.pos_id as int,
        ) + (info.normalized_form + (le32(info.dictionary_form as int) + (info.reading_form + (
        lists_bytes(info.lists) + rest)))))),
{
    let t6 = lists_bytes(info.lists);
    let t5 = info.reading_form + t6;
    let t4 = le32(info.dictionary_form as int) + t5;
    let t3 = info.normalized_form + t4;
    let t2 = le16(info.pos_id as int) + t3;
    let t1 = info.head_word_length + t2;
    assert((info.surface + t1) + rest =~= info.surface + (t1 + rest));
    assert((info.head_word_length + t2) + rest =~= info.head_word_length + (t2 + rest));
    assert((le16(info.pos_id as int) + t3) + rest =~= le16(info.pos_id as int) + (t3 + rest));
    assert((info.normalized_form + t4) + rest =~= info.normalized_form + (t4 + rest));
    assert((le32(info.dictionary_form as int) + t5) + rest =~= le32(info.dictionary_form as int) + (
    t5 + rest));
    assert((info.reading_form + t6) + rest =~= info.reading_form + (t6 + rest));
}

/// A record is taken exactly where one stands.
proof fn lemma_take_record(s: Seq<u8>, has_synonym_group_ids: bool, info: InfoView, rest: Seq<u8>)
    ensures
        take_record(s, has_synonym_group_ids) == Some((info, rest)) <==> is_info(
            info,
            has_synonym_group_ids,
        ) && s == record_bytes(info) + rest,
{
    lemma_record_parts(info, rest);
    let s6 = lists_bytes(info.lists) + rest;
    let s5 = info.reading_form + s6;
    let s4 = le32(info.dictionary_form as int) + s5;
    let s3 = info.normalized_form + s4;
    let s2 = le16(info.pos_id as int) + s3;
    let s1 = info.head_word_length + s2;
    lemma_take_string(s, info.surface, s1);
    lemma_take_length(s1, info.head_word_length, s2);
    lemma_take_u16(s2, info.pos_id, s3);
    lemma_take_string(s3, info.normalized_form, s4);
    lemma_take_i32(s4, info.dictionary_form, s5);
    lemma_take_string(s5, info.reading_form, s6);
    lemma_take_lists(s6, list_count(has_synonym_group_ids), info.lists, rest);
    if take_record(s, has_synonym_group_ids) == Some((info, rest)) {
        let r1 = (take_string(s)->0).1;
        let r2 = (take_length(r1)->0).1;
        let r3 = (take_u16(r2)->0).1;
        let r4 = (take_string(r3)->0).1;
        let r5 = (take_i32(r4)->0).1;
        let r6 = (take_string(r5)->0).1;
        lemma_take_lists(r6, list_count(has_synonym_group_ids), info.lists, rest);
        lemma_take_string(r5, info.reading_form, r6);
        lemma_take_i32(r4, info.dictionary_form, r5);
        lemma_take_string(r3, info.normalized_form, r4);
        lemma_take_u16(r2, info.pos_id, r3);
        lemma_take_length(r1, info.head_word_length, r2);
        lemma_take_string(s, info.surface, r1);
    }
}

/// What the start of a record determines.
proof fn lemma_is_record(record: Seq<u8>, has_synonym_group_ids: bool, info: InfoView)
    ensures
        is_record(record, has_synonym_group_ids, info) <==> take_record(
            record,
            has_synonym_group_ids,
        ) is Some && (take_record(record, has_synonym_group_ids)->0).0 == info,
{
    if is_record(record, has_synonym_group_ids, info) {
        let rest = record.skip(record_bytes(info).len() as int);
        assert(record =~= record_bytes(info) + rest);
        lemma_take_record(record, has_synonym_group_ids, info, rest);
    }
    if take_record(record, has_synonym_group_ids) is Some && (take_record(
        record,
        has_synonym_group_ids,
    )->0).0 == info {
        let rest = (take_record(record, has_synonym_group_ids)->0).1;
        lemma_take_record(record, has_synonym_group_ids, info, rest);
        assert(record_bytes(info).is_prefix_of(record));
    }
}

/// Bytes start with at most one record.
pub proof fn law_record_unique(
    record: Seq<u8>,
    has_synonym_group_ids: bool,
    a: InfoView,
    b: InfoView,
)
    requires
        is_record(record, has_synonym_group_ids, a),
        is_record(record, has_synonym_group_ids, b),
    ensures
        a == b,
{
    lemma_is_record(record, has_synonym_group_ids, a);
    lemma_is_record(record, has_synonym_group_ids, b);
}

/// Reads a length. Returns it, counted in code units of two bytes, and how many bytes it takes.
pub fn read_string_length(buf: &[u8], pos: usize) -> (r: (usize, usize))
    requires
        pos < buf.len(),
        buf@[pos as int] >= 128 ==> pos + 1 < buf.len(),
    ensures
        r.0 == length_value(buf@.skip(pos as int)),
        r.1 == length_size(buf@[pos as int]),
{
    let first: usize = buf[pos] as usize;
    if first >= 128 {
        ((first - 128) * 0x100 + buf[pos + 1] as usize, 2)
    } else {
        (first, 1)
    }
}

/// The end of the length at `pos`.
fn length_end(record: &[u8], pos: usize) -> (end: Option<usize>)
    requires
        pos <= record.len(),
    ensures
        end matches Some(end) ==> pos <= end <= record.len() && take_length(
            record@.skip(pos as int),
        ) == Some((record@.subrange(pos as int, end as int), record@.skip(end as int))),
        end is None ==> take_length(record@.skip(pos as int)) is None,
{
    if pos >= record.len() {
        return None;
    }
    let size: usize = if record[pos] < 128 {
        1
    } else {
        2
    };
    if record.len() - pos < size {
        return None;
    }
    let end: usize = pos + size;
    assert(record@.skip(pos as int).take(size as int) =~= record@.subrange(pos as int, end as int));
    assert(record@.skip(pos as int).skip(size as int) =~= record@.skip(end as int));
    Some(end)
}

/// The end of the string at `pos`.
fn string_end(record: &[u8], pos: usize) -> (end: Option<usize>)
    requires
        pos <= record.len(),
    ensures
        end matches Some(end) ==> pos <= end <= record.len() && take_string(
            record@.skip(pos as int),
        ) == Some((record@.subrange(pos as int, end as int), record@.skip(end as int))),
        end is None ==> take_string(record@.skip(pos as int)) is None,
{
    match length_end(record, pos) {
        None => None,
        Some(_) => {
            let (units, size) = read_string_length(record, pos);
            let total: usize = size + units * 2;
            if record.len() - pos < total {
                return None;
            }
            let end: usize = pos + total;
            assert(record@.skip(pos as int).take(total as int) =~= record@.subrange(
                pos as int,
                end as int,
            ));
            assert(record@.skip(pos as int).skip(total as int) =~= record@.skip(end as int));
            Some(end)
        },
    }
}

/// The list of numbers at `pos`, and its end.
fn read_list(record: &[u8], pos: usize) -> (r: Option<(Vec<u32>, usize)>)
    requires
        pos <= record.len(),
    ensures
        r matches Some((list, end)) ==> pos <= end <= record.len() && take_list(
            record@.skip(pos as int),
        ) == Some((list@, record@.skip(end as int))),
        r is None ==> take_list(record@.skip(pos as int)) is None,
{
    if pos >= record.len() {
        return None;
    }
    let count: usize = record[pos] as usize;
    if record.len() - pos < 1 + 4 * count {
        return None;
    }
    let ghost s = record@.skip(pos as int);
    let mut list: Vec<u32> = Vec::new();
    let mut i: usize = 0;
    while i < count
        invariant
            i <= count <= 255,
            pos + 1 + 4 * count <= record.len(),
            s == record@.skip(pos as int),
            list@.len() == i,
            forall|j: int| 0 <= j < i ==> #[trigger] list@[j] == u32_at(s, 1 + 4 * j),
        decreases count - i,
    {
        list.push(read_u32_le(record, pos + 1 + 4 * i));
        i = i + 1;
    }
    let end: usize = pos + 1 + 4 * count;
    assert(list@ =~= Seq::new(s[0] as nat, |j: int| u32_at(s, 1 + 4 * j) as u32));
    assert(s.skip(1 + 4 * count) =~= record@.skip(end as int));
    Some((list, end))
}

/// So many lists of numbers at `pos`.
fn read_lists(record: &[u8], pos: usize, n: usize) -> (r: Option<Vec<Vec<u32>>>)
    requires
        pos <= record.len(),
    ensures
        r matches Some(lists) ==> take_lists(record@.skip(pos as int), n as nat) is Some && (
        take_lists(record@.skip(pos as int), n as nat)->0).0 == list_views(lists@),
        r is None ==> take_lists(record@.skip(pos as int), n as nat) is None,
    decreases n,
{
    if n == 0 {
        let none: Vec<Vec<u32>> = Vec::new();
        assert(list_views(none@) =~= Seq::<Seq<u32>>::empty());
        return Some(none);
    }
    match read_list(record, pos) {
        None => None,
        Some((list, end)) => match read_lists(record, end, n - 1) {
            None => None,
            Some(mut others) => {
                let ghost tail = others@;
                let ghost first = list;
                others.insert(0, list);
                assert(others@ =~= seq![first] + tail);
                assert(list_views(others@) =~= seq![first@] + list_views(tail));
                Some(others)
            },
        },
    }
}

/// Reads a record part by part.
fn scan_record(record: &[u8], has_synonym_group_ids: bool) -> (r: Option<WordInfo>)
    ensures
        r matches Some(info) ==> take_record(record@, has_synonym_group_ids) is Some && (
        take_record(record@, has_synonym_group_ids)->0).0 == info@,
        r is None ==> take_record(record@, has_synonym_group_ids) is None,
{
    assert(record@.skip(0) =~= record@);
    let p1: usize = match string_end(record, 0) {
        None => return None,
        Some(end) => end,
    };
    let p2: usize = match length_end(record, p1) {
        None => return None,
        Some(end) => end,
    };
    if record.len() - p2 < 2 {
        return None;
    }
    let p3: usize = p2 + 2;
    assert(record@.skip(p2 as int).skip(2) =~= record@.skip(p3 as int));
    let p4: usize = match string_end(record, p3) {
        None => return None,
        Some(end) => end,
    };
    if record.len() - p4 < 4 {
        return None;
    }
    let p5: usize = p4 + 4;
    assert(record@.skip(p4 as int).skip(4) =~= record@.skip(p5 as int));
    let p6: usize = match string_end(record, p5) {
        None => return None,
        Some(end) => end,
    };
    let count: usize = if has_synonym_group_ids {
        4
    } else {
        3
    };
    match read_lists(record, p6, count) {
        None => None,
        Some(lists) => {
            let info: WordInfo = WordInfo {
                surface: slice_to_vec(slice_subrange(record, 0, p1)),
                head_word_length: slice_to_vec(slice_subrange(record, p1, p2)),
                pos_id: read_u16_le(record, p2),
                normalized_form: slice_to_vec(slice_subrange(record, p3, p4)),
                dictionary_form: read_i32_le(record, p4),
                reading_form: slice_to_vec(slice_subrange(record, p5, p6)),
                lists,
            };
            assert(u16_at(record@.skip(p2 as int), 0) == info.pos_id);
            assert(i32_at(record@.skip(p4 as int), 0) == info.dictionary_form);
            Some(info)
        },
    }
}

/// Reads a word information record. There is none where the bytes do not start with one; bytes
/// after it are not looked at.
pub fn parse_record(record: &[u8], has_synonym_group_ids: bool) -> (r: Option<WordInfo>)
    ensures
        r matches Some(info) ==> is_record(record@, has_synonym_group_ids, info@),
        r is None ==> forall|info: InfoView| !is_record(record@, has_synonym_group_ids, info),
{
    let r: Option<WordInfo> = scan_record(record, has_synonym_group_ids);
    proof {
        if r is Some {
            lemma_is_record(record@, has_synonym_group_ids, r->0@);
        } else {
            assert forall|info: InfoView| !is_record(record@, has_synonym_group_ids, info) by {
                lemma_is_record(record@, has_synonym_group_ids, info);
            }
        }
    }
    r
}

/// A part of what is written: bytes as they are, an unsigned number, or a signed number.
pub enum Piece {
    Raw(Vec<u8>),
    Unsigned(u32),
    Signed(i32),
}

/// A part of what is written, by content.
pub enum PieceView {
    Raw(Seq<u8>),
    Unsigned(u32),
    Signed(i32),
}

impl View for Piece {
    type V = PieceView;

    open spec fn view(&self) -> PieceView {
        match self {
            Piece::Raw(bytes) => PieceView::Raw(bytes@),
            Piece::Unsigned(n) => PieceView::Unsigned(*n),
            Piece::Signed(n) => PieceView::Signed(*n),
        }
    }
}

/// A list of pieces, by content.
pub open spec fn piece_views(pieces: Seq<Piece>) -> Seq<PieceView> {
    pieces.map_values(|piece: Piece| piece@)
}

/// The pieces of a list of numbers: how many, and each of them.
pub open spec fn list_pieces(list: Seq<u32>) -> Seq<PieceView> {
    seq![PieceView::Unsigned(list.len() as u32)] + list.map_values(
        |n: u32| PieceView::Unsigned(n),
    )
}

/// The pieces of lists of numbers.
pub open spec fn lists_pieces(lists: Seq<Seq<u32>>) -> Seq<PieceView>
    decreases lists.len(),
{
    if lists.len() == 0 {
        Seq::empty()
    } else {
        list_pieces(lists[0]) + lists_pieces(lists.drop_first())
    }
}

/// The pieces of a record.
pub open spec fn info_pieces(info: InfoView) -> Seq<PieceView> {
    seq![
        PieceView::Raw(info.surface),
        PieceView::Raw(info.head_word_length),
        PieceView::Unsigned(info.pos_id as u32),
        PieceView::Raw(info.normalized_form),
        PieceView::Signed(info.dictionary_form),
        PieceView::Raw(info.reading_form),
    ] + lists_pieces(info.lists)
}

/// The pieces of some lists and one more.
proof fn lemma_lists_pieces_push(lists: Seq<Seq<u32>>, list: Seq<u32>)
    ensures
        lists_pieces(lists.push(list)) == lists_pieces(lists) + list_pieces(list),
    decreases lists.len(),
{
    let all = lists.push(list);
    if lists.len() == 0 {
        assert(all.drop_first() =~= lists);
        assert(lists_pieces(all) =~= lists_pieces(lists) + list_pieces(list));
    } else {
        assert(all.drop_first() =~= lists.drop_first().push(list));
        lemma_lists_pieces_push(lists.drop_first(), list);
        assert(lists_pieces(all) =~= lists_pieces(lists) + list_pieces(list));
    }
}

/// The pieces of a word.
fn build_pieces(info: WordInfo) -> (pieces: Vec<Piece>)
    requires
        forall|k: int| 0 <= k < info.lists@.len() ==> (#[trigger] info.lists@[k])@.len() <= 255,
    ensures
        piece_views(pieces@) == info_pieces(info@),
{
    let ghost wanted = info@;
    let WordInfo {
        surface,
        head_word_length,
        pos_id,
        normalized_form,
        dictionary_form,
        reading_form,
        lists,
    } = info;
    let mut pieces: Vec<Piece> = Vec::new();
    pieces.push(Piece::Raw(surface));
    pieces.push(Piece::Raw(head_word_length));
    pieces.push(Piece::Unsigned(pos_id as u32));
    pieces.push(Piece::Raw(normalized_form));
    pieces.push(Piece::Signed(dictionary_form));
    pieces.push(Piece::Raw(reading_form));
    let ghost head = piece_views(pieces@);
    let ghost views = list_views(lists@);
    assert(head =~= info_pieces(wanted).take(6));
    let mut k: usize = 0;
    while k < lists.len()
        invariant
            k <= lists.len(),
            views == list_views(lists@),
            forall|j: int| 0 <= j < lists@.len() ==> (#[trigger] lists@[j])@.len() <= 255,
            piece_views(pieces@) == head + lists_pieces(views.take(k as int)),
        decreases lists.len() - k,
    {
        assert(lists@[k as int]@.len() <= 255);
        let ghost start = piece_views(pieces@);
        let ghost list = lists@[k as int]@;
        let ghost before = pieces@;
        pieces.push(Piece::Unsigned(lists[k].len() as u32));
        assert(piece_views(pieces@) =~= start.push(PieceView::Unsigned(list.len() as u32)));
        assert(list_pieces(list).take(1) =~= seq![PieceView::Unsigned(list.len() as u32)]);
        let mut i: usize = 0;
        while i < lists[k].len()
            invariant
                k < lists.len(),
                list == lists@[k as int]@,
                i <= list.len(),
                piece_views(pieces@) == start + list_pieces(list).take(i + 1),
            decreases list.len() - i,
        {
            let ghost so_far = pieces@;
            pieces.push(Piece::Unsigned(lists[k][i]));
            assert(piece_views(pieces@) =~= piece_views(so_far).push(
                PieceView::Unsigned(list[i as int]),
            ));
            assert(list_pieces(list).take(i + 2) =~= list_pieces(list).take(i + 1).push(
                PieceView::Unsigned(list[i as int]),
            ));
            i = i + 1;
        }
        assert(list_pieces(list).take(i + 1) =~= list_pieces(list));
        assert(views.take(k + 1) =~= views.take(k as int).push(list));
        proof {
            lemma_lists_pieces_push(views.take(k as int), list);
        }
        assert(start + list_pieces(list) =~= head + lists_pieces(views.take(k + 1)));
        k = k + 1;
    }
    assert(views.take(k as int) =~= views);
    pieces
}

/// The pieces of the record that the bytes start with, if they start with one.
fn record_pieces(record: &[u8], has_synonym_group_ids: bool) -> (r: Option<Vec<Piece>>)
    ensures
        r is Some <==> exists|info: InfoView| is_record(record@, has_synonym_group_ids, info),
        r matches Some(pieces) ==> exists|info: InfoView|
            #[trigger] is_record(record@, has_synonym_group_ids, info) && piece_views(pieces@)
                == info_pieces(info),
{
    match parse_record(record, has_synonym_group_ids) {
        None => None,
        Some(info) => {
            assert forall|k: int| 0 <= k < info.lists@.len() implies (
            #[trigger] info.lists@[k])@.len() <= 255 by {
                assert(info@.lists[k] == info.lists@[k]@);
            }
            Some(build_pieces(info))
        },
    }
}

/// The pieces of a record in its variable-length form.
pub fn vbyte_reencode_record(record: &[u8], has_synonym_group_ids: bool) -> (pieces: Vec<Piece>)
    requires
        exists|info: InfoView| is_record(record@, has_synonym_group_ids, info),
    ensures
        exists|info: InfoView|
            #[trigger] is_record(record@, has_synonym_group_ids, info) && piece_views(pieces@)
                == info_pieces(info),
        decoded(piece_views(pieces@), has_synonym_group_ids) is Some,
        is_record(
            record@,
            has_synonym_group_ids,
            decoded(piece_views(pieces@), has_synonym_group_ids)->0,
        ),
{
    match record_pieces(record, has_synonym_group_ids) {
        None => Vec::new(),
        Some(pieces) => {
            proof {
                let info = choose|info: InfoView|
                    #[trigger] is_record(record@, has_synonym_group_ids, info) && piece_views(
                        pieces@,
                    ) == info_pieces(info);
                law_pieces_decode(info, has_synonym_group_ids);
            }
            pieces
        },
    }
}

/// Lists with the same pieces are the same.
proof fn lemma_lists_from_pieces(
    a: Seq<Seq<u32>>,
    b: Seq<Seq<u32>>,
    more_a: Seq<PieceView>,
    more_b: Seq<PieceView>,
)
    requires
        a.len() == b.len(),
        forall|k: int| 0 <= k < a.len() ==> (#[trigger] a[k]).len() <= 255,
        forall|k: int| 0 <= k < b.len() ==> (#[trigger] b[k]).len() <= 255,
        lists_pieces(a) + more_a == lists_pieces(b) + more_b,
    ensures
        a == b,
    decreases a.len(),
{
    if a.len() == 0 {
        assert(a =~= b);
    } else {
        let rest_a = a.drop_first();
        let rest_b = b.drop_first();
        let all = lists_pieces(a) + more_a;
        assert(a[0].len() <= 255 && b[0].len() <= 255);
        assert(all[0] == PieceView::Unsigned(a[0].len() as u32));
        assert(all[0] == PieceView::Unsigned(b[0].len() as u32));
        assert forall|i: int| 0 <= i < a[0].len() implies a[0][i] == b[0][i] by {
            assert(all[1 + i] == PieceView::Unsigned(a[0][i]));
            assert(all[1 + i] == PieceView::Unsigned(b[0][i]));
        }
        assert(a[0] =~= b[0]);
        let n = 1 + a[0].len() as int;
        assert(all.skip(n) =~= lists_pieces(rest_a) + more_a);
        assert(all.skip(n) =~= lists_pieces(rest_b) + more_b);
        assert forall|k: int| 0 <= k < rest_a.len() implies (#[trigger] rest_a[k]).len() <= 255
            && rest_b[k].len() <= 255 by {
            assert(rest_a[k] == a[k + 1] && rest_b[k] == b[k + 1]);
        }
        lemma_lists_from_pieces(rest_a, rest_b, more_a, more_b);
        assert(a =~= seq![a[0]] + rest_a);
        assert(b =~= seq![b[0]] + rest_b);
    }
}

/// Nothing is lost in the variable-length form: words with the same pieces have the same record.
pub proof fn law_pieces_lossless(a: InfoView, b: InfoView, has_synonym_group_ids: bool)
    requires
        is_info(a, has_synonym_group_ids),
        is_info(b, has_synonym_group_ids),
        info_pieces(a) == info_pieces(b),
    ensures
        a == b,
        record_bytes(a) == record_bytes(b),
{
    let pieces = info_pieces(a);
    assert(pieces[0] == PieceView::Raw(a.surface) && pieces[0] == PieceView::Raw(b.surface));
    assert(pieces[1] == PieceView::Raw(a.head_word_length));
    assert(pieces[1] == PieceView::Raw(b.head_word_length));
    assert(pieces[2] == PieceView::Unsigned(a.pos_id as u32));
    assert(pieces[2] == PieceView::Unsigned(b.pos_id as u32));
    assert(pieces[3] == PieceView::Raw(a.normalized_form));
    assert(pieces[3] == PieceView::Raw(b.normalized_form));
    assert(pieces[4] == PieceView::Signed(a.dictionary_form));
    assert(pieces[4] == PieceView::Signed(b.dictionary_form));
    assert(pieces[5] == PieceView::Raw(a.reading_form));
    assert(pieces[5] == PieceView::Raw(b.reading_form));
    let none = Seq::<PieceView>::empty();
    assert(pieces.skip(6) =~= lists_pieces(a.lists) + none);
    assert(pieces.skip(6) =~= lists_pieces(b.lists) + none);
    lemma_lists_from_pieces(a.lists, b.lists, none, none);
}

/// Variable-length word information: what it starts with, the number of records, the size of
/// all records, the place of each record among them, and the records.
pub open spec fn word_infos_bytes(rows: Seq<Seq<u8>>) -> Seq<u8> {
    le32(VBYTE_WI_MAGIC as int) + le32(rows.len() as int) + le32(concat(rows).len() as int)
        + le32s(row_starts(rows)) + concat(rows)
}

/// Puts the variable-length word information together from the records in that form.
pub fn vbyte_encode_word_infos(records: &Vec<Vec<u8>>) -> (out: Vec<u8>)
    ensures
        out@ == word_infos_bytes(byte_views(records@)),
{
    let (data, starts) = lay_out(records);
    let mut out: Vec<u8> = Vec::new();
    push_u32(&mut out, VBYTE_WI_MAGIC);
    push_len(&mut out, records.len());
    push_len(&mut out, data.len());
    push_u32s(&mut out, starts.as_slice());
    push_bytes(&mut out, data.as_slice());
    out
}

/// Each record is found at the place that stands in the table, without reading the records before
/// it, as long as the records can be addressed with 32 bits.
pub proof fn law_record_found(rows: Seq<Seq<u8>>, i: int)
    requires
        concat(rows).len() < 0x1_0000_0000,
        0 <= i < rows.len(),
    ensures
        ({
            let bytes = word_infos_bytes(rows);
            let place = 12 + 4 * rows.len() + u32_at(bytes, 12 + 4 * i);
            &&& place + rows[i].len() <= bytes.len()
            &&& bytes.subrange(place, place + rows[i].len()) == rows[i]
        }),
{
    let bytes = word_infos_bytes(rows);
    let head = le32(VBYTE_WI_MAGIC as int) + le32(rows.len() as int) + le32(
        concat(rows).len() as int,
    );
    let starts = row_starts(rows);
    let data = concat(rows);
    lemma_le32s_len(starts);
    assert(bytes =~= head + le32s(starts) + data);
    law_le32s_read_back(starts, head, data, i);
    law_row_found(rows, i);
    let start = row_start(rows, i);
    let place = 12 + 4 * rows.len() + start;
    assert(bytes.subrange(place, place + rows[i].len()) =~= data.subrange(
        start,
        start + rows[i].len(),
    ));
}

/// Where record `i` of `n` ends: where the next one starts, or at the end of the buffer. The
/// places of the records stand at `start`.
pub open spec fn record_end(buf: Seq<u8>, start: int, n: int, i: int) -> int {
    if i + 1 < n {
        u32_at(buf, start + 4 * (i + 1))
    } else {
        buf.len() as int
    }
}

/// Record `i` of `n`.
pub open spec fn record_at(buf: Seq<u8>, start: int, n: int, i: int) -> Seq<u8> {
    buf.subrange(u32_at(buf, start + 4 * i), record_end(buf, start, n, i))
}

/// Whether record `i` of `n` is within the buffer and is a word information record.
pub open spec fn record_valid(
    buf: Seq<u8>,
    start: int,
    n: int,
    has_synonym_group_ids: bool,
    i: int,
) -> bool {
    &&& u32_at(buf, start + 4 * i) <= record_end(buf, start, n, i) <= buf.len()
    &&& exists|info: InfoView| is_record(record_at(buf, start, n, i), has_synonym_group_ids, info)
}

/// Whether the buffer holds `n` places of records at `start`, and the records.
pub open spec fn records_valid(
    buf: Seq<u8>,
    start: int,
    n: int,
    has_synonym_group_ids: bool,
) -> bool {
    &&& n == 0 || start + 4 * n <= buf.len()
    &&& forall|i: int|
        0 <= i < n ==> #[trigger] record_valid(buf, start, n, has_synonym_group_ids, i)
}

/// Whether `pieces` are the pieces of record `i` of `n`.
pub open spec fn are_record_pieces(
    buf: Seq<u8>,
    start: int,
    n: int,
    has_synonym_group_ids: bool,
    i: int,
    pieces: Seq<PieceView>,
) -> bool {
    exists|info: InfoView|
        #[trigger] is_record(record_at(buf, start, n, i), has_synonym_group_ids, info) && pieces
            == info_pieces(info)
}

/// The pieces of all records, in their order. There are none where a record is not valid.
pub fn plan_word_infos(
    buf: &[u8],
    word_infos_start: usize,
    num_words: usize,
    has_synonym_group_ids: bool,
) -> (r: Option<Vec<Vec<Piece>>>)
    ensures
        r is Some <==> records_valid(
            buf@,
            word_infos_start as int,
            num_words as int,
            has_synonym_group_ids,
        ),
        r matches Some(plan) ==> {
            &&& plan@.len() == num_words
            &&& forall|i: int|
                0 <= i < num_words ==> are_record_pieces(
                    buf@,
                    word_infos_start as int,
                    num_words as int,
                    has_synonym_group_ids,
                    i,
                    piece_views((#[trigger] plan@[i])@),
                )
        },
{
    let ghost s = buf@;
    let ghost start = word_infos_start as int;
    let ghost n = num_words as int;
    let mut plan: Vec<Vec<Piece>> = Vec::new();
    if num_words == 0 {
        return Some(plan);
    }
    if word_infos_start > buf.len() || num_words > (buf.len() - word_infos_start) / 4 {
        return None;
    }
    let mut i: usize = 0;
    while i < num_words
        invariant
            s == buf@,
            start == word_infos_start,
            n == num_words,
            i <= num_words,
            word_infos_start + 4 * num_words <= buf.len(),
            plan@.len() == i,
            forall|j: int|
                0 <= j < i ==> #[trigger] record_valid(s, start, n, has_synonym_group_ids, j),
            forall|j: int|
                0 <= j < i ==> are_record_pieces(
                    s,
                    start,
                    n,
                    has_synonym_group_ids,
                    j,
                    piece_views((#[trigger] plan@[j])@),
                ),
        decreases num_words - i,
    {
        let from: u64 = read_u32_le(buf, word_infos_start + 4 * i) as u64;
        let to: u64 = if i + 1 < num_words {
            read_u32_le(buf, word_infos_start + 4 * (i + 1)) as u64
        } else {
            buf.len() as u64
        };
        if from > to || to > buf.len() as u64 {
            assert(!record_valid(s, start, n, has_synonym_group_ids, i as int));
            return None;
        }
        let record: &[u8] = slice_subrange(buf, from as usize, to as usize);
        assert(record@ == record_at(s, start, n, i as int));
        match record_pieces(record, has_synonym_group_ids) {
            None => {
                assert(!record_valid(s, start, n, has_synonym_group_ids, i as int));
                return None;
            },
            Some(pieces) => {
                assert(record_valid(s, start, n, has_synonym_group_ids, i as int));
                plan.push(pieces);
            },
        }
        i = i + 1;
    }
    Some(plan)
}

/// A length below 128 is one byte. A greater one, below 32768, is two: 128 and its high byte, and
/// its low byte.
pub proof fn law_length(n: int, rest: Seq<u8>)
    ensures
        0 <= n < 128 ==> length_size(n as u8) == 1 && length_value(seq![n as u8] + rest) == n,
        0 <= n < 32768 ==> length_size((128 + n / 256) as u8) == 2 && length_value(
            seq![(128 + n / 256) as u8, (n % 256) as u8] + rest,
        ) == n,
{
}

/// A string is its length, and two bytes for each unit of the length.
pub proof fn law_string(n: int, units: Seq<u8>)
    requires
        units.len() == 2 * n,
    ensures
        0 <= n < 128 ==> is_string(seq![n as u8] + units),
        0 <= n < 32768 ==> is_string(seq![(128 + n / 256) as u8, (n % 256) as u8] + units),
{
    law_length(n, units);
}

/// What a reader of the variable-length form makes of pieces that are to be so many lists: each of
/// them is its count, and as many numbers.
pub open spec fn decoded_lists(pieces: Seq<PieceView>, n: nat) -> Option<Seq<Seq<u32>>>
    decreases n,
{
    if n == 0 {
        if pieces.len() == 0 {
            Some(Seq::empty())
        } else {
            None
        }
    } else if pieces.len() > 0 && pieces[0] is Unsigned && pieces[0]->Unsigned_0 < pieces.len()
        && forall|i: int|
        1 <= i <= pieces[0]->Unsigned_0 ==> (#[trigger] pieces[i]) is Unsigned {
        let count = pieces[0]->Unsigned_0;
        match decoded_lists(pieces.skip(1 + count), (n - 1) as nat) {
            Some(others) => Some(
                seq![Seq::new(count as nat, |i: int| pieces[1 + i]->Unsigned_0)] + others,
            ),
            None => None,
        }
    } else {
        None
    }
}

/// What a reader of the variable-length form makes of pieces: a string, a length, an unsigned
/// number, a string, a signed number, a string, and four lists, or three without synonym groups.
pub open spec fn decoded(pieces: Seq<PieceView>, has_synonym_group_ids: bool) -> Option<InfoView> {
    let n: nat = if has_synonym_group_ids {
        4
    } else {
        3
    };
    if pieces.len() >= 6 && pieces[0] is Raw && pieces[1] is Raw && pieces[2] is Unsigned
        && pieces[2]->Unsigned_0 < 0x1_0000 && pieces[3] is Raw && pieces[4] is Signed && pieces[5]
        is Raw {
        match decoded_lists(pieces.skip(6), n) {
            Some(lists) => Some(
                InfoView {
                    surface: pieces[0]->Raw_0,
                    head_word_length: pieces[1]->Raw_0,
                    pos_id: pieces[2]->Unsigned_0 as u16,
                    normalized_form: pieces[3]->Raw_0,
                    dictionary_form: pieces[4]->Signed_0,
                    reading_form: pieces[5]->Raw_0,
                    lists,
                },
            ),
            None => None,
        }
    } else {
        None
    }
}

/// The pieces of lists decode to the lists.
proof fn lemma_lists_decode(lists: Seq<Seq<u32>>)
    requires
        forall|k: int| 0 <= k < lists.len() ==> (#[trigger] lists[k]).len() <= 255,
    ensures
        decoded_lists(lists_pieces(lists), lists.len()) == Some(lists),
    decreases lists.len(),
{
    if lists.len() == 0 {
        assert(lists =~= Seq::empty());
    } else {
        let list = lists[0];
        let others = lists.drop_first();
        assert forall|k: int| 0 <= k < others.len() implies (#[trigger] others[k]).len() <= 255 by {
            assert(others[k] == lists[k + 1]);
        }
        lemma_lists_decode(others);
        let pieces = lists_pieces(lists);
        assert(list.len() <= 255);
        assert(pieces[0] == PieceView::Unsigned(list.len() as u32));
        assert forall|i: int| 1 <= i <= list.len() implies #[trigger] pieces[i]
            == PieceView::Unsigned(list[i - 1]) by {}
        assert(pieces.skip(1 + list.len() as int) =~= lists_pieces(others));
        assert(Seq::new(list.len(), |i: int| pieces[1 + i]->Unsigned_0) =~= list);
        assert(seq![list] + others =~= lists);
    }
}

/// The pieces of a record decode, by a reader that knows the format alone, to the parts of the
/// record: the part of speech is an unsigned number, the dictionary form a signed one, whether it
/// is negative or not.
pub proof fn law_pieces_decode(info: InfoView, has_synonym_group_ids: bool)
    requires
        is_info(info, has_synonym_group_ids),
    ensures
        decoded(info_pieces(info), has_synonym_group_ids) == Some(info),
        info_pieces(info)[2] == PieceView::Unsigned(info.pos_id as u32),
        info_pieces(info)[4] == PieceView::Signed(info.dictionary_form),
{
    let pieces = info_pieces(info);
    assert(pieces.skip(6) =~= lists_pieces(info.lists));
    lemma_lists_decode(info.lists);
}

/// Where list `k` starts among the bytes of lists: each list before it takes one byte for its count
/// and four for each number.
pub open spec fn list_place(lists: Seq<Seq<u32>>, k: int) -> int
    decreases k,
{
    if k <= 0 {
        0
    } else {
        list_place(lists, k - 1) + 1 + 4 * lists[k - 1].len()
    }
}

/// The place of a list, counted without the first list.
proof fn lemma_list_place(lists: Seq<Seq<u32>>, k: int)
    requires
        1 <= k <= lists.len(),
    ensures
        list_place(lists, k) == 1 + 4 * lists[0].len() + list_place(lists.drop_first(), k - 1),
        list_place(lists, k) >= 0,
        list_place(lists.drop_first(), k - 1) >= 0,
    decreases k,
{
    reveal_with_fuel(list_place, 2);
    if k > 1 {
        lemma_list_place(lists, k - 1);
        assert(lists.drop_first()[k - 2] == lists[k - 1]);
    }
}

/// Reads a list from the bytes of lists.
proof fn lemma_list_at(lists: Seq<Seq<u32>>, before: Seq<u8>, after: Seq<u8>, k: int, i: int)
    requires
        forall|j: int| 0 <= j < lists.len() ==> (#[trigger] lists[j]).len() <= 255,
        0 <= k < lists.len(),
    ensures
        ({
            let bytes = before + lists_bytes(lists) + after;
            let at = before.len() + list_place(lists, k);
            &&& before.len() <= at
            &&& at + 1 + 4 * lists[k].len() <= bytes.len()
            &&& bytes[at] == lists[k].len()
            &&& 0 <= i < lists[k].len() ==> u32_at(bytes, at + 1 + 4 * i) == lists[k][i]
        }),
    decreases lists.len(),
{
    let bytes = before + lists_bytes(lists) + after;
    let list = lists[0];
    let others = lists.drop_first();
    let head = seq![list.len() as u8];
    assert(list.len() <= 255);
    lemma_le32s_len(list);
    if k == 0 {
        let tail = lists_bytes(others) + after;
        assert(bytes =~= (before + head) + le32s(list) + tail);
        if 0 <= i < list.len() {
            law_le32s_read_back(list, before + head, tail, i);
        }
    } else {
        assert forall|j: int| 0 <= j < others.len() implies (#[trigger] others[j]).len() <= 255 by {
            assert(others[j] == lists[j + 1]);
        }
        lemma_list_at(others, before + list_bytes(list), after, k - 1, i);
        assert(bytes =~= (before + list_bytes(list)) + lists_bytes(others) + after);
        lemma_list_place(lists, k);
        assert(others[k - 1] == lists[k]);
    }
}

/// The parts of a record stand one after the other: the surface, the length of the head word, the
/// part of speech in two bytes, the normalized form, the dictionary form in four bytes with sign,
/// the reading, and the lists.
pub proof fn law_record_parts(record: Seq<u8>, has_synonym_group_ids: bool, info: InfoView)
    requires
        is_record(record, has_synonym_group_ids, info),
    ensures
        ({
            let p1 = info.surface.len() as int;
            let p2 = p1 + info.head_word_length.len();
            let p4 = p2 + 2 + info.normalized_form.len();
            let p6 = p4 + 4 + info.reading_form.len();
            &&& p6 <= record.len()
            &&& is_string(info.surface) && is_length(info.head_word_length)
            &&& is_string(info.normalized_form) && is_string(info.reading_form)
            &&& record.subrange(0, p1) == info.surface
            &&& record.subrange(p1, p2) == info.head_word_length
            &&& u16_at(record, p2) == info.pos_id
            &&& record.subrange(p2 + 2, p4) == info.normalized_form
            &&& i32_at(record, p4) == info.dictionary_form
            &&& record.subrange(p4 + 4, p6) == info.reading_form
        }),
{
    let rest = record.skip(record_bytes(info).len() as int);
    assert(record =~= record_bytes(info) + rest);
    lemma_record_parts(info, rest);
    let pos = le16(info.pos_id as int);
    let form = le32(info.dictionary_form as int);
    let lists = lists_bytes(info.lists) + rest;
    lemma_six_parts(
        info.surface,
        info.head_word_length,
        pos,
        info.normalized_form,
        form,
        info.reading_form,
        lists,
    );
    lemma_numbers_alone(info.pos_id, info.dictionary_form);
}

/// Numbers read from the bytes that they are written as.
proof fn lemma_numbers_alone(pos_id: u16, dictionary_form: i32)
    ensures
        le16(pos_id as int).len() == 2,
        u16_at(le16(pos_id as int), 0) == pos_id,
        le32(dictionary_form as int).len() == 4,
        i32_at(le32(dictionary_form as int), 0) == dictionary_form,
{
    let none = Seq::<u8>::empty();
    law_le16_reads_back(pos_id as int, none, none);
    law_le32_reads_back(dictionary_form as int, none, none);
    assert(none + le16(pos_id as int) + none =~= le16(pos_id as int));
    assert(none + le32(dictionary_form as int) + none =~= le32(dictionary_form as int));
}

/// Parts that stand one after the other are found where they stand.
proof fn lemma_six_parts(
    a: Seq<u8>,
    b: Seq<u8>,
    c: Seq<u8>,
    d: Seq<u8>,
    e: Seq<u8>,
    f: Seq<u8>,
    g: Seq<u8>,
)
    ensures
        ({
            let whole = a + (b + (c + (d + (e + (f + g)))));
            let p1 = a.len() as int;
            let p2 = p1 + b.len();
            let p3 = p2 + c.len();
            let p4 = p3 + d.len();
            let p5 = p4 + e.len();
            let p6 = p5 + f.len();
            &&& whole.len() == p6 + g.len()
            &&& whole.subrange(0, p1) == a
            &&& whole.subrange(p1, p2) == b
            &&& whole.subrange(p3, p4) == d
            &&& whole.subrange(p5, p6) == f
            &&& c.len() == 2 ==> u16_at(whole, p2) == u16_at(c, 0)
            &&& e.len() == 4 ==> i32_at(whole, p4) == i32_at(e, 0)
        }),
{
    let whole = a + (b + (c + (d + (e + (f + g)))));
    let p1 = a.len() as int;
    let p2 = p1 + b.len();
    let p3 = p2 + c.len();
    let p4 = p3 + d.len();
    let p5 = p4 + e.len();
    let p6 = p5 + f.len();
    assert(whole.subrange(0, p1) =~= a);
    assert(whole.subrange(p1, p2) =~= b);
    assert(whole.subrange(p3, p4) =~= d);
    assert(whole.subrange(p5, p6) =~= f);
    if c.len() == 2 {
        assert(whole[p2] == c[0] && whole[p2 + 1] == c[1]);
    }
    if e.len() == 4 {
        assert(whole[p4] == e[0] && whole[p4 + 1] == e[1]);
        assert(whole[p4 + 2] == e[2] && whole[p4 + 3] == e[3]);
    }
}

/// The lists of a record stand after its reading, four of them, or three without synonym groups:
/// each is its count in one byte, and its numbers in four bytes each.
pub proof fn law_record_lists(
    record: Seq<u8>,
    has_synonym_group_ids: bool,
    info: InfoView,
    k: int,
    i: int,
)
    requires
        is_record(record, has_synonym_group_ids, info),
        0 <= k < if has_synonym_group_ids {
            4int
        } else {
            3
        },
    ensures
        ({
            let start = 6 + info.surface.len() + info.head_word_length.len()
                + info.normalized_form.len() + info.reading_form.len();
            let at = start + list_place(info.lists, k);
            &&& info.lists.len() == if has_synonym_group_ids {
                4int
            } else {
                3
            }
            &&& 0 <= at
            &&& at + 1 + 4 * info.lists[k].len() <= record.len()
            &&& record[at] == info.lists[k].len()
            &&& 0 <= i < info.lists[k].len() ==> u32_at(record, at + 1 + 4 * i)
                == info.lists[k][i]
        }),
{
    let rest = record.skip(record_bytes(info).len() as int);
    assert(record =~= record_bytes(info) + rest);
    lemma_record_parts(info, rest);
    let before = info.surface + info.head_word_length + le16(info.pos_id as int)
        + info.normalized_form + le32(info.dictionary_form as int) + info.reading_form;
    assert(record =~= before + lists_bytes(info.lists) + rest);
    lemma_list_at(info.lists, before, rest, k, i);
}

/// A word's record can be read wherever it stands in a buffer: from the place that the table of
/// places gives, up to the place of the next record, or to the end for the last one. Bytes between
/// a record and the next one do not matter.
pub proof fn law_record_in_buffer(
    buf: Seq<u8>,
    start: int,
    n: int,
    has_synonym_group_ids: bool,
    i: int,
    info: InfoView,
    place: int,
    end: int,
)
    requires
        0 <= start,
        0 <= i < n,
        start + 4 * n <= buf.len(),
        is_info(info, has_synonym_group_ids),
        u32_at(buf, start + 4 * i) == place,
        i + 1 < n ==> u32_at(buf, start + 4 * (i + 1)) == end,
        i + 1 == n ==> end == buf.len(),
        0 <= place,
        place + record_bytes(info).len() <= end <= buf.len(),
        buf.subrange(place, place + record_bytes(info).len()) == record_bytes(info),
    ensures
        record_valid(buf, start, n, has_synonym_group_ids, i),
        record_at(buf, start, n, i) == buf.subrange(place, end),
        is_record(record_at(buf, start, n, i), has_synonym_group_ids, info),
        forall|pieces: Seq<PieceView>|
            are_record_pieces(buf, start, n, has_synonym_group_ids, i, pieces)
                ==> #[trigger] decoded(pieces, has_synonym_group_ids) == Some(info),
{
    let record = record_at(buf, start, n, i);
    assert(record == buf.subrange(place, end));
    assert(record.subrange(0, record_bytes(info).len() as int) =~= buf.subrange(
        place,
        place + record_bytes(info).len(),
    ));
    assert(record_bytes(info).is_prefix_of(record));
    assert(is_record(record, has_synonym_group_ids, info));
    assert forall|pieces: Seq<PieceView>|
        are_record_pieces(buf, start, n, has_synonym_group_ids, i, pieces) implies
        #[trigger] decoded(pieces, has_synonym_group_ids) == Some(info) by {
        let other = choose|other: InfoView|
            #[trigger] is_record(record, has_synonym_group_ids, other) && pieces == info_pieces(
                other,
            );
        law_record_unique(record, has_synonym_group_ids, info, other);
        law_pieces_decode(info, has_synonym_group_ids);
    }
}

/// Variable-length word information says what it is, how many records it has, and how many bytes
/// they have together. A table with four bytes for each record follows, and then the records
/// without a gap: the first one right after the table, each other one where the one before it ends,
/// and the last one up to the end.
pub proof fn law_word_infos_layout(rows: Seq<Seq<u8>>, i: int)
    requires
        concat(rows).len() < 0x1_0000_0000,
        0 <= i < rows.len(),
    ensures
        ({
            let bytes = word_infos_bytes(rows);
            let n = rows.len();
            let place = 12 + 4 * n + u32_at(bytes, 12 + 4 * i);
            let end = place + rows[i].len();
            &&& i == 0 ==> place == 12 + 4 * n
            &&& i + 1 < n ==> 12 + 4 * n + u32_at(bytes, 12 + 4 * (i + 1)) == end
            &&& i + 1 == n ==> bytes.len() == end
            &&& bytes.subrange(place, end as int) == rows[i]
        }),
{
    law_record_found(rows, i);
    lemma_record_starts(rows, i);
    law_row_places(rows, i);
    lemma_le32s_len(row_starts(rows));
    if i + 1 < rows.len() {
        lemma_record_starts(rows, i + 1);
    }
}

/// The table of word information gives the places at which the records start.
proof fn lemma_record_starts(rows: Seq<Seq<u8>>, i: int)
    requires
        concat(rows).len() < 0x1_0000_0000,
        0 <= i < rows.len(),
    ensures
        u32_at(word_infos_bytes(rows), 12 + 4 * i) == row_start(rows, i),
{
    let head = le32(VBYTE_WI_MAGIC as int) + le32(rows.len() as int) + le32(
        concat(rows).len() as int,
    );
    let starts = row_starts(rows);
    assert(word_infos_bytes(rows) =~= head + le32s(starts) + concat(rows));
    law_le32s_read_back(starts, head, concat(rows), i);
    law_row_found(rows, i);
}

/// What variable-length word information starts with.
pub proof fn law_word_infos_header(rows: Seq<Seq<u8>>)
    ensures
        ({
            let bytes = word_infos_bytes(rows);
            &&& u32_at(bytes, 0) == 0x4D57_5642
            &&& u32_at(bytes, 4) == rows.len() as int % 0x1_0000_0000
            &&& u32_at(bytes, 8) == concat(rows).len() as int % 0x1_0000_0000
            &&& bytes.len() == 12 + 4 * rows.len() + concat(rows).len()
        }),
{
    let bytes = word_infos_bytes(rows);
    let magic = le32(VBYTE_WI_MAGIC as int);
    let count = le32(rows.len() as int);
    let size = le32(concat(rows).len() as int);
    let rest = le32s(row_starts(rows)) + concat(rows);
    let none = Seq::<u8>::empty();
    lemma_le32s_len(row_starts(rows));
    assert(bytes =~= none + magic + (count + size + rest));
    law_le32_reads_back(VBYTE_WI_MAGIC as int, none, count + size + rest);
    assert(bytes =~= magic + count + (size + rest));
    law_le32_reads_back(rows.len() as int, magic, size + rest);
    assert(bytes =~= (magic + count) + size + rest);
    law_le32_reads_back(concat(rows).len() as int, magic + count, rest);
}

/// The content of a piece is what it holds, and that of pieces is that of each of them.
pub proof fn law_piece_contents(pieces: Seq<Piece>, i: int)
    requires
        0 <= i < pieces.len(),
    ensures
        piece_views(pieces).len() == pieces.len(),
        pieces[i] matches Piece::Raw(bytes) ==> piece_views(pieces)[i] == PieceView::Raw(bytes@),
        pieces[i] matches Piece::Unsigned(n) ==> piece_views(pieces)[i] == PieceView::Unsigned(n),
        pieces[i] matches Piece::Signed(n) ==> piece_views(pieces)[i] == PieceView::Signed(n),
{
}

/// The content of a word's information is that of each of its parts.
pub proof fn law_info_contents(info: WordInfo, k: int)
    ensures
        info@.surface == info.surface@,
        info@.head_word_length == info.head_word_length@,
        info@.pos_id == info.pos_id,
        info@.normalized_form == info.normalized_form@,
        info@.dictionary_form == info.dictionary_form,
        info@.reading_form == info.reading_form@,
        info@.lists.len() == info.lists@.len(),
        0 <= k < info.lists@.len() ==> info@.lists[k] == info.lists@[k]@,
{
}

/// Nothing more is asked of the parts of a record than that its strings and its length are such,
/// that it has four lists, or three without synonym groups, and that a byte can count each list.
pub proof fn law_info_parts(info: InfoView, has_synonym_group_ids: bool)
    ensures
        is_info(info, has_synonym_group_ids) <==> {
            &&& is_string(info.surface) && is_length(info.head_word_length)
            &&& is_string(info.normalized_form) && is_string(info.reading_form)
            &&& info.lists.len() == if has_synonym_group_ids {
                4int
            } else {
                3
            }
            &&& forall|k: int| 0 <= k < info.lists.len() ==> (#[trigger] info.lists[k]).len() < 256
        },
{
}

/// A length is one byte below 128, or two bytes of which the first is not; a string is a length and
/// two bytes for each unit of it.
pub proof fn law_fields(field: Seq<u8>)
    ensures
        is_length(field) <==> field.len() == 1 && field[0] < 128 || field.len() == 2 && field[0]
            >= 128,
        is_string(field) <==> field.len() >= 1 && field[0] < 128 && field.len() == 1 + 2 * field[0]
            || field.len() >= 2 && field[0] >= 128 && field.len() == 2 + 2 * (256 * (field[0]
            - 128) + field[1]),
{
}

/// Word information can be converted exactly where the table of places is in the buffer, and each
/// record is there from its place on, up to the place of the next record or to the end.
pub proof fn law_records_valid(
    buf: Seq<u8>,
    start: int,
    n: int,
    has_synonym_group_ids: bool,
    i: int,
    place: int,
    end: int,
)
    requires
        0 <= i < n,
        place == u32_at(buf, start + 4 * i),
        i + 1 < n ==> end == u32_at(buf, start + 4 * (i + 1)),
        i + 1 == n ==> end == buf.len(),
    ensures
        record_at(buf, start, n, i) == buf.subrange(place, end),
        record_valid(buf, start, n, has_synonym_group_ids, i) <==> place <= end <= buf.len()
            && exists|info: InfoView|
            is_record(buf.subrange(place, end), has_synonym_group_ids, info),
        records_valid(buf, start, n, has_synonym_group_ids) <==> start + 4 * n <= buf.len()
            && forall|j: int|
            0 <= j < n ==> #[trigger] record_valid(buf, start, n, has_synonym_group_ids, j),
        records_valid(buf, start, 0, has_synonym_group_ids),
{
    let record = record_at(buf, start, n, i);
    assert(record_end(buf, start, n, i) == end);
    assert(record == buf.subrange(place, end));
    if exists|info: InfoView| is_record(record, has_synonym_group_ids, info) {
        let info = choose|info: InfoView| is_record(record, has_synonym_group_ids, info);
        assert(is_record(buf.subrange(place, end), has_synonym_group_ids, info));
    }
    if exists|info: InfoView|
        is_record(buf.subrange(place, end), has_synonym_group_ids, info) {
        let info = choose|info: InfoView|
            is_record(buf.subrange(place, end), has_synonym_group_ids, info);
        assert(is_record(record, has_synonym_group_ids, info));
    }
}

/// A record has nothing but its parts: it takes the bytes of its strings, two for the part of
/// speech, four for the dictionary form, and one and four for each number for each list.
pub proof fn law_record_size(info: InfoView)
    ensures
        record_bytes(info).len() == 6 + info.surface.len() + info.head_word_length.len()
            + info.normalized_form.len() + info.reading_form.len() + list_place(
            info.lists,
            info.lists.len() as int,
        ),
{
    lemma_lists_size(info.lists);
}

/// The bytes of lists.
proof fn lemma_lists_size(lists: Seq<Seq<u32>>)
    ensures
        lists_bytes(lists).len() == list_place(lists, lists.len() as int),
    decreases lists.len(),
{
    if lists.len() > 0 {
        lemma_lists_size(lists.drop_first());
        lemma_list_place(lists, lists.len() as int);
        lemma_le32s_len(lists[0]);
    }
}

/// Where the pieces of list `k` start among the pieces of lists: each list before it has one piece
/// for its count and one for each number.
pub open spec fn piece_place(lists: Seq<Seq<u32>>, k: int) -> int
    decreases k,
{
    if k <= 0 {
        0
    } else {
        piece_place(lists, k - 1) + 1 + lists[k - 1].len()
    }
}

/// The place of a list's pieces, counted without the first list.
proof fn lemma_piece_place(lists: Seq<Seq<u32>>, k: int)
    requires
        1 <= k <= lists.len(),
    ensures
        piece_place(lists, k) == 1 + lists[0].len() + piece_place(lists.drop_first(), k - 1),
        piece_place(lists, k) >= 0,
        piece_place(lists.drop_first(), k - 1) >= 0,
    decreases k,
{
    reveal_with_fuel(piece_place, 2);
    if k > 1 {
        lemma_piece_place(lists, k - 1);
        assert(lists.drop_first()[k - 2] == lists[k - 1]);
    }
}

/// Finds a list among the pieces of lists.
proof fn lemma_list_pieces_at(lists: Seq<Seq<u32>>, k: int, i: int)
    requires
        0 <= k < lists.len(),
    ensures
        ({
            let pieces = lists_pieces(lists);
            let at = piece_place(lists, k);
            &&& 0 <= at
            &&& at + lists[k].len() < pieces.len()
            &&& pieces.len() == piece_place(lists, lists.len() as int)
            &&& pieces[at] == PieceView::Unsigned(lists[k].len() as u32)
            &&& 0 <= i < lists[k].len() ==> pieces[at + 1 + i] == PieceView::Unsigned(lists[k][i])
        }),
    decreases lists.len(),
{
    let pieces = lists_pieces(lists);
    let others = lists.drop_first();
    lemma_piece_place(lists, lists.len() as int);
    if others.len() > 0 {
        let j = if k > 0 {
            k - 1
        } else {
            0
        };
        lemma_list_pieces_at(others, j, i);
    }
    if k > 0 {
        lemma_piece_place(lists, k);
        assert(others[k - 1] == lists[k]);
        assert(pieces.skip(1 + lists[0].len() as int) =~= lists_pieces(others));
        let at = piece_place(others, k - 1);
        assert(pieces[1 + lists[0].len() + at] == lists_pieces(others)[at]);
        if 0 <= i < lists[k].len() {
            assert(pieces[1 + lists[0].len() + at + 1 + i] == lists_pieces(others)[at + 1 + i]);
        }
    }
}

/// The pieces of a record, one by one: the surface, the length of the head word, the part of speech
/// as an unsigned number, the normalized form, the dictionary form as a signed number, the reading,
/// and for each list its count and its numbers, and nothing else.
pub proof fn law_piece_places(info: InfoView, k: int, i: int)
    requires
        0 <= k < info.lists.len(),
    ensures
        ({
            let pieces = info_pieces(info);
            let at = 6 + piece_place(info.lists, k);
            &&& pieces[0] == PieceView::Raw(info.surface)
            &&& pieces[1] == PieceView::Raw(info.head_word_length)
            &&& pieces[2] == PieceView::Unsigned(info.pos_id as u32)
            &&& pieces[3] == PieceView::Raw(info.normalized_form)
            &&& pieces[4] == PieceView::Signed(info.dictionary_form)
            &&& pieces[5] == PieceView::Raw(info.reading_form)
            &&& pieces.len() == 6 + piece_place(info.lists, info.lists.len() as int)
            &&& pieces[at] == PieceView::Unsigned(info.lists[k].len() as u32)
            &&& 0 <= i < info.lists[k].len() ==> pieces[at + 1 + i] == PieceView::Unsigned(
                info.lists[k][i],
            )
        }),
{
    lemma_list_pieces_at(info.lists, k, i);
    let pieces = info_pieces(info);
    let lists = lists_pieces(info.lists);
    let at = piece_place(info.lists, k);
    assert(pieces[6 + at] == lists[at]);
    if 0 <= i < info.lists[k].len() {
        assert(pieces[6 + at + 1 + i] == lists[at + 1 + i]);
    }
}

} // verus!
