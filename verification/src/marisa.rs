//! MARISA tries and the trie section of a dictionary.
//!
//! The trie itself is built, searched and written by the `rsmarisa` crate. What is relied upon
//! there is stated by the declarations in the first half of this file; the rest is proved.

use crate::bytes::{
    law_le32_reads_back, law_le32s_read_back, le32, le32s, lemma_le32s_len, lemma_u32_within,
    push_bytes, push_len, push_u32s, u32_at,
};
use crate::order::byte_views;
use crate::prefix::{has_few_prefixes, lemma_key_within_prefixes, prefixes};
use rsmarisa::grimoire::io::Writer;
use rsmarisa::{Agent, Keyset, Trie};
use vstd::prelude::*;
use vstd::slice::slice_to_vec;

verus! {

/// `rsmarisa::Keyset`: the keys that a trie is built from.
#[verifier::external_type_specification]
#[verifier::external_body]
pub struct ExKeyset(rsmarisa::Keyset);

/// `rsmarisa::Trie`: a static set of byte strings, each with a number.
#[verifier::external_type_specification]
#[verifier::external_body]
pub struct ExTrie(rsmarisa::Trie);

/// `rsmarisa::Agent`: the working memory of a search.
#[verifier::external_type_specification]
#[verifier::external_body]
pub struct ExAgent(rsmarisa::Agent);

/// `std::io::Error`: the error type of `rsmarisa`.
#[verifier::external_type_specification]
#[verifier::external_body]
pub struct ExIoError(std::io::Error);

/// The keys of a keyset, in the order in which they were added.
pub uninterp spec fn keyset_keys(keyset: rsmarisa::Keyset) -> Seq<Seq<u8>>;

/// The keys of a trie, each with its number.
pub uninterp spec fn trie_ids(trie: rsmarisa::Trie) -> Map<Seq<u8>, nat>;

/// The bytes that a trie is written as. A trie that was never built is written as nothing.
pub uninterp spec fn trie_image(trie: rsmarisa::Trie) -> Seq<u8>;

/// The number that `rsmarisa::Trie::build` gives to each of the keys it is handed, all of them
/// with the weight one.
pub uninterp spec fn marisa_ids(keys: Seq<Seq<u8>>) -> Map<Seq<u8>, nat>;

/// Whether a key can be added to keys: an empty one only after a key of 1 to 1024 bytes, for which
/// a keyset makes the storage that the empty one is put in too.
pub open spec fn can_follow(keys: Seq<Seq<u8>>, key: Seq<u8>) -> bool {
    key.len() > 0 || exists|j: int| 0 <= j < keys.len() && 0 < (#[trigger] keys[j]).len() <= 1024
}

/// Whether a trie can be relied upon to hold the keys, added in this order. A trie numbers its keys
/// with 32 bits, and describes its shape in a bit vector of at most `u32::MAX` bits: two for each
/// node, and two more. Besides the root there are at most as many nodes as the keys have different
/// beginnings, and the labels of the nodes have no more bytes together. This is sufficient but not
/// necessary: a node may stand for several beginnings at once, so that a trie might hold keys with
/// more beginnings too; such keys are left out.
pub open spec fn keys_fit(keys: Seq<Seq<u8>>) -> bool {
    &&& keys.len() <= u32::MAX
    &&& 2 * (prefixes(keys).len() + 1) + 2 <= u32::MAX
    &&& forall|i: int| 0 <= i < keys.len() ==> can_follow(keys.take(i), #[trigger] keys[i])
}

/// Whether `ids` numbers the different ones among `keys` from zero on, without gap and without
/// giving a number twice.
pub open spec fn numbers_keys(ids: Map<Seq<u8>, nat>, keys: Seq<Seq<u8>>) -> bool {
    &&& ids.dom() == keys.to_set()
    &&& ids.is_injective()
    &&& forall|key: Seq<u8>| ids.contains_key(key) ==> #[trigger] ids[key] < ids.dom().len()
}

/// `rsmarisa::Keyset::new` makes a keyset without keys.
pub assume_specification[ rsmarisa::Keyset::new ]() -> (keyset: rsmarisa::Keyset)
    ensures
        keyset_keys(keyset) == Seq::<Seq<u8>>::empty(),
;

/// `rsmarisa::Keyset::push_back_bytes` with the weight one adds a copy of the key at the end. It
/// refuses a key whose length does not fit in 32 bits, and then adds nothing. It panics on an empty
/// key where the keyset has no storage yet for keys of up to 1024 bytes.
#[verifier::external_body]
fn push_key(keyset: &mut Keyset, key: &[u8]) -> (r: Result<(), std::io::Error>)
    requires
        can_follow(keyset_keys(*old(keyset)), key@),
    ensures
        r is Ok <==> key@.len() <= u32::MAX,
        r is Ok ==> keyset_keys(*final(keyset)) == keyset_keys(*old(keyset)).push(key@),
        r is Err ==> keyset_keys(*final(keyset)) == keyset_keys(*old(keyset)),
{
    keyset.push_back_bytes(key, 1u8.into())
}

/// `rsmarisa::Trie::build`, without flags, on a new trie. The trie holds the different ones among
/// the keys; they are numbered from zero on, each key has one number, and no number is given
/// twice. The trie is written as at least a header. Building overwrites the weights of the keys, so
/// the keyset is given up. The keys are sorted with a recursion as deep as the longest beginning
/// that many of them share; how deep it can go rests on the stack of the machine, and nothing is
/// said of it.
#[verifier::external_body]
fn build_trie(keyset: Keyset) -> (trie: Trie)
    requires
        keys_fit(keyset_keys(keyset)),
    ensures
        trie_ids(trie) == marisa_ids(keyset_keys(keyset)),
        numbers_keys(trie_ids(trie), keyset_keys(keyset)),
        trie_image(trie).len() > 0,
{
    let mut keyset = keyset;
    let mut trie = Trie::new();
    trie.build(&mut keyset, 0);
    trie
}

/// `rsmarisa::Trie::num_keys` counts the keys of a trie that was built. It panics on any other.
pub assume_specification[ rsmarisa::Trie::num_keys ](trie: &rsmarisa::Trie) -> (n: usize)
    requires
        trie_image(*trie).len() > 0,
    ensures
        n == trie_ids(*trie).dom().len(),
;

/// `rsmarisa::Agent::new` makes the working memory of a search; nothing is said of it.
pub assume_specification[ rsmarisa::Agent::new ]() -> rsmarisa::Agent
;

/// `rsmarisa::Trie::lookup`, for what `rsmarisa::Agent::set_query_bytes` sets, finds a key that the
/// trie holds, and no other, and leaves the number of the key where `rsmarisa::Agent::key` tells
/// it. The agent points at the key only while the search runs. A trie that was never built cannot
/// be searched.
#[verifier::external_body]
fn lookup_id(trie: &Trie, agent: &mut Agent, key: &[u8]) -> (id: Option<usize>)
    requires
        trie_image(*trie).len() > 0,
    ensures
        trie_ids(*trie).contains_key(key@) ==> id is Some && id->0 == trie_ids(*trie)[key@],
        !trie_ids(*trie).contains_key(key@) ==> id is None,
{
    agent.set_query_bytes(key);
    trie.lookup(agent).then_some(agent.key().id())
}

/// `rsmarisa::Trie::write`, with an `rsmarisa::grimoire::io::Writer` into a vector, yields the
/// bytes of a trie that was built, and an error for any other. Integers are written in the byte
/// order of the machine, so nothing is said of the bytes as a function of the keys.
#[verifier::external_body]
fn write_trie(trie: &Trie) -> (r: Result<Vec<u8>, std::io::Error>)
    ensures
        r is Ok <==> trie_image(*trie).len() > 0,
        r matches Ok(image) ==> image@ == trie_image(*trie),
{
    let mut writer = Writer::from_vec(Vec::new());
    trie.write(&mut writer)?;
    writer.into_inner()
}

/// A list of keys with values, by content.
pub open spec fn entry_views(entries: Seq<(Vec<u8>, u32)>) -> Seq<(Seq<u8>, u32)> {
    entries.map_values(|e: (Vec<u8>, u32)| (e.0@, e.1))
}

/// The keys of a list of keys with values.
pub open spec fn entry_keys(entries: Seq<(Seq<u8>, u32)>) -> Seq<Seq<u8>> {
    entries.map_values(|e: (Seq<u8>, u32)| e.0)
}

/// The values by the number of their key: of `n` places, each holds the value of the last entry
/// whose key has the place's number, or zero.
pub open spec fn value_table(
    entries: Seq<(Seq<u8>, u32)>,
    ids: Map<Seq<u8>, nat>,
    n: nat,
) -> Seq<u32>
    decreases entries.len(),
{
    if entries.len() == 0 {
        Seq::new(n, |i: int| 0u32)
    } else {
        value_table(entries.drop_last(), ids, n).update(
            ids[entries.last().0] as int,
            entries.last().1,
        )
    }
}

/// The bytes of a trie section: the size of the trie, the trie, the number of its keys, and for
/// each key number the value of the key.
pub open spec fn section_bytes(image: Seq<u8>, table: Seq<u32>) -> Seq<u8> {
    le32(image.len() as int) + image + le32(table.len() as int) + le32s(table)
}

/// Whether `bytes` are a trie section for the entries that holds `trie`: a trie of their keys, and
/// the table of their values.
#[verifier::opaque]
pub open spec fn is_section_with(
    entries: Seq<(Seq<u8>, u32)>,
    bytes: Seq<u8>,
    trie: Trie,
) -> bool {
    let ids = marisa_ids(entry_keys(entries));
    &&& numbers_keys(ids, entry_keys(entries))
    &&& trie_ids(trie) == ids
    &&& bytes == section_bytes(trie_image(trie), value_table(entries, ids, ids.dom().len()))
}

/// Whether `bytes` are a trie section for the entries.
#[verifier::opaque]
pub open spec fn is_marisa_section(entries: Seq<(Seq<u8>, u32)>, bytes: Seq<u8>) -> bool {
    exists|trie: Trie| is_section_with(entries, bytes, trie)
}

/// Writes a trie section: the trie, the number of its keys and the table of values by key number.
pub fn marisa_section(image: &[u8], table: &[u32]) -> (out: Vec<u8>)
    ensures
        out@ == section_bytes(image@, table@),
{
    let mut out: Vec<u8> = Vec::new();
    push_len(&mut out, image.len());
    push_bytes(&mut out, image);
    push_len(&mut out, table.len());
    push_u32s(&mut out, table);
    out
}

/// Whether a trie can be relied upon to hold the keys of the entries.
pub fn check_keys(entries: &Vec<(Vec<u8>, u32)>) -> (fits: bool)
    ensures
        fits == keys_fit(entry_keys(entry_views(entries@))),
{
    let ghost keys = entry_keys(entry_views(entries@));
    if entries.len() > u32::MAX as usize {
        return false;
    }
    let mut copies: Vec<Vec<u8>> = Vec::new();
    let mut stored: bool = false;
    let mut i: usize = 0;
    while i < entries.len()
        invariant
            i <= entries.len(),
            keys == entry_keys(entry_views(entries@)),
            copies@.len() == i,
            forall|j: int| 0 <= j < i ==> #[trigger] copies@[j]@ == keys[j],
            stored <==> exists|j: int| 0 <= j < i && 0 < (#[trigger] keys[j]).len() <= 1024,
            forall|j: int| 0 <= j < i ==> can_follow(keys.take(j), #[trigger] keys[j]),
        decreases entries.len() - i,
    {
        let len: usize = entries[i].0.len();
        assert(keys[i as int] == entries@[i as int].0@);
        proof {
            let before = keys.take(i as int);
            if stored {
                let j = choose|j: int| 0 <= j < i && 0 < (#[trigger] keys[j]).len() <= 1024;
                assert(before[j] == keys[j]);
            }
            assert(can_follow(before, keys[i as int]) <==> len > 0 || stored);
        }
        if len == 0 && !stored {
            return false;
        }
        if 0 < len && len <= 1024 {
            stored = true;
            assert(0 < keys[i as int].len() <= 1024);
        }
        copies.push(slice_to_vec(entries[i].0.as_slice()));
        i = i + 1;
    }
    assert(byte_views(copies@) =~= keys);
    has_few_prefixes(&copies, (u32::MAX as usize - 4) / 2)
}

/// Builds the trie section of a dictionary from keys and their values. Where a key occurs more
/// than once, its last value counts.
pub fn build_marisa_section(entries: &Vec<(Vec<u8>, u32)>) -> (out: Vec<u8>)
    requires
        keys_fit(entry_keys(entry_views(entries@))),
    ensures
        is_marisa_section(entry_views(entries@), out@),
{
    let ghost views = entry_views(entries@);
    let ghost keys = entry_keys(views);
    let mut keyset: Keyset = Keyset::new();
    let mut i: usize = 0;
    while i < entries.len()
        invariant
            i <= entries.len(),
            views == entry_views(entries@),
            keys == entry_keys(views),
            keys_fit(keys),
            keyset_keys(keyset) == keys.take(i as int),
        decreases entries.len() - i,
    {
        proof {
            lemma_key_within_prefixes(keys, i as int);
            assert(can_follow(keys.take(i as int), keys[i as int]));
        }
        let _ = push_key(&mut keyset, entries[i].0.as_slice());
        assert(keys.take(i as int).push(keys[i as int]) == keys.take(i + 1));
        i = i + 1;
    }
    assert(keys.take(i as int) == keys);
    let trie: Trie = build_trie(keyset);
    let ghost ids = trie_ids(trie);
    let num_keys: usize = trie.num_keys();
    let mut table: Vec<u32> = vec![0u32; num_keys];
    assert(table@ =~= value_table(views.take(0), ids, num_keys as nat));
    let mut agent: Agent = Agent::new();
    let mut j: usize = 0;
    while j < entries.len()
        invariant
            j <= entries.len(),
            views == entry_views(entries@),
            keys == entry_keys(views),
            ids == trie_ids(trie),
            trie_image(trie).len() > 0,
            numbers_keys(ids, keys),
            num_keys == ids.dom().len(),
            table@.len() == num_keys,
            table@ == value_table(views.take(j as int), ids, num_keys as nat),
        decreases entries.len() - j,
    {
        assert(keys[j as int] == entries[j as int].0@);
        assert(keys.to_set().contains(keys[j as int]));
        assert(ids.contains_key(keys[j as int]));
        if let Some(id) = lookup_id(&trie, &mut agent, entries[j].0.as_slice()) {
            table[id] = entries[j].1;
        }
        assert(views.take(j + 1).drop_last() == views.take(j as int));
        j = j + 1;
    }
    assert(views.take(j as int) == views);
    let image: Vec<u8> = match write_trie(&trie) {
        Ok(image) => image,
        Err(_) => Vec::new(),
    };
    let out: Vec<u8> = marisa_section(image.as_slice(), table.as_slice());
    proof {
        reveal(is_section_with);
        reveal(is_marisa_section);
        assert(is_section_with(views, out@, trie));
    }
    out
}

/// A value is found in the table under the number of its key, unless a later entry has the key
/// too.
pub proof fn law_value_table_lookup(
    entries: Seq<(Seq<u8>, u32)>,
    ids: Map<Seq<u8>, nat>,
    n: nat,
    i: int,
)
    requires
        ids.is_injective(),
        forall|j: int|
            0 <= j < entries.len() ==> ids.contains_key((#[trigger] entries[j]).0)
                && ids[entries[j].0] < n,
        0 <= i < entries.len(),
        forall|j: int| i < j < entries.len() ==> (#[trigger] entries[j]).0 != entries[i].0,
    ensures
        value_table(entries, ids, n).len() == n,
        value_table(entries, ids, n)[ids[entries[i].0] as int] == entries[i].1,
    decreases entries.len(),
{
    let rest = entries.drop_last();
    assert(forall|j: int| 0 <= j < rest.len() ==> #[trigger] rest[j] == entries[j]);
    assert(forall|j: int| 0 <= j < rest.len() ==> ids.contains_key((#[trigger] rest[j]).0)
        && ids[rest[j].0] < n);
    lemma_value_table_len(entries, ids, n);
    lemma_value_table_len(rest, ids, n);
    if i < entries.len() - 1 {
        law_value_table_lookup(rest, ids, n, i);
        let last = entries[entries.len() - 1].0;
        assert(last != entries[i].0);
        assert(ids.contains_key(last) && ids.contains_key(entries[i].0));
        assert(ids[last] != ids[entries[i].0]);
    }
}

/// Whether `bytes` hold a trie that has the key, and the value at the place that the trie's number
/// for the key gives.
#[verifier::opaque]
pub open spec fn section_answers(trie: Trie, bytes: Seq<u8>, key: Seq<u8>, value: u32) -> bool {
    let image = trie_image(trie);
    let place = 8 + image.len() + 4 * trie_ids(trie)[key];
    &&& trie_ids(trie).contains_key(key)
    &&& 4 + image.len() <= bytes.len()
    &&& bytes.subrange(4, 4int + image.len()) == image
    &&& place + 4 <= bytes.len()
    &&& u32_at(bytes, place as int) == value
}

/// What is found through the trie of a section.
pub proof fn lemma_section_answers(
    entries: Seq<(Seq<u8>, u32)>,
    bytes: Seq<u8>,
    trie: Trie,
    i: int,
)
    requires
        is_section_with(entries, bytes, trie),
        0 <= i < entries.len(),
        forall|j: int| i < j < entries.len() ==> (#[trigger] entries[j]).0 != entries[i].0,
    ensures
        section_answers(trie, bytes, entries[i].0, entries[i].1),
{
    reveal(is_section_with);
    reveal(section_answers);
    let keys = entry_keys(entries);
    let ids = marisa_ids(keys);
    let n = ids.dom().len();
    let table = value_table(entries, ids, n);
    let image = trie_image(trie);
    assert forall|j: int| 0 <= j < entries.len() implies ids.contains_key(
        (#[trigger] entries[j]).0,
    ) && ids[entries[j].0] < n by {
        assert(keys[j] == entries[j].0);
        assert(keys.to_set().contains(keys[j]));
    }
    law_value_table_lookup(entries, ids, n, i);
    let head = le32(image.len() as int) + image + le32(table.len() as int);
    assert(bytes =~= head + le32s(table) + Seq::<u8>::empty());
    law_le32s_read_back(table, head, Seq::<u8>::empty(), ids[entries[i].0] as int);
    lemma_le32s_len(table);
    assert(bytes.subrange(4, 4int + image.len()) =~= image);
}

/// The trie of a section has no other keys.
pub proof fn lemma_section_keys(
    entries: Seq<(Seq<u8>, u32)>,
    bytes: Seq<u8>,
    trie: Trie,
    key: Seq<u8>,
)
    requires
        is_section_with(entries, bytes, trie),
    ensures
        trie_ids(trie).contains_key(key) <==> entry_keys(entries).contains(key),
{
    reveal(is_section_with);
    assert(entry_keys(entries).to_set().contains(key) <==> entry_keys(entries).contains(key));
}

/// A trie section can be searched: it holds a trie of the keys, and the value of each key stands
/// at the place that the trie's number for the key gives. Of equal keys the last one counts.
pub proof fn law_section_lookup(entries: Seq<(Seq<u8>, u32)>, bytes: Seq<u8>, i: int)
    requires
        is_marisa_section(entries, bytes),
        0 <= i < entries.len(),
        forall|j: int| i < j < entries.len() ==> (#[trigger] entries[j]).0 != entries[i].0,
    ensures
        exists|trie: Trie| section_answers(trie, bytes, entries[i].0, entries[i].1),
{
    reveal(is_marisa_section);
    let trie = choose|trie: Trie| is_section_with(entries, bytes, trie);
    lemma_section_answers(entries, bytes, trie, i);
}

/// The table has a place for each number.
proof fn lemma_value_table_len(entries: Seq<(Seq<u8>, u32)>, ids: Map<Seq<u8>, nat>, n: nat)
    requires
        forall|j: int| 0 <= j < entries.len() ==> ids[(#[trigger] entries[j]).0] < n,
    ensures
        value_table(entries, ids, n).len() == n,
    decreases entries.len(),
{
    if entries.len() > 0 {
        let rest = entries.drop_last();
        assert(forall|j: int| 0 <= j < rest.len() ==> #[trigger] rest[j] == entries[j]);
        assert(ids[entries[entries.len() - 1].0] < n);
        lemma_value_table_len(rest, ids, n);
    }
}

/// A trie section is the size of the trie, the trie, the number of values and the values, four
/// bytes each, without a gap; of the size and the number the 32 low bits are written.
pub proof fn law_section_parts(image: Seq<u8>, table: Seq<u32>, i: int)
    ensures
        ({
            let bytes = section_bytes(image, table);
            &&& bytes.len() == 8 + image.len() + 4 * table.len()
            &&& u32_at(bytes, 0) == image.len() as int % 0x1_0000_0000
            &&& bytes.subrange(4, 4int + image.len()) == image
            &&& u32_at(bytes, 4int + image.len()) == table.len() as int % 0x1_0000_0000
            &&& 0 <= i < table.len() ==> u32_at(bytes, 8int + image.len() + 4 * i) == table[i]
        }),
{
    let bytes = section_bytes(image, table);
    let size = le32(image.len() as int);
    let count = le32(table.len() as int);
    let none = Seq::<u8>::empty();
    lemma_le32s_len(table);
    assert(bytes =~= none + size + (image + count + le32s(table)));
    law_le32_reads_back(image.len() as int, none, image + count + le32s(table));
    assert(bytes =~= (size + image) + count + le32s(table));
    law_le32_reads_back(table.len() as int, size + image, le32s(table));
    assert(bytes.subrange(4, 4int + image.len()) =~= image);
    assert(bytes =~= (size + image + count) + le32s(table) + none);
    if 0 <= i < table.len() {
        law_le32s_read_back(table, size + image + count, none, i);
    }
}

/// Whether `bytes` hold at `start` a trie, with its size before it and the number of its keys after
/// it, and nothing but the values of its keys up to `end`.
#[verifier::opaque]
pub open spec fn section_spans(trie: Trie, bytes: Seq<u8>, start: int, end: int) -> bool {
    let image = trie_image(trie);
    let num_keys = trie_ids(trie).dom().len();
    &&& 0 <= start
    &&& end == start + 8 + image.len() + 4 * num_keys
    &&& end <= bytes.len()
    &&& u32_at(bytes, start) == image.len() as int % 0x1_0000_0000
    &&& bytes.subrange(start + 4, start + 4 + image.len()) == image
    &&& u32_at(bytes, start + 4 + image.len()) == num_keys as int % 0x1_0000_0000
}

/// The trie of a section spans it.
pub proof fn lemma_section_spans(entries: Seq<(Seq<u8>, u32)>, bytes: Seq<u8>, trie: Trie)
    requires
        is_section_with(entries, bytes, trie),
    ensures
        section_spans(trie, bytes, 0, bytes.len() as int),
{
    reveal(is_section_with);
    reveal(section_spans);
    let keys = entry_keys(entries);
    let ids = marisa_ids(keys);
    let table = value_table(entries, ids, ids.dom().len());
    assert forall|j: int| 0 <= j < entries.len() implies ids[(#[trigger] entries[j]).0]
        < ids.dom().len() by {
        assert(keys[j] == entries[j].0);
        assert(keys.to_set().contains(keys[j]));
    }
    lemma_value_table_len(entries, ids, ids.dom().len());
    law_section_parts(trie_image(trie), table, 0);
}

/// A trie that spans a section spans it within other bytes too.
pub proof fn lemma_spans_within(trie: Trie, bytes: Seq<u8>, section: Seq<u8>, start: int)
    requires
        section_spans(trie, section, 0, section.len() as int),
        0 <= start,
        start + section.len() <= bytes.len(),
        bytes.subrange(start, start + section.len()) == section,
    ensures
        section_spans(trie, bytes, start, start + section.len()),
{
    reveal(section_spans);
    let image = trie_image(trie);
    lemma_u32_within(bytes, section, start, 0);
    lemma_u32_within(bytes, section, start, 4int + image.len());
    assert(bytes.subrange(start + 4, start + 4 + image.len()) =~= section.subrange(
        4,
        4int + image.len(),
    ));
}

/// A trie section holds one trie with all of its keys: the trie has the keys of the entries and no
/// others, the section says how large the trie is and how many keys it has, and each key leads to
/// the value of the last entry that has it.
pub proof fn law_section_complete(entries: Seq<(Seq<u8>, u32)>, bytes: Seq<u8>)
    requires
        is_marisa_section(entries, bytes),
    ensures
        exists|trie: Trie|
            {
                &&& #[trigger] section_spans(trie, bytes, 0, bytes.len() as int)
                &&& forall|key: Seq<u8>|
                    trie_ids(trie).contains_key(key) <==> exists|i: int|
                        0 <= i < entries.len() && (#[trigger] entries[i]).0 == key
                &&& forall|i: int|
                    0 <= i < entries.len() && (forall|j: int|
                        i < j < entries.len() ==> (#[trigger] entries[j]).0 != entries[i].0)
                        ==> section_answers(
                        trie,
                        bytes,
                        (#[trigger] entries[i]).0,
                        entries[i].1,
                    )
            },
{
    reveal(is_marisa_section);
    let trie = choose|trie: Trie| is_section_with(entries, bytes, trie);
    lemma_section_spans(entries, bytes, trie);
    assert forall|key: Seq<u8>|
        trie_ids(trie).contains_key(key) <==> exists|i: int|
            0 <= i < entries.len() && (#[trigger] entries[i]).0 == key by {
        lemma_section_keys(entries, bytes, trie, key);
        let keys = entry_keys(entries);
        if keys.contains(key) {
            let i = choose|i: int| 0 <= i < keys.len() && keys[i] == key;
            assert(entries[i].0 == key);
        }
        if exists|i: int| 0 <= i < entries.len() && (#[trigger] entries[i]).0 == key {
            let i = choose|i: int| 0 <= i < entries.len() && (#[trigger] entries[i]).0 == key;
            assert(keys[i] == key);
        }
    }
    assert forall|i: int|
        0 <= i < entries.len() && (forall|j: int|
            i < j < entries.len() ==> (#[trigger] entries[j]).0 != entries[i].0) implies
        section_answers(trie, bytes, (#[trigger] entries[i]).0, entries[i].1) by {
        lemma_section_answers(entries, bytes, trie, i);
    }
}

/// Keys are left out exactly where they are too many, have too many beginnings, or where an empty
/// one comes before each key of 1 to 1024 bytes.
pub proof fn law_keys_fit(keys: Seq<Seq<u8>>)
    ensures
        keys_fit(keys) <==> {
            &&& keys.len() < 0x1_0000_0000
            &&& prefixes(keys).len() <= 2147483645
            &&& forall|i: int|
                0 <= i < keys.len() && (#[trigger] keys[i]).len() == 0 ==> exists|j: int|
                    0 <= j < i && 0 < (#[trigger] keys[j]).len() <= 1024
        },
{
    if keys_fit(keys) {
        assert forall|i: int| 0 <= i < keys.len() && (#[trigger] keys[i]).len() == 0 implies exists|
            j: int,
        | 0 <= j < i && 0 < (#[trigger] keys[j]).len() <= 1024 by {
            assert(can_follow(keys.take(i), keys[i]));
            let j = choose|j: int|
                0 <= j < keys.take(i).len() && 0 < (#[trigger] keys.take(i)[j]).len() <= 1024;
            assert(keys[j] == keys.take(i)[j]);
        }
    }
    if keys.len() < 0x1_0000_0000 && prefixes(keys).len() <= 2147483645 && forall|i: int|
        0 <= i < keys.len() && (#[trigger] keys[i]).len() == 0 ==> exists|j: int|
            0 <= j < i && 0 < (#[trigger] keys[j]).len() <= 1024 {
        assert forall|i: int| 0 <= i < keys.len() implies can_follow(
            keys.take(i),
            #[trigger] keys[i],
        ) by {
            if keys[i].len() == 0 {
                let j = choose|j: int| 0 <= j < i && 0 < (#[trigger] keys[j]).len() <= 1024;
                assert(keys.take(i)[j] == keys[j]);
            }
        }
    }
}

/// The keys and values of entries are their own.
pub proof fn law_entry_contents(entries: Seq<(Vec<u8>, u32)>, i: int)
    requires
        0 <= i < entries.len(),
    ensures
        entry_views(entries).len() == entries.len(),
        entry_views(entries)[i].0 == entries[i].0@,
        entry_views(entries)[i].1 == entries[i].1,
        entry_keys(entry_views(entries)).len() == entries.len(),
        entry_keys(entry_views(entries))[i] == entries[i].0@,
{
}

/// What it means that a section spans bytes, and that it answers: the size of the trie, the trie
/// and the number of its keys stand at the start, and after them the values by the number that the
/// trie gives a key.
pub proof fn law_section_reads(
    trie: Trie,
    bytes: Seq<u8>,
    start: int,
    end: int,
    key: Seq<u8>,
    value: u32,
)
    ensures
        section_spans(trie, bytes, start, end) ==> {
            let size = trie_image(trie).len();
            &&& 0 <= start
            &&& end == start + 8 + size + 4 * trie_ids(trie).dom().len()
            &&& end <= bytes.len()
            &&& u32_at(bytes, start) == size as int % 0x1_0000_0000
            &&& bytes.subrange(start + 4, start + 4 + size) == trie_image(trie)
            &&& u32_at(bytes, start + 4 + size) == trie_ids(trie).dom().len() as int
                % 0x1_0000_0000
        },
        section_answers(trie, bytes, key, value) ==> {
            let size = trie_image(trie).len();
            let at = 8int + size + 4 * trie_ids(trie)[key];
            &&& trie_ids(trie).contains_key(key)
            &&& at + 4 <= bytes.len()
            &&& u32_at(bytes, at) == value
        },
{
    reveal(section_spans);
    reveal(section_answers);
}

} // verus!
