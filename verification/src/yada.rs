//! YADA double-array tries.
//!
//! A trie is an array of units of 32 bits. Each node has a position in the array, and the children
//! of a node stand at the positions that differ from the node's offset position by the byte that
//! leads to them. A unit tells the byte that leads to it, where its own children are, and whether
//! a key ends there; the value of a key is another unit.

use crate::bytes::{read_u32_le, u32_at};
use crate::marisa::entry_views;
use crate::order::{lemma_lex_irreflexive, lemma_lex_transitive, lex_lt, parts_below};
use vstd::prelude::*;
use vstd::slice::slice_to_vec;

verus! {

/// The label of a unit: the byte that leads to it, and in the top bit whether it is a value.
pub open spec fn label(unit: u32) -> int {
    unit as int % 0x100 + if unit >= 0x8000_0000 {
        0x8000_0000int
    } else {
        0
    }
}

/// Whether a key ends at a unit.
pub open spec fn has_leaf(unit: u32) -> bool {
    unit as int / 0x100 % 2 == 1
}

/// The distance from a unit to its children. Far ones are counted in steps of 256.
pub open spec fn offset(unit: u32) -> int {
    if unit as int / 0x200 % 2 == 1 {
        unit as int / 0x400 * 0x100
    } else {
        unit as int / 0x400
    }
}

/// The value of a unit that is one.
pub open spec fn value(unit: u32) -> int {
    unit as int % 0x8000_0000
}

/// The label of a unit.
pub fn yada_label(unit: u32) -> (r: u32)
    ensures
        r == label(unit),
{
    assert(unit & ((1u32 << 31) | 0xFF) == unit % 0x100 + (if unit >= 0x8000_0000 {
        0x8000_0000u32
    } else {
        0
    })) by (bit_vector);
    unit & ((1u32 << 31) | 0xFF)
}

/// Whether a key ends at a unit.
pub fn yada_has_leaf(unit: u32) -> (r: bool)
    ensures
        r == has_leaf(unit),
{
    assert((unit >> 8) & 1 == unit / 0x100 % 2) by (bit_vector);
    ((unit >> 8) & 1) == 1
}

/// The distance from a unit to its children.
pub fn yada_offset(unit: u32) -> (r: u32)
    ensures
        r == offset(unit),
{
    assert((unit & (1u32 << 9)) >> 6 == (if unit / 0x200 % 2 == 1 {
        8u32
    } else {
        0
    })) by (bit_vector);
    assert((unit >> 10) << 0u32 == unit / 0x400) by (bit_vector);
    assert((unit >> 10) << 8u32 == unit / 0x400 * 0x100) by (bit_vector);
    (unit >> 10) << ((unit & (1u32 << 9)) >> 6)
}

/// The value of a unit that is one.
pub fn yada_value(unit: u32) -> (r: u32)
    ensures
        r == value(unit),
{
    assert(unit & 0x7FFF_FFFF == unit % 0x8000_0000) by (bit_vector);
    assert((1u32 << 31) == 0x8000_0000) by (bit_vector);
    unit & ((1u32 << 31) - 1)
}

/// Whether the trie in a buffer is within it: its size, and so many units.
pub open spec fn yada_fits(buf: Seq<u8>, offset: int) -> bool {
    offset + 4 <= buf.len() && offset + 4 + 4 * u32_at(buf, offset) <= buf.len()
}

/// The units of the trie in a buffer.
pub open spec fn yada_units(buf: Seq<u8>, offset: int) -> Seq<u32> {
    Seq::new(u32_at(buf, offset) as nat, |i: int| u32_at(buf, offset + 4 + 4 * i) as u32)
}

/// Reads a trie. Returns its units and where it ends.
pub fn parse_yada_array(buf: &[u8], offset: usize) -> (r: (Vec<u32>, usize))
    requires
        offset + 4 <= buf.len(),
        yada_fits(buf@, offset as int),
    ensures
        r.0@ == yada_units(buf@, offset as int),
        r.1 == offset + 4 + 4 * u32_at(buf@, offset as int),
{
    let trie_size: usize = read_u32_le(buf, offset) as usize;
    assert(offset + 4 + 4 * trie_size <= buf.len());
    let data_start: usize = offset + 4;
    let data_end: usize = data_start + trie_size * 4;
    let mut array: Vec<u32> = Vec::new();
    let mut i: usize = 0;
    while i < trie_size
        invariant
            i <= trie_size,
            data_start == offset + 4,
            data_start + 4 * trie_size <= buf.len(),
            array@.len() == i,
            forall|j: int| 0 <= j < i ==> #[trigger] array@[j] == u32_at(buf@, offset + 4 + 4 * j),
        decreases trie_size - i,
    {
        array.push(read_u32_le(buf, data_start + i * 4));
        i = i + 1;
    }
    assert(array@ =~= yada_units(buf@, offset as int));
    (array, data_end)
}

/// Where the child of a node stands that the byte `k` leads to, if there is one.
pub open spec fn child(node: usize, k: u8) -> usize {
    node ^ (k as usize)
}

/// Whether the byte `k` leads to a child of a node.
pub open spec fn has_child(array: Seq<u32>, node: usize, k: u8) -> bool {
    child(node, k) < array.len() && label(array[child(node, k) as int]) == k
}

/// The node that the unit at a position leads to.
pub open spec fn node_of(array: Seq<u32>, at: usize) -> usize {
    at ^ (offset(array[at as int]) as usize)
}

/// The node that the byte `k` leads to.
pub open spec fn next(array: Seq<u32>, node: usize, k: u8) -> usize {
    node_of(array, child(node, k))
}

/// The value of the key that ends with the byte `k` at a node.
pub open spec fn leaf(array: Seq<u32>, node: usize, k: u8) -> Option<u32> {
    let unit = array[child(node, k) as int];
    let at = next(array, node, k);
    if has_leaf(unit) && at < array.len() {
        Some(value(array[at as int]) as u32)
    } else {
        None
    }
}

/// The value of a key, followed byte by byte from a node. The empty key has none.
pub open spec fn lookup(array: Seq<u32>, node: usize, key: Seq<u8>) -> Option<u32>
    decreases key.len(),
{
    if key.len() == 0 || !has_child(array, node, key[0]) {
        None
    } else if key.len() == 1 {
        leaf(array, node, key[0])
    } else {
        lookup(array, next(array, node, key[0]), key.drop_first())
    }
}

/// The node at which a trie starts.
pub open spec fn root(array: Seq<u32>) -> usize {
    offset(array[0]) as usize
}

/// Whether paths from a node have at most `depth` bytes.
pub open spec fn bounded(array: Seq<u32>, node: usize, depth: nat) -> bool
    decreases depth,
{
    forall|k: u8| #[trigger]
        has_child(array, node, k) ==> depth > 0 && bounded(
            array,
            next(array, node, k),
            (depth - 1) as nat,
        )
}

/// Whether paths from a node come to an end.
pub open spec fn finite(array: Seq<u32>, node: usize) -> bool {
    exists|depth: nat| bounded(array, node, depth)
}

/// Whether the paths of a trie come to an end.
pub open spec fn finite_trie(array: Seq<u32>) -> bool {
    array.len() == 0 || finite(array, root(array))
}

/// Whether `depth` is the length of the longest path from a node.
spec fn is_height(array: Seq<u32>, node: usize, depth: nat) -> bool {
    bounded(array, node, depth) && forall|d: nat| d < depth ==> !bounded(array, node, d)
}

/// The length of the longest path from a node.
pub closed spec fn height(array: Seq<u32>, node: usize) -> nat {
    choose|depth: nat| is_height(array, node, depth)
}

/// Finds the length of the longest path, given a bound on it.
proof fn lemma_some_height(array: Seq<u32>, node: usize, from: nat, depth: nat)
    requires
        from <= depth,
        bounded(array, node, depth),
        forall|d: nat| d < from ==> !bounded(array, node, d),
    ensures
        is_height(array, node, height(array, node)),
        height(array, node) <= depth,
    decreases depth - from,
{
    if bounded(array, node, from) {
        assert(is_height(array, node, from));
        let h = height(array, node);
        assert(is_height(array, node, h));
        if depth < h {
            assert(!bounded(array, node, depth));
        }
    } else {
        lemma_some_height(array, node, from + 1, depth);
    }
}

/// From a child the paths are shorter.
proof fn lemma_child_lower(array: Seq<u32>, node: usize, k: u8)
    requires
        finite(array, node),
        has_child(array, node, k),
    ensures
        finite(array, next(array, node, k)),
        height(array, next(array, node, k)) < height(array, node),
{
    let depth = choose|depth: nat| bounded(array, node, depth);
    lemma_some_height(array, node, 0, depth);
    let h = height(array, node);
    assert(h > 0 && bounded(array, next(array, node, k), (h - 1) as nat));
    lemma_some_height(array, next(array, node, k), 0, (h - 1) as nat);
}

/// A bound stays one when it is raised.
proof fn lemma_bounded_grows(array: Seq<u32>, node: usize, low: nat, high: nat)
    requires
        bounded(array, node, low),
        low <= high,
    ensures
        bounded(array, node, high),
    decreases low,
{
    assert forall|k: u8| #[trigger] has_child(array, node, k) implies high > 0 && bounded(
        array,
        next(array, node, k),
        (high - 1) as nat,
    ) by {
        lemma_bounded_grows(array, next(array, node, k), (low - 1) as nat, (high - 1) as nat);
    }
}

/// Whether keys come in ascending order, none twice.
pub open spec fn ascending(entries: Seq<(Seq<u8>, u32)>) -> bool {
    forall|i: int, j: int|
        0 <= i < j < entries.len() ==> lex_lt((#[trigger] entries[i]).0, (#[trigger] entries[j]).0)
}

/// Whether `entries` lists each key below a node with its value, in ascending order.
pub open spec fn is_listing(array: Seq<u32>, node: usize, entries: Seq<(Seq<u8>, u32)>) -> bool {
    &&& ascending(entries)
    &&& forall|i: int|
        0 <= i < entries.len() ==> lookup(array, node, (#[trigger] entries[i]).0) == Some(
            entries[i].1,
        )
    &&& forall|key: Seq<u8>|
        (#[trigger] lookup(array, node, key)) matches Some(v) ==> entries.contains((key, v))
}

/// Each key below a node with its value, in ascending order.
pub open spec fn entries_below(array: Seq<u32>, node: usize) -> Seq<(Seq<u8>, u32)> {
    choose|entries: Seq<(Seq<u8>, u32)>| is_listing(array, node, entries)
}

/// The keys of a trie with their values, in ascending order.
pub open spec fn yada_entries(array: Seq<u32>) -> Seq<(Seq<u8>, u32)> {
    if array.len() == 0 {
        Seq::empty()
    } else {
        entries_below(array, root(array))
    }
}

/// Up to an entry, two listings of the same keys agree.
proof fn lemma_listings_agree(
    array: Seq<u32>,
    node: usize,
    a: Seq<(Seq<u8>, u32)>,
    b: Seq<(Seq<u8>, u32)>,
    i: int,
)
    requires
        is_listing(array, node, a),
        is_listing(array, node, b),
        0 <= i < a.len(),
    ensures
        i < b.len(),
        a[i] == b[i],
    decreases i,
{
    if i > 0 {
        lemma_listings_agree(array, node, a, b, i - 1);
    }
    assert(lookup(array, node, a[i].0) == Some(a[i].1));
    assert(b.contains(a[i]));
    let y = choose|y: int| 0 <= y < b.len() && b[y] == a[i];
    lemma_lex_irreflexive(a[i].0);
    if y < i {
        lemma_listings_agree(array, node, a, b, y);
        assert(lex_lt(a[y].0, a[i].0));
    }
    if i < y {
        assert(lookup(array, node, b[i].0) == Some(b[i].1));
        assert(a.contains(b[i]));
        let x = choose|x: int| 0 <= x < a.len() && a[x] == b[i];
        lemma_lex_irreflexive(b[i].0);
        if x < i {
            lemma_listings_agree(array, node, a, b, x);
            assert(lex_lt(b[x].0, b[i].0));
        } else if i < x {
            assert(lex_lt(a[i].0, a[x].0));
            assert(lex_lt(b[i].0, b[y].0));
            lemma_lex_transitive(a[i].0, a[x].0, a[i].0);
        } else {
            assert(lex_lt(b[i].0, b[y].0));
        }
    }
}

/// The keys below a node are listed in one way only.
pub proof fn law_listing_unique(
    array: Seq<u32>,
    node: usize,
    a: Seq<(Seq<u8>, u32)>,
    b: Seq<(Seq<u8>, u32)>,
)
    requires
        is_listing(array, node, a),
        is_listing(array, node, b),
    ensures
        a == b,
{
    if a.len() > 0 {
        lemma_listings_agree(array, node, a, b, a.len() - 1);
    }
    if b.len() > 0 {
        lemma_listings_agree(array, node, b, a, b.len() - 1);
    }
    assert forall|i: int| 0 <= i < a.len() implies a[i] == b[i] by {
        lemma_listings_agree(array, node, a, b, i);
    }
    assert(a =~= b);
}

/// Some keys below a node, those that start with a byte less than `k`, can be listed.
proof fn lemma_part_exists(array: Seq<u32>, node: usize, k: nat) -> (entries: Seq<(Seq<u8>, u32)>)
    requires
        finite(array, node),
        k <= 256,
    ensures
        is_part(array, node, k as int, entries),
    decreases height(array, node), k,
{
    if k == 0 {
        Seq::empty()
    } else {
        let byte = (k - 1) as u8;
        let before = lemma_part_exists(array, node, (k - 1) as nat);
        if has_child(array, node, byte) {
            lemma_child_lower(array, node, byte);
            let below = lemma_part_exists(array, next(array, node, byte), 256);
            assert(is_listing(array, next(array, node, byte), below));
            lemma_add_child(array, node, byte, before, below);
            before + child_entries(array, node, byte, below)
        } else {
            lemma_no_child(array, node, byte, before);
            before
        }
    }
}

/// Where paths come to an end, the keys below a node can be listed.
pub proof fn law_listing_exists(array: Seq<u32>, node: usize)
    requires
        finite(array, node),
    ensures
        is_listing(array, node, entries_below(array, node)),
{
    let entries = lemma_part_exists(array, node, 256);
    assert(is_listing(array, node, entries));
}

/// Entries with a path put before each key.
pub open spec fn prefixed(path: Seq<u8>, entries: Seq<(Seq<u8>, u32)>) -> Seq<(Seq<u8>, u32)> {
    entries.map_values(|entry: (Seq<u8>, u32)| (path + entry.0, entry.1))
}

/// Whether `entries` lists the keys below a node that start with a byte less than `k`.
spec fn is_part(array: Seq<u32>, node: usize, k: int, entries: Seq<(Seq<u8>, u32)>) -> bool {
    &&& ascending(entries)
    &&& forall|i: int|
        0 <= i < entries.len() ==> lookup(array, node, (#[trigger] entries[i]).0) == Some(
            entries[i].1,
        ) && entries[i].0[0] < k
    &&& forall|key: Seq<u8>|
        (#[trigger] lookup(array, node, key)) matches Some(v) ==> key[0] < k ==> entries.contains(
            (key, v),
        )
}

/// Without a child there is nothing to list.
proof fn lemma_no_child(array: Seq<u32>, node: usize, k: u8, entries: Seq<(Seq<u8>, u32)>)
    requires
        is_part(array, node, k as int, entries),
        !has_child(array, node, k),
    ensures
        is_part(array, node, k + 1, entries),
{
}

/// The entries that a child adds: its own, and those below it.
spec fn child_entries(array: Seq<u32>, node: usize, k: u8, below: Seq<(Seq<u8>, u32)>) -> Seq<
    (Seq<u8>, u32),
> {
    match leaf(array, node, k) {
        Some(v) => seq![(seq![k], v)] + prefixed(seq![k], below),
        None => prefixed(seq![k], below),
    }
}

/// Two keys that start with the same byte compare by the rest.
proof fn lemma_lex_after_byte(k: u8, a: Seq<u8>, b: Seq<u8>)
    requires
        lex_lt(a, b),
    ensures
        lex_lt(seq![k] + a, seq![k] + b),
{
    let p = choose|p: int| parts_below(a, b, p);
    let x = seq![k] + a;
    let y = seq![k] + b;
    assert(x.take(p + 1) =~= seq![k] + a.take(p));
    assert(y.take(p + 1) =~= seq![k] + b.take(p));
    assert(parts_below(x, y, p + 1));
}

/// A key that starts with a smaller byte comes before.
proof fn lemma_lex_first_byte(a: Seq<u8>, b: Seq<u8>)
    requires
        a.len() > 0,
        b.len() > 0,
        a[0] < b[0],
    ensures
        lex_lt(a, b),
{
    assert(a.take(0) =~= b.take(0));
    assert(parts_below(a, b, 0));
}

/// A byte comes before any longer key that starts with it.
proof fn lemma_lex_byte_alone(k: u8, rest: Seq<u8>)
    requires
        rest.len() > 0,
    ensures
        lex_lt(seq![k], seq![k] + rest),
{
    let longer = seq![k] + rest;
    assert(seq![k].take(1) =~= longer.take(1));
    assert(parts_below(seq![k], longer, 1));
}

/// What a child adds is in ascending order, and each key of it is found.
proof fn lemma_child_entries(
    array: Seq<u32>,
    node: usize,
    k: u8,
    below: Seq<(Seq<u8>, u32)>,
)
    requires
        has_child(array, node, k),
        is_listing(array, next(array, node, k), below),
    ensures
        ascending(child_entries(array, node, k, below)),
        forall|i: int|
            0 <= i < child_entries(array, node, k, below).len() ==> {
                let entry = #[trigger] child_entries(array, node, k, below)[i];
                lookup(array, node, entry.0) == Some(entry.1) && entry.0.len() > 0 && entry.0[0]
                    == k
            },
{
    let added = child_entries(array, node, k, below);
    let tail = prefixed(seq![k], below);
    let shift = added.len() - tail.len();
    assert forall|i: int| 0 <= i < tail.len() implies {
        let entry = #[trigger] tail[i];
        lookup(array, node, entry.0) == Some(entry.1) && entry.0.len() > 1 && entry.0[0] == k
            && entry.0 == seq![k] + below[i].0
    } by {
        let rest = below[i].0;
        assert(lookup(array, next(array, node, k), rest) == Some(below[i].1));
        assert((seq![k] + rest).drop_first() =~= rest);
    }
    assert forall|i: int, j: int| 0 <= i < j < added.len() implies lex_lt(
        (#[trigger] added[i]).0,
        (#[trigger] added[j]).0,
    ) by {
        let y = tail[j - shift];
        assert(added[j] == y);
        if i < shift {
            lemma_lex_byte_alone(k, below[j - shift].0);
        } else {
            assert(added[i] == tail[i - shift]);
            assert(lex_lt(below[i - shift].0, below[j - shift].0));
            lemma_lex_after_byte(k, below[i - shift].0, below[j - shift].0);
        }
    }
    assert forall|i: int| 0 <= i < added.len() implies {
        let entry = #[trigger] added[i];
        lookup(array, node, entry.0) == Some(entry.1) && entry.0.len() > 0 && entry.0[0] == k
    } by {
        if i >= shift {
            assert(added[i] == tail[i - shift]);
        }
    }
}

/// Adding what a child adds.
proof fn lemma_add_child(
    array: Seq<u32>,
    node: usize,
    k: u8,
    entries: Seq<(Seq<u8>, u32)>,
    below: Seq<(Seq<u8>, u32)>,
)
    requires
        is_part(array, node, k as int, entries),
        has_child(array, node, k),
        is_listing(array, next(array, node, k), below),
    ensures
        is_part(array, node, k + 1, entries + child_entries(array, node, k, below)),
{
    lemma_child_entries(array, node, k, below);
    let added = child_entries(array, node, k, below);
    let all = entries + added;
    let n = entries.len() as int;
    assert forall|i: int| 0 <= i < all.len() implies {
        let entry = #[trigger] all[i];
        lookup(array, node, entry.0) == Some(entry.1) && entry.0[0] < k + 1 && entry.0.len() > 0
    } by {
        if i < n {
            assert(all[i] == entries[i]);
        } else {
            assert(all[i] == added[i - n]);
        }
    }
    assert forall|i: int, j: int| 0 <= i < j < all.len() implies lex_lt(
        (#[trigger] all[i]).0,
        (#[trigger] all[j]).0,
    ) by {
        if j < n {
            assert(lex_lt(entries[i].0, entries[j].0));
        } else if i < n {
            assert(all[i] == entries[i] && all[j] == added[j - n]);
            lemma_lex_first_byte(all[i].0, all[j].0);
        } else {
            assert(lex_lt(added[i - n].0, added[j - n].0));
        }
    }
    assert forall|key: Seq<u8>|
        (#[trigger] lookup(array, node, key)) is Some && key[0] < k + 1 implies all.contains(
        (key, lookup(array, node, key)->0),
    ) by {
        let v = lookup(array, node, key)->0;
        if key[0] < k {
            assert(entries.contains((key, v)));
            let i = choose|i: int| 0 <= i < entries.len() && entries[i] == (key, v);
            assert(all[i] == (key, v));
        } else if key.len() == 1 {
            assert(key =~= seq![k]);
            assert(added[0] == (key, v));
            assert(all[n] == (key, v));
        } else {
            let rest = key.drop_first();
            assert(lookup(array, next(array, node, k), rest) == Some(v));
            assert(below.contains((rest, v)));
            let i = choose|i: int| 0 <= i < below.len() && below[i] == (rest, v);
            assert(key =~= seq![k] + rest);
            let tail = prefixed(seq![k], below);
            assert(tail[i] == (key, v));
            let shift = added.len() - tail.len();
            assert(added[shift + i] == tail[i]);
            assert(all[n + shift + i] == (key, v));
        }
    }
}

/// A path before what a child adds is the longer path before the entries of the child.
proof fn lemma_prefix_child(
    array: Seq<u32>,
    node: usize,
    k: u8,
    path: Seq<u8>,
    below: Seq<(Seq<u8>, u32)>,
)
    ensures
        prefixed(path, child_entries(array, node, k, below)) == (match leaf(array, node, k) {
            Some(v) => seq![(path.push(k), v)],
            None => Seq::empty(),
        }) + prefixed(path.push(k), below),
{
    let tail = prefixed(path.push(k), below);
    let moved = prefixed(path, prefixed(seq![k], below));
    assert forall|i: int| 0 <= i < below.len() implies moved[i] == tail[i] by {
        assert(path + (seq![k] + below[i].0) =~= path.push(k) + below[i].0);
    }
    assert(moved =~= tail);
    assert(path + seq![k] =~= path.push(k));
    let added = child_entries(array, node, k, below);
    assert(prefixed(path, added) =~= (match leaf(array, node, k) {
        Some(v) => seq![(path.push(k), v)],
        None => Seq::empty(),
    }) + moved);
}

/// Collects the keys below a node with their values, in ascending order. `path` is put before
/// each key.
pub fn yada_dfs(
    array: &[u32],
    node_pos: usize,
    path: &mut Vec<u8>,
    results: &mut Vec<(Vec<u8>, u32)>,
)
    requires
        finite(array@, node_pos),
    ensures
        final(path)@ == old(path)@,
        is_listing(array@, node_pos, entries_below(array@, node_pos)),
        entry_views(final(results)@) == entry_views(old(results)@) + prefixed(
            old(path)@,
            entries_below(array@, node_pos),
        ),
    decreases height(array@, node_pos),
{
    let ghost start = entry_views(results@);
    let ghost here = path@;
    let ghost mut found: Seq<(Seq<u8>, u32)> = Seq::empty();
    assert(start + prefixed(here, found) =~= start);
    let mut k: u16 = 0;
    while k < 256
        invariant
            k <= 256,
            finite(array@, node_pos),
            path@ == here,
            is_part(array@, node_pos, k as int, found),
            entry_views(results@) == start + prefixed(here, found),
        decreases 256 - k,
    {
        let byte: u8 = k as u8;
        let child_pos: usize = node_pos ^ (byte as usize);
        if child_pos < array.len() && yada_label(array[child_pos]) == k as u32 {
            let unit: u32 = array[child_pos];
            let new_node_pos: usize = child_pos ^ (yada_offset(unit) as usize);
            assert(has_child(array@, node_pos, byte));
            assert(new_node_pos == next(array@, node_pos, byte));
            let ghost below = entries_below(array@, new_node_pos);
            proof {
                lemma_child_lower(array@, node_pos, byte);
            }
            path.push(byte);
            let ghost before = results@;
            if yada_has_leaf(unit) && new_node_pos < array.len() {
                let val: u32 = yada_value(array[new_node_pos]);
                let key: Vec<u8> = slice_to_vec(path.as_slice());
                results.push((key, val));
                assert(entry_views(results@) =~= entry_views(before).push((here.push(byte), val)));
            }
            yada_dfs(array, new_node_pos, path, results);
            let _ = path.pop();
            proof {
                lemma_add_child(array@, node_pos, byte, found, below);
                lemma_prefix_child(array@, node_pos, byte, here, below);
                let grown = found + child_entries(array@, node_pos, byte, below);
                assert(prefixed(here, grown) =~= prefixed(here, found) + prefixed(
                    here,
                    child_entries(array@, node_pos, byte, below),
                ));
                assert(entry_views(results@) =~= start + prefixed(here, grown));
                assert(path@ =~= here);
                found = grown;
            }
        } else {
            proof {
                lemma_no_child(array@, node_pos, byte, found);
            }
        }
        k = k + 1;
    }
    assert(is_listing(array@, node_pos, found));
    proof {
        law_listing_unique(array@, node_pos, found, entries_below(array@, node_pos));
    }
}

/// The keys of a trie with their values, in ascending order.
pub fn extract_yada_entries(array: &[u32]) -> (results: Vec<(Vec<u8>, u32)>)
    requires
        finite_trie(array@),
    ensures
        entry_views(results@) == yada_entries(array@),
        array@.len() > 0 ==> is_listing(array@, root(array@), yada_entries(array@)),
{
    let mut results: Vec<(Vec<u8>, u32)> = Vec::new();
    assert(entry_views(results@) =~= Seq::empty());
    if array.len() == 0 {
        return results;
    }
    let root_offset: usize = yada_offset(array[0]) as usize;
    let mut path: Vec<u8> = Vec::new();
    yada_dfs(array, root_offset, &mut path, &mut results);
    proof {
        let entries = yada_entries(array@);
        assert(prefixed(Seq::<u8>::empty(), entries) =~= entries) by {
            assert forall|i: int| 0 <= i < entries.len() implies #[trigger] prefixed(
                Seq::<u8>::empty(),
                entries,
            )[i] == entries[i] by {
                assert(Seq::<u8>::empty() + entries[i].0 =~= entries[i].0);
            }
        }
        assert(Seq::<(Seq<u8>, u32)>::empty() + entries =~= entries);
    }
    results
}

/// Whether a byte leads from one node to another.
spec fn leads(array: Seq<u32>, from: usize, to: usize) -> bool {
    exists|k: u8| #[trigger] has_child(array, from, k) && next(array, from, k) == to
}

/// Where paths lead around in a circle, they do not come to an end: each of `nodes` leads to the
/// next, and the last one back to one of them.
proof fn lemma_circle(array: Seq<u32>, nodes: Seq<usize>, back: int, i: int, depth: nat)
    requires
        0 <= back < nodes.len(),
        0 <= i < nodes.len(),
        forall|x: int, y: int|
            0 <= x && y == x + 1 && y < nodes.len() ==> leads(
                array,
                #[trigger] nodes[x],
                #[trigger] nodes[y],
            ),
        leads(array, nodes.last(), nodes[back]),
    ensures
        !bounded(array, nodes[i], depth),
    decreases depth,
{
    if bounded(array, nodes[i], depth) {
        let j = if i + 1 < nodes.len() {
            i + 1
        } else {
            back
        };
        assert(leads(array, nodes[i], nodes[j]));
        let k = choose|k: u8|
            #[trigger] has_child(array, nodes[i], k) && next(array, nodes[i], k) == nodes[j];
        lemma_circle(array, nodes, back, j, (depth - 1) as nat);
    }
}

/// A search through a trie: the nodes on the way from the root, the byte that is to be tried next
/// at each of them, and the position of the unit that led to each (for the root any number).
struct Search {
    nodes: Vec<usize>,
    bytes: Vec<u16>,
    places: Vec<usize>,
    states: Vec<u8>,
}

/// A unit that the search has not come to.
const NEW: u8 = 0;

/// A unit on the way from the root.
const OPEN: u8 = 1;

/// A unit from which all paths were seen to come to an end.
const DONE: u8 = 2;

impl Search {
    /// Whether the parts of a search fit together; `depth` bounds the paths from units that are
    /// done.
    spec fn inv(&self, array: Seq<u32>, depth: nat) -> bool {
        let n = self.nodes@.len();
        &&& n > 0
        &&& self.bytes@.len() == n
        &&& self.places@.len() == n
        &&& self.states@.len() == array.len()
        &&& self.nodes@[0] == root(array)
        &&& forall|at: int| 0 <= at < array.len() ==> #[trigger] self.states@[at] <= DONE
        &&& forall|i: int| 0 <= i < n ==> #[trigger] self.bytes@[i] <= 256
        &&& forall|i: int|
            1 <= i < n ==> {
                let at = #[trigger] self.places@[i];
                at < array.len() && self.states@[at as int] == OPEN && self.nodes@[i] == node_of(
                    array,
                    at,
                )
            }
        &&& forall|x: int, y: int|
            0 <= x && y == x + 1 && y < n ==> leads(
                array,
                #[trigger] self.nodes@[x],
                #[trigger] self.nodes@[y],
            )
        &&& forall|x: int, y: int|
            1 <= x < y < n ==> #[trigger] self.places@[x] != #[trigger] self.places@[y]
        &&& forall|at: int|
            0 <= at < array.len() && #[trigger] self.states@[at] == OPEN ==> exists|i: int|
                1 <= i < n && #[trigger] self.places@[i] == at
        &&& forall|at: int|
            0 <= at < array.len() && #[trigger] self.states@[at] == DONE ==> bounded(
                array,
                node_of(array, at as usize),
                depth,
            )
        &&& forall|i: int, k: u8|
            0 <= i < n && k < self.bytes@[i] && #[trigger] has_child(
                array,
                #[trigger] self.nodes@[i],
                k,
            ) ==> {
                let at = child(self.nodes@[i], k);
                self.states@[at as int] == DONE || i + 1 < n && self.places@[i + 1] == at
            }
    }

    /// The units that the search has come to.
    spec fn seen(&self) -> Set<int> {
        Set::new(|at: int| 0 <= at < self.states@.len() && self.states@[at] != NEW)
    }
}

/// There are no more units that were seen than units.
proof fn lemma_seen_few(search: Search)
    ensures
        search.seen().finite(),
        search.seen().len() <= search.states@.len(),
{
    let all = vstd::set_lib::set_int_range(0, search.states@.len() as int);
    vstd::set_lib::lemma_int_range(0, search.states@.len() as int);
    assert(search.seen().subset_of(all));
    vstd::set_lib::lemma_len_subset(search.seen(), all);
}

/// A node whose children are all done is done.
proof fn lemma_all_done(search: Search, array: Seq<u32>, depth: nat)
    requires
        search.inv(array, depth),
        search.bytes@.last() == 256,
    ensures
        bounded(array, search.nodes@.last(), depth + 1),
{
    let node = search.nodes@.last();
    let i = search.nodes@.len() - 1;
    assert forall|k: u8| #[trigger] has_child(array, node, k) implies depth + 1 > 0 && bounded(
        array,
        next(array, node, k),
        depth,
    ) by {
        assert(has_child(array, search.nodes@[i], k));
        assert(k < search.bytes@[i]);
        assert(search.states@[child(node, k) as int] == DONE);
    }
}

/// The search goes back from a unit that is done.
proof fn lemma_closed(before: Search, after: Search, array: Seq<u32>, depth: nat, at: usize)
    requires
        before.inv(array, depth),
        before.nodes@.len() > 1,
        at == before.places@.last(),
        bounded(array, before.nodes@.last(), depth + 1),
        after.nodes@ == before.nodes@.drop_last(),
        after.bytes@ == before.bytes@.drop_last(),
        after.places@ == before.places@.drop_last(),
        after.states@ == before.states@.update(at as int, DONE),
        at < array.len(),
    ensures
        after.inv(array, depth + 1),
        after.seen() == before.seen(),
{
    let n = before.nodes@.len() as int;
    assert(before.places@[n - 1] == at);
    assert(before.states@[at as int] == OPEN);
    assert(after.seen() =~= before.seen());
    assert forall|i: int| 1 <= i < after.nodes@.len() implies {
        let x = #[trigger] after.places@[i];
        x < array.len() && after.states@[x as int] == OPEN && after.nodes@[i] == node_of(array, x)
    } by {
        assert(before.places@[i] != before.places@[n - 1]);
    }
    assert forall|x: int| 0 <= x < array.len() && #[trigger] after.states@[x]
        == OPEN implies exists|i: int|
        1 <= i < after.nodes@.len() && #[trigger] after.places@[i] == x by {
        assert(before.states@[x] == OPEN);
        let i = choose|i: int| 1 <= i < n && #[trigger] before.places@[i] == x;
        assert(after.places@[i] == x);
    }
    assert forall|x: int| 0 <= x < array.len() && #[trigger] after.states@[x]
        == DONE implies bounded(array, node_of(array, x as usize), depth + 1) by {
        if x != at {
            assert(before.states@[x] == DONE);
            lemma_bounded_grows(array, node_of(array, x as usize), depth, depth + 1);
        }
    }
    assert forall|i: int, k: u8|
        0 <= i < after.nodes@.len() && k < after.bytes@[i] && #[trigger] has_child(
            array,
            #[trigger] after.nodes@[i],
            k,
        ) implies {
        let x = child(after.nodes@[i], k);
        after.states@[x as int] == DONE || i + 1 < after.nodes@.len() && after.places@[i + 1] == x
    } by {
        assert(has_child(array, before.nodes@[i], k));
        let x = child(before.nodes@[i], k);
        assert(before.states@[x as int] == DONE || i + 1 < n && before.places@[i + 1] == x);
    }
}

/// The search goes on to a new unit.
proof fn lemma_opened(before: Search, after: Search, array: Seq<u32>, depth: nat, byte: u8)
    requires
        before.inv(array, depth),
        before.bytes@.last() == byte,
        has_child(array, before.nodes@.last(), byte),
        before.states@[child(before.nodes@.last(), byte) as int] == NEW,
        ({
            let at = child(before.nodes@.last(), byte);
            &&& after.nodes@ == before.nodes@.push(node_of(array, at))
            &&& after.bytes@ == before.bytes@.update(
                before.bytes@.len() - 1,
                (byte + 1) as u16,
            ).push(0)
            &&& after.places@ == before.places@.push(at)
            &&& after.states@ == before.states@.update(at as int, OPEN)
        }),
    ensures
        after.inv(array, depth),
        after.seen().len() == before.seen().len() + 1,
        after.seen().len() <= array.len(),
{
    let n = before.nodes@.len() as int;
    let node = before.nodes@.last();
    let at = child(node, byte);
    lemma_seen_few(before);
    lemma_seen_few(after);
    assert(after.seen() =~= before.seen().insert(at as int));
    assert(leads(array, before.nodes@[n - 1], node_of(array, at))) by {
        assert(has_child(array, node, byte) && next(array, node, byte) == node_of(array, at));
    }
    assert forall|i: int| 1 <= i < after.nodes@.len() implies {
        let x = #[trigger] after.places@[i];
        x < array.len() && after.states@[x as int] == OPEN && after.nodes@[i] == node_of(array, x)
    } by {
        if i < n {
            assert(before.places@[i] < array.len());
        }
    }
    assert forall|x: int, y: int| 0 <= x && y == x + 1 && y < after.nodes@.len() implies leads(
        array,
        #[trigger] after.nodes@[x],
        #[trigger] after.nodes@[y],
    ) by {
        if y < n {
            assert(leads(array, before.nodes@[x], before.nodes@[y]));
        }
    }
    assert forall|x: int, y: int| 1 <= x < y < after.nodes@.len() implies
        #[trigger] after.places@[x] != #[trigger] after.places@[y] by {
        assert(before.places@[x] < array.len());
        if y < n {
            assert(before.places@[x] != before.places@[y]);
        }
    }
    assert forall|x: int| 0 <= x < array.len() && #[trigger] after.states@[x]
        == OPEN implies exists|i: int|
        1 <= i < after.nodes@.len() && #[trigger] after.places@[i] == x by {
        if x == at {
            assert(after.places@[n] == x);
        } else {
            assert(before.states@[x] == OPEN);
            let i = choose|i: int| 1 <= i < n && #[trigger] before.places@[i] == x;
            assert(after.places@[i] == x);
        }
    }
    assert forall|i: int, k: u8|
        0 <= i < after.nodes@.len() && k < after.bytes@[i] && #[trigger] has_child(
            array,
            #[trigger] after.nodes@[i],
            k,
        ) implies {
        let x = child(after.nodes@[i], k);
        after.states@[x as int] == DONE || i + 1 < after.nodes@.len() && after.places@[i + 1] == x
    } by {
        assert(i < n);
        assert(after.nodes@[i] == before.nodes@[i]);
        if i < n - 1 || k < byte {
            assert(has_child(array, before.nodes@[i], k));
            let x = child(before.nodes@[i], k);
            assert(before.states@[x as int] == DONE || i + 1 < n && before.places@[i + 1] == x);
        }
    }
}

/// Whether the paths of a trie come to an end.
pub fn check_yada(array: &[u32]) -> (ends: bool)
    ensures
        ends == finite_trie(array@),
{
    if array.len() == 0 {
        return true;
    }
    let root_offset: usize = yada_offset(array[0]) as usize;
    let mut search: Search = Search {
        nodes: vec![root_offset],
        bytes: vec![0u16],
        places: vec![0usize],
        states: vec![NEW; array.len()],
    };
    let ghost mut depth: nat = 0;
    assert(search.inv(array@, depth));
    loop
        invariant
            array@.len() > 0,
            search.inv(array@, depth),
        decreases
            array@.len() - search.seen().len(),
            search.nodes@.len(),
            256 - search.bytes@.last(),
    {
        let ghost before = search;
        proof {
            lemma_seen_few(search);
        }
        let top: usize = search.nodes.len() - 1;
        let node: usize = search.nodes[top];
        let k: u16 = search.bytes[top];
        assert(k <= 256);
        if k == 256 {
            proof {
                lemma_all_done(search, array@, depth);
            }
            if top == 0 {
                return true;
            }
            let at: usize = search.places[top];
            let _ = search.nodes.pop();
            let _ = search.bytes.pop();
            let _ = search.places.pop();
            search.states.set(at, DONE);
            proof {
                lemma_closed(before, search, array@, depth, at);
                depth = depth + 1;
            }
        } else {
            let byte: u8 = k as u8;
            let at: usize = node ^ (byte as usize);
            search.bytes.set(top, k + 1);
            if at < array.len() && yada_label(array[at]) == k as u32 {
                assert(has_child(array@, node, byte));
                let state: u8 = search.states[at];
                if state == NEW {
                    let new_node: usize = at ^ (yada_offset(array[at]) as usize);
                    search.states.set(at, OPEN);
                    search.nodes.push(new_node);
                    search.bytes.push(0);
                    search.places.push(at);
                    proof {
                        lemma_opened(before, search, array@, depth, byte);
                    }
                } else if state == OPEN {
                    proof {
                        let i = choose|i: int|
                            1 <= i < before.places@.len() && #[trigger] before.places@[i] == at;
                        assert(leads(array@, before.nodes@.last(), before.nodes@[i]));
                        assert forall|d: nat| !bounded(array@, root(array@), d) by {
                            lemma_circle(array@, before.nodes@, i, 0, d);
                        }
                    }
                    return false;
                } else {
                    assert(search.seen() =~= before.seen());
                    assert(search.inv(array@, depth));
                }
            } else {
                assert(search.seen() =~= before.seen());
                assert(search.inv(array@, depth));
            }
        }
    }
}

/// The bits of a unit: its label is its lowest byte and its top bit, bit 8 tells whether a key
/// ends there, the bits from 10 on are its offset, shifted by 8 more where bit 9 is set, and its
/// value is all but its top bit.
pub proof fn law_unit_bits(unit: u32)
    ensures
        label(unit) == unit & 0x8000_00FF,
        has_leaf(unit) <==> (unit >> 8) & 1 == 1,
        (unit >> 9) & 1 == 0 ==> offset(unit) == unit >> 10,
        (unit >> 9) & 1 == 1 ==> offset(unit) == (unit >> 10) << 8,
        value(unit) == unit & 0x7FFF_FFFF,
{
    assert(unit & 0x8000_00FF == unit % 0x100 + (if unit >= 0x8000_0000 {
        0x8000_0000u32
    } else {
        0
    })) by (bit_vector);
    assert((unit >> 8) & 1 == unit / 0x100 % 2) by (bit_vector);
    assert((unit >> 9) & 1 == unit / 0x200 % 2) by (bit_vector);
    assert(unit >> 10 == unit / 0x400) by (bit_vector);
    assert((unit >> 10) << 8 == unit / 0x400 * 0x100) by (bit_vector);
    assert(unit & 0x7FFF_FFFF == unit % 0x8000_0000) by (bit_vector);
}

/// A key is followed byte by byte. The byte leads from a node to the place that differs from the
/// node by the byte, if there is a unit there whose label is the byte, and on to the place that
/// differs from that one by the offset of the unit. There the next byte goes on, and there, where
/// the unit says so, stands the value of the key that ends with the byte.
pub proof fn law_lookup_step(array: Seq<u32>, node: usize, k: u8, rest: Seq<u8>)
    ensures
        ({
            let at = node ^ (k as usize);
            let unit = array[at as int];
            let next = at ^ (offset(unit) as usize);
            let leads = at < array.len() && label(unit) == k;
            &&& lookup(array, node, Seq::empty()) is None
            &&& !leads ==> lookup(array, node, seq![k] + rest) is None
            &&& leads && rest.len() > 0 ==> lookup(array, node, seq![k] + rest) == lookup(
                array,
                next,
                rest,
            )
            &&& leads ==> (lookup(array, node, seq![k]) is Some <==> has_leaf(unit) && next
                < array.len())
            &&& leads && has_leaf(unit) && next < array.len() ==> lookup(array, node, seq![k])
                == Some(value(array[next as int]) as u32)
        }),
{
    let key = seq![k] + rest;
    assert(key[0] == k);
    assert(key.drop_first() =~= rest);
    if rest.len() == 0 {
        assert(key =~= seq![k]);
    }
}

/// The entries below a node are its keys with their values: each key that is given a value from
/// there is listed with it, no other key is, and the keys ascend.
pub proof fn law_entries_below(array: Seq<u32>, node: usize, key: Seq<u8>, v: u32, i: int, j: int)
    requires
        finite(array, node),
    ensures
        ({
            let entries = entries_below(array, node);
            &&& lookup(array, node, key) == Some(v) <==> entries.contains((key, v))
            &&& 0 <= i < j < entries.len() ==> lex_lt(entries[i].0, entries[j].0)
        }),
{
    let entries = entries_below(array, node);
    law_listing_exists(array, node);
    if entries.contains((key, v)) {
        let n = choose|n: int| 0 <= n < entries.len() && entries[n] == (key, v);
        assert(lookup(array, node, entries[n].0) == Some(entries[n].1));
    }
}

/// The entries of a trie are those below the place that the offset of its first unit gives. A trie
/// without units has none.
pub proof fn law_entries_of_trie(array: Seq<u32>, key: Seq<u8>, v: u32, i: int, j: int)
    requires
        array.len() > 0,
        finite_trie(array),
    ensures
        ({
            let entries = yada_entries(array);
            let start = offset(array[0]) as usize;
            &&& lookup(array, start, key) == Some(v) <==> entries.contains((key, v))
            &&& 0 <= i < j < entries.len() ==> lex_lt(entries[i].0, entries[j].0)
        }),
        yada_entries(Seq::empty()) == Seq::<(Seq<u8>, u32)>::empty(),
{
    law_entries_below(array, root(array), key, v, i, j);
}

/// Whether the bytes of `path` lead on from a node, one after the other.
pub open spec fn follows(array: Seq<u32>, node: usize, path: Seq<u8>) -> bool
    decreases path.len(),
{
    path.len() > 0 ==> {
        let at = node ^ (path[0] as usize);
        let unit = array[at as int];
        &&& at < array.len()
        &&& label(unit) == path[0]
        &&& follows(array, at ^ (offset(unit) as usize), path.drop_first())
    }
}

/// Whether no path of more than `depth` bytes leads on from a node.
pub open spec fn none_longer(array: Seq<u32>, node: usize, depth: nat) -> bool {
    forall|path: Seq<u8>| path.len() == depth + 1 ==> !#[trigger] follows(array, node, path)
}

/// Paths from a node are bounded where no longer path leads on from it.
proof fn lemma_bounded_by_paths(array: Seq<u32>, node: usize, depth: nat)
    requires
        none_longer(array, node, depth),
    ensures
        bounded(array, node, depth),
    decreases depth,
{
    assert forall|k: u8| #[trigger] has_child(array, node, k) implies depth > 0 && bounded(
        array,
        next(array, node, k),
        (depth - 1) as nat,
    ) by {
        let beyond = next(array, node, k);
        if depth == 0 {
            let path = seq![k];
            assert(path.drop_first() =~= Seq::empty());
            assert(follows(array, beyond, path.drop_first()));
            assert(follows(array, node, path));
        } else {
            assert forall|path: Seq<u8>| path.len() == depth - 1 + 1 implies !#[trigger] follows(
                array,
                beyond,
                path,
            ) by {
                let longer = seq![k] + path;
                assert(longer[0] == k);
                assert(longer.drop_first() =~= path);
                assert(!follows(array, node, longer));
            }
            lemma_bounded_by_paths(array, beyond, (depth - 1) as nat);
        }
    }
}

/// Where paths are bounded, no longer one leads on.
proof fn lemma_no_longer_path(array: Seq<u32>, node: usize, depth: nat, path: Seq<u8>)
    requires
        bounded(array, node, depth),
        path.len() > depth,
    ensures
        !follows(array, node, path),
    decreases depth,
{
    if follows(array, node, path) {
        assert(has_child(array, node, path[0]));
        assert(depth > 0);
        lemma_no_longer_path(
            array,
            next(array, node, path[0]),
            (depth - 1) as nat,
            path.drop_first(),
        );
    }
}

/// The paths from a node come to an end exactly where paths of some length do not lead on from it.
pub proof fn law_finite(array: Seq<u32>, node: usize)
    ensures
        finite(array, node) <==> exists|depth: nat| #[trigger] none_longer(array, node, depth),
{
    if finite(array, node) {
        let depth = choose|depth: nat| bounded(array, node, depth);
        assert forall|path: Seq<u8>| path.len() == depth + 1 implies !#[trigger] follows(
            array,
            node,
            path,
        ) by {
            lemma_no_longer_path(array, node, depth, path);
        }
        assert(none_longer(array, node, depth));
    }
    if exists|depth: nat| #[trigger] none_longer(array, node, depth) {
        let depth = choose|depth: nat| #[trigger] none_longer(array, node, depth);
        lemma_bounded_by_paths(array, node, depth);
    }
}

/// A trie is taken apart exactly where it has no units, or its paths come to an end.
pub proof fn law_finite_trie(array: Seq<u32>)
    ensures
        array.len() == 0 ==> finite_trie(array),
        array.len() > 0 ==> (finite_trie(array) <==> finite(array, offset(array[0]) as usize)),
{
}

/// The trie in a buffer is the number of its units, and the units, four bytes each.
pub proof fn law_units_in_buffer(buf: Seq<u8>, offset: int, i: int)
    requires
        0 <= offset,
    ensures
        yada_fits(buf, offset) <==> offset + 4 <= buf.len() && offset + 4 + 4 * u32_at(buf, offset)
            <= buf.len(),
        yada_fits(buf, offset) ==> yada_units(buf, offset).len() == u32_at(buf, offset),
        yada_fits(buf, offset) && 0 <= i < u32_at(buf, offset) ==> yada_units(buf, offset)[i]
            == u32_at(buf, offset + 4 + 4 * i),
{
}

/// A path is put before each key, and the values are kept.
pub proof fn law_prefixed(path: Seq<u8>, entries: Seq<(Seq<u8>, u32)>, i: int)
    requires
        0 <= i < entries.len(),
    ensures
        prefixed(path, entries).len() == entries.len(),
        prefixed(path, entries)[i].0 == path + entries[i].0,
        prefixed(path, entries)[i].1 == entries[i].1,
{
}

} // verus!
