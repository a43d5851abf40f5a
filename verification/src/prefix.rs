//! The beginnings of byte strings.

use crate::order::{
    byte_views, group_by_key, group_key, group_views, is_group, is_grouped, is_grouping, lex_lt,
    parts_below,
};
use vstd::prelude::*;
use vstd::set_lib::{lemma_len_subset, lemma_set_disjoint_lens};

verus! {

/// Whether `key` starts with `prefix`.
pub open spec fn starts_with(key: Seq<u8>, prefix: Seq<u8>) -> bool {
    prefix.len() <= key.len() && key.take(prefix.len() as int) == prefix
}

/// Whether one of the keys starts with `prefix`.
pub open spec fn starts_one(keys: Seq<Seq<u8>>, prefix: Seq<u8>) -> bool {
    exists|i: int| 0 <= i < keys.len() && starts_with(#[trigger] keys[i], prefix)
}

/// The different beginnings that keys have, but for the empty one: a trie of the keys with one
/// node for each byte has these nodes, and the root.
pub open spec fn prefixes(keys: Seq<Seq<u8>>) -> Set<Seq<u8>> {
    Set::new(|prefix: Seq<u8>| prefix.len() > 0 && starts_one(keys, prefix))
}

/// The beginnings of a key that are longer than `m`.
spec fn longer_prefixes(key: Seq<u8>, m: int) -> Set<Seq<u8>> {
    Set::new(|prefix: Seq<u8>| prefix.len() > m && starts_with(key, prefix))
}

/// A key has one beginning of each length up to its own.
proof fn lemma_longer_prefixes(key: Seq<u8>, m: int)
    requires
        0 <= m <= key.len(),
    ensures
        longer_prefixes(key, m).finite(),
        longer_prefixes(key, m).len() == key.len() - m,
    decreases key.len() - m,
{
    if m == key.len() {
        assert(longer_prefixes(key, m) =~= Set::empty());
    } else {
        lemma_longer_prefixes(key, m + 1);
        let next = key.take(m + 1);
        assert(starts_with(key, next));
        assert(!longer_prefixes(key, m + 1).contains(next));
        assert forall|prefix: Seq<u8>| longer_prefixes(key, m).contains(prefix) implies
            #[trigger] longer_prefixes(key, m + 1).insert(next).contains(prefix) by {
            if prefix.len() == m + 1 {
                assert(prefix == next);
            }
        }
        assert(longer_prefixes(key, m) =~= longer_prefixes(key, m + 1).insert(next));
    }
}

/// Keys have finitely many beginnings.
proof fn lemma_prefixes_finite(keys: Seq<Seq<u8>>)
    ensures
        prefixes(keys).finite(),
    decreases keys.len(),
{
    if keys.len() == 0 {
        assert(prefixes(keys) =~= Set::empty());
    } else {
        let rest = keys.drop_last();
        let last = keys.last();
        lemma_prefixes_finite(rest);
        lemma_longer_prefixes(last, 0);
        lemma_prefixes_step(rest, last);
        assert(keys =~= rest.push(last));
    }
}

/// A further key brings its own beginnings.
proof fn lemma_prefixes_step(keys: Seq<Seq<u8>>, key: Seq<u8>)
    ensures
        prefixes(keys.push(key)) == prefixes(keys) + longer_prefixes(key, 0),
{
    let more = keys.push(key);
    assert forall|prefix: Seq<u8>| starts_one(more, prefix) <==> starts_one(keys, prefix)
        || starts_with(key, prefix) by {
        if starts_one(more, prefix) {
            let i = choose|i: int| 0 <= i < more.len() && starts_with(#[trigger] more[i], prefix);
            if i < keys.len() {
                assert(starts_with(keys[i], prefix));
            }
        }
        if starts_one(keys, prefix) {
            let i = choose|i: int| 0 <= i < keys.len() && starts_with(#[trigger] keys[i], prefix);
            assert(starts_with(more[i], prefix));
        }
        if starts_with(key, prefix) {
            assert(starts_with(more[keys.len() as int], prefix));
        }
    }
    assert(prefixes(more) =~= prefixes(keys) + longer_prefixes(key, 0));
}

/// A key is no longer than there are beginnings.
pub proof fn lemma_key_within_prefixes(keys: Seq<Seq<u8>>, i: int)
    requires
        0 <= i < keys.len(),
    ensures
        keys[i].len() <= prefixes(keys).len(),
{
    lemma_prefixes_finite(keys);
    lemma_longer_prefixes(keys[i], 0);
    assert(longer_prefixes(keys[i], 0).subset_of(prefixes(keys)));
    lemma_len_subset(longer_prefixes(keys[i], 0), prefixes(keys));
}

/// What starts two byte strings starts those between them too.
proof fn lemma_starts_between(a: Seq<u8>, b: Seq<u8>, c: Seq<u8>, prefix: Seq<u8>)
    requires
        lex_lt(a, b),
        lex_lt(b, c),
        starts_with(a, prefix),
        starts_with(c, prefix),
    ensures
        starts_with(b, prefix),
{
    let n = prefix.len() as int;
    let p = choose|p: int| parts_below(a, b, p);
    let q = choose|q: int| parts_below(b, c, q);
    assert forall|i: int| 0 <= i < n implies a[i] == c[i] && a[i] == prefix[i] by {
        assert(a.take(n)[i] == c.take(n)[i]);
    }
    if p >= n {
        assert(b.take(n) =~= b.take(p).take(n));
        assert(a.take(n) =~= a.take(p).take(n));
    } else if q >= n {
        assert(b.take(n) =~= b.take(q).take(n));
        assert(c.take(n) =~= c.take(q).take(n));
    } else if q > p {
        assert(b.take(q)[p] == c.take(q)[p]);
    } else if q < p {
        assert(a.take(p)[q] == b.take(p)[q]);
    }
}

/// Whether `m` is the length of the longest beginning that two byte strings share.
spec fn is_shared(a: Seq<u8>, b: Seq<u8>, m: int) -> bool {
    &&& 0 <= m <= a.len()
    &&& m <= b.len()
    &&& a.take(m) == b.take(m)
    &&& m == a.len() || m == b.len() || a[m] != b[m]
}

/// The length of the longest beginning that two byte strings share.
fn shared_len(a: &[u8], b: &[u8]) -> (m: usize)
    ensures
        is_shared(a@, b@, m as int),
{
    let mut m: usize = 0;
    while m < a.len() && m < b.len() && a[m] == b[m]
        invariant
            m <= a.len(),
            m <= b.len(),
            a@.take(m as int) == b@.take(m as int),
        decreases a.len() - m,
    {
        assert(a@.take(m + 1) =~= a@.take(m as int).push(a@[m as int]));
        assert(b@.take(m + 1) =~= b@.take(m as int).push(b@[m as int]));
        m = m + 1;
    }
    m
}

/// Whether keys stand in ascending order, none of them twice.
spec fn is_ascending(keys: Seq<Seq<u8>>) -> bool {
    forall|i: int, j: int|
        0 <= i < j < keys.len() ==> lex_lt(#[trigger] keys[i], #[trigger] keys[j])
}

/// Of the beginnings of a key that follows all others, the keys before it have those that it shares
/// with the last of them.
proof fn lemma_new_prefixes(keys: Seq<Seq<u8>>, i: int, m: int)
    requires
        is_ascending(keys),
        0 <= i < keys.len(),
        i == 0 ==> m == 0,
        i > 0 ==> is_shared(keys[i - 1], keys[i], m),
    ensures
        prefixes(keys.take(i + 1)).len() == prefixes(keys.take(i)).len() + keys[i].len() - m,
{
    let before = keys.take(i);
    let key = keys[i];
    let old_ones = prefixes(before);
    let new_ones = longer_prefixes(key, m);
    lemma_prefixes_finite(before);
    lemma_longer_prefixes(key, m);
    assert(keys.take(i + 1) =~= before.push(key));
    lemma_prefixes_step(before, key);
    assert forall|prefix: Seq<u8>| longer_prefixes(key, 0).contains(prefix) implies (old_ones
        + new_ones).contains(prefix) by {
        if prefix.len() <= m {
            let last = keys[i - 1];
            assert(last.take(prefix.len() as int) =~= last.take(m).take(prefix.len() as int));
            assert(key.take(prefix.len() as int) =~= key.take(m).take(prefix.len() as int));
            assert(starts_with(before[i - 1], prefix));
        }
    }
    assert(old_ones + longer_prefixes(key, 0) =~= old_ones + new_ones);
    assert forall|prefix: Seq<u8>| new_ones.contains(prefix) implies !old_ones.contains(prefix) by {
        if old_ones.contains(prefix) {
            let j = choose|j: int|
                0 <= j < before.len() && starts_with(#[trigger] before[j], prefix);
            let last = keys[i - 1];
            if j < i - 1 {
                lemma_starts_between(keys[j], last, key, prefix);
            }
            assert(last[m] == last.take(prefix.len() as int)[m]);
            assert(key[m] == key.take(prefix.len() as int)[m]);
        }
    }
    assert(old_ones.disjoint(new_ones));
    lemma_set_disjoint_lens(old_ones, new_ones);
}

/// Keys have the beginnings that the different ones among them have.
pub proof fn lemma_distinct_prefixes(keys: Seq<Seq<u8>>, groups: Seq<Seq<usize>>)
    requires
        is_grouping(keys, groups),
    ensures
        prefixes(groups.map_values(|group: Seq<usize>| group_key(keys, group))) == prefixes(keys),
{
    let distinct = groups.map_values(|group: Seq<usize>| group_key(keys, group));
    assert forall|prefix: Seq<u8>| starts_one(distinct, prefix) <==> starts_one(
        keys,
        prefix,
    ) by {
        if starts_one(distinct, prefix) {
            let g = choose|g: int|
                0 <= g < distinct.len() && starts_with(#[trigger] distinct[g], prefix);
            assert(is_group(keys, groups[g]));
            assert(starts_with(keys[groups[g][0] as int], prefix));
        }
        if starts_one(keys, prefix) {
            let i = choose|i: int| 0 <= i < keys.len() && starts_with(#[trigger] keys[i], prefix);
            assert(is_grouped(groups, i));
            let (g, n) = choose|g: int, n: int|
                0 <= g < groups.len() && 0 <= n < groups[g].len() && #[trigger] groups[g][n] == i;
            assert(is_group(keys, groups[g]));
            assert(starts_with(distinct[g], prefix));
        }
    }
    assert(prefixes(distinct) =~= prefixes(keys));
}

/// Fewer keys have no more beginnings.
proof fn lemma_fewer_prefixes(keys: Seq<Seq<u8>>, n: int)
    requires
        0 <= n <= keys.len(),
    ensures
        prefixes(keys.take(n)).len() <= prefixes(keys).len(),
{
    assert forall|prefix: Seq<u8>| starts_one(keys.take(n), prefix) implies starts_one(
        keys,
        prefix,
    ) by {
        let i = choose|i: int|
            0 <= i < n && starts_with(#[trigger] keys.take(n)[i], prefix);
        assert(starts_with(keys[i], prefix));
    }
    lemma_prefixes_finite(keys);
    lemma_len_subset(prefixes(keys.take(n)), prefixes(keys));
}

/// Whether keys have at most so many different beginnings.
pub fn has_few_prefixes(keys: &Vec<Vec<u8>>, limit: usize) -> (few: bool)
    ensures
        few == (prefixes(byte_views(keys@)).len() <= limit),
{
    let groups: Vec<Vec<usize>> = group_by_key(keys);
    let ghost views = byte_views(keys@);
    let ghost all = group_views(groups@);
    let ghost distinct = all.map_values(|group: Seq<usize>| group_key(views, group));
    proof {
        lemma_distinct_prefixes(views, all);
        lemma_prefixes_finite(distinct.take(0));
        assert(prefixes(distinct.take(0)) =~= Set::empty());
    }
    let mut count: usize = 0;
    let mut g: usize = 0;
    while g < groups.len()
        invariant
            g <= groups.len(),
            views == byte_views(keys@),
            all == group_views(groups@),
            is_grouping(views, all),
            distinct == all.map_values(|group: Seq<usize>| group_key(views, group)),
            prefixes(distinct) == prefixes(views),
            count == prefixes(distinct.take(g as int)).len(),
            count <= limit,
        decreases groups.len() - g,
    {
        assert(all[g as int] == groups@[g as int]@);
        assert(is_group(views, all[g as int]));
        let key: &Vec<u8> = &keys[groups[g][0]];
        let shared: usize = if g == 0 {
            0
        } else {
            assert(all[g - 1] == groups@[g - 1]@);
            assert(is_group(views, all[g - 1]));
            shared_len(keys[groups[g - 1][0]].as_slice(), key.as_slice())
        };
        proof {
            assert forall|i: int, j: int| 0 <= i < j < distinct.len() implies lex_lt(
                #[trigger] distinct[i],
                #[trigger] distinct[j],
            ) by {
                assert(lex_lt(group_key(views, all[i]), group_key(views, all[j])));
            }
            lemma_new_prefixes(distinct, g as int, shared as int);
            lemma_fewer_prefixes(distinct, g + 1);
        }
        if key.len() - shared > limit - count {
            return false;
        }
        count = count + (key.len() - shared);
        g = g + 1;
    }
    assert(distinct.take(g as int) =~= distinct);
    true
}

/// The beginnings of keys are the byte strings, but for the empty one, that one of the keys starts
/// with.
pub proof fn law_prefixes(keys: Seq<Seq<u8>>, prefix: Seq<u8>)
    ensures
        prefixes(keys).finite(),
        prefixes(keys).contains(prefix) <==> prefix.len() > 0 && exists|i: int|
            0 <= i < keys.len() && prefix.len() <= (#[trigger] keys[i]).len() && keys[i].take(
                prefix.len() as int,
            ) == prefix,
{
    lemma_prefixes_finite(keys);
    if starts_one(keys, prefix) {
        let i = choose|i: int| 0 <= i < keys.len() && starts_with(#[trigger] keys[i], prefix);
        assert(keys[i].take(prefix.len() as int) == prefix);
    }
    if exists|i: int|
        0 <= i < keys.len() && prefix.len() <= (#[trigger] keys[i]).len() && keys[i].take(
            prefix.len() as int,
        ) == prefix {
        let i = choose|i: int|
            0 <= i < keys.len() && prefix.len() <= (#[trigger] keys[i]).len() && keys[i].take(
                prefix.len() as int,
            ) == prefix;
        assert(starts_with(keys[i], prefix));
    }
}

} // verus!
