//! The order of byte strings, and lists of items grouped by byte string keys.

use vstd::prelude::*;

verus! {

/// Whether `a` and `b` agree on their first `p` bytes, and there `a` ends before `b` or goes on
/// with a smaller byte.
pub open spec fn parts_below(a: Seq<u8>, b: Seq<u8>, p: int) -> bool {
    &&& 0 <= p <= a.len()
    &&& p < b.len()
    &&& a.take(p) == b.take(p)
    &&& p == a.len() || a[p] < b[p]
}

/// The lexicographic order of byte strings.
pub open spec fn lex_lt(a: Seq<u8>, b: Seq<u8>) -> bool {
    exists|p: int| parts_below(a, b, p)
}

/// No byte string comes before itself.
pub proof fn lemma_lex_irreflexive(a: Seq<u8>)
    ensures
        !lex_lt(a, a),
{
}

/// What comes before a string comes before all that follows the string.
pub proof fn lemma_lex_transitive(a: Seq<u8>, b: Seq<u8>, c: Seq<u8>)
    requires
        lex_lt(a, b),
        lex_lt(b, c),
    ensures
        lex_lt(a, c),
{
    let p = choose|p: int| parts_below(a, b, p);
    let q = choose|q: int| parts_below(b, c, q);
    let m = if p < q {
        p
    } else {
        q
    };
    assert forall|i: int| 0 <= i < m implies a[i] == c[i] by {
        assert(a.take(p)[i] == b.take(p)[i]);
        assert(b.take(q)[i] == c.take(q)[i]);
    }
    assert(a.take(m) =~= c.take(m));
    if p < q {
        assert(b.take(q)[p] == c.take(q)[p]);
    }
    if q < p {
        assert(a.take(p)[q] == b.take(p)[q]);
    }
    assert(parts_below(a, c, m));
}

/// Compares two byte strings from the place on up to which they agree.
proof fn lemma_lex_total_from(a: Seq<u8>, b: Seq<u8>, p: int)
    requires
        0 <= p <= a.len(),
        p <= b.len(),
        a.take(p) == b.take(p),
    ensures
        a == b || lex_lt(a, b) || lex_lt(b, a),
    decreases a.len() - p,
{
    if p == a.len() && p == b.len() {
        assert(a =~= a.take(p));
        assert(b =~= b.take(p));
    } else if p < a.len() && p < b.len() && a[p] == b[p] {
        assert(a.take(p + 1) =~= a.take(p).push(a[p]));
        assert(b.take(p + 1) =~= b.take(p).push(b[p]));
        lemma_lex_total_from(a, b, p + 1);
    } else if p < b.len() && (p == a.len() || a[p] < b[p]) {
        assert(parts_below(a, b, p));
    } else {
        assert(parts_below(b, a, p));
    }
}

/// Of two different byte strings one comes before the other.
pub proof fn lemma_lex_total(a: Seq<u8>, b: Seq<u8>)
    ensures
        a == b || lex_lt(a, b) || lex_lt(b, a),
{
    assert(a.take(0) =~= b.take(0));
    lemma_lex_total_from(a, b, 0);
}

/// Whether `a` comes before `b`.
pub fn is_before(a: &[u8], b: &[u8]) -> (r: bool)
    ensures
        r == lex_lt(a@, b@),
{
    let mut i: usize = 0;
    while i < a.len() && i < b.len()
        invariant
            i <= a.len(),
            i <= b.len(),
            a@.take(i as int) == b@.take(i as int),
        decreases a.len() - i,
    {
        if a[i] < b[i] {
            assert(parts_below(a@, b@, i as int));
            return true;
        }
        if b[i] < a[i] {
            proof {
                assert(parts_below(b@, a@, i as int));
                if lex_lt(a@, b@) {
                    lemma_lex_transitive(a@, b@, a@);
                    lemma_lex_irreflexive(a@);
                }
            }
            return false;
        }
        assert(a@.take(i + 1) =~= a@.take(i as int).push(a@[i as int]));
        assert(b@.take(i + 1) =~= b@.take(i as int).push(b@[i as int]));
        i = i + 1;
    }
    proof {
        if i < b.len() {
            assert(parts_below(a@, b@, i as int));
        } else if i < a.len() {
            assert(parts_below(b@, a@, i as int));
            if lex_lt(a@, b@) {
                lemma_lex_transitive(a@, b@, a@);
                lemma_lex_irreflexive(a@);
            }
        } else {
            assert(a@ =~= a@.take(i as int));
            assert(b@ =~= b@.take(i as int));
            lemma_lex_irreflexive(a@);
        }
    }
    i < b.len()
}

/// Whether two byte strings are the same.
pub fn is_same(a: &[u8], b: &[u8]) -> (r: bool)
    ensures
        r == (a@ == b@),
{
    if a.len() != b.len() {
        return false;
    }
    let mut i: usize = 0;
    while i < a.len()
        invariant
            i <= a.len(),
            a.len() == b.len(),
            forall|j: int| 0 <= j < i ==> a@[j] == b@[j],
        decreases a.len() - i,
    {
        if a[i] != b[i] {
            return false;
        }
        i = i + 1;
    }
    assert(a@ =~= b@);
    true
}

/// A list of byte strings, by content.
pub open spec fn byte_views(keys: Seq<Vec<u8>>) -> Seq<Seq<u8>> {
    keys.map_values(|key: Vec<u8>| key@)
}

/// Whether item `i` comes before item `j`: by key, and among equal keys by position.
pub open spec fn precedes(keys: Seq<Seq<u8>>, i: int, j: int) -> bool {
    lex_lt(keys[i], keys[j]) || keys[i] == keys[j] && i < j
}

proof fn lemma_precedes_transitive(keys: Seq<Seq<u8>>, i: int, j: int, k: int)
    requires
        precedes(keys, i, j),
        precedes(keys, j, k),
    ensures
        precedes(keys, i, k),
{
    if lex_lt(keys[i], keys[j]) && lex_lt(keys[j], keys[k]) {
        lemma_lex_transitive(keys[i], keys[j], keys[k]);
    }
}

/// Whether `order` lists the items from `lo` to `hi`, each after those that precede it.
pub open spec fn is_sorted_range(
    keys: Seq<Seq<u8>>,
    order: Seq<usize>,
    lo: int,
    hi: int,
) -> bool {
    &&& order.len() == hi - lo
    &&& forall|a: int, b: int|
        0 <= a < b < order.len() ==> precedes(
            keys,
            #[trigger] order[a] as int,
            #[trigger] order[b] as int,
        )
    &&& forall|a: int| 0 <= a < order.len() ==> lo <= #[trigger] order[a] < hi
    &&& forall|i: usize| lo <= i < hi ==> order.contains(i)
}

/// Merges the sorted items from `lo` to `mid` with those from `mid` to `hi`.
fn merge(
    keys: &Vec<Vec<u8>>,
    left: Vec<usize>,
    right: Vec<usize>,
    Ghost(lo): Ghost<int>,
    Ghost(mid): Ghost<int>,
    Ghost(hi): Ghost<int>,
) -> (out: Vec<usize>)
    requires
        0 <= lo <= mid <= hi <= keys@.len(),
        is_sorted_range(byte_views(keys@), left@, lo, mid),
        is_sorted_range(byte_views(keys@), right@, mid, hi),
    ensures
        is_sorted_range(byte_views(keys@), out@, lo, hi),
{
    let ghost views = byte_views(keys@);
    let mut out: Vec<usize> = Vec::new();
    let mut i: usize = 0;
    let mut j: usize = 0;
    while i < left.len() || j < right.len()
        invariant
            views == byte_views(keys@),
            0 <= lo <= mid <= hi <= keys@.len(),
            is_sorted_range(views, left@, lo, mid),
            is_sorted_range(views, right@, mid, hi),
            i <= left.len(),
            j <= right.len(),
            out@.len() == i + j,
            forall|a: int, b: int|
                0 <= a < b < out@.len() ==> precedes(
                    views,
                    #[trigger] out@[a] as int,
                    #[trigger] out@[b] as int,
                ),
            forall|a: int, x: int|
                0 <= a < out@.len() && i <= x < left@.len() ==> precedes(
                    views,
                    #[trigger] out@[a] as int,
                    #[trigger] left@[x] as int,
                ),
            forall|a: int, x: int|
                0 <= a < out@.len() && j <= x < right@.len() ==> precedes(
                    views,
                    #[trigger] out@[a] as int,
                    #[trigger] right@[x] as int,
                ),
            forall|x: int| 0 <= x < i ==> out@.contains(#[trigger] left@[x]),
            forall|x: int| 0 <= x < j ==> out@.contains(#[trigger] right@[x]),
            forall|a: int| 0 <= a < out@.len() ==> lo <= #[trigger] out@[a] < hi,
        decreases left.len() - i + right.len() - j,
    {
        let ghost before = out@;
        let take_left: bool = if i == left.len() {
            false
        } else if j == right.len() {
            true
        } else {
            !is_before(keys[right[j]].as_slice(), keys[left[i]].as_slice())
        };
        if take_left {
            proof {
                assert forall|x: int| j <= x < right@.len() implies precedes(
                    views,
                    left@[i as int] as int,
                    #[trigger] right@[x] as int,
                ) by {
                    let l = left@[i as int] as int;
                    let r = right@[j as int] as int;
                    lemma_lex_total(views[l], views[r]);
                    assert(precedes(views, l, r));
                    if j < x {
                        lemma_precedes_transitive(views, l, r, right@[x] as int);
                    }
                }
            }
            out.push(left[i]);
            i = i + 1;
        } else {
            proof {
                assert forall|x: int| i <= x < left@.len() implies precedes(
                    views,
                    right@[j as int] as int,
                    #[trigger] left@[x] as int,
                ) by {
                    let r = right@[j as int] as int;
                    let l = left@[i as int] as int;
                    assert(precedes(views, r, l));
                    if i < x {
                        lemma_precedes_transitive(views, r, l, left@[x] as int);
                    }
                }
            }
            out.push(right[j]);
            j = j + 1;
        }
        assert(forall|v: usize| before.contains(v) ==> out@.contains(v)) by {
            assert forall|v: usize| before.contains(v) implies out@.contains(v) by {
                let a = choose|a: int| 0 <= a < before.len() && before[a] == v;
                assert(out@[a] == v);
            }
        }
        assert(out@[out@.len() - 1] == out@.last());
    }
    assert forall|v: usize| lo <= v < hi implies out@.contains(v) by {
        if v < mid {
            assert(left@.contains(v));
        } else {
            assert(right@.contains(v));
        }
    }
    out
}

/// Sorts the items from `lo` to `hi` by key, and among equal keys by position.
fn sort_range(keys: &Vec<Vec<u8>>, lo: usize, hi: usize) -> (order: Vec<usize>)
    requires
        lo <= hi <= keys@.len(),
    ensures
        is_sorted_range(byte_views(keys@), order@, lo as int, hi as int),
    decreases hi - lo,
{
    if hi - lo == 0 {
        return Vec::new();
    }
    if hi - lo == 1 {
        let mut order: Vec<usize> = Vec::new();
        order.push(lo);
        assert(order@[0] == lo);
        return order;
    }
    let mid: usize = lo + (hi - lo) / 2;
    let left: Vec<usize> = sort_range(keys, lo, mid);
    let right: Vec<usize> = sort_range(keys, mid, hi);
    merge(keys, left, right, Ghost(lo as int), Ghost(mid as int), Ghost(hi as int))
}

/// Whether `item` is in one of the groups.
pub open spec fn is_grouped(groups: Seq<Seq<usize>>, item: int) -> bool {
    exists|g: int, m: int|
        0 <= g < groups.len() && 0 <= m < groups[g].len() && #[trigger] groups[g][m] == item
}

/// Whether a group lists items of one key, in ascending order.
pub open spec fn is_group(keys: Seq<Seq<u8>>, group: Seq<usize>) -> bool {
    &&& group.len() > 0
    &&& forall|m: int|
        0 <= m < group.len() ==> #[trigger] group[m] < keys.len() && keys[group[m] as int]
            == keys[group[0] as int]
    &&& forall|a: int, b: int|
        0 <= a < b < group.len() ==> #[trigger] group[a] < #[trigger] group[b]
}

/// The key that the items of a group share.
pub open spec fn group_key(keys: Seq<Seq<u8>>, group: Seq<usize>) -> Seq<u8> {
    keys[group[0] as int]
}

/// Whether `groups` puts the items with the same key together: one group for each key, the groups
/// in the order of their keys, the items of a group in their own order, and no item left out.
pub open spec fn is_grouping(keys: Seq<Seq<u8>>, groups: Seq<Seq<usize>>) -> bool {
    &&& forall|g: int| 0 <= g < groups.len() ==> is_group(keys, #[trigger] groups[g])
    &&& forall|g: int, h: int|
        0 <= g < h < groups.len() ==> lex_lt(
            group_key(keys, #[trigger] groups[g]),
            group_key(keys, #[trigger] groups[h]),
        )
    &&& forall|i: int| 0 <= i < keys.len() ==> is_grouped(groups, i)
}

/// The grouping of items by key.
pub open spec fn grouping_of(keys: Seq<Seq<u8>>) -> Seq<Seq<usize>> {
    choose|groups: Seq<Seq<usize>>| is_grouping(keys, groups)
}

/// The different keys of some items, in ascending order.
pub open spec fn distinct_keys(keys: Seq<Seq<u8>>) -> Seq<Seq<u8>> {
    grouping_of(keys).map_values(|group: Seq<usize>| group_key(keys, group))
}

/// A list of groups, by content.
pub open spec fn group_views(groups: Seq<Vec<usize>>) -> Seq<Seq<usize>> {
    groups.map_values(|group: Vec<usize>| group@)
}

/// Each item is in the group of its key.
pub proof fn lemma_item_in_group_of_its_key(
    keys: Seq<Seq<u8>>,
    groups: Seq<Seq<usize>>,
    g: int,
    item: int,
)
    requires
        is_grouping(keys, groups),
        0 <= g < groups.len(),
        0 <= item < keys.len(),
        keys[item] == group_key(keys, groups[g]),
    ensures
        exists|m: int| 0 <= m < groups[g].len() && #[trigger] groups[g][m] == item,
{
    assert(is_grouped(groups, item));
    let (h, m) = choose|h: int, m: int|
        0 <= h < groups.len() && 0 <= m < groups[h].len() && #[trigger] groups[h][m] == item;
    assert(is_group(keys, groups[h]));
    assert(keys[item] == group_key(keys, groups[h]));
    lemma_lex_irreflexive(keys[item]);
    if g < h {
        assert(lex_lt(group_key(keys, groups[g]), group_key(keys, groups[h])));
    }
    if h < g {
        assert(lex_lt(group_key(keys, groups[h]), group_key(keys, groups[g])));
    }
}

/// Up to a group, two groupings of the same items have the same keys.
proof fn lemma_groupings_share_keys(
    keys: Seq<Seq<u8>>,
    a: Seq<Seq<usize>>,
    b: Seq<Seq<usize>>,
    g: int,
)
    requires
        is_grouping(keys, a),
        is_grouping(keys, b),
        0 <= g < a.len(),
    ensures
        g < b.len(),
        group_key(keys, a[g]) == group_key(keys, b[g]),
    decreases g,
{
    if g > 0 {
        lemma_groupings_share_keys(keys, a, b, g - 1);
    }
    let key = group_key(keys, a[g]);
    assert(is_group(keys, a[g]));
    let item = a[g][0] as int;
    assert(is_grouped(b, item));
    let (h, m) = choose|h: int, m: int|
        0 <= h < b.len() && 0 <= m < b[h].len() && #[trigger] b[h][m] == item;
    assert(is_group(keys, b[h]));
    assert(group_key(keys, b[h]) == key);
    lemma_lex_irreflexive(key);
    if h < g {
        lemma_groupings_share_keys(keys, a, b, h);
        assert(lex_lt(group_key(keys, a[h]), group_key(keys, a[g])));
    }
    if g < h {
        let other = group_key(keys, b[g]);
        assert(lex_lt(other, key));
        assert(is_group(keys, b[g]));
        let mate = b[g][0] as int;
        assert(is_grouped(a, mate));
        let (k, n) = choose|k: int, n: int|
            0 <= k < a.len() && 0 <= n < a[k].len() && #[trigger] a[k][n] == mate;
        assert(is_group(keys, a[k]));
        assert(group_key(keys, a[k]) == other);
        lemma_lex_irreflexive(other);
        if k < g {
            lemma_groupings_share_keys(keys, a, b, k);
            assert(lex_lt(group_key(keys, b[k]), group_key(keys, b[g])));
        } else if g < k {
            assert(lex_lt(group_key(keys, a[g]), group_key(keys, a[k])));
            lemma_lex_transitive(key, other, key);
        }
    }
}

/// Of two ascending lists with the same items, one is at each place no smaller than the other.
proof fn lemma_same_items_same_list(a: Seq<usize>, b: Seq<usize>, m: int)
    requires
        forall|x: int, y: int| 0 <= x < y < a.len() ==> #[trigger] a[x] < #[trigger] a[y],
        forall|x: int, y: int| 0 <= x < y < b.len() ==> #[trigger] b[x] < #[trigger] b[y],
        forall|x: int| 0 <= x < a.len() ==> b.contains(#[trigger] a[x]),
        forall|x: int| 0 <= x < b.len() ==> a.contains(#[trigger] b[x]),
        0 <= m < a.len(),
    ensures
        m < b.len(),
        a[m] == b[m],
    decreases m,
{
    if m > 0 {
        lemma_same_items_same_list(a, b, m - 1);
    }
    let y = choose|y: int| 0 <= y < b.len() && b[y] == a[m];
    if y < m {
        lemma_same_items_same_list(a, b, y);
    }
    if m < y {
        assert(a.contains(b[m]));
        let x = choose|x: int| 0 <= x < a.len() && a[x] == b[m];
        if x < m {
            lemma_same_items_same_list(a, b, x);
        }
    }
}

/// Items can be grouped by key in one way only.
pub proof fn law_grouping_unique(keys: Seq<Seq<u8>>, a: Seq<Seq<usize>>, b: Seq<Seq<usize>>)
    requires
        is_grouping(keys, a),
        is_grouping(keys, b),
    ensures
        a == b,
{
    if a.len() > 0 {
        lemma_groupings_share_keys(keys, a, b, a.len() - 1);
    }
    if b.len() > 0 {
        lemma_groupings_share_keys(keys, b, a, b.len() - 1);
    }
    assert forall|g: int| 0 <= g < a.len() implies a[g] == b[g] by {
        lemma_groupings_share_keys(keys, a, b, g);
        assert(is_group(keys, a[g]) && is_group(keys, b[g]));
        assert forall|x: int| 0 <= x < a[g].len() implies b[g].contains(#[trigger] a[g][x]) by {
            lemma_item_in_group_of_its_key(keys, b, g, a[g][x] as int);
        }
        assert forall|x: int| 0 <= x < b[g].len() implies a[g].contains(#[trigger] b[g][x]) by {
            lemma_item_in_group_of_its_key(keys, a, g, b[g][x] as int);
        }
        if a[g].len() > 0 {
            lemma_same_items_same_list(a[g], b[g], a[g].len() - 1);
        }
        if b[g].len() > 0 {
            lemma_same_items_same_list(b[g], a[g], b[g].len() - 1);
        }
        assert forall|m: int| 0 <= m < a[g].len() implies a[g][m] == b[g][m] by {
            lemma_same_items_same_list(a[g], b[g], m);
        }
        assert(a[g] =~= b[g]);
    }
    assert(a =~= b);
}

/// The place of a key among the groups: those before it have smaller keys, those from there on
/// have not.
proof fn lemma_place_of_key(
    keys: Seq<Seq<u8>>,
    groups: Seq<Seq<usize>>,
    key: Seq<u8>,
    from: int,
) -> (p: int)
    requires
        is_grouping(keys, groups),
        0 <= from <= groups.len(),
        forall|g: int| 0 <= g < from ==> lex_lt(group_key(keys, #[trigger] groups[g]), key),
    ensures
        0 <= p <= groups.len(),
        forall|g: int| 0 <= g < p ==> lex_lt(group_key(keys, #[trigger] groups[g]), key),
        p < groups.len() ==> key == group_key(keys, groups[p]) || lex_lt(
            key,
            group_key(keys, groups[p]),
        ),
        forall|g: int| p < g < groups.len() ==> lex_lt(key, group_key(keys, #[trigger] groups[g])),
    decreases groups.len() - from,
{
    if from < groups.len() {
        lemma_lex_total(group_key(keys, groups[from]), key);
        if lex_lt(group_key(keys, groups[from]), key) {
            return lemma_place_of_key(keys, groups, key, from + 1);
        }
        assert forall|g: int| from < g < groups.len() implies lex_lt(
            key,
            group_key(keys, #[trigger] groups[g]),
        ) by {
            assert(lex_lt(group_key(keys, groups[from]), group_key(keys, groups[g])));
            if key != group_key(keys, groups[from]) {
                lemma_lex_transitive(
                    key,
                    group_key(keys, groups[from]),
                    group_key(keys, groups[g]),
                );
            }
        }
    }
    from
}

/// A grouping stays one when an item with one of its keys is added at the end.
proof fn lemma_add_to_group(keys: Seq<Seq<u8>>, key: Seq<u8>, groups: Seq<Seq<usize>>, p: int)
    requires
        is_grouping(keys, groups),
        keys.len() < usize::MAX,
        0 <= p < groups.len(),
        key == group_key(keys, groups[p]),
    ensures
        is_grouping(keys.push(key), groups.update(p, groups[p].push(keys.len() as usize))),
{
    let n = keys.len() as usize;
    let all = keys.push(key);
    let grown = groups.update(p, groups[p].push(n));
    assert forall|g: int| 0 <= g < grown.len() implies is_group(all, #[trigger] grown[g])
        && group_key(all, grown[g]) == group_key(keys, groups[g]) by {
        assert(is_group(keys, groups[g]));
    }
    assert forall|g: int, h: int| 0 <= g < h < grown.len() implies lex_lt(
        group_key(all, #[trigger] grown[g]),
        group_key(all, #[trigger] grown[h]),
    ) by {
        assert(lex_lt(group_key(keys, groups[g]), group_key(keys, groups[h])));
    }
    assert forall|i: int| 0 <= i < all.len() implies is_grouped(grown, i) by {
        if i < n {
            assert(is_grouped(groups, i));
            let (g, m) = choose|g: int, m: int|
                0 <= g < groups.len() && 0 <= m < groups[g].len() && #[trigger] groups[g][m] == i;
            assert(grown[g][m] == i);
        } else {
            assert(grown[p][groups[p].len() as int] == i);
        }
    }
}

/// A grouping stays one when an item with a new key is added at the end, in a group of its own.
proof fn lemma_add_group(keys: Seq<Seq<u8>>, key: Seq<u8>, groups: Seq<Seq<usize>>, p: int)
    requires
        is_grouping(keys, groups),
        keys.len() < usize::MAX,
        0 <= p <= groups.len(),
        forall|g: int| 0 <= g < p ==> lex_lt(group_key(keys, #[trigger] groups[g]), key),
        forall|g: int| p <= g < groups.len() ==> lex_lt(key, group_key(keys, #[trigger] groups[g])),
    ensures
        is_grouping(keys.push(key), groups.insert(p, seq![keys.len() as usize])),
{
    let n = keys.len() as usize;
    let all = keys.push(key);
    let grown = groups.insert(p, seq![n]);
    assert forall|g: int| 0 <= g < grown.len() implies is_group(all, #[trigger] grown[g])
        && group_key(all, grown[g]) == (if g < p {
        group_key(keys, groups[g])
    } else if g == p {
        key
    } else {
        group_key(keys, groups[g - 1])
    }) by {
        if g < p {
            assert(grown[g] == groups[g]);
            assert(is_group(keys, groups[g]));
        } else if g > p {
            assert(grown[g] == groups[g - 1]);
            assert(is_group(keys, groups[g - 1]));
        } else {
            assert(grown[g] == seq![n]);
        }
    }
    assert forall|g: int, h: int| 0 <= g < h < grown.len() implies lex_lt(
        group_key(all, #[trigger] grown[g]),
        group_key(all, #[trigger] grown[h]),
    ) by {
        if h < p {
            assert(lex_lt(group_key(keys, groups[g]), group_key(keys, groups[h])));
        } else if h == p {
            assert(lex_lt(group_key(keys, groups[g]), key));
        } else if g < p {
            assert(lex_lt(group_key(keys, groups[g]), group_key(keys, groups[h - 1])));
        } else if g == p {
            assert(lex_lt(key, group_key(keys, groups[h - 1])));
        } else {
            assert(lex_lt(group_key(keys, groups[g - 1]), group_key(keys, groups[h - 1])));
        }
    }
    assert forall|i: int| 0 <= i < all.len() implies is_grouped(grown, i) by {
        if i < n {
            assert(is_grouped(groups, i));
            let (g, m) = choose|g: int, m: int|
                0 <= g < groups.len() && 0 <= m < groups[g].len() && #[trigger] groups[g][m] == i;
            if g < p {
                assert(grown[g] == groups[g]);
                assert(grown[g][m] == i);
            } else {
                assert(grown[g + 1] == groups[g]);
                assert(grown[g + 1][m] == i);
            }
        } else {
            assert(grown[p] == seq![n]);
            assert(grown[p][0] == i);
        }
    }
}

/// Finds a grouping.
proof fn lemma_some_grouping(keys: Seq<Seq<u8>>) -> (groups: Seq<Seq<usize>>)
    requires
        keys.len() <= usize::MAX,
    ensures
        is_grouping(keys, groups),
    decreases keys.len(),
{
    if keys.len() == 0 {
        Seq::empty()
    } else {
        let rest = keys.drop_last();
        let key = keys.last();
        let groups = lemma_some_grouping(rest);
        let p = lemma_place_of_key(rest, groups, key, 0);
        assert(keys =~= rest.push(key));
        if p < groups.len() && key == group_key(rest, groups[p]) {
            lemma_add_to_group(rest, key, groups, p);
            groups.update(p, groups[p].push(rest.len() as usize))
        } else {
            lemma_add_group(rest, key, groups, p);
            groups.insert(p, seq![rest.len() as usize])
        }
    }
}

/// Items can always be grouped by key, as long as they can be counted.
pub proof fn law_grouping_exists(keys: Seq<Seq<u8>>)
    requires
        keys.len() <= usize::MAX,
    ensures
        is_grouping(keys, grouping_of(keys)),
{
    let groups = lemma_some_grouping(keys);
    assert(is_grouping(keys, groups));
}

/// How often a key occurs.
pub open spec fn count_key(keys: Seq<Seq<u8>>, key: Seq<u8>) -> int
    decreases keys.len(),
{
    if keys.len() == 0 {
        0
    } else {
        count_key(keys.drop_last(), key) + if keys.last() == key {
            1int
        } else {
            0
        }
    }
}

/// Among the items before `i`, as many have the key of a group as the group has items before
/// `i`.
proof fn lemma_rank_up_to(
    keys: Seq<Seq<u8>>,
    groups: Seq<Seq<usize>>,
    g: int,
    m: int,
    i: int,
)
    requires
        is_grouping(keys, groups),
        0 <= g < groups.len(),
        0 <= m <= groups[g].len(),
        0 <= i <= keys.len(),
        m > 0 ==> groups[g][m - 1] < i,
        m < groups[g].len() ==> i <= groups[g][m],
    ensures
        count_key(keys.take(i), group_key(keys, groups[g])) == m,
    decreases i,
{
    let group = groups[g];
    assert(is_group(keys, group));
    if i == 0 {
        assert(keys.take(0) =~= Seq::<Seq<u8>>::empty());
    } else {
        assert(keys.take(i).drop_last() =~= keys.take(i - 1));
        if keys[i - 1] == group_key(keys, group) {
            lemma_item_in_group_of_its_key(keys, groups, g, i - 1);
            let x = choose|x: int| 0 <= x < group.len() && #[trigger] group[x] == i - 1;
            assert(x == m - 1) by {
                if x < m - 1 {
                    assert(group[x] < group[m - 1]);
                }
                if m <= x {
                    assert(m < group.len());
                    if m < x {
                        assert(group[m] < group[x]);
                    }
                }
            }
            lemma_rank_up_to(keys, groups, g, m - 1, i - 1);
        } else {
            if m > 0 {
                assert(keys[group[m - 1] as int] == group_key(keys, group));
            }
            lemma_rank_up_to(keys, groups, g, m, i - 1);
        }
    }
}

/// The place of an item in its group is the number of items before it that have its key.
pub proof fn lemma_rank(keys: Seq<Seq<u8>>, g: int, m: int)
    requires
        keys.len() <= usize::MAX,
        0 <= g < grouping_of(keys).len(),
        0 <= m < grouping_of(keys)[g].len(),
    ensures
        count_key(
            keys.take(grouping_of(keys)[g][m] as int),
            keys[grouping_of(keys)[g][m] as int],
        ) == m,
{
    let groups = grouping_of(keys);
    law_grouping_exists(keys);
    assert(is_group(keys, groups[g]));
    lemma_rank_up_to(keys, groups, g, m, groups[g][m] as int);
}

/// Groups items by key.
pub fn group_by_key(keys: &Vec<Vec<u8>>) -> (groups: Vec<Vec<usize>>)
    ensures
        is_grouping(byte_views(keys@), group_views(groups@)),
        group_views(groups@) == grouping_of(byte_views(keys@)),
{
    let ghost views = byte_views(keys@);
    let order: Vec<usize> = sort_range(keys, 0, keys.len());
    let mut groups: Vec<Vec<usize>> = Vec::new();
    let mut s: usize = 0;
    while s < order.len()
        invariant
            views == byte_views(keys@),
            is_sorted_range(views, order@, 0, keys@.len() as int),
            s <= order.len(),
            forall|g: int|
                0 <= g < groups@.len() ==> is_group(views, #[trigger] group_views(groups@)[g]),
            forall|g: int, h: int|
                0 <= g < h < groups@.len() ==> lex_lt(
                    group_key(views, #[trigger] group_views(groups@)[g]),
                    group_key(views, #[trigger] group_views(groups@)[h]),
                ),
            s < order.len() ==> forall|g: int|
                0 <= g < groups@.len() ==> lex_lt(
                    group_key(views, #[trigger] group_views(groups@)[g]),
                    views[order@[s as int] as int],
                ),
            forall|x: int|
                0 <= x < s ==> is_grouped(group_views(groups@), #[trigger] order@[x] as int),
        decreases order.len() - s,
    {
        let ghost before = group_views(groups@);
        let ghost first = s;
        let mut group: Vec<usize> = Vec::new();
        group.push(order[s]);
        s = s + 1;
        while s < order.len() && is_same(keys[order[s]].as_slice(), keys[group[0]].as_slice())
            invariant
                views == byte_views(keys@),
                is_sorted_range(views, order@, 0, keys@.len() as int),
                first < s <= order.len(),
                group@ == order@.subrange(first as int, s as int),
                is_group(views, group@),
            decreases order.len() - s,
        {
            proof {
                lemma_lex_irreflexive(views[order@[s as int] as int]);
                assert forall|a: int| 0 <= a < group@.len() implies #[trigger] group@[a]
                    < order@[s as int] by {
                    assert(precedes(views, order@[first + a] as int, order@[s as int] as int));
                }
            }
            group.push(order[s]);
            s = s + 1;
        }
        let ghost added = group@;
        proof {
            if s < order.len() {
                assert(precedes(views, order@[first as int] as int, order@[s as int] as int));
                assert forall|g: int| 0 <= g < before.len() implies lex_lt(
                    group_key(views, #[trigger] before[g]),
                    views[order@[s as int] as int],
                ) by {
                    lemma_lex_transitive(
                        group_key(views, before[g]),
                        views[order@[first as int] as int],
                        views[order@[s as int] as int],
                    );
                }
            }
        }
        groups.push(group);
        proof {
            let after = group_views(groups@);
            assert(after =~= before.push(added));
            assert forall|x: int| 0 <= x < s implies is_grouped(
                after,
                #[trigger] order@[x] as int,
            ) by {
                if x < first {
                    assert(is_grouped(before, order@[x] as int));
                    let (g, m) = choose|g: int, m: int|
                        0 <= g < before.len() && 0 <= m < before[g].len()
                            && #[trigger] before[g][m] == order@[x] as int;
                    assert(after[g][m] == order@[x]);
                } else {
                    assert(after[before.len() as int][x - first] == order@[x]);
                }
            }
        }
    }
    proof {
        let all = group_views(groups@);
        assert forall|i: int| 0 <= i < views.len() implies is_grouped(all, i) by {
            assert(order@.contains(i as usize));
            let x = choose|x: int| 0 <= x < order@.len() && order@[x] == i as usize;
            assert(is_grouped(all, order@[x] as int));
        }
        assert(is_grouping(views, all));
        law_grouping_unique(views, all, grouping_of(views));
    }
    groups
}

/// Byte strings are ordered by the first byte in which they differ, and a string comes before each
/// longer one that starts with it.
pub proof fn law_byte_order(shared: Seq<u8>, x: u8, y: u8, a: Seq<u8>, b: Seq<u8>)
    ensures
        x < y ==> lex_lt(shared + seq![x] + a, shared + seq![y] + b),
        x < y ==> !lex_lt(shared + seq![y] + b, shared + seq![x] + a),
        lex_lt(shared, shared + seq![x] + a),
        !lex_lt(shared + seq![x] + a, shared),
        !lex_lt(shared, shared),
{
    let low = shared + seq![x] + a;
    let high = shared + seq![y] + b;
    let p = shared.len() as int;
    assert(low.take(p) =~= shared && high.take(p) =~= shared && shared.take(p) =~= shared);
    assert(parts_below(shared, low, p));
    lemma_lex_irreflexive(shared);
    if lex_lt(low, shared) {
        lemma_lex_transitive(shared, low, shared);
    }
    if x < y {
        assert(parts_below(low, high, p));
        if lex_lt(high, low) {
            lemma_lex_transitive(high, low, high);
            lemma_lex_irreflexive(high);
        }
    }
}

/// Grouping puts each item in one group. Items are in the same group exactly where their keys are
/// equal, a group lists its items in their order, and the groups ascend by key.
pub proof fn law_grouping(keys: Seq<Seq<u8>>, item: int)
    requires
        keys.len() <= usize::MAX,
    ensures
        ({
            let groups = grouping_of(keys);
            &&& forall|g: int| 0 <= g < groups.len() ==> (#[trigger] groups[g]).len() > 0
            &&& forall|g: int, m: int|
                0 <= g < groups.len() && 0 <= m < groups[g].len() ==> #[trigger] groups[g][m]
                    < keys.len() && keys[groups[g][m] as int] == keys[groups[g][0] as int]
            &&& forall|g: int, m: int, n: int|
                0 <= g < groups.len() && 0 <= m < n < groups[g].len() ==> (
                #[trigger] groups[g][m]) < (#[trigger] groups[g][n])
            &&& forall|g: int, h: int|
                0 <= g < h < groups.len() ==> lex_lt(
                    keys[(#[trigger] groups[g])[0] as int],
                    keys[(#[trigger] groups[h])[0] as int],
                )
            &&& 0 <= item < keys.len() ==> exists|g: int, m: int|
                0 <= g < groups.len() && 0 <= m < groups[g].len() && #[trigger] groups[g][m]
                    == item
        }),
{
    let groups = grouping_of(keys);
    law_grouping_exists(keys);
    assert forall|g: int| 0 <= g < groups.len() implies is_group(keys, #[trigger] groups[g]) by {}
    assert forall|g: int, m: int| 0 <= g < groups.len() && 0 <= m < groups[g].len() implies
        #[trigger] groups[g][m] < keys.len() && keys[groups[g][m] as int]
        == keys[groups[g][0] as int] by {
        assert(is_group(keys, groups[g]));
    }
    assert forall|g: int, m: int, n: int|
        0 <= g < groups.len() && 0 <= m < n < groups[g].len() implies (#[trigger] groups[g][m]) < (
    #[trigger] groups[g][n]) by {
        assert(is_group(keys, groups[g]));
    }
    assert forall|g: int, h: int| 0 <= g < h < groups.len() implies lex_lt(
        keys[(#[trigger] groups[g])[0] as int],
        keys[(#[trigger] groups[h])[0] as int],
    ) by {
        assert(lex_lt(group_key(keys, groups[g]), group_key(keys, groups[h])));
    }
    assert(0 <= item < keys.len() ==> is_grouped(groups, item));
}

/// How often a key occurs: as often as it is among the keys.
pub proof fn law_count_key(keys: Seq<Seq<u8>>, key: Seq<u8>)
    ensures
        count_key(keys, key) == keys.filter(|other: Seq<u8>| other == key).len(),
    decreases keys.len(),
{
    reveal(Seq::filter);
    if keys.len() > 0 {
        law_count_key(keys.drop_last(), key);
    }
}

/// The byte strings and the groups of a list are its own.
pub proof fn law_views_are_contents(keys: Seq<Vec<u8>>, groups: Seq<Vec<usize>>)
    ensures
        byte_views(keys).len() == keys.len(),
        forall|i: int| 0 <= i < keys.len() ==> #[trigger] byte_views(keys)[i] == keys[i]@,
        group_views(groups).len() == groups.len(),
        forall|g: int| 0 <= g < groups.len() ==> #[trigger] group_views(groups)[g] == groups[g]@,
{
}

/// A group has as many items as have its key.
pub proof fn lemma_group_size(keys: Seq<Seq<u8>>, g: int)
    requires
        keys.len() <= usize::MAX,
        0 <= g < grouping_of(keys).len(),
    ensures
        grouping_of(keys)[g].len() > 0,
        count_key(keys, group_key(keys, grouping_of(keys)[g])) == grouping_of(keys)[g].len(),
{
    let groups = grouping_of(keys);
    law_grouping_exists(keys);
    assert(is_group(keys, groups[g]));
    let n = groups[g].len() as int;
    assert(groups[g][n - 1] < keys.len());
    lemma_rank_up_to(keys, groups, g, n, keys.len() as int);
    assert(keys.take(keys.len() as int) =~= keys);
}

} // verus!
