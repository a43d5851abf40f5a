//! The connection matrix: patches to it, and its packed form.
//!
//! The matrix holds a signed 16-bit cost for each pair of a left and a right number, row by row:
//! the cost of (left, right) is the one numbered `right * num_left + left`. It is packed in blocks
//! of 256 rows and columns. A block stores its smallest cost and the distance of each cost from
//! that one, with as many bits as the largest distance needs.

use crate::bytes::{
    i16_at, law_le16_reads_back, law_le32_reads_back, law_le32s_read_back, le16, le32, le32s,
    lemma_le32s_len, push_bytes, push_i16, push_len, push_len16, push_u32, push_u32s, read_i16_le,
    u16_at, u32_at,
};
use crate::order::byte_views;
use crate::table::{concat, law_row_found, lay_out, lemma_row_start_step, row_start, row_starts};
use std::collections::HashMap;
use vstd::arithmetic::div_mod::lemma_fundamental_div_mod_converse;
use vstd::prelude::*;

verus! {

broadcast use vstd::std_specs::hash::group_hash_axioms;

/// The number of rows and of columns of a full block.
pub const BLOCK_SIZE: usize = 256;

/// What a packed matrix starts with: `MCBP`.
pub const BITPACKED_MAGIC: u32 = 0x4D43_4250;

/// The place of a cost in the buffer.
pub open spec fn cell_place(start: int, num_left: int, left: int, right: int) -> int {
    start + 2 * (right * num_left + left)
}

/// The cost of a pair.
pub open spec fn cell(buf: Seq<u8>, start: int, num_left: int, left: int, right: int) -> int {
    i16_at(buf, cell_place(start, num_left, left, right))
}

/// The nearest number that fits in 16 bits with sign.
pub open spec fn clamp16(n: int) -> int {
    if n < -0x8000 {
        -0x8000
    } else if n > 0x7FFF {
        0x7FFF
    } else {
        n
    }
}

/// Whether a patch is for a pair that the matrix has. The key of a patch is its right number times
/// 65536, plus its left number.
pub open spec fn patch_hits(key: u32, num_left: int, num_right: int) -> bool {
    key as int % 0x1_0000 < num_left && key as int / 0x1_0000 < num_right
}

/// The byte at `i` of a buffer in which the matrix was patched.
pub open spec fn patched_byte(
    buf: Seq<u8>,
    start: int,
    num_left: int,
    num_right: int,
    patches: Map<u32, i16>,
    i: int,
) -> u8 {
    let number = (i - start) / 2;
    let left = number % num_left;
    let right = number / num_left;
    let key = (right * 0x1_0000 + left) as u32;
    if start <= i && 0 < num_left && left < 0x1_0000 && right < 0x1_0000 && right < num_right
        && patches.contains_key(key) {
        le16(clamp16(cell(buf, start, num_left, left, right) + patches[key]))[(i - start) % 2]
    } else {
        buf[i]
    }
}

/// A buffer in which each cost that has a patch is changed by it, without leaving the range of 16
/// bits.
pub open spec fn patched(
    buf: Seq<u8>,
    start: int,
    num_left: int,
    num_right: int,
    patches: Map<u32, i16>,
) -> Seq<u8> {
    Seq::new(buf.len(), |i: int| patched_byte(buf, start, num_left, num_right, patches, i))
}

/// The patches for pairs that the matrix has.
pub open spec fn hitting(patches: Map<u32, i16>, num_left: int, num_right: int) -> Set<u32> {
    patches.dom().filter(|key: u32| patch_hits(key, num_left, num_right))
}

/// A matrix with fewer than 2^15 + 1 rows is hit by fewer than 2^32 patches.
pub proof fn lemma_hits_few(patches: Map<u32, i16>, num_left: int, num_right: int)
    requires
        patches.dom().finite(),
        num_left == 0 || num_right <= 0x8000,
    ensures
        hitting(patches, num_left, num_right).len() <= u32::MAX,
{
    let hits = hitting(patches, num_left, num_right);
    let f = |key: u32| key as int;
    let image = hits.map(f);
    let all = vstd::set_lib::set_int_range(0, 0x8000_0000);
    vstd::set_lib::lemma_int_range(0, 0x8000_0000);
    vstd::set_lib::lemma_map_size(hits, image, f);
    assert forall|n: int| image.contains(n) implies all.contains(n) by {
        let key = choose|key: u32| hits.contains(key) && f(key) == n;
        assert(patch_hits(key, num_left, num_right));
    }
    vstd::set_lib::lemma_len_subset(image, all);
}

/// A number of a cost determines its pair.
proof fn lemma_cell_number(num_left: int, left: int, right: int)
    requires
        0 <= left < num_left,
    ensures
        (right * num_left + left) / num_left == right,
        (right * num_left + left) % num_left == left,
{
    lemma_fundamental_div_mod_converse(right * num_left + left, num_left, right, left);
}

/// Applying one more patch.
proof fn lemma_patch_step(
    buf: Seq<u8>,
    start: int,
    num_left: int,
    num_right: int,
    patches: Map<u32, i16>,
    done: Set<u32>,
    key: u32,
)
    requires
        0 <= start,
        patches.contains_key(key),
        !done.contains(key),
        patch_hits(key, num_left, num_right),
        cell_place(start, num_left, key as int % 0x1_0000, key as int / 0x1_0000) + 2 <= buf.len(),
    ensures
        ({
            let left = key as int % 0x1_0000;
            let right = key as int / 0x1_0000;
            let place = cell_place(start, num_left, left, right);
            let before = patched(buf, start, num_left, num_right, patches.restrict(done));
            let changed = le16(clamp16(cell(buf, start, num_left, left, right) + patches[key]));
            &&& 0 <= place
            &&& i16_at(before, place) == cell(buf, start, num_left, left, right)
            &&& patched(buf, start, num_left, num_right, patches.restrict(done.insert(key)))
                == before.update(place, changed[0]).update(place + 1, changed[1])
        }),
{
    let left = key as int % 0x1_0000;
    let right = key as int / 0x1_0000;
    let number = right * num_left + left;
    let place = cell_place(start, num_left, left, right);
    assert(0 <= right * num_left) by (nonlinear_arith)
        requires
            0 <= right,
            0 <= num_left,
    ;
    lemma_cell_number(num_left, left, right);
    let small = patches.restrict(done);
    let large = patches.restrict(done.insert(key));
    let before = patched(buf, start, num_left, num_right, small);
    let changed = le16(clamp16(cell(buf, start, num_left, left, right) + patches[key]));
    let after = before.update(place, changed[0]).update(place + 1, changed[1]);
    assert((place - start) / 2 == number && (place + 1 - start) / 2 == number);
    assert(before[place] == buf[place] && before[place + 1] == buf[place + 1]);
    assert forall|i: int| 0 <= i < buf.len() implies #[trigger] after[i] == patched_byte(
        buf,
        start,
        num_left,
        num_right,
        large,
        i,
    ) by {
        let n = (i - start) / 2;
        if start <= i && n == number {
            assert(i == place || i == place + 1);
        } else if start <= i {
            let l = n % num_left;
            let r = n / num_left;
            vstd::arithmetic::div_mod::lemma_fundamental_div_mod(n, num_left);
            assert(num_left * r == r * num_left) by (nonlinear_arith);
            assert(0 <= l < num_left) by (nonlinear_arith)
                requires
                    l == n % num_left,
                    num_left > 0,
            ;
            assert(0 <= r) by (nonlinear_arith)
                requires
                    r == n / num_left,
                    0 <= n,
                    num_left > 0,
            ;
            if l < 0x1_0000 && r < 0x1_0000 {
                let k = (r * 0x1_0000 + l) as u32;
                assert(k == r * 0x1_0000 + l);
                assert(k != key);
                assert(large.contains_key(k) <==> small.contains_key(k));
            }
            assert(i != place && i != place + 1);
        }
    }
    assert(after =~= patched(buf, start, num_left, num_right, large));
}

/// Applies patches to the matrix, and counts those that were for a pair of it.
pub fn apply_matrix_patches(
    buf: &mut [u8],
    matrix_start: usize,
    num_left: usize,
    num_right: usize,
    patches: &HashMap<u32, i16>,
) -> (applied: u32)
    requires
        hitting(patches@, num_left as int, num_right as int).len() <= u32::MAX,
        forall|key: u32|
            #[trigger] patches@.contains_key(key) && patch_hits(
                key,
                num_left as int,
                num_right as int,
            ) ==> cell_place(
                matrix_start as int,
                num_left as int,
                key as int % 0x1_0000,
                key as int / 0x1_0000,
            ) + 2 <= old(buf)@.len(),
    ensures
        final(buf)@ == patched(
            old(buf)@,
            matrix_start as int,
            num_left as int,
            num_right as int,
            patches@,
        ),
        applied == hitting(patches@, num_left as int, num_right as int).len(),
{
    let ghost unpatched = buf@;
    let ghost start = matrix_start as int;
    let ghost nl = num_left as int;
    let ghost nr = num_right as int;
    let ghost mut done: Set<u32> = Set::empty();
    let mut applied: u32 = 0;
    assert(buf@ =~= patched(unpatched, start, nl, nr, patches@.restrict(done)));
    for entry in it: patches.iter()
        invariant
            it.seq().no_duplicates(),
            forall|i: int|
                0 <= i < it.seq().len() ==> patches@.contains_key(*(#[trigger] it.seq()[i]).0)
                    && patches@[*it.seq()[i].0] == *it.seq()[i].1,
            forall|key: u32|
                #[trigger] patches@.contains_key(key) ==> it.seq().contains((&key, &patches@[key])),
            start == matrix_start,
            nl == num_left,
            nr == num_right,
            hitting(patches@, nl, nr).len() <= u32::MAX,
            forall|key: u32|
                #[trigger] patches@.contains_key(key) && patch_hits(key, nl, nr) ==> cell_place(
                    start,
                    nl,
                    key as int % 0x1_0000,
                    key as int / 0x1_0000,
                ) + 2 <= unpatched.len(),
            patches@.dom().finite(),
            done.finite(),
            applied == done.len(),
            done.subset_of(hitting(patches@, nl, nr)),
            forall|i: int|
                0 <= i < it.index() && patch_hits(*(#[trigger] it.seq()[i]).0, nl, nr)
                    ==> done.contains(*it.seq()[i].0),
            forall|key: u32| #[trigger]
                done.contains(key) ==> exists|i: int|
                    0 <= i < it.index() && *(#[trigger] it.seq()[i]).0 == key,
            buf@.len() == unpatched.len(),
            buf@ == patched(unpatched, start, nl, nr, patches@.restrict(done)),
    {
        let key: u32 = *entry.0;
        let delta: i16 = *entry.1;
        let left: usize = (key % 0x1_0000) as usize;
        let right: usize = (key / 0x1_0000) as usize;
        if left < num_left && right < num_right {
            proof {
                assert(patches@.contains_key(key) && patch_hits(key, nl, nr));
                if done.contains(key) {
                    let i = choose|i: int|
                        0 <= i < it.index() && *(#[trigger] it.seq()[i]).0 == key;
                    assert(it.seq()[i] == it.seq()[it.index() as int]);
                }
                lemma_patch_step(unpatched, start, nl, nr, patches@, done, key);
                assert(right * nl >= 0) by (nonlinear_arith)
                    requires
                        right >= 0,
                        nl >= 0,
                ;
                assert(done.insert(key).subset_of(hitting(patches@, nl, nr)));
                vstd::set_lib::lemma_len_subset(done.insert(key), hitting(patches@, nl, nr));
            }
            assert(cell_place(start, nl, left as int, right as int) + 2 <= buf.len());
            let number: usize = right * num_left + left;
            let place: usize = matrix_start + number * 2;
            let current: i16 = read_i16_le(buf, place);
            let sum: i32 = current as i32 + delta as i32;
            let cost: i16 = if sum < -0x8000 {
                -0x8000
            } else if sum > 0x7FFF {
                0x7FFF
            } else {
                sum as i16
            };
            let mut bytes: Vec<u8> = Vec::new();
            push_i16(&mut bytes, cost);
            buf[place] = bytes[0];
            buf[place + 1] = bytes[1];
            applied = applied + 1;
            proof {
                done = done.insert(key);
            }
        }
    }
    proof {
        let all = hitting(patches@, nl, nr);
        assert forall|key: u32| all.contains(key) implies done.contains(key) by {
            assert(patches@.contains_key(key));
        }
        assert(done =~= all);
        assert(buf@ =~= patched(unpatched, start, nl, nr, patches@)) by {
            assert forall|i: int| 0 <= i < unpatched.len() implies patched_byte(
                unpatched,
                start,
                nl,
                nr,
                patches@.restrict(done),
                i,
            ) == patched_byte(unpatched, start, nl, nr, patches@, i) by {
                let n = (i - start) / 2;
                if start <= i && nl > 0 {
                    let l = n % nl;
                    let r = n / nl;
                    assert(0 <= l < nl) by (nonlinear_arith)
                        requires
                            l == n % nl,
                            nl > 0,
                    ;
                    assert(0 <= r) by (nonlinear_arith)
                        requires
                            r == n / nl,
                            0 <= n,
                            nl > 0,
                    ;
                    if l < 0x1_0000 && r < 0x1_0000 && r < nr {
                        let k = (r * 0x1_0000 + l) as u32;
                        assert(k == r * 0x1_0000 + l);
                        assert(patch_hits(k, nl, nr));
                    }
                }
            }
        }
    }
    applied
}

/// Patching changes the cost of a pair by its patch, if it has one, and keeps it otherwise.
pub proof fn law_patched_cell(
    buf: Seq<u8>,
    start: int,
    num_left: int,
    num_right: int,
    patches: Map<u32, i16>,
    left: int,
    right: int,
)
    requires
        0 <= start,
        0 <= left < num_left,
        0 <= right < num_right,
        left < 0x1_0000,
        right < 0x1_0000,
        cell_place(start, num_left, left, right) + 2 <= buf.len(),
    ensures
        ({
            let key = (right * 0x1_0000 + left) as u32;
            cell(patched(buf, start, num_left, num_right, patches), start, num_left, left, right)
                == if patches.contains_key(key) {
                clamp16(cell(buf, start, num_left, left, right) + patches[key])
            } else {
                cell(buf, start, num_left, left, right)
            }
        }),
{
    let number = right * num_left + left;
    let place = cell_place(start, num_left, left, right);
    assert(0 <= right * num_left) by (nonlinear_arith)
        requires
            0 <= right,
            0 <= num_left,
    ;
    lemma_cell_number(num_left, left, right);
    assert((place - start) / 2 == number && (place + 1 - start) / 2 == number);
    let after = patched(buf, start, num_left, num_right, patches);
    let key = (right * 0x1_0000 + left) as u32;
    if patches.contains_key(key) {
        let n = clamp16(cell(buf, start, num_left, left, right) + patches[key]);
        let before = Seq::<u8>::empty();
        law_le16_reads_back(n, before, before);
        assert(before + le16(n) + before =~= le16(n));
        assert(after[place] == le16(n)[0]);
        assert(after[place + 1] == le16(n)[1]);
    } else {
        assert(after[place] == buf[place]);
        assert(after[place + 1] == buf[place + 1]);
    }
}

/// Patching keeps what is not in the matrix.
pub proof fn law_patched_outside(
    buf: Seq<u8>,
    start: int,
    num_left: int,
    num_right: int,
    patches: Map<u32, i16>,
    i: int,
)
    requires
        0 <= num_left,
        0 <= num_right,
        0 <= i < buf.len(),
        i < start || start + num_left * num_right * 2 <= i,
    ensures
        patched(buf, start, num_left, num_right, patches)[i] == buf[i],
{
    if start <= i && 0 < num_left {
        let number = (i - start) / 2;
        let right = number / num_left;
        assert(number >= num_left * num_right);
        assert(right >= num_right) by (nonlinear_arith)
            requires
                right == number / num_left,
                number >= num_left * num_right,
                num_left > 0,
        ;
    }
}

/// How many blocks it takes to cover `n` rows or columns.
pub open spec fn block_count(n: int) -> int {
    (n + 255) / 256
}

/// How many of `n` rows or columns fall in block `b`.
pub open spec fn block_len(n: int, b: int) -> int {
    if n - 256 * b < 256 {
        n - 256 * b
    } else {
        256
    }
}

/// One block of the matrix: its smallest cost, the distance from there to its largest cost, and
/// the distance of each cost, row by row.
pub struct MatrixBlock {
    pub min_val: i16,
    pub range: u16,
    pub offsets: Vec<u16>,
}

/// The cost numbered `k` in a block.
pub open spec fn block_cost(
    buf: Seq<u8>,
    start: int,
    num_left: int,
    row_block: int,
    col_block: int,
    k: int,
) -> int {
    let cols = block_len(num_left, col_block);
    cell(buf, start, num_left, 256 * col_block + k % cols, 256 * row_block + k / cols)
}

/// Whether `block` is the block of the matrix in the given row and column of blocks.
pub open spec fn is_block(
    buf: Seq<u8>,
    start: int,
    num_left: int,
    num_right: int,
    row_block: int,
    col_block: int,
    block: MatrixBlock,
) -> bool {
    &&& block.offsets@.len() == block_len(num_right, row_block) * block_len(num_left, col_block)
    &&& forall|k: int|
        0 <= k < block.offsets@.len() ==> block.min_val + #[trigger] block.offsets@[k]
            == block_cost(buf, start, num_left, row_block, col_block, k)
    &&& forall|k: int|
        0 <= k < block.offsets@.len() ==> #[trigger] block.offsets@[k] <= block.range
    &&& block.offsets@.contains(0)
    &&& block.offsets@.contains(block.range)
}

/// Whether the costs of all pairs are in the buffer.
pub open spec fn matrix_fits(len: int, start: int, num_left: int, num_right: int) -> bool {
    num_left * num_right == 0 || start + 2 * (num_left * num_right) <= len
}

/// A cost of a pair of the matrix is in the buffer.
pub proof fn lemma_cell_in_buffer(
    len: int,
    start: int,
    num_left: int,
    num_right: int,
    left: int,
    right: int,
)
    requires
        matrix_fits(len, start, num_left, num_right),
        0 <= start,
        0 <= left < num_left,
        0 <= right < num_right,
    ensures
        start <= cell_place(start, num_left, left, right),
        0 <= right * num_left,
        cell_place(start, num_left, left, right) + 2 <= len,
{
    assert(0 <= right * num_left && right * num_left + num_left <= num_left * num_right)
        by (nonlinear_arith)
        requires
            0 <= right < num_right,
            0 < num_left,
    ;
    assert(num_left * num_right > 0) by (nonlinear_arith)
        requires
            0 < num_left,
            0 < num_right,
    ;
}

/// Reads one block of the matrix.
fn read_block(
    buf: &[u8],
    matrix_start: usize,
    num_left: usize,
    num_right: usize,
    row_block: usize,
    col_block: usize,
) -> (block: MatrixBlock)
    requires
        matrix_fits(buf.len() as int, matrix_start as int, num_left as int, num_right as int),
        256 * row_block < num_right,
        256 * col_block < num_left,
    ensures
        is_block(
            buf@,
            matrix_start as int,
            num_left as int,
            num_right as int,
            row_block as int,
            col_block as int,
            block,
        ),
{
    let row_start: usize = row_block * BLOCK_SIZE;
    let col_start: usize = col_block * BLOCK_SIZE;
    let rows: usize = if num_right - row_start < BLOCK_SIZE {
        num_right - row_start
    } else {
        BLOCK_SIZE
    };
    let cols: usize = if num_left - col_start < BLOCK_SIZE {
        num_left - col_start
    } else {
        BLOCK_SIZE
    };
    assert(1 <= rows * cols <= 256 * 256) by (nonlinear_arith)
        requires
            1 <= rows <= 256,
            1 <= cols <= 256,
    ;
    let cells: usize = rows * cols;
    let mut values: Vec<i16> = Vec::new();
    let mut min_val: i16 = i16::MAX;
    let mut max_val: i16 = i16::MIN;
    let mut r: usize = 0;
    let mut c: usize = 0;
    while r < rows
        invariant
            matrix_fits(buf.len() as int, matrix_start as int, num_left as int, num_right as int),
            row_start == 256 * row_block,
            col_start == 256 * col_block,
            row_start + rows <= num_right,
            col_start + cols <= num_left,
            cols == block_len(num_left as int, col_block as int),
            rows == block_len(num_right as int, row_block as int),
            cells == rows * cols,
            1 <= cols <= 256,
            1 <= rows <= 256,
            r <= rows,
            c < cols,
            r == rows ==> c == 0,
            values@.len() == r * cols + c,
            forall|k: int|
                0 <= k < values@.len() ==> #[trigger] values@[k] == block_cost(
                    buf@,
                    matrix_start as int,
                    num_left as int,
                    row_block as int,
                    col_block as int,
                    k,
                ),
            forall|k: int|
                0 <= k < values@.len() ==> min_val <= #[trigger] values@[k] <= max_val,
            values@.len() > 0 ==> values@.contains(min_val) && values@.contains(max_val),
            values@.len() == 0 ==> min_val == i16::MAX && max_val == i16::MIN,
        decreases rows - r, cols - c,
    {
        let right: usize = row_start + r;
        let left: usize = col_start + c;
        proof {
            lemma_cell_in_buffer(
                buf.len() as int,
                matrix_start as int,
                num_left as int,
                num_right as int,
                left as int,
                right as int,
            );
            lemma_cell_number(cols as int, c as int, r as int);
            assert(r * cols + cols == (r + 1) * cols) by (nonlinear_arith);
        }
        let number: usize = right * num_left + left;
        let val: i16 = read_i16_le(buf, matrix_start + number * 2);
        let ghost before = values@;
        values.push(val);
        assert(values@[before.len() as int] == val);
        let ghost old_min = min_val;
        let ghost old_max = max_val;
        if val < min_val {
            min_val = val;
        }
        if val > max_val {
            max_val = val;
        }
        proof {
            if before.len() > 0 {
                let a = choose|a: int| 0 <= a < before.len() && before[a] == old_min;
                let b = choose|b: int| 0 <= b < before.len() && before[b] == old_max;
                assert(values@[a] == old_min && values@[b] == old_max);
            }
        }
        c = c + 1;
        if c == cols {
            c = 0;
            r = r + 1;
        }
    }
    assert(values@.len() == cells);
    let range: u16 = (max_val as i32 - min_val as i32) as u16;
    let mut offsets: Vec<u16> = Vec::new();
    let mut i: usize = 0;
    while i < values.len()
        invariant
            i <= values.len(),
            offsets@.len() == i,
            range == max_val - min_val,
            forall|k: int|
                0 <= k < values@.len() ==> min_val <= #[trigger] values@[k] <= max_val,
            forall|k: int| 0 <= k < i ==> min_val + #[trigger] offsets@[k] == values@[k],
        decreases values.len() - i,
    {
        assert(min_val <= values@[i as int] <= max_val);
        offsets.push((values[i] as i32 - min_val as i32) as u16);
        i = i + 1;
    }
    proof {
        let a = choose|a: int| 0 <= a < values@.len() && values@[a] == min_val;
        let b = choose|b: int| 0 <= b < values@.len() && values@[b] == max_val;
        assert(offsets@[a] == 0);
        assert(offsets@[b] == range);
        assert forall|k: int| 0 <= k < offsets@.len() implies #[trigger] offsets@[k] <= range by {
            assert(values@[k] <= max_val);
        }
        assert forall|k: int| 0 <= k < offsets@.len() implies min_val + #[trigger] offsets@[k]
            == block_cost(
            buf@,
            matrix_start as int,
            num_left as int,
            row_block as int,
            col_block as int,
            k,
        ) by {
            assert(values@[k] == min_val + offsets@[k]);
        }
    }
    MatrixBlock { min_val, range, offsets }
}

/// Whether `blocks` are the blocks of the matrix, row by row.
pub open spec fn are_blocks(
    buf: Seq<u8>,
    start: int,
    num_left: int,
    num_right: int,
    blocks: Seq<MatrixBlock>,
) -> bool {
    let across = block_count(num_left);
    &&& blocks.len() == block_count(num_right) * across
    &&& forall|b: int|
        0 <= b < blocks.len() ==> is_block(
            buf,
            start,
            num_left,
            num_right,
            b / across,
            b % across,
            #[trigger] blocks[b],
        )
}

/// Reads the blocks of the matrix.
pub fn matrix_blocks(buf: &[u8], matrix_start: usize, num_left: usize, num_right: usize) -> (blocks:
    Vec<MatrixBlock>)
    requires
        matrix_fits(buf.len() as int, matrix_start as int, num_left as int, num_right as int),
        num_left + 255 <= usize::MAX,
        num_right + 255 <= usize::MAX,
    ensures
        are_blocks(buf@, matrix_start as int, num_left as int, num_right as int, blocks@),
{
    let down: usize = (num_right + (BLOCK_SIZE - 1)) / BLOCK_SIZE;
    let across: usize = (num_left + (BLOCK_SIZE - 1)) / BLOCK_SIZE;
    let mut blocks: Vec<MatrixBlock> = Vec::new();
    if across == 0 {
        assert(block_count(num_right as int) * 0 == 0);
        return blocks;
    }
    let mut row_block: usize = 0;
    let mut col_block: usize = 0;
    assert(0 * across == 0);
    while row_block < down
        invariant
            matrix_fits(buf.len() as int, matrix_start as int, num_left as int, num_right as int),
            down == block_count(num_right as int),
            across == block_count(num_left as int),
            row_block <= down,
            col_block < across,
            row_block == down ==> col_block == 0,
            blocks@.len() == row_block * across + col_block,
            forall|b: int|
                0 <= b < blocks@.len() ==> is_block(
                    buf@,
                    matrix_start as int,
                    num_left as int,
                    num_right as int,
                    b / across as int,
                    b % across as int,
                    #[trigger] blocks@[b],
                ),
        decreases down - row_block, across - col_block,
    {
        proof {
            lemma_cell_number(across as int, col_block as int, row_block as int);
            assert(row_block * across + across == (row_block + 1) * across) by (nonlinear_arith);
        }
        blocks.push(read_block(buf, matrix_start, num_left, num_right, row_block, col_block));
        col_block = col_block + 1;
        if col_block == across {
            col_block = 0;
            row_block = row_block + 1;
        }
    }
    blocks
}

/// The cost of each pair can be computed from one block: the block and the place in it follow from
/// the pair, and the cost is the smallest cost of the block and the distance that stands there.
pub proof fn law_cost_in_block(
    buf: Seq<u8>,
    start: int,
    num_left: int,
    num_right: int,
    blocks: Seq<MatrixBlock>,
    left: int,
    right: int,
)
    requires
        are_blocks(buf, start, num_left, num_right, blocks),
        0 <= left < num_left,
        0 <= right < num_right,
    ensures
        ({
            let b = right / 256 * block_count(num_left) + left / 256;
            let k = right % 256 * block_len(num_left, left / 256) + left % 256;
            &&& 0 <= b < blocks.len()
            &&& 0 <= k < blocks[b].offsets@.len()
            &&& blocks[b].min_val + blocks[b].offsets@[k] == cell(buf, start, num_left, left, right)
        }),
{
    let across = block_count(num_left);
    let rb = right / 256;
    let cb = left / 256;
    let b = rb * across + cb;
    lemma_cell_number(across, cb, rb);
    assert(0 <= rb * across && rb * across + across <= block_count(num_right) * across)
        by (nonlinear_arith)
        requires
            0 <= rb < block_count(num_right),
            0 < across,
    ;
    let block = blocks[b];
    assert(is_block(buf, start, num_left, num_right, rb, cb, block));
    let cols = block_len(num_left, cb);
    let rows = block_len(num_right, rb);
    let r = right % 256;
    let c = left % 256;
    let k = r * cols + c;
    lemma_cell_number(cols, c, r);
    assert(0 <= r * cols && r * cols + cols <= rows * cols) by (nonlinear_arith)
        requires
            0 <= r < rows,
            0 < cols,
    ;
    assert(block.min_val + block.offsets@[k] == block_cost(buf, start, num_left, rb, cb, k));
}

/// The distances of a block in their packed form: the number of bits for each of them, and the
/// packed distances.
pub struct PackedBlock {
    pub bit_width: u8,
    pub packed: Vec<u8>,
}

/// How many bytes it takes to pack `cells` numbers of `bit_width` bits.
pub open spec fn packed_len(cells: int, bit_width: int) -> int {
    (cells * bit_width + 7) / 8
}

/// Room for the distances of a block, all of it zero.
pub fn packing_room(cells: usize, bit_width: u8) -> (room: Vec<u8>)
    requires
        cells <= 0x1_0000,
    ensures
        room@ == Seq::new(packed_len(cells as int, bit_width as int) as nat, |i: int| 0u8),
{
    assert(0 <= cells * bit_width <= 0x1_0000 * 255) by (nonlinear_arith)
        requires
            0 <= cells <= 0x1_0000,
            0 <= bit_width <= 255,
    ;
    let size: usize = (cells * (bit_width as usize) + 7) / 8;
    let room: Vec<u8> = vec![0u8; size];
    assert(room@ =~= Seq::new(packed_len(cells as int, bit_width as int) as nat, |i: int| 0u8));
    room
}

/// The bit at which each distance of a block is packed, with the distance.
pub fn packing_plan(offsets: &[u16], bit_width: u8) -> (plan: Vec<(usize, u16)>)
    requires
        offsets.len() <= 0x1_0000,
    ensures
        plan@.len() == offsets.len(),
        forall|i: int|
            0 <= i < plan@.len() ==> (#[trigger] plan@[i]).0 == i * bit_width && plan@[i].1
                == offsets@[i],
{
    let mut plan: Vec<(usize, u16)> = Vec::new();
    let mut i: usize = 0;
    while i < offsets.len()
        invariant
            i <= offsets.len() <= 0x1_0000,
            plan@.len() == i,
            forall|j: int|
                0 <= j < i ==> (#[trigger] plan@[j]).0 == j * bit_width && plan@[j].1
                    == offsets@[j],
        decreases offsets.len() - i,
    {
        assert(0 <= i * bit_width <= 0x1_0000 * 255) by (nonlinear_arith)
            requires
                0 <= i <= 0x1_0000,
                0 <= bit_width <= 255,
        ;
        plan.push((i * (bit_width as usize), offsets[i]));
        i = i + 1;
    }
    plan
}

/// The bytes of a block: its smallest cost, and its distances in their packed form.
pub open spec fn block_bytes(block: MatrixBlock, packed: PackedBlock) -> Seq<u8> {
    le16(block.min_val as int) + seq![packed.bit_width] + packed.packed@
}

/// The bytes of all blocks.
pub open spec fn block_rows(blocks: Seq<MatrixBlock>, packed: Seq<PackedBlock>) -> Seq<Seq<u8>> {
    Seq::new(blocks.len(), |b: int| block_bytes(blocks[b], packed[b]))
}

/// A packed matrix: what it starts with, its dimensions, the number of blocks, the place of each
/// block among the blocks, and the blocks.
pub open spec fn bitpacked(num_left: int, num_right: int, rows: Seq<Seq<u8>>) -> Seq<u8> {
    le32(BITPACKED_MAGIC as int) + le16(num_left) + le16(num_right) + le32(rows.len() as int)
        + le32s(row_starts(rows)) + concat(rows)
}

/// The bytes of each block.
fn build_block_rows(blocks: &Vec<MatrixBlock>, packed: &Vec<PackedBlock>) -> (rows: Vec<Vec<u8>>)
    requires
        packed@.len() == blocks@.len(),
    ensures
        byte_views(rows@) == block_rows(blocks@, packed@),
{
    let mut rows: Vec<Vec<u8>> = Vec::new();
    let mut i: usize = 0;
    while i < blocks.len()
        invariant
            i <= blocks.len(),
            packed@.len() == blocks@.len(),
            rows@.len() == i,
            forall|j: int|
                0 <= j < i ==> #[trigger] rows@[j]@ == block_bytes(blocks@[j], packed@[j]),
        decreases blocks.len() - i,
    {
        let mut row: Vec<u8> = Vec::new();
        push_i16(&mut row, blocks[i].min_val);
        row.push(packed[i].bit_width);
        push_bytes(&mut row, packed[i].packed.as_slice());
        assert(row@ =~= block_bytes(blocks@[i as int], packed@[i as int]));
        rows.push(row);
        i = i + 1;
    }
    assert(byte_views(rows@) =~= block_rows(blocks@, packed@));
    rows
}

/// Whether the places of the blocks can be written with 32 bits.
pub fn check_blocks(blocks: &Vec<MatrixBlock>, packed: &Vec<PackedBlock>) -> (fits: bool)
    requires
        packed@.len() == blocks@.len(),
    ensures
        fits == (concat(block_rows(blocks@, packed@)).len() <= u32::MAX),
{
    let rows: Vec<Vec<u8>> = build_block_rows(blocks, packed);
    let (data, _) = lay_out(&rows);
    data.len() as u64 <= u32::MAX as u64
}

/// Puts the packed matrix together, from its blocks and the packed form of their distances.
pub fn bitpack_connection_matrix(
    num_left: usize,
    num_right: usize,
    blocks: &Vec<MatrixBlock>,
    packed: &Vec<PackedBlock>,
) -> (out: Vec<u8>)
    requires
        packed@.len() == blocks@.len(),
        concat(block_rows(blocks@, packed@)).len() <= u32::MAX,
    ensures
        out@ == bitpacked(num_left as int, num_right as int, block_rows(blocks@, packed@)),
        u32_at(out@, 0) == 0x4D43_4250,
        u16_at(out@, 4) == num_left as int % 0x1_0000,
        u16_at(out@, 6) == num_right as int % 0x1_0000,
        u32_at(out@, 8) == blocks@.len() as int % 0x1_0000_0000,
{
    proof {
        law_packed_header(num_left as int, num_right as int, blocks@, packed@);
    }
    let rows: Vec<Vec<u8>> = build_block_rows(blocks, packed);
    let (data, starts) = lay_out(&rows);
    let mut out: Vec<u8> = Vec::new();
    push_u32(&mut out, BITPACKED_MAGIC);
    push_len16(&mut out, num_left);
    push_len16(&mut out, num_right);
    push_len(&mut out, rows.len());
    push_u32s(&mut out, starts.as_slice());
    push_bytes(&mut out, data.as_slice());
    out
}

/// Where a block stands in a packed matrix: at the place that the matrix's table gives.
pub open spec fn block_place(bytes: Seq<u8>, num_blocks: int, b: int) -> int {
    12 + 4 * num_blocks + u32_at(bytes, 12 + 4 * b)
}

/// Each block is found in a packed matrix at the place that stands in its table, without reading
/// the blocks before it.
pub proof fn law_block_found(
    num_left: int,
    num_right: int,
    blocks: Seq<MatrixBlock>,
    packed: Seq<PackedBlock>,
    b: int,
)
    requires
        concat(block_rows(blocks, packed)).len() <= u32::MAX,
        0 <= b < blocks.len(),
    ensures
        ({
            let bytes = bitpacked(num_left, num_right, block_rows(blocks, packed));
            let place = block_place(bytes, blocks.len() as int, b);
            let len = packed[b].packed@.len();
            &&& i16_at(bytes, place) == blocks[b].min_val
            &&& bytes[place + 2] == packed[b].bit_width
            &&& place + 3 + len <= bytes.len()
            &&& bytes.subrange(place + 3, place + 3 + len) == packed[b].packed@
        }),
{
    let rows = block_rows(blocks, packed);
    let bytes = bitpacked(num_left, num_right, rows);
    let head = packed_head(num_left, num_right, rows);
    lemma_block_starts(num_left, num_right, rows, b);
    law_row_found(rows, b);
    lemma_block_at(head, concat(rows), row_start(rows, b), blocks[b], packed[b]);
    assert(bytes =~= head + concat(rows));
}

/// What comes before the blocks of a packed matrix.
spec fn packed_head(num_left: int, num_right: int, rows: Seq<Seq<u8>>) -> Seq<u8> {
    le32(BITPACKED_MAGIC as int) + le16(num_left) + le16(num_right) + le32(rows.len() as int)
        + le32s(row_starts(rows))
}

/// The table of a packed matrix gives the places at which the blocks start.
proof fn lemma_block_starts(num_left: int, num_right: int, rows: Seq<Seq<u8>>, b: int)
    requires
        concat(rows).len() <= u32::MAX,
        0 <= b < rows.len(),
    ensures
        packed_head(num_left, num_right, rows).len() == 12 + 4 * rows.len(),
        block_place(bitpacked(num_left, num_right, rows), rows.len() as int, b) == 12 + 4
            * rows.len() + row_start(rows, b),
{
    let head = le32(BITPACKED_MAGIC as int) + le16(num_left) + le16(num_right) + le32(
        rows.len() as int,
    );
    let starts = row_starts(rows);
    lemma_le32s_len(starts);
    assert(bitpacked(num_left, num_right, rows) =~= head + le32s(starts) + concat(rows));
    law_le32s_read_back(starts, head, concat(rows), b);
    law_row_found(rows, b);
}

/// Whether `packed` is a packed form of the distances of `block` for a reader of bits: `read` gives
/// the number that stands at a bit with a width, and each distance stands where it was planned to.
pub open spec fn is_packing(
    block: MatrixBlock,
    packed: PackedBlock,
    read: spec_fn(Seq<u8>, int, int) -> int,
) -> bool {
    forall|k: int|
        0 <= k < block.offsets@.len() ==> #[trigger] block.offsets@[k] == read(
            packed.packed@,
            k * packed.bit_width,
            packed.bit_width as int,
        )
}

/// The cost of each pair can be read from a packed matrix without unpacking it: the block of the
/// pair is found through the table, and the distance through its bit.
pub proof fn law_random_access(
    buf: Seq<u8>,
    start: int,
    num_left: int,
    num_right: int,
    blocks: Seq<MatrixBlock>,
    packed: Seq<PackedBlock>,
    read: spec_fn(Seq<u8>, int, int) -> int,
    left: int,
    right: int,
)
    requires
        are_blocks(buf, start, num_left, num_right, blocks),
        packed.len() == blocks.len(),
        forall|b: int| 0 <= b < blocks.len() ==> is_packing(#[trigger] blocks[b], packed[b], read),
        concat(block_rows(blocks, packed)).len() <= u32::MAX,
        0 <= left < num_left,
        0 <= right < num_right,
    ensures
        ({
            let bytes = bitpacked(num_left, num_right, block_rows(blocks, packed));
            let b = right / 256 * block_count(num_left) + left / 256;
            let k = right % 256 * block_len(num_left, left / 256) + left % 256;
            let place = block_place(bytes, blocks.len() as int, b);
            let width = bytes[place + 2] as int;
            let data = bytes.subrange(place + 3, place + 3 + packed[b].packed@.len());
            i16_at(bytes, place) + read(data, k * width, width) == cell(
                buf,
                start,
                num_left,
                left,
                right,
            )
        }),
{
    let b = right / 256 * block_count(num_left) + left / 256;
    let k = right % 256 * block_len(num_left, left / 256) + left % 256;
    law_cost_in_block(buf, start, num_left, num_right, blocks, left, right);
    law_block_found(num_left, num_right, blocks, packed, b);
    assert(is_packing(blocks[b], packed[b], read));
    assert(blocks[b].offsets@[k] == read(
        packed[b].packed@,
        k * packed[b].bit_width,
        packed[b].bit_width as int,
    ));
}

/// Reads a block back from where it stands.
proof fn lemma_block_at(
    head: Seq<u8>,
    data: Seq<u8>,
    start: int,
    block: MatrixBlock,
    packed: PackedBlock,
)
    requires
        0 <= start,
        start + block_bytes(block, packed).len() <= data.len(),
        data.subrange(start, start + block_bytes(block, packed).len()) == block_bytes(
            block,
            packed,
        ),
    ensures
        ({
            let bytes = head + data;
            let place = head.len() + start;
            let len = packed.packed@.len();
            &&& i16_at(bytes, place) == block.min_val
            &&& bytes[place + 2] == packed.bit_width
            &&& place + 3 + len <= bytes.len()
            &&& bytes.subrange(place + 3, place + 3 + len) == packed.packed@
        }),
{
    let bytes = head + data;
    let place = head.len() + start;
    let row = block_bytes(block, packed);
    let min_val = le16(block.min_val as int);
    let tail = seq![packed.bit_width] + packed.packed@;
    let none = Seq::<u8>::empty();
    assert(row =~= none + min_val + tail);
    law_le16_reads_back(block.min_val as int, none, tail);
    assert forall|k: int| 0 <= k < row.len() implies #[trigger] row[k] == bytes[place + k] by {
        assert(data.subrange(start, start + row.len())[k] == data[start + k]);
    }
    assert(bytes[place] == row[0]);
    assert(bytes[place + 1] == row[1]);
    assert(bytes[place + 2] == row[2]);
    assert(row[2] == tail[0]);
    assert forall|k: int| 0 <= k < packed.packed@.len() implies #[trigger] packed.packed@[k]
        == bytes[place + 3 + k] by {
        assert(row[3 + k] == tail[1 + k]);
    }
    assert(bytes.subrange(place + 3, place + 3 + packed.packed@.len()) =~= packed.packed@);
}

/// Whether each cost of one matrix is that of another one, of the same size at the same place, and
/// `c` more.
pub open spec fn is_shifted(
    buf: Seq<u8>,
    other: Seq<u8>,
    start: int,
    num_left: int,
    num_right: int,
    c: int,
) -> bool {
    forall|left: int, right: int|
        0 <= left < num_left && 0 <= right < num_right ==> #[trigger] cell(
            other,
            start,
            num_left,
            left,
            right,
        ) == cell(buf, start, num_left, left, right) + c
}

/// The costs of a block are shifted with the matrix.
proof fn lemma_shifted_cost(
    buf: Seq<u8>,
    other: Seq<u8>,
    start: int,
    num_left: int,
    num_right: int,
    c: int,
    row_block: int,
    col_block: int,
    k: int,
)
    requires
        is_shifted(buf, other, start, num_left, num_right, c),
        0 <= row_block,
        256 * row_block < num_right,
        0 <= col_block,
        256 * col_block < num_left,
        0 <= k < block_len(num_right, row_block) * block_len(num_left, col_block),
    ensures
        block_cost(other, start, num_left, row_block, col_block, k) == block_cost(
            buf,
            start,
            num_left,
            row_block,
            col_block,
            k,
        ) + c,
{
    let rows = block_len(num_right, row_block);
    let cols = block_len(num_left, col_block);
    assert(0 <= k % cols < cols && 0 <= k / cols < rows) by (nonlinear_arith)
        requires
            0 <= k < rows * cols,
            0 < cols,
    ;
    let left = 256 * col_block + k % cols;
    let right = 256 * row_block + k / cols;
    assert(cell(other, start, num_left, left, right) == cell(buf, start, num_left, left, right)
        + c);
}

/// Shifting the matrix shifts the smallest cost of a block, and no distance.
proof fn lemma_shifted_block(
    buf: Seq<u8>,
    other: Seq<u8>,
    start: int,
    num_left: int,
    num_right: int,
    c: int,
    row_block: int,
    col_block: int,
    block: MatrixBlock,
    shifted: MatrixBlock,
)
    requires
        is_shifted(buf, other, start, num_left, num_right, c),
        0 <= row_block,
        256 * row_block < num_right,
        0 <= col_block,
        256 * col_block < num_left,
        is_block(buf, start, num_left, num_right, row_block, col_block, block),
        is_block(other, start, num_left, num_right, row_block, col_block, shifted),
    ensures
        shifted.min_val == block.min_val + c,
        shifted.range == block.range,
        shifted.offsets@ == block.offsets@,
{
    let n = block.offsets@.len();
    assert forall|k: int| 0 <= k < n implies shifted.min_val + #[trigger] shifted.offsets@[k]
        == block.min_val + block.offsets@[k] + c by {
        lemma_shifted_cost(
            buf,
            other,
            start,
            num_left,
            num_right,
            c,
            row_block,
            col_block,
            k,
        );
    }
    let p = choose|p: int| 0 <= p < n && block.offsets@[p] == 0;
    let q = choose|q: int| 0 <= q < n && shifted.offsets@[q] == 0;
    assert(shifted.offsets@[p] >= 0 && block.offsets@[q] >= 0);
    assert(shifted.min_val == block.min_val + c);
    assert(shifted.offsets@ =~= block.offsets@);
}

/// Where each cost of the matrix is shifted by the same number, the smallest cost of each block is
/// shifted by it, and the distances stay as they are. What is not in the matrix does not matter.
pub proof fn law_shifted_blocks(
    buf: Seq<u8>,
    other: Seq<u8>,
    start: int,
    num_left: int,
    num_right: int,
    c: int,
    blocks: Seq<MatrixBlock>,
    shifted: Seq<MatrixBlock>,
)
    requires
        0 <= num_left,
        0 <= num_right,
        is_shifted(buf, other, start, num_left, num_right, c),
        are_blocks(buf, start, num_left, num_right, blocks),
        are_blocks(other, start, num_left, num_right, shifted),
    ensures
        shifted.len() == blocks.len(),
        forall|b: int|
            0 <= b < blocks.len() ==> (#[trigger] shifted[b]).min_val == blocks[b].min_val + c
                && shifted[b].range == blocks[b].range && shifted[b].offsets@
                == blocks[b].offsets@,
{
    let across = block_count(num_left);
    let down = block_count(num_right);
    assert forall|b: int| 0 <= b < blocks.len() implies (#[trigger] shifted[b]).min_val
        == blocks[b].min_val + c && shifted[b].range == blocks[b].range && shifted[b].offsets@
        == blocks[b].offsets@ by {
        assert(0 < across && 0 <= b / across < down && 0 <= b % across < across)
            by (nonlinear_arith)
            requires
                0 <= b < down * across,
                0 <= across,
        ;
        assert(is_block(buf, start, num_left, num_right, b / across, b % across, blocks[b]));
        lemma_shifted_block(
            buf,
            other,
            start,
            num_left,
            num_right,
            c,
            b / across,
            b % across,
            blocks[b],
            shifted[b],
        );
    }
}

/// Whether `i` is one of the two places at which the smallest cost of a block stands in a packed
/// matrix.
pub open spec fn in_min_val(bytes: Seq<u8>, num_blocks: int, i: int) -> bool {
    exists|b: int|
        0 <= b < num_blocks && #[trigger] block_place(bytes, num_blocks, b) <= i < block_place(
            bytes,
            num_blocks,
            b,
        ) + 2
}

/// Rows of the same lengths start at the same places.
proof fn lemma_same_starts(rows: Seq<Seq<u8>>, others: Seq<Seq<u8>>, n: int)
    requires
        others.len() == rows.len(),
        forall|i: int| 0 <= i < rows.len() ==> (#[trigger] others[i]).len() == rows[i].len(),
        0 <= n <= rows.len(),
    ensures
        row_start(others, n) == row_start(rows, n),
    decreases n,
{
    if n > 0 {
        lemma_same_starts(rows, others, n - 1);
        assert(rows.take(n).drop_last() =~= rows.take(n - 1));
        assert(others.take(n).drop_last() =~= others.take(n - 1));
        assert(others[n - 1].len() == rows[n - 1].len());
    } else {
        assert(rows.take(0) =~= Seq::empty());
        assert(others.take(0) =~= Seq::empty());
    }
}

/// Finds the row in which a byte stands.
proof fn lemma_some_row(rows: Seq<Seq<u8>>, i: int) -> (r: int)
    requires
        0 <= i < concat(rows).len(),
    ensures
        0 <= r < rows.len(),
        row_start(rows, r) <= i < row_start(rows, r) + rows[r].len(),
    decreases rows.len(),
{
    let rest = rows.drop_last();
    let last = rows.len() - 1;
    assert(rows.take(last) =~= rest);
    if i < concat(rest).len() {
        let r = lemma_some_row(rest, i);
        assert(rest.take(r) =~= rows.take(r));
        r
    } else {
        last
    }
}

/// Rows of the same lengths that differ in their first two bytes only.
proof fn lemma_rows_differ_in_front(rows: Seq<Seq<u8>>, others: Seq<Seq<u8>>)
    requires
        others.len() == rows.len(),
        forall|b: int| 0 <= b < rows.len() ==> (#[trigger] others[b]).len() == rows[b].len(),
        forall|b: int, k: int|
            0 <= b < rows.len() && 2 <= k < rows[b].len() ==> #[trigger] others[b][k]
                == rows[b][k],
    ensures
        concat(others).len() == concat(rows).len(),
        forall|b: int|
            0 <= b < rows.len() ==> #[trigger] row_start(others, b) == row_start(rows, b),
        row_starts(others) == row_starts(rows),
        forall|i: int|
            0 <= i < concat(rows).len() && (forall|b: int|
                0 <= b < rows.len() ==> !(#[trigger] row_start(rows, b) <= i < row_start(rows, b)
                    + 2)) ==> #[trigger] concat(others)[i] == concat(rows)[i],
{
    let n = rows.len() as int;
    lemma_same_starts(rows, others, n);
    assert(rows.take(n) =~= rows && others.take(n) =~= others);
    assert forall|b: int| 0 <= b < n implies #[trigger] row_start(others, b) == row_start(
        rows,
        b,
    ) by {
        lemma_same_starts(rows, others, b);
    }
    assert(row_starts(others) =~= row_starts(rows)) by {
        assert forall|b: int| 0 <= b < n implies row_starts(others)[b] == row_starts(rows)[b] by {
            assert(row_start(others, b) == row_start(rows, b));
        }
    }
    assert forall|i: int|
        0 <= i < concat(rows).len() && (forall|b: int|
            0 <= b < rows.len() ==> !(#[trigger] row_start(rows, b) <= i < row_start(rows, b)
                + 2)) implies #[trigger] concat(others)[i] == concat(rows)[i] by {
        let b = lemma_some_row(rows, i);
        let p = row_start(rows, b);
        assert(row_start(others, b) == p);
        law_row_found(rows, b);
        law_row_found(others, b);
        assert(others[b].len() == rows[b].len());
        assert(concat(rows).subrange(p, p + rows[b].len())[i - p] == concat(rows)[i]);
        assert(concat(others).subrange(p, p + rows[b].len())[i - p] == concat(others)[i]);
        assert(others[b][i - p] == rows[b][i - p]);
    }
}

/// The bytes of the blocks of a shifted matrix.
proof fn lemma_shifted_rows(
    blocks: Seq<MatrixBlock>,
    shifted: Seq<MatrixBlock>,
    packed: Seq<PackedBlock>,
)
    requires
        shifted.len() == blocks.len(),
    ensures
        ({
            let rows = block_rows(blocks, packed);
            let others = block_rows(shifted, packed);
            &&& others.len() == rows.len()
            &&& forall|b: int|
                0 <= b < rows.len() ==> (#[trigger] others[b]).len() == rows[b].len()
            &&& forall|b: int, k: int|
                0 <= b < rows.len() && 2 <= k < rows[b].len() ==> #[trigger] others[b][k]
                    == rows[b][k]
        }),
{
}

/// The places of the blocks, and the bytes between them, of two packed matrices whose blocks differ
/// in their first two bytes only.
proof fn lemma_packed_differ_in_front(
    num_left: int,
    num_right: int,
    rows: Seq<Seq<u8>>,
    others: Seq<Seq<u8>>,
)
    requires
        others.len() == rows.len(),
        forall|b: int| 0 <= b < rows.len() ==> (#[trigger] others[b]).len() == rows[b].len(),
        forall|b: int, k: int|
            0 <= b < rows.len() && 2 <= k < rows[b].len() ==> #[trigger] others[b][k]
                == rows[b][k],
        concat(rows).len() <= u32::MAX,
    ensures
        ({
            let n = rows.len() as int;
            let before = bitpacked(num_left, num_right, rows);
            let after = bitpacked(num_left, num_right, others);
            &&& after.len() == before.len()
            &&& concat(others).len() == concat(rows).len()
            &&& forall|b: int|
                0 <= b < n ==> #[trigger] block_place(after, n, b) == block_place(before, n, b)
            &&& forall|i: int|
                0 <= i < before.len() && !in_min_val(before, n, i) ==> #[trigger] after[i]
                    == before[i]
        }),
{
    let n = rows.len() as int;
    let before = bitpacked(num_left, num_right, rows);
    let after = bitpacked(num_left, num_right, others);
    let head = packed_head(num_left, num_right, rows);
    lemma_rows_differ_in_front(rows, others);
    assert(before == head + concat(rows));
    assert(after == head + concat(others));
    assert forall|b: int| 0 <= b < n implies #[trigger] block_place(after, n, b) == block_place(
        before,
        n,
        b,
    ) by {
        lemma_block_starts(num_left, num_right, rows, b);
        lemma_block_starts(num_left, num_right, others, b);
        assert(row_start(others, b) == row_start(rows, b));
    }
    assert forall|i: int| 0 <= i < before.len() && !in_min_val(before, n, i) implies
        #[trigger] after[i] == before[i] by {
        if i >= head.len() {
            let at = i - head.len();
            assert forall|b: int| 0 <= b < n implies !(#[trigger] row_start(rows, b) <= at
                < row_start(rows, b) + 2) by {
                lemma_block_starts(num_left, num_right, rows, b);
                assert(block_place(before, n, b) == head.len() + row_start(rows, b));
            }
            assert(concat(others)[at] == concat(rows)[at]);
        }
    }
}

/// Shifting each cost of the matrix by the same number shifts the smallest cost of each block of
/// the packed matrix, and changes nothing else in it, as long as the distances are packed in the
/// same way. What is not in the matrix does not matter.
pub proof fn law_shifted_matrix(
    buf: Seq<u8>,
    other: Seq<u8>,
    start: int,
    num_left: int,
    num_right: int,
    c: int,
    blocks: Seq<MatrixBlock>,
    shifted: Seq<MatrixBlock>,
    packed: Seq<PackedBlock>,
)
    requires
        0 <= num_left,
        0 <= num_right,
        is_shifted(buf, other, start, num_left, num_right, c),
        are_blocks(buf, start, num_left, num_right, blocks),
        are_blocks(other, start, num_left, num_right, shifted),
        packed.len() == blocks.len(),
        concat(block_rows(blocks, packed)).len() <= u32::MAX,
    ensures
        ({
            let n = blocks.len() as int;
            let before = bitpacked(num_left, num_right, block_rows(blocks, packed));
            let after = bitpacked(num_left, num_right, block_rows(shifted, packed));
            &&& shifted.len() == n
            &&& after.len() == before.len()
            &&& forall|b: int|
                0 <= b < n ==> #[trigger] block_place(after, n, b) == block_place(before, n, b)
                    && i16_at(after, block_place(after, n, b)) == i16_at(
                    before,
                    block_place(before, n, b),
                ) + c
            &&& forall|i: int|
                0 <= i < before.len() && !in_min_val(before, n, i) ==> #[trigger] after[i]
                    == before[i]
        }),
{
    law_shifted_blocks(buf, other, start, num_left, num_right, c, blocks, shifted);
    let n = blocks.len() as int;
    let rows = block_rows(blocks, packed);
    let others = block_rows(shifted, packed);
    lemma_shifted_rows(blocks, shifted, packed);
    lemma_packed_differ_in_front(num_left, num_right, rows, others);
    let before = bitpacked(num_left, num_right, rows);
    let after = bitpacked(num_left, num_right, others);
    assert forall|b: int| 0 <= b < n implies #[trigger] block_place(after, n, b) == block_place(
        before,
        n,
        b,
    ) && i16_at(after, block_place(after, n, b)) == i16_at(before, block_place(before, n, b))
        + c by {
        law_block_found(num_left, num_right, blocks, packed, b);
        law_block_found(num_left, num_right, shifted, packed, b);
        assert(shifted[b].min_val == blocks[b].min_val + c);
    }
}

/// The packed matrix depends on the costs of the matrix and on nothing else in the buffer, as long
/// as the distances are packed in the same way.
pub proof fn law_only_matrix_matters(
    buf: Seq<u8>,
    other: Seq<u8>,
    start: int,
    num_left: int,
    num_right: int,
    blocks: Seq<MatrixBlock>,
    others: Seq<MatrixBlock>,
    packed: Seq<PackedBlock>,
)
    requires
        0 <= num_left,
        0 <= num_right,
        is_shifted(buf, other, start, num_left, num_right, 0),
        are_blocks(buf, start, num_left, num_right, blocks),
        are_blocks(other, start, num_left, num_right, others),
    ensures
        bitpacked(num_left, num_right, block_rows(others, packed)) == bitpacked(
            num_left,
            num_right,
            block_rows(blocks, packed),
        ),
{
    law_shifted_blocks(buf, other, start, num_left, num_right, 0, blocks, others);
    assert forall|b: int| 0 <= b < blocks.len() implies block_bytes(others[b], packed[b])
        == block_bytes(blocks[b], packed[b]) by {
        assert(others[b].min_val == blocks[b].min_val);
    }
    assert(block_rows(others, packed) =~= block_rows(blocks, packed));
}

/// What a packed matrix starts with, read back from bytes that start with it.
proof fn lemma_header_reads_back(num_left: int, num_right: int, n: int, rest: Seq<u8>)
    ensures
        ({
            let bytes = le32(BITPACKED_MAGIC as int) + le16(num_left) + le16(num_right) + le32(n)
                + rest;
            &&& u32_at(bytes, 0) == 0x4D43_4250
            &&& u16_at(bytes, 4) == num_left % 0x1_0000
            &&& u16_at(bytes, 6) == num_right % 0x1_0000
            &&& u32_at(bytes, 8) == n % 0x1_0000_0000
        }),
{
    let magic = le32(BITPACKED_MAGIC as int);
    let left = le16(num_left);
    let right = le16(num_right);
    let count = le32(n);
    let none = Seq::<u8>::empty();
    let bytes = magic + left + right + count + rest;
    assert(bytes =~= none + magic + (left + right + count + rest));
    law_le32_reads_back(BITPACKED_MAGIC as int, none, left + right + count + rest);
    assert(bytes =~= magic + left + (right + count + rest));
    law_le16_reads_back(num_left, magic, right + count + rest);
    assert(bytes =~= (magic + left) + right + (count + rest));
    law_le16_reads_back(num_right, magic + left, count + rest);
    assert(bytes =~= (magic + left + right) + count + rest);
    law_le32_reads_back(n, magic + left + right, rest);
}

/// A packed matrix says in its header what it is, how many left and then how many right numbers it
/// has, and how many blocks. A table with four bytes for each block follows.
pub proof fn law_packed_header(
    num_left: int,
    num_right: int,
    blocks: Seq<MatrixBlock>,
    packed: Seq<PackedBlock>,
)
    ensures
        ({
            let bytes = bitpacked(num_left, num_right, block_rows(blocks, packed));
            let n = blocks.len();
            &&& 12 + 4 * n <= bytes.len()
            &&& u32_at(bytes, 0) == 0x4D43_4250
            &&& u16_at(bytes, 4) == num_left % 0x1_0000
            &&& u16_at(bytes, 6) == num_right % 0x1_0000
            &&& u32_at(bytes, 8) == n as int % 0x1_0000_0000
            &&& n == 0 ==> bytes.len() == 12
        }),
{
    let rows = block_rows(blocks, packed);
    let rest = le32s(row_starts(rows)) + concat(rows);
    let bytes = bitpacked(num_left, num_right, rows);
    lemma_le32s_len(row_starts(rows));
    lemma_header_reads_back(num_left, num_right, rows.len() as int, rest);
    assert(bytes =~= le32(BITPACKED_MAGIC as int) + le16(num_left) + le16(num_right) + le32(
        rows.len() as int,
    ) + rest);
}

/// The blocks of a packed matrix follow each other without a gap: the first one stands right after
/// the table, each other one where the one before it ends, and the last one ends with the matrix.
/// A block takes three bytes and its packed distances.
pub proof fn law_packed_layout(
    num_left: int,
    num_right: int,
    blocks: Seq<MatrixBlock>,
    packed: Seq<PackedBlock>,
    b: int,
)
    requires
        concat(block_rows(blocks, packed)).len() <= u32::MAX,
        0 <= b < blocks.len(),
    ensures
        ({
            let bytes = bitpacked(num_left, num_right, block_rows(blocks, packed));
            let n = blocks.len();
            let place = 12 + 4 * n + u32_at(bytes, 12 + 4 * b);
            let end = place + 3 + packed[b].packed@.len();
            &&& b == 0 ==> place == 12 + 4 * n
            &&& b + 1 < n ==> 12 + 4 * n + u32_at(bytes, 12 + 4 * (b + 1)) == end
            &&& b + 1 == n ==> bytes.len() == end
            &&& bytes[place + 2] == packed[b].bit_width
            &&& i16_at(bytes, place) == blocks[b].min_val
            &&& bytes.subrange(place + 3, end as int) == packed[b].packed@
        }),
{
    let rows = block_rows(blocks, packed);
    lemma_block_starts(num_left, num_right, rows, b);
    lemma_row_start_step(rows, b);
    law_block_found(num_left, num_right, blocks, packed, b);
    assert(rows[b].len() == 3 + packed[b].packed@.len());
    if b == 0 {
        assert(rows.take(0) =~= Seq::empty());
    }
    if b + 1 < blocks.len() {
        lemma_block_starts(num_left, num_right, rows, b + 1);
    } else {
        assert(rows.take(b + 1) =~= rows);
    }
    lemma_le32s_len(row_starts(rows));
}

/// Patching adds its patch to the cost of a pair, where it has one: the sum is kept within the
/// range of 16 bits. The patch of a pair is the one whose key is the right number times 65536 plus
/// the left number; a pair whose numbers take more than 16 bits has none.
pub proof fn law_patched_cost(
    buf: Seq<u8>,
    start: int,
    num_left: int,
    num_right: int,
    patches: Map<u32, i16>,
    left: int,
    right: int,
)
    requires
        0 <= start,
        0 <= left < num_left,
        0 <= right < num_right,
        start + 2 * (right * num_left + left) + 2 <= buf.len(),
    ensures
        ({
            let after = patched(buf, start, num_left, num_right, patches);
            let place = start + 2 * (right * num_left + left);
            let key = (right * 0x1_0000 + left) as u32;
            let sum = i16_at(buf, place) + patches[key];
            let has_one = left < 0x1_0000 && right < 0x1_0000 && patches.contains_key(key);
            &&& after.len() == buf.len()
            &&& !has_one ==> i16_at(after, place) == i16_at(buf, place)
            &&& has_one && sum < -32768 ==> i16_at(after, place) == -32768
            &&& has_one && sum > 32767 ==> i16_at(after, place) == 32767
            &&& has_one && -32768 <= sum <= 32767 ==> i16_at(after, place) == sum
        }),
{
    let number = right * num_left + left;
    let place = start + 2 * number;
    if left < 0x1_0000 && right < 0x1_0000 {
        law_patched_cell(buf, start, num_left, num_right, patches, left, right);
    } else {
        assert(0 <= right * num_left) by (nonlinear_arith)
            requires
                0 <= right,
                0 <= num_left,
        ;
        lemma_cell_number(num_left, left, right);
        assert((place - start) / 2 == number && (place + 1 - start) / 2 == number);
        let after = patched(buf, start, num_left, num_right, patches);
        assert(after[place] == buf[place] && after[place + 1] == buf[place + 1]);
    }
}

/// A patch counts as applied exactly where the matrix has its pair.
pub proof fn law_hits(patches: Map<u32, i16>, num_left: int, num_right: int, key: u32)
    ensures
        hitting(patches, num_left, num_right).contains(key) <==> patches.contains_key(key) && key
            as int % 0x1_0000 < num_left && key as int / 0x1_0000 < num_right,
{
}

/// The blocks of a matrix have 256 rows and columns, but for the last ones, and stand row by row,
/// as do the costs in each of them: the cost of each pair is the smallest cost of its block and
/// the distance that stands in the pair's place.
pub proof fn law_block_of_cost(
    buf: Seq<u8>,
    start: int,
    num_left: int,
    num_right: int,
    blocks: Seq<MatrixBlock>,
    left: int,
    right: int,
)
    requires
        are_blocks(buf, start, num_left, num_right, blocks),
        0 <= left < num_left,
        0 <= right < num_right,
    ensures
        ({
            let across = (num_left + 255) / 256;
            let down = (num_right + 255) / 256;
            let b = right / 256 * across + left / 256;
            let cols = if left / 256 == across - 1 {
                num_left - 256 * (across - 1)
            } else {
                256
            };
            let rows = if right / 256 == down - 1 {
                num_right - 256 * (down - 1)
            } else {
                256
            };
            let k = right % 256 * cols + left % 256;
            let cost = i16_at(buf, start + 2 * (right * num_left + left));
            &&& blocks.len() == down * across
            &&& 0 <= b < blocks.len()
            &&& blocks[b].offsets@.len() == rows * cols
            &&& 0 <= k < blocks[b].offsets@.len()
            &&& blocks[b].min_val + blocks[b].offsets@[k] == cost
            &&& blocks[b].min_val <= cost <= blocks[b].min_val + blocks[b].range
        }),
{
    law_cost_in_block(buf, start, num_left, num_right, blocks, left, right);
    let across = (num_left + 255) / 256;
    let b = right / 256 * across + left / 256;
    lemma_cell_number(across, left / 256, right / 256);
    assert(is_block(buf, start, num_left, num_right, right / 256, left / 256, blocks[b]));
}

/// The smallest cost of a block is the cost of one of its pairs, and so is the largest one, which
/// the range of the block leads to.
pub proof fn law_block_extremes(
    buf: Seq<u8>,
    start: int,
    num_left: int,
    num_right: int,
    blocks: Seq<MatrixBlock>,
    b: int,
) -> (r: ((int, int), (int, int)))
    requires
        0 <= num_left,
        0 <= num_right,
        are_blocks(buf, start, num_left, num_right, blocks),
        0 <= b < blocks.len(),
    ensures
        ({
            let across = (num_left + 255) / 256;
            let ((left, right), (far_left, far_right)) = r;
            &&& 0 <= left < num_left && 0 <= right < num_right
            &&& 0 <= far_left < num_left && 0 <= far_right < num_right
            &&& right / 256 == b / across && left / 256 == b % across
            &&& far_right / 256 == b / across && far_left / 256 == b % across
            &&& i16_at(buf, start + 2 * (right * num_left + left)) == blocks[b].min_val
            &&& i16_at(buf, start + 2 * (far_right * num_left + far_left)) == blocks[b].min_val
                + blocks[b].range
        }),
{
    let across = (num_left + 255) / 256;
    let down = (num_right + 255) / 256;
    assert(0 < across && 0 <= b / across < down && 0 <= b % across < across) by (nonlinear_arith)
        requires
            0 <= b < down * across,
            0 <= across,
    ;
    let rb = b / across;
    let cb = b % across;
    let block = blocks[b];
    assert(is_block(buf, start, num_left, num_right, rb, cb, block));
    let rows = block_len(num_right, rb);
    let cols = block_len(num_left, cb);
    let p = choose|p: int| 0 <= p < block.offsets@.len() && block.offsets@[p] == 0;
    let q = choose|q: int| 0 <= q < block.offsets@.len() && block.offsets@[q] == block.range;
    assert(block.min_val + block.offsets@[p] == block_cost(buf, start, num_left, rb, cb, p));
    assert(block.min_val + block.offsets@[q] == block_cost(buf, start, num_left, rb, cb, q));
    assert(0 <= p % cols < cols && 0 <= p / cols < rows) by (nonlinear_arith)
        requires
            0 <= p < rows * cols,
            0 < cols,
    ;
    assert(0 <= q % cols < cols && 0 <= q / cols < rows) by (nonlinear_arith)
        requires
            0 <= q < rows * cols,
            0 < cols,
    ;
    (
        (256 * cb + p % cols, 256 * rb + p / cols),
        (256 * cb + q % cols, 256 * rb + q / cols),
    )
}

/// The room for packed numbers is the least number of bytes that has a bit for each of theirs.
pub proof fn law_packed_len(cells: int, bit_width: int)
    requires
        0 <= cells,
        0 <= bit_width,
    ensures
        cells * bit_width <= 8 * packed_len(cells, bit_width) < cells * bit_width + 8,
{
}

/// A matrix has a block for each 256 rows and columns that it begins, and none where it has no
/// rows or no columns.
pub proof fn law_block_number(
    buf: Seq<u8>,
    start: int,
    num_left: int,
    num_right: int,
    blocks: Seq<MatrixBlock>,
)
    requires
        are_blocks(buf, start, num_left, num_right, blocks),
        0 <= num_left,
        0 <= num_right,
    ensures
        blocks.len() == ((num_right + 255) / 256) * ((num_left + 255) / 256),
        num_left == 0 || num_right == 0 ==> blocks.len() == 0,
{
    assert(num_left == 0 || num_right == 0 ==> ((num_right + 255) / 256) * ((num_left + 255) / 256)
        == 0) by (nonlinear_arith)
        requires
            0 <= num_left,
            0 <= num_right,
    ;
}

/// A matrix is in a buffer where it has no costs, or where the last of them ends within the buffer.
pub proof fn law_matrix_fits(len: int, start: int, num_left: int, num_right: int)
    ensures
        matrix_fits(len, start, num_left, num_right) <==> num_left * num_right == 0 || start + 2 * (
        num_left * num_right) <= len,
{
}

} // verus!
