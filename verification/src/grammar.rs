//! The grammar section of a dictionary: the parts of speech, and the connection matrix.

use crate::bytes::{i16_at, law_le16_reads_back, le16, read_i16_le, read_u16_le, u16_at};
use crate::table::{concat, law_rows_joined};
use crate::word_info::{is_string, length_size, length_value, read_string_length};
use vstd::prelude::*;
use vstd::slice::{slice_subrange, slice_to_vec};

verus! {

/// A system dictionary of the first version.
pub const SYSTEM_DICT_V1: u64 = 0x7366d3f18bd111e7;

/// A system dictionary of the second version.
pub const SYSTEM_DICT_V2: u64 = 0xce9f011a92394434;

/// A user dictionary of the second version.
pub const USER_DICT_V2: u64 = 0x9fdeb5a90168d868;

/// A user dictionary of the third version.
pub const USER_DICT_V3: u64 = 0xca9811756ff64fb0;

/// Whether dictionaries of a version have a grammar section.
pub open spec fn with_grammar(version: u64) -> bool {
    version == SYSTEM_DICT_V1 || version == SYSTEM_DICT_V2 || version == USER_DICT_V2 || version
        == USER_DICT_V3
}

/// Whether word information has synonym groups in dictionaries of a version.
pub open spec fn with_synonyms(version: u64) -> bool {
    version == SYSTEM_DICT_V2 || version == USER_DICT_V3
}

/// Whether dictionaries of a version have a grammar section.
pub fn has_grammar(version: u64) -> (r: bool)
    ensures
        r == with_grammar(version),
{
    version == SYSTEM_DICT_V1 || version == SYSTEM_DICT_V2 || version == USER_DICT_V2 || version
        == USER_DICT_V3
}

/// Whether word information has synonym groups in dictionaries of a version.
pub fn has_synonym_group_ids(version: u64) -> (r: bool)
    ensures
        r == with_synonyms(version),
{
    version == SYSTEM_DICT_V2 || version == USER_DICT_V3
}

/// Whether the length of a string can be read at `off`.
pub open spec fn length_readable(buf: Seq<u8>, off: int) -> bool {
    0 <= off < buf.len() && (buf[off] >= 128 ==> off + 1 < buf.len())
}

/// Where the string at `off` ends.
pub open spec fn string_end(buf: Seq<u8>, off: int) -> int {
    off + length_size(buf[off]) + 2 * length_value(buf.skip(off))
}

/// Where `n` strings from `off` on end. Only their lengths are read.
pub open spec fn strings_end(buf: Seq<u8>, off: int, n: nat) -> Option<int>
    decreases n,
{
    if n == 0 {
        Some(off)
    } else if length_readable(buf, off) {
        strings_end(buf, string_end(buf, off), (n - 1) as nat)
    } else {
        None
    }
}

/// How many strings there are for each part of speech.
pub const POS_DEPTH: usize = 6;

/// Where the parts of speech end.
pub open spec fn pos_end(buf: Seq<u8>, off: int) -> Option<int> {
    strings_end(buf, off + 2, (6 * u16_at(buf, off)) as nat)
}

/// The number of left or right numbers, as it is read: a negative one counts as the machine word
/// with the same bits.
pub open spec fn as_word(n: int) -> int {
    if n < 0 {
        n + usize::MAX + 1
    } else {
        n
    }
}

/// The number of left numbers.
pub open spec fn num_left(buf: Seq<u8>, off: int) -> int {
    as_word(i16_at(buf, pos_end(buf, off)->0))
}

/// The number of right numbers.
pub open spec fn num_right(buf: Seq<u8>, off: int) -> int {
    as_word(i16_at(buf, pos_end(buf, off)->0 + 2))
}

/// Where the matrix starts.
pub open spec fn matrix_start(buf: Seq<u8>, off: int) -> int {
    pos_end(buf, off)->0 + 4
}

/// Where the matrix ends.
pub open spec fn matrix_end(buf: Seq<u8>, off: int) -> int {
    matrix_start(buf, off) + num_left(buf, off) * num_right(buf, off) * 2
}

/// Whether the grammar section can be read: the parts of speech and the dimensions of the matrix
/// are in the buffer, and the end of the matrix can be computed.
pub open spec fn grammar_valid(buf: Seq<u8>, off: int) -> bool {
    &&& off + 2 <= buf.len()
    &&& pos_end(buf, off) is Some
    &&& matrix_start(buf, off) <= buf.len()
    &&& matrix_end(buf, off) <= usize::MAX
}

/// Strings end after they start.
pub proof fn lemma_strings_end_after(buf: Seq<u8>, off: int, n: nat)
    requires
        strings_end(buf, off, n) is Some,
    ensures
        off <= strings_end(buf, off, n)->0,
    decreases n,
{
    if n > 0 {
        let first = buf.skip(off);
        assert(first[0] == buf[off]);
        lemma_strings_end_after(buf, string_end(buf, off), (n - 1) as nat);
    }
}

/// Finds where `n` strings from `off` on end, if that is within the buffer.
fn skip_strings(buf: &[u8], off: usize, n: usize) -> (end: Option<usize>)
    ensures
        end is Some <==> strings_end(buf@, off as int, n as nat) is Some && strings_end(
            buf@,
            off as int,
            n as nat,
        )->0 <= buf.len(),
        end matches Some(end) ==> end == strings_end(buf@, off as int, n as nat)->0,
{
    let mut at: usize = off;
    let mut left: usize = n;
    while left > 0
        invariant
            left <= n,
            strings_end(buf@, at as int, left as nat) == strings_end(buf@, off as int, n as nat),
        decreases left,
    {
        if at >= buf.len() || buf[at] >= 128 && at + 1 >= buf.len() {
            return None;
        }
        let (units, size) = read_string_length(buf, at);
        let len: usize = size + units * 2;
        if len > buf.len() - at {
            proof {
                let past = string_end(buf@, at as int);
                assert(buf@.skip(at as int)[0] == buf@[at as int]);
                assert(past > buf.len());
                if strings_end(buf@, past, (left - 1) as nat) is Some {
                    lemma_strings_end_after(buf@, past, (left - 1) as nat);
                }
            }
            return None;
        }
        at = at + len;
        left = left - 1;
    }
    if at > buf.len() {
        return None;
    }
    Some(at)
}

/// The machine word with the bits of a signed number.
fn to_word(n: i16) -> (r: usize)
    ensures
        r == as_word(n as int),
{
    if n < 0 {
        usize::MAX - ((-(n as i32) - 1) as usize)
    } else {
        n as usize
    }
}

/// Whether the grammar section can be read.
pub fn check_grammar(buf: &[u8], grammar_offset: usize) -> (valid: bool)
    ensures
        valid == grammar_valid(buf@, grammar_offset as int),
{
    let off: usize = grammar_offset;
    if off > buf.len() || buf.len() - off < 2 {
        return false;
    }
    let pos_count: usize = read_u16_le(buf, off) as usize;
    let end: usize = match skip_strings(buf, off + 2, pos_count * POS_DEPTH) {
        None => return false,
        Some(end) => end,
    };
    if buf.len() - end < 4 {
        return false;
    }
    let left: usize = to_word(read_i16_le(buf, end));
    let right: usize = to_word(read_i16_le(buf, end + 2));
    let start: usize = end + 4;
    proof {
        assert(left * right >= 0) by (nonlinear_arith)
            requires
                left >= 0,
                right >= 0,
        ;
    }
    match left.checked_mul(right) {
        None => false,
        Some(cells) => cells <= (usize::MAX - start) / 2,
    }
}

/// Reads the grammar section. Returns its bytes up to the matrix, the numbers of left and right
/// numbers, and where the matrix starts and ends.
pub fn parse_grammar(buf: &[u8], grammar_offset: usize) -> (r: (
    Vec<u8>,
    usize,
    usize,
    usize,
    usize,
))
    requires
        grammar_valid(buf@, grammar_offset as int),
    ensures
        r.0@ == buf@.subrange(grammar_offset as int, matrix_start(buf@, grammar_offset as int)),
        r.1 == num_left(buf@, grammar_offset as int),
        r.2 == num_right(buf@, grammar_offset as int),
        r.3 == matrix_start(buf@, grammar_offset as int),
        r.4 == matrix_end(buf@, grammar_offset as int),
{
    let off: usize = grammar_offset;
    assert(off + 2 <= buf.len());
    let pos_count: usize = read_u16_le(buf, off) as usize;
    let end: usize = match skip_strings(buf, off + 2, pos_count * POS_DEPTH) {
        None => 0,
        Some(end) => end,
    };
    assert(end == pos_end(buf@, off as int)->0);
    proof {
        lemma_strings_end_after(buf@, off + 2, (6 * u16_at(buf@, off as int)) as nat);
    }
    let left_id: usize = to_word(read_i16_le(buf, end));
    let right_id: usize = to_word(read_i16_le(buf, end + 2));
    let matrix_start: usize = end + 4;
    proof {
        assert(left_id * right_id >= 0) by (nonlinear_arith)
            requires
                left_id >= 0,
                right_id >= 0,
        ;
    }
    let matrix_end: usize = matrix_start + left_id * right_id * 2;
    let pos_list_bytes: Vec<u8> = slice_to_vec(slice_subrange(buf, off, matrix_start));
    (pos_list_bytes, left_id, right_id, matrix_start, matrix_end)
}

/// Four versions have a grammar section, and of these the later one of each kind has synonym
/// groups.
pub proof fn law_versions(version: u64)
    ensures
        with_grammar(version) <==> version == 0x7366d3f18bd111e7 || version == 0xce9f011a92394434
            || version == 0x9fdeb5a90168d868 || version == 0xca9811756ff64fb0,
        with_synonyms(version) <==> version == 0xce9f011a92394434 || version
            == 0xca9811756ff64fb0,
{
}

/// Strings that stand one after the other end where the last one ends.
proof fn lemma_strings_end(
    before: Seq<u8>,
    strings: Seq<Seq<u8>>,
    after: Seq<u8>,
)
    requires
        forall|i: int| 0 <= i < strings.len() ==> is_string(#[trigger] strings[i]),
    ensures
        strings_end(
            before + concat(strings) + after,
            before.len() as int,
            strings.len(),
        ) == Some(before.len() as int + concat(strings).len()),
    decreases strings.len(),
{
    let buf = before + concat(strings) + after;
    if strings.len() == 0 {
        assert(concat(strings).len() == 0);
    } else {
        let first = strings[0];
        let others = strings.drop_first();
        law_rows_joined(seq![first], others, first);
        assert(strings =~= seq![first] + others);
        assert(buf =~= before + first + (concat(others) + after));
        assert(is_string(first));
        assert forall|i: int| 0 <= i < others.len() implies is_string(#[trigger] others[i]) by {
            assert(others[i] == strings[i + 1]);
        }
        let off = before.len() as int;
        assert(buf[off] == first[0]);
        let rest = buf.skip(off);
        assert(rest[0] == first[0]);
        if first[0] >= 128 {
            assert(rest[1] == first[1]);
            assert(buf[off + 1] == first[1]);
        }
        assert(string_end(buf, off) == off + first.len());
        lemma_strings_end(before + first, others, after);
        assert(buf =~= (before + first) + concat(others) + after);
    }
}

/// A grammar section is read as it was written: the number of parts of speech, six strings for each
/// of them, the number of left and of right numbers, and the matrix with two bytes for each pair.
pub proof fn law_grammar_reads_back(
    before: Seq<u8>,
    strings: Seq<Seq<u8>>,
    left: int,
    right: int,
    after: Seq<u8>,
)
    requires
        strings.len() % 6 == 0,
        strings.len() / 6 < 0x1_0000,
        forall|i: int| 0 <= i < strings.len() ==> is_string(#[trigger] strings[i]),
        0 <= left < 0x8000,
        0 <= right < 0x8000,
    ensures
        ({
            let buf = before + le16((strings.len() / 6) as int) + concat(strings) + le16(left)
                + le16(right) + after;
            let off = before.len() as int;
            let start = off + 2 + concat(strings).len() + 4;
            &&& num_left(buf, off) == left
            &&& num_right(buf, off) == right
            &&& matrix_start(buf, off) == start
            &&& matrix_end(buf, off) == start + 2 * (left * right)
            &&& grammar_valid(buf, off) <==> start + 2 * (left * right) <= usize::MAX
        }),
{
    let count = le16((strings.len() / 6) as int);
    let all = concat(strings);
    let tail = le16(left) + le16(right) + after;
    let buf = before + count + all + le16(left) + le16(right) + after;
    let off = before.len() as int;
    assert(buf =~= before + count + (all + tail));
    law_le16_reads_back((strings.len() / 6) as int, before, all + tail);
    assert(u16_at(buf, off) == strings.len() / 6);
    assert(buf =~= (before + count) + all + tail);
    lemma_strings_end(before + count, strings, tail);
    assert(pos_end(buf, off) == Some(off + 2 + all.len() as int));
    let head = before + count + all;
    assert(buf =~= head + le16(left) + (le16(right) + after));
    law_le16_reads_back(left, head, le16(right) + after);
    assert(buf =~= (head + le16(left)) + le16(right) + after);
    law_le16_reads_back(right, head + le16(left), after);
    assert(left * right * 2 == 2 * (left * right));
}

/// A negative number of left or right numbers counts as the machine word with the same bits.
pub proof fn law_as_word(n: int)
    ensures
        n >= 0 ==> as_word(n) == n,
        n < 0 ==> as_word(n) == usize::MAX + 1 + n,
{
}

/// A grammar section can be read exactly where its parts of speech and the dimensions of the matrix
/// are in the buffer, and the matrix ends within the reach of a machine word.
pub proof fn law_grammar_valid(buf: Seq<u8>, off: int)
    requires
        0 <= off,
    ensures
        grammar_valid(buf, off) <==> {
            &&& off + 2 <= buf.len()
            &&& pos_end(buf, off) is Some
            &&& pos_end(buf, off)->0 + 4 <= buf.len()
            &&& pos_end(buf, off)->0 + 4 + 2 * (num_left(buf, off) * num_right(buf, off))
                <= usize::MAX
        },
        num_left(buf, off) == as_word(i16_at(buf, pos_end(buf, off)->0)),
        num_right(buf, off) == as_word(i16_at(buf, pos_end(buf, off)->0 + 2)),
{
    assert(num_left(buf, off) * num_right(buf, off) * 2 == 2 * (num_left(buf, off) * num_right(
        buf,
        off,
    )));
}

/// Strings are skipped one by one, each by its length, as long as the length can be read.
pub proof fn law_strings_step(buf: Seq<u8>, off: int, n: nat)
    requires
        0 <= off,
    ensures
        strings_end(buf, off, 0) == Some(off),
        off < buf.len() && buf[off] < 128 ==> strings_end(buf, off, n + 1) == strings_end(
            buf,
            off + 1 + 2 * buf[off],
            n,
        ),
        off + 1 < buf.len() && buf[off] >= 128 ==> strings_end(buf, off, n + 1) == strings_end(
            buf,
            off + 2 + 2 * (256 * (buf[off] - 128) + buf[off + 1]),
            n,
        ),
        off >= buf.len() ==> strings_end(buf, off, n + 1) is None,
        off + 1 == buf.len() && buf[off] >= 128 ==> strings_end(buf, off, n + 1) is None,
        pos_end(buf, off) == strings_end(buf, off + 2, (6 * u16_at(buf, off)) as nat),
{
    if off < buf.len() {
        let rest = buf.skip(off);
        assert(rest[0] == buf[off]);
        if off + 1 < buf.len() {
            assert(rest[1] == buf[off + 1]);
        }
    }
}

} // verus!
