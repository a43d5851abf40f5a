//! Little-endian integers in byte buffers.

use vstd::prelude::*;

verus! {

/// The unsigned 16-bit little-endian integer that starts at `off`.
pub open spec fn u16_at(s: Seq<u8>, off: int) -> int {
    s[off] + 0x100 * s[off + 1]
}

/// The unsigned 32-bit little-endian integer that starts at `off`.
pub open spec fn u32_at(s: Seq<u8>, off: int) -> int {
    u16_at(s, off) + 0x1_0000 * u16_at(s, off + 2)
}

/// The unsigned 64-bit little-endian integer that starts at `off`.
pub open spec fn u64_at(s: Seq<u8>, off: int) -> int {
    u32_at(s, off) + 0x1_0000_0000 * u32_at(s, off + 4)
}

/// The two's complement reading of an unsigned 16-bit value.
pub open spec fn signed16(u: int) -> int {
    if u < 0x8000 {
        u
    } else {
        u - 0x1_0000
    }
}

/// The two's complement reading of an unsigned 32-bit value.
pub open spec fn signed32(u: int) -> int {
    if u < 0x8000_0000 {
        u
    } else {
        u - 0x1_0000_0000
    }
}

/// The signed 16-bit little-endian integer that starts at `off`.
pub open spec fn i16_at(s: Seq<u8>, off: int) -> int {
    signed16(u16_at(s, off))
}

/// The signed 32-bit little-endian integer that starts at `off`.
pub open spec fn i32_at(s: Seq<u8>, off: int) -> int {
    signed32(u32_at(s, off))
}

/// The two lowest bytes of `n`, lowest first; two's complement where `n` is negative.
pub open spec fn le16(n: int) -> Seq<u8> {
    seq![(n % 0x100) as u8, (n / 0x100 % 0x100) as u8]
}

/// The four lowest bytes of `n`, lowest first; two's complement where `n` is negative.
pub open spec fn le32(n: int) -> Seq<u8> {
    le16(n) + le16(n / 0x1_0000)
}

/// The integers of a table, one after the other, four bytes each.
pub open spec fn le32s(table: Seq<u32>) -> Seq<u8>
    decreases table.len(),
{
    if table.len() == 0 {
        Seq::empty()
    } else {
        le32s(table.drop_last()) + le32(table.last() as int)
    }
}

/// Reads the unsigned 16-bit integer at `off`.
pub fn read_u16_le(buf: &[u8], off: usize) -> (r: u16)
    requires
        off + 2 <= buf.len(),
    ensures
        r == u16_at(buf@, off as int),
{
    buf[off] as u16 + 0x100 * (buf[off + 1] as u16)
}

/// Reads the signed 16-bit integer at `off`.
pub fn read_i16_le(buf: &[u8], off: usize) -> (r: i16)
    requires
        off + 2 <= buf.len(),
    ensures
        r == i16_at(buf@, off as int),
{
    let u: u16 = read_u16_le(buf, off);
    if u < 0x8000 {
        u as i16
    } else {
        (u as i32 - 0x1_0000) as i16
    }
}

/// Reads the unsigned 32-bit integer at `off`.
pub fn read_u32_le(buf: &[u8], off: usize) -> (r: u32)
    requires
        off + 4 <= buf.len(),
    ensures
        r == u32_at(buf@, off as int),
{
    read_u16_le(buf, off) as u32 + 0x1_0000 * (read_u16_le(buf, off + 2) as u32)
}

/// Reads the signed 32-bit integer at `off`.
pub fn read_i32_le(buf: &[u8], off: usize) -> (r: i32)
    requires
        off + 4 <= buf.len(),
    ensures
        r == i32_at(buf@, off as int),
{
    let u: u32 = read_u32_le(buf, off);
    if u < 0x8000_0000 {
        u as i32
    } else {
        (u as i64 - 0x1_0000_0000) as i32
    }
}

/// Reads the unsigned 64-bit integer at `off`.
pub fn read_u64_le(buf: &[u8], off: usize) -> (r: u64)
    requires
        off + 8 <= buf.len(),
    ensures
        r == u64_at(buf@, off as int),
{
    read_u32_le(buf, off) as u64 + 0x1_0000_0000 * (read_u32_le(buf, off + 4) as u64)
}

/// Appends an unsigned 16-bit integer.
pub fn push_u16(out: &mut Vec<u8>, n: u16)
    ensures
        final(out)@ == old(out)@ + le16(n as int),
{
    out.push((n % 0x100) as u8);
    out.push((n / 0x100) as u8);
}

/// Appends a signed 16-bit integer in two's complement.
pub fn push_i16(out: &mut Vec<u8>, n: i16)
    ensures
        final(out)@ == old(out)@ + le16(n as int),
{
    let u: u16 = if n < 0 {
        (n as i32 + 0x1_0000) as u16
    } else {
        n as u16
    };
    push_u16(out, u);
}

/// Appends an unsigned 32-bit integer.
pub fn push_u32(out: &mut Vec<u8>, n: u32)
    ensures
        final(out)@ == old(out)@ + le32(n as int),
{
    push_u16(out, (n % 0x1_0000) as u16);
    push_u16(out, (n / 0x1_0000) as u16);
}

/// Splits the 32 low bits of an integer into two halves.
proof fn lemma_halves(n: int)
    ensures
        n % 0x1_0000_0000 == n % 0x1_0000 + 0x1_0000 * (n / 0x1_0000 % 0x1_0000),
        n % 0x1_0000_0000 % 0x1_0000 == n % 0x1_0000,
        n % 0x1_0000_0000 / 0x1_0000 == n / 0x1_0000 % 0x1_0000,
{
    let low = n % 0x1_0000;
    let high = n / 0x1_0000;
    let mid = high % 0x1_0000;
    assert(n == 0x1_0000_0000 * (high / 0x1_0000) + (0x1_0000 * mid + low));
}

/// Only the 16 low bits of an integer are written.
proof fn lemma_le16_low_bits(n: int)
    ensures
        le16(n % 0x1_0000) == le16(n),
{
    let q = n / 0x1_0000;
    let r = n % 0x1_0000;
    assert(n == q * 0x1_0000 + r);
    assert(n / 0x100 == q * 0x100 + r / 0x100);
}

/// Only the 32 low bits of an integer are written.
pub proof fn lemma_le32_low_bits(n: int)
    ensures
        le32(n % 0x1_0000_0000) == le32(n),
{
    lemma_halves(n);
    lemma_le16_low_bits(n);
    lemma_le16_low_bits(n / 0x1_0000);
    lemma_le16_low_bits(n % 0x1_0000_0000);
}

/// Appends the 32 low bits of a length.
pub fn push_len(out: &mut Vec<u8>, n: usize)
    ensures
        final(out)@ == old(out)@ + le32(n as int),
{
    proof {
        lemma_le32_low_bits(n as int);
    }
    push_u32(out, low_u32(n));
}

/// Appends the 16 low bits of a length.
pub fn push_len16(out: &mut Vec<u8>, n: usize)
    ensures
        final(out)@ == old(out)@ + le16(n as int),
{
    proof {
        lemma_le16_low_bits(n as int);
    }
    push_u16(out, (n % 0x1_0000) as u16);
}

/// The 32 low bits of a length.
pub fn low_u32(n: usize) -> (r: u32)
    ensures
        r == n as int % 0x1_0000_0000,
{
    (n as u64 % 0x1_0000_0000) as u32
}

/// Appends a run of bytes.
pub fn push_bytes(out: &mut Vec<u8>, bytes: &[u8])
    ensures
        final(out)@ == old(out)@ + bytes@,
{
    out.extend_from_slice(bytes);
    assert(out@ =~= old(out)@ + bytes@);
}

/// Appends the integers of a table.
pub fn push_u32s(out: &mut Vec<u8>, table: &[u32])
    ensures
        final(out)@ == old(out)@ + le32s(table@),
{
    let ghost before = out@;
    let mut i: usize = 0;
    while i < table.len()
        invariant
            i <= table.len(),
            out@ == before + le32s(table@.take(i as int)),
        decreases table.len() - i,
    {
        push_u32(out, table[i]);
        assert(table@.take(i + 1).drop_last() == table@.take(i as int));
        i = i + 1;
    }
    assert(table@.take(i as int) == table@);
}

/// A written 16-bit integer reads back as its value modulo 2^16, and its signed reading is the
/// integer itself where that fits.
pub proof fn law_le16_reads_back(n: int, before: Seq<u8>, after: Seq<u8>)
    ensures
        u16_at(before + le16(n) + after, before.len() as int) == n % 0x1_0000,
        -0x8000 <= n < 0x8000 ==> i16_at(before + le16(n) + after, before.len() as int) == n,
{
    let s = before + le16(n) + after;
    let k = before.len() as int;
    assert(s[k] == n % 0x100);
    assert(s[k + 1] == n / 0x100 % 0x100);
}

/// A written 32-bit integer reads back as its value modulo 2^32, and its signed reading is the
/// integer itself where that fits.
pub proof fn law_le32_reads_back(n: int, before: Seq<u8>, after: Seq<u8>)
    ensures
        u32_at(before + le32(n) + after, before.len() as int) == n % 0x1_0000_0000,
        -0x8000_0000 <= n < 0x8000_0000 ==> i32_at(before + le32(n) + after, before.len() as int)
            == n,
{
    let s = before + le32(n) + after;
    let low = le16(n);
    let high = le16(n / 0x1_0000);
    assert(s =~= before + low + (high + after));
    assert(s =~= (before + low) + high + after);
    law_le16_reads_back(n, before, high + after);
    law_le16_reads_back(n / 0x1_0000, before + low, after);
    lemma_halves(n);
}

/// A table takes four bytes for each integer.
pub proof fn lemma_le32s_len(table: Seq<u32>)
    ensures
        le32s(table).len() == 4 * table.len(),
    decreases table.len(),
{
    if table.len() > 0 {
        lemma_le32s_len(table.drop_last());
    }
}

/// The integers of a written table read back at their places.
pub proof fn law_le32s_read_back(table: Seq<u32>, before: Seq<u8>, after: Seq<u8>, i: int)
    requires
        0 <= i < table.len(),
    ensures
        u32_at(before + le32s(table) + after, before.len() + 4 * i) == table[i],
    decreases table.len(),
{
    let rest = table.drop_last();
    let last = le32(table.last() as int);
    lemma_le32s_len(rest);
    let s = before + le32s(table) + after;
    if i < table.len() - 1 {
        law_le32s_read_back(rest, before, last + after, i);
        assert(s =~= before + le32s(rest) + (last + after));
    } else {
        law_le32_reads_back(table.last() as int, before + le32s(rest), after);
        assert(s =~= (before + le32s(rest)) + last + after);
    }
}

/// A 32-bit integer within a part reads the same within the whole.
pub proof fn lemma_u32_within(bytes: Seq<u8>, part: Seq<u8>, start: int, at: int)
    requires
        0 <= start,
        start + part.len() <= bytes.len(),
        bytes.subrange(start, start + part.len()) == part,
        0 <= at,
        at + 4 <= part.len(),
    ensures
        u32_at(bytes, start + at) == u32_at(part, at),
{
    assert(part[at] == bytes[start + at]);
    assert(part[at + 1] == bytes[start + at + 1]);
    assert(part[at + 2] == bytes[start + at + 2]);
    assert(part[at + 3] == bytes[start + at + 3]);
}

/// The integer that starts at a place has its lowest byte there, and each byte after it weighs 256
/// times as much. A signed integer is the one in its range that differs from the unsigned one by a
/// multiple of the range.
pub proof fn law_integer_at(s: Seq<u8>, off: int)
    requires
        0 <= off,
    ensures
        off + 2 <= s.len() ==> u16_at(s, off) == s[off] + 256 * s[off + 1],
        off + 2 <= s.len() ==> -32768 <= i16_at(s, off) <= 32767 && (i16_at(s, off) == u16_at(
            s,
            off,
        ) || i16_at(s, off) == u16_at(s, off) - 65536),
        off + 4 <= s.len() ==> u32_at(s, off) == s[off] + 256 * s[off + 1] + 65536 * s[off + 2]
            + 16777216 * s[off + 3],
        off + 4 <= s.len() ==> -2147483648 <= i32_at(s, off) <= 2147483647 && (i32_at(s, off)
            == u32_at(s, off) || i32_at(s, off) == u32_at(s, off) - 4294967296),
        off + 8 <= s.len() ==> u64_at(s, off) == s[off] + 256 * s[off + 1] + 65536 * s[off + 2]
            + 16777216 * s[off + 3] + 4294967296 * s[off + 4] + 1099511627776 * s[off + 5]
            + 281474976710656 * s[off + 6] + 72057594037927936 * s[off + 7],
{
}

/// An integer is written lowest byte first.
pub proof fn law_written_bytes(n: int)
    ensures
        le16(n).len() == 2,
        le16(n)[0] == n % 256,
        le16(n)[1] == n / 256 % 256,
        le32(n).len() == 4,
        le32(n)[0] == n % 256,
        le32(n)[1] == n / 256 % 256,
        le32(n)[2] == n / 65536 % 256,
        le32(n)[3] == n / 16777216 % 256,
{
    assert(n / 65536 / 256 == n / 16777216);
}

/// Tables that follow each other are written one after the other, and a table of one integer as
/// that integer.
pub proof fn law_tables_joined(a: Seq<u32>, b: Seq<u32>, n: u32)
    ensures
        le32s(a + b) == le32s(a) + le32s(b),
        le32s(seq![n]) == le32(n as int),
        le32s(Seq::empty()) == Seq::<u8>::empty(),
    decreases b.len(),
{
    reveal_with_fuel(le32s, 2);
    assert(seq![n].drop_last() =~= Seq::empty());
    assert(le32s(seq![n]) =~= le32(n as int));
    if b.len() == 0 {
        assert(a + b =~= a);
        assert(le32s(a) + le32s(b) =~= le32s(a));
    } else {
        law_tables_joined(a, b.drop_last(), n);
        assert((a + b).drop_last() =~= a + b.drop_last());
        assert(le32s(a + b) =~= le32s(a) + le32s(b));
    }
}

} // verus!
