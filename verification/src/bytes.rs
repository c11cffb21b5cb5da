//! Fixed-width integers in byte buffers.
//!
//! A value is described by the sum of its digits in base 256, so contracts read as arithmetic
//! rather than as shifts and masks.

use vstd::prelude::*;

verus! {

/// The little-endian 16-bit value at `at`.
pub open spec fn le16(s: Seq<u8>, at: int) -> int {
    s[at] + 0x100 * s[at + 1]
}

/// The little-endian 32-bit value at `at`.
pub open spec fn le32(s: Seq<u8>, at: int) -> int {
    s[at] + 0x100 * s[at + 1] + 0x1_0000 * s[at + 2] + 0x100_0000 * s[at + 3]
}

/// The big-endian 32-bit value at `at`.
pub open spec fn be32(s: Seq<u8>, at: int) -> int {
    s[at + 3] + 0x100 * s[at + 2] + 0x1_0000 * s[at + 1] + 0x100_0000 * s[at]
}

/// The little-endian 64-bit value at `at`.
pub open spec fn le64(s: Seq<u8>, at: int) -> int {
    le32(s, at) + 0x1_0000_0000 * le32(s, at + 4)
}

/// The two's-complement reading of an unsigned value of `2 * half` states.
pub open spec fn signed(value: int, half: int) -> int {
    if value < half {
        value
    } else {
        value - 2 * half
    }
}

/// The little-endian bytes of a 16-bit value.
pub open spec fn le16_bytes(value: int) -> Seq<u8> {
    seq![(value % 0x100) as u8, (value / 0x100 % 0x100) as u8]
}

/// The little-endian bytes of a 32-bit value.
pub open spec fn le32_bytes(value: int) -> Seq<u8> {
    seq![
        (value % 0x100) as u8,
        (value / 0x100 % 0x100) as u8,
        (value / 0x1_0000 % 0x100) as u8,
        (value / 0x100_0000 % 0x100) as u8,
    ]
}

/// The big-endian bytes of a 32-bit value.
pub open spec fn be32_bytes(value: int) -> Seq<u8> {
    seq![
        (value / 0x100_0000 % 0x100) as u8,
        (value / 0x1_0000 % 0x100) as u8,
        (value / 0x100 % 0x100) as u8,
        (value % 0x100) as u8,
    ]
}

/// The little-endian bytes of a 64-bit value.
pub open spec fn le64_bytes(value: int) -> Seq<u8> {
    le32_bytes(value % 0x1_0000_0000) + le32_bytes(value / 0x1_0000_0000)
}

/// The unsigned 64-bit value with the bit pattern of `value`.
pub open spec fn bits64(value: int) -> int {
    if value < 0 {
        value + 0x1_0000_0000_0000_0000
    } else {
        value
    }
}

/// The unsigned 32-bit value with the bit pattern of `value`.
pub open spec fn bits32(value: int) -> int {
    if value < 0 {
        value + 0x1_0000_0000
    } else {
        value
    }
}

/// Writing a 16-bit value and reading it back gives the value.
pub proof fn le16_round_trip(value: int)
    requires
        0 <= value < 0x1_0000,
    ensures
        le16(le16_bytes(value), 0) == value,
{
}

/// Writing a 32-bit value in either order and reading it back gives the value.
pub proof fn word_round_trip(value: int)
    requires
        0 <= value < 0x1_0000_0000,
    ensures
        le32(le32_bytes(value), 0) == value,
        be32(be32_bytes(value), 0) == value,
{
}

/// Writing a 64-bit value and reading it back gives the value.
pub proof fn le64_round_trip(value: int)
    requires
        0 <= value < 0x1_0000_0000_0000_0000,
    ensures
        le64(le64_bytes(value), 0) == value,
{
    let low = le32_bytes(value % 0x1_0000_0000);
    let high = le32_bytes(value / 0x1_0000_0000);
    let whole = le64_bytes(value);
    word_round_trip(value % 0x1_0000_0000);
    word_round_trip(value / 0x1_0000_0000);
    assert(forall|i: int| 0 <= i < 4 ==> #[trigger] whole[i] == low[i]);
    assert(whole[4] == high[0] && whole[5] == high[1] && whole[6] == high[2] && whole[7] == high[3]);
}

/// Reads the little-endian 16-bit value at `at`.
pub fn read_u16(bytes: &[u8], at: usize) -> (value: u16)
    requires
        at + 2 <= bytes@.len(),
    ensures
        value == le16(bytes@, at as int),
{
    bytes[at] as u16 + 0x100 * (bytes[at + 1] as u16)
}

/// Reads the little-endian 32-bit value at `at`.
pub fn read_u32(bytes: &[u8], at: usize) -> (value: u32)
    requires
        at + 4 <= bytes@.len(),
    ensures
        value == le32(bytes@, at as int),
{
    bytes[at] as u32 + 0x100 * (bytes[at + 1] as u32) + 0x1_0000 * (bytes[at + 2] as u32)
        + 0x100_0000 * (bytes[at + 3] as u32)
}

/// Reads the big-endian 32-bit value at `at`.
pub fn read_u32_be(bytes: &[u8], at: usize) -> (value: u32)
    requires
        at + 4 <= bytes@.len(),
    ensures
        value == be32(bytes@, at as int),
{
    0x100_0000 * (bytes[at] as u32) + 0x1_0000 * (bytes[at + 1] as u32) + 0x100 * (bytes[at
        + 2] as u32) + bytes[at + 3] as u32
}

/// Reads the little-endian 64-bit value at `at`.
pub fn read_u64(bytes: &[u8], at: usize) -> (value: u64)
    requires
        at + 8 <= bytes@.len(),
    ensures
        value == le64(bytes@, at as int),
{
    assert(bytes.len() <= usize::MAX);
    read_u32(bytes, at) as u64 + 0x1_0000_0000 * (read_u32(bytes, at + 4) as u64)
}

/// The 16-bit value with the bit pattern of `value`.
pub fn signed16(value: u16) -> (result: i16)
    ensures
        result == signed(value as int, 0x8000),
{
    if value < 0x8000 {
        value as i16
    } else {
        (value as i32 - 0x1_0000) as i16
    }
}

/// The 32-bit value with the bit pattern of `value`.
pub fn signed32(value: u32) -> (result: i32)
    ensures
        result == signed(value as int, 0x8000_0000),
{
    if value < 0x8000_0000 {
        value as i32
    } else {
        (value as i64 - 0x1_0000_0000) as i32
    }
}

/// The 64-bit value with the bit pattern of `value`.
pub fn signed64(value: u64) -> (result: i64)
    ensures
        result == signed(value as int, 0x8000_0000_0000_0000),
{
    if value < 0x8000_0000_0000_0000 {
        value as i64
    } else {
        (value - 0x8000_0000_0000_0000) as i64 + i64::MIN
    }
}

/// The unsigned value with the bit pattern of `value`.
pub fn unsigned32(value: i32) -> (result: u32)
    ensures
        result == bits32(value as int),
{
    if value >= 0 {
        value as u32
    } else {
        (value - i32::MIN) as u32 + 0x8000_0000
    }
}

/// The unsigned value with the bit pattern of `value`.
pub fn unsigned64(value: i64) -> (result: u64)
    ensures
        result == bits64(value as int),
{
    if value >= 0 {
        value as u64
    } else {
        (value - i64::MIN) as u64 + 0x8000_0000_0000_0000
    }
}

/// The little-endian bytes of a run of 16-bit values.
pub open spec fn le16_all(words: Seq<int>) -> Seq<u8>
    decreases words.len(),
{
    if words.len() == 0 {
        Seq::empty()
    } else {
        le16_all(words.drop_last()) + le16_bytes(words.last())
    }
}

/// The little-endian bytes of a run of 32-bit values.
pub open spec fn le32_all(words: Seq<int>) -> Seq<u8>
    decreases words.len(),
{
    if words.len() == 0 {
        Seq::empty()
    } else {
        le32_all(words.drop_last()) + le32_bytes(words.last())
    }
}

/// The bytes of one more 16-bit value follow those of the values before it.
pub proof fn le16_all_push(words: Seq<int>, word: int)
    ensures
        le16_all(words.push(word)) == le16_all(words) + le16_bytes(word),
{
    assert(words.push(word).drop_last() =~= words);
}

/// The bytes of one more 32-bit value follow those of the values before it.
pub proof fn le32_all_push(words: Seq<int>, word: int)
    ensures
        le32_all(words.push(word)) == le32_all(words) + le32_bytes(word),
{
    assert(words.push(word).drop_last() =~= words);
}

/// The bytes of two runs of 16-bit values are the bytes of the run of both.
pub proof fn le16_all_concat(a: Seq<int>, b: Seq<int>)
    ensures
        le16_all(a + b) == le16_all(a) + le16_all(b),
    decreases b.len(),
{
    if b.len() == 0 {
        assert(a + b =~= a);
        assert(le16_all(a) + le16_all(b) =~= le16_all(a));
    } else {
        assert((a + b).drop_last() =~= a + b.drop_last());
        le16_all_concat(a, b.drop_last());
        assert(le16_all(a + b) =~= le16_all(a) + le16_all(b));
    }
}

/// The bytes of two runs of 32-bit values are the bytes of the run of both.
pub proof fn le32_all_concat(a: Seq<int>, b: Seq<int>)
    ensures
        le32_all(a + b) == le32_all(a) + le32_all(b),
    decreases b.len(),
{
    if b.len() == 0 {
        assert(a + b =~= a);
        assert(le32_all(a) + le32_all(b) =~= le32_all(a));
    } else {
        assert((a + b).drop_last() =~= a + b.drop_last());
        le32_all_concat(a, b.drop_last());
        assert(le32_all(a + b) =~= le32_all(a) + le32_all(b));
    }
}

/// Value `i` of a run of 16-bit values is read back at byte `2 * i`.
pub proof fn le16_all_at(words: Seq<int>, i: int)
    requires
        0 <= i < words.len(),
        forall|j: int| 0 <= j < words.len() ==> 0 <= #[trigger] words[j] < 0x1_0000,
    ensures
        le16_all(words).len() == 2 * words.len(),
        le16(le16_all(words), 2 * i) == words[i],
    decreases words.len(),
{
    le16_all_len(words);
    le16_all_len(words.drop_last());
    let front = le16_all(words.drop_last());
    let last = le16_bytes(words.last());
    let whole = le16_all(words);
    if i < words.len() - 1 {
        assert forall|j: int| 0 <= j < words.drop_last().len() implies 0
            <= #[trigger] words.drop_last()[j] < 0x1_0000 by {
            assert(words.drop_last()[j] == words[j]);
        }
        le16_all_at(words.drop_last(), i);
        assert(whole[2 * i] == front[2 * i] && whole[2 * i + 1] == front[2 * i + 1]);
    } else {
        assert(whole[2 * i] == last[0] && whole[2 * i + 1] == last[1]);
        assert(0 <= words[words.len() - 1] < 0x1_0000);
    }
}

/// A run of 16-bit values takes two bytes each.
pub proof fn le16_all_len(words: Seq<int>)
    ensures
        le16_all(words).len() == 2 * words.len(),
    decreases words.len(),
{
    if words.len() > 0 {
        le16_all_len(words.drop_last());
    }
}

/// Value `i` of a run of 32-bit values is read back at byte `4 * i`.
pub proof fn le32_all_at(words: Seq<int>, i: int)
    requires
        0 <= i < words.len(),
        forall|j: int| 0 <= j < words.len() ==> 0 <= #[trigger] words[j] < 0x1_0000_0000,
    ensures
        le32_all(words).len() == 4 * words.len(),
        le32(le32_all(words), 4 * i) == words[i],
    decreases words.len(),
{
    le32_all_len(words);
    le32_all_len(words.drop_last());
    let front = le32_all(words.drop_last());
    let last = le32_bytes(words.last());
    let whole = le32_all(words);
    if i < words.len() - 1 {
        assert forall|j: int| 0 <= j < words.drop_last().len() implies 0
            <= #[trigger] words.drop_last()[j] < 0x1_0000_0000 by {
            assert(words.drop_last()[j] == words[j]);
        }
        le32_all_at(words.drop_last(), i);
        assert(whole[4 * i] == front[4 * i] && whole[4 * i + 1] == front[4 * i + 1] && whole[4 * i
            + 2] == front[4 * i + 2] && whole[4 * i + 3] == front[4 * i + 3]);
    } else {
        assert(whole[4 * i] == last[0] && whole[4 * i + 1] == last[1] && whole[4 * i + 2]
            == last[2] && whole[4 * i + 3] == last[3]);
        word_round_trip(words[words.len() - 1]);
    }
}

/// A run of 32-bit values takes four bytes each.
pub proof fn le32_all_len(words: Seq<int>)
    ensures
        le32_all(words).len() == 4 * words.len(),
    decreases words.len(),
{
    if words.len() > 0 {
        le32_all_len(words.drop_last());
    }
}

/// Appends a 16-bit value, least significant byte first.
pub fn push_u16(out: &mut Vec<u8>, value: u16)
    ensures
        final(out)@ == old(out)@ + le16_bytes(value as int),
{
    out.push((value % 0x100) as u8);
    out.push((value / 0x100) as u8);
    assert(out@ =~= old(out)@ + le16_bytes(value as int));
}

/// Appends a 32-bit value, least significant byte first.
pub fn push_u32(out: &mut Vec<u8>, value: u32)
    ensures
        final(out)@ == old(out)@ + le32_bytes(value as int),
{
    out.push((value % 0x100) as u8);
    out.push((value / 0x100 % 0x100) as u8);
    out.push((value / 0x1_0000 % 0x100) as u8);
    out.push((value / 0x100_0000) as u8);
    assert(out@ =~= old(out)@ + le32_bytes(value as int));
}

/// Appends a 64-bit value, least significant byte first.
pub fn push_u64(out: &mut Vec<u8>, value: u64)
    ensures
        final(out)@ == old(out)@ + le64_bytes(value as int),
{
    push_u32(out, (value % 0x1_0000_0000) as u32);
    push_u32(out, (value / 0x1_0000_0000) as u32);
    assert(out@ =~= old(out)@ + le64_bytes(value as int));
}

/// Appends every byte of `more`.
pub fn push_all(out: &mut Vec<u8>, more: &[u8])
    ensures
        final(out)@ == old(out)@ + more@,
{
    out.extend_from_slice(more);
    assert(out@ =~= old(out)@ + more@);
}

} // verus!
