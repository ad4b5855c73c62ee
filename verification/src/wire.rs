//! Fixed-width integers as bytes.
//!
//! The record and index formats are big-endian; the compressed-value header
//! and the offset files are little-endian. The specifications here are plain
//! arithmetic on the integers.
use vstd::prelude::*;

verus! {

/// The four bytes of `n`, most significant first.
#[verifier::opaque]
pub open spec fn be32(n: u32) -> Seq<u8> {
    seq![
        (n / 0x100_0000) as u8,
        ((n / 0x1_0000) % 0x100) as u8,
        ((n / 0x100) % 0x100) as u8,
        (n % 0x100) as u8,
    ]
}

/// The number whose big-endian form is the first four bytes of `b`.
#[verifier::opaque]
pub open spec fn from_be32(b: Seq<u8>) -> u32 {
    (b[0] * 0x100_0000 + b[1] * 0x1_0000 + b[2] * 0x100 + b[3]) as u32
}

/// The four bytes of `n`, least significant first.
#[verifier::opaque]
pub open spec fn le32(n: u32) -> Seq<u8> {
    seq![
        (n % 0x100) as u8,
        ((n / 0x100) % 0x100) as u8,
        ((n / 0x1_0000) % 0x100) as u8,
        (n / 0x100_0000) as u8,
    ]
}

/// The number whose little-endian form is the first four bytes of `b`.
#[verifier::opaque]
pub open spec fn from_le32(b: Seq<u8>) -> u32 {
    (b[3] * 0x100_0000 + b[2] * 0x1_0000 + b[1] * 0x100 + b[0]) as u32
}

/// The eight bytes of `n`, most significant first.
#[verifier::opaque]
pub open spec fn be64(n: u64) -> Seq<u8> {
    be32((n / 0x1_0000_0000) as u32) + be32((n % 0x1_0000_0000) as u32)
}

/// The number whose big-endian form is the first eight bytes of `b`.
#[verifier::opaque]
pub open spec fn from_be64(b: Seq<u8>) -> u64 {
    (from_be32(b.subrange(0, 4)) * 0x1_0000_0000 + from_be32(b.subrange(4, 8))) as u64
}

/// The eight bytes of `n`, least significant first.
#[verifier::opaque]
pub open spec fn le64(n: u64) -> Seq<u8> {
    le32((n % 0x1_0000_0000) as u32) + le32((n / 0x1_0000_0000) as u32)
}

/// The number whose little-endian form is the first eight bytes of `b`.
#[verifier::opaque]
pub open spec fn from_le64(b: Seq<u8>) -> u64 {
    (from_le32(b.subrange(4, 8)) * 0x1_0000_0000 + from_le32(b.subrange(0, 4))) as u64
}

/// The two's complement bit pattern of `n`, read as unsigned.
pub open spec fn i64_bits(n: i64) -> u64 {
    (if n < 0 {
        n + 0x1_0000_0000_0000_0000
    } else {
        n as int
    }) as u64
}

/// The signed number whose two's complement bit pattern is `bits`.
pub open spec fn i64_of_bits(bits: u64) -> i64 {
    (if bits > i64::MAX {
        bits - 0x1_0000_0000_0000_0000
    } else {
        bits as int
    }) as i64
}

/// A `u32` takes four bytes.
pub broadcast proof fn lemma_be32_len(n: u32)
    ensures
        #[trigger] be32(n).len() == 4,
{
    reveal(be32);
}

/// The four bytes of a `u32`, one by one.
pub proof fn lemma_be32_bytes(n: u32)
    ensures
        be32(n)[0] == (n / 0x100_0000) as u8,
        be32(n)[1] == ((n / 0x1_0000) % 0x100) as u8,
        be32(n)[2] == ((n / 0x100) % 0x100) as u8,
        be32(n)[3] == (n % 0x100) as u8,
{
    reveal(be32);
}

/// A `u64` takes eight bytes.
pub broadcast proof fn lemma_be64_len(n: u64)
    ensures
        #[trigger] be64(n).len() == 8,
{
    reveal(be32);
    reveal(be64);
}

/// A `u32` takes four bytes.
pub broadcast proof fn lemma_le32_len(n: u32)
    ensures
        #[trigger] le32(n).len() == 4,
{
    reveal(le32);
}

/// A `u64` takes eight bytes.
pub broadcast proof fn lemma_le64_len(n: u64)
    ensures
        #[trigger] le64(n).len() == 8,
{
    reveal(le32);
    reveal(le64);
}

/// The lengths of all the byte forms.
pub broadcast group group_lengths {
    lemma_be32_len,
    lemma_be64_len,
    lemma_le32_len,
    lemma_le64_len,
}

/// Reading four big-endian bytes gives back the number that was written.
pub proof fn lemma_be32_round_trip(n: u32)
    ensures
        be32(n).len() == 4,
        from_be32(be32(n)) == n,
{
    reveal(be32);
    reveal(from_be32);
}

/// Reading four little-endian bytes gives back the number that was written.
pub proof fn lemma_le32_round_trip(n: u32)
    ensures
        le32(n).len() == 4,
        from_le32(le32(n)) == n,
{
    reveal(le32);
    reveal(from_le32);
}

/// Reading eight big-endian bytes gives back the number that was written.
pub proof fn lemma_be64_round_trip(n: u64)
    ensures
        be64(n).len() == 8,
        from_be64(be64(n)) == n,
{
    broadcast use group_lengths;

    reveal(be64);
    reveal(from_be64);
    let high = (n / 0x1_0000_0000) as u32;
    let low = (n % 0x1_0000_0000) as u32;
    assert(be64(n).subrange(0, 4) =~= be32(high));
    assert(be64(n).subrange(4, 8) =~= be32(low));
    lemma_be32_round_trip(high);
    lemma_be32_round_trip(low);
}

/// Reading eight little-endian bytes gives back the number that was written.
pub proof fn lemma_le64_round_trip(n: u64)
    ensures
        le64(n).len() == 8,
        from_le64(le64(n)) == n,
{
    broadcast use group_lengths;

    reveal(le64);
    reveal(from_le64);
    let high = (n / 0x1_0000_0000) as u32;
    let low = (n % 0x1_0000_0000) as u32;
    assert(le64(n).subrange(0, 4) =~= le32(low));
    assert(le64(n).subrange(4, 8) =~= le32(high));
    lemma_le32_round_trip(high);
    lemma_le32_round_trip(low);
}

/// A signed number survives the trip through its bit pattern.
pub proof fn lemma_i64_bits_round_trip(n: i64)
    ensures
        i64_of_bits(i64_bits(n)) == n,
{
}

/// Reads the big-endian `u32` at `at`.
pub fn read_be32(b: &[u8], at: usize) -> (n: u32)
    requires
        at + 4 <= b@.len(),
    ensures
        n == from_be32(b@.subrange(at as int, at + 4)),
{
    proof {
        reveal(from_be32);
    }
    assert(at + 4 <= b.len());
    let n: u32 = (b[at] as u32) * 0x100_0000 + (b[at + 1] as u32) * 0x1_0000 + (b[at + 2] as u32)
        * 0x100 + (b[at + 3] as u32);
    assert(n == from_be32(b@.subrange(at as int, at + 4)));
    n
}

/// Reads the little-endian `u32` at `at`.
pub fn read_le32(b: &[u8], at: usize) -> (n: u32)
    requires
        at + 4 <= b@.len(),
    ensures
        n == from_le32(b@.subrange(at as int, at + 4)),
{
    proof {
        reveal(from_le32);
    }
    assert(at + 4 <= b.len());
    let n: u32 = (b[at + 3] as u32) * 0x100_0000 + (b[at + 2] as u32) * 0x1_0000 + (b[at + 1] as u32)
        * 0x100 + (b[at] as u32);
    assert(n == from_le32(b@.subrange(at as int, at + 4)));
    n
}

/// Reads the little-endian `u64` at `at`.
pub fn read_le64(b: &[u8], at: usize) -> (n: u64)
    requires
        at + 8 <= b@.len(),
    ensures
        n == from_le64(b@.subrange(at as int, at + 8)),
{
    proof {
        reveal(from_le64);
    }
    assert(at + 8 <= b.len());
    let low: u32 = read_le32(b, at);
    let high: u32 = read_le32(b, at + 4);
    proof {
        let eight = b@.subrange(at as int, at + 8);
        assert(eight.subrange(0, 4) =~= b@.subrange(at as int, at + 4));
        assert(eight.subrange(4, 8) =~= b@.subrange(at + 4, at + 8));
    }
    (high as u64) * 0x1_0000_0000 + (low as u64)
}

/// Appends the big-endian form of `n`.
pub fn push_be32(out: &mut Vec<u8>, n: u32)
    ensures
        final(out)@ == old(out)@ + be32(n),
{
    proof {
        reveal(be32);
    }
    out.push((n / 0x100_0000) as u8);
    out.push(((n / 0x1_0000) % 0x100) as u8);
    out.push(((n / 0x100) % 0x100) as u8);
    out.push((n % 0x100) as u8);
    assert(out@ =~= old(out)@ + be32(n));
}

/// Appends the little-endian form of `n`.
pub fn push_le32(out: &mut Vec<u8>, n: u32)
    ensures
        final(out)@ == old(out)@ + le32(n),
{
    proof {
        reveal(le32);
    }
    out.push((n % 0x100) as u8);
    out.push(((n / 0x100) % 0x100) as u8);
    out.push(((n / 0x1_0000) % 0x100) as u8);
    out.push((n / 0x100_0000) as u8);
    assert(out@ =~= old(out)@ + le32(n));
}

/// Appends the little-endian form of `n`.
pub fn push_le64(out: &mut Vec<u8>, n: u64)
    ensures
        final(out)@ == old(out)@ + le64(n),
{
    proof {
        reveal(le64);
    }
    push_le32(out, (n % 0x1_0000_0000) as u32);
    push_le32(out, (n / 0x1_0000_0000) as u32);
    assert(out@ =~= old(out)@ + le64(n));
}

/// The big-endian form of a number has four bytes, of which the first counts
/// for most.
pub proof fn law_big_endian_32(n: u32)
    ensures
        be32(n).len() == 4,
        n == 0x100_0000 * be32(n)[0] + 0x1_0000 * be32(n)[1] + 0x100 * be32(n)[2] + be32(n)[3],
{
    reveal(be32);
}

/// The little-endian form of a number has four bytes, of which the last counts
/// for most.
pub proof fn law_little_endian_32(n: u32)
    ensures
        le32(n).len() == 4,
        n == le32(n)[0] + 0x100 * le32(n)[1] + 0x1_0000 * le32(n)[2] + 0x100_0000 * le32(n)[3],
{
    reveal(le32);
}

/// Of eight big-endian bytes the first four are worth 2 to the 32nd times as
/// much as the last four.
pub proof fn law_big_endian_64(n: u64)
    ensures
        be64(n).len() == 8,
        n == 0x1_0000_0000 * (0x100_0000 * be64(n)[0] + 0x1_0000 * be64(n)[1] + 0x100 * be64(
            n,
        )[2] + be64(n)[3]) + (0x100_0000 * be64(n)[4] + 0x1_0000 * be64(n)[5] + 0x100 * be64(n)[6]
            + be64(n)[7]),
{
    reveal(be64);
    let high = (n / 0x1_0000_0000) as u32;
    let low = (n % 0x1_0000_0000) as u32;
    law_big_endian_32(high);
    law_big_endian_32(low);
}

/// Of eight little-endian bytes the last four are worth 2 to the 32nd times as
/// much as the first four.
pub proof fn law_little_endian_64(n: u64)
    ensures
        le64(n).len() == 8,
        n == (le64(n)[0] + 0x100 * le64(n)[1] + 0x1_0000 * le64(n)[2] + 0x100_0000 * le64(n)[3])
            + 0x1_0000_0000 * (le64(n)[4] + 0x100 * le64(n)[5] + 0x1_0000 * le64(n)[6]
            + 0x100_0000 * le64(n)[7]),
{
    reveal(le64);
    let high = (n / 0x1_0000_0000) as u32;
    let low = (n % 0x1_0000_0000) as u32;
    law_little_endian_32(high);
    law_little_endian_32(low);
}

/// What four bytes stand for, in either order.
pub proof fn law_value_of_four_bytes(b: Seq<u8>)
    requires
        b.len() >= 4,
    ensures
        from_be32(b) == 0x100_0000 * b[0] + 0x1_0000 * b[1] + 0x100 * b[2] + b[3],
        from_le32(b) == b[0] + 0x100 * b[1] + 0x1_0000 * b[2] + 0x100_0000 * b[3],
{
    reveal(from_be32);
    reveal(from_le32);
}

/// What eight bytes stand for, in either order.
pub proof fn law_value_of_eight_bytes(b: Seq<u8>)
    requires
        b.len() >= 8,
    ensures
        from_be64(b) == 0x1_0000_0000 * (0x100_0000 * b[0] + 0x1_0000 * b[1] + 0x100 * b[2]
            + b[3]) + (0x100_0000 * b[4] + 0x1_0000 * b[5] + 0x100 * b[6] + b[7]),
        from_le64(b) == (b[0] + 0x100 * b[1] + 0x1_0000 * b[2] + 0x100_0000 * b[3])
            + 0x1_0000_0000 * (b[4] + 0x100 * b[5] + 0x1_0000 * b[6] + 0x100_0000 * b[7]),
{
    reveal(from_be64);
    reveal(from_le64);
    law_value_of_four_bytes(b.subrange(0, 4));
    law_value_of_four_bytes(b.subrange(4, 8));
}

/// A signed number and its bit pattern differ by nothing, or by 2 to the 64th
/// where the number is negative.
pub proof fn law_bits_of_signed(n: i64, bits: u64)
    ensures
        n >= 0 ==> i64_bits(n) == n,
        n < 0 ==> i64_bits(n) == n + 0x1_0000_0000_0000_0000,
        bits < 0x8000_0000_0000_0000 ==> i64_of_bits(bits) == bits,
        bits >= 0x8000_0000_0000_0000 ==> i64_of_bits(bits) == bits - 0x1_0000_0000_0000_0000,
{
}

} // verus!
