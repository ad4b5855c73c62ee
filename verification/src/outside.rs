//! What the library takes on trust from the crates it calls.
//!
//! Every item here names one function of another crate and states, without
//! proof, what that function does. Nothing else in the library is assumed.
use bytes::{Buf, BufMut};
use vstd::prelude::*;

use crate::error::IoError;
use crate::wire;

verus! {

// ---------------------------------------------------------------------------
// bytes
// ---------------------------------------------------------------------------
/// `bytes::Bytes`, a cheaply cloneable slice of immutable bytes.
#[verifier::external_type_specification]
#[verifier::external_body]
pub struct ExBytes(bytes::Bytes);

/// `bytes::BytesMut`, a growable byte buffer.
#[verifier::external_type_specification]
#[verifier::external_body]
pub struct ExBytesMut(bytes::BytesMut);

/// The bytes that a `Bytes` holds.
pub uninterp spec fn bytes_view(b: bytes::Bytes) -> Seq<u8>;

/// The bytes that a `BytesMut` holds.
pub uninterp spec fn buffer_view(b: bytes::BytesMut) -> Seq<u8>;

/// `Bytes::deref`: borrows the contents as a slice.
#[verifier::external_body]
pub(crate) fn bytes_slice(b: &bytes::Bytes) -> (s: &[u8])
    ensures
        s@ == bytes_view(*b),
{
    std::ops::Deref::deref(b)
}

/// `Bytes::copy_from_slice`: a new `Bytes` holding a copy of the slice.
#[verifier::external_body]
pub(crate) fn bytes_copy(s: &[u8]) -> (b: bytes::Bytes)
    ensures
        bytes_view(b) == s@,
{
    bytes::Bytes::copy_from_slice(s)
}

/// `Bytes::from(Vec<u8>)`: takes the vector over, contents unchanged.
#[verifier::external_body]
pub(crate) fn bytes_from_vec(v: Vec<u8>) -> (b: bytes::Bytes)
    ensures
        bytes_view(b) == v@,
{
    bytes::Bytes::from(v)
}

/// `Bytes::clone`: another handle on the same contents.
#[verifier::external_body]
pub(crate) fn bytes_clone(b: &bytes::Bytes) -> (c: bytes::Bytes)
    ensures
        bytes_view(c) == bytes_view(*b),
{
    b.clone()
}

/// `BytesMut::new`: an empty buffer.
#[verifier::external_body]
pub(crate) fn buffer_new() -> (b: bytes::BytesMut)
    ensures
        buffer_view(b) == Seq::<u8>::empty(),
{
    bytes::BytesMut::new()
}

/// `BytesMut::deref`: borrows the contents as a slice.
#[verifier::external_body]
pub(crate) fn buffer_slice(b: &bytes::BytesMut) -> (s: &[u8])
    ensures
        s@ == buffer_view(*b),
{
    std::ops::Deref::deref(b)
}

/// `BytesMut::reserve`: makes room, and leaves the contents as they are. It
/// panics where the new capacity is more than an allocation can hold.
#[verifier::external_body]
pub(crate) fn buffer_reserve(b: &mut bytes::BytesMut, additional: usize)
    requires
        buffer_view(*old(b)).len() + additional <= isize::MAX,
    ensures
        buffer_view(*final(b)) == buffer_view(*old(b)),
{
    b.reserve(additional)
}

/// `BufMut::put_u8` on a `BytesMut`: appends one byte.
#[verifier::external_body]
pub(crate) fn buffer_put_u8(b: &mut bytes::BytesMut, n: u8)
    requires
        buffer_view(*old(b)).len() + 1 <= isize::MAX,
    ensures
        buffer_view(*final(b)) == buffer_view(*old(b)) + seq![n],
{
    b.put_u8(n)
}

/// `BufMut::put_u32` on a `BytesMut`: appends four bytes, big-endian.
#[verifier::external_body]
pub(crate) fn buffer_put_u32(b: &mut bytes::BytesMut, n: u32)
    requires
        buffer_view(*old(b)).len() + 4 <= isize::MAX,
    ensures
        buffer_view(*final(b)) == buffer_view(*old(b)) + wire::be32(n),
{
    b.put_u32(n)
}

/// `BufMut::put_i64` on a `BytesMut`: appends the eight bytes of the two's
/// complement form, big-endian.
#[verifier::external_body]
pub(crate) fn buffer_put_i64(b: &mut bytes::BytesMut, n: i64)
    requires
        buffer_view(*old(b)).len() + 8 <= isize::MAX,
    ensures
        buffer_view(*final(b)) == buffer_view(*old(b)) + wire::be64(wire::i64_bits(n)),
{
    b.put_i64(n)
}

/// `BufMut::put_slice` on a `BytesMut`: appends the slice.
#[verifier::external_body]
pub(crate) fn buffer_put_slice(b: &mut bytes::BytesMut, s: &[u8])
    requires
        buffer_view(*old(b)).len() + s@.len() <= isize::MAX,
    ensures
        buffer_view(*final(b)) == buffer_view(*old(b)) + s@,
{
    b.put_slice(s)
}

/// `BytesMut::deref_mut` and a store through it: replaces the byte at `at`.
#[verifier::external_body]
pub(crate) fn buffer_set(b: &mut bytes::BytesMut, at: usize, byte: u8)
    requires
        at < buffer_view(*old(b)).len(),
    ensures
        buffer_view(*final(b)) == buffer_view(*old(b)).update(at as int, byte),
{
    std::ops::DerefMut::deref_mut(b)[at] = byte;
}

/// `Buf::get_u8` on a byte slice: reads one byte and moves past it. It panics
/// on an empty slice.
#[verifier::external_body]
pub(crate) fn take_u8(buf: &mut &[u8]) -> (n: u8)
    requires
        old(buf)@.len() >= 1,
    ensures
        n == old(buf)@[0],
        final(buf)@ == old(buf)@.skip(1),
{
    buf.get_u8()
}

/// `Buf::get_u32` on a byte slice: reads four big-endian bytes and moves past
/// them. It panics where fewer are left.
#[verifier::external_body]
pub(crate) fn take_u32(buf: &mut &[u8]) -> (n: u32)
    requires
        old(buf)@.len() >= 4,
    ensures
        n == wire::from_be32(old(buf)@.take(4)),
        final(buf)@ == old(buf)@.skip(4),
{
    buf.get_u32()
}

/// `Buf::get_i64` on a byte slice: reads eight big-endian bytes as a two's
/// complement number and moves past them. It panics where fewer are left.
#[verifier::external_body]
pub(crate) fn take_i64(buf: &mut &[u8]) -> (n: i64)
    requires
        old(buf)@.len() >= 8,
    ensures
        n == wire::i64_of_bits(wire::from_be64(old(buf)@.take(8))),
        final(buf)@ == old(buf)@.skip(8),
{
    buf.get_i64()
}

/// `Buf::advance` on a byte slice: moves past `count` bytes. It panics where
/// fewer are left.
#[verifier::external_body]
pub(crate) fn advance(buf: &mut &[u8], count: usize)
    requires
        count <= old(buf)@.len(),
    ensures
        final(buf)@ == old(buf)@.skip(count as int),
{
    buf.advance(count)
}

// ---------------------------------------------------------------------------
// crc32fast
// ---------------------------------------------------------------------------
/// The CRC-32 of a sequence of bytes, as `crc32fast::hash` computes it.
pub uninterp spec fn crc32(data: Seq<u8>) -> u32;

/// `crc32fast::hash`: the checksum of the slice.
#[verifier::external_body]
pub(crate) fn crc32_hash(data: &[u8]) -> (crc: u32)
    ensures
        crc == crc32(data@),
{
    crc32fast::hash(data)
}

// ---------------------------------------------------------------------------
// lz4_flex
// ---------------------------------------------------------------------------
/// What `lz4_flex::block::decompress_size_prepended` makes of a block behind
/// its size: the decompressed bytes, or nothing where it reports an error.
pub uninterp spec fn lz4_decompressed(input: Seq<u8>) -> Option<Seq<u8>>;

/// `lz4_flex::block::decompress_size_prepended`: decompresses a block that
/// stands behind its decompressed size in four little-endian bytes.
///
/// The output is never longer than that size. The function allocates as much
/// as the size claims before it looks at the block.
#[verifier::external_body]
pub(crate) fn lz4_decompress_size_prepended(input: &[u8]) -> (output: Option<Vec<u8>>)
    requires
        input@.len() >= 4 ==> wire::from_le32(input@.take(4)) <= i32::MAX,
    ensures
        match output {
            Some(v) => lz4_decompressed(input@) == Some(v@) && v@.len() <= wire::from_le32(
                input@.take(4),
            ),
            None => lz4_decompressed(input@) is None,
        },
{
    lz4_flex::block::decompress_size_prepended(input).ok()
}

/// `lz4_flex::block::compress`: compresses the whole slice into one block.
///
/// Behind the slice's length in four little-endian bytes the block
/// decompresses to the slice again, and it is no longer than
/// `lz4_flex::block::get_maximum_output_size` allows. Which block comes out is
/// left open: it differs between machines.
#[verifier::external_body]
pub(crate) fn lz4_compress_block(raw: &[u8]) -> (block: Vec<u8>)
    requires
        110 * raw@.len() <= u64::MAX,
        2 * raw@.len() + 64 <= isize::MAX,
    ensures
        block@.len() <= 20 + raw@.len() * 110 / 100,
        raw@.len() <= u32::MAX ==> lz4_decompressed(wire::le32(raw@.len() as u32) + block@)
            == Some(raw@),
{
    lz4_flex::block::compress(raw)
}

// ---------------------------------------------------------------------------
// zstd
// ---------------------------------------------------------------------------
/// What `zstd::bulk::decompress` makes of a frame under a limit on its output:
/// the decompressed bytes, or nothing where it reports an error.
pub uninterp spec fn zstd_decompressed(input: Seq<u8>, limit: nat) -> Option<Seq<u8>>;

/// `zstd::bulk::decompress`: decompresses a frame into at most `limit` bytes,
/// and reports an error where they do not suffice.
#[verifier::external_body]
pub(crate) fn zstd_bulk_decompress(input: &[u8], limit: usize) -> (output: Option<Vec<u8>>)
    requires
        limit <= isize::MAX,
    ensures
        match output {
            Some(v) => zstd_decompressed(input@, limit as nat) == Some(v@) && v@.len() <= limit,
            None => zstd_decompressed(input@, limit as nat) is None,
        },
{
    zstd::bulk::decompress(input, limit).ok()
}

/// Whether `zstd::bulk::compress` may make this frame of some bytes at this
/// level.
pub uninterp spec fn zstd_makes(raw: Seq<u8>, level: i32, frame: Seq<u8>) -> bool;

/// `zstd::bulk::compress`: compresses the whole slice into one frame.
///
/// The frame is one that the level gives. It decompresses to the slice again
/// under every limit that the slice fits in, and it is no longer than
/// `zstd::zstd_safe::compress_bound` allows. Which of the frames that a level
/// can give comes out is left open.
///
/// The call writes to a buffer of `compress_bound` bytes, in which zstd
/// guarantees it has enough space, and zstd brings any level into its range.
/// What is left to fail is an allocation of zstd's own, and that ends the
/// program, as any failed allocation does.
#[verifier::external_body]
pub(crate) fn zstd_bulk_compress(raw: &[u8], level: i32) -> (frame: Vec<u8>)
    requires
        2 * raw@.len() + 64 <= isize::MAX,
    ensures
        zstd_makes(raw@, level, frame@),
        frame@.len() <= raw@.len() + raw@.len() / 256 + 64,
        forall|limit: nat|
            raw@.len() <= limit ==> #[trigger] zstd_decompressed(frame@, limit) == Some(raw@),
{
    zstd::bulk::compress(raw, level).expect("zstd compress has room for its output")
}

// ---------------------------------------------------------------------------
// std
// ---------------------------------------------------------------------------
/// What an error that was made of its kind alone, by
/// `std::io::Error::from(ErrorKind)`, says of itself: a description of the
/// kind.
pub uninterp spec fn io_kind_text(kind: std::io::ErrorKind) -> Seq<char>;

/// `std::io::Error::from(ErrorKind)`: an error of this kind, whose message is
/// the description of the kind.
#[verifier::external_body]
pub(crate) fn io_error_of_kind(kind: std::io::ErrorKind) -> (e: IoError)
    ensures
        e.kind == kind,
        e.message@ == io_kind_text(kind),
{
    IoError { kind, message: std::io::Error::from(kind).to_string() }
}

/// A text in quotes and with escapes, as the standard library's `Debug` of a
/// string writes it.
pub uninterp spec fn quoted(text: Seq<char>) -> Seq<char>;

/// `<str as std::fmt::Debug>::fmt`, through `format!`: the text in quotes, with
/// what cannot be printed escaped.
#[verifier::external_body]
pub(crate) fn quote(text: &str) -> (output: String)
    ensures
        output@ == quoted(text@),
{
    format!("{:?}", text)
}

/// `PathBuf::clone`: the same path.
#[verifier::external_body]
pub(crate) fn path_clone(path: &std::path::PathBuf) -> (copy: std::path::PathBuf)
    ensures
        copy == *path,
{
    path.clone()
}

/// A path in text, as `std::path::Path::display` writes it: what is not Unicode
/// is replaced.
pub uninterp spec fn path_text(path: std::path::PathBuf) -> Seq<char>;

/// `std::path::Path::display`, through `format!`: the path in text.
#[verifier::external_body]
pub(crate) fn path_show(path: &std::path::PathBuf) -> (output: String)
    ensures
        output@ == path_text(*path),
{
    format!("{}", path.display())
}

} // verus!
