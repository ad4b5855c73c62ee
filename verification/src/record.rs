//! Records and their form on disk.
//!
//! A record is written as (all integers big-endian):
//!
//! ```text
//! len u32 | crc32 u32 | flag u8 | timestamp i64 | key_len u32 | key | val_len u32 | value
//! ```
//!
//! `len` counts everything behind itself, `crc32` covers everything behind
//! itself, a `key_len` of `u32::MAX` stands for no key, and the flag says how
//! the value is stored.
use bytes::{Bytes, BytesMut};
use vstd::prelude::*;
use vstd::slice::slice_subrange;

use crate::compression;
use crate::compression::{CodecSet, Compression};
use crate::error::KafkoError;
use crate::outside;
use crate::wire;

verus! {

broadcast use wire::group_lengths;

/// The `key_len` of a record without a key.
pub const KEY_NULL_SENTINEL: u32 = u32::MAX;

/// The least that a record's length field can be: checksum, flag, timestamp
/// and the two lengths.
pub const MIN_TOTAL_LEN: usize = 4 + 1 + 8 + 4 + 4;

/// One entry of the log: a timestamp, an optional key, and a value.
#[derive(Debug, PartialEq, Eq)]
pub struct Record {
    timestamp_ms: i64,
    key: Option<Bytes>,
    value: Bytes,
}

/// A record as a value: what its fields hold.
#[verifier::ext_equal]
pub struct RecordView {
    /// Milliseconds since the Unix epoch.
    pub timestamp_ms: i64,
    /// The key, where there is one.
    pub key: Option<Seq<u8>>,
    /// The value, decompressed.
    pub value: Seq<u8>,
}

impl View for Record {
    type V = RecordView;

    closed spec fn view(&self) -> RecordView {
        RecordView {
            timestamp_ms: self.timestamp_ms,
            key: key_view(self.key),
            value: outside::bytes_view(self.value),
        }
    }
}

/// What an optional key holds.
pub open spec fn key_view(key: Option<Bytes>) -> Option<Seq<u8>> {
    match key {
        None => None,
        Some(k) => Some(outside::bytes_view(k)),
    }
}

/// The number of bytes in a key.
pub open spec fn key_size(key: Option<Seq<u8>>) -> nat {
    match key {
        None => 0,
        Some(k) => k.len(),
    }
}

/// The size of a record on disk where its value is not compressed.
pub open spec fn wire_len(r: RecordView) -> nat {
    25 + key_size(r.key) + r.value.len()
}

/// The most that a record can take up on disk.
pub open spec fn encoded_bound(codec: Compression, r: RecordView) -> nat {
    match codec {
        Compression::Uncompressed => wire_len(r),
        _ => wire_len(r) + r.value.len() + 64,
    }
}

/// Whether a record can be encoded behind `used` bytes: the buffers that this
/// takes can be allocated.
pub open spec fn encodable(codec: Compression, r: RecordView, used: nat) -> bool {
    &&& codec == Compression::Uncompressed || compression::codec_input_fits(r.value.len())
    &&& used + encoded_bound(codec, r) <= isize::MAX
}

/// The key's length and the key.
pub open spec fn key_part(key: Option<Seq<u8>>) -> Seq<u8> {
    match key {
        None => wire::be32(KEY_NULL_SENTINEL),
        Some(k) => wire::be32(k.len() as u32) + k,
    }
}

/// What a record's checksum covers.
pub open spec fn payload(flag: u8, r: RecordView, stored: Seq<u8>) -> Seq<u8> {
    seq![flag] + wire::be64(wire::i64_bits(r.timestamp_ms)) + key_part(r.key) + wire::be32(
        stored.len() as u32,
    ) + stored
}

/// A record on disk, its value in the form `stored`.
pub open spec fn frame(codec: Compression, r: RecordView, stored: Seq<u8>) -> Seq<u8> {
    let covered = payload(compression::flag_of(codec), r, stored);
    wire::be32((4 + covered.len()) as u32) + wire::be32(outside::crc32(covered)) + covered
}

/// Whether `bytes` is a form of the record under this codec.
pub open spec fn encodes(codec: Compression, r: RecordView, bytes: Seq<u8>) -> bool {
    exists|stored: Seq<u8>|
        compression::stores(codec, r.value, stored) && bytes == #[trigger] frame(codec, r, stored)
}

/// Whether a record can be read back: its length fits the length field, and a
/// compressed value is within the decompression limit.
pub open spec fn readable(codec: Compression, r: RecordView, bytes: Seq<u8>) -> bool {
    &&& bytes.len() - 4 <= u32::MAX
    &&& codec == Compression::Uncompressed || r.value.len() <= compression::DECOMPRESS_MAX_SIZE
}

/// What reading a record off the front of some bytes comes to.
pub struct Parsed {
    /// The record, or what is wrong.
    pub outcome: Result<RecordView, KafkoError>,
    /// How many bytes were read.
    pub consumed: int,
}

/// Reads a record off the front of `b`. The key and the value have to end
/// within the record, which the checksum covers.
pub open spec fn parse(codecs: CodecSet, b: Seq<u8>) -> Parsed {
    if b.len() < 4 {
        Parsed {
            outcome: Err(KafkoError::Truncated { needed: (4 - b.len()) as usize }),
            consumed: 0,
        }
    } else {
        let total = wire::from_be32(b.take(4));
        if total < MIN_TOTAL_LEN {
            Parsed { outcome: Err(KafkoError::InvalidLength(total)), consumed: 4 }
        } else if b.len() - 4 < total {
            Parsed {
                outcome: Err(
                    KafkoError::Truncated { needed: (total - (b.len() - 4)) as usize },
                ),
                consumed: 4,
            }
        } else {
            let expected = wire::from_be32(b.subrange(4, 8));
            let actual = outside::crc32(b.subrange(8, 4 + total));
            if actual != expected {
                Parsed { outcome: Err(KafkoError::CrcMismatch { expected, actual }), consumed: 8 }
            } else {
                match compression::codec_of(b[8]) {
                    None => Parsed {
                        outcome: Err(KafkoError::UnknownCompression(b[8])),
                        consumed: 9,
                    },
                    Some(codec) => parse_key(codecs, codec, total, b),
                }
            }
        }
    }
}

/// Continues [`parse`] behind the flag.
pub open spec fn parse_key(
    codecs: CodecSet,
    codec: Compression,
    total: u32,
    b: Seq<u8>,
) -> Parsed {
    let timestamp_ms = wire::i64_of_bits(wire::from_be64(b.subrange(9, 17)));
    let key_len = wire::from_be32(b.subrange(17, 21));
    if key_len == KEY_NULL_SENTINEL {
        parse_value(codecs, codec, total, timestamp_ms, None, b, 21)
    } else if 4 + total - 21 < key_len {
        Parsed { outcome: Err(KafkoError::InvalidLength(total)), consumed: 21 }
    } else {
        let key = b.subrange(21, 21 + key_len);
        parse_value(codecs, codec, total, timestamp_ms, Some(key), b, 21 + key_len)
    }
}

/// Continues [`parse_key`] behind the key, at `at`.
pub open spec fn parse_value(
    codecs: CodecSet,
    codec: Compression,
    total: u32,
    timestamp_ms: i64,
    key: Option<Seq<u8>>,
    b: Seq<u8>,
    at: int,
) -> Parsed {
    if 4 + total - at < 4 {
        Parsed { outcome: Err(KafkoError::InvalidLength(total)), consumed: at }
    } else {
        let val_len = wire::from_be32(b.subrange(at, at + 4));
        if 4 + total - (at + 4) < val_len {
            Parsed { outcome: Err(KafkoError::InvalidLength(total)), consumed: at + 4 }
        } else {
            match compression::restored(codecs, codec, b.subrange(at + 4, at + 4 + val_len)) {
                Err(e) => Parsed { outcome: Err(e), consumed: at + 4 },
                Ok(value) => Parsed {
                    outcome: Ok(RecordView { timestamp_ms, key, value }),
                    consumed: at + 4 + val_len,
                },
            }
        }
    }
}

/// What [`Record::decode_in`] returns and leaves of its input.
pub open spec fn decoded(
    codecs: CodecSet,
    before: Seq<u8>,
    after: Seq<u8>,
    result: Result<Record, KafkoError>,
) -> bool {
    let parsed = parse(codecs, before);
    &&& after == before.skip(parsed.consumed)
    &&& match result {
        Ok(r) => parsed.outcome == Ok::<RecordView, KafkoError>(r@),
        Err(e) => parsed.outcome == Err::<RecordView, KafkoError>(e),
    }
}

/// What [`Record::encode_with_in`] returns and appends to its output.
pub open spec fn encoded(
    codecs: CodecSet,
    codec: Compression,
    r: RecordView,
    before: Seq<u8>,
    after: Seq<u8>,
    result: Result<usize, KafkoError>,
) -> bool {
    if codecs.supports(codec) {
        &&& result matches Ok(n)
        &&& after.len() == before.len() + n
        &&& after.take(before.len() as int) == before
        &&& encodes(codec, r, after.skip(before.len() as int))
        &&& n <= encoded_bound(codec, r)
    } else {
        &&& result == Err::<usize, KafkoError>(KafkoError::CompressionUnavailable(codec))
        &&& after == before
    }
}

impl Clone for Record {
    fn clone(&self) -> (copy: Self)
        ensures
            copy@ == self@,
    {
        let key: Option<Bytes> = match &self.key {
            None => None,
            Some(k) => Some(outside::bytes_clone(k)),
        };
        Record { timestamp_ms: self.timestamp_ms, key, value: outside::bytes_clone(&self.value) }
    }
}

impl Record {
    /// Builds a record.
    pub fn new(timestamp_ms: i64, key: Option<Bytes>, value: Bytes) -> (r: Self)
        ensures
            r@ == (RecordView {
                timestamp_ms,
                key: key_view(key),
                value: outside::bytes_view(value),
            }),
    {
        Record { timestamp_ms, key, value }
    }

    /// The record's timestamp, in milliseconds since the Unix epoch.
    pub fn timestamp_ms(&self) -> (timestamp_ms: i64)
        ensures
            timestamp_ms == self@.timestamp_ms,
    {
        self.timestamp_ms
    }

    /// The record's key, if it has one.
    pub fn key(&self) -> (key: Option<&Bytes>)
        ensures
            match key {
                None => self@.key is None,
                Some(k) => self@.key == Some(outside::bytes_view(*k)),
            },
    {
        match &self.key {
            None => None,
            Some(k) => Some(k),
        }
    }

    /// The record's value.
    pub fn value(&self) -> (value: &Bytes)
        ensures
            outside::bytes_view(*value) == self@.value,
    {
        &self.value
    }

    /// The record's size on disk, if its value is not compressed.
    pub fn wire_size(&self) -> (n: usize)
        requires
            wire_len(self@) <= usize::MAX,
        ensures
            n == wire_len(self@),
    {
        let key_len: usize = match &self.key {
            None => 0,
            Some(k) => outside::bytes_slice(k).len(),
        };
        25 + key_len + outside::bytes_slice(&self.value).len()
    }

    /// The record's size on disk, if its value is not compressed and the size
    /// can be counted.
    pub fn checked_wire_size(&self) -> (n: Option<usize>)
        ensures
            n == if wire_len(self@) <= usize::MAX {
                Some(wire_len(self@) as usize)
            } else {
                None::<usize>
            },
    {
        let key_len: usize = match &self.key {
            None => 0,
            Some(k) => outside::bytes_slice(k).len(),
        };
        let size: u128 = 25 + key_len as u128 + outside::bytes_slice(&self.value).len() as u128;
        if size <= usize::MAX as u128 {
            Some(self.wire_size())
        } else {
            None
        }
    }

    /// Appends the record, uncompressed, and returns how many bytes that took.
    pub fn encode(self, out: &mut BytesMut) -> (n: usize)
        requires
            outside::buffer_view(*old(out)).len() + wire_len(self@) <= isize::MAX,
        ensures
            outside::buffer_view(*final(out)) == outside::buffer_view(*old(out)) + frame(
                Compression::Uncompressed,
                self@,
                self@.value,
            ),
            n == wire_len(self@),
    {
        self.encode_inner(out, Compression::Uncompressed, outside::bytes_slice(&self.value))
    }

    /// Appends the record, its value stored with this codec, and returns how
    /// many bytes that took.
    pub fn encode_with(self, out: &mut BytesMut, compression: Compression) -> (result: Result<
        usize,
        KafkoError,
    >)
        requires
            encodable(compression, self@, outside::buffer_view(*old(out)).len()),
        ensures
            encoded(
                CodecSet::of_this_build(),
                compression,
                self@,
                outside::buffer_view(*old(out)),
                outside::buffer_view(*final(out)),
                result,
            ),
    {
        self.encode_with_in(CodecSet::built_in(), out, compression)
    }

    /// As [`Record::encode_with`], in a build with these codecs.
    pub fn encode_with_in(
        self,
        codecs: CodecSet,
        out: &mut BytesMut,
        compression: Compression,
    ) -> (result: Result<usize, KafkoError>)
        requires
            encodable(compression, self@, outside::buffer_view(*old(out)).len()),
        ensures
            encoded(
                codecs,
                compression,
                self@,
                outside::buffer_view(*old(out)),
                outside::buffer_view(*final(out)),
                result,
            ),
    {
        self.append_to(codecs, out, compression)
    }

    /// Appends the record, its value stored with this codec.
    pub(crate) fn append_to(&self, codecs: CodecSet, out: &mut BytesMut, compression: Compression)
        -> (result: Result<usize, KafkoError>)
        requires
            encodable(compression, self@, outside::buffer_view(*old(out)).len()),
        ensures
            encoded(
                codecs,
                compression,
                self@,
                outside::buffer_view(*old(out)),
                outside::buffer_view(*final(out)),
                result,
            ),
    {
        let ghost before = outside::buffer_view(*out);
        match compression {
            Compression::Uncompressed => {
                let n: usize = self.encode_inner(
                    out,
                    compression,
                    outside::bytes_slice(&self.value),
                );
                proof {
                    lemma_frame_len(compression, self@, self@.value);
                    let after = outside::buffer_view(*out);
                    assert(after.take(before.len() as int) =~= before);
                    assert(after.skip(before.len() as int) =~= frame(
                        compression,
                        self@,
                        self@.value,
                    ));
                }
                Ok(n)
            },
            Compression::Lz4 | Compression::Zstd => {
                let mut scratch: Vec<u8> = Vec::new();
                match compression.compress_in(
                    codecs,
                    outside::bytes_slice(&self.value),
                    &mut scratch,
                ) {
                    Err(e) => Err(e),
                    Ok(()) => {
                        let n: usize = self.encode_inner(out, compression, scratch.as_slice());
                        proof {
                            lemma_frame_len(compression, self@, scratch@);
                            let after = outside::buffer_view(*out);
                            assert(after.take(before.len() as int) =~= before);
                            assert(after.skip(before.len() as int) =~= frame(
                                compression,
                                self@,
                                scratch@,
                            ));
                        }
                        Ok(n)
                    },
                }
            },
        }
    }

    /// Appends the record with its value as given.
    fn encode_inner(&self, out: &mut BytesMut, compression: Compression, stored: &[u8]) -> (n:
        usize)
        requires
            outside::buffer_view(*old(out)).len() + 25 + key_size(self@.key) + stored@.len()
                <= isize::MAX,
        ensures
            outside::buffer_view(*final(out)) == outside::buffer_view(*old(out)) + frame(
                compression,
                self@,
                stored@,
            ),
            n == 25 + key_size(self@.key) + stored@.len(),
    {
        let start_len: usize = outside::buffer_slice(out).len();
        let ghost before = outside::buffer_view(*out);
        let key_len: usize = match &self.key {
            None => 0,
            Some(k) => outside::bytes_slice(k).len(),
        };
        let payload_len: usize = 1 + 8 + (4 + key_len) + (4 + stored.len());
        let total_len: usize = 4 + payload_len;

        outside::buffer_reserve(out, 4 + total_len);
        let total_field: u32 = #[verifier::truncate]
        (total_len as u32);
        outside::buffer_put_u32(out, total_field);
        let crc_pos: usize = start_len + 4;
        outside::buffer_put_u32(out, 0);

        let payload_start: usize = start_len + 8;
        let ghost head = outside::buffer_view(*out);
        let ghost flag_part = seq![compression::flag_of(compression)];
        let ghost timestamp_part = wire::be64(wire::i64_bits(self.timestamp_ms));
        proof {
            lemma_frame_len(compression, self@, stored@);
        }
        outside::buffer_put_u8(out, compression.flag());
        outside::buffer_put_i64(out, self.timestamp_ms);
        proof {
            lemma_append_assoc(head, flag_part, timestamp_part);
        }
        match &self.key {
            None => outside::buffer_put_u32(out, KEY_NULL_SENTINEL),
            Some(k) => {
                let k: &[u8] = outside::bytes_slice(k);
                let key_field: u32 = #[verifier::truncate]
                (k.len() as u32);
                outside::buffer_put_u32(out, key_field);
                outside::buffer_put_slice(out, k);
                proof {
                    lemma_append_assoc(
                        head + (flag_part + timestamp_part),
                        wire::be32(key_field),
                        k@,
                    );
                }
            },
        }
        proof {
            lemma_append_assoc(head, flag_part + timestamp_part, key_part(self@.key));
        }
        let ghost keyed = flag_part + timestamp_part + key_part(self@.key);
        let val_field: u32 = #[verifier::truncate]
        (stored.len() as u32);
        outside::buffer_put_u32(out, val_field);
        outside::buffer_put_slice(out, stored);

        let ghost covered = payload(compression::flag_of(compression), self@, stored@);
        let all: &[u8] = outside::buffer_slice(out);
        proof {
            lemma_append_assoc(head, keyed, wire::be32(val_field));
            lemma_append_assoc(head, keyed + wire::be32(val_field), stored@);
            assert(all@ == head + covered);
            assert(all@.subrange(payload_start as int, all@.len() as int) =~= covered);
        }
        let crc: u32 = outside::crc32_hash(slice_subrange(all, payload_start, all.len()));
        outside::buffer_set(out, crc_pos, (crc / 0x100_0000) as u8);
        outside::buffer_set(out, crc_pos + 1, ((crc / 0x1_0000) % 0x100) as u8);
        outside::buffer_set(out, crc_pos + 2, ((crc / 0x100) % 0x100) as u8);
        outside::buffer_set(out, crc_pos + 3, (crc % 0x100) as u8);
        proof {
            wire::lemma_be32_bytes(crc);
            lemma_patch(before, wire::be32(total_field), covered, crc);
            let front = wire::be32(total_field) + wire::be32(crc);
            lemma_append_assoc(before, wire::be32(total_field), wire::be32(crc));
            lemma_append_assoc(before, front, covered);
        }

        outside::buffer_slice(out).len() - start_len
    }

    /// Reads a record off the front of `buf`, and moves `buf` past what was
    /// read.
    pub fn decode(buf: &mut &[u8]) -> (result: Result<Self, KafkoError>)
        ensures
            decoded(CodecSet::of_this_build(), old(buf)@, final(buf)@, result),
    {
        Self::decode_in(CodecSet::built_in(), buf)
    }

    /// As [`Record::decode`], in a build with these codecs.
    pub fn decode_in(codecs: CodecSet, buf: &mut &[u8]) -> (result: Result<Self, KafkoError>)
        ensures
            decoded(codecs, old(buf)@, final(buf)@, result),
    {
        let ghost b = buf@;
        if buf.len() < 4 {
            assert(b.skip(0) =~= b);
            return Err(KafkoError::Truncated { needed: 4 - buf.len() });
        }
        let total: u32 = outside::take_u32(buf);
        let total_len: usize = total as usize;
        if total_len < MIN_TOTAL_LEN {
            return Err(KafkoError::InvalidLength(total));
        }
        if buf.len() < total_len {
            return Err(KafkoError::Truncated { needed: total_len - buf.len() });
        }
        assert(buf@.take(4) =~= b.subrange(4, 8));
        let expected: u32 = outside::take_u32(buf);
        assert(buf@ =~= b.skip(8));
        let payload_len: usize = total_len - 4;
        assert(buf@.subrange(0, payload_len as int) =~= b.subrange(8, 4 + total));
        let actual: u32 = outside::crc32_hash(slice_subrange(*buf, 0, payload_len));
        if actual != expected {
            return Err(KafkoError::CrcMismatch { expected, actual });
        }
        let flag: u8 = outside::take_u8(buf);
        assert(buf@ =~= b.skip(9));
        let compression: Compression = match Compression::from_flag(flag) {
            Ok(c) => c,
            Err(e) => {
                return Err(e);
            },
        };
        assert(buf@.take(8) =~= b.subrange(9, 17));
        let timestamp_ms: i64 = outside::take_i64(buf);
        assert(buf@ =~= b.skip(17));
        assert(buf@.take(4) =~= b.subrange(17, 21));
        let key_len_raw: u32 = outside::take_u32(buf);
        assert(buf@ =~= b.skip(21));
        let ghost mut at: int = 21;
        let mut left: usize = payload_len - 13;
        let key: Option<Bytes> = if key_len_raw == KEY_NULL_SENTINEL {
            None
        } else {
            let key_len: usize = key_len_raw as usize;
            if left < key_len {
                return Err(KafkoError::InvalidLength(total));
            }
            assert(buf@.subrange(0, key_len as int) =~= b.subrange(21, 21 + key_len_raw));
            let bytes: Bytes = outside::bytes_copy(slice_subrange(*buf, 0, key_len));
            outside::advance(buf, key_len);
            left = left - key_len;
            proof {
                at = 21 + key_len_raw;
            }
            assert(buf@ =~= b.skip(at));
            Some(bytes)
        };
        if left < 4 {
            return Err(KafkoError::InvalidLength(total));
        }
        assert(buf@.take(4) =~= b.subrange(at, at + 4));
        let val_len_raw: u32 = outside::take_u32(buf);
        let val_len: usize = val_len_raw as usize;
        assert(buf@ =~= b.skip(at + 4));
        if left - 4 < val_len {
            return Err(KafkoError::InvalidLength(total));
        }
        assert(buf@.subrange(0, val_len as int) =~= b.subrange(at + 4, at + 4 + val_len_raw));
        let stored: &[u8] = slice_subrange(*buf, 0, val_len);
        let value: Bytes = match compression {
            Compression::Uncompressed => outside::bytes_copy(stored),
            Compression::Lz4 | Compression::Zstd => match compression.decompress_in(
                codecs,
                stored,
            ) {
                Ok(raw) => outside::bytes_from_vec(raw),
                Err(e) => {
                    return Err(e);
                },
            },
        };
        outside::advance(buf, val_len);
        assert(buf@ =~= b.skip(at + 4 + val_len_raw));
        Ok(Record { timestamp_ms, key, value })
    }
}

proof fn lemma_append_assoc(a: Seq<u8>, b: Seq<u8>, c: Seq<u8>)
    ensures
        (a + b) + c == a + (b + c),
{
    assert((a + b) + c =~= a + (b + c));
}

/// Overwriting the four zeros in front of `tail` puts the number there.
proof fn lemma_patch(a: Seq<u8>, b: Seq<u8>, tail: Seq<u8>, n: u32)
    requires
        b.len() == 4,
    ensures
        ({
            let at: int = a.len() as int + 4;
            let before = (a + b + wire::be32(0)) + tail;
            before.update(at, wire::be32(n)[0]).update(at + 1, wire::be32(n)[1]).update(
                at + 2,
                wire::be32(n)[2],
            ).update(at + 3, wire::be32(n)[3]) == (a + b + wire::be32(n)) + tail
        }),
{
    let at: int = a.len() as int + 4;
    let before = (a + b + wire::be32(0)) + tail;
    let after = before.update(at, wire::be32(n)[0]).update(at + 1, wire::be32(n)[1]).update(
        at + 2,
        wire::be32(n)[2],
    ).update(at + 3, wire::be32(n)[3]);
    assert(after =~= (a + b + wire::be32(n)) + tail);
}

/// The length of a frame and of its parts.
pub proof fn lemma_frame_len(codec: Compression, r: RecordView, stored: Seq<u8>)
    ensures
        payload(compression::flag_of(codec), r, stored).len() == 17 + key_size(r.key)
            + stored.len(),
        frame(codec, r, stored).len() == 25 + key_size(r.key) + stored.len(),
{
}

/// Where the parts of a frame stand in any bytes that start with it.
proof fn lemma_frame_layout(
    codec: Compression,
    r: RecordView,
    stored: Seq<u8>,
    rest: Seq<u8>,
)
    ensures
        ({
            let b = frame(codec, r, stored) + rest;
            let covered = payload(compression::flag_of(codec), r, stored);
            let at: int = 21 + key_size(r.key) as int;
            &&& b.take(4) == wire::be32((4 + covered.len()) as u32)
            &&& b.subrange(4, 8) == wire::be32(outside::crc32(covered))
            &&& b.subrange(8, 8 + covered.len() as int) == covered
            &&& b[8] == compression::flag_of(codec)
            &&& b.subrange(9, 17) == wire::be64(wire::i64_bits(r.timestamp_ms))
            &&& match r.key {
                None => b.subrange(17, 21) == wire::be32(KEY_NULL_SENTINEL),
                Some(k) => b.subrange(17, 21) == wire::be32(k.len() as u32) && b.subrange(
                    21,
                    21 + k.len() as int,
                ) == k,
            }
            &&& b.subrange(at, at + 4) == wire::be32(stored.len() as u32)
            &&& b.subrange(at + 4, at + 4 + stored.len() as int) == stored
        }),
{
    let b = frame(codec, r, stored) + rest;
    let covered = payload(compression::flag_of(codec), r, stored);
    let at: int = 21 + key_size(r.key) as int;
    lemma_frame_len(codec, r, stored);
    assert(b.take(4) =~= wire::be32((4 + covered.len()) as u32));
    assert(b.subrange(4, 8) =~= wire::be32(outside::crc32(covered)));
    assert(b.subrange(8, 8 + covered.len() as int) =~= covered);
    assert(covered[0] == compression::flag_of(codec));
    assert(b[8] == b.subrange(8, 8 + covered.len() as int)[0]);
    assert(covered.subrange(1, 9) =~= wire::be64(wire::i64_bits(r.timestamp_ms)));
    assert(b.subrange(9, 17) =~= covered.subrange(1, 9));
    assert(b.subrange(17, 21) =~= covered.subrange(9, 13));
    match r.key {
        None => {
            assert(covered.subrange(9, 13) =~= wire::be32(KEY_NULL_SENTINEL));
        },
        Some(k) => {
            assert(covered.subrange(9, 13) =~= wire::be32(k.len() as u32));
            assert(covered.subrange(13, 13 + k.len() as int) =~= k);
            assert(b.subrange(21, 21 + k.len() as int) =~= covered.subrange(
                13,
                13 + k.len() as int,
            ));
        },
    }
    assert(covered.subrange(at - 8, at - 4) =~= wire::be32(stored.len() as u32));
    assert(b.subrange(at, at + 4) =~= covered.subrange(at - 8, at - 4));
    assert(covered.subrange(at - 4, at - 4 + stored.len()) =~= stored);
    assert(b.subrange(at + 4, at + 4 + stored.len() as int) =~= covered.subrange(
        at - 4,
        at - 4 + stored.len(),
    ));
}

/// What was encoded decodes to the same record, whatever follows it, and
/// exactly the record's bytes are read.
///
/// A record whose length does not fit the length field is left out, and so is
/// a compressed value above the decompression limit.
pub proof fn law_decode_inverts_encode(
    codecs: CodecSet,
    codec: Compression,
    r: RecordView,
    bytes: Seq<u8>,
    rest: Seq<u8>,
)
    requires
        codecs.supports(codec),
        encodes(codec, r, bytes),
        readable(codec, r, bytes),
    ensures
        parse(codecs, bytes + rest) == (Parsed {
            outcome: Ok(r),
            consumed: bytes.len() as int,
        }),
{
    let stored = choose|stored: Seq<u8>|
        compression::stores(codec, r.value, stored) && bytes == #[trigger] frame(codec, r, stored);
    let b = bytes + rest;
    let covered = payload(compression::flag_of(codec), r, stored);
    lemma_frame_len(codec, r, stored);
    lemma_frame_layout(codec, r, stored, rest);
    wire::lemma_be32_round_trip((4 + covered.len()) as u32);
    wire::lemma_be32_round_trip(outside::crc32(covered));
    wire::lemma_be64_round_trip(wire::i64_bits(r.timestamp_ms));
    wire::lemma_i64_bits_round_trip(r.timestamp_ms);
    wire::lemma_be32_round_trip(KEY_NULL_SENTINEL);
    wire::lemma_be32_round_trip(key_size(r.key) as u32);
    wire::lemma_be32_round_trip(stored.len() as u32);
    compression::law_restore_inverts_store(codecs, codec, r.value, stored);
}

/// A record that is cut short is reported as truncated, never as anything
/// else.
pub proof fn law_cut_record_is_truncated(
    codecs: CodecSet,
    codec: Compression,
    r: RecordView,
    bytes: Seq<u8>,
    kept: int,
)
    requires
        encodes(codec, r, bytes),
        bytes.len() - 4 <= u32::MAX,
        0 <= kept < bytes.len(),
    ensures
        parse(codecs, bytes.take(kept)).outcome == Err::<RecordView, KafkoError>(
            KafkoError::Truncated {
                needed: (if kept < 4 {
                    4 - kept
                } else {
                    bytes.len() - kept
                }) as usize,
            },
        ),
{
    let stored = choose|stored: Seq<u8>|
        compression::stores(codec, r.value, stored) && bytes == #[trigger] frame(codec, r, stored);
    let covered = payload(compression::flag_of(codec), r, stored);
    lemma_frame_len(codec, r, stored);
    lemma_frame_layout(codec, r, stored, Seq::empty());
    assert(bytes + Seq::<u8>::empty() =~= bytes);
    wire::lemma_be32_round_trip((4 + covered.len()) as u32);
    if kept >= 4 {
        assert(bytes.take(kept).take(4) =~= bytes.take(4));
    }
}

/// A record with an empty key and a record without a key look different on
/// disk.
pub proof fn law_empty_key_is_not_null_key(
    codec: Compression,
    timestamp_ms: i64,
    value: Seq<u8>,
    a: Seq<u8>,
    b: Seq<u8>,
)
    requires
        encodes(codec, RecordView { timestamp_ms, key: Some(Seq::empty()), value }, a),
        encodes(codec, RecordView { timestamp_ms, key: None, value }, b),
    ensures
        a != b,
{
    let with_empty = RecordView { timestamp_ms, key: Some(Seq::<u8>::empty()), value };
    let with_null = RecordView { timestamp_ms, key: None, value };
    let stored_a = choose|stored: Seq<u8>|
        compression::stores(codec, value, stored) && a == #[trigger] frame(
            codec,
            with_empty,
            stored,
        );
    let stored_b = choose|stored: Seq<u8>|
        compression::stores(codec, value, stored) && b == #[trigger] frame(
            codec,
            with_null,
            stored,
        );
    lemma_frame_layout(codec, with_empty, stored_a, Seq::empty());
    lemma_frame_layout(codec, with_null, stored_b, Seq::empty());
    wire::lemma_be32_round_trip(0);
    wire::lemma_be32_round_trip(KEY_NULL_SENTINEL);
    assert(a + Seq::<u8>::empty() =~= a);
    assert(b + Seq::<u8>::empty() =~= b);
}

/// Reading never goes past the input. A record read off it takes at least the
/// bytes of an empty one, and no byte behind those that its checksum covers.
pub proof fn law_parse_within_input(codecs: CodecSet, b: Seq<u8>)
    ensures
        0 <= parse(codecs, b).consumed <= b.len(),
        parse(codecs, b).outcome is Ok ==> 25 <= parse(codecs, b).consumed <= 4
            + wire::from_be32(b.take(4)) <= b.len(),
{
}

/// Whatever follows some bytes changes nothing about what is read off them,
/// be it a record or an error, unless a record is cut short.
pub proof fn law_parse_ignores_what_follows(codecs: CodecSet, b: Seq<u8>, rest: Seq<u8>)
    requires
        !(parse(codecs, b).outcome matches Err(e) && e is Truncated),
    ensures
        parse(codecs, b + rest) == parse(codecs, b),
{
    let longer = b + rest;
    let total = wire::from_be32(b.take(4));
    assert(longer.take(4) =~= b.take(4));
    if total >= MIN_TOTAL_LEN {
        assert(longer.subrange(4, 8) =~= b.subrange(4, 8));
        assert(longer.subrange(8, 4 + total) =~= b.subrange(8, 4 + total));
        assert(longer.subrange(9, 17) =~= b.subrange(9, 17));
        assert(longer.subrange(17, 21) =~= b.subrange(17, 21));
        let key_len = wire::from_be32(b.subrange(17, 21));
        let at = if key_len == KEY_NULL_SENTINEL {
            21
        } else {
            21 + key_len
        };
        if at <= 4 + total {
            assert(longer.subrange(21, at) =~= b.subrange(21, at));
        }
        if at + 4 <= 4 + total {
            assert(longer.subrange(at, at + 4) =~= b.subrange(at, at + 4));
            let val_len = wire::from_be32(b.subrange(at, at + 4));
            if at + 4 + val_len <= 4 + total {
                assert(longer.subrange(at + 4, at + 4 + val_len) =~= b.subrange(
                    at + 4,
                    at + 4 + val_len,
                ));
            }
        }
    }
}

/// A record's size is the number of bytes that it is encoded to without
/// compression.
pub proof fn law_wire_size_is_encoded_size(r: RecordView, before: Seq<u8>)
    ensures
        wire_len(r) == 25 + key_size(r.key) + r.value.len(),
        frame(Compression::Uncompressed, r, r.value).len() == wire_len(r),
        (before + frame(Compression::Uncompressed, r, r.value)).len() == before.len() + wire_len(
            r,
        ),
{
    lemma_frame_len(Compression::Uncompressed, r, r.value);
}

/// Every byte of an encoded record is accounted for: the length, the checksum
/// of all that follows it, the codec's flag, the timestamp, the key's length and
/// the key, the value's length and the value.
pub proof fn law_record_layout(codec: Compression, r: RecordView, stored: Seq<u8>)
    requires
        frame(codec, r, stored).len() - 4 <= u32::MAX,
    ensures
        ({
            let b = frame(codec, r, stored);
            let k: int = match r.key {
                None => 0,
                Some(key) => key.len() as int,
            };
            &&& b.len() == 25 + k + stored.len()
            &&& wire::from_be32(b.subrange(0, 4)) == b.len() - 4
            &&& wire::from_be32(b.subrange(4, 8)) == outside::crc32(b.skip(8))
            &&& b[8] == (match codec {
                Compression::Uncompressed => 0u8,
                Compression::Lz4 => 1u8,
                Compression::Zstd => 2u8,
            })
            &&& wire::i64_of_bits(wire::from_be64(b.subrange(9, 17))) == r.timestamp_ms
            &&& wire::from_be32(b.subrange(17, 21)) == (if r.key is None {
                0xffff_ffff
            } else {
                k
            })
            &&& r.key matches Some(key) ==> b.subrange(21, 21 + k) == key
            &&& wire::from_be32(b.subrange(21 + k, 25 + k)) == stored.len()
            &&& b.skip(25 + k) == stored
        }),
{
    let b = frame(codec, r, stored);
    let covered = payload(compression::flag_of(codec), r, stored);
    let k: int = key_size(r.key) as int;
    lemma_frame_len(codec, r, stored);
    lemma_frame_layout(codec, r, stored, Seq::empty());
    assert(b + Seq::<u8>::empty() =~= b);
    assert(b.subrange(0, 4) =~= b.take(4));
    assert(b.skip(8) =~= covered);
    assert(b.skip(25 + k) =~= b.subrange(25 + k, 25 + k + stored.len() as int));
    wire::lemma_be32_round_trip((4 + covered.len()) as u32);
    wire::lemma_be32_round_trip(outside::crc32(covered));
    wire::lemma_be64_round_trip(wire::i64_bits(r.timestamp_ms));
    wire::lemma_i64_bits_round_trip(r.timestamp_ms);
    wire::lemma_be32_round_trip(KEY_NULL_SENTINEL);
    wire::lemma_be32_round_trip(k as u32);
    wire::lemma_be32_round_trip(stored.len() as u32);
}

/// What an encoded record holds for its value is a stored form of the value.
pub proof fn law_encoded_record_holds_its_value(
    codec: Compression,
    r: RecordView,
    bytes: Seq<u8>,
) -> (stored: Seq<u8>)
    requires
        encodes(codec, r, bytes),
    ensures
        bytes == frame(codec, r, stored),
        compression::stores(codec, r.value, stored),
        codec == Compression::Uncompressed ==> stored == r.value,
{
    choose|stored: Seq<u8>|
        compression::stores(codec, r.value, stored) && bytes == #[trigger] frame(codec, r, stored)
}

/// A record's size, by its parts.
pub proof fn law_size_by_parts(timestamp_ms: i64, key: Seq<u8>, value: Seq<u8>)
    ensures
        wire_len(RecordView { timestamp_ms, key: None, value }) == 25 + value.len(),
        wire_len(RecordView { timestamp_ms, key: Some(key), value }) == 25 + key.len()
            + value.len(),
{
}

/// Encoding appends one record behind what is there, and decoding that record
/// gives it back, whatever its length, its codec and what follows it. Only a
/// record whose length does not fit its length field is left out, and a
/// compressed value above 16 MiB.
pub proof fn law_decode_gives_back_what_was_encoded(
    codecs: CodecSet,
    codec: Compression,
    r: RecordView,
    before: Seq<u8>,
    after: Seq<u8>,
    size: Result<usize, KafkoError>,
    rest: Seq<u8>,
    left: Seq<u8>,
    result: Result<Record, KafkoError>,
)
    requires
        codec == Compression::Lz4 ==> codecs.lz4,
        codec == Compression::Zstd ==> codecs.zstd,
        encoded(codecs, codec, r, before, after, size),
        after.len() - before.len() - 4 <= u32::MAX,
        codec == Compression::Uncompressed || r.value.len() <= 16 * 1024 * 1024,
        decoded(codecs, after.skip(before.len() as int) + rest, left, result),
    ensures
        size matches Ok(n) && after.len() == before.len() + n,
        after.take(before.len() as int) == before,
        result matches Ok(d) && d@ == r,
        left == rest,
{
    let bytes = after.skip(before.len() as int);
    law_decode_inverts_encode(codecs, codec, r, bytes, rest);
    assert((bytes + rest).skip(bytes.len() as int) =~= rest);
}

/// A codec that is not part of the build encodes nothing and says so.
pub proof fn law_missing_codec_encodes_nothing(
    codecs: CodecSet,
    codec: Compression,
    r: RecordView,
    before: Seq<u8>,
    after: Seq<u8>,
    size: Result<usize, KafkoError>,
)
    requires
        codec == Compression::Lz4 && !codecs.lz4 || codec == Compression::Zstd && !codecs.zstd,
        encoded(codecs, codec, r, before, after, size),
    ensures
        after == before,
        size == Err::<usize, KafkoError>(KafkoError::CompressionUnavailable(codec)),
{
}

/// A record is decoded only if its checksum is that of every byte it covers, of
/// however many; and whatever is in a complete record whose checksum is not, it
/// is reported as that and nothing else.
pub proof fn law_checksum_guards_every_byte(
    codecs: CodecSet,
    b: Seq<u8>,
    left: Seq<u8>,
    result: Result<Record, KafkoError>,
)
    requires
        decoded(codecs, b, left, result),
        b.len() >= 4,
        b.len() >= 4 + wire::from_be32(b.subrange(0, 4)),
        wire::from_be32(b.subrange(0, 4)) >= 21,
    ensures
        ({
            let end = 4 + wire::from_be32(b.subrange(0, 4));
            let expected = wire::from_be32(b.subrange(4, 8));
            let actual = outside::crc32(b.subrange(8, end));
            &&& result is Ok ==> actual == expected
            &&& actual != expected ==> result == Err::<Record, KafkoError>(
                KafkoError::CrcMismatch { expected, actual },
            )
            &&& actual == expected ==> !(result matches Err(e) && e is CrcMismatch)
        }),
{
    assert(b.subrange(0, 4) =~= b.take(4));
}

/// Input that ends before the record does is reported as truncated, with the
/// number of bytes that are missing, and no other input is; a length that
/// cannot be one is reported as that.
pub proof fn law_short_input_is_truncated(
    codecs: CodecSet,
    b: Seq<u8>,
    left: Seq<u8>,
    result: Result<Record, KafkoError>,
)
    requires
        decoded(codecs, b, left, result),
        b.len() <= usize::MAX,
    ensures
        b.len() < 4 ==> (result matches Err(e) && e == KafkoError::Truncated {
            needed: (4 - b.len()) as usize,
        }),
        b.len() >= 4 ==> ({
            let total = wire::from_be32(b.subrange(0, 4));
            &&& total < 21 ==> result == Err::<Record, KafkoError>(
                KafkoError::InvalidLength(total),
            )
            &&& total >= 21 && b.len() < 4 + total ==> (result matches Err(e) && e
                == KafkoError::Truncated { needed: (4 + total - b.len()) as usize })
            &&& total >= 21 && b.len() >= 4 + total ==> !(result matches Err(e) && e is Truncated)
        }),
{
    if b.len() >= 4 {
        assert(b.subrange(0, 4) =~= b.take(4));
    }
}

/// Whatever decodes is what the bytes say: each part of the record stands at
/// its place, within the bytes that the checksum covers, and exactly those
/// bytes are read.
pub proof fn law_decoded_record_is_what_the_bytes_say(
    codecs: CodecSet,
    b: Seq<u8>,
    left: Seq<u8>,
    record: Record,
)
    requires
        decoded(codecs, b, left, Ok(record)),
    ensures
        ({
            let end = 4 + wire::from_be32(b.subrange(0, 4));
            let key_len = wire::from_be32(b.subrange(17, 21));
            let at: int = if key_len == 0xffff_ffff {
                21
            } else {
                21 + key_len
            };
            let val_len = wire::from_be32(b.subrange(at, at + 4));
            let stored = b.subrange(at + 4, at + 4 + val_len);
            &&& 25 <= at + 4 <= at + 4 + val_len <= end <= b.len()
            &&& b[8] <= 2
            &&& record@.timestamp_ms == wire::i64_of_bits(wire::from_be64(b.subrange(9, 17)))
            &&& record@.key == (if key_len == 0xffff_ffff {
                None
            } else {
                Some(b.subrange(21, at))
            })
            &&& b[8] == 0 ==> record@.value == stored
            &&& b[8] == 1 ==> codecs.lz4 && outside::lz4_decompressed(stored) == Some(
                record@.value,
            )
            &&& b[8] == 2 ==> codecs.zstd && outside::zstd_decompressed(
                stored,
                16 * 1024 * 1024,
            ) == Some(record@.value)
            &&& left == b.skip(at + 4 + val_len)
        }),
{
    assert(b.subrange(0, 4) =~= b.take(4));
}

/// Whatever is a record decodes: a complete one with the right checksum, whose
/// flag, key and value can be what they say. Where one of those is wrong, that
/// is reported.
pub proof fn law_complete_record_decodes(
    codecs: CodecSet,
    b: Seq<u8>,
    left: Seq<u8>,
    result: Result<Record, KafkoError>,
)
    requires
        decoded(codecs, b, left, result),
        b.len() >= 4,
        wire::from_be32(b.subrange(0, 4)) >= 21,
        b.len() >= 4 + wire::from_be32(b.subrange(0, 4)),
        outside::crc32(b.subrange(8, 4 + wire::from_be32(b.subrange(0, 4)))) == wire::from_be32(
            b.subrange(4, 8),
        ),
    ensures
        ({
            let total = wire::from_be32(b.subrange(0, 4));
            let end = 4 + total;
            let key_len = wire::from_be32(b.subrange(17, 21));
            let at: int = if key_len == 0xffff_ffff {
                21
            } else {
                21 + key_len
            };
            let val_len = wire::from_be32(b.subrange(at, at + 4));
            let stored = b.subrange(at + 4, at + 4 + val_len);
            if b[8] > 2 {
                result == Err::<Record, KafkoError>(KafkoError::UnknownCompression(b[8]))
            } else if at + 4 > end || at + 4 + val_len > end {
                result == Err::<Record, KafkoError>(KafkoError::InvalidLength(total))
            } else if b[8] == 0 {
                result is Ok
            } else if b[8] == 1 && !codecs.lz4 {
                result == Err::<Record, KafkoError>(
                    KafkoError::CompressionUnavailable(Compression::Lz4),
                )
            } else if b[8] == 2 && !codecs.zstd {
                result == Err::<Record, KafkoError>(
                    KafkoError::CompressionUnavailable(Compression::Zstd),
                )
            } else {
                &&& result matches Err(e) ==> e == KafkoError::DecompressionFailed
                &&& b[8] == 2 ==> (result is Ok <==> outside::zstd_decompressed(
                    stored,
                    16 * 1024 * 1024,
                ) is Some)
                &&& b[8] == 1 ==> (result is Ok <==> stored.len() >= 4 && wire::from_le32(
                    stored.subrange(0, 4),
                ) <= 16 * 1024 * 1024 && outside::lz4_decompressed(stored) is Some)
            }
        }),
{
    let total = wire::from_be32(b.subrange(0, 4));
    let key_len = wire::from_be32(b.subrange(17, 21));
    let at: int = if key_len == 0xffff_ffff {
        21
    } else {
        21 + key_len
    };
    let val_len = wire::from_be32(b.subrange(at, at + 4));
    let stored = b.subrange(at + 4, at + 4 + val_len);
    assert(b.subrange(0, 4) =~= b.take(4));
    if stored.len() >= 4 {
        assert(stored.subrange(0, 4) =~= stored.take(4));
    }
}

/// A record can be encoded wherever its bytes, behind those already there, can
/// be allocated; a value to be compressed has to fit its codec.
pub proof fn law_records_that_can_be_encoded(r: RecordView, used: nat)
    ensures
        used + wire_len(r) <= isize::MAX ==> encodable(Compression::Uncompressed, r, used),
        r.value.len() <= 16 * 1024 * 1024 && used + wire_len(r) + r.value.len() + 64
            <= isize::MAX ==> encodable(Compression::Lz4, r, used) && encodable(
            Compression::Zstd,
            r,
            used,
        ),
{
}

/// Which encoded records can be read back: those whose length fits the length
/// field, and if they are compressed, whose value is no longer than 16 MiB.
pub proof fn law_records_that_can_be_read_back(codec: Compression, r: RecordView, bytes: Seq<u8>)
    ensures
        readable(codec, r, bytes) <==> bytes.len() <= 0x1_0000_0003 && (codec
            == Compression::Uncompressed || r.value.len() <= 16 * 1024 * 1024),
{
}

/// A record's key is the bytes it was made with, of however many; only a record
/// made without a key has none.
pub proof fn law_key_is_kept(key: Bytes)
    ensures
        key_view(Some(key)) == Some(outside::bytes_view(key)),
        key_view(None) is None,
{
}

/// What is left of the input where a record is refused: what stands behind the
/// last part that was read. The parts are read in order, and the first that is
/// wrong is the last.
pub proof fn law_refused_record_is_read_up_to_the_fault(
    codecs: CodecSet,
    b: Seq<u8>,
    left: Seq<u8>,
    error: KafkoError,
)
    requires
        decoded(codecs, b, left, Err(error)),
    ensures
        b.len() < 4 ==> left == b,
        b.len() >= 4 ==> ({
            let total = wire::from_be32(b.subrange(0, 4));
            let end = 4 + total;
            let key_len = wire::from_be32(b.subrange(17, 21));
            let at: int = if key_len == 0xffff_ffff {
                21
            } else {
                21 + key_len
            };
            if total < 21 || b.len() < end {
                left == b.skip(4)
            } else if error is CrcMismatch {
                left == b.skip(8)
            } else if error is UnknownCompression {
                left == b.skip(9)
            } else if at > end {
                left == b.skip(21)
            } else if at + 4 > end {
                left == b.skip(at)
            } else {
                left == b.skip(at + 4)
            }
        }),
{
    if b.len() >= 4 {
        assert(b.subrange(0, 4) =~= b.take(4));
    } else {
        assert(b.skip(0) =~= b);
    }
}

} // verus!
