//! The codecs a record's value can be stored with.
use vstd::prelude::*;
use vstd::string::StringExecFns;

use crate::error::KafkoError;
use crate::outside;
use crate::text;
use crate::wire;

verus! {

broadcast use wire::group_lengths;

/// The zstd compression level.
pub const ZSTD_LEVEL: i32 = 3;

/// The most bytes that one value may decompress to.
///
/// The size in front of an LZ4 block is held to this before anything is
/// allocated for it.
pub const DECOMPRESS_MAX_SIZE: usize = 16 * 1024 * 1024;

/// Whether this build holds the LZ4 codec.
pub const LZ4_ENABLED: bool = true;

/// Whether this build holds the zstd codec.
pub const ZSTD_ENABLED: bool = true;

/// How a record's value is stored.
#[derive(Clone, Copy, Debug, PartialEq, Eq, Structural)]
pub enum Compression {
    /// As it is. Always available.
    Uncompressed,
    /// As an LZ4 block behind its decompressed size.
    Lz4,
    /// As a zstd frame.
    Zstd,
}

impl Default for Compression {
    fn default() -> (codec: Self)
        ensures
            codec == Compression::Uncompressed,
    {
        Compression::Uncompressed
    }
}

/// A set of optional codecs: those that a build was made with.
#[derive(Clone, Copy, Debug, PartialEq, Eq, Structural)]
pub struct CodecSet {
    /// Whether LZ4 is in the set.
    pub lz4: bool,
    /// Whether zstd is in the set.
    pub zstd: bool,
}

impl CodecSet {
    /// The codecs of this build.
    pub open spec fn of_this_build() -> Self {
        CodecSet { lz4: LZ4_ENABLED, zstd: ZSTD_ENABLED }
    }

    /// Whether values of this codec can be written and read.
    pub open spec fn supports(self, codec: Compression) -> bool {
        match codec {
            Compression::Uncompressed => true,
            Compression::Lz4 => self.lz4,
            Compression::Zstd => self.zstd,
        }
    }

    /// The codecs of this build.
    pub fn built_in() -> (codecs: Self)
        ensures
            codecs == Self::of_this_build(),
    {
        CodecSet { lz4: LZ4_ENABLED, zstd: ZSTD_ENABLED }
    }
}

/// The byte that stands for a codec in a record.
pub open spec fn flag_of(codec: Compression) -> u8 {
    match codec {
        Compression::Uncompressed => 0,
        Compression::Lz4 => 1,
        Compression::Zstd => 2,
    }
}

/// The codec that a byte stands for, if it stands for one.
pub open spec fn codec_of(flag: u8) -> Option<Compression> {
    if flag == 0 {
        Some(Compression::Uncompressed)
    } else if flag == 1 {
        Some(Compression::Lz4)
    } else if flag == 2 {
        Some(Compression::Zstd)
    } else {
        None
    }
}

/// Whether a value of this length can be handed to a codec: the codecs size
/// their output buffers from it.
pub open spec fn codec_input_fits(len: nat) -> bool {
    110 * len <= u64::MAX && 2 * len + 64 <= isize::MAX
}

/// Whether `stored` is a stored form of `raw`.
///
/// A codec may choose among many forms; what makes one a form of `raw` is
/// that the codec reads `raw` back from it.
pub open spec fn stores(codec: Compression, raw: Seq<u8>, stored: Seq<u8>) -> bool {
    match codec {
        Compression::Uncompressed => stored == raw,
        Compression::Lz4 => {
            &&& stored.len() >= 4
            &&& stored.take(4) == wire::le32(raw.len() as u32)
            &&& raw.len() <= u32::MAX ==> outside::lz4_decompressed(stored) == Some(raw)
        },
        Compression::Zstd => {
            &&& outside::zstd_makes(raw, ZSTD_LEVEL, stored)
            &&& forall|limit: nat|
                raw.len() <= limit ==> #[trigger] outside::zstd_decompressed(stored, limit)
                    == Some(raw)
        },
    }
}

/// What reading a stored value gives: its bytes, or the error.
pub open spec fn restored(codecs: CodecSet, codec: Compression, stored: Seq<u8>) -> Result<
    Seq<u8>,
    KafkoError,
> {
    if !codecs.supports(codec) {
        Err(KafkoError::CompressionUnavailable(codec))
    } else {
        match codec {
            Compression::Uncompressed => Ok(stored),
            Compression::Lz4 => if stored.len() < 4 || wire::from_le32(stored.take(4))
                > DECOMPRESS_MAX_SIZE {
                Err(KafkoError::DecompressionFailed)
            } else {
                match outside::lz4_decompressed(stored) {
                    Some(raw) => Ok(raw),
                    None => Err(KafkoError::DecompressionFailed),
                }
            },
            Compression::Zstd => match outside::zstd_decompressed(
                stored,
                DECOMPRESS_MAX_SIZE as nat,
            ) {
                Some(raw) => Ok(raw),
                None => Err(KafkoError::DecompressionFailed),
            },
        }
    }
}

/// Flags and codecs correspond one to one.
pub proof fn law_flag_round_trip(codec: Compression, flag: u8)
    ensures
        codec_of(flag_of(codec)) == Some(codec),
        codec_of(flag) == Some(codec) ==> flag == flag_of(codec),
{
}

/// Whatever a codec stores, the codec restores, for every value that does not
/// exceed the decompression limit; and uncompressed values of any size.
pub proof fn law_restore_inverts_store(
    codecs: CodecSet,
    codec: Compression,
    raw: Seq<u8>,
    stored: Seq<u8>,
)
    requires
        codecs.supports(codec),
        stores(codec, raw, stored),
        codec == Compression::Uncompressed || raw.len() <= DECOMPRESS_MAX_SIZE,
    ensures
        restored(codecs, codec, stored) == Ok::<Seq<u8>, KafkoError>(raw),
{
    if codec == Compression::Lz4 {
        wire::lemma_le32_round_trip(raw.len() as u32);
    }
}

impl Compression {
    /// The byte that stands for this codec in a record.
    pub fn flag(self) -> (flag: u8)
        ensures
            flag == flag_of(self),
    {
        match self {
            Compression::Uncompressed => 0,
            Compression::Lz4 => 1,
            Compression::Zstd => 2,
        }
    }

    /// The codec that a byte stands for.
    pub fn from_flag(flag: u8) -> (codec: Result<Self, KafkoError>)
        ensures
            codec == match codec_of(flag) {
                Some(c) => Ok::<Compression, KafkoError>(c),
                None => Err(KafkoError::UnknownCompression(flag)),
            },
    {
        match flag {
            0 => Ok(Compression::Uncompressed),
            1 => Ok(Compression::Lz4),
            2 => Ok(Compression::Zstd),
            other => Err(KafkoError::UnknownCompression(other)),
        }
    }

    /// Whether this build can write and read values of this codec.
    pub fn is_available(self) -> (available: bool)
        ensures
            available == CodecSet::of_this_build().supports(self),
    {
        self.is_available_in(CodecSet::built_in())
    }

    /// Whether a build with these codecs can write and read values of this
    /// codec.
    pub fn is_available_in(self, codecs: CodecSet) -> (available: bool)
        ensures
            available == codecs.supports(self),
    {
        match self {
            Compression::Uncompressed => true,
            Compression::Lz4 => codecs.lz4,
            Compression::Zstd => codecs.zstd,
        }
    }

    /// Replaces the contents of `out` by a stored form of `raw`.
    pub fn compress(self, raw: &[u8], out: &mut Vec<u8>) -> (result: Result<(), KafkoError>)
        requires
            self == Compression::Uncompressed || codec_input_fits(raw@.len()),
        ensures
            compressed(CodecSet::of_this_build(), self, raw@, result, final(out)@),
    {
        self.compress_in(CodecSet::built_in(), raw, out)
    }

    /// As [`Compression::compress`], in a build with these codecs.
    pub fn compress_in(self, codecs: CodecSet, raw: &[u8], out: &mut Vec<u8>) -> (result: Result<
        (),
        KafkoError,
    >)
        requires
            self == Compression::Uncompressed || codec_input_fits(raw@.len()),
        ensures
            compressed(codecs, self, raw@, result, final(out)@),
    {
        out.clear();
        if !self.is_available_in(codecs) {
            return Err(KafkoError::CompressionUnavailable(self));
        }
        match self {
            Compression::Uncompressed => {
                out.extend_from_slice(raw);
                assert(out@ =~= raw@);
                Ok(())
            },
            Compression::Lz4 => {
                lz4_compress(raw, out);
                Ok(())
            },
            Compression::Zstd => {
                zstd_compress(raw, out);
                Ok(())
            },
        }
    }

    /// The bytes that a stored value stands for.
    pub fn decompress(self, stored: &[u8]) -> (raw: Result<Vec<u8>, KafkoError>)
        ensures
            decompressed(CodecSet::of_this_build(), self, stored@, raw),
    {
        self.decompress_in(CodecSet::built_in(), stored)
    }

    /// As [`Compression::decompress`], in a build with these codecs.
    pub fn decompress_in(self, codecs: CodecSet, stored: &[u8]) -> (raw: Result<
        Vec<u8>,
        KafkoError,
    >)
        ensures
            decompressed(codecs, self, stored@, raw),
    {
        if !self.is_available_in(codecs) {
            return Err(KafkoError::CompressionUnavailable(self));
        }
        match self {
            Compression::Uncompressed => {
                let raw: Vec<u8> = vstd::slice::slice_to_vec(stored);
                Ok(raw)
            },
            Compression::Lz4 => lz4_decompress(stored),
            Compression::Zstd => zstd_decompress(stored),
        }
    }
}

/// The codec of a name, as a producer of requests gives it.
pub open spec fn codec_of_name(name: Seq<char>) -> Option<Compression> {
    if name == "none"@ {
        Some(Compression::Uncompressed)
    } else if name == "lz4"@ {
        Some(Compression::Lz4)
    } else if name == "zstd"@ {
        Some(Compression::Zstd)
    } else {
        None
    }
}

/// The codec of a name, or what to answer to one that is none.
pub fn parse_codec_name(name: &str) -> (codec: Result<Compression, String>)
    ensures
        match codec {
            Ok(c) => codec_of_name(name@) == Some(c),
            Err(answer) => codec_of_name(name@) is None && answer@ == "unknown codec: '"@ + name@
                + "'. Expected 'none', 'lz4', or 'zstd'"@,
        },
{
    proof {
        reveal_strlit("none");
        reveal_strlit("lz4");
        reveal_strlit("zstd");
        assert("none"@.len() == 4 && "lz4"@.len() == 3 && "zstd"@.len() == 4);
        assert("none"@[0] != "zstd"@[0]);
    }
    if text::same_text(name, "none") {
        Ok(Compression::Uncompressed)
    } else if text::same_text(name, "lz4") {
        Ok(Compression::Lz4)
    } else if text::same_text(name, "zstd") {
        Ok(Compression::Zstd)
    } else {
        let mut answer: String = String::new();
        answer.append("unknown codec: '");
        answer.append(name);
        answer.append("'. Expected 'none', 'lz4', or 'zstd'");
        assert(answer@ =~= "unknown codec: '"@ + name@
            + "'. Expected 'none', 'lz4', or 'zstd'"@);
        Err(answer)
    }
}

/// What a call of [`Compression::compress_in`] leaves behind: a stored form of
/// `raw`, not much longer than `raw`; or, where the codec is not part of the
/// build, no bytes and the error.
pub open spec fn compressed(
    codecs: CodecSet,
    codec: Compression,
    raw: Seq<u8>,
    result: Result<(), KafkoError>,
    out: Seq<u8>,
) -> bool {
    if codecs.supports(codec) {
        &&& result == Ok::<(), KafkoError>(())
        &&& stores(codec, raw, out)
        &&& out.len() <= 2 * raw.len() + 64
    } else {
        &&& result == Err::<(), KafkoError>(KafkoError::CompressionUnavailable(codec))
        &&& out == Seq::<u8>::empty()
    }
}

/// What a call of [`Compression::decompress_in`] returns: what the codec
/// restores, and from a compressed value never more than the limit.
pub open spec fn decompressed(
    codecs: CodecSet,
    codec: Compression,
    stored: Seq<u8>,
    raw: Result<Vec<u8>, KafkoError>,
) -> bool {
    match raw {
        Ok(v) => {
            &&& restored(codecs, codec, stored) == Ok::<Seq<u8>, KafkoError>(v@)
            &&& codec == Compression::Uncompressed || v@.len() <= DECOMPRESS_MAX_SIZE
        },
        Err(e) => restored(codecs, codec, stored) == Err::<Seq<u8>, KafkoError>(e),
    }
}

fn lz4_compress(raw: &[u8], out: &mut Vec<u8>)
    requires
        codec_input_fits(raw@.len()),
        old(out)@ == Seq::<u8>::empty(),
    ensures
        stores(Compression::Lz4, raw@, final(out)@),
        final(out)@.len() <= 2 * raw@.len() + 64,
{
    let size: u32 = #[verifier::truncate]
    (raw.len() as u32);
    wire::push_le32(out, size);
    let mut block: Vec<u8> = outside::lz4_compress_block(raw);
    out.append(&mut block);
    assert(out@.take(4) =~= wire::le32(size));
    assert(out@ =~= wire::le32(size) + out@.skip(4));
}

fn zstd_compress(raw: &[u8], out: &mut Vec<u8>)
    requires
        codec_input_fits(raw@.len()),
        old(out)@ == Seq::<u8>::empty(),
    ensures
        stores(Compression::Zstd, raw@, final(out)@),
        final(out)@.len() <= 2 * raw@.len() + 64,
{
    let mut frame: Vec<u8> = outside::zstd_bulk_compress(raw, ZSTD_LEVEL);
    let ghost compressed_frame = frame@;
    out.append(&mut frame);
    assert(out@ =~= compressed_frame);
}

fn lz4_decompress(stored: &[u8]) -> (raw: Result<Vec<u8>, KafkoError>)
    ensures
        decompressed(CodecSet { lz4: true, zstd: true }, Compression::Lz4, stored@, raw),
{
    if stored.len() < 4 {
        return Err(KafkoError::DecompressionFailed);
    }
    let claimed_size: u32 = wire::read_le32(stored, 0);
    assert(stored@.subrange(0, 4) =~= stored@.take(4));
    if claimed_size as usize > DECOMPRESS_MAX_SIZE {
        return Err(KafkoError::DecompressionFailed);
    }
    match outside::lz4_decompress_size_prepended(stored) {
        Some(raw) => Ok(raw),
        None => Err(KafkoError::DecompressionFailed),
    }
}

fn zstd_decompress(stored: &[u8]) -> (raw: Result<Vec<u8>, KafkoError>)
    ensures
        decompressed(CodecSet { lz4: true, zstd: true }, Compression::Zstd, stored@, raw),
{
    match outside::zstd_bulk_decompress(stored, DECOMPRESS_MAX_SIZE) {
        Some(raw) => Ok(raw),
        None => Err(KafkoError::DecompressionFailed),
    }
}

/// The codecs have the flags 0, 1 and 2, and no other byte is a flag.
pub proof fn law_flags(flag: u8)
    ensures
        flag_of(Compression::Uncompressed) == 0,
        flag_of(Compression::Lz4) == 1,
        flag_of(Compression::Zstd) == 2,
        codec_of(flag) is None <==> flag > 2,
        codec_of(flag) matches Some(codec) ==> flag_of(codec) == flag,
{
}

/// This build holds every codec, and values as they are need none.
pub proof fn law_codecs_of_this_build(codecs: CodecSet, codec: Compression)
    ensures
        CodecSet::of_this_build().supports(codec),
        codecs.supports(codec) <==> (codec == Compression::Uncompressed || (codec
            == Compression::Lz4 && codecs.lz4) || (codec == Compression::Zstd && codecs.zstd)),
{
}

/// A value that was compressed is decompressed to itself, with every codec of
/// the build and for every value of up to 16 MiB; as it is, for any value. What
/// is stored of it is not much longer.
pub proof fn law_decompress_inverts_compress(
    codecs: CodecSet,
    codec: Compression,
    raw: Seq<u8>,
    done: Result<(), KafkoError>,
    out: Seq<u8>,
    back: Result<Vec<u8>, KafkoError>,
)
    requires
        codec == Compression::Lz4 ==> codecs.lz4,
        codec == Compression::Zstd ==> codecs.zstd,
        codec == Compression::Uncompressed || raw.len() <= 16 * 1024 * 1024,
        compressed(codecs, codec, raw, done, out),
        decompressed(codecs, codec, out, back),
    ensures
        done is Ok,
        back matches Ok(v) && v@ == raw,
        codec == Compression::Uncompressed ==> out == raw,
        out.len() <= 2 * raw.len() + 64,
{
    law_restore_inverts_store(codecs, codec, raw, out);
}

/// A codec that is not part of the build neither compresses nor decompresses,
/// and says so.
pub proof fn law_missing_codec_is_reported(
    codecs: CodecSet,
    codec: Compression,
    raw: Seq<u8>,
    done: Result<(), KafkoError>,
    out: Seq<u8>,
    stored: Seq<u8>,
    back: Result<Vec<u8>, KafkoError>,
)
    requires
        codec == Compression::Lz4 && !codecs.lz4 || codec == Compression::Zstd && !codecs.zstd,
        compressed(codecs, codec, raw, done, out),
        decompressed(codecs, codec, stored, back),
    ensures
        done == Err::<(), KafkoError>(KafkoError::CompressionUnavailable(codec)),
        out.len() == 0,
        back == Err::<Vec<u8>, KafkoError>(KafkoError::CompressionUnavailable(codec)),
{
}

/// An LZ4 value starts with its size, little-endian, and one that claims more
/// than 16 MiB, or is too short to claim anything, is refused. Of any other,
/// what comes out is what LZ4 makes of it.
pub proof fn law_lz4_values(
    codecs: CodecSet,
    raw: Seq<u8>,
    out: Seq<u8>,
    stored: Seq<u8>,
    back: Result<Vec<u8>, KafkoError>,
)
    requires
        codecs.lz4,
        compressed(codecs, Compression::Lz4, raw, Ok(()), out),
        decompressed(codecs, Compression::Lz4, stored, back),
    ensures
        out.len() >= 4,
        raw.len() <= u32::MAX ==> out[0] + 0x100 * out[1] + 0x1_0000 * out[2] + 0x100_0000 * out[3]
            == raw.len(),
        stored.len() < 4 ==> back == Err::<Vec<u8>, KafkoError>(KafkoError::DecompressionFailed),
        stored.len() >= 4 ==> ({
            let claimed = stored[0] + 0x100 * stored[1] + 0x1_0000 * stored[2] + 0x100_0000
                * stored[3];
            if claimed > 16 * 1024 * 1024 {
                back == Err::<Vec<u8>, KafkoError>(KafkoError::DecompressionFailed)
            } else {
                match outside::lz4_decompressed(stored) {
                    Some(raw) => back matches Ok(v) && v@ == raw,
                    None => back == Err::<Vec<u8>, KafkoError>(KafkoError::DecompressionFailed),
                }
            }
        }),
        back matches Ok(v) ==> v@.len() <= 16 * 1024 * 1024,
{
    let front = out.take(4);
    wire::law_little_endian_32(raw.len() as u32);
    assert(front[0] == out[0] && front[1] == out[1] && front[2] == out[2] && front[3] == out[3]);
    if stored.len() >= 4 {
        wire::law_value_of_four_bytes(stored.take(4));
    }
}

/// A zstd value is a frame of level 3, and what comes out of one is what zstd
/// makes of it under a limit of 16 MiB.
pub proof fn law_zstd_values(
    codecs: CodecSet,
    raw: Seq<u8>,
    out: Seq<u8>,
    stored: Seq<u8>,
    back: Result<Vec<u8>, KafkoError>,
)
    requires
        codecs.zstd,
        compressed(codecs, Compression::Zstd, raw, Ok(()), out),
        decompressed(codecs, Compression::Zstd, stored, back),
    ensures
        outside::zstd_makes(raw, 3, out),
        match outside::zstd_decompressed(stored, 16 * 1024 * 1024) {
            Some(raw) => back matches Ok(v) && v@ == raw,
            None => back == Err::<Vec<u8>, KafkoError>(KafkoError::DecompressionFailed),
        },
        back matches Ok(v) ==> v@.len() <= 16 * 1024 * 1024,
{
}

/// Every value of up to 16 MiB can be handed to a codec, and so can longer ones
/// as far as the codecs' buffers can be counted and allocated.
pub proof fn law_values_that_fit_a_codec(len: nat)
    ensures
        len <= 16 * 1024 * 1024 ==> codec_input_fits(len),
        110 * len <= u64::MAX && 2 * len + 64 <= isize::MAX ==> codec_input_fits(len),
{
}

/// The codecs are named `none`, `lz4` and `zstd`, in lower case, and nothing
/// else is a name of one.
pub proof fn law_codec_names(name: Seq<char>)
    ensures
        codec_of_name(name) == Some(Compression::Uncompressed) <==> name =~= seq![
            'n',
            'o',
            'n',
            'e',
        ],
        codec_of_name(name) == Some(Compression::Lz4) <==> name =~= seq!['l', 'z', '4'],
        codec_of_name(name) == Some(Compression::Zstd) <==> name =~= seq!['z', 's', 't', 'd'],
{
    reveal_strlit("none");
    reveal_strlit("lz4");
    reveal_strlit("zstd");
    assert("none"@ =~= seq!['n', 'o', 'n', 'e']);
    assert("lz4"@ =~= seq!['l', 'z', '4']);
    assert("zstd"@ =~= seq!['z', 's', 't', 'd']);
    assert("none"@[0] != "zstd"@[0]);
    assert("none"@.len() != "lz4"@.len());
}

} // verus!
