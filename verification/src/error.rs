//! The errors the library reports.
use vstd::prelude::*;

use vstd::string::StringExecFns;

use crate::compression::Compression;
use crate::outside;
use crate::text;

verus! {

/// `std::io::ErrorKind`, carried through unread.
#[verifier::external_type_specification]
#[verifier::external_body]
pub struct ExErrorKind(std::io::ErrorKind);

/// `std::path::PathBuf`, a path as the system has it.
#[verifier::external_type_specification]
#[verifier::external_body]
pub struct ExPathBuf(std::path::PathBuf);

/// An I/O failure: its kind and its message.
#[derive(Debug)]
pub struct IoError {
    /// What sort of failure it was.
    pub kind: std::io::ErrorKind,
    /// How the failure describes itself.
    pub message: String,
}

impl Clone for IoError {
    fn clone(&self) -> (copy: Self)
        ensures
            copy == *self,
    {
        IoError { kind: self.kind, message: self.message.clone() }
    }
}

/// Everything that can go wrong.
#[derive(Debug)]
pub enum KafkoError {
    /// A segment, index or offset file could not be read or written.
    Io(IoError),
    /// The input ends before the record does.
    Truncated {
        /// How many more bytes are needed.
        needed: usize,
    },
    /// A record's checksum does not match its contents.
    CrcMismatch {
        /// The checksum in the record's header.
        expected: u32,
        /// The checksum of the record's contents.
        actual: u32,
    },
    /// A record's length field cannot be right.
    InvalidLength(u32),
    /// The partition's writer has stopped.
    Closed,
    /// There is a topic of this name already.
    TopicAlreadyExists(String),
    /// There is no topic of this name.
    TopicNotFound(String),
    /// The topic still has producers or consumers.
    TopicInUse(String),
    /// A record names a codec that does not exist.
    UnknownCompression(u8),
    /// A record's value does not decompress.
    DecompressionFailed,
    /// The codec is not part of this build.
    CompressionUnavailable(Compression),
    /// Another broker holds the data directory.
    AlreadyOpen {
        /// The data directory.
        path: std::path::PathBuf,
    },
    /// The partition's writer panicked.
    PartitionPanicked {
        /// The panic's message.
        payload: String,
    },
    /// A topic cannot have this many partitions, or has no such partition.
    InvalidPartitionCount(u32),
    /// A consumer group cannot have this name.
    InvalidGroupName(String),
    /// A topic's directory does not hold partitions as it should.
    InvalidTopicLayout {
        /// The topic.
        topic: String,
        /// What is wrong with its directory.
        detail: String,
    },
}

impl Clone for KafkoError {
    /// A clone is indistinguishable from the error it was made of; of an I/O
    /// failure it keeps the kind and the message.
    fn clone(&self) -> (copy: Self)
        ensures
            copy == *self,
    {
        match self {
            KafkoError::Io(e) => KafkoError::Io(e.clone()),
            KafkoError::Truncated { needed } => KafkoError::Truncated { needed: *needed },
            KafkoError::CrcMismatch { expected, actual } => KafkoError::CrcMismatch {
                expected: *expected,
                actual: *actual,
            },
            KafkoError::InvalidLength(n) => KafkoError::InvalidLength(*n),
            KafkoError::Closed => KafkoError::Closed,
            KafkoError::TopicAlreadyExists(s) => KafkoError::TopicAlreadyExists(s.clone()),
            KafkoError::TopicNotFound(s) => KafkoError::TopicNotFound(s.clone()),
            KafkoError::TopicInUse(s) => KafkoError::TopicInUse(s.clone()),
            KafkoError::UnknownCompression(b) => KafkoError::UnknownCompression(*b),
            KafkoError::DecompressionFailed => KafkoError::DecompressionFailed,
            KafkoError::CompressionUnavailable(c) => KafkoError::CompressionUnavailable(*c),
            KafkoError::AlreadyOpen { path } => KafkoError::AlreadyOpen {
                path: outside::path_clone(path),
            },
            KafkoError::PartitionPanicked { payload } => KafkoError::PartitionPanicked {
                payload: payload.clone(),
            },
            KafkoError::InvalidPartitionCount(n) => KafkoError::InvalidPartitionCount(*n),
            KafkoError::InvalidGroupName(s) => KafkoError::InvalidGroupName(s.clone()),
            KafkoError::InvalidTopicLayout { topic, detail } => KafkoError::InvalidTopicLayout {
                topic: topic.clone(),
                detail: detail.clone(),
            },
        }
    }
}

/// The name of a codec in an error's message.
pub open spec fn codec_name(codec: Compression) -> Seq<char> {
    match codec {
        Compression::Uncompressed => "None"@,
        Compression::Lz4 => "Lz4"@,
        Compression::Zstd => "Zstd"@,
    }
}

/// How an error describes itself.
pub open spec fn message_of(e: KafkoError) -> Seq<char> {
    match e {
        KafkoError::Io(io) => "io: "@ + io.message@,
        KafkoError::Truncated { needed } => "record decode: input truncated (need "@
            + text::decimal(needed as nat) + " more bytes)"@,
        KafkoError::CrcMismatch { expected, actual } => "record decode: CRC mismatch (expected 0x"@
            + text::hexadecimal(expected as nat) + ", got 0x"@ + text::hexadecimal(actual as nat)
            + ")"@,
        KafkoError::InvalidLength(n) => "record decode: invalid length field ("@ + text::decimal(
            n as nat,
        ) + ")"@,
        KafkoError::Closed => "partition closed"@,
        KafkoError::TopicAlreadyExists(name) => "topic '"@ + name@ + "' already exists"@,
        KafkoError::TopicNotFound(name) => "topic '"@ + name@ + "' not found"@,
        KafkoError::TopicInUse(name) => "topic '"@ + name@
            + "' in use; drop all producers and consumers before deleting"@,
        KafkoError::UnknownCompression(flag) => "unknown compression flag: "@ + text::decimal(
            flag as nat,
        ),
        KafkoError::DecompressionFailed => "decompression failed"@,
        KafkoError::CompressionUnavailable(codec) => "compression codec "@ + codec_name(codec)
            + " is not enabled in this build; rebuild kafko with the matching `compression-*` feature"@,
        KafkoError::AlreadyOpen { path } => "data directory "@ + outside::path_text(
            path,
        )
            + " is already opened by another Kafko instance (file lock held)"@,
        KafkoError::PartitionPanicked { payload } => "partition writer task panicked: "@
            + payload@,
        KafkoError::InvalidPartitionCount(n) => "invalid partition count "@ + text::decimal(
            n as nat,
        ) + ": a topic needs at least 1 partition"@,
        KafkoError::InvalidGroupName(name) => "invalid consumer group name "@ + outside::quoted(
            name@,
        ) + ": use non-empty [A-Za-z0-9._-]"@,
        KafkoError::InvalidTopicLayout { topic, detail } => "topic '"@ + topic@
            + "' has an invalid on-disk layout: "@ + detail@,
    }
}

impl KafkoError {
    /// How the error describes itself.
    pub fn message(&self) -> (message: String)
        ensures
            message@ == message_of(*self),
    {
        let mut m: String = String::new();
        match self {
            KafkoError::Io(io) => {
                m.append("io: ");
                m.append(io.message.as_str());
            },
            KafkoError::Truncated { needed } => {
                m.append("record decode: input truncated (need ");
                text::append_decimal(&mut m, *needed as u64);
                m.append(" more bytes)");
            },
            KafkoError::CrcMismatch { expected, actual } => {
                m.append("record decode: CRC mismatch (expected 0x");
                text::append_hexadecimal(&mut m, *expected as u64);
                m.append(", got 0x");
                text::append_hexadecimal(&mut m, *actual as u64);
                m.append(")");
            },
            KafkoError::InvalidLength(n) => {
                m.append("record decode: invalid length field (");
                text::append_decimal(&mut m, *n as u64);
                m.append(")");
            },
            KafkoError::Closed => {
                m.append("partition closed");
            },
            KafkoError::TopicAlreadyExists(name) => {
                m.append("topic '");
                m.append(name.as_str());
                m.append("' already exists");
            },
            KafkoError::TopicNotFound(name) => {
                m.append("topic '");
                m.append(name.as_str());
                m.append("' not found");
            },
            KafkoError::TopicInUse(name) => {
                m.append("topic '");
                m.append(name.as_str());
                m.append("' in use; drop all producers and consumers before deleting");
            },
            KafkoError::UnknownCompression(flag) => {
                m.append("unknown compression flag: ");
                text::append_decimal(&mut m, *flag as u64);
            },
            KafkoError::DecompressionFailed => {
                m.append("decompression failed");
            },
            KafkoError::CompressionUnavailable(codec) => {
                m.append("compression codec ");
                match codec {
                    Compression::Uncompressed => m.append("None"),
                    Compression::Lz4 => m.append("Lz4"),
                    Compression::Zstd => m.append("Zstd"),
                }
                m.append(
                    " is not enabled in this build; rebuild kafko with the matching `compression-*` feature",
                );
            },
            KafkoError::AlreadyOpen { path } => {
                m.append("data directory ");
                let shown: String = outside::path_show(path);
                m.append(shown.as_str());
                m.append(" is already opened by another Kafko instance (file lock held)");
            },
            KafkoError::PartitionPanicked { payload } => {
                m.append("partition writer task panicked: ");
                m.append(payload.as_str());
            },
            KafkoError::InvalidPartitionCount(n) => {
                m.append("invalid partition count ");
                text::append_decimal(&mut m, *n as u64);
                m.append(": a topic needs at least 1 partition");
            },
            KafkoError::InvalidGroupName(name) => {
                m.append("invalid consumer group name ");
                let quoted: String = outside::quote(name.as_str());
                m.append(quoted.as_str());
                m.append(": use non-empty [A-Za-z0-9._-]");
            },
            KafkoError::InvalidTopicLayout { topic, detail } => {
                m.append("topic '");
                m.append(topic.as_str());
                m.append("' has an invalid on-disk layout: ");
                m.append(detail.as_str());
            },
        }
        assert(m@ =~= message_of(*self));
        m
    }
}

/// What a message says of the thing it is about: the name, of whatever length,
/// stands in it unchanged.
pub proof fn law_messages_name_their_subject(name: String, detail: String)
    ensures
        message_of(KafkoError::TopicAlreadyExists(name)) == "topic '"@ + name@
            + "' already exists"@,
        message_of(KafkoError::TopicNotFound(name)) == "topic '"@ + name@ + "' not found"@,
        message_of(KafkoError::TopicInUse(name)) == "topic '"@ + name@
            + "' in use; drop all producers and consumers before deleting"@,
        message_of(KafkoError::InvalidGroupName(name)) == "invalid consumer group name "@
            + outside::quoted(name@) + ": use non-empty [A-Za-z0-9._-]"@,
        message_of(KafkoError::PartitionPanicked { payload: name })
            == "partition writer task panicked: "@ + name@,
        message_of(KafkoError::InvalidTopicLayout { topic: name, detail }) == "topic '"@ + name@
            + "' has an invalid on-disk layout: "@ + detail@,
{
}

/// What a message says of the numbers it is about: all digits of them.
pub proof fn law_messages_spell_out_their_numbers(a: u32, b: u32, needed: usize, flag: u8)
    ensures
        message_of(KafkoError::Truncated { needed }) == "record decode: input truncated (need "@
            + text::decimal(needed as nat) + " more bytes)"@,
        message_of(KafkoError::CrcMismatch { expected: a, actual: b })
            == "record decode: CRC mismatch (expected 0x"@ + text::hexadecimal(a as nat)
            + ", got 0x"@ + text::hexadecimal(b as nat) + ")"@,
        message_of(KafkoError::InvalidLength(a)) == "record decode: invalid length field ("@
            + text::decimal(a as nat) + ")"@,
        message_of(KafkoError::UnknownCompression(flag)) == "unknown compression flag: "@
            + text::decimal(flag as nat),
        message_of(KafkoError::InvalidPartitionCount(a)) == "invalid partition count "@
            + text::decimal(a as nat) + ": a topic needs at least 1 partition"@,
{
}

/// What a message says of a failure elsewhere: what that says of itself.
pub proof fn law_messages_pass_on_what_failed(
    io: IoError,
    path: std::path::PathBuf,
    codec: Compression,
)
    ensures
        message_of(KafkoError::Io(io)) == "io: "@ + io.message@,
        message_of(KafkoError::AlreadyOpen { path }) == "data directory "@ + outside::path_text(
            path,
        ) + " is already opened by another Kafko instance (file lock held)"@,
        message_of(KafkoError::CompressionUnavailable(codec)) == "compression codec "@ + (
        match codec {
            Compression::Uncompressed => "None"@,
            Compression::Lz4 => "Lz4"@,
            Compression::Zstd => "Zstd"@,
        })
            + " is not enabled in this build; rebuild kafko with the matching `compression-*` feature"@,
        message_of(KafkoError::Closed) == "partition closed"@,
        message_of(KafkoError::DecompressionFailed) == "decompression failed"@,
{
}

} // verus!
