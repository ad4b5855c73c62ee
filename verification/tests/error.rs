use kafko::{Compression, IoError, KafkoError};
use std::io;

fn io_error(kind: io::ErrorKind, message: &str) -> KafkoError {
    KafkoError::Io(IoError { kind, message: message.to_string() })
}

#[test]
fn clone_io_preserves_kind_and_message() {
    let original = io_error(io::ErrorKind::PermissionDenied, "denied");
    match original.clone() {
        KafkoError::Io(e) => {
            assert_eq!(e.kind, io::ErrorKind::PermissionDenied);
            assert_eq!(e.message, "denied");
        }
        other => panic!("expected Io after clone, got {other:?}"),
    }
}

#[test]
fn clone_round_trips_every_variant() {
    let cases = [
        io_error(io::ErrorKind::Other, "io"),
        KafkoError::Truncated { needed: 7 },
        KafkoError::CrcMismatch { expected: 0xdead_beef, actual: 0x0bad_f00d },
        KafkoError::InvalidLength(3),
        KafkoError::Closed,
        KafkoError::TopicAlreadyExists("orders".into()),
        KafkoError::TopicNotFound("orders".into()),
        KafkoError::TopicInUse("orders".into()),
        KafkoError::UnknownCompression(9),
        KafkoError::DecompressionFailed,
        KafkoError::CompressionUnavailable(Compression::Uncompressed),
        KafkoError::AlreadyOpen { path: "data".into() },
        KafkoError::PartitionPanicked { payload: "boom".into() },
        KafkoError::InvalidPartitionCount(0),
        KafkoError::InvalidGroupName("bad/name".into()),
        KafkoError::InvalidTopicLayout {
            topic: "orders".into(),
            detail: "no partition subdirectories".into(),
        },
    ];

    for original in &cases {
        let cloned = original.clone();
        assert_eq!(format!("{original:?}"), format!("{cloned:?}"));
        assert_eq!(original.message(), cloned.message());
    }
}

#[test]
fn every_error_describes_itself() {
    let cases = [
        (io_error(io::ErrorKind::Other, "disk on fire"), "io: disk on fire"),
        (
            KafkoError::Truncated { needed: 7 },
            "record decode: input truncated (need 7 more bytes)",
        ),
        (
            KafkoError::CrcMismatch { expected: 0xdead_beef, actual: 0x0bad_f00d },
            "record decode: CRC mismatch (expected 0xdeadbeef, got 0xbadf00d)",
        ),
        (
            KafkoError::InvalidLength(4_294_967_295),
            "record decode: invalid length field (4294967295)",
        ),
        (KafkoError::Closed, "partition closed"),
        (
            KafkoError::TopicAlreadyExists("orders".into()),
            "topic 'orders' already exists",
        ),
        (KafkoError::TopicNotFound("orders".into()), "topic 'orders' not found"),
        (
            KafkoError::TopicInUse("orders".into()),
            "topic 'orders' in use; drop all producers and consumers before deleting",
        ),
        (KafkoError::UnknownCompression(200), "unknown compression flag: 200"),
        (KafkoError::DecompressionFailed, "decompression failed"),
        (
            KafkoError::CompressionUnavailable(Compression::Zstd),
            "compression codec Zstd is not enabled in this build; rebuild kafko with the matching `compression-*` feature",
        ),
        (
            KafkoError::AlreadyOpen { path: "data".into() },
            "data directory data is already opened by another Kafko instance (file lock held)",
        ),
        (
            KafkoError::PartitionPanicked { payload: "boom".into() },
            "partition writer task panicked: boom",
        ),
        (
            KafkoError::InvalidPartitionCount(0),
            "invalid partition count 0: a topic needs at least 1 partition",
        ),
        (
            KafkoError::InvalidGroupName("a\"b".into()),
            "invalid consumer group name \"a\\\"b\": use non-empty [A-Za-z0-9._-]",
        ),
        (
            KafkoError::InvalidTopicLayout { topic: "orders".into(), detail: "odd".into() },
            "topic 'orders' has an invalid on-disk layout: odd",
        ),
    ];
    for (error, message) in &cases {
        assert_eq!(&error.message(), message);
    }
}

#[test]
fn a_path_is_kept_as_it_is() {
    let path = std::path::PathBuf::from("some dir/data");
    let e = KafkoError::AlreadyOpen { path: path.clone() };
    assert_eq!(
        e.message(),
        "data directory some dir/data is already opened by another Kafko instance (file lock held)"
    );
    match e.clone() {
        KafkoError::AlreadyOpen { path: cloned } => assert_eq!(cloned, path),
        other => panic!("expected AlreadyOpen after clone, got {other:?}"),
    }
}

#[test]
fn zero_is_written_with_one_digit() {
    let e = KafkoError::CrcMismatch { expected: 0, actual: 16 };
    assert_eq!(
        e.message(),
        "record decode: CRC mismatch (expected 0x0, got 0x10)"
    );
}
