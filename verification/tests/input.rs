use ben_process::error::{Error, IoErrorKind};
use ben_process::input::{
    read_up_to, resolve, resolve_bundle, sniff, BenSource, BundleHeader, InputKind, ReadOutcome,
    WireFormat, SNIFF_BYTES,
};

fn sniff_bytes(bytes: &[u8]) -> Result<InputKind, Error> {
    let head = &bytes[..bytes.len().min(SNIFF_BYTES)];
    sniff("plans.ben", head)
}

fn is_invalid_data(err: &Error) -> bool {
    matches!(
        err,
        Error::Io {
            kind: IoErrorKind::InvalidData,
            ..
        }
    )
}

#[test]
fn sniff_detects_bendl_magic() {
    assert_eq!(
        sniff_bytes(b"BENDL\0\0\x01 trailing").unwrap(),
        InputKind::Bundle
    );
}

#[test]
fn sniff_detects_each_ben_banner() {
    assert_eq!(
        sniff_bytes(b"STANDARD BEN FILE").unwrap(),
        InputKind::PlainBen
    );
    assert_eq!(
        sniff_bytes(b"MKVCHAIN BEN FILE").unwrap(),
        InputKind::PlainBen
    );
    assert_eq!(
        sniff_bytes(b"TWODELTA BEN FILE").unwrap(),
        InputKind::PlainBen
    );
}

#[test]
fn sniff_detects_xz_magic() {
    assert_eq!(
        sniff_bytes(&[0xFD, 0x37, 0x7A, 0x58, 0x5A, 0x00]).unwrap(),
        InputKind::Xben
    );
}

#[test]
fn sniff_rejects_unknown_leading_bytes() {
    let err = sniff_bytes(b"not a real ensemble file").unwrap_err();
    assert!(is_invalid_data(&err));
}

#[test]
fn sniff_rejects_empty_file() {
    let err = sniff_bytes(b"").unwrap_err();
    assert!(is_invalid_data(&err));
}

#[test]
fn banner_cut_short_is_unknown() {
    assert!(sniff_bytes(b"STANDARD BEN FIL").is_err());
    assert!(sniff_bytes(b"BENDL\0\0").is_err());
    assert!(sniff_bytes(&[0xFD, 0x37, 0x7A, 0x58, 0x5A]).is_err());
}

#[test]
fn head_is_read_until_it_is_full_or_the_file_ends() {
    assert_eq!(read_up_to(0, 17, ReadOutcome::Read(5)), (5, true));
    assert_eq!(read_up_to(5, 17, ReadOutcome::Interrupted), (5, true));
    assert_eq!(read_up_to(5, 17, ReadOutcome::Read(12)), (17, false));
    assert_eq!(read_up_to(5, 17, ReadOutcome::Read(0)), (5, false));
}

#[test]
fn unknown_bytes_are_shown() {
    assert_eq!(
        sniff("my \"plans\"", &[0x00, 0xAB, 0x7F]).unwrap_err().message(),
        format!(
            "{:?} is not a recognized input: leading bytes {:02X?} match no known BEN / XBEN / .bendl magic",
            "my \"plans\"",
            [0x00u8, 0xAB, 0x7F]
        )
    );
}

fn header() -> BundleHeader {
    BundleHeader {
        offset: 40,
        len: 60,
        format: Some(WireFormat::XBen),
        sample_count: Some(12),
    }
}

#[test]
fn bundle_stream_is_a_range_of_the_file() {
    let source = resolve_bundle("p.bendl", 100, header()).unwrap();
    assert!(matches!(source, BenSource::Bundle { .. }));
    assert_eq!(source.path(), "p.bendl");
    assert_eq!(source.range(), Some((40, 60)));
    assert_eq!(source.wire(), WireFormat::XBen);
    assert_eq!(source.count_samples(), Some(12));
}

#[test]
fn bundle_headers_that_make_no_sense_are_errors() {
    let message = |file_len: u64, header: BundleHeader| {
        resolve_bundle("p.bendl", file_len, header)
            .unwrap_err()
            .message()
    };
    assert_eq!(
        message(99, header()),
        "bundle assignment stream range [40, 100) exceeds file length 99"
    );
    assert_eq!(
        message(
            99,
            BundleHeader {
                offset: u64::MAX,
                len: 1,
                ..header()
            }
        ),
        "bundle stream range [18446744073709551615, +1) overflows"
    );
    assert_eq!(
        message(
            100,
            BundleHeader {
                format: None,
                ..header()
            }
        ),
        "bundle has no recognized assignment-stream format"
    );
    assert_eq!(
        message(
            100,
            BundleHeader {
                sample_count: Some(-3),
                ..header()
            }
        ),
        "bundle sample_count -3 is negative or out of range"
    );
}

#[test]
fn streams_resolve_without_looking_inside() {
    let plain = resolve("a.ben", InputKind::PlainBen).unwrap();
    assert_eq!(plain.source.path(), "a.ben");
    assert_eq!(plain.source.wire(), WireFormat::Ben);
    assert_eq!(plain.source.range(), None);
    assert_eq!(plain.source.count_samples(), None);
    assert!(plain.embedded_graph.is_none());
    let xz = resolve("a.xben", InputKind::Xben).unwrap();
    assert_eq!(xz.source.wire(), WireFormat::XBen);
    assert!(resolve("a.bendl", InputKind::Bundle).is_none());
}
