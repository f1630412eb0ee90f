use integrity_checker::codec::{find_separator, open, seal, Envelope, SEP};
use integrity_checker::database::{DatabaseChecksum, Features, HashSum};
use integrity_checker::error::Error;
use integrity_checker::metrics::compute_metrics;
use std::io::{Read, Write};

const NONE: Features = Features { sha2: false, blake2b: false };
const SHA2: Features = Features { sha2: true, blake2b: false };
const BLAKE2B: Features = Features { sha2: false, blake2b: true };
const ALL: Features = Features { sha2: true, blake2b: true };

const BODY: &[u8] = b"{\"Directory\":{\"a.txt\":{\"File\":{\"size\":3,\"nul\":false,\"nonascii\":false}}}}";
const HEADER: &[u8] = b"{\"size\":71}";

fn gzip(bytes: &[u8]) -> Vec<u8> {
    let mut encoder = flate2::write::GzEncoder::new(Vec::new(), flate2::Compression::fast());
    encoder.write_all(bytes).unwrap();
    encoder.finish().unwrap()
}

#[test]
fn the_separator_is_a_line_feed() {
    assert_eq!(SEP, b'\n');
}

#[test]
fn the_first_separator_is_found() {
    assert_eq!(find_separator(b"abc\ndef\nghi"), Some(3));
    assert_eq!(find_separator(b"\n"), Some(0));
    assert_eq!(find_separator(b"abc\n"), Some(3));
    assert_eq!(find_separator(b"abc"), None);
    assert_eq!(find_separator(b""), None);
}

#[test]
fn a_frame_is_header_line_feed_and_content() {
    assert_eq!(Envelope::frame(b"head", b"body"), b"head\nbody".to_vec());
    assert_eq!(Envelope::frame(b"", b""), b"\n".to_vec());
    assert_eq!(Envelope::frame(b"h", b"a\nb\n"), b"h\na\nb\n".to_vec());
}

#[test]
fn a_frame_is_parted_at_its_first_line_feed() {
    let envelope = Envelope::parse(b"head\nbody\nmore").unwrap();
    assert_eq!(envelope.header(), b"head");
    assert_eq!(
        envelope.verified_body(&DatabaseChecksum::compute(b"body\nmore", ALL)).unwrap(),
        b"body\nmore"
    );
    let envelope = Envelope::parse(b"\n").unwrap();
    assert_eq!(envelope.header(), b"");
    assert_eq!(envelope.verified_body(&DatabaseChecksum::compute(b"", NONE)).unwrap(), b"");
    assert!(matches!(Envelope::parse(b"no line feed"), Err(Error::ParseError)));
    assert!(matches!(Envelope::parse(b""), Err(Error::ParseError)));
    assert_eq!(Envelope::parse(&Envelope::frame(HEADER, BODY)).unwrap().header(), HEADER);
}

#[test]
fn a_sealed_stream_opens_to_what_went_in() {
    let stream = seal(HEADER, BODY).unwrap();
    assert_ne!(stream, [HEADER, b"\n", BODY].concat());
    assert_eq!(&stream[..2], &[0x1f, 0x8b]);
    let envelope = open(&stream).unwrap();
    assert_eq!(envelope.header(), HEADER);
    let (none, all) = (DatabaseChecksum::compute(BODY, NONE), DatabaseChecksum::compute(BODY, ALL));
    assert_eq!(envelope.verified_body(&none).unwrap(), BODY);
    assert_eq!(envelope.verified_body(&all).unwrap(), BODY);
}

#[test]
fn a_sealed_stream_is_the_gzip_of_the_frame() {
    for features in [NONE, SHA2, BLAKE2B, ALL] {
        let checksum = DatabaseChecksum::compute(BODY, features);
        let header = format!("{{\"size\":{}}}", checksum.size);
        let stream = seal(header.as_bytes(), BODY).unwrap();
        let mut bytes = Vec::new();
        flate2::read::GzDecoder::new(&stream[..]).read_to_end(&mut bytes).unwrap();
        let index = bytes.iter().position(|&x| x == SEP).unwrap();
        assert_eq!(&bytes[..index], header.as_bytes());
        assert_eq!(&bytes[index + 1..], BODY);
        assert_eq!(bytes, Envelope::frame(header.as_bytes(), BODY));
    }
}

#[test]
fn line_feeds_in_the_body_do_not_move_the_split() {
    let body: &[u8] = b"line one\nline two\n\nline four";
    let envelope = open(&seal(b"header", body).unwrap()).unwrap();
    assert_eq!(envelope.header(), b"header");
    assert_eq!(envelope.verified_body(&DatabaseChecksum::compute(body, SHA2)).unwrap(), body);

    let envelope = open(&seal(b"", b"").unwrap()).unwrap();
    assert_eq!(envelope.header(), b"");
    assert_eq!(envelope.verified_body(&DatabaseChecksum::compute(b"", ALL)).unwrap(), b"");
}

#[test]
fn a_stream_without_separator_does_not_parse() {
    assert!(matches!(open(&gzip(b"no line feed in here")), Err(Error::ParseError)));
    assert!(matches!(open(&gzip(b"")), Err(Error::ParseError)));
}

#[test]
fn a_stream_that_is_not_gzip_fails_to_read() {
    assert!(matches!(open(b"certainly not gzip"), Err(Error::Io(_))));
    assert!(matches!(open(b""), Err(Error::Io(_))));
    let mut stream = seal(HEADER, BODY).unwrap();
    stream.truncate(stream.len() / 2);
    assert!(matches!(open(&stream), Err(Error::Io(_))));
}

#[test]
fn other_gzip_streams_open_as_well() {
    let envelope = open(&gzip(b"head\nbody")).unwrap();
    assert_eq!(envelope.header(), b"head");
    assert_eq!(envelope.verified_body(&DatabaseChecksum::compute(b"body", NONE)).unwrap(), b"body");
    assert_eq!(envelope, open(&seal(b"head", b"body").unwrap()).unwrap());
}

#[test]
fn the_checksum_is_made_of_the_metrics_of_the_body() {
    for features in [NONE, SHA2, BLAKE2B, ALL] {
        let metrics = compute_metrics(BODY, features);
        let checksum = DatabaseChecksum::compute(BODY, features);
        assert_eq!(checksum.size, BODY.len() as u64);
        assert_eq!(checksum.sha2, metrics.sha2);
        assert_eq!(checksum.blake2b, metrics.blake2b);
        assert_eq!(checksum.sha2.is_some(), features.sha2);
        assert_eq!(checksum.blake2b.is_some(), features.blake2b);
        assert_eq!(Features::infer_from_database_checksum(&checksum), features);
        assert_eq!(DatabaseChecksum::from(compute_metrics(BODY, features)), checksum);
        assert_eq!(checksum.clone(), checksum);
    }
}

#[test]
fn content_passes_its_own_checksum_under_every_feature_set() {
    for features in [NONE, SHA2, BLAKE2B, ALL] {
        let checksum = DatabaseChecksum::compute(BODY, features);
        let stream = seal(HEADER, BODY).unwrap();
        let envelope = open(&stream).unwrap();
        assert_eq!(envelope.header(), HEADER);
        assert!(matches!(checksum.verify(BODY), Ok(())));
        assert!(matches!(envelope.verified_body(&checksum), Ok(BODY)));
    }
}

#[test]
fn a_flipped_byte_in_the_body_is_detected() {
    for features in [SHA2, BLAKE2B, ALL] {
        let checksum = DatabaseChecksum::compute(BODY, features);
        for at in [0, 1, BODY.len() / 2, BODY.len() - 1] {
            for mask in [0x01u8, 0x80, 0xff] {
                let mut tampered = BODY.to_vec();
                tampered[at] ^= mask;
                let envelope = open(&seal(HEADER, &tampered).unwrap()).unwrap();
                assert_eq!(envelope.header(), HEADER);
                assert!(matches!(checksum.verify(&tampered), Err(Error::ChecksumMismatch)));
                assert!(matches!(
                    envelope.verified_body(&checksum),
                    Err(Error::ChecksumMismatch)
                ));
            }
        }
    }
}

#[test]
fn a_change_of_size_is_detected_even_without_digests() {
    let checksum = DatabaseChecksum::compute(BODY, NONE);
    let mut longer = BODY.to_vec();
    longer.push(b' ');
    assert!(matches!(checksum.verify(&longer), Err(Error::ChecksumMismatch)));
    assert!(matches!(checksum.verify(&BODY[1..]), Err(Error::ChecksumMismatch)));
    assert!(matches!(checksum.verify(b""), Err(Error::ChecksumMismatch)));
}

#[test]
fn a_checksum_without_digests_accepts_any_body_of_its_size() {
    let checksum = DatabaseChecksum::compute(BODY, NONE);
    let mut tampered = BODY.to_vec();
    tampered[5] ^= 0x20;
    assert!(matches!(checksum.verify(&tampered), Ok(())));
}

#[test]
fn only_the_digests_of_the_header_are_checked() {
    let good = DatabaseChecksum::compute(BODY, ALL);
    let wrong_sha2 = DatabaseChecksum {
        sha2: Some(HashSum(vec![0; 32])),
        blake2b: good.blake2b.clone(),
        size: good.size,
    };
    assert!(matches!(wrong_sha2.verify(BODY), Err(Error::ChecksumMismatch)));
    let wrong_blake2b = DatabaseChecksum {
        sha2: good.sha2.clone(),
        blake2b: Some(HashSum(vec![0; 32])),
        size: good.size,
    };
    assert!(matches!(wrong_blake2b.verify(BODY), Err(Error::ChecksumMismatch)));
    let sha2_only = DatabaseChecksum { sha2: good.sha2.clone(), blake2b: None, size: good.size };
    assert!(matches!(sha2_only.verify(BODY), Ok(())));
}

#[test]
fn checksums_contradict_in_size_or_in_a_shared_digest() {
    let base = DatabaseChecksum {
        sha2: Some(HashSum(vec![1, 2])),
        blake2b: Some(HashSum(vec![3, 4])),
        size: 10,
    };
    assert!(!base.diff(&base.clone()));
    assert!(base.diff(&DatabaseChecksum { size: 11, ..base.clone() }));
    assert!(base.diff(&DatabaseChecksum { sha2: Some(HashSum(vec![1, 3])), ..base.clone() }));
    assert!(base.diff(&DatabaseChecksum { blake2b: Some(HashSum(vec![3])), ..base.clone() }));
    assert!(!base.diff(&DatabaseChecksum { sha2: None, ..base.clone() }));
    assert!(!base.diff(&DatabaseChecksum { sha2: None, blake2b: None, size: 10 }));
    assert!(!DatabaseChecksum { sha2: None, blake2b: None, size: 10 }.diff(&base));
    assert!(DatabaseChecksum { sha2: None, blake2b: None, size: 9 }.diff(&base));
}
