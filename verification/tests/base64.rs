use integrity_checker::base64::{deserialize, serialize};

#[test]
fn bytes_are_written_in_the_standard_alphabet_with_padding() {
    assert_eq!(serialize(b"hello"), "aGVsbG8=");
    assert_eq!(serialize(&[0, 1, 2, 255]), "AAEC/w==");
    assert_eq!(serialize(b""), "");
    assert_eq!(serialize(b"any carnal pleas"), "YW55IGNhcm5hbCBwbGVhcw==");
    assert_eq!(serialize(&[0xfb, 0xff]), "+/8=");
}

#[test]
fn a_digest_is_written_as_forty_four_characters() {
    let digest = [
        83, 4, 142, 38, 129, 148, 30, 249, 155, 46, 41, 183, 107, 76, 125, 171, 228, 194, 208, 198,
        52, 252, 109, 70, 224, 226, 241, 49, 7, 231, 175, 35,
    ];
    assert_eq!(serialize(&digest), "UwSOJoGUHvmbLim3a0x9q+TC0MY0/G1G4OLxMQfnryM=");
}

#[test]
fn text_is_read_back_into_the_bytes_it_was_made_of() {
    assert_eq!(deserialize("aGVsbG8="), Ok(b"hello".to_vec()));
    assert_eq!(deserialize("AAEC/w=="), Ok(vec![0, 1, 2, 255]));
    assert_eq!(deserialize(""), Ok(vec![]));
    for length in 0..70usize {
        let bytes: Vec<u8> = (0..length).map(|i| (i * 37 % 256) as u8).collect();
        assert_eq!(serialize(&bytes).chars().count(), (length + 2) / 3 * 4);
        assert_eq!(deserialize(&serialize(&bytes)), Ok(bytes));
    }
}

#[test]
fn text_that_is_not_base64_is_refused() {
    assert!(deserialize("not base64!").is_err());
    assert!(deserialize("aGVsbG8= ").is_err());
    assert!(deserialize("a").is_err());
    assert!(deserialize("aGVs\nbG8=").is_err());
}
