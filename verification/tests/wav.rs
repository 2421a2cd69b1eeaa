use klattsch::wav::{build_info_chunk, encode_pcm16, WavMetadata};

#[test]
fn header_is_44_bytes_when_no_metadata() {
    let samples = vec![0i16; 1000];
    let bytes = encode_pcm16(&samples, 48_000, &None);
    // 44 byte header + 2*1000 = 2044
    assert_eq!(bytes.len(), 44 + 2000);
    assert_eq!(&bytes[0..4], b"RIFF");
    assert_eq!(&bytes[8..12], b"WAVE");
    assert_eq!(&bytes[12..16], b"fmt ");
    assert_eq!(&bytes[36..40], b"data");
}

#[test]
fn metadata_appends_list_chunk() {
    let samples = vec![0i16; 100];
    let bytes = encode_pcm16(
        &samples,
        48_000,
        &Some(WavMetadata {
            software: Some("klattsch"),
            comment: Some("HH AH"),
        }),
    );
    let header_and_data = 44 + 200;
    assert!(bytes.len() > header_and_data);
    assert_eq!(&bytes[header_and_data..header_and_data + 4], b"LIST");
}

#[test]
fn fmt_chunk_encodes_sample_rate() {
    let samples = vec![0i16; 10];
    let bytes = encode_pcm16(&samples, 44_100, &None);
    // sample rate at offset 24, little-endian u32
    let sr = u32::from_le_bytes(bytes[24..28].try_into().unwrap());
    assert_eq!(sr, 44_100);
}

#[test]
fn header_fields_are_exact() {
    let bytes = encode_pcm16(&[1, -1, 32767], 16_000, &None);
    let expected: Vec<u8> = [
        &b"RIFF"[..],
        &(44u32 + 6 - 8).to_le_bytes(),
        b"WAVE",
        b"fmt ",
        &16u32.to_le_bytes(),
        &1u16.to_le_bytes(),
        &1u16.to_le_bytes(),
        &16_000u32.to_le_bytes(),
        &32_000u32.to_le_bytes(),
        &2u16.to_le_bytes(),
        &16u16.to_le_bytes(),
        b"data",
        &6u32.to_le_bytes(),
        &[1, 0, 0xff, 0xff, 0xff, 0x7f],
    ]
    .concat();
    assert_eq!(bytes, expected);
}

#[test]
fn info_chunk_layout_with_padding() {
    let chunk = build_info_chunk(&WavMetadata {
        software: Some("abc"),
        comment: None,
    })
    .unwrap();
    // "LIST", size = 4 ("INFO") + 8 + 3 + 1 pad = 16, "INFO", "ISFT", 3, "abc", pad
    let expected: Vec<u8> = [
        &b"LIST"[..],
        &16u32.to_le_bytes(),
        b"INFO",
        b"ISFT",
        &3u32.to_le_bytes(),
        b"abc",
        &[0],
    ]
    .concat();
    assert_eq!(chunk, expected);
}

#[test]
fn empty_metadata_has_no_chunk() {
    assert!(build_info_chunk(&WavMetadata::default()).is_none());
    let with_empty = encode_pcm16(&[0; 4], 8_000, &Some(WavMetadata::default()));
    assert_eq!(with_empty.len(), 44 + 8);
}

#[test]
fn comment_comes_after_software() {
    let chunk = build_info_chunk(&WavMetadata {
        software: Some("ab"),
        comment: Some("cd"),
    })
    .unwrap();
    assert_eq!(&chunk[12..16], b"ISFT");
    assert_eq!(&chunk[22..26], b"ICMT");
    assert_eq!(&chunk[30..32], b"cd");
}
