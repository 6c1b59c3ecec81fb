use kubelog::format::{decode_record, decode_segment, encode_record, segment_header};
use kubelog::format::{Checkpoint, Decode, MAX_PAYLOAD};

#[test]
fn record_bytes_and_crc_are_stable() {
    assert_eq!(crc32fast::hash(b"123456789"), 0xcbf4_3926);
    let bytes = encode_record(7, b"abc").unwrap();
    assert_eq!(&bytes[..4], b"KLGR");
    assert_eq!(
        &bytes[4..20],
        &[1, 0, 0, 0, 3, 0, 0, 0, 7, 0, 0, 0, 0, 0, 0, 0]
    );
    assert_eq!(bytes.len(), 27);
    assert_eq!(&bytes[20..24], &[0xcc, 0x00, 0xad, 0x89]);
    assert_eq!(
        decode_record(&bytes, 7).unwrap(),
        Decode::Complete {
            payload: b"abc".to_vec(),
            size: 27
        }
    );
    let mut corrupt = bytes;
    corrupt[26] ^= 1;
    assert!(decode_record(&corrupt, 7).is_err());
}

#[test]
fn truncation_is_distinct_from_corruption() {
    let bytes = encode_record(0, b"xyz").unwrap();
    for length in 0..bytes.len() {
        assert_eq!(
            decode_record(&bytes[..length], 0).unwrap(),
            Decode::Incomplete
        );
    }
    assert!(decode_record(&bytes, 1).is_err());
    assert!(encode_record(0, &vec![0; 1024 * 1024 + 1]).is_err());
}

#[test]
fn segment_and_checkpoint_roundtrip() {
    let segment = segment_header(8);
    assert_eq!(segment.len(), 32);
    assert_eq!(&segment[28..], &[0xe8, 0x6c, 0x2e, 0x35]);
    assert_eq!(kubelog::format::decode_segment(&segment).unwrap(), 8);
    let checkpoint = Checkpoint {
        generation: 2,
        end: 9,
        base: 8,
        byte_end: 55,
    };
    let encoded = checkpoint.encode();
    assert_eq!(encoded.len(), 48);
    assert_eq!(&encoded[44..], &[0x9b, 0x11, 0xc7, 0xcb]);
    assert_eq!(Checkpoint::decode(&encoded).unwrap(), checkpoint);
    let mut damaged = encoded;
    damaged[20] ^= 1;
    assert!(Checkpoint::decode(&damaged).is_err());
}

#[test]
fn the_largest_payload_makes_a_record() {
    let payload = vec![0xa5; MAX_PAYLOAD];
    let bytes = encode_record(u64::MAX, &payload).unwrap();
    assert_eq!(bytes.len(), 24 + MAX_PAYLOAD);
    assert_eq!(
        decode_record(&bytes, u64::MAX).unwrap(),
        Decode::Complete {
            payload,
            size: 24 + MAX_PAYLOAD
        }
    );
}

#[test]
fn what_follows_a_record_does_not_matter() {
    let mut bytes = encode_record(3, b"first").unwrap();
    bytes.extend(encode_record(4, b"second").unwrap());
    assert_eq!(
        decode_record(&bytes, 3).unwrap(),
        Decode::Complete {
            payload: b"first".to_vec(),
            size: 29
        }
    );
}

#[test]
fn each_fault_of_a_record_has_its_message() {
    let bytes = encode_record(5, b"payload").unwrap();
    let mut version = bytes.clone();
    version[4] = 2;
    assert_eq!(
        decode_record(&version, 5).unwrap_err(),
        "invalid record header or unsupported version"
    );
    let mut tag = bytes.clone();
    tag[0] = b'X';
    assert_eq!(
        decode_record(&tag, 5).unwrap_err(),
        "invalid record header or unsupported version"
    );
    let mut long = bytes.clone();
    long[8..12].copy_from_slice(&(1024u32 * 1024 + 1).to_le_bytes());
    assert_eq!(
        decode_record(&long, 5).unwrap_err(),
        "payload length exceeds limit"
    );
    assert_eq!(
        decode_record(&bytes, 6).unwrap_err(),
        "unexpected record offset, expected 6"
    );
    let mut damaged = bytes.clone();
    damaged[24] ^= 0x80;
    assert_eq!(
        decode_record(&damaged, 5).unwrap_err(),
        "checksum mismatch at offset 5"
    );
    assert_eq!(
        encode_record(0, &vec![0; MAX_PAYLOAD + 1]).unwrap_err(),
        "payload too large"
    );
}

#[test]
fn faulty_headers_and_checkpoints_have_their_messages() {
    let header = segment_header(7);
    assert_eq!(decode_segment(&header[..31]).unwrap_err(), "invalid segment header");
    let mut base = header;
    base[8] ^= 1;
    assert_eq!(decode_segment(&base).unwrap_err(), "invalid segment header");
    let mut reserved = header;
    reserved[20] = 1;
    assert_eq!(decode_segment(&reserved).unwrap_err(), "invalid segment header");
    assert_eq!(Checkpoint::decode(&[]).unwrap_err(), "invalid checkpoint");
    assert_eq!(
        Checkpoint::decode(&[0; 48]).unwrap_err(),
        "invalid checkpoint"
    );
}

/// The checksum of the standard, bit by bit.
fn bitwise(bytes: &[u8]) -> u32 {
    let mut register = 0xffff_ffffu32;
    for byte in bytes {
        register ^= *byte as u32;
        for _ in 0..8 {
            register = if register & 1 == 1 {
                (register >> 1) ^ 0xedb8_8320
            } else {
                register >> 1
            };
        }
    }
    register ^ 0xffff_ffff
}

#[test]
fn the_checksum_is_that_of_the_standard() {
    let mut bytes = vec![];
    let mut seed = 1u32;
    for length in 0..600 {
        assert_eq!(crc32fast::hash(&bytes), bitwise(&bytes));
        let mut hasher = crc32fast::Hasher::new();
        hasher.update(&bytes[..length / 3]);
        hasher.update(&bytes[length / 3..]);
        assert_eq!(hasher.finalize(), bitwise(&bytes));
        seed = seed.wrapping_mul(1_664_525).wrapping_add(1_013_904_223);
        bytes.push((seed >> 24) as u8);
    }
    let record = encode_record(9, &bytes).unwrap();
    let mut sealed = record[..20].to_vec();
    sealed.extend(&record[24..]);
    assert_eq!(record[20..24], bitwise(&sealed).to_le_bytes());
}

#[test]
fn any_damaged_byte_of_a_format_is_refused() {
    let record = encode_record(3, b"payload").unwrap();
    let header = segment_header(3);
    let checkpoint = Checkpoint {
        generation: 4,
        end: 3,
        base: 0,
        byte_end: 99,
    }
    .encode();
    for change in [1, 0x80, 0xff] {
        for at in (0..8).chain(12..record.len()) {
            let mut damaged = record.clone();
            damaged[at] ^= change;
            assert!(decode_record(&damaged, 3).is_err());
        }
        for at in 0..header.len() {
            let mut damaged = header;
            damaged[at] ^= change;
            assert!(decode_segment(&damaged).is_err());
        }
        for at in 0..checkpoint.len() {
            let mut damaged = checkpoint;
            damaged[at] ^= change;
            assert!(Checkpoint::decode(&damaged).is_err());
        }
    }
}
