use actionkv::codec::{decode, encode, KvError};

#[test]
fn round_trip_preserves_key_and_value() {
    let rec = encode(b"some key", b"some value");
    let kv = decode(&rec, 0).expect("fresh record must decode");
    assert_eq!(kv.key, b"some key".to_vec());
    assert_eq!(kv.value, b"some value".to_vec());
}

#[test]
fn round_trip_empty_key_and_value() {
    let rec = encode(b"", b"");
    assert_eq!(rec.len(), 12);
    let kv = decode(&rec, 0).expect("empty record must decode");
    assert_eq!(kv.key, Vec::<u8>::new());
    assert_eq!(kv.value, Vec::<u8>::new());
}

#[test]
fn header_holds_bzip2_crc_of_payload_little_endian() {
    let key = b"key";
    let value = b"value";
    let rec = encode(key, value);
    let mut payload = key.to_vec();
    payload.extend_from_slice(value);
    let expected = crc::Crc::<u32>::new(&crc::CRC_32_BZIP2).checksum(&payload);
    assert_eq!(&rec[0..4], expected.to_le_bytes().as_slice());
    assert_eq!(&rec[4..8], (key.len() as u32).to_le_bytes().as_slice());
    assert_eq!(&rec[8..12], (value.len() as u32).to_le_bytes().as_slice());
    assert_eq!(&rec[12..15], key.as_slice());
    assert_eq!(&rec[15..20], value.as_slice());
}

#[test]
fn decode_of_empty_source_is_end_of_log() {
    let empty: Vec<u8> = Vec::new();
    assert_eq!(decode(&empty, 0), Err(KvError::UnexpectedEof));
}

#[test]
fn decode_of_truncated_payload_is_end_of_log() {
    let mut rec = encode(b"abc", b"defgh");
    rec.truncate(rec.len() - 1);
    assert_eq!(decode(&rec, 0), Err(KvError::UnexpectedEof));
}

#[test]
fn decode_of_truncated_header_is_end_of_log() {
    let rec = encode(b"abc", b"defgh");
    assert_eq!(decode(&rec, rec.len() - 7), Err(KvError::UnexpectedEof));
}

#[test]
fn flipping_any_payload_bit_is_detected_as_corruption() {
    let rec = encode(b"key", b"value");
    for byte_pos in 12..rec.len() {
        for bit in 0..8 {
            let mut damaged = rec.clone();
            damaged[byte_pos] ^= 1u8 << bit;
            match decode(&damaged, 0) {
                Err(KvError::Corruption { computed, stored }) => {
                    assert_ne!(computed, stored);
                }
                other => panic!("damaged record was accepted: {:?}", other),
            }
        }
    }
}

#[test]
fn corruption_error_reports_both_checksums() {
    let rec = encode(b"k", b"v");
    let mut damaged = rec.clone();
    damaged[13] ^= 0x01;
    let payload: Vec<u8> = damaged[12..].to_vec();
    let recomputed = crc::Crc::<u32>::new(&crc::CRC_32_BZIP2).checksum(&payload);
    let saved = u32::from_le_bytes([rec[0], rec[1], rec[2], rec[3]]);
    assert_eq!(
        decode(&damaged, 0),
        Err(KvError::Corruption { computed: recomputed, stored: saved })
    );
}
