use bgm_property::{BgmPropertyFile, Entry, Error};

fn sample_entry(seed: u32) -> Entry {
    Entry {
        name_id: 0x1122_3344_5566_7788u64.wrapping_add(seed as u64),
        loop_start_ms: 100 + seed,
        loop_start_sample: 4410 + seed,
        loop_end_ms: 200_000 + seed,
        loop_end_sample: 8_820_000 + seed,
        duration_ms: 210_000 + seed,
        duration_sample: 9_261_000 + seed,
    }
}

#[test]
fn test_round_trip() {
    let original = BgmPropertyFile::new(vec![sample_entry(0), sample_entry(1), sample_entry(2)]);
    let bytes = original.write();
    let round_trip = BgmPropertyFile::read(&bytes).unwrap();
    assert_eq!(original.entries(), round_trip.entries());
    assert_eq!(bytes, round_trip.write());
}

#[test]
fn test_empty_container_is_bare_header() {
    let file = BgmPropertyFile::new(Vec::new());
    let bytes = file.write();
    assert_eq!(bytes, vec![0x50, 0x4D, 0x47, 0x42, 0, 0, 0, 0]);
    let back = BgmPropertyFile::read(&bytes).unwrap();
    assert_eq!(back.entries().len(), 0);
}

#[test]
fn test_exact_layout() {
    let entry = Entry {
        name_id: 0x0807_0605_0403_0201,
        loop_start_ms: 0x1413_1211,
        loop_start_sample: 0x2423_2221,
        loop_end_ms: 0x3433_3231,
        loop_end_sample: 0x4443_4241,
        duration_ms: 0x5453_5251,
        duration_sample: 0x6463_6261,
    };
    let bytes = BgmPropertyFile::new(vec![entry]).write();
    let expected: Vec<u8> = vec![
        0x50, 0x4D, 0x47, 0x42, // magic "PMGB"
        1, 0, 0, 0, // count
        0x01, 0x02, 0x03, 0x04, 0x05, 0x06, 0x07, 0x08, // name_id LE
        0x11, 0x12, 0x13, 0x14, // loop_start_ms
        0x21, 0x22, 0x23, 0x24, // loop_start_sample
        0x31, 0x32, 0x33, 0x34, // loop_end_ms
        0x41, 0x42, 0x43, 0x44, // loop_end_sample
        0x51, 0x52, 0x53, 0x54, // duration_ms
        0x61, 0x62, 0x63, 0x64, // duration_sample
        0, 0, 0, 0, // reserved padding
    ];
    assert_eq!(bytes, expected);
}

#[test]
fn test_bad_magic() {
    let mut bytes = BgmPropertyFile::new(vec![sample_entry(7)]).write();
    bytes[0] = 0x51;
    match BgmPropertyFile::read(&bytes) {
        Err(Error::BadMagic { found }) => {
            assert_eq!(found, u32::from_le_bytes([0x51, 0x4D, 0x47, 0x42]));
        }
        other => panic!("expected BadMagic, got {:?}", other),
    }
}

#[test]
fn test_too_short_for_magic() {
    assert_eq!(BgmPropertyFile::read(&[0x50, 0x4D]), Err(Error::TruncatedInput));
    assert_eq!(
        BgmPropertyFile::read(&[0x50, 0x4D, 0x47, 0x42, 1, 0]),
        Err(Error::TruncatedInput)
    );
}

#[test]
fn test_truncation_rejected() {
    // A valid magic and a count of 3, but only one full record follows.
    let mut bytes = vec![0x50, 0x4D, 0x47, 0x42, 3, 0, 0, 0];
    bytes.extend(std::iter::repeat(0xAB).take(36));
    assert!(bytes.len() < 8 + 36 * 3);
    assert_eq!(BgmPropertyFile::read(&bytes), Err(Error::TruncatedInput));
}

#[test]
fn test_trailing_bytes_ignored() {
    let file = BgmPropertyFile::new(vec![sample_entry(3), sample_entry(4)]);
    let mut bytes = file.write();
    bytes.extend_from_slice(&[0xDE, 0xAD, 0xBE, 0xEF, 0x99]);
    let back = BgmPropertyFile::read(&bytes).unwrap();
    assert_eq!(back.entries(), file.entries());
}

#[test]
fn test_padding_is_inert() {
    let file = BgmPropertyFile::new(vec![sample_entry(5)]);
    let clean = file.write();
    let mut dirty = clean.clone();
    // The reserved padding of the single record: the last 4 of its 36 bytes.
    for k in (8 + 32)..(8 + 36) {
        dirty[k] = 0xFF;
    }
    let from_clean = BgmPropertyFile::read(&clean).unwrap();
    let from_dirty = BgmPropertyFile::read(&dirty).unwrap();
    assert_eq!(from_clean.entries(), from_dirty.entries());
    // Re-encoding either always emits zero padding.
    assert_eq!(from_dirty.write(), clean);
}

#[test]
fn test_decode_then_encode_reproduces_prefix() {
    let file = BgmPropertyFile::new(vec![sample_entry(8), sample_entry(9)]);
    let mut bytes = file.write();
    bytes.extend_from_slice(&[1, 2, 3]);
    let decoded = BgmPropertyFile::read(&bytes).unwrap();
    let reencoded = decoded.write();
    assert_eq!(reencoded.as_slice(), &bytes[..8 + 36 * 2]);
}

#[test]
fn test_entries_mut() {
    let mut file = BgmPropertyFile::new(vec![sample_entry(0)]);
    file.entries_mut()[0].loop_start_sample = 0;
    assert_eq!(file.entries()[0].loop_start_sample, 0);
}
