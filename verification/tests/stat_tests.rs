use anlocate::stat::{get_stats, Stats, StatsError};
use anlocate::util::ByteReader;

fn golden_db() -> Vec<u8> {
    vec![
        &[0u8][..], "/usr/src".as_bytes(), &[b'\n'],
        &[8], "/cmd/aardvark.c".as_bytes(), &[b'\n'],
        &[14], "rmadillo.c".as_bytes(), &[b'\n'],
        &[5], "tmp/zoo".as_bytes(), &[b'\n'],
        &[1], "x/has/common/prefix/that/is/longer/than/251/bytes/long/has/common/prefix/that/is/longer/than/251/bytes/long/has/common/prefix/that/is/longer/than/251/bytes/long/has/common/prefix/that/is/longer/than/251/bytes/long/has/common/prefix/that/is/longer/than/251/bytes/long/file1.sh".as_bytes(), &[b'\n'],
        // 272 common bytes -> 253 = two extra bytes, 16 = low byte, 1 = high byte
        &[253, 16, 1], "2.jpg".as_bytes(), &[b'\n'],
        // a shared-prefix count whose low byte is 10 (the newline value)
        &[253, 10, 1], "xax".as_bytes(), &[b'\n'],
        // 10 common bytes -> a record whose first byte is the newline value
        &[b'\n'], "?".as_bytes(), &[b'\n'],
    ]
    .iter()
    .fold(Vec::new(), |mut fold, bytes| {
        for b in bytes.iter() {
            fold.push(*b);
        }
        fold
    })
}

#[test]
fn test_stats() {
    let compressed = golden_db();
    let len = compressed.len() as u64;
    let mut reader = ByteReader::new(compressed);
    assert_eq!(
        get_stats(&mut reader).unwrap(),
        Stats {
            indexed_files: 8,
            size_bytes: len,
        }
    );
}

#[test]
fn test_stats_empty_database() {
    let mut reader = ByteReader::new(Vec::new());
    assert_eq!(
        get_stats(&mut reader).unwrap(),
        Stats {
            indexed_files: 0,
            size_bytes: 0,
        }
    );
}

#[test]
fn test_stats_truncated_database() {
    let mut db = golden_db();
    db.extend_from_slice(&[254, 1]);
    let mut reader = ByteReader::new(db);
    match get_stats(&mut reader) {
        Err(StatsError::IO(_)) => {}
        other => panic!("expected an IO error, got {:?}", other),
    }
}
