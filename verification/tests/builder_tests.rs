use anlocate::builder::{
    bytes_le, join_lines, merge_parts, render_database, sort_lines, split_part, strip_root,
    Batcher, ENTRY_OVERHEAD,
};
use anlocate::util::ByteReader;

const LONG_1: &str = "tests/root/x/has/common/prefix/that/is/longer/than/251/bytes/long/has/common/prefix/that/is/longer/than/251/bytes/long/has/common/prefix/that/is/longer/than/251/bytes/long/has/common/prefix/that/is/longer/than/251/bytes/long/has/common/prefix/that/is/longer/than/251/bytes/long/file1.sh";
const LONG_2: &str = "tests/root/x/has/common/prefix/that/is/longer/than/251/bytes/long/has/common/prefix/that/is/longer/than/251/bytes/long/has/common/prefix/that/is/longer/than/251/bytes/long/has/common/prefix/that/is/longer/than/251/bytes/long/has/common/prefix/that/is/longer/than/251/bytes/long/file2.jpg";

fn walked_paths() -> Vec<Vec<u8>> {
    // the order a file-system walk might produce: not sorted
    vec![
        LONG_2.as_bytes().to_vec(),
        "tests/root/usr/src/armadillo.c".as_bytes().to_vec(),
        "tests/root/cmd".as_bytes().to_vec(),
        "tests/root/usr/tmp/zoo".as_bytes().to_vec(),
        LONG_1.as_bytes().to_vec(),
        "tests/root/usr/src/aardvark.c".as_bytes().to_vec(),
    ]
}

fn build_db_bytes(paths: Vec<Vec<u8>>, compress: bool) -> Vec<u8> {
    // the whole pipeline: batch, sort, write a part, split it back, merge,
    // and render the database
    let mut batcher = Batcher::new(2_000_000);
    let mut parts: Vec<Vec<Vec<u8>>> = Vec::new();
    for p in paths {
        if let Some(batch) = batcher.push(p) {
            let mut batch = batch;
            sort_lines(&mut batch);
            parts.push(batch);
        }
    }
    let tail = batcher.finish();
    if !tail.is_empty() {
        let mut tail = tail;
        sort_lines(&mut tail);
        parts.push(tail);
    }
    // write each batch as part-file bytes, then read the parts back
    let mut read_back: Vec<Vec<Vec<u8>>> = Vec::new();
    for part in &parts {
        let bytes = join_lines(part);
        let mut reader = ByteReader::new(bytes);
        read_back.push(split_part(&mut reader));
    }
    let merged = merge_parts(&read_back);
    render_database(&merged, compress)
}

#[test]
fn test_build_database() {
    let content = build_db_bytes(walked_paths(), true);

    let expected: Vec<u8> = vec![
        &[0u8][..], "tests/root/cmd".as_bytes(), &[b'\n'],
        &[11], "usr/src/aardvark.c".as_bytes(), &[b'\n'],
        &[20], "rmadillo.c".as_bytes(), &[b'\n'],
        &[15], "tmp/zoo".as_bytes(), &[b'\n'],
        &[11], &LONG_1.as_bytes()[11..], &[b'\n'],
        // 253 = two extra bytes, 26 = low byte, 1 = high byte
        &[253, 26, 1], "2.jpg".as_bytes(), &[b'\n'],
    ]
    .iter()
    .fold(Vec::new(), |mut fold, bytes| {
        for b in bytes.iter() {
            fold.push(*b);
        }
        fold
    });

    assert_eq!(content, expected);
}

#[test]
fn test_build_database_remove_root() {
    let stripped: Vec<Vec<u8>> = walked_paths()
        .iter()
        .map(|p| strip_root(p.as_slice(), "tests/root".as_bytes()).expect("root was not prefix"))
        .collect();
    let content = build_db_bytes(stripped, true);

    let expected: Vec<u8> = vec![
        &[0u8][..], "cmd".as_bytes(), &[b'\n'],
        &[0], "usr/src/aardvark.c".as_bytes(), &[b'\n'],
        &[9], "rmadillo.c".as_bytes(), &[b'\n'],
        &[4], "tmp/zoo".as_bytes(), &[b'\n'],
        &[0], &LONG_1.as_bytes()[11..], &[b'\n'],
        // 253 = two extra bytes, 15 = low byte, 1 = high byte
        &[253, 15, 1], "2.jpg".as_bytes(), &[b'\n'],
    ]
    .iter()
    .fold(Vec::new(), |mut fold, bytes| {
        for b in bytes.iter() {
            fold.push(*b);
        }
        fold
    });

    assert_eq!(content, expected);
}

#[test]
fn test_build_database_deterministic() {
    // the same path list gives byte-identical databases
    let a = build_db_bytes(walked_paths(), true);
    let b = build_db_bytes(walked_paths(), true);
    assert_eq!(a, b);
}

#[test]
fn test_build_database_empty() {
    // an empty scan gives a zero-byte database
    assert_eq!(build_db_bytes(Vec::new(), true), Vec::<u8>::new());
}

#[test]
fn test_build_database_single_file() {
    // a single file gives one record with a zero count header
    let content = build_db_bytes(vec!["one/file".as_bytes().to_vec()], true);
    let mut expected = vec![0u8];
    expected.extend_from_slice("one/file".as_bytes());
    expected.push(b'\n');
    assert_eq!(content, expected);
}

#[test]
fn test_build_database_no_compress() {
    let content = build_db_bytes(
        vec!["b/two".as_bytes().to_vec(), "a/one".as_bytes().to_vec()],
        false,
    );
    assert_eq!(content, "a/one\nb/two\n".as_bytes());
}

#[test]
fn test_batcher_flushes_under_limit() {
    // each entry costs its bytes plus the fixed overhead; with a 100-byte
    // budget, two 26-byte entries fit and the third forces a flush
    let limit = 100;
    let entry = vec![b'x'; 26 - ENTRY_OVERHEAD];
    let mut batcher = Batcher::new(limit);
    assert!(batcher.push(entry.clone()).is_none());
    assert!(batcher.push(entry.clone()).is_none());
    assert!(batcher.push(entry.clone()).is_none());
    let flushed = batcher.push(entry.clone()).expect("the budget was reached");
    assert_eq!(flushed.len(), 3);
    let flushed_memory: usize = flushed.iter().map(|e| e.len() + ENTRY_OVERHEAD).sum();
    assert!(flushed_memory <= limit);
    assert_eq!(batcher.finish().len(), 1);
}

#[test]
fn test_strip_root_cases() {
    assert_eq!(
        strip_root("root/a/b".as_bytes(), "root".as_bytes()),
        Some("a/b".as_bytes().to_vec())
    );
    assert_eq!(
        strip_root("root/a".as_bytes(), "root/".as_bytes()),
        Some("a".as_bytes().to_vec())
    );
    assert_eq!(
        strip_root("root".as_bytes(), "root".as_bytes()),
        Some(Vec::new())
    );
    assert_eq!(strip_root("a/b".as_bytes(), "".as_bytes()), Some("a/b".as_bytes().to_vec()));
    assert_eq!(strip_root("rooted/a".as_bytes(), "root".as_bytes()), None);
    assert_eq!(strip_root("elsewhere/a".as_bytes(), "root".as_bytes()), None);
}

#[test]
fn test_sort_lines_orders_bytes() {
    let mut lines = vec![
        "b".as_bytes().to_vec(),
        "a/c".as_bytes().to_vec(),
        "a".as_bytes().to_vec(),
        "a/c".as_bytes().to_vec(),
    ];
    sort_lines(&mut lines);
    assert_eq!(
        lines,
        vec![
            "a".as_bytes().to_vec(),
            "a/c".as_bytes().to_vec(),
            "a/c".as_bytes().to_vec(),
            "b".as_bytes().to_vec(),
        ]
    );
}

#[test]
fn test_bytes_le_order() {
    assert!(bytes_le("a".as_bytes(), "b".as_bytes()));
    assert!(bytes_le("a".as_bytes(), "a".as_bytes()));
    assert!(bytes_le("a".as_bytes(), "aa".as_bytes()));
    assert!(!bytes_le("aa".as_bytes(), "a".as_bytes()));
    assert!(!bytes_le("b".as_bytes(), "aa".as_bytes()));
}

#[test]
fn test_split_part_skips_blank_lines() {
    let mut reader = ByteReader::new("a\n\nb\n\n\nc".as_bytes().to_vec());
    let lines = split_part(&mut reader);
    assert_eq!(
        lines,
        vec![
            "a".as_bytes().to_vec(),
            "b".as_bytes().to_vec(),
            "c".as_bytes().to_vec(),
        ]
    );
}

#[test]
fn test_merge_parts_keeps_duplicates_and_order() {
    let parts = vec![
        vec!["a".as_bytes().to_vec(), "c".as_bytes().to_vec()],
        vec!["a".as_bytes().to_vec(), "b".as_bytes().to_vec(), "d".as_bytes().to_vec()],
        Vec::new(),
    ];
    let merged = merge_parts(&parts);
    assert_eq!(
        merged,
        vec![
            "a".as_bytes().to_vec(),
            "a".as_bytes().to_vec(),
            "b".as_bytes().to_vec(),
            "c".as_bytes().to_vec(),
            "d".as_bytes().to_vec(),
        ]
    );
}
