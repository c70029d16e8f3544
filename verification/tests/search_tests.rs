use anlocate::search::{decompress_line, is_search_match, search, MatchType, SearchError, SearchQuery};
use anlocate::util::ByteReader;

fn golden_db() -> Vec<u8> {
    vec![
        &[0u8][..], "/usr/src".as_bytes(), &[b'\n'],
        &[8], "/cmd/aardvark.c".as_bytes(), &[b'\n'],
        &[14], "rmadillo.c".as_bytes(), &[b'\n'],
        &[5], "tmp/zoo".as_bytes(), &[b'\n'],
        &[1], "x/has/common/prefix/that/is/longer/than/251/bytes/long/has/common/prefix/that/is/longer/than/251/bytes/long/has/common/prefix/that/is/longer/than/251/bytes/long/has/common/prefix/that/is/longer/than/251/bytes/long/has/common/prefix/that/is/longer/than/251/bytes/long/file1.sh".as_bytes(), &[b'\n'],
        // 272 common bytes -> 253 = two extra bytes, 16 = low byte, 1 = high byte
        &[253, 16, 1], "2.jpg".as_bytes(), &[b'\n'],
        // a shared-prefix count whose low byte is 10 (the newline value)
        &[253, 10, 1], "xax".as_bytes(), &[b'\n'],
        // 10 common bytes -> a record whose first byte is the newline value
        &[b'\n'], "?".as_bytes(), &[b'\n'],
    ]
    .iter()
    .fold(Vec::new(), |mut fold, bytes| {
        for b in bytes.iter() {
            fold.push(*b);
        }
        fold
    })
}

fn query<'a>(q: &'a [&str]) -> Vec<SearchQuery<'a>> {
    q.iter()
        .map(|s| SearchQuery::new(s, MatchType::Include))
        .collect()
}

#[test]
fn test_search() {
    let compressed = golden_db();

    let mut reader = ByteReader::new(compressed.clone());
    assert_eq!(
        search(&mut reader, &query(&["/a"])).unwrap(),
        vec!["/usr/src/cmd/aardvark.c", "/usr/src/cmd/armadillo.c",]
    );

    let mut reader = ByteReader::new(compressed.clone());
    assert_eq!(
        search(&mut reader, &query(&["/a", "ARK"])).unwrap(),
        vec!["/usr/src/cmd/aardvark.c"]
    );

    let mut reader = ByteReader::new(compressed.clone());
    assert_eq!(
        search(&mut reader, &query(&["?"])).unwrap(),
        vec!["/x/has/com?"]
    );

    let mut reader = ByteReader::new(compressed.clone());
    assert_eq!(
        search(&mut reader, &query(&["sdkjfhljsdhfl"])).unwrap(),
        Vec::<String>::new()
    );

    let mut reader = ByteReader::new(compressed.clone());
    assert_eq!(
        search(&mut reader, &query(&["longer/than/251/bytes"]))
            .unwrap()
            .len(),
        3
    );

    // excludes
    let mut reader = ByteReader::new(compressed.clone());
    let q = vec![
        SearchQuery::new(".c", MatchType::Include),
        SearchQuery::new("aard", MatchType::Exclude),
    ];
    assert_eq!(
        search(&mut reader, &q).unwrap(),
        vec!["/usr/src/cmd/armadillo.c"]
    );

    // reading when the shared-prefix count contains the newline value
    let mut reader = ByteReader::new(compressed.clone());
    assert_eq!(search(&mut reader, &query(&["xax"])).unwrap().len(), 1);

    // reading when the first byte of a record is the newline value
    let mut reader = ByteReader::new(compressed.clone());
    assert_eq!(search(&mut reader, &query(&["?"])).unwrap().len(), 1);
}

#[test]
fn test_search_empty_query_list() {
    let mut reader = ByteReader::new(golden_db());
    let q: Vec<SearchQuery> = Vec::new();
    assert_eq!(search(&mut reader, &q).unwrap(), Vec::<String>::new());
}

#[test]
fn test_search_empty_database() {
    let mut reader = ByteReader::new(Vec::new());
    assert_eq!(search(&mut reader, &query(&["a"])).unwrap(), Vec::<String>::new());
}

#[test]
fn test_search_truncated_database() {
    // the record claims a two-byte count header, but the data ends first
    let mut db = golden_db();
    db.extend_from_slice(&[253, 10]);
    let mut reader = ByteReader::new(db);
    match search(&mut reader, &query(&["a"])) {
        Err(SearchError::IO(_)) => {}
        other => panic!("expected an IO error, got {:?}", other),
    }
}

#[test]
fn test_search_invalid_utf8() {
    let db = vec![0u8, 0xFF, 0xFE, b'\n'];
    let mut reader = ByteReader::new(db);
    match search(&mut reader, &query(&["a"])) {
        Err(SearchError::Encoding) => {}
        other => panic!("expected an encoding error, got {:?}", other),
    }
}

#[test]
fn test_search_corrupt_prefix_count() {
    // the first record claims 5 shared bytes, but nothing precedes it
    let db = vec![5u8, b'x', b'\n'];
    let mut reader = ByteReader::new(db);
    match search(&mut reader, &query(&["x"])) {
        Err(SearchError::Encoding) => {}
        other => panic!("expected an encoding error, got {:?}", other),
    }
}

#[test]
fn test_decompress_line_reconstructs() {
    assert_eq!(
        decompress_line("/usr/src".as_bytes(), &[8, b'/', b'c', b'm', b'd']).unwrap(),
        "/usr/src/cmd"
    );
    assert_eq!(decompress_line(&[], &[0, b'a']).unwrap(), "a");
    // the reserved marker byte means 10 shared bytes and no extra header bytes
    assert_eq!(
        decompress_line("aaaaaaaaaab".as_bytes(), &[251, b'z']).unwrap(),
        "aaaaaaaaaaz"
    );
}

#[test]
fn test_is_search_match_conjunction() {
    let q = vec![
        SearchQuery::new("a", MatchType::Include),
        SearchQuery::new("b", MatchType::Exclude),
    ];
    assert!(is_search_match("a path", &q));
    assert!(!is_search_match("a path with b", &q));
    assert!(!is_search_match("without it", &q));
    let none: Vec<SearchQuery> = Vec::new();
    assert!(is_search_match("anything", &none));
}
