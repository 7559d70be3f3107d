use mapper_ex::{dialect_of, hash128, join_lines, lz4_compress, lz4_decompress, Dialect};

#[test]
fn hash128_gives_sixteen_bytes() {
    let input: Vec<u8> = (0u8..16).collect();
    let h = hash128(&input);
    assert_eq!(h.len(), 16);
    assert_ne!(h, input);
    assert_ne!(hash128(b"abc"), hash128(b"abd"));
    assert_eq!(hash128(b"abc"), hash128(b"abc"));
}

#[test]
fn lz4_round_trip() {
    let data: Vec<u8> = b"abcabcabcabcabcabcabcabcabcabcabcabcabcabc".to_vec();
    let packed = lz4_compress(&data);
    assert_ne!(packed, data);
    assert!(packed.len() < data.len());
    assert_eq!(lz4_decompress(&packed, data.len()).unwrap(), data);
}

#[test]
fn lz4_empty_round_trip() {
    let packed = lz4_compress(&[]);
    assert_eq!(lz4_decompress(&packed, 0).unwrap(), Vec::<u8>::new());
}

#[test]
fn lz4_decompress_reports_errors() {
    let r = lz4_decompress(&[0xff, 0xff, 0xff], 10);
    assert!(r.is_err());
    assert!(!r.unwrap_err().is_empty());
}

#[test]
fn dialect_names() {
    assert_eq!(dialect_of("bigquery"), Some(Dialect::BigQuery));
    assert_eq!(dialect_of("clickhouse"), Some(Dialect::ClickHouse));
    assert_eq!(dialect_of("postgres"), Some(Dialect::Postgres));
    assert_eq!(dialect_of("mysql"), None);
}

#[test]
fn join_lines_with_newlines() {
    assert_eq!(join_lines(&vec![]), "");
    assert_eq!(join_lines(&vec!["a".to_string()]), "a");
    assert_eq!(join_lines(&vec!["a".to_string(), "b".to_string(), "c".to_string()]), "a\nb\nc");
}
