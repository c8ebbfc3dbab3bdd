use saw::{is_gzip, ChunkError, ChunkInfo, ChunkUnit, ChunkedWriter};

#[test]
fn chunk_sizes() {
    assert_eq!(ChunkInfo::parse("20kb"), Ok(ChunkInfo { value: 20 * 1024, unit: ChunkUnit::Bytes }));
    assert_eq!(ChunkInfo::parse("7b"), Ok(ChunkInfo { value: 7, unit: ChunkUnit::Bytes }));
    assert_eq!(ChunkInfo::parse("3mb"), Ok(ChunkInfo { value: 3 * 1024 * 1024, unit: ChunkUnit::Bytes }));
    assert_eq!(ChunkInfo::parse("2gb"), Ok(ChunkInfo { value: 2 * 1024 * 1024 * 1024, unit: ChunkUnit::Bytes }));
    assert_eq!(ChunkInfo::parse("1000ln"), Ok(ChunkInfo { value: 1000, unit: ChunkUnit::Lines }));
}

#[test]
fn chunk_size_errors() {
    assert_eq!(ChunkInfo::parse("20KB"), Err(ChunkError::Malformed));
    assert_eq!(ChunkInfo::parse("20kb "), Err(ChunkError::Malformed));
    assert_eq!(ChunkInfo::parse("kb"), Err(ChunkError::BadNumber));
    assert_eq!(ChunkInfo::parse(""), Err(ChunkError::BadNumber));
    assert_eq!(ChunkInfo::parse("99999999999999999999999ln"), Err(ChunkError::BadNumber));
    assert_eq!(ChunkInfo::parse("20xb"), Err(ChunkError::UnknownSuffix));
    assert_eq!(ChunkInfo::parse("20"), Err(ChunkError::UnknownSuffix));
    let huge = format!("{}gb", usize::MAX / 1024);
    assert_eq!(ChunkInfo::parse(&huge), Err(ChunkError::TooLarge));
}

#[test]
fn chunk_file_names() {
    let mut w = ChunkedWriter::new("out".to_string(), ChunkInfo { value: 1, unit: ChunkUnit::Lines }, false);
    assert_eq!(w.file_name(), "out.0.log");
    assert!(w.end_line());
    assert_eq!(w.file_name(), "out.1.log");
    let z = ChunkedWriter::new("dir/base".to_string(), ChunkInfo { value: 5, unit: ChunkUnit::Lines }, true);
    assert_eq!(z.file_name(), "dir/base.0.log.gz");
}

#[test]
fn record_threshold_rolls_once_per_threshold() {
    let mut w = ChunkedWriter::new("o".to_string(), ChunkInfo { value: 3, unit: ChunkUnit::Lines }, false);
    let mut rolls = Vec::new();
    for _ in 0..7 {
        w.write(100);
        rolls.push(w.end_line());
    }
    assert_eq!(rolls, vec![false, false, true, false, false, true, false]);
    assert_eq!(w.chunk_index(), 2);
    assert_eq!(w.written(), 1);
}

#[test]
fn byte_threshold_counts_newlines() {
    let mut w = ChunkedWriter::new("o".to_string(), ChunkInfo { value: 10, unit: ChunkUnit::Bytes }, false);
    w.write(8);
    assert!(!w.end_line());
    assert_eq!(w.written(), 9);
    let mut v = ChunkedWriter::new("o".to_string(), ChunkInfo { value: 10, unit: ChunkUnit::Bytes }, false);
    v.write(9);
    assert!(v.end_line());
    assert_eq!(v.written(), 0);
    assert_eq!(v.chunk_index(), 1);
}

#[test]
fn gzip_magic() {
    assert!(is_gzip(&[0x1f, 0x8b, 0x08]));
    assert!(!is_gzip(&[0x1f]));
    assert!(!is_gzip(b"{\"time\""));
}
