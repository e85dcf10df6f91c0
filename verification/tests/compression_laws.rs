use alice_cache::compression::{
    compress, decompress, rle_compress, rle_decompress, CompressedEntry, CompressionConfig, CompressionStats, MARKER,
};

fn min_size(n: usize) -> CompressionConfig {
    CompressionConfig { min_size: n, level: 3 }
}

#[test]
fn compress_run_token_layout() {
    let entry = compress(&[7u8; 10], &min_size(4));
    assert!(entry.compressed);
    assert_eq!(entry.data, vec![MARKER, 0x00, 7, 0, 10]);
    assert_eq!(entry.original_size, 10);
    assert_eq!(decompress(&entry), vec![7u8; 10]);
}

#[test]
fn compress_long_run_splits_at_limit() {
    let data = vec![3u8; 70000];
    let entry = compress(&data, &min_size(4));
    assert!(entry.compressed);
    assert_eq!(entry.data, vec![MARKER, 0x00, 3, 0xFF, 0xFF, MARKER, 0x00, 3, 0x11, 0x71]);
    assert_eq!(decompress(&entry), data);
}

#[test]
fn compress_keeps_raw_when_not_shorter() {
    let data = vec![1u8, 2, MARKER, 3];
    let entry = compress(&data, &min_size(4));
    assert!(!entry.compressed);
    assert_eq!(entry.data, data);
    assert_eq!(decompress(&entry), data);
}

#[test]
fn compress_round_trip_many_shapes() {
    let shapes: Vec<Vec<u8>> = vec![
        vec![],
        vec![MARKER],
        vec![MARKER; 3],
        vec![MARKER; 4],
        (0..=255u8).chain(0..=255u8).collect(),
        [vec![1u8; 3], vec![2u8; 4], vec![MARKER; 5], vec![9u8]].concat(),
    ];
    for data in shapes {
        for min in [0usize, 1, 4, 1000] {
            let entry = compress(&data, &min_size(min));
            assert_eq!(decompress(&entry), data);
        }
    }
}

#[test]
fn ratio_parts_exact() {
    let e = CompressedEntry { data: vec![0; 50], original_size: 200, compressed: true };
    assert_eq!(e.ratio_parts(), (50, 200));
    let raw = CompressedEntry { data: vec![0; 5], original_size: 5, compressed: false };
    assert_eq!(raw.ratio_parts(), (1, 1));
    let empty = CompressedEntry { data: vec![], original_size: 0, compressed: true };
    assert_eq!(empty.ratio_parts(), (1, 1));
}

#[test]
fn stats_sums_and_ratio_parts() {
    let mut s = CompressionStats::default();
    assert_eq!(s.overall_ratio_parts(), (1, 1));
    s.record(&CompressedEntry { data: vec![0; 30], original_size: 100, compressed: true });
    s.record(&CompressedEntry { data: vec![0; 10], original_size: 10, compressed: false });
    assert_eq!(s.total_original, 110);
    assert_eq!(s.total_compressed, 40);
    assert_eq!(s.compressed_count, 1);
    assert_eq!(s.skipped_count, 1);
    assert_eq!(s.overall_ratio_parts(), (40, 110));
}

#[test]
fn rle_round_trip_on_runs_markers_and_long_runs() {
    let mut data = vec![7u8; 70000];
    data.extend_from_slice(&[MARKER, 1, 2, MARKER, MARKER, MARKER, MARKER, 3, 3, 3]);
    let encoded = rle_compress(&data);
    assert_eq!(&encoded[..5], &[MARKER, 0x00, 7, 0xFF, 0xFF]);
    assert_eq!(rle_decompress(&encoded, data.len()), data);
    assert_eq!(rle_decompress(&rle_compress(&[]), 0), Vec::<u8>::new());
}
