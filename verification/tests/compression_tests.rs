use alice_cache::compression::{compress, decompress, CompressedEntry, CompressionConfig, CompressionStats};

/// The stored-to-original size ratio, as a float.
fn ratio(entry: &CompressedEntry) -> f64 {
    let (n, d) = entry.ratio_parts();
    n as f64 / d as f64
}

/// The overall stored-to-original size ratio, as a float.
fn overall_ratio(stats: &CompressionStats) -> f64 {
    let (n, d) = stats.overall_ratio_parts();
    n as f64 / d as f64
}

#[test]
fn compress_small_data_skipped() {
    let config = CompressionConfig {
        min_size: 256,
        ..Default::default()
    };
    let data = vec![1, 2, 3, 4, 5];
    let entry = compress(&data, &config);
    assert!(!entry.compressed);
    assert_eq!(entry.data, data);
}

#[test]
fn compress_decompress_roundtrip() {
    let config = CompressionConfig {
        min_size: 4,
        ..Default::default()
    };
    // 繰り返しデータ
    let data: Vec<u8> = (0..100).map(|_| 0xAA).collect();
    let entry = compress(&data, &config);
    assert!(entry.compressed);
    let decompressed = decompress(&entry);
    assert_eq!(decompressed, data);
}

#[test]
fn compress_decompress_mixed() {
    let config = CompressionConfig {
        min_size: 4,
        ..Default::default()
    };
    let mut data = Vec::new();
    data.extend_from_slice(&[1, 2, 3]); // リテラル
    data.extend(std::iter::repeat_n(0x42, 20)); // RLE ラン
    data.extend_from_slice(&[4, 5, 6]); // リテラル
    data.extend(std::iter::repeat_n(0x00, 10)); // RLE ラン

    let entry = compress(&data, &config);
    let decompressed = decompress(&entry);
    assert_eq!(decompressed, data);
}

#[test]
fn compress_decompress_marker_byte() {
    let config = CompressionConfig {
        min_size: 4,
        ..Default::default()
    };
    // 0xFF をリテラルとして含むデータ
    let data = vec![1, 2, 0xFF, 3, 4, 0xFF, 5, 6, 7, 8, 9, 10];
    let entry = compress(&data, &config);
    let decompressed = decompress(&entry);
    assert_eq!(decompressed, data);
}

#[test]
fn compress_ratio() {
    let config = CompressionConfig {
        min_size: 4,
        ..Default::default()
    };
    let data: Vec<u8> = (0..1000).map(|_| 0).collect();
    let entry = compress(&data, &config);
    assert!(entry.compressed);
    assert!(
        ratio(&entry) < 0.1,
        "Should compress well, got {}",
        ratio(&entry)
    );
}

#[test]
fn compress_incompressible_stays_raw() {
    let config = CompressionConfig {
        min_size: 4,
        ..Default::default()
    };
    // ランダム風のデータ (圧縮不可)
    let data: Vec<u8> = (0..=254).collect();
    let entry = compress(&data, &config);
    // 非圧縮のまま (RLE はランダムデータを膨張させうる)
    let decompressed = decompress(&entry);
    assert_eq!(decompressed, data);
}

#[test]
fn compressed_entry_size() {
    let entry = CompressedEntry {
        data: vec![0; 50],
        original_size: 200,
        compressed: true,
    };
    assert_eq!(entry.compressed_size(), 50);
    assert!((ratio(&entry) - 0.25).abs() < 1e-10);
}

#[test]
fn compressed_entry_uncompressed_ratio() {
    let entry = CompressedEntry {
        data: vec![0; 100],
        original_size: 100,
        compressed: false,
    };
    assert!((ratio(&entry) - 1.0).abs() < 1e-10);
}

#[test]
fn stats_record() {
    let mut stats = CompressionStats::default();
    let entry = CompressedEntry {
        data: vec![0; 50],
        original_size: 200,
        compressed: true,
    };
    stats.record(&entry);
    assert_eq!(stats.compressed_count, 1);
    assert_eq!(stats.total_original, 200);
    assert_eq!(stats.total_compressed, 50);
    assert!((overall_ratio(&stats) - 0.25).abs() < 1e-10);
}

#[test]
fn stats_skipped() {
    let mut stats = CompressionStats::default();
    let entry = CompressedEntry {
        data: vec![0; 10],
        original_size: 10,
        compressed: false,
    };
    stats.record(&entry);
    assert_eq!(stats.skipped_count, 1);
    assert_eq!(stats.compressed_count, 0);
}

#[test]
fn stats_empty_ratio() {
    let stats = CompressionStats::default();
    assert!((overall_ratio(&stats) - 1.0).abs() < 1e-10);
}

#[test]
fn compression_default_config() {
    let config = CompressionConfig::default();
    assert_eq!(config.min_size, 256);
    assert_eq!(config.level, 3);
}

#[test]
fn compress_all_marker_bytes() {
    let config = CompressionConfig {
        min_size: 4,
        ..Default::default()
    };
    // 全部 0xFF
    let data: Vec<u8> = std::iter::repeat_n(0xFF, 20).collect();
    let entry = compress(&data, &config);
    let decompressed = decompress(&entry);
    assert_eq!(decompressed, data);
}
