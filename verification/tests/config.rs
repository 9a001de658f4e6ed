use parallel_encode::config::{
    ParallelConfig, ParallelMode, DEFAULT_BLOCK_SIZE, DEFAULT_BYTES_PER_TOKEN_MILLI, DEFAULT_MIN_TOKENS_PER_CHUNK,
    DEFAULT_PARALLEL_THRESHOLD, DEFAULT_STREAMING_OVERLAP, DEFAULT_STREAMING_THRESHOLD, SAFETY_MARGIN,
};

#[test]
fn test_parallel_config_default() {
    let config = ParallelConfig::default();
    assert_eq!(config.threshold, DEFAULT_PARALLEL_THRESHOLD);
    assert_eq!(config.safety_margin, SAFETY_MARGIN);
    assert_eq!(config.min_tokens_per_chunk, DEFAULT_MIN_TOKENS_PER_CHUNK);
    assert!((config.bytes_per_token_milli as f64 / 1000.0 - DEFAULT_BYTES_PER_TOKEN_MILLI as f64 / 1000.0).abs() < 0.001);
    assert_eq!(config.max_depth, 0);
    assert_eq!(config.mode, ParallelMode::Auto);
    assert_eq!(config.block_size, DEFAULT_BLOCK_SIZE);
    assert_eq!(config.streaming_overlap, DEFAULT_STREAMING_OVERLAP);
    assert_eq!(config.streaming_threshold, DEFAULT_STREAMING_THRESHOLD);
}

#[test]
fn test_parallel_config_streaming() {
    let config = ParallelConfig::streaming();
    assert_eq!(config.mode, ParallelMode::Streaming);
    assert_eq!(config.block_size, 8 * 1024); // 8KB optimal block size
}

#[test]
fn test_parallel_config_recursive() {
    let config = ParallelConfig::recursive();
    assert_eq!(config.mode, ParallelMode::Recursive);
}

#[test]
fn test_parallel_config_with_block_size() {
    let config = ParallelConfig::streaming().with_block_size(64 * 1024);
    assert_eq!(config.block_size, 64 * 1024);
}

#[test]
fn test_parallel_config_with_streaming_overlap() {
    let config = ParallelConfig::streaming().with_streaming_overlap(2048);
    assert_eq!(config.streaming_overlap, 2048);
}

#[test]
fn default_values_are_the_documented_ones() {
    let config = ParallelConfig::default();
    assert_eq!(config.threshold, 10_000);
    assert_eq!(config.safety_margin, 64);
    assert_eq!(config.min_tokens_per_chunk, 10_000);
    assert_eq!(config.bytes_per_token_milli, 4500);
    assert_eq!(config.streaming_overlap, 1024);
    assert_eq!(config.streaming_threshold, 1024 * 1024);
    assert_eq!(ParallelMode::default(), ParallelMode::Auto);
}

#[test]
fn builders_change_only_their_field() {
    let base = ParallelConfig::recursive();
    let changed = base.with_block_size(4096).with_streaming_overlap(77);
    assert_eq!(changed.mode, ParallelMode::Recursive);
    assert_eq!(changed.block_size, 4096);
    assert_eq!(changed.streaming_overlap, 77);
    assert_eq!(changed.threshold, base.threshold);
    assert_eq!(changed.min_tokens_per_chunk, base.min_tokens_per_chunk);
    assert_eq!(changed.streaming_threshold, base.streaming_threshold);
}
