//! Configuration types and constants for parallel encoding.

use vstd::prelude::*;

verus! {

// =============================================================================
// CONSTANTS - Thresholds
// =============================================================================

/// Default minimum input length (in bytes) before parallel encoding is used.
pub const DEFAULT_PARALLEL_THRESHOLD: usize = 10_000;

/// Threshold for cache-block streaming (1MB+ inputs benefit from streaming).
pub const DEFAULT_STREAMING_THRESHOLD: usize = 1048576;

// =============================================================================
// CONSTANTS - Chunk/Block Sizes
// =============================================================================

/// Default block size for cache-block streaming (8KB).
pub const DEFAULT_BLOCK_SIZE: usize = 8192;

/// Default overlap size for cache-block streaming (1KB handles most token boundaries).
pub const DEFAULT_STREAMING_OVERLAP: usize = 1024;

/// Minimum tokens per chunk for recursive splitting.
/// Below this, parallel overhead dominates encoding time.
pub const DEFAULT_MIN_TOKENS_PER_CHUNK: usize = 10_000;

// =============================================================================
// CONSTANTS - Algorithm Parameters
// =============================================================================

/// Safety margin beyond the maximum token length for overlap.
pub const SAFETY_MARGIN: usize = 64;

/// Estimated bytes per token, in thousandths of a byte (4.5 bytes: conservative
/// for English + BPE/WordPiece). Used to estimate token count from input size.
pub const DEFAULT_BYTES_PER_TOKEN_MILLI: usize = 4500;

/// Maximum recursion depth (safety cap).
/// Depth 4 = 16 chunks maximum.
pub const MAX_RECURSION_DEPTH: usize = 4;

// =============================================================================
// CONFIGURATION TYPES
// =============================================================================

/// Parallel encoding mode selection.
#[derive(Debug, Clone, Copy, PartialEq, Eq, Structural)]
pub enum ParallelMode {
    /// Recursive splitting - best for 50KB-4MB inputs
    Recursive,
    /// Cache-block streaming - optimized for large inputs with better cache locality
    Streaming,
    /// Auto-select based on input size
    Auto,
}

impl Default for ParallelMode {
    fn default() -> (r: Self)
        ensures
            r == ParallelMode::Auto,
    {
        ParallelMode::Auto
    }
}

/// Configuration for parallel single-input encoding.
#[derive(Debug, Clone, Copy)]
pub struct ParallelConfig {
    /// Minimum input length in bytes to trigger parallel encoding
    pub threshold: usize,
    /// Additional safety margin in bytes beyond max token length
    pub safety_margin: usize,
    /// Minimum tokens per chunk for recursive splitting (default: 10,000)
    pub min_tokens_per_chunk: usize,
    /// Estimated bytes per token for depth calculation, in thousandths of a
    /// byte (default: 4500, that is 4.5 bytes)
    pub bytes_per_token_milli: usize,
    /// Maximum recursion depth (0 = auto-detect based on cores, or explicit limit)
    pub max_depth: usize,
    /// Parallel encoding mode (Auto, Recursive, or Streaming)
    pub mode: ParallelMode,
    /// Block size for streaming mode (default: 8KB)
    pub block_size: usize,
    /// Overlap size for streaming mode (default: 1KB)
    pub streaming_overlap: usize,
    /// Threshold for auto-switching to streaming mode (default: 1MB)
    pub streaming_threshold: usize,
}

/// The configuration that `ParallelConfig::default` gives.
pub open spec fn default_config() -> ParallelConfig {
    ParallelConfig {
        threshold: DEFAULT_PARALLEL_THRESHOLD,
        safety_margin: SAFETY_MARGIN,
        min_tokens_per_chunk: DEFAULT_MIN_TOKENS_PER_CHUNK,
        bytes_per_token_milli: DEFAULT_BYTES_PER_TOKEN_MILLI,
        max_depth: 0,
        mode: ParallelMode::Auto,
        block_size: DEFAULT_BLOCK_SIZE,
        streaming_overlap: DEFAULT_STREAMING_OVERLAP,
        streaming_threshold: DEFAULT_STREAMING_THRESHOLD,
    }
}

impl Default for ParallelConfig {
    fn default() -> (r: Self)
        ensures
            r == default_config(),
    {
        ParallelConfig {
            threshold: DEFAULT_PARALLEL_THRESHOLD,
            safety_margin: SAFETY_MARGIN,
            min_tokens_per_chunk: DEFAULT_MIN_TOKENS_PER_CHUNK,
            bytes_per_token_milli: DEFAULT_BYTES_PER_TOKEN_MILLI,
            max_depth: 0,  // Auto-detect
            mode: ParallelMode::Auto,
            block_size: DEFAULT_BLOCK_SIZE,
            streaming_overlap: DEFAULT_STREAMING_OVERLAP,
            streaming_threshold: DEFAULT_STREAMING_THRESHOLD,
        }
    }
}

impl ParallelConfig {
    /// Create a config optimized for streaming mode with cache locality.
    pub fn streaming() -> (r: Self)
        ensures
            r == (ParallelConfig { mode: ParallelMode::Streaming, ..default_config() }),
    {
        let mut c = Self::default();
        c.mode = ParallelMode::Streaming;
        c
    }

    /// Create a config that forces recursive mode.
    pub fn recursive() -> (r: Self)
        ensures
            r == (ParallelConfig { mode: ParallelMode::Recursive, ..default_config() }),
    {
        let mut c = Self::default();
        c.mode = ParallelMode::Recursive;
        c
    }

    /// Set the block size for streaming mode.
    pub fn with_block_size(self, block_size: usize) -> (r: Self)
        ensures
            r == (ParallelConfig { block_size, ..self }),
    {
        let mut c = self;
        c.block_size = block_size;
        c
    }

    /// Set the overlap size for streaming mode.
    pub fn with_streaming_overlap(self, overlap: usize) -> (r: Self)
        ensures
            r == (ParallelConfig { streaming_overlap: overlap, ..self }),
    {
        let mut c = self;
        c.streaming_overlap = overlap;
        c
    }
}

} // verus!
