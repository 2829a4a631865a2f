//! Engine, column family, read and write options.

use forst_rs::config;
use forst_rs::config::{
    CfOptions, EngineOptions, LevelCapacity, LevelMultiplier, ReadOptions, ReadTier, WriteOptions,
};
use forst_rs::error::ForstResult;
use forst_rs::types::{CompressionType, MAX_LEVELS};

const MAX_LEVEL_BASE: usize = config::MAX_LEVEL_BASE as usize;
const MAX_WRITE_BUFFER_SIZE: usize = config::MAX_WRITE_BUFFER_SIZE as usize;
const MAX_BLOCK_CACHE_SIZE: usize = config::MAX_BLOCK_CACHE_SIZE as usize;
const MAX_BACKGROUND_THREADS: usize = config::MAX_BACKGROUND_THREADS as usize;
const MAX_BLOOM_BITS_PER_KEY: usize = config::MAX_BLOOM_BITS_PER_KEY as usize;
const MAX_DB_PATH_LEN: usize = config::MAX_DB_PATH_LEN as usize;
const MIN_BLOCK_SIZE: usize = config::MIN_BLOCK_SIZE as usize;
const MAX_BLOCK_SIZE: usize = config::MAX_BLOCK_SIZE as usize;
const MAX_TARGET_FILE_SIZE_BASE: usize = config::MAX_TARGET_FILE_SIZE_BASE as usize;
const MIN_TARGET_FILE_SIZE_BASE: usize = config::MIN_TARGET_FILE_SIZE_BASE as usize;
const MIN_WRITE_BUFFER_SIZE: usize = config::MIN_WRITE_BUFFER_SIZE as usize;
const MIN_LEVEL_BASE: usize = config::MIN_LEVEL_BASE as usize;
const MAX_WRITE_BUFFER_NUMBER: usize = config::MAX_WRITE_BUFFER_NUMBER as usize;
const MAX_LEVEL_MULTIPLIER: f64 = 1024.0;

fn multiplier(v: f64) -> LevelMultiplier {
    LevelMultiplier(v.to_bits())
}

fn capacity(o: &EngineOptions) -> LevelCapacity {
    let m = f64::from_bits(o.max_bytes_for_level_multiplier.0);
    let projected =
        (o.max_bytes_for_level_base as f64) * m.powi(o.num_levels.saturating_sub(1) as i32);
    let half = (usize::MAX as f64) / 2.0;
    LevelCapacity {
        saturates: !projected.is_finite() || projected > half,
        multiplier_text: format!("{}", m),
        projected_text: format!("{:e}", projected),
        half_text: format!("{:e}", half),
    }
}

fn check(o: &EngineOptions) -> ForstResult<()> {
    o.validate(&capacity(o))
}

#[test]
fn test_engine_options_default_write_buffer_size() {
    let opts = EngineOptions::default();
    assert_eq!(opts.write_buffer_size, 64 * 1024 * 1024);
}

#[test]
fn test_engine_options_default_max_write_buffer_number() {
    let opts = EngineOptions::default();
    assert_eq!(opts.max_write_buffer_number, 3);
}

#[test]
fn test_engine_options_default_target_file_size_base() {
    let opts = EngineOptions::default();
    assert_eq!(opts.target_file_size_base, 64 * 1024 * 1024);
}

#[test]
fn test_engine_options_default_level_settings() {
    let opts = EngineOptions::default();
    assert_eq!(opts.max_bytes_for_level_base, 256 * 1024 * 1024);
    assert!((f64::from_bits(opts.max_bytes_for_level_multiplier.0) - 10.0).abs() < f64::EPSILON);
    assert_eq!(opts.num_levels, 7);
}

#[test]
fn test_engine_options_default_background_threads() {
    let opts = EngineOptions::default();
    assert_eq!(opts.max_background_compactions, 4);
    assert_eq!(opts.max_background_flushes, 2);
}

#[test]
fn test_engine_options_default_block_cache_and_size() {
    let opts = EngineOptions::default();
    assert_eq!(opts.block_cache_size, 256 * 1024 * 1024);
    assert_eq!(opts.block_size, 64 * 1024);
}

#[test]
fn test_engine_options_default_bloom_compression_stats() {
    let opts = EngineOptions::default();
    assert_eq!(opts.bloom_bits_per_key, 10);
    assert_eq!(opts.compression, CompressionType::Lz4);
    assert!(opts.enable_statistics);
}

#[test]
fn test_engine_options_default_db_path_empty() {
    let opts = EngineOptions::default();
    assert!(opts.db_path.is_empty());
}

#[test]
fn test_builder_sets_all_fields() {
    let opts = EngineOptions::builder()
        .db_path("/tmp/test-db")
        .write_buffer_size(128 * 1024 * 1024)
        .max_write_buffer_number(5)
        .target_file_size_base(32 * 1024 * 1024)
        .max_bytes_for_level_base(512 * 1024 * 1024)
        .max_bytes_for_level_multiplier(multiplier(8.0))
        .num_levels(5)
        .max_background_compactions(8)
        .max_background_flushes(4)
        .block_cache_size(512 * 1024 * 1024)
        .block_size(32 * 1024)
        .bloom_bits_per_key(16)
        .compression(CompressionType::Zstd)
        .enable_statistics(false)
        .build();

    assert_eq!(opts.db_path, "/tmp/test-db");
    assert_eq!(opts.write_buffer_size, 128 * 1024 * 1024);
    assert_eq!(opts.max_write_buffer_number, 5);
    assert_eq!(opts.target_file_size_base, 32 * 1024 * 1024);
    assert_eq!(opts.max_bytes_for_level_base, 512 * 1024 * 1024);
    assert!((f64::from_bits(opts.max_bytes_for_level_multiplier.0) - 8.0).abs() < f64::EPSILON);
    assert_eq!(opts.num_levels, 5);
    assert_eq!(opts.max_background_compactions, 8);
    assert_eq!(opts.max_background_flushes, 4);
    assert_eq!(opts.block_cache_size, 512 * 1024 * 1024);
    assert_eq!(opts.block_size, 32 * 1024);
    assert_eq!(opts.bloom_bits_per_key, 16);
    assert_eq!(opts.compression, CompressionType::Zstd);
    assert!(!opts.enable_statistics);
}

#[test]
fn test_builder_defaults_match_engine_options_default() {
    let from_builder = EngineOptions::builder().build();
    let from_default = EngineOptions::default();

    assert_eq!(
        from_builder.write_buffer_size,
        from_default.write_buffer_size
    );
    assert_eq!(
        from_builder.max_write_buffer_number,
        from_default.max_write_buffer_number
    );
    assert_eq!(
        from_builder.target_file_size_base,
        from_default.target_file_size_base
    );
    assert_eq!(
        from_builder.max_bytes_for_level_base,
        from_default.max_bytes_for_level_base
    );
    assert_eq!(from_builder.num_levels, from_default.num_levels);
    assert_eq!(
        from_builder.max_background_compactions,
        from_default.max_background_compactions
    );
    assert_eq!(
        from_builder.max_background_flushes,
        from_default.max_background_flushes
    );
    assert_eq!(from_builder.block_cache_size, from_default.block_cache_size);
    assert_eq!(from_builder.block_size, from_default.block_size);
    assert_eq!(
        from_builder.bloom_bits_per_key,
        from_default.bloom_bits_per_key
    );
    assert_eq!(from_builder.compression, from_default.compression);
    assert_eq!(
        from_builder.enable_statistics,
        from_default.enable_statistics
    );
    assert_eq!(from_builder.db_path, from_default.db_path);
}

#[test]
fn test_builder_accepts_string_and_str_for_db_path() {
    let opts1 = EngineOptions::builder().db_path("literal").build();
    let opts2 = EngineOptions::builder()
        .db_path(String::from("owned"))
        .build();
    assert_eq!(opts1.db_path, "literal");
    assert_eq!(opts2.db_path, "owned");
}

#[test]
fn test_validate_valid_config() {
    let opts = EngineOptions::builder().db_path("/tmp/valid").build();
    assert!(check(&opts).is_ok());
}

#[test]
fn test_validate_fails_for_empty_db_path() {
    let opts = EngineOptions::default();
    let err = check(&opts).unwrap_err();
    assert!(err.is_invalid_argument());
    assert!(err.to_string().contains("db_path"));
}

#[test]
fn test_validate_fails_for_zero_num_levels() {
    let opts = EngineOptions::builder()
        .db_path("/tmp/db")
        .num_levels(0)
        .build();
    let err = check(&opts).unwrap_err();
    assert!(err.is_invalid_argument());
    assert!(err.to_string().contains("num_levels"));
}

#[test]
fn test_validate_fails_for_num_levels_exceeding_max() {
    let opts = EngineOptions::builder()
        .db_path("/tmp/db")
        .num_levels(MAX_LEVELS + 1)
        .build();
    let err = check(&opts).unwrap_err();
    assert!(err.is_invalid_argument());
    assert!(err.to_string().contains("num_levels"));
}

#[test]
fn test_validate_rejects_nan_multiplier() {
    let opts = EngineOptions::builder()
        .db_path("/tmp/db")
        .max_bytes_for_level_multiplier(multiplier(f64::NAN))
        .build();
    let err = check(&opts).unwrap_err();
    assert!(err.is_invalid_argument());
    assert!(err.to_string().contains("max_bytes_for_level_multiplier"));
}

#[test]
fn test_validate_rejects_inf_multiplier() {
    let opts = EngineOptions::builder()
        .db_path("/tmp/db")
        .max_bytes_for_level_multiplier(multiplier(f64::INFINITY))
        .build();
    assert!(check(&opts).is_err());

    let opts = EngineOptions::builder()
        .db_path("/tmp/db")
        .max_bytes_for_level_multiplier(multiplier(f64::NEG_INFINITY))
        .build();
    assert!(check(&opts).is_err());
}

#[test]
fn test_validate_rejects_multiplier_le_one() {
    for v in [0.0f64, 1.0, -1.0, 0.5] {
        let opts = EngineOptions::builder()
            .db_path("/tmp/db")
            .max_bytes_for_level_multiplier(multiplier(v))
            .build();
        assert!(
            check(&opts).is_err(),
            "multiplier={} should be rejected",
            v
        );
    }
}

#[test]
fn test_validate_rejects_oversized_level_base() {
    let opts = EngineOptions::builder()
        .db_path("/tmp/db")
        .max_bytes_for_level_base(MAX_LEVEL_BASE + 1)
        .build();
    assert!(check(&opts).is_err());
    let opts = EngineOptions::builder()
        .db_path("/tmp/db")
        .max_bytes_for_level_base(usize::MAX)
        .build();
    assert!(check(&opts).is_err());
    let opts = EngineOptions::builder()
        .db_path("/tmp/db")
        .max_bytes_for_level_base(MAX_LEVEL_BASE)
        .max_bytes_for_level_multiplier(multiplier(1.001))
        .num_levels(2)
        .build();
    assert!(check(&opts).is_ok());
}

#[test]
fn test_validate_rejects_oversized_bloom_bits_per_key() {
    let opts = EngineOptions::builder()
        .db_path("/tmp/db")
        .bloom_bits_per_key(MAX_BLOOM_BITS_PER_KEY + 1)
        .build();
    assert!(check(&opts).is_err());
    let opts = EngineOptions::builder()
        .db_path("/tmp/db")
        .bloom_bits_per_key(MAX_BLOOM_BITS_PER_KEY)
        .build();
    assert!(check(&opts).is_ok());
}

#[test]
fn test_try_build_validates_runs_caps() {
    let opts = EngineOptions::builder()
        .db_path("/tmp/db")
        .write_buffer_size(usize::MAX)
        .build();
    assert_eq!(opts.write_buffer_size, usize::MAX);
    let res = EngineOptions::builder()
        .db_path("/tmp/db")
        .write_buffer_size(usize::MAX)
        .try_build(&capacity(&EngineOptions::default()));
    assert!(res.is_err());
    let opts = EngineOptions::builder()
        .db_path("/tmp/db")
        .try_build(&capacity(&EngineOptions::default()))
        .unwrap();
    assert_eq!(opts.db_path, "/tmp/db");
}

#[test]
fn test_validate_db_path_length_and_nul() {
    let long_path: String = "/".repeat(MAX_DB_PATH_LEN + 1);
    let opts = EngineOptions::builder().db_path(long_path).build();
    assert!(check(&opts).is_err());
    let path_at_cap: String = "/".repeat(MAX_DB_PATH_LEN);
    let opts = EngineOptions::builder().db_path(path_at_cap).build();
    assert!(check(&opts).is_ok());
    let opts = EngineOptions::builder()
        .db_path("/safe/path\0/../../etc/passwd")
        .build();
    assert!(check(&opts).is_err());
}

#[test]
fn test_validate_rejects_zero_lower_bounds() {
    for builder_fn in [
        EngineOptions::builder()
            .db_path("/tmp/db")
            .max_bytes_for_level_base(0),
        EngineOptions::builder()
            .db_path("/tmp/db")
            .target_file_size_base(0),
        EngineOptions::builder()
            .db_path("/tmp/db")
            .max_background_compactions(0),
        EngineOptions::builder()
            .db_path("/tmp/db")
            .max_background_flushes(0),
        EngineOptions::builder()
            .db_path("/tmp/db")
            .max_write_buffer_number(0),
    ] {
        let opts = builder_fn.build();
        assert!(
            check(&opts).is_err(),
            "zero value should be rejected, got: {:?}",
            opts
        );
    }
}

#[test]
fn test_validate_block_size_bounds() {
    let opts = EngineOptions::builder()
        .db_path("/tmp/db")
        .block_size(MIN_BLOCK_SIZE - 1)
        .build();
    assert!(check(&opts).is_err());

    let opts = EngineOptions::builder()
        .db_path("/tmp/db")
        .block_size(MAX_BLOCK_SIZE + 1)
        .build();
    assert!(check(&opts).is_err());

    let opts = EngineOptions::builder()
        .db_path("/tmp/db")
        .block_size(MIN_BLOCK_SIZE)
        .build();
    assert!(check(&opts).is_ok());
    let opts = EngineOptions::builder()
        .db_path("/tmp/db")
        .block_size(MAX_BLOCK_SIZE)
        .build();
    assert!(check(&opts).is_ok());
}

#[test]
fn test_validate_rejects_oversized_target_file_size_base() {
    let opts = EngineOptions::builder()
        .db_path("/tmp/db")
        .target_file_size_base(MAX_TARGET_FILE_SIZE_BASE + 1)
        .build();
    assert!(check(&opts).is_err());
    let opts = EngineOptions::builder()
        .db_path("/tmp/db")
        .target_file_size_base(MAX_TARGET_FILE_SIZE_BASE)
        .build();
    assert!(check(&opts).is_ok());
}

#[test]
fn test_validate_rejects_undersized_write_buffer_size() {
    let opts = EngineOptions::builder()
        .db_path("/tmp/db")
        .write_buffer_size(1)
        .build();
    assert!(check(&opts).is_err());
    let opts = EngineOptions::builder()
        .db_path("/tmp/db")
        .write_buffer_size(MIN_WRITE_BUFFER_SIZE - 1)
        .build();
    assert!(check(&opts).is_err());
    let opts = EngineOptions::builder()
        .db_path("/tmp/db")
        .write_buffer_size(MIN_WRITE_BUFFER_SIZE)
        .build();
    assert!(check(&opts).is_ok());
}

#[test]
fn test_validate_rejects_undersized_max_bytes_for_level_base() {
    let opts = EngineOptions::builder()
        .db_path("/tmp/db")
        .max_bytes_for_level_base(1)
        .build();
    assert!(check(&opts).is_err());
    let opts = EngineOptions::builder()
        .db_path("/tmp/db")
        .max_bytes_for_level_base(MIN_LEVEL_BASE - 1)
        .build();
    assert!(check(&opts).is_err());
    let opts = EngineOptions::builder()
        .db_path("/tmp/db")
        .max_bytes_for_level_base(MIN_LEVEL_BASE)
        .build();
    assert!(check(&opts).is_ok());
}

#[test]
fn test_validate_rejects_undersized_target_file_size_base() {
    let opts = EngineOptions::builder()
        .db_path("/tmp/db")
        .target_file_size_base(1)
        .build();
    assert!(check(&opts).is_err());
    let opts = EngineOptions::builder()
        .db_path("/tmp/db")
        .target_file_size_base(MIN_TARGET_FILE_SIZE_BASE - 1)
        .build();
    assert!(check(&opts).is_err());
    let opts = EngineOptions::builder()
        .db_path("/tmp/db")
        .target_file_size_base(MIN_TARGET_FILE_SIZE_BASE)
        .build();
    assert!(check(&opts).is_ok());
    let opts = EngineOptions::builder().db_path("/tmp/db").build();
    assert!(check(&opts).is_ok());
}

#[test]
fn test_validate_rejects_oversized_max_write_buffer_number() {
    let opts = EngineOptions::builder()
        .db_path("/tmp/db")
        .max_write_buffer_number(MAX_WRITE_BUFFER_NUMBER + 1)
        .build();
    assert!(check(&opts).is_err());
    let opts = EngineOptions::builder()
        .db_path("/tmp/db")
        .max_write_buffer_number(MAX_WRITE_BUFFER_NUMBER)
        .build();
    assert!(check(&opts).is_ok());
}

#[test]
fn test_validate_rejects_oversized_resource_fields() {
    let opts = EngineOptions::builder()
        .db_path("/tmp/db")
        .write_buffer_size(MAX_WRITE_BUFFER_SIZE + 1)
        .build();
    assert!(check(&opts).is_err());

    let opts = EngineOptions::builder()
        .db_path("/tmp/db")
        .block_cache_size(MAX_BLOCK_CACHE_SIZE + 1)
        .build();
    assert!(check(&opts).is_err());

    let opts = EngineOptions::builder()
        .db_path("/tmp/db")
        .max_background_compactions(MAX_BACKGROUND_THREADS + 1)
        .build();
    assert!(check(&opts).is_err());

    let opts = EngineOptions::builder()
        .db_path("/tmp/db")
        .max_background_flushes(MAX_BACKGROUND_THREADS + 1)
        .build();
    assert!(check(&opts).is_err());

    let opts = EngineOptions::builder()
        .db_path("/tmp/db")
        .write_buffer_size(MAX_WRITE_BUFFER_SIZE)
        .block_cache_size(MAX_BLOCK_CACHE_SIZE)
        .max_background_compactions(MAX_BACKGROUND_THREADS)
        .max_background_flushes(MAX_BACKGROUND_THREADS)
        .build();
    assert!(check(&opts).is_ok());
}

#[test]
fn test_validate_rejects_joint_memtable_oom() {
    let opts = EngineOptions::builder()
        .db_path("/tmp/db")
        .write_buffer_size(MAX_WRITE_BUFFER_SIZE)
        .max_write_buffer_number(MAX_WRITE_BUFFER_NUMBER)
        .build();
    assert!(check(&opts).is_err());
    let opts = EngineOptions::builder().db_path("/tmp/db").build();
    assert!(check(&opts).is_ok());
    let opts = EngineOptions::builder()
        .db_path("/tmp/db")
        .write_buffer_size(MAX_WRITE_BUFFER_SIZE)
        .max_write_buffer_number(8)
        .build();
    assert!(check(&opts).is_ok());
    let opts = EngineOptions::builder()
        .db_path("/tmp/db")
        .write_buffer_size(MAX_WRITE_BUFFER_SIZE)
        .max_write_buffer_number(9)
        .build();
    assert!(check(&opts).is_err());
}

#[test]
fn test_validate_rejects_joint_bloom_oom() {
    let opts = EngineOptions::builder()
        .db_path("/tmp/db")
        .bloom_bits_per_key(MAX_BLOOM_BITS_PER_KEY)
        .target_file_size_base(MAX_TARGET_FILE_SIZE_BASE)
        .build();
    assert!(check(&opts).is_err());
    let opts = EngineOptions::builder().db_path("/tmp/db").build();
    assert!(check(&opts).is_ok());
}

#[test]
fn test_validate_rejects_joint_product_saturation() {
    let opts = EngineOptions::builder()
        .db_path("/tmp/db")
        .max_bytes_for_level_base(MAX_LEVEL_BASE)
        .max_bytes_for_level_multiplier(multiplier(MAX_LEVEL_MULTIPLIER))
        .num_levels(7)
        .build();
    assert!(
        check(&opts).is_err(),
        "joint maxima should be rejected (would saturate `usize` downstream)"
    );

    let opts = EngineOptions::builder()
        .db_path("/tmp/db")
        .max_bytes_for_level_base(MAX_LEVEL_BASE)
        .max_bytes_for_level_multiplier(multiplier(8.0))
        .num_levels(7)
        .build();
    assert!(
        check(&opts).is_err(),
        "base=1PiB, mul=8, levels=7 saturates usize"
    );

    let opts = EngineOptions::builder().db_path("/tmp/db").build();
    assert!(check(&opts).is_ok(), "default config should validate");
}

#[test]
fn test_validate_rejects_multiplier_above_max() {
    for v in [
        MAX_LEVEL_MULTIPLIER + 1.0,
        1.0e10,
        1.0e100,
        1.0e308,
        f64::MAX,
    ] {
        let opts = EngineOptions::builder()
            .db_path("/tmp/db")
            .max_bytes_for_level_multiplier(multiplier(v))
            .build();
        assert!(
            check(&opts).is_err(),
            "multiplier={} should be rejected (would saturate downstream level capacities to usize::MAX)",
            v
        );
    }
    let opts = EngineOptions::builder()
        .db_path("/tmp/db")
        .max_bytes_for_level_multiplier(multiplier(MAX_LEVEL_MULTIPLIER))
        .max_bytes_for_level_base(MIN_LEVEL_BASE)
        .num_levels(2)
        .build();
    assert!(
        check(&opts).is_ok(),
        "MAX_LEVEL_MULTIPLIER itself is accepted with small base+levels"
    );
}

#[test]
fn test_validate_fails_for_zero_write_buffer_size() {
    let opts = EngineOptions::builder()
        .db_path("/tmp/db")
        .write_buffer_size(0)
        .build();
    let err = check(&opts).unwrap_err();
    assert!(err.is_invalid_argument());
    assert!(err.to_string().contains("write_buffer_size"));
}

#[test]
fn test_validate_fails_for_zero_block_size() {
    let opts = EngineOptions::builder()
        .db_path("/tmp/db")
        .block_size(0)
        .build();
    let err = check(&opts).unwrap_err();
    assert!(err.is_invalid_argument());
    assert!(err.to_string().contains("block_size"));
}

#[test]
fn test_cf_options_default_all_none() {
    let cf = CfOptions::default();
    assert!(cf.write_buffer_size.is_none());
    assert!(cf.max_write_buffer_number.is_none());
    assert!(cf.target_file_size_base.is_none());
    assert!(cf.compression.is_none());
    assert!(cf.merge_operator.is_none());
    assert!(cf.ttl_seconds.is_none());
}

#[test]
fn test_cf_options_effective_values_fallback_to_engine() {
    let engine = EngineOptions::default();
    let cf = CfOptions::default();

    assert_eq!(
        cf.effective_write_buffer_size(&engine),
        engine.write_buffer_size
    );
    assert_eq!(
        cf.effective_max_write_buffer_number(&engine),
        engine.max_write_buffer_number
    );
    assert_eq!(
        cf.effective_target_file_size_base(&engine),
        engine.target_file_size_base
    );
    assert_eq!(cf.effective_compression(&engine), engine.compression);
}

#[test]
fn test_cf_options_effective_values_override_engine() {
    let engine = EngineOptions::default();
    let cf = CfOptions {
        write_buffer_size: Some(32 * 1024 * 1024),
        max_write_buffer_number: Some(6),
        target_file_size_base: Some(16 * 1024 * 1024),
        compression: Some(CompressionType::Zstd),
        merge_operator: Some("my_merge".to_string()),
        ttl_seconds: Some(3600),
    };

    assert_eq!(cf.effective_write_buffer_size(&engine), 32 * 1024 * 1024);
    assert_eq!(cf.effective_max_write_buffer_number(&engine), 6);
    assert_eq!(
        cf.effective_target_file_size_base(&engine),
        16 * 1024 * 1024
    );
    assert_eq!(cf.effective_compression(&engine), CompressionType::Zstd);
    assert_eq!(cf.merge_operator.as_deref(), Some("my_merge"));
    assert_eq!(cf.ttl_seconds, Some(3600));
}

#[test]
fn test_read_options_defaults() {
    let opts = ReadOptions::default();
    assert!(!opts.prefix_same_as_start);
    assert!(!opts.total_order_seek);
    assert!(opts.verify_checksums);
    assert!(opts.fill_cache);
    assert_eq!(opts.read_tier, ReadTier::ReadBoth);
}

#[test]
fn test_read_tier_default_is_read_both() {
    assert_eq!(ReadTier::default(), ReadTier::ReadBoth);
}

#[test]
fn test_read_tier_equality() {
    assert_eq!(ReadTier::ReadBoth, ReadTier::ReadBoth);
    assert_eq!(ReadTier::BlockCacheOnly, ReadTier::BlockCacheOnly);
    assert_ne!(ReadTier::ReadBoth, ReadTier::BlockCacheOnly);
}

#[test]
fn test_write_options_defaults() {
    let opts = WriteOptions::default();
    assert!(!opts.sync);
    assert!(!opts.disable_wal);
}

#[test]
fn test_write_options_custom() {
    let opts = WriteOptions {
        sync: true,
        disable_wal: true,
    };
    assert!(opts.sync);
    assert!(opts.disable_wal);
}

#[test]
fn test_engine_options_clone() {
    let original = EngineOptions::builder()
        .db_path("/tmp/clone-test")
        .write_buffer_size(42)
        .build();
    let cloned = original.clone();
    assert_eq!(cloned.db_path, "/tmp/clone-test");
    assert_eq!(cloned.write_buffer_size, 42);
}

#[test]
fn test_engine_options_debug() {
    let opts = EngineOptions::builder().db_path("/tmp/debug").build();
    let debug = format!("{:?}", opts);
    assert!(debug.contains("EngineOptions"));
    assert!(debug.contains("/tmp/debug"));
}

#[test]
fn test_cf_options_validate_rejects_under_floor_overrides() {
    let engine = EngineOptions::builder().db_path("/tmp/db").build();
    let cf = CfOptions {
        write_buffer_size: Some(1),
        ..Default::default()
    };
    assert!(cf.validate(&engine).is_err());
    let cf = CfOptions {
        target_file_size_base: Some(1),
        ..Default::default()
    };
    assert!(cf.validate(&engine).is_err());
    let cf = CfOptions {
        max_write_buffer_number: Some(0),
        ..Default::default()
    };
    assert!(cf.validate(&engine).is_err());
    let cf = CfOptions::default();
    assert!(cf.validate(&engine).is_ok());
    let cf = CfOptions {
        write_buffer_size: Some(MIN_WRITE_BUFFER_SIZE),
        target_file_size_base: Some(MIN_TARGET_FILE_SIZE_BASE),
        max_write_buffer_number: Some(1),
        ..Default::default()
    };
    assert!(cf.validate(&engine).is_ok());
}

#[test]
fn test_cf_options_validate_rejects_over_cap_overrides() {
    let engine = EngineOptions::builder().db_path("/tmp/db").build();
    let cf = CfOptions {
        write_buffer_size: Some(MAX_WRITE_BUFFER_SIZE + 1),
        ..Default::default()
    };
    assert!(cf.validate(&engine).is_err());
    let cf = CfOptions {
        write_buffer_size: Some(MAX_WRITE_BUFFER_SIZE),
        max_write_buffer_number: Some(MAX_WRITE_BUFFER_NUMBER),
        ..Default::default()
    };
    assert!(cf.validate(&engine).is_err());
}

#[test]
fn test_cf_options_validate_rejects_joint_bloom_oom() {
    let engine = EngineOptions::builder()
        .db_path("/tmp/db")
        .bloom_bits_per_key(MAX_BLOOM_BITS_PER_KEY)
        .build();
    let cf = CfOptions {
        target_file_size_base: Some(MAX_TARGET_FILE_SIZE_BASE),
        ..Default::default()
    };
    assert!(cf.validate(&engine).is_err());
}

#[test]
fn largest_multiplier_bits_are_those_of_1024() {
    assert_eq!(config::MAX_LEVEL_MULTIPLIER_BITS, MAX_LEVEL_MULTIPLIER.to_bits());
    assert_eq!(config::ONE_BITS, 1.0f64.to_bits());
}

#[test]
fn saturating_capacity_message_names_the_parts() {
    let opts = EngineOptions::builder()
        .db_path("/tmp/db")
        .max_bytes_for_level_base(MAX_LEVEL_BASE)
        .max_bytes_for_level_multiplier(multiplier(8.0))
        .num_levels(7)
        .build();
    let text = check(&opts).unwrap_err().to_string();
    assert!(text.contains("joint level-capacity product saturates"));
    assert!(text.contains("base=1125899906842624"));
    assert!(text.contains("multiplier=8"));
    assert!(text.contains("num_levels=7"));
}

#[test]
fn the_first_fault_is_the_one_reported() {
    let opts = EngineOptions::builder().num_levels(0).write_buffer_size(0).build();
    let text = check(&opts).unwrap_err().to_string();
    assert_eq!(text, "Invalid argument: db_path must not be empty");
    let opts = EngineOptions::builder()
        .db_path("/tmp/db")
        .num_levels(0)
        .write_buffer_size(0)
        .build();
    let text = check(&opts).unwrap_err().to_string();
    assert_eq!(text, "Invalid argument: num_levels must be in 1..=7, got 0");
}
