//! The settings of the storage engine.
use crate::error::duration_of_secs;
use vstd::arithmetic::power::pow;
use vstd::prelude::*;

verus! {

/// How the blocks of a table are compressed.
#[derive(Debug, Clone, Copy, PartialEq, Eq, Structural)]
pub enum CompressionType {
    Uncompressed,
    Lz4,
    Zstd,
}

impl Default for CompressionType {
    fn default() -> (r: Self)
        ensures
            r == CompressionType::Lz4,
    {
        Self::Lz4
    }
}

/// A rate, as the 64 bits of its IEEE 754 double-precision number.
#[derive(Debug, Clone, Copy, PartialEq, Eq, Structural)]
pub struct Rate {
    pub bits: u64,
}

impl Rate {
    /// Whether the number lies between zero and one.
    ///
    /// The bits of positive numbers are ordered as the numbers are, up to those of one. The only
    /// other number in question is the negative zero.
    pub open spec fn in_unit_range(self) -> bool {
        self.bits <= 0x3FF0_0000_0000_0000 || self.bits == 0x8000_0000_0000_0000
    }

    /// Whether the number lies between zero and one.
    pub fn is_in_unit_range(&self) -> (r: bool)
        ensures
            r == self.in_unit_range(),
    {
        self.bits <= 0x3FF0_0000_0000_0000 || self.bits == 0x8000_0000_0000_0000
    }
}

/// The bits of the rate of one in a hundred.
pub const ONE_PERCENT_BITS: u64 = 0x3F84_7AE1_47AE_147B;

/// The settings of the storage engine.
#[derive(Debug)]
pub struct Config {
    /// Bytes that the memtable holds before it is replaced.
    pub memtable_size_threshold: usize,
    /// Full memtables that are kept in memory.
    pub max_memtables: usize,
    /// How many times larger each level is than the one above it.
    pub level_size_multiplier: usize,
    /// The number of levels.
    pub max_levels: usize,
    /// Bytes of a table of the first level.
    pub l0_sstable_size: usize,
    /// Tables of the first level that start a compaction.
    pub l0_compaction_threshold: usize,
    /// How blocks are compressed.
    pub compression: CompressionType,
    /// How hard blocks are compressed.
    pub compression_level: i32,
    /// Whether tables have Bloom filters.
    pub enable_bloom_filters: bool,
    /// The rate of false positives that Bloom filters are sized for.
    pub bloom_false_positive_rate: Rate,
    /// Bytes of the write buffer.
    pub write_buffer_size: usize,
    /// Operations between two syncs of the write-ahead log.
    pub wal_sync_interval: usize,
    /// Bytes of the write-ahead log.
    pub max_wal_size: usize,
    /// Threads for compaction.
    pub compaction_threads: usize,
    /// Time between two compactions.
    pub compaction_interval: std::time::Duration,
    /// Whether compaction runs.
    pub enable_compaction: bool,
    /// Compactions that may run at once.
    pub max_concurrent_compactions: usize,
    /// Whether metrics are collected.
    pub enable_metrics: bool,
    /// Bytes of the cache.
    pub cache_size: usize,
    /// Files that may be open at once.
    pub max_open_files: usize,
    /// Whether tables are mapped into memory.
    pub use_mmap: bool,
    /// Whether checksums are verified.
    pub verify_checksums: bool,
    /// Whether additional checks are made.
    pub paranoid_checks: bool,
}

impl Clone for Config {
    fn clone(&self) -> (r: Self)
        ensures
            r == *self,
    {
        Config {
            memtable_size_threshold: self.memtable_size_threshold,
            max_memtables: self.max_memtables,
            level_size_multiplier: self.level_size_multiplier,
            max_levels: self.max_levels,
            l0_sstable_size: self.l0_sstable_size,
            l0_compaction_threshold: self.l0_compaction_threshold,
            compression: self.compression,
            compression_level: self.compression_level,
            enable_bloom_filters: self.enable_bloom_filters,
            bloom_false_positive_rate: self.bloom_false_positive_rate,
            write_buffer_size: self.write_buffer_size,
            wal_sync_interval: self.wal_sync_interval,
            max_wal_size: self.max_wal_size,
            compaction_threads: self.compaction_threads,
            compaction_interval: self.compaction_interval,
            enable_compaction: self.enable_compaction,
            max_concurrent_compactions: self.max_concurrent_compactions,
            enable_metrics: self.enable_metrics,
            cache_size: self.cache_size,
            max_open_files: self.max_open_files,
            use_mmap: self.use_mmap,
            verify_checksums: self.verify_checksums,
            paranoid_checks: self.paranoid_checks,
        }
    }
}

/// The settings that hold where none is chosen, on a machine with `compaction_threads` processors.
pub open spec fn default_config(compaction_threads: usize) -> Config {
    Config {
        memtable_size_threshold: 67_108_864,
        max_memtables: 2,
        level_size_multiplier: 10,
        max_levels: 7,
        l0_sstable_size: 2_097_152,
        l0_compaction_threshold: 4,
        compression: CompressionType::Lz4,
        compression_level: 1,
        enable_bloom_filters: true,
        bloom_false_positive_rate: Rate { bits: ONE_PERCENT_BITS },
        write_buffer_size: 4_194_304,
        wal_sync_interval: 1000,
        max_wal_size: 67_108_864,
        compaction_threads: compaction_threads,
        compaction_interval: duration_of_secs(60),
        enable_compaction: true,
        max_concurrent_compactions: 2,
        enable_metrics: true,
        cache_size: 134_217_728,
        max_open_files: 10,
        use_mmap: true,
        verify_checksums: true,
        paranoid_checks: false,
    }
}

impl Config {
    /// The first thing that is wrong with the settings.
    pub open spec fn complaint(self) -> Option<Seq<char>> {
        if self.memtable_size_threshold == 0 {
            Some("memtable_size_threshold must be greater than 0"@)
        } else if self.max_memtables == 0 {
            Some("max_memtables must be greater than 0"@)
        } else if self.level_size_multiplier < 10 {
            Some("level_size_multiplier must be at least 10"@)
        } else if self.max_levels == 0 {
            Some("mmax_levels must be greater than 0"@)
        } else if self.l0_sstable_size == 0 {
            Some("l0_sstable_size must be greater than 0"@)
        } else if self.l0_compaction_threshold == 0 {
            Some("l0_compaction_threshold must be greater than 0"@)
        } else if !self.bloom_false_positive_rate.in_unit_range() {
            Some("bloom_false_positive_rate must be between 0.0 and 1.0"@)
        } else if self.write_buffer_size == 0 {
            Some("write_buffer_size must be greater than 0"@)
        } else if self.wal_sync_interval == 0 {
            Some("wal_sync_interval must be greater than 0"@)
        } else if self.max_wal_size == 0 {
            Some("max_wal_size must be greater than 0"@)
        } else if self.compaction_threads == 0 {
            Some("compaction_threads must be greater than 0"@)
        } else if self.max_concurrent_compactions == 0 {
            Some("max_concurrent_compactions must be greater than 0"@)
        } else if self.max_open_files == 0 {
            Some("max_open_files must be greater than 0"@)
        } else {
            None
        }
    }

    /// The settings that hold where none is chosen, on a machine with `compaction_threads`
    /// processors.
    pub fn new(compaction_threads: usize) -> (r: Self)
        ensures
            r == default_config(compaction_threads),
    {
        Self {
            memtable_size_threshold: 67_108_864,
            max_memtables: 2,
            level_size_multiplier: 10,
            max_levels: 7,
            l0_sstable_size: 2_097_152,
            l0_compaction_threshold: 4,
            compression: CompressionType::Lz4,
            compression_level: 1,
            enable_bloom_filters: true,
            bloom_false_positive_rate: Rate { bits: ONE_PERCENT_BITS },
            write_buffer_size: 4_194_304,
            wal_sync_interval: 1000,
            max_wal_size: 67_108_864,
            compaction_threads: compaction_threads,
            compaction_interval: std::time::Duration::from_secs(60),
            enable_compaction: true,
            max_concurrent_compactions: 2,
            enable_metrics: true,
            cache_size: 134_217_728,
            max_open_files: 10,
            use_mmap: true,
            verify_checksums: true,
            paranoid_checks: false,
        }
    }

    pub fn with_memtable_size(self, size: usize) -> (r: Self)
        ensures
            r == (Config { memtable_size_threshold: size, ..self }),
    {
        Config { memtable_size_threshold: size, ..self }
    }

    pub fn with_compression(self, compression: CompressionType) -> (r: Self)
        ensures
            r == (Config { compression, ..self }),
    {
        Config { compression, ..self }
    }

    pub fn with_compression_level(self, level: i32) -> (r: Self)
        ensures
            r == (Config { compression_level: level, ..self }),
    {
        Config { compression_level: level, ..self }
    }

    pub fn with_bloom_filters(self, enabled: bool) -> (r: Self)
        ensures
            r == (Config { enable_bloom_filters: enabled, ..self }),
    {
        Config { enable_bloom_filters: enabled, ..self }
    }

    pub fn with_bloom_false_positive_rate(self, rate: Rate) -> (r: Self)
        ensures
            r == (Config { bloom_false_positive_rate: rate, ..self }),
    {
        Config { bloom_false_positive_rate: rate, ..self }
    }

    pub fn with_compaction(self, enabled: bool) -> (r: Self)
        ensures
            r == (Config { enable_compaction: enabled, ..self }),
    {
        Config { enable_compaction: enabled, ..self }
    }

    pub fn with_compaction_threads(self, threads: usize) -> (r: Self)
        ensures
            r == (Config { compaction_threads: threads, ..self }),
    {
        Config { compaction_threads: threads, ..self }
    }

    pub fn with_metrics(self, enabled: bool) -> (r: Self)
        ensures
            r == (Config { enable_metrics: enabled, ..self }),
    {
        Config { enable_metrics: enabled, ..self }
    }

    pub fn with_cache_size(self, size: usize) -> (r: Self)
        ensures
            r == (Config { cache_size: size, ..self }),
    {
        Config { cache_size: size, ..self }
    }

    pub fn with_mmap(self, enabled: bool) -> (r: Self)
        ensures
            r == (Config { use_mmap: enabled, ..self }),
    {
        Config { use_mmap: enabled, ..self }
    }

    pub fn with_checksum_verification(self, enabled: bool) -> (r: Self)
        ensures
            r == (Config { verify_checksums: enabled, ..self }),
    {
        Config { verify_checksums: enabled, ..self }
    }

    pub fn with_paranoid_checks(self, enabled: bool) -> (r: Self)
        ensures
            r == (Config { paranoid_checks: enabled, ..self }),
    {
        Config { paranoid_checks: enabled, ..self }
    }

    /// Checks the settings one by one and names the first that is wrong.
    pub fn validate(&self) -> (r: std::result::Result<(), String>)
        ensures
            match r {
                Ok(_) => self.complaint() is None,
                Err(text) => self.complaint() == Some(text@),
            },
    {
        if self.memtable_size_threshold == 0 {
            return Err("memtable_size_threshold must be greater than 0".to_string());
        }
        if self.max_memtables == 0 {
            return Err("max_memtables must be greater than 0".to_string());
        }
        if self.level_size_multiplier < 10 {
            return Err("level_size_multiplier must be at least 10".to_string());
        }
        if self.max_levels == 0 {
            return Err("mmax_levels must be greater than 0".to_string());
        }
        if self.l0_sstable_size == 0 {
            return Err("l0_sstable_size must be greater than 0".to_string());
        }
        if self.l0_compaction_threshold == 0 {
            return Err("l0_compaction_threshold must be greater than 0".to_string());
        }
        if !self.bloom_false_positive_rate.is_in_unit_range() {
            return Err("bloom_false_positive_rate must be between 0.0 and 1.0".to_string());
        }
        if self.write_buffer_size == 0 {
            return Err("write_buffer_size must be greater than 0".to_string());
        }
        if self.wal_sync_interval == 0 {
            return Err("wal_sync_interval must be greater than 0".to_string());
        }
        if self.max_wal_size == 0 {
            return Err("max_wal_size must be greater than 0".to_string());
        }
        if self.compaction_threads == 0 {
            return Err("compaction_threads must be greater than 0".to_string());
        }
        if self.max_concurrent_compactions == 0 {
            return Err("max_concurrent_compactions must be greater than 0".to_string());
        }
        if self.max_open_files == 0 {
            return Err("max_open_files must be greater than 0".to_string());
        }
        Ok(())
    }

    /// What the size of the first level is multiplied with to give that of a level below it: the
    /// multiplier raised to the low-order 32 bits of the level.
    pub open spec fn level_factor(self, level: nat) -> nat {
        pow(self.level_size_multiplier as int, level % 0x1_0000_0000) as nat
    }

    /// The bytes that a level is meant to hold.
    pub open spec fn target_size(self, level: nat) -> nat {
        if level == 0 {
            self.l0_sstable_size as nat * self.l0_compaction_threshold as nat
        } else {
            self.l0_sstable_size as nat * self.level_factor(level)
        }
    }

    /// Whether the bytes that a level is meant to hold can be computed.
    pub open spec fn target_fits(self, level: nat) -> bool {
        self.target_size(level) <= usize::MAX && (level > 0 ==> self.level_factor(level)
            <= usize::MAX)
    }

    /// The bytes that a level is meant to hold.
    pub fn level_target_size(&self, level: usize) -> (r: usize)
        requires
            self.target_fits(level as nat),
        ensures
            r == self.target_size(level as nat),
    {
        match self.checked_level_target_size(level) {
            Some(size) => size,
            None => 0,
        }
    }

    /// The bytes that a level is meant to hold, or nothing where their number does not fit.
    pub fn checked_level_target_size(&self, level: usize) -> (r: Option<usize>)
        ensures
            match r {
                Some(size) => self.target_fits(level as nat) && size == self.target_size(
                    level as nat,
                ),
                None => !self.target_fits(level as nat),
            },
    {
        if level == 0 {
            return self.l0_sstable_size.checked_mul(self.l0_compaction_threshold);
        }
        let base: usize = self.level_size_multiplier;
        let exponent: u64 = level as u64 % 0x1_0000_0000;
        let mut power: usize = 1;
        let mut i: u64 = 0;
        proof {
            vstd::arithmetic::power::lemma_pow0(base as int);
        }
        while i < exponent
            invariant
                i <= exponent,
                level > 0,
                exponent == level as nat % 0x1_0000_0000,
                base == self.level_size_multiplier,
                power == pow(base as int, i as nat),
            decreases exponent - i,
        {
            proof {
                lemma_pow_step(base as int, i as nat);
            }
            match power.checked_mul(base) {
                Some(next) => {
                    power = next;
                },
                None => {
                    proof {
                        lemma_pow_grows(base as int, (i + 1) as nat, exponent as nat);
                    }
                    return None;
                },
            }
            i = i + 1;
        }
        self.l0_sstable_size.checked_mul(power)
    }

    /// How many tables the first level is meant to hold.
    ///
    /// Only the first level has such a number.
    pub fn level_max_sstables(&self, level: usize) -> (r: usize)
        requires
            level == 0,
        ensures
            r == self.l0_compaction_threshold,
    {
        self.l0_compaction_threshold
    }
}

proof fn lemma_pow_step(b: int, e: nat)
    ensures
        pow(b, e + 1) == pow(b, e) * b,
{
    vstd::arithmetic::power::lemma_pow_adds(b, e, 1);
    vstd::arithmetic::power::lemma_pow1(b);
}

/// A power that does not fit stays too large.
proof fn lemma_pow_grows(b: int, a: nat, e: nat)
    requires
        b >= 0,
        a <= e,
        pow(b, a) > 1,
    ensures
        pow(b, a) <= pow(b, e),
    decreases e,
{
    if a < e {
        lemma_pow_grows(b, a, (e - 1) as nat);
        lemma_pow_step(b, (e - 1) as nat);
        let p = pow(b, (e - 1) as nat);
        if a == 0 {
            vstd::arithmetic::power::lemma_pow0(b);
        } else if b == 0 {
            vstd::arithmetic::power::lemma0_pow(a);
        }
        assert(p <= p * b) by (nonlinear_arith)
            requires
                p > 0,
                b >= 1,
        ;
    }
}

/// Law: the settings that hold where none is chosen are valid on every machine with a processor.
pub proof fn law_default_config_is_valid(compaction_threads: usize)
    requires
        compaction_threads > 0,
    ensures
        default_config(compaction_threads).complaint() is None,
{
}

/// Law: each level is meant to hold as many times more than the one above it as the multiplier says,
/// and the first level below the top that many times the size of a table of the top level; the top
/// level is meant to hold as many tables as it may have before it is merged.
pub proof fn law_targets_grow_by_the_multiplier(config: Config, level: nat)
    requires
        0 < level,
        level + 1 < 0x1_0000_0000,
    ensures
        config.target_size(level + 1) == config.target_size(level) * config.level_size_multiplier,
        config.target_size(1) == config.l0_sstable_size * config.level_size_multiplier,
        config.target_size(0) == config.l0_sstable_size * config.l0_compaction_threshold,
        config.target_size(level) == config.l0_sstable_size * pow(
            config.level_size_multiplier as int,
            level,
        ),
{
    let base = config.level_size_multiplier as int;
    let first = config.l0_sstable_size as int;
    vstd::arithmetic::power::lemma_pow1(base);
    lemma_pow_step(base, level);
    lemma_pow_is_not_negative(base, level);
    let p = pow(base, level);
    assert(first * (p * base) == (first * p) * base) by (nonlinear_arith);
    assert(first * p >= 0) by (nonlinear_arith)
        requires
            first >= 0,
            p >= 0,
    ;
    assert(p * base >= 0) by (nonlinear_arith)
        requires
            base >= 0,
            p >= 0,
    ;
    assert(pow(base, level + 1) == p * base);
}

proof fn lemma_pow_is_not_negative(base: int, n: nat)
    requires
        base >= 0,
    ensures
        pow(base, n) >= 0,
    decreases n,
{
    if n == 0 {
        vstd::arithmetic::power::lemma_pow0(base);
    } else {
        lemma_pow_is_not_negative(base, (n - 1) as nat);
        lemma_pow_step(base, (n - 1) as nat);
        let p = pow(base, (n - 1) as nat);
        assert(p * base >= 0) by (nonlinear_arith)
            requires
                base >= 0,
                p >= 0,
        ;
    }
}

/// Law: settings are refused exactly where a size or a number is zero that must not be, the
/// multiplier is below ten, or the rate is none between zero and one.
pub proof fn law_only_unusable_settings_are_refused(config: Config)
    ensures
        config.complaint() is None <==> {
            &&& config.memtable_size_threshold > 0
            &&& config.max_memtables > 0
            &&& config.level_size_multiplier >= 10
            &&& config.max_levels > 0
            &&& config.l0_sstable_size > 0
            &&& config.l0_compaction_threshold > 0
            &&& config.bloom_false_positive_rate.in_unit_range()
            &&& config.write_buffer_size > 0
            &&& config.wal_sync_interval > 0
            &&& config.max_wal_size > 0
            &&& config.compaction_threads > 0
            &&& config.max_concurrent_compactions > 0
            &&& config.max_open_files > 0
        },
{
}

/// Law: a rate lies between zero and one where it has no sign and its exponent is below that of one,
/// or where it is one, or the zero with a sign.
pub proof fn law_rate_is_ordered_by_its_exponent(rate: Rate)
    ensures
        rate.in_unit_range() <==> {
            let exponent = rate.bits as int / 0x10_0000_0000_0000;
            let fraction = rate.bits as int % 0x10_0000_0000_0000;
            ||| exponent < 1023
            ||| exponent == 1023 && fraction == 0
            ||| exponent == 2048 && fraction == 0
        },
{
}

/// The target of a level below the top is a power of the multiplier times the size of a table.
pub proof fn lemma_target_is_a_power(config: Config, level: nat)
    requires
        0 < level < 0x1_0000_0000,
    ensures
        config.target_size(level) == config.l0_sstable_size * pow(
            config.level_size_multiplier as int,
            level,
        ),
        config.level_factor(level) == pow(config.level_size_multiplier as int, level),
{
    lemma_pow_is_not_negative(config.level_size_multiplier as int, level);
    let first = config.l0_sstable_size as int;
    let p = pow(config.level_size_multiplier as int, level);
    assert(first * p >= 0) by (nonlinear_arith)
        requires
            first >= 0,
            p >= 0,
    ;
}

} // verus!
