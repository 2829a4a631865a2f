//! Engine, column-family, read and write options, with the checks that
//! untrusted configurations must pass.

use crate::error::{invalid_argument_text, ErrorKind, ForstError, ForstResult};
use crate::text;
use crate::text::{push_decimal, push_decimal_wide, text_with_three, text_with_two};
use crate::types::{CompressionType, MAX_LEVELS};
use vstd::prelude::*;
use vstd::string::*;

verus! {

/// Bits of the double 1.0.
pub const ONE_BITS: u64 = 0x3FF0_0000_0000_0000;

/// Bits of the double 1024.0, the largest level multiplier.
pub const MAX_LEVEL_MULTIPLIER_BITS: u64 = 0x4090_0000_0000_0000;

/// Most bytes of level 1: 1 PiB.
pub const MAX_LEVEL_BASE: u64 = 1125899906842624;

/// Most bytes of a write buffer: 1 TiB.
pub const MAX_WRITE_BUFFER_SIZE: u64 = 1099511627776;

/// Most bytes of the block cache: 1 PiB.
pub const MAX_BLOCK_CACHE_SIZE: u64 = 1125899906842624;

/// Most background threads of one kind.
pub const MAX_BACKGROUND_THREADS: u64 = 1024;

/// Most Bloom filter bits per key.
pub const MAX_BLOOM_BITS_PER_KEY: u64 = 256;

/// Most bytes of the database path.
pub const MAX_DB_PATH_LEN: u64 = 4096;

/// Fewest bytes of a block.
pub const MIN_BLOCK_SIZE: u64 = 512;

/// Most bytes of a block: 1 GiB.
pub const MAX_BLOCK_SIZE: u64 = 1073741824;

/// Most bytes of a table file: 1 TiB.
pub const MAX_TARGET_FILE_SIZE_BASE: u64 = 1099511627776;

/// Fewest bytes of a table file: 4 KiB.
pub const MIN_TARGET_FILE_SIZE_BASE: u64 = 4096;

/// Fewest bytes of a write buffer: 4 KiB.
pub const MIN_WRITE_BUFFER_SIZE: u64 = 4096;

/// Fewest bytes of level 1: 1 MiB.
pub const MIN_LEVEL_BASE: u64 = 1048576;

/// Most write buffers.
pub const MAX_WRITE_BUFFER_NUMBER: u64 = 1024;

/// Most bytes of all write buffers together: 8 TiB.
pub const MAX_JOINT_MEMTABLE_BYTES: u64 = 8796093022208;

/// Most bytes of the Bloom filter of one table file: 256 GiB.
pub const MAX_JOINT_BLOOM_BYTES: u64 = 274877906944;

/// Bytes that the smallest entry counts for in Bloom filter sizing.
pub const MIN_AVG_ENTRY_BYTES: u64 = 16;

/// The growth factor between levels, as the bits of an IEEE double.
#[derive(Debug, Clone, Copy, PartialEq, Eq, Structural)]
pub struct LevelMultiplier(pub u64);

impl LevelMultiplier {
    /// The double is above 1.0 and at most 1024.0. The bits of positive doubles
    /// are ordered as the doubles are; infinities, NaNs and negative doubles
    /// all lie above the largest multiplier.
    pub open spec fn in_bounds(self) -> bool {
        ONE_BITS < self.0 <= MAX_LEVEL_MULTIPLIER_BITS
    }
}

/// What the floating-point side knows of a configuration: whether the capacity
/// of the last level is too large for the address space, and the texts for
/// the messages.
#[derive(Debug, Clone, PartialEq, Eq)]
pub struct LevelCapacity {
    /// Level base times multiplier to the power of the last level is not
    /// finite or above half of the largest `usize`.
    pub saturates: bool,
    /// The multiplier as text.
    pub multiplier_text: String,
    /// The capacity of the last level as text.
    pub projected_text: String,
    /// Half of the largest `usize` as text.
    pub half_text: String,
}

/// Configuration of a database.
#[derive(Debug, Clone)]
pub struct EngineOptions {
    /// Bytes of one write buffer.
    pub write_buffer_size: usize,
    /// Most memtables, the active one included, before writes stall.
    pub max_write_buffer_number: usize,
    /// Target bytes of a table file at level 1.
    pub target_file_size_base: usize,
    /// Most bytes of level 1.
    pub max_bytes_for_level_base: usize,
    /// Growth factor between levels.
    pub max_bytes_for_level_multiplier: LevelMultiplier,
    /// Number of levels.
    pub num_levels: usize,
    pub max_background_compactions: usize,
    pub max_background_flushes: usize,
    /// Bytes of the shared block cache.
    pub block_cache_size: usize,
    /// Bytes of a data block.
    pub block_size: usize,
    pub bloom_bits_per_key: usize,
    pub compression: CompressionType,
    pub enable_statistics: bool,
    /// Directory of the database.
    pub db_path: String,
    /// Shards of each active memtable.
    pub memtable_shards: usize,
}

impl Default for EngineOptions {
    fn default() -> (r: Self)
        ensures
            r.is_default(),
    {
        EngineOptions {
            write_buffer_size: 67_108_864,
            max_write_buffer_number: 3,
            target_file_size_base: 67_108_864,
            max_bytes_for_level_base: 268_435_456,
            max_bytes_for_level_multiplier: LevelMultiplier(0x4024_0000_0000_0000),
            num_levels: 7,
            max_background_compactions: 4,
            max_background_flushes: 2,
            block_cache_size: 268_435_456,
            block_size: 65_536,
            bloom_bits_per_key: 10,
            compression: CompressionType::Lz4,
            enable_statistics: true,
            db_path: String::new(),
            memtable_shards: 16,
        }
    }
}

/// `a * b`, or the largest `usize` if that is larger.
pub open spec fn capped_product(a: nat, b: nat) -> nat {
    if a * b <= usize::MAX {
        a * b
    } else {
        usize::MAX as nat
    }
}

fn saturating_product(a: usize, b: usize) -> (r: usize)
    ensures
        r == capped_product(a as nat, b as nat),
{
    let p: u128 = mul_wide(a, b);
    if p <= usize::MAX as u128 {
        p as usize
    } else {
        usize::MAX
    }
}

fn mul_wide(a: usize, b: usize) -> (r: u128)
    ensures
        r == a as nat * b as nat,
{
    proof {
        let x = a as int;
        let y = b as int;
        assert(x * y <= 0xFFFF_FFFF_FFFF_FFFF * 0xFFFF_FFFF_FFFF_FFFF) by (nonlinear_arith)
            requires
                0 <= x <= 0xFFFF_FFFF_FFFF_FFFF,
                0 <= y <= 0xFFFF_FFFF_FFFF_FFFF,
        ;
    }
    (a as u128) * (b as u128)
}

/// Bytes of the Bloom filter of a table file.
pub open spec fn bloom_bytes(target_file_size: usize, bits_per_key: usize) -> nat {
    capped_product(target_file_size as nat / MIN_AVG_ENTRY_BYTES as nat, bits_per_key as nat) / 8
}

fn projected_bloom(target_file_size: usize, bits_per_key: usize) -> (r: u64)
    ensures
        r == bloom_bytes(target_file_size, bits_per_key),
{
    let entries: usize = target_file_size / 16;
    let bits: usize = saturating_product(entries, bits_per_key);
    (bits / 8) as u64
}

/// Whether `bytes` holds a zero byte.
fn has_nul(bytes: &[u8]) -> (r: bool)
    ensures
        r == bytes@.contains(0u8),
{
    let mut i: usize = 0;
    while i < bytes.len()
        invariant
            i <= bytes@.len(),
            forall|k: int| 0 <= k < i ==> bytes@[k] != 0,
        decreases bytes@.len() - i,
    {
        if bytes[i] == 0 {
            assert(bytes@.contains(0u8));
            return true;
        }
        i += 1;
    }
    false
}

/// The bytes of a path.
pub open spec fn path_bytes(path: Seq<char>) -> Seq<u8> {
    vstd::utf8::encode_utf8(path)
}

/// A message on the size of all write buffers together.
pub open spec fn memtable_message(head: Seq<char>, peak: nat, tail: Seq<char>) -> Seq<char> {
    head + text::decimal(peak) + " bytes exceeds "@ + text::decimal(
        MAX_JOINT_MEMTABLE_BYTES as nat,
    ) + tail
}

fn memtable_text(head: &str, peak: u128, tail: &str) -> (r: String)
    ensures
        r@ == memtable_message(head@, peak as nat, tail@),
{
    let mut out = String::new();
    out.append(head);
    push_decimal_wide(&mut out, peak);
    out.append(" bytes exceeds ");
    push_decimal(&mut out, MAX_JOINT_MEMTABLE_BYTES as u64);
    out.append(tail);
    assert(out@ =~= memtable_message(head@, peak as nat, tail@));
    out
}

/// A message on the size of a Bloom filter.
pub open spec fn bloom_message(head: Seq<char>, bytes: nat, tail: Seq<char>) -> Seq<char> {
    head + text::decimal(MIN_AVG_ENTRY_BYTES as nat) + ") / 8 = "@ + text::decimal(bytes)
        + " bytes exceeds "@ + text::decimal(MAX_JOINT_BLOOM_BYTES as nat) + tail
}

fn bloom_text(head: &str, bytes: u64, tail: &str) -> (r: String)
    ensures
        r@ == bloom_message(head@, bytes as nat, tail@),
{
    let mut out = String::new();
    out.append(head);
    push_decimal(&mut out, MIN_AVG_ENTRY_BYTES as u64);
    out.append(") / 8 = ");
    push_decimal(&mut out, bytes);
    out.append(" bytes exceeds ");
    push_decimal(&mut out, MAX_JOINT_BLOOM_BYTES as u64);
    out.append(tail);
    assert(out@ =~= bloom_message(head@, bytes as nat, tail@));
    out
}

/// The message for a multiplier out of bounds.
pub open spec fn multiplier_text_of(cap: LevelCapacity) -> Seq<char> {
    "max_bytes_for_level_multiplier must be finite and in (1.0, 1024], got "@
        + cap.multiplier_text@
}

fn multiplier_message(cap: &LevelCapacity) -> (r: String)
    ensures
        r@ == multiplier_text_of(*cap),
{
    let mut out = String::new();
    out.append("max_bytes_for_level_multiplier must be finite and in (1.0, 1024], got ");
    out.append(cap.multiplier_text.as_str());
    assert(out@ =~= multiplier_text_of(*cap));
    out
}

impl EngineOptions {
    /// The default configuration.
    pub open spec fn is_default(self) -> bool {
        self.is_default_but_path() && self.db_path@ == Seq::<char>::empty()
    }

    /// The default configuration with any path.
    pub open spec fn is_default_but_path(self) -> bool {
        &&& self.write_buffer_size == 64 * 1024 * 1024
        &&& self.max_write_buffer_number == 3
        &&& self.target_file_size_base == 64 * 1024 * 1024
        &&& self.max_bytes_for_level_base == 256 * 1024 * 1024
        &&& self.max_bytes_for_level_multiplier.0 == 0x4024_0000_0000_0000
        &&& self.num_levels == 7
        &&& self.max_background_compactions == 4
        &&& self.max_background_flushes == 2
        &&& self.block_cache_size == 256 * 1024 * 1024
        &&& self.block_size == 64 * 1024
        &&& self.bloom_bits_per_key == 10
        &&& self.compression == CompressionType::Lz4
        &&& self.enable_statistics
        &&& self.memtable_shards == 16
    }

    /// The message for a level capacity that is too large.
    pub open spec fn capacity_message(self, cap: LevelCapacity) -> Seq<char> {
        "joint level-capacity product saturates: base="@ + text::decimal(
            self.max_bytes_for_level_base as nat,
        ) + ", multiplier="@ + cap.multiplier_text@ + ", num_levels="@ + text::decimal(
            self.num_levels as nat,
        ) + " → projected="@ + cap.projected_text@ + " > usize::MAX/2 ("@ + cap.half_text@ + ")"@
    }

    fn capacity_text(&self, cap: &LevelCapacity) -> (r: String)
        ensures
            r@ == self.capacity_message(*cap),
    {
        let mut out = String::new();
        out.append("joint level-capacity product saturates: base=");
        push_decimal(&mut out, self.max_bytes_for_level_base as u64);
        out.append(", multiplier=");
        out.append(cap.multiplier_text.as_str());
        out.append(", num_levels=");
        push_decimal(&mut out, self.num_levels as u64);
        out.append(" → projected=");
        out.append(cap.projected_text.as_str());
        out.append(" > usize::MAX/2 (");
        out.append(cap.half_text.as_str());
        out.append(")");
        assert(out@ =~= self.capacity_message(*cap));
        out
    }

    /// Everything that a valid configuration meets.
    pub open spec fn valid(self, cap: LevelCapacity) -> bool {
        &&& 0 < self.db_path@.len()
        &&& path_bytes(self.db_path@).len() <= MAX_DB_PATH_LEN
        &&& !path_bytes(self.db_path@).contains(0u8)
        &&& 1 <= self.num_levels <= MAX_LEVELS
        &&& MIN_WRITE_BUFFER_SIZE <= self.write_buffer_size <= MAX_WRITE_BUFFER_SIZE
        &&& 1 <= self.max_write_buffer_number <= MAX_WRITE_BUFFER_NUMBER
        &&& MIN_BLOCK_SIZE <= self.block_size <= MAX_BLOCK_SIZE
        &&& MIN_LEVEL_BASE <= self.max_bytes_for_level_base <= MAX_LEVEL_BASE
        &&& MIN_TARGET_FILE_SIZE_BASE <= self.target_file_size_base <= MAX_TARGET_FILE_SIZE_BASE
        &&& 1 <= self.max_background_compactions <= MAX_BACKGROUND_THREADS
        &&& 1 <= self.max_background_flushes <= MAX_BACKGROUND_THREADS
        &&& self.bloom_bits_per_key <= MAX_BLOOM_BITS_PER_KEY
        &&& self.block_cache_size <= MAX_BLOCK_CACHE_SIZE
        &&& self.max_bytes_for_level_multiplier.in_bounds()
        &&& !cap.saturates
        &&& self.write_buffer_size * self.max_write_buffer_number <= MAX_JOINT_MEMTABLE_BYTES
        &&& bloom_bytes(self.target_file_size_base, self.bloom_bits_per_key)
            <= MAX_JOINT_BLOOM_BYTES
    }

    /// The message of the first check that fails; `None` if none does.
    pub open spec fn first_error(self, cap: LevelCapacity) -> Option<Seq<char>> {
        if self.db_path@.len() == 0 {
            Some("db_path must not be empty"@)
        } else if path_bytes(self.db_path@).len() > MAX_DB_PATH_LEN {
            Some(
                "db_path length must be ≤ "@ + text::decimal(MAX_DB_PATH_LEN as nat)
                    + " bytes (POSIX PATH_MAX), got "@
                    + text::decimal(path_bytes(self.db_path@).len()),
            )
        } else if path_bytes(self.db_path@).contains(0u8) {
            Some("db_path must not contain embedded NUL bytes"@)
        } else if self.num_levels == 0 || self.num_levels > MAX_LEVELS {
            Some(
                "num_levels must be in 1..="@ + text::decimal(MAX_LEVELS as nat) + ", got "@
                    + text::decimal(self.num_levels as nat),
            )
        } else if self.write_buffer_size == 0 {
            Some("write_buffer_size must be greater than zero"@)
        } else if self.block_size == 0 {
            Some("block_size must be greater than zero"@)
        } else if self.max_bytes_for_level_base == 0 {
            Some("max_bytes_for_level_base must be greater than zero"@)
        } else if self.target_file_size_base == 0 {
            Some("target_file_size_base must be greater than zero"@)
        } else if self.max_background_compactions == 0 {
            Some("max_background_compactions must be greater than zero"@)
        } else if self.max_background_flushes == 0 {
            Some("max_background_flushes must be greater than zero"@)
        } else if self.max_write_buffer_number == 0 {
            Some("max_write_buffer_number must be greater than zero"@)
        } else if self.bloom_bits_per_key > MAX_BLOOM_BITS_PER_KEY {
            Some(
                "bloom_bits_per_key must be ≤ "@ + text::decimal(MAX_BLOOM_BITS_PER_KEY as nat)
                    + ", got "@ + text::decimal(self.bloom_bits_per_key as nat),
            )
        } else if self.block_size < MIN_BLOCK_SIZE || self.block_size > MAX_BLOCK_SIZE {
            Some(
                "block_size must be in ["@ + text::decimal(MIN_BLOCK_SIZE as nat) + ", "@
                    + text::decimal(MAX_BLOCK_SIZE as nat) + "] bytes, got "@
                    + text::decimal(self.block_size as nat),
            )
        } else if self.target_file_size_base < MIN_TARGET_FILE_SIZE_BASE {
            Some(
                "target_file_size_base must be ≥ "@
                    + text::decimal(MIN_TARGET_FILE_SIZE_BASE as nat) + " bytes (4 KiB), got "@
                    + text::decimal(self.target_file_size_base as nat),
            )
        } else if self.write_buffer_size < MIN_WRITE_BUFFER_SIZE {
            Some(
                "write_buffer_size must be ≥ "@ + text::decimal(MIN_WRITE_BUFFER_SIZE as nat)
                    + " bytes (4 KiB), got "@ + text::decimal(self.write_buffer_size as nat),
            )
        } else if self.max_bytes_for_level_base < MIN_LEVEL_BASE {
            Some(
                "max_bytes_for_level_base must be ≥ "@ + text::decimal(MIN_LEVEL_BASE as nat)
                    + " bytes (1 MiB), got "@
                    + text::decimal(self.max_bytes_for_level_base as nat),
            )
        } else if self.target_file_size_base > MAX_TARGET_FILE_SIZE_BASE {
            Some(
                "target_file_size_base must be ≤ "@
                    + text::decimal(MAX_TARGET_FILE_SIZE_BASE as nat) + " bytes (1 TiB), got "@
                    + text::decimal(self.target_file_size_base as nat),
            )
        } else if self.max_write_buffer_number > MAX_WRITE_BUFFER_NUMBER {
            Some(
                "max_write_buffer_number must be ≤ "@
                    + text::decimal(MAX_WRITE_BUFFER_NUMBER as nat) + ", got "@
                    + text::decimal(self.max_write_buffer_number as nat),
            )
        } else if !self.max_bytes_for_level_multiplier.in_bounds() {
            Some(
                "max_bytes_for_level_multiplier must be finite and in (1.0, 1024], got "@
                    + cap.multiplier_text@,
            )
        } else if cap.saturates {
            Some(self.capacity_message(cap))
        } else if self.write_buffer_size as nat * self.max_write_buffer_number as nat
            > MAX_JOINT_MEMTABLE_BYTES {
            Some(
                "joint write_buffer_size × max_write_buffer_number = "@
                    + text::decimal(self.write_buffer_size as nat * self.max_write_buffer_number as nat)
                    + " bytes exceeds "@ + text::decimal(MAX_JOINT_MEMTABLE_BYTES as nat)
                    + " bytes (peak memtable RAM commitment would OOM-abort under flush stall)"@,
            )
        } else if bloom_bytes(self.target_file_size_base, self.bloom_bits_per_key)
            > MAX_JOINT_BLOOM_BYTES {
            Some(
                bloom_message(
                    "joint bloom_bits_per_key × (target_file_size_base / "@,
                    bloom_bytes(self.target_file_size_base, self.bloom_bits_per_key),
                    " bytes (per-SST bloom allocation would OOM-abort)"@,
                ),
            )
        } else if self.max_bytes_for_level_base > MAX_LEVEL_BASE {
            Some(
                "max_bytes_for_level_base must be ≤ "@ + text::decimal(MAX_LEVEL_BASE as nat)
                    + " bytes (1 PiB), got "@
                    + text::decimal(self.max_bytes_for_level_base as nat),
            )
        } else if self.write_buffer_size > MAX_WRITE_BUFFER_SIZE {
            Some(
                "write_buffer_size must be ≤ "@ + text::decimal(MAX_WRITE_BUFFER_SIZE as nat)
                    + " bytes (1 TiB), got "@ + text::decimal(self.write_buffer_size as nat),
            )
        } else if self.block_cache_size > MAX_BLOCK_CACHE_SIZE {
            Some(
                "block_cache_size must be ≤ "@ + text::decimal(MAX_BLOCK_CACHE_SIZE as nat)
                    + " bytes (1 PiB), got "@ + text::decimal(self.block_cache_size as nat),
            )
        } else if self.max_background_compactions > MAX_BACKGROUND_THREADS {
            Some(
                "max_background_compactions must be ≤ "@
                    + text::decimal(MAX_BACKGROUND_THREADS as nat) + ", got "@
                    + text::decimal(self.max_background_compactions as nat),
            )
        } else if self.max_background_flushes > MAX_BACKGROUND_THREADS {
            Some(
                "max_background_flushes must be ≤ "@
                    + text::decimal(MAX_BACKGROUND_THREADS as nat) + ", got "@
                    + text::decimal(self.max_background_flushes as nat),
            )
        } else {
            None
        }
    }

    /// Checks the configuration. `cap` is what floating-point arithmetic says of
    /// the level capacities.
    #[verifier::rlimit(60)]
    pub fn validate(&self, cap: &LevelCapacity) -> (r: ForstResult<()>)
        ensures
            r is Ok <==> self.valid(*cap),
            match r {
                Ok(_) => self.first_error(*cap) is None,
                Err(e) => self.first_error(*cap) is Some && e.says(
                    ErrorKind::InvalidArgument,
                    self.first_error(*cap)->0,
                ),
            },
    {
        let path: &[u8] = self.db_path.as_str().as_bytes();
        assert(path@ == path_bytes(self.db_path@));
        proof {
            lemma_path_empty(self.db_path@);
        }
        if path.len() == 0 {
            return Err(invalid_argument_text("db_path must not be empty"));
        }
        if (path.len() as u64) > MAX_DB_PATH_LEN {
            return Err(
                ForstError::InvalidArgument(
                    text_with_two(
                        "db_path length must be ≤ ",
                        MAX_DB_PATH_LEN as u64,
                        " bytes (POSIX PATH_MAX), got ",
                        path.len() as u64,
                    ),
                ),
            );
        }
        if has_nul(path) {
            return Err(invalid_argument_text("db_path must not contain embedded NUL bytes"));
        }
        if self.num_levels == 0 || self.num_levels > MAX_LEVELS {
            return Err(
                ForstError::InvalidArgument(
                    text_with_two(
                        "num_levels must be in 1..=",
                        MAX_LEVELS as u64,
                        ", got ",
                        self.num_levels as u64,
                    ),
                ),
            );
        }
        if self.write_buffer_size == 0 {
            return Err(invalid_argument_text("write_buffer_size must be greater than zero"));
        }
        if self.block_size == 0 {
            return Err(invalid_argument_text("block_size must be greater than zero"));
        }
        if self.max_bytes_for_level_base == 0 {
            return Err(invalid_argument_text("max_bytes_for_level_base must be greater than zero"));
        }
        if self.target_file_size_base == 0 {
            return Err(invalid_argument_text("target_file_size_base must be greater than zero"));
        }
        if self.max_background_compactions == 0 {
            return Err(
                invalid_argument_text("max_background_compactions must be greater than zero"),
            );
        }
        if self.max_background_flushes == 0 {
            return Err(invalid_argument_text("max_background_flushes must be greater than zero"));
        }
        if self.max_write_buffer_number == 0 {
            return Err(invalid_argument_text("max_write_buffer_number must be greater than zero"));
        }
        if (self.bloom_bits_per_key as u64) > MAX_BLOOM_BITS_PER_KEY {
            return Err(
                ForstError::InvalidArgument(
                    text_with_two(
                        "bloom_bits_per_key must be ≤ ",
                        MAX_BLOOM_BITS_PER_KEY as u64,
                        ", got ",
                        self.bloom_bits_per_key as u64,
                    ),
                ),
            );
        }
        if (self.block_size as u64) < MIN_BLOCK_SIZE || (self.block_size as u64) > MAX_BLOCK_SIZE {
            return Err(
                ForstError::InvalidArgument(
                    text_with_three(
                        "block_size must be in [",
                        MIN_BLOCK_SIZE as u64,
                        ", ",
                        MAX_BLOCK_SIZE as u64,
                        "] bytes, got ",
                        self.block_size as u64,
                    ),
                ),
            );
        }
        if (self.target_file_size_base as u64) < MIN_TARGET_FILE_SIZE_BASE {
            return Err(
                ForstError::InvalidArgument(
                    text_with_two(
                        "target_file_size_base must be ≥ ",
                        MIN_TARGET_FILE_SIZE_BASE as u64,
                        " bytes (4 KiB), got ",
                        self.target_file_size_base as u64,
                    ),
                ),
            );
        }
        if (self.write_buffer_size as u64) < MIN_WRITE_BUFFER_SIZE {
            return Err(
                ForstError::InvalidArgument(
                    text_with_two(
                        "write_buffer_size must be ≥ ",
                        MIN_WRITE_BUFFER_SIZE as u64,
                        " bytes (4 KiB), got ",
                        self.write_buffer_size as u64,
                    ),
                ),
            );
        }
        if (self.max_bytes_for_level_base as u64) < MIN_LEVEL_BASE {
            return Err(
                ForstError::InvalidArgument(
                    text_with_two(
                        "max_bytes_for_level_base must be ≥ ",
                        MIN_LEVEL_BASE as u64,
                        " bytes (1 MiB), got ",
                        self.max_bytes_for_level_base as u64,
                    ),
                ),
            );
        }
        if (self.target_file_size_base as u64) > MAX_TARGET_FILE_SIZE_BASE {
            return Err(
                ForstError::InvalidArgument(
                    text_with_two(
                        "target_file_size_base must be ≤ ",
                        MAX_TARGET_FILE_SIZE_BASE as u64,
                        " bytes (1 TiB), got ",
                        self.target_file_size_base as u64,
                    ),
                ),
            );
        }
        if (self.max_write_buffer_number as u64) > MAX_WRITE_BUFFER_NUMBER {
            return Err(
                ForstError::InvalidArgument(
                    text_with_two(
                        "max_write_buffer_number must be ≤ ",
                        MAX_WRITE_BUFFER_NUMBER as u64,
                        ", got ",
                        self.max_write_buffer_number as u64,
                    ),
                ),
            );
        }
        if !(ONE_BITS < self.max_bytes_for_level_multiplier.0
            && self.max_bytes_for_level_multiplier.0 <= MAX_LEVEL_MULTIPLIER_BITS) {
            return Err(ForstError::InvalidArgument(multiplier_message(cap)));
        }
        if cap.saturates {
            return Err(ForstError::InvalidArgument(self.capacity_text(cap)));
        }
        if mul_wide(self.write_buffer_size, self.max_write_buffer_number)
            > MAX_JOINT_MEMTABLE_BYTES as u128 {
            return Err(
                ForstError::InvalidArgument(
                    memtable_text(
                        "joint write_buffer_size × max_write_buffer_number = ",
                        mul_wide(self.write_buffer_size, self.max_write_buffer_number),
                        " bytes (peak memtable RAM commitment would OOM-abort under flush stall)",
                    ),
                ),
            );
        }
        if projected_bloom(self.target_file_size_base, self.bloom_bits_per_key)
            > MAX_JOINT_BLOOM_BYTES {
            return Err(
                ForstError::InvalidArgument(
                    bloom_text(
                        "joint bloom_bits_per_key × (target_file_size_base / ",
                        projected_bloom(self.target_file_size_base, self.bloom_bits_per_key),
                        " bytes (per-SST bloom allocation would OOM-abort)",
                    ),
                ),
            );
        }
        if (self.max_bytes_for_level_base as u64) > MAX_LEVEL_BASE {
            return Err(
                ForstError::InvalidArgument(
                    text_with_two(
                        "max_bytes_for_level_base must be ≤ ",
                        MAX_LEVEL_BASE as u64,
                        " bytes (1 PiB), got ",
                        self.max_bytes_for_level_base as u64,
                    ),
                ),
            );
        }
        if (self.write_buffer_size as u64) > MAX_WRITE_BUFFER_SIZE {
            return Err(
                ForstError::InvalidArgument(
                    text_with_two(
                        "write_buffer_size must be ≤ ",
                        MAX_WRITE_BUFFER_SIZE as u64,
                        " bytes (1 TiB), got ",
                        self.write_buffer_size as u64,
                    ),
                ),
            );
        }
        if (self.block_cache_size as u64) > MAX_BLOCK_CACHE_SIZE {
            return Err(
                ForstError::InvalidArgument(
                    text_with_two(
                        "block_cache_size must be ≤ ",
                        MAX_BLOCK_CACHE_SIZE as u64,
                        " bytes (1 PiB), got ",
                        self.block_cache_size as u64,
                    ),
                ),
            );
        }
        if (self.max_background_compactions as u64) > MAX_BACKGROUND_THREADS {
            return Err(
                ForstError::InvalidArgument(
                    text_with_two(
                        "max_background_compactions must be ≤ ",
                        MAX_BACKGROUND_THREADS as u64,
                        ", got ",
                        self.max_background_compactions as u64,
                    ),
                ),
            );
        }
        if (self.max_background_flushes as u64) > MAX_BACKGROUND_THREADS {
            return Err(
                ForstError::InvalidArgument(
                    text_with_two(
                        "max_background_flushes must be ≤ ",
                        MAX_BACKGROUND_THREADS as u64,
                        ", got ",
                        self.max_background_flushes as u64,
                    ),
                ),
            );
        }
        Ok(())
    }
}

proof fn lemma_path_empty(path: Seq<char>)
    ensures
        path.len() == 0 <==> path_bytes(path).len() == 0,
{
    if path.len() > 0 {
        vstd::utf8::encode_utf8_first_scalar(path);
    }
}

/// Builds [`EngineOptions`] step by step, from the defaults.
#[derive(Debug, Clone)]
pub struct EngineOptionsBuilder {
    inner: EngineOptions,
}

impl EngineOptions {
    /// A builder that starts from the default configuration.
    pub fn builder() -> (r: EngineOptionsBuilder)
        ensures
            r.options().is_default(),
    {
        EngineOptionsBuilder { inner: EngineOptions::default() }
    }
}

impl EngineOptionsBuilder {
    /// The options set so far.
    pub closed spec fn options(self) -> EngineOptions {
        self.inner
    }

    /// Sets the database directory.
    pub fn db_path<P: Into<String>>(self, path: P) -> (r: Self)
        ensures
            exists|p: String|
                #![trigger call_ensures(<P as Into<String>>::into, (path,), p)]
                call_ensures(<P as Into<String>>::into, (path,), p) && r.options() == (
                EngineOptions { db_path: p, ..self.options() }),
    {
        let p: String = path.into();
        assert(call_ensures(<P as Into<String>>::into, (path,), p));
        EngineOptionsBuilder { inner: EngineOptions { db_path: p, ..self.inner } }
    }

    /// Sets the size of a write buffer.
    pub fn write_buffer_size(self, size: usize) -> (r: Self)
        ensures
            r.options() == (EngineOptions { write_buffer_size: size, ..self.options() }),
    {
        EngineOptionsBuilder { inner: EngineOptions { write_buffer_size: size, ..self.inner } }
    }

    /// Sets the number of write buffers.
    pub fn max_write_buffer_number(self, n: usize) -> (r: Self)
        ensures
            r.options() == (EngineOptions { max_write_buffer_number: n, ..self.options() }),
    {
        EngineOptionsBuilder { inner: EngineOptions { max_write_buffer_number: n, ..self.inner } }
    }

    /// Sets the target size of a table file.
    pub fn target_file_size_base(self, size: usize) -> (r: Self)
        ensures
            r.options() == (EngineOptions { target_file_size_base: size, ..self.options() }),
    {
        EngineOptionsBuilder { inner: EngineOptions { target_file_size_base: size, ..self.inner } }
    }

    /// Sets the size of level 1.
    pub fn max_bytes_for_level_base(self, size: usize) -> (r: Self)
        ensures
            r.options() == (EngineOptions { max_bytes_for_level_base: size, ..self.options() }),
    {
        EngineOptionsBuilder {
            inner: EngineOptions { max_bytes_for_level_base: size, ..self.inner },
        }
    }

    /// Sets the growth factor between levels.
    pub fn max_bytes_for_level_multiplier(self, multiplier: LevelMultiplier) -> (r: Self)
        ensures
            r.options() == (EngineOptions {
                max_bytes_for_level_multiplier: multiplier,
                ..self.options()
            }),
    {
        EngineOptionsBuilder {
            inner: EngineOptions { max_bytes_for_level_multiplier: multiplier, ..self.inner },
        }
    }

    /// Sets the number of levels.
    pub fn num_levels(self, n: usize) -> (r: Self)
        ensures
            r.options() == (EngineOptions { num_levels: n, ..self.options() }),
    {
        EngineOptionsBuilder { inner: EngineOptions { num_levels: n, ..self.inner } }
    }

    /// Sets the number of background compactions.
    pub fn max_background_compactions(self, n: usize) -> (r: Self)
        ensures
            r.options() == (EngineOptions { max_background_compactions: n, ..self.options() }),
    {
        EngineOptionsBuilder {
            inner: EngineOptions { max_background_compactions: n, ..self.inner },
        }
    }

    /// Sets the number of background flushes.
    pub fn max_background_flushes(self, n: usize) -> (r: Self)
        ensures
            r.options() == (EngineOptions { max_background_flushes: n, ..self.options() }),
    {
        EngineOptionsBuilder { inner: EngineOptions { max_background_flushes: n, ..self.inner } }
    }

    /// Sets the size of the block cache.
    pub fn block_cache_size(self, size: usize) -> (r: Self)
        ensures
            r.options() == (EngineOptions { block_cache_size: size, ..self.options() }),
    {
        EngineOptionsBuilder { inner: EngineOptions { block_cache_size: size, ..self.inner } }
    }

    /// Sets the size of a data block.
    pub fn block_size(self, size: usize) -> (r: Self)
        ensures
            r.options() == (EngineOptions { block_size: size, ..self.options() }),
    {
        EngineOptionsBuilder { inner: EngineOptions { block_size: size, ..self.inner } }
    }

    /// Sets the Bloom filter bits per key.
    pub fn bloom_bits_per_key(self, bits: usize) -> (r: Self)
        ensures
            r.options() == (EngineOptions { bloom_bits_per_key: bits, ..self.options() }),
    {
        EngineOptionsBuilder { inner: EngineOptions { bloom_bits_per_key: bits, ..self.inner } }
    }

    /// Sets the compression algorithm.
    pub fn compression(self, compression: CompressionType) -> (r: Self)
        ensures
            r.options() == (EngineOptions { compression: compression, ..self.options() }),
    {
        EngineOptionsBuilder { inner: EngineOptions { compression: compression, ..self.inner } }
    }

    /// Sets whether statistics are collected.
    pub fn enable_statistics(self, enable: bool) -> (r: Self)
        ensures
            r.options() == (EngineOptions { enable_statistics: enable, ..self.options() }),
    {
        EngineOptionsBuilder { inner: EngineOptions { enable_statistics: enable, ..self.inner } }
    }

    /// Sets the number of memtable shards.
    pub fn memtable_shards(self, n: usize) -> (r: Self)
        ensures
            r.options() == (EngineOptions { memtable_shards: n, ..self.options() }),
    {
        EngineOptionsBuilder { inner: EngineOptions { memtable_shards: n, ..self.inner } }
    }

    /// The options, unchecked.
    pub fn build(self) -> (r: EngineOptions)
        ensures
            r == self.options(),
    {
        self.inner
    }

    /// The options, if they pass [`EngineOptions::validate`].
    pub fn try_build(self, cap: &LevelCapacity) -> (r: ForstResult<EngineOptions>)
        ensures
            match r {
                Ok(o) => o == self.options() && o.valid(*cap),
                Err(e) => !self.options().valid(*cap) && self.options().first_error(*cap) is Some
                    && e.says(ErrorKind::InvalidArgument, self.options().first_error(*cap)->0),
            },
    {
        match self.inner.validate(cap) {
            Ok(_) => Ok(self.inner),
            Err(e) => Err(e),
        }
    }
}

/// A default configuration with an ordinary path is valid.
pub proof fn law_default_is_valid(o: EngineOptions, cap: LevelCapacity)
    requires
        o.is_default_but_path(),
        0 < o.db_path@.len(),
        path_bytes(o.db_path@).len() <= MAX_DB_PATH_LEN,
        !path_bytes(o.db_path@).contains(0u8),
        !cap.saturates,
    ensures
        o.valid(cap),
        o.first_error(cap) is None,
{
}

/// Overrides of the engine options for one column family. `None` inherits.
#[derive(Debug, Clone)]
pub struct CfOptions {
    pub write_buffer_size: Option<usize>,
    pub max_write_buffer_number: Option<usize>,
    pub target_file_size_base: Option<usize>,
    pub compression: Option<CompressionType>,
    /// Name of the merge operator.
    pub merge_operator: Option<String>,
    /// Time to live in seconds.
    pub ttl_seconds: Option<u64>,
}

impl Default for CfOptions {
    fn default() -> (r: Self)
        ensures
            r.write_buffer_size is None,
            r.max_write_buffer_number is None,
            r.target_file_size_base is None,
            r.compression is None,
            r.merge_operator is None,
            r.ttl_seconds is None,
    {
        CfOptions {
            write_buffer_size: None,
            max_write_buffer_number: None,
            target_file_size_base: None,
            compression: None,
            merge_operator: None,
            ttl_seconds: None,
        }
    }
}

/// `over` if it is set, else `inherited`.
pub open spec fn or_inherited<T>(over: Option<T>, inherited: T) -> T {
    match over {
        Some(v) => v,
        None => inherited,
    }
}

impl CfOptions {
    /// The override of `write_buffer_size`, or the engine's value.
    pub fn effective_write_buffer_size(&self, engine: &EngineOptions) -> (r: usize)
        ensures
            r == or_inherited(self.write_buffer_size, engine.write_buffer_size),
    {
        self.write_buffer_size.unwrap_or(engine.write_buffer_size)
    }

    /// The override of `max_write_buffer_number`, or the engine's value.
    pub fn effective_max_write_buffer_number(&self, engine: &EngineOptions) -> (r: usize)
        ensures
            r == or_inherited(self.max_write_buffer_number, engine.max_write_buffer_number),
    {
        self.max_write_buffer_number.unwrap_or(engine.max_write_buffer_number)
    }

    /// The override of `target_file_size_base`, or the engine's value.
    pub fn effective_target_file_size_base(&self, engine: &EngineOptions) -> (r: usize)
        ensures
            r == or_inherited(self.target_file_size_base, engine.target_file_size_base),
    {
        self.target_file_size_base.unwrap_or(engine.target_file_size_base)
    }

    /// The override of `compression`, or the engine's value.
    pub fn effective_compression(&self, engine: &EngineOptions) -> (r: CompressionType)
        ensures
            r == or_inherited(self.compression, engine.compression),
    {
        self.compression.unwrap_or(engine.compression)
    }

    /// Bytes of all write buffers of the column family together.
    pub open spec fn memtable_peak(self, engine: EngineOptions) -> nat {
        or_inherited(self.write_buffer_size, engine.write_buffer_size) as nat * or_inherited(
            self.max_write_buffer_number,
            engine.max_write_buffer_number,
        ) as nat
    }

    /// Bytes of the Bloom filter of a table file of the column family.
    pub open spec fn bloom_peak(self, engine: EngineOptions) -> nat {
        bloom_bytes(
            or_inherited(self.target_file_size_base, engine.target_file_size_base),
            engine.bloom_bits_per_key,
        )
    }

    /// Everything that valid overrides meet.
    pub open spec fn valid(self, engine: EngineOptions) -> bool {
        &&& self.write_buffer_size matches Some(v) ==> MIN_WRITE_BUFFER_SIZE <= v
            <= MAX_WRITE_BUFFER_SIZE
        &&& self.max_write_buffer_number matches Some(v) ==> 1 <= v <= MAX_WRITE_BUFFER_NUMBER
        &&& self.target_file_size_base matches Some(v) ==> MIN_TARGET_FILE_SIZE_BASE <= v
            <= MAX_TARGET_FILE_SIZE_BASE
        &&& self.memtable_peak(engine) <= MAX_JOINT_MEMTABLE_BYTES
        &&& self.bloom_peak(engine) <= MAX_JOINT_BLOOM_BYTES
    }

    /// The message of the first check that fails; `None` if none does.
    pub open spec fn first_error(self, engine: EngineOptions) -> Option<Seq<char>> {
        if self.write_buffer_size is Some && self.write_buffer_size->0 == 0 {
            Some("CfOptions.write_buffer_size override must be > 0"@)
        } else if self.write_buffer_size is Some
            && self.write_buffer_size->0 < MIN_WRITE_BUFFER_SIZE {
            Some(
                "CfOptions.write_buffer_size override must be ≥ "@
                    + text::decimal(MIN_WRITE_BUFFER_SIZE as nat) + " bytes (4 KiB), got "@
                    + text::decimal(self.write_buffer_size->0 as nat),
            )
        } else if self.write_buffer_size is Some
            && self.write_buffer_size->0 > MAX_WRITE_BUFFER_SIZE {
            Some(
                "CfOptions.write_buffer_size override must be ≤ "@
                    + text::decimal(MAX_WRITE_BUFFER_SIZE as nat) + " bytes (1 TiB), got "@
                    + text::decimal(self.write_buffer_size->0 as nat),
            )
        } else if self.max_write_buffer_number is Some && self.max_write_buffer_number->0 == 0 {
            Some("CfOptions.max_write_buffer_number override must be > 0"@)
        } else if self.max_write_buffer_number is Some
            && self.max_write_buffer_number->0 > MAX_WRITE_BUFFER_NUMBER {
            Some(
                "CfOptions.max_write_buffer_number override must be ≤ "@
                    + text::decimal(MAX_WRITE_BUFFER_NUMBER as nat) + ", got "@
                    + text::decimal(self.max_write_buffer_number->0 as nat),
            )
        } else if self.target_file_size_base is Some && self.target_file_size_base->0 == 0 {
            Some("CfOptions.target_file_size_base override must be > 0"@)
        } else if self.target_file_size_base is Some
            && self.target_file_size_base->0 < MIN_TARGET_FILE_SIZE_BASE {
            Some(
                "CfOptions.target_file_size_base override must be ≥ "@
                    + text::decimal(MIN_TARGET_FILE_SIZE_BASE as nat) + " bytes (4 KiB), got "@
                    + text::decimal(self.target_file_size_base->0 as nat),
            )
        } else if self.target_file_size_base is Some
            && self.target_file_size_base->0 > MAX_TARGET_FILE_SIZE_BASE {
            Some(
                "CfOptions.target_file_size_base override must be ≤ "@
                    + text::decimal(MAX_TARGET_FILE_SIZE_BASE as nat) + " bytes (1 TiB), got "@
                    + text::decimal(self.target_file_size_base->0 as nat),
            )
        } else if self.memtable_peak(engine) > MAX_JOINT_MEMTABLE_BYTES {
            Some(
                memtable_message(
                    "CfOptions joint write_buffer_size × max_write_buffer_number = "@,
                    self.memtable_peak(engine),
                    " bytes (peak per-CF memtable RAM commitment would OOM-abort)"@,
                ),
            )
        } else if self.bloom_peak(engine) > MAX_JOINT_BLOOM_BYTES {
            Some(
                bloom_message(
                    "CfOptions joint bloom_bits_per_key × (target_file_size_base / "@,
                    self.bloom_peak(engine),
                    " bytes (per-CF SST bloom allocation would OOM-abort)"@,
                ),
            )
        } else {
            None
        }
    }

    /// Checks the overrides, and what they come to together with the engine's
    /// values.
    #[verifier::rlimit(40)]
    pub fn validate(&self, engine: &EngineOptions) -> (r: ForstResult<()>)
        ensures
            r is Ok <==> self.valid(*engine),
            match r {
                Ok(_) => self.first_error(*engine) is None,
                Err(e) => self.first_error(*engine) is Some && e.says(
                    ErrorKind::InvalidArgument,
                    self.first_error(*engine)->0,
                ),
            },
    {
        if let Some(v) = self.write_buffer_size {
            if v == 0 {
                return Err(
                    invalid_argument_text("CfOptions.write_buffer_size override must be > 0"),
                );
            }
            if (v as u64) < MIN_WRITE_BUFFER_SIZE {
                return Err(
                    ForstError::InvalidArgument(
                        text_with_two(
                            "CfOptions.write_buffer_size override must be ≥ ",
                            MIN_WRITE_BUFFER_SIZE,
                            " bytes (4 KiB), got ",
                            v as u64,
                        ),
                    ),
                );
            }
            if (v as u64) > MAX_WRITE_BUFFER_SIZE {
                return Err(
                    ForstError::InvalidArgument(
                        text_with_two(
                            "CfOptions.write_buffer_size override must be ≤ ",
                            MAX_WRITE_BUFFER_SIZE,
                            " bytes (1 TiB), got ",
                            v as u64,
                        ),
                    ),
                );
            }
        }
        if let Some(v) = self.max_write_buffer_number {
            if v == 0 {
                return Err(
                    invalid_argument_text("CfOptions.max_write_buffer_number override must be > 0"),
                );
            }
            if (v as u64) > MAX_WRITE_BUFFER_NUMBER {
                return Err(
                    ForstError::InvalidArgument(
                        text_with_two(
                            "CfOptions.max_write_buffer_number override must be ≤ ",
                            MAX_WRITE_BUFFER_NUMBER,
                            ", got ",
                            v as u64,
                        ),
                    ),
                );
            }
        }
        if let Some(v) = self.target_file_size_base {
            if v == 0 {
                return Err(
                    invalid_argument_text("CfOptions.target_file_size_base override must be > 0"),
                );
            }
            if (v as u64) < MIN_TARGET_FILE_SIZE_BASE {
                return Err(
                    ForstError::InvalidArgument(
                        text_with_two(
                            "CfOptions.target_file_size_base override must be ≥ ",
                            MIN_TARGET_FILE_SIZE_BASE,
                            " bytes (4 KiB), got ",
                            v as u64,
                        ),
                    ),
                );
            }
            if (v as u64) > MAX_TARGET_FILE_SIZE_BASE {
                return Err(
                    ForstError::InvalidArgument(
                        text_with_two(
                            "CfOptions.target_file_size_base override must be ≤ ",
                            MAX_TARGET_FILE_SIZE_BASE,
                            " bytes (1 TiB), got ",
                            v as u64,
                        ),
                    ),
                );
            }
        }
        let peak: u128 = mul_wide(
            self.effective_write_buffer_size(engine),
            self.effective_max_write_buffer_number(engine),
        );
        if peak > MAX_JOINT_MEMTABLE_BYTES as u128 {
            return Err(
                ForstError::InvalidArgument(
                    memtable_text(
                        "CfOptions joint write_buffer_size × max_write_buffer_number = ",
                        peak,
                        " bytes (peak per-CF memtable RAM commitment would OOM-abort)",
                    ),
                ),
            );
        }
        let bloom: u64 = projected_bloom(
            self.effective_target_file_size_base(engine),
            engine.bloom_bits_per_key,
        );
        if bloom > MAX_JOINT_BLOOM_BYTES {
            return Err(
                ForstError::InvalidArgument(
                    bloom_text(
                        "CfOptions joint bloom_bits_per_key × (target_file_size_base / ",
                        bloom,
                        " bytes (per-CF SST bloom allocation would OOM-abort)",
                    ),
                ),
            );
        }
        Ok(())
    }
}

/// Overrides that change nothing are valid wherever the engine options are.
pub proof fn law_inherited_options_are_valid(o: CfOptions, engine: EngineOptions, cap: LevelCapacity)
    requires
        engine.valid(cap),
        o.write_buffer_size is None,
        o.max_write_buffer_number is None,
        o.target_file_size_base is None,
    ensures
        o.valid(engine),
{
}

/// Which tiers a read looks at.
#[derive(Debug, Clone, Copy, PartialEq, Eq, Structural)]
pub enum ReadTier {
    /// Memtable, block cache and table files.
    ReadBoth,
    /// Memtable and block cache only.
    BlockCacheOnly,
}

impl Default for ReadTier {
    fn default() -> (r: Self)
        ensures
            r == ReadTier::ReadBoth,
    {
        ReadTier::ReadBoth
    }
}

/// Options of one read.
#[derive(Debug, Clone, Copy, PartialEq, Eq, Structural)]
pub struct ReadOptions {
    /// An iterator stops at a key with another prefix than the seek key.
    pub prefix_same_as_start: bool,
    /// Prefix filtering is off.
    pub total_order_seek: bool,
    /// Checksums are verified.
    pub verify_checksums: bool,
    /// Blocks that are read go to the block cache.
    pub fill_cache: bool,
    pub read_tier: ReadTier,
}

impl Default for ReadOptions {
    fn default() -> (r: Self)
        ensures
            r == (ReadOptions {
                prefix_same_as_start: false,
                total_order_seek: false,
                verify_checksums: true,
                fill_cache: true,
                read_tier: ReadTier::ReadBoth,
            }),
    {
        ReadOptions {
            prefix_same_as_start: false,
            total_order_seek: false,
            verify_checksums: true,
            fill_cache: true,
            read_tier: ReadTier::ReadBoth,
        }
    }
}

/// Options of one write.
#[derive(Debug, Clone, Copy, PartialEq, Eq, Structural)]
pub struct WriteOptions {
    /// The write is durable when it returns.
    pub sync: bool,
    /// The write is not logged.
    pub disable_wal: bool,
}

impl Default for WriteOptions {
    fn default() -> (r: Self)
        ensures
            r == (WriteOptions { sync: false, disable_wal: false }),
    {
        WriteOptions { sync: false, disable_wal: false }
    }
}

/// The limits, in numbers: options are valid exactly within all of them.
pub proof fn law_options_are_valid_within_limits(o: EngineOptions, cap: LevelCapacity, keys: int)
    requires
        keys == o.target_file_size_base as int / 16 * o.bloom_bits_per_key,
    ensures
        o.valid(cap) <==> {
            &&& o.db_path@.len() > 0
            &&& path_bytes(o.db_path@).len() <= 4096
            &&& forall|i: int|
                0 <= i < path_bytes(o.db_path@).len() ==> #[trigger] path_bytes(o.db_path@)[i] != 0
            &&& 1 <= o.num_levels <= 7
            &&& 4096 <= o.write_buffer_size <= 0x100_0000_0000
            &&& 1 <= o.max_write_buffer_number <= 1024
            &&& 512 <= o.block_size <= 0x4000_0000
            &&& 0x10_0000 <= o.max_bytes_for_level_base <= 0x4_0000_0000_0000
            &&& 4096 <= o.target_file_size_base <= 0x100_0000_0000
            &&& 1 <= o.max_background_compactions <= 1024
            &&& 1 <= o.max_background_flushes <= 1024
            &&& o.bloom_bits_per_key <= 256
            &&& o.block_cache_size <= 0x4_0000_0000_0000
            &&& 0x3ff0_0000_0000_0000 < o.max_bytes_for_level_multiplier.0
                <= 0x4090_0000_0000_0000
            &&& !cap.saturates
            &&& o.write_buffer_size * o.max_write_buffer_number <= 0x800_0000_0000
            &&& if keys <= usize::MAX {
                keys / 8 <= 0x40_0000_0000
            } else {
                usize::MAX as int / 8 <= 0x40_0000_0000
            }
        },
        o.valid(cap) <==> o.first_error(cap) is None,
{
    let p = path_bytes(o.db_path@);
    if !p.contains(0u8) {
        assert forall|i: int| 0 <= i < p.len() implies #[trigger] p[i] != 0 by {
            assert(p.contains(p[i]));
        }
    }
    assert(bloom_bytes(o.target_file_size_base, o.bloom_bits_per_key) == if keys <= usize::MAX {
        keys / 8
    } else {
        usize::MAX as int / 8
    });
}

/// The options of a column family go before those of the engine, one by one, and must
/// keep within the same limits together with what they inherit.
pub proof fn law_family_options_go_first(
    o: CfOptions,
    engine: EngineOptions,
    buffer: usize,
    number: usize,
    target: usize,
    keys: int,
)
    requires
        buffer == match o.write_buffer_size {
            Some(v) => v,
            None => engine.write_buffer_size,
        },
        number == match o.max_write_buffer_number {
            Some(v) => v,
            None => engine.max_write_buffer_number,
        },
        target == match o.target_file_size_base {
            Some(v) => v,
            None => engine.target_file_size_base,
        },
        keys == target as int / 16 * engine.bloom_bits_per_key,
    ensures
        or_inherited(o.write_buffer_size, engine.write_buffer_size) == buffer,
        or_inherited(o.max_write_buffer_number, engine.max_write_buffer_number) == number,
        or_inherited(o.target_file_size_base, engine.target_file_size_base) == target,
        or_inherited(o.compression, engine.compression) == match o.compression {
            Some(c) => c,
            None => engine.compression,
        },
        o.valid(engine) <==> {
            &&& o.write_buffer_size is Some ==> 4096 <= buffer <= 0x100_0000_0000
            &&& o.max_write_buffer_number is Some ==> 1 <= number <= 1024
            &&& o.target_file_size_base is Some ==> 4096 <= target <= 0x100_0000_0000
            &&& buffer * number <= 0x800_0000_0000
            &&& if keys <= usize::MAX {
                keys / 8 <= 0x40_0000_0000
            } else {
                usize::MAX as int / 8 <= 0x40_0000_0000
            }
        },
        o.valid(engine) <==> o.first_error(engine) is None,
{
    assert(o.bloom_peak(engine) == if keys <= usize::MAX {
        keys / 8
    } else {
        usize::MAX as int / 8
    });
}

/// The default options, in numbers.
pub proof fn law_default_options(o: EngineOptions)
    requires
        o.is_default(),
    ensures
        o.db_path@.len() == 0,
        o.write_buffer_size == 0x400_0000,
        o.max_write_buffer_number == 3,
        o.target_file_size_base == 0x400_0000,
        o.max_bytes_for_level_base == 0x1000_0000,
        o.max_bytes_for_level_multiplier.0 == 0x4024_0000_0000_0000,
        o.num_levels == 7,
        o.max_background_compactions == 4,
        o.max_background_flushes == 2,
        o.block_cache_size == 0x1000_0000,
        o.block_size == 0x1_0000,
        o.bloom_bits_per_key == 10,
        o.compression is Lz4,
        o.enable_statistics,
        o.memtable_shards == 16,
{
}

/// Of the limits that options break, the first in this order is reported, in its own
/// words: the path, the number of levels, what must not be zero, and then the ranges.
pub proof fn law_first_broken_limit_is_reported(
    o: EngineOptions,
    cap: LevelCapacity,
    broken: Seq<bool>,
)
    requires
        broken.len() == 27,
        broken[0] == (o.db_path@.len() == 0),
        broken[1] == (path_bytes(o.db_path@).len() > MAX_DB_PATH_LEN),
        broken[2] == (path_bytes(o.db_path@).contains(0u8)),
        broken[3] == (o.num_levels == 0 || o.num_levels > MAX_LEVELS),
        broken[4] == (o.write_buffer_size == 0),
        broken[5] == (o.block_size == 0),
        broken[6] == (o.max_bytes_for_level_base == 0),
        broken[7] == (o.target_file_size_base == 0),
        broken[8] == (o.max_background_compactions == 0),
        broken[9] == (o.max_background_flushes == 0),
        broken[10] == (o.max_write_buffer_number == 0),
        broken[11] == (o.bloom_bits_per_key > MAX_BLOOM_BITS_PER_KEY),
        broken[12] == (o.block_size < MIN_BLOCK_SIZE || o.block_size > MAX_BLOCK_SIZE),
        broken[13] == (o.target_file_size_base < MIN_TARGET_FILE_SIZE_BASE),
        broken[14] == (o.write_buffer_size < MIN_WRITE_BUFFER_SIZE),
        broken[15] == (o.max_bytes_for_level_base < MIN_LEVEL_BASE),
        broken[16] == (o.target_file_size_base > MAX_TARGET_FILE_SIZE_BASE),
        broken[17] == (o.max_write_buffer_number > MAX_WRITE_BUFFER_NUMBER),
        broken[18] == (!o.max_bytes_for_level_multiplier.in_bounds()),
        broken[19] == (cap.saturates),
        broken[20] == (o.write_buffer_size as nat * o.max_write_buffer_number as nat
            > MAX_JOINT_MEMTABLE_BYTES),
        broken[21] == (bloom_bytes(o.target_file_size_base, o.bloom_bits_per_key)
            > MAX_JOINT_BLOOM_BYTES),
        broken[22] == (o.max_bytes_for_level_base > MAX_LEVEL_BASE),
        broken[23] == (o.write_buffer_size > MAX_WRITE_BUFFER_SIZE),
        broken[24] == (o.block_cache_size > MAX_BLOCK_CACHE_SIZE),
        broken[25] == (o.max_background_compactions > MAX_BACKGROUND_THREADS),
        broken[26] == (o.max_background_flushes > MAX_BACKGROUND_THREADS),
    ensures
        broken[0] ==> o.first_error(cap) == Some("db_path must not be empty"@),
        broken[1] && (forall|j: int| 0 <= j < 1 ==> !#[trigger] broken[j])
            ==> o.first_error(cap) == Some(
            "db_path length must be ≤ "@ + text::decimal(MAX_DB_PATH_LEN as nat)
                + " bytes (POSIX PATH_MAX), got "@ + text::decimal(path_bytes(o.db_path@).len()),
        ),
        broken[2] && (forall|j: int| 0 <= j < 2 ==> !#[trigger] broken[j])
            ==> o.first_error(cap) == Some("db_path must not contain embedded NUL bytes"@),
        broken[3] && (forall|j: int| 0 <= j < 3 ==> !#[trigger] broken[j])
            ==> o.first_error(cap) == Some(
            "num_levels must be in 1..="@ + text::decimal(MAX_LEVELS as nat) + ", got "@
                + text::decimal(o.num_levels as nat),
        ),
        broken[4] && (forall|j: int| 0 <= j < 4 ==> !#[trigger] broken[j])
            ==> o.first_error(cap) == Some("write_buffer_size must be greater than zero"@),
        broken[5] && (forall|j: int| 0 <= j < 5 ==> !#[trigger] broken[j])
            ==> o.first_error(cap) == Some("block_size must be greater than zero"@),
        broken[6] && (forall|j: int| 0 <= j < 6 ==> !#[trigger] broken[j])
            ==> o.first_error(cap) == Some("max_bytes_for_level_base must be greater than zero"@),
        broken[7] && (forall|j: int| 0 <= j < 7 ==> !#[trigger] broken[j])
            ==> o.first_error(cap) == Some("target_file_size_base must be greater than zero"@),
        broken[8] && (forall|j: int| 0 <= j < 8 ==> !#[trigger] broken[j])
            ==> o.first_error(cap) == Some(
            "max_background_compactions must be greater than zero"@,
        ),
        broken[9] && (forall|j: int| 0 <= j < 9 ==> !#[trigger] broken[j])
            ==> o.first_error(cap) == Some("max_background_flushes must be greater than zero"@),
        broken[10] && (forall|j: int| 0 <= j < 10 ==> !#[trigger] broken[j])
            ==> o.first_error(cap) == Some("max_write_buffer_number must be greater than zero"@),
        broken[11] && (forall|j: int| 0 <= j < 11 ==> !#[trigger] broken[j])
            ==> o.first_error(cap) == Some(
            "bloom_bits_per_key must be ≤ "@ + text::decimal(MAX_BLOOM_BITS_PER_KEY as nat)
                + ", got "@ + text::decimal(o.bloom_bits_per_key as nat),
        ),
        broken[12] && (forall|j: int| 0 <= j < 12 ==> !#[trigger] broken[j])
            ==> o.first_error(cap) == Some(
            "block_size must be in ["@ + text::decimal(MIN_BLOCK_SIZE as nat) + ", "@
                + text::decimal(MAX_BLOCK_SIZE as nat) + "] bytes, got "@
                + text::decimal(o.block_size as nat),
        ),
        broken[13] && (forall|j: int| 0 <= j < 13 ==> !#[trigger] broken[j])
            ==> o.first_error(cap) == Some(
            "target_file_size_base must be ≥ "@ + text::decimal(MIN_TARGET_FILE_SIZE_BASE as nat)
                + " bytes (4 KiB), got "@ + text::decimal(o.target_file_size_base as nat),
        ),
        broken[14] && (forall|j: int| 0 <= j < 14 ==> !#[trigger] broken[j])
            ==> o.first_error(cap) == Some(
            "write_buffer_size must be ≥ "@ + text::decimal(MIN_WRITE_BUFFER_SIZE as nat)
                + " bytes (4 KiB), got "@ + text::decimal(o.write_buffer_size as nat),
        ),
        broken[15] && (forall|j: int| 0 <= j < 15 ==> !#[trigger] broken[j])
            ==> o.first_error(cap) == Some(
            "max_bytes_for_level_base must be ≥ "@ + text::decimal(MIN_LEVEL_BASE as nat)
                + " bytes (1 MiB), got "@ + text::decimal(o.max_bytes_for_level_base as nat),
        ),
        broken[16] && (forall|j: int| 0 <= j < 16 ==> !#[trigger] broken[j])
            ==> o.first_error(cap) == Some(
            "target_file_size_base must be ≤ "@ + text::decimal(MAX_TARGET_FILE_SIZE_BASE as nat)
                + " bytes (1 TiB), got "@ + text::decimal(o.target_file_size_base as nat),
        ),
        broken[17] && (forall|j: int| 0 <= j < 17 ==> !#[trigger] broken[j])
            ==> o.first_error(cap) == Some(
            "max_write_buffer_number must be ≤ "@ + text::decimal(MAX_WRITE_BUFFER_NUMBER as nat)
                + ", got "@ + text::decimal(o.max_write_buffer_number as nat),
        ),
        broken[18] && (forall|j: int| 0 <= j < 18 ==> !#[trigger] broken[j])
            ==> o.first_error(cap) == Some(
            "max_bytes_for_level_multiplier must be finite and in (1.0, 1024], got "@
                + cap.multiplier_text@,
        ),
        broken[19] && (forall|j: int| 0 <= j < 19 ==> !#[trigger] broken[j])
            ==> o.first_error(cap) == Some(o.capacity_message(cap)),
        broken[20] && (forall|j: int| 0 <= j < 20 ==> !#[trigger] broken[j])
            ==> o.first_error(cap) == Some(
            "joint write_buffer_size × max_write_buffer_number = "@
                + text::decimal(o.write_buffer_size as nat * o.max_write_buffer_number as nat)
                + " bytes exceeds "@ + text::decimal(MAX_JOINT_MEMTABLE_BYTES as nat)
                + " bytes (peak memtable RAM commitment would OOM-abort under flush stall)"@,
        ),
        broken[21] && (forall|j: int| 0 <= j < 21 ==> !#[trigger] broken[j])
            ==> o.first_error(cap) == Some(
            bloom_message(
                "joint bloom_bits_per_key × (target_file_size_base / "@,
                bloom_bytes(o.target_file_size_base, o.bloom_bits_per_key),
                " bytes (per-SST bloom allocation would OOM-abort)"@,
            ),
        ),
        broken[22] && (forall|j: int| 0 <= j < 22 ==> !#[trigger] broken[j])
            ==> o.first_error(cap) == Some(
            "max_bytes_for_level_base must be ≤ "@ + text::decimal(MAX_LEVEL_BASE as nat)
                + " bytes (1 PiB), got "@ + text::decimal(o.max_bytes_for_level_base as nat),
        ),
        broken[23] && (forall|j: int| 0 <= j < 23 ==> !#[trigger] broken[j])
            ==> o.first_error(cap) == Some(
            "write_buffer_size must be ≤ "@ + text::decimal(MAX_WRITE_BUFFER_SIZE as nat)
                + " bytes (1 TiB), got "@ + text::decimal(o.write_buffer_size as nat),
        ),
        broken[24] && (forall|j: int| 0 <= j < 24 ==> !#[trigger] broken[j])
            ==> o.first_error(cap) == Some(
            "block_cache_size must be ≤ "@ + text::decimal(MAX_BLOCK_CACHE_SIZE as nat)
                + " bytes (1 PiB), got "@ + text::decimal(o.block_cache_size as nat),
        ),
        broken[25] && (forall|j: int| 0 <= j < 25 ==> !#[trigger] broken[j])
            ==> o.first_error(cap) == Some(
            "max_background_compactions must be ≤ "@
                + text::decimal(MAX_BACKGROUND_THREADS as nat) + ", got "@
                + text::decimal(o.max_background_compactions as nat),
        ),
        broken[26] && (forall|j: int| 0 <= j < 26 ==> !#[trigger] broken[j])
            ==> o.first_error(cap) == Some(
            "max_background_flushes must be ≤ "@ + text::decimal(MAX_BACKGROUND_THREADS as nat)
                + ", got "@ + text::decimal(o.max_background_flushes as nat),
        ),
        (forall|j: int| 0 <= j < 27 ==> !#[trigger] broken[j]) ==> o.first_error(cap) is None,
{
}

/// Of the limits that the options of a family break, the first in this order is
/// reported, in its own words.
pub proof fn law_first_broken_family_limit_is_reported(o: CfOptions, engine: EngineOptions, broken: Seq<bool>)
    requires
        broken.len() == 10,
        broken[0] == (o.write_buffer_size is Some && o.write_buffer_size->0 == 0),
        broken[1] == (o.write_buffer_size is Some
            && o.write_buffer_size->0 < MIN_WRITE_BUFFER_SIZE),
        broken[2] == (o.write_buffer_size is Some
            && o.write_buffer_size->0 > MAX_WRITE_BUFFER_SIZE),
        broken[3] == (o.max_write_buffer_number is Some && o.max_write_buffer_number->0 == 0),
        broken[4] == (o.max_write_buffer_number is Some
            && o.max_write_buffer_number->0 > MAX_WRITE_BUFFER_NUMBER),
        broken[5] == (o.target_file_size_base is Some && o.target_file_size_base->0 == 0),
        broken[6] == (o.target_file_size_base is Some
            && o.target_file_size_base->0 < MIN_TARGET_FILE_SIZE_BASE),
        broken[7] == (o.target_file_size_base is Some
            && o.target_file_size_base->0 > MAX_TARGET_FILE_SIZE_BASE),
        broken[8] == (o.memtable_peak(engine) > MAX_JOINT_MEMTABLE_BYTES),
        broken[9] == (o.bloom_peak(engine) > MAX_JOINT_BLOOM_BYTES),
    ensures
        broken[0] ==> o.first_error(engine) == Some(
            "CfOptions.write_buffer_size override must be > 0"@,
        ),
        broken[1] && (forall|j: int| 0 <= j < 1 ==> !#[trigger] broken[j])
            ==> o.first_error(engine) == Some(
            "CfOptions.write_buffer_size override must be ≥ "@
                + text::decimal(MIN_WRITE_BUFFER_SIZE as nat) + " bytes (4 KiB), got "@
                + text::decimal(o.write_buffer_size->0 as nat),
        ),
        broken[2] && (forall|j: int| 0 <= j < 2 ==> !#[trigger] broken[j])
            ==> o.first_error(engine) == Some(
            "CfOptions.write_buffer_size override must be ≤ "@
                + text::decimal(MAX_WRITE_BUFFER_SIZE as nat) + " bytes (1 TiB), got "@
                + text::decimal(o.write_buffer_size->0 as nat),
        ),
        broken[3] && (forall|j: int| 0 <= j < 3 ==> !#[trigger] broken[j])
            ==> o.first_error(engine) == Some(
            "CfOptions.max_write_buffer_number override must be > 0"@,
        ),
        broken[4] && (forall|j: int| 0 <= j < 4 ==> !#[trigger] broken[j])
            ==> o.first_error(engine) == Some(
            "CfOptions.max_write_buffer_number override must be ≤ "@
                + text::decimal(MAX_WRITE_BUFFER_NUMBER as nat) + ", got "@
                + text::decimal(o.max_write_buffer_number->0 as nat),
        ),
        broken[5] && (forall|j: int| 0 <= j < 5 ==> !#[trigger] broken[j])
            ==> o.first_error(engine) == Some(
            "CfOptions.target_file_size_base override must be > 0"@,
        ),
        broken[6] && (forall|j: int| 0 <= j < 6 ==> !#[trigger] broken[j])
            ==> o.first_error(engine) == Some(
            "CfOptions.target_file_size_base override must be ≥ "@
                + text::decimal(MIN_TARGET_FILE_SIZE_BASE as nat) + " bytes (4 KiB), got "@
                + text::decimal(o.target_file_size_base->0 as nat),
        ),
        broken[7] && (forall|j: int| 0 <= j < 7 ==> !#[trigger] broken[j])
            ==> o.first_error(engine) == Some(
            "CfOptions.target_file_size_base override must be ≤ "@
                + text::decimal(MAX_TARGET_FILE_SIZE_BASE as nat) + " bytes (1 TiB), got "@
                + text::decimal(o.target_file_size_base->0 as nat),
        ),
        broken[8] && (forall|j: int| 0 <= j < 8 ==> !#[trigger] broken[j])
            ==> o.first_error(engine) == Some(
            memtable_message(
                "CfOptions joint write_buffer_size × max_write_buffer_number = "@,
                o.memtable_peak(engine),
                " bytes (peak per-CF memtable RAM commitment would OOM-abort)"@,
            ),
        ),
        broken[9] && (forall|j: int| 0 <= j < 9 ==> !#[trigger] broken[j])
            ==> o.first_error(engine) == Some(
            bloom_message(
                "CfOptions joint bloom_bits_per_key × (target_file_size_base / "@,
                o.bloom_peak(engine),
                " bytes (per-CF SST bloom allocation would OOM-abort)"@,
            ),
        ),
        (forall|j: int| 0 <= j < 10 ==> !#[trigger] broken[j]) ==> o.first_error(engine) is None,
{
}

/// The length of a path is that of its UTF-8 bytes, and the words about the limits
/// that options break together name what they come to and what is allowed.
pub proof fn law_joint_limit_messages(
    o: EngineOptions,
    cap: LevelCapacity,
    path: Seq<char>,
    head: Seq<char>,
    n: nat,
    tail: Seq<char>,
)
    ensures
        path_bytes(path) == vstd::utf8::encode_utf8(path),
        memtable_message(head, n, tail) == head + text::decimal(n) + " bytes exceeds "@
            + text::decimal(0x800_0000_0000) + tail,
        bloom_message(head, n, tail) == head + text::decimal(16) + ") / 8 = "@ + text::decimal(n)
            + " bytes exceeds "@ + text::decimal(0x40_0000_0000) + tail,
        o.capacity_message(cap) == "joint level-capacity product saturates: base="@ + text::decimal(
            o.max_bytes_for_level_base as nat,
        ) + ", multiplier="@ + cap.multiplier_text@ + ", num_levels="@ + text::decimal(
            o.num_levels as nat,
        ) + " → projected="@ + cap.projected_text@ + " > usize::MAX/2 ("@ + cap.half_text@ + ")"@,
{
}

} // verus!
