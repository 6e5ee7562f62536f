//! How the store on disk is configured.

use vstd::prelude::*;

verus! {

/// The columns of the store that this library names.
#[derive(Clone, Copy, Debug, PartialEq, Eq, Structural)]
pub enum DBCol {
    /// The version of the store.
    DbVersion,
    /// The state tries.
    State,
    /// The peers of the address book.
    Peers,
    /// The announcements of accounts.
    AccountAnnouncements,
}

/// A shard in a layout of a given version.
#[derive(Clone, Copy, Debug, PartialEq, Eq, Structural)]
pub struct ShardUId {
    pub version: u32,
    pub shard_id: u32,
}

/// How many files the store opens at once unless told otherwise.
pub const DEFAULT_MAX_OPEN_FILES: u32 = 10_000;

/// The size in bytes of the cache of the state column unless told otherwise:
/// 512 MiB.
pub const DEFAULT_COL_STATE_CACHE_SIZE: u64 = 536_870_912;

/// The size in bytes of a block of the store unless told otherwise: 16 KiB.
pub const DEFAULT_BLOCK_SIZE: u64 = 16_384;

/// The size in bytes of the cache of every column but the state: 32 MiB.
pub const DEFAULT_COL_CACHE_SIZE: u64 = 33_554_432;

/// How many entries the cache of the trie of the listed shard holds unless
/// told otherwise.
pub const DEFAULT_TRIE_CACHE_CAPACITY: usize = 2_000_000;

/// How the store is configured. Sizes are in bytes.
#[derive(Debug)]
pub struct StoreConfig {
    /// Writes to the store fail.
    pub read_only: bool,
    /// Statistics of the storage layer are collected.
    pub enable_statistics: bool,
    /// The statistics are exported as metrics.
    pub enable_statistics_export: bool,
    /// How many files of the store are open at once.
    pub max_open_files: u32,
    /// The size of the cache of the state column.
    pub col_state_cache_size: u64,
    /// The size of a block of the store.
    pub block_size: u64,
    /// How many entries the caches of the tries of some shards hold.
    pub trie_cache_capacities: Vec<(ShardUId, usize)>,
}

/// Whether `config` has the values that hold unless told otherwise.
pub open spec fn is_default_config(config: StoreConfig) -> bool {
    &&& !config.read_only
    &&& !config.enable_statistics
    &&& config.enable_statistics_export
    &&& config.max_open_files == DEFAULT_MAX_OPEN_FILES
    &&& config.col_state_cache_size == DEFAULT_COL_STATE_CACHE_SIZE
    &&& config.block_size == DEFAULT_BLOCK_SIZE
    &&& config.trie_cache_capacities@ == seq![
        (ShardUId { version: 1, shard_id: 3 }, DEFAULT_TRIE_CACHE_CAPACITY),
    ]
}

/// Whether statistics are exported unless told otherwise: they are.
pub fn default_enable_statistics_export() -> (export: bool)
    ensures
        export,
{
    StoreConfig::const_default().enable_statistics_export
}

/// How many files the store opens at once unless told otherwise: 10,000.
pub fn default_max_open_files() -> (files: u32)
    ensures
        files == DEFAULT_MAX_OPEN_FILES,
{
    StoreConfig::const_default().max_open_files
}

/// The size of the cache of the state column unless told otherwise.
pub fn default_col_state_cache_size() -> (size: u64)
    ensures
        size == DEFAULT_COL_STATE_CACHE_SIZE,
{
    StoreConfig::const_default().col_state_cache_size
}

/// The size of a block of the store unless told otherwise.
pub fn default_block_size() -> (size: u64)
    ensures
        size == DEFAULT_BLOCK_SIZE,
{
    StoreConfig::const_default().block_size
}

impl StoreConfig {
    /// The configuration that holds unless told otherwise.
    fn const_default() -> (config: StoreConfig)
        ensures
            is_default_config(config),
    {
        let mut trie_cache_capacities: Vec<(ShardUId, usize)> = Vec::new();
        trie_cache_capacities.push(
            (ShardUId { version: 1, shard_id: 3 }, DEFAULT_TRIE_CACHE_CAPACITY),
        );
        assert(trie_cache_capacities@ =~= seq![
            (ShardUId { version: 1, shard_id: 3 }, DEFAULT_TRIE_CACHE_CAPACITY),
        ]);
        StoreConfig {
            read_only: false,
            enable_statistics: false,
            enable_statistics_export: true,
            max_open_files: DEFAULT_MAX_OPEN_FILES,
            col_state_cache_size: DEFAULT_COL_STATE_CACHE_SIZE,
            block_size: DEFAULT_BLOCK_SIZE,
            trie_cache_capacities,
        }
    }

    /// The default configuration, for reading only.
    pub fn read_only() -> (config: StoreConfig)
        ensures
            config.read_only,
            is_default_config(StoreConfig { read_only: false, ..config }),
    {
        StoreConfig::const_default().with_read_only(true)
    }

    /// The default configuration, for reading and writing.
    pub fn read_write() -> (config: StoreConfig)
        ensures
            is_default_config(config),
    {
        Self::const_default()
    }

    /// This configuration, for reading only or not as `read_only` says.
    pub fn with_read_only(self, read_only: bool) -> (config: StoreConfig)
        ensures
            config == (StoreConfig { read_only, ..self }),
    {
        let mut config = self;
        config.read_only = read_only;
        config
    }

    /// The size of the cache of the column: what is configured for the state
    /// column, and 32 MiB for every other column.
    pub fn col_cache_size(&self, col: DBCol) -> (size: u64)
        ensures
            size == (if col == DBCol::State {
                self.col_state_cache_size
            } else {
                DEFAULT_COL_CACHE_SIZE
            }),
    {
        match col {
            DBCol::State => self.col_state_cache_size,
            _ => DEFAULT_COL_CACHE_SIZE,
        }
    }
}

impl Default for StoreConfig {
    fn default() -> (config: StoreConfig)
        ensures
            is_default_config(config),
    {
        StoreConfig::const_default()
    }
}

} // verus!
