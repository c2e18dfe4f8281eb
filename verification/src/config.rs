//! Configuration of persistence: directories, WAL rotation, snapshot and
//! compaction schedules, with defaults and overrides from the environment.
use crate::error::{EcsDbError, Result};
use crate::numbers::{bool_value, i32_value, parse_bool, parse_i32, parse_unsigned, unsigned_value};
use crate::text::{join, owned};
use std::time::Duration;
use vstd::prelude::*;

verus! {

/// `Duration::from_secs` of `secs`.
pub uninterp spec fn duration_of_secs(secs: u64) -> Duration;

/// `Duration::from_secs`: the duration of `secs` seconds.
#[verifier::external_body]
fn from_secs(secs: u64) -> (d: Duration)
    ensures
        d == duration_of_secs(secs),
{
    Duration::from_secs(secs)
}

/// Configuration of persistence.
#[derive(Debug, Clone)]
pub struct PersistenceConfig {
    /// Directory of snapshot files.
    pub snapshot_dir: String,
    /// Directory of write-ahead log files.
    pub wal_dir: String,
    /// Directory of archived log files.
    pub archive_dir: String,
    /// Size in bytes at which a log file is rotated.
    pub max_wal_file_size: u64,
    pub sync_on_write: bool,
    /// Committed transactions between snapshots.
    pub snapshot_interval_transactions: u64,
    pub snapshot_interval_seconds: u64,
    pub compress_snapshots: bool,
    /// zstd level, 1 to 22.
    pub snapshot_compression_level: i32,
    pub compress_archived_wal: bool,
    pub compaction_interval_seconds: u64,
    /// Log files needed before compaction starts.
    pub min_wal_files_for_compaction: usize,
    pub keep_snapshots: usize,
    pub keep_archived_wal_files: usize,
}

/// The configuration with every default.
pub open spec fn is_default(c: PersistenceConfig) -> bool {
    &&& c.snapshot_dir@ == "./snapshots"@
    &&& c.wal_dir@ == "./wal"@
    &&& c.archive_dir@ == "./wal/archive"@
    &&& c.max_wal_file_size == 64 * 1024 * 1024
    &&& c.sync_on_write
    &&& c.snapshot_interval_transactions == 1000
    &&& c.snapshot_interval_seconds == 3600
    &&& c.compress_snapshots
    &&& c.snapshot_compression_level == 3
    &&& !c.compress_archived_wal
    &&& c.compaction_interval_seconds == 86400
    &&& c.min_wal_files_for_compaction == 5
    &&& c.keep_snapshots == 2
    &&& c.keep_archived_wal_files == 1
}

impl Default for PersistenceConfig {
    fn default() -> (c: Self)
        ensures
            is_default(c),
    {
        PersistenceConfig {
            snapshot_dir: owned("./snapshots"),
            wal_dir: owned("./wal"),
            archive_dir: owned("./wal/archive"),
            max_wal_file_size: 64 * 1024 * 1024,
            sync_on_write: true,
            snapshot_interval_transactions: 1000,
            snapshot_interval_seconds: 3600,
            compress_snapshots: true,
            snapshot_compression_level: 3,
            compress_archived_wal: false,
            compaction_interval_seconds: 86400,
            min_wal_files_for_compaction: 5,
            keep_snapshots: 2,
            keep_archived_wal_files: 1,
        }
    }
}

/// The value of the first variable named `name` in `vars`.
pub open spec fn lookup(vars: Seq<(String, String)>, name: Seq<char>) -> Option<Seq<char>>
    decreases vars.len(),
{
    if vars.len() == 0 {
        None
    } else if vars[0].0@ == name {
        Some(vars[0].1@)
    } else {
        lookup(vars.drop_first(), name)
    }
}

fn find_var<'a>(vars: &'a [(String, String)], name: &str) -> (r: Option<&'a String>)
    ensures
        r matches Some(v) ==> lookup(vars@, name@) == Some(v@),
        r is None ==> lookup(vars@, name@) is None,
{
    let key = owned(name);
    let mut i: usize = 0;
    assert(vars@.skip(0) =~= vars@);
    while i < vars.len()
        invariant
            i <= vars@.len(),
            key@ == name@,
            lookup(vars@, name@) == lookup(vars@.skip(i as int), name@),
        decreases vars@.len() - i,
    {
        assert(vars@.skip(i as int).drop_first() =~= vars@.skip(i + 1));
        if vars[i].0 == key {
            return Some(&vars[i].1);
        }
        i += 1;
    }
    None
}

/// A variable whose value is a number in `0..=max`.
pub open spec fn number_ok(vars: Seq<(String, String)>, name: Seq<char>, max: nat) -> bool {
    lookup(vars, name) matches Some(v) ==> unsigned_value(v, 10, max) is Some
}

/// The number a variable sets, or `current` when it is absent.
pub open spec fn number_of(vars: Seq<(String, String)>, name: Seq<char>, max: nat, current: nat) -> nat {
    match lookup(vars, name) {
        Some(v) => unsigned_value(v, 10, max).unwrap(),
        None => current,
    }
}

/// A variable whose value is "true" or "false".
pub open spec fn bool_ok(vars: Seq<(String, String)>, name: Seq<char>) -> bool {
    lookup(vars, name) matches Some(v) ==> bool_value(v) is Some
}

/// The boolean a variable sets, or `current` when it is absent.
pub open spec fn bool_of(vars: Seq<(String, String)>, name: Seq<char>, current: bool) -> bool {
    match lookup(vars, name) {
        Some(v) => bool_value(v).unwrap(),
        None => current,
    }
}

/// Every override in `vars` is well formed.
pub open spec fn overrides_ok(vars: Seq<(String, String)>) -> bool {
    &&& number_ok(vars, "ECDB_MAX_WAL_FILE_SIZE"@, u64::MAX as nat)
    &&& bool_ok(vars, "ECDB_SYNC_ON_WRITE"@)
    &&& number_ok(vars, "ECDB_SNAPSHOT_INTERVAL_TX"@, u64::MAX as nat)
    &&& number_ok(vars, "ECDB_SNAPSHOT_INTERVAL_SEC"@, u64::MAX as nat)
    &&& bool_ok(vars, "ECDB_COMPRESS_SNAPSHOTS"@)
    &&& (lookup(vars, "ECDB_SNAPSHOT_COMPRESSION_LEVEL"@) matches Some(v) ==> i32_value(v) is Some)
    &&& bool_ok(vars, "ECDB_COMPRESS_ARCHIVED_WAL"@)
    &&& number_ok(vars, "ECDB_COMPACTION_INTERVAL_SEC"@, u64::MAX as nat)
    &&& number_ok(vars, "ECDB_MIN_WAL_FILES_FOR_COMPACTION"@, usize::MAX as nat)
    &&& number_ok(vars, "ECDB_KEEP_SNAPSHOTS"@, usize::MAX as nat)
    &&& number_ok(vars, "ECDB_KEEP_ARCHIVED_WAL_FILES"@, usize::MAX as nat)
}

/// `c` is `old` with every override of `vars` applied.
pub open spec fn overridden(old: PersistenceConfig, c: PersistenceConfig, vars: Seq<(String, String)>) -> bool {
    &&& c.snapshot_dir@ == (match lookup(vars, "ECDB_SNAPSHOT_DIR"@) {
        Some(v) => v,
        None => old.snapshot_dir@,
    })
    &&& c.wal_dir@ == (match lookup(vars, "ECDB_WAL_DIR"@) {
        Some(v) => v,
        None => old.wal_dir@,
    })
    &&& c.archive_dir@ == (match lookup(vars, "ECDB_ARCHIVE_DIR"@) {
        Some(v) => v,
        None => old.archive_dir@,
    })
    &&& c.max_wal_file_size == number_of(vars, "ECDB_MAX_WAL_FILE_SIZE"@, u64::MAX as nat, old.max_wal_file_size as nat)
    &&& c.sync_on_write == bool_of(vars, "ECDB_SYNC_ON_WRITE"@, old.sync_on_write)
    &&& c.snapshot_interval_transactions == number_of(vars, "ECDB_SNAPSHOT_INTERVAL_TX"@, u64::MAX as nat, old.snapshot_interval_transactions as nat)
    &&& c.snapshot_interval_seconds == number_of(vars, "ECDB_SNAPSHOT_INTERVAL_SEC"@, u64::MAX as nat, old.snapshot_interval_seconds as nat)
    &&& c.compress_snapshots == bool_of(vars, "ECDB_COMPRESS_SNAPSHOTS"@, old.compress_snapshots)
    &&& c.snapshot_compression_level == (match lookup(vars, "ECDB_SNAPSHOT_COMPRESSION_LEVEL"@) {
        Some(v) => i32_value(v).unwrap(),
        None => old.snapshot_compression_level as int,
    })
    &&& c.compress_archived_wal == bool_of(vars, "ECDB_COMPRESS_ARCHIVED_WAL"@, old.compress_archived_wal)
    &&& c.compaction_interval_seconds == number_of(vars, "ECDB_COMPACTION_INTERVAL_SEC"@, u64::MAX as nat, old.compaction_interval_seconds as nat)
    &&& c.min_wal_files_for_compaction == number_of(vars, "ECDB_MIN_WAL_FILES_FOR_COMPACTION"@, usize::MAX as nat, old.min_wal_files_for_compaction as nat)
    &&& c.keep_snapshots == number_of(vars, "ECDB_KEEP_SNAPSHOTS"@, usize::MAX as nat, old.keep_snapshots as nat)
    &&& c.keep_archived_wal_files == number_of(vars, "ECDB_KEEP_ARCHIVED_WAL_FILES"@, usize::MAX as nat, old.keep_archived_wal_files as nat)
}

fn invalid(field: &str, val: &String) -> (e: EcsDbError)
    ensures
        e is ConfigError,
{
    EcsDbError::ConfigError(join(join(owned("Invalid "), field), join(owned(": "), val.as_str()).as_str()))
}

fn number_var(vars: &[(String, String)], name: &str, max: u64, current: u64, field: &str) -> (r: Result<u64>)
    ensures
        r is Ok <==> number_ok(vars@, name@, max as nat),
        r matches Ok(v) ==> v == number_of(vars@, name@, max as nat, current as nat),
        r matches Err(e) ==> e is ConfigError,
{
    match find_var(vars, name) {
        Some(val) => match parse_unsigned(val.as_str(), 10, max) {
            Some(v) => Ok(v),
            None => Err(invalid(field, val)),
        },
        None => Ok(current),
    }
}

fn bool_var(vars: &[(String, String)], name: &str, current: bool, field: &str) -> (r: Result<bool>)
    ensures
        r is Ok <==> bool_ok(vars@, name@),
        r matches Ok(v) ==> v == bool_of(vars@, name@, current),
        r matches Err(e) ==> e is ConfigError,
{
    match find_var(vars, name) {
        Some(val) => match parse_bool(val.as_str()) {
            Some(v) => Ok(v),
            None => Err(invalid(field, val)),
        },
        None => Ok(current),
    }
}

fn dir_var(vars: &[(String, String)], name: &str, current: &String) -> (r: String)
    ensures
        r@ == (match lookup(vars@, name@) {
            Some(v) => v,
            None => current@,
        }),
{
    match find_var(vars, name) {
        Some(val) => owned(val.as_str()),
        None => owned(current.as_str()),
    }
}

impl PersistenceConfig {
    /// The default configuration.
    pub fn new() -> (c: Self)
        ensures
            is_default(c),
    {
        Self::default()
    }

    /// Applies overrides given as (variable, value) pairs, as read from the
    /// environment: `ECDB_SNAPSHOT_DIR`, `ECDB_WAL_DIR`, `ECDB_ARCHIVE_DIR`
    /// set directories; the others set numbers and booleans, and a value that
    /// does not parse is a `ConfigError`. The first pair with a given name
    /// counts.
    pub fn apply_env_overrides(&mut self, vars: &[(String, String)]) -> (res: Result<()>)
        ensures
            res is Ok <==> overrides_ok(vars@),
            res is Ok ==> overridden(*old(self), *final(self), vars@),
            res matches Err(e) ==> e is ConfigError,
    {
        self.snapshot_dir = dir_var(vars, "ECDB_SNAPSHOT_DIR", &self.snapshot_dir);
        self.wal_dir = dir_var(vars, "ECDB_WAL_DIR", &self.wal_dir);
        self.archive_dir = dir_var(vars, "ECDB_ARCHIVE_DIR", &self.archive_dir);
        self.max_wal_file_size = match number_var(vars, "ECDB_MAX_WAL_FILE_SIZE", u64::MAX, self.max_wal_file_size, "max_wal_file_size") {
            Ok(v) => v,
            Err(e) => return Err(e),
        };
        self.sync_on_write = match bool_var(vars, "ECDB_SYNC_ON_WRITE", self.sync_on_write, "sync_on_write") {
            Ok(v) => v,
            Err(e) => return Err(e),
        };
        self.snapshot_interval_transactions = match number_var(vars, "ECDB_SNAPSHOT_INTERVAL_TX", u64::MAX, self.snapshot_interval_transactions, "snapshot_interval_transactions") {
            Ok(v) => v,
            Err(e) => return Err(e),
        };
        self.snapshot_interval_seconds = match number_var(vars, "ECDB_SNAPSHOT_INTERVAL_SEC", u64::MAX, self.snapshot_interval_seconds, "snapshot_interval_seconds") {
            Ok(v) => v,
            Err(e) => return Err(e),
        };
        self.compress_snapshots = match bool_var(vars, "ECDB_COMPRESS_SNAPSHOTS", self.compress_snapshots, "compress_snapshots") {
            Ok(v) => v,
            Err(e) => return Err(e),
        };
        match find_var(vars, "ECDB_SNAPSHOT_COMPRESSION_LEVEL") {
            Some(val) => match parse_i32(val.as_str()) {
                Some(v) => {
                    self.snapshot_compression_level = v;
                },
                None => return Err(invalid("snapshot_compression_level", val)),
            },
            None => {},
        }
        self.compress_archived_wal = match bool_var(vars, "ECDB_COMPRESS_ARCHIVED_WAL", self.compress_archived_wal, "compress_archived_wal") {
            Ok(v) => v,
            Err(e) => return Err(e),
        };
        self.compaction_interval_seconds = match number_var(vars, "ECDB_COMPACTION_INTERVAL_SEC", u64::MAX, self.compaction_interval_seconds, "compaction_interval_seconds") {
            Ok(v) => v,
            Err(e) => return Err(e),
        };
        self.min_wal_files_for_compaction = match number_var(vars, "ECDB_MIN_WAL_FILES_FOR_COMPACTION", usize::MAX as u64, self.min_wal_files_for_compaction as u64, "min_wal_files_for_compaction") {
            Ok(v) => v as usize,
            Err(e) => return Err(e),
        };
        self.keep_snapshots = match number_var(vars, "ECDB_KEEP_SNAPSHOTS", usize::MAX as u64, self.keep_snapshots as u64, "keep_snapshots") {
            Ok(v) => v as usize,
            Err(e) => return Err(e),
        };
        self.keep_archived_wal_files = match number_var(vars, "ECDB_KEEP_ARCHIVED_WAL_FILES", usize::MAX as u64, self.keep_archived_wal_files as u64, "keep_archived_wal_files") {
            Ok(v) => v as usize,
            Err(e) => return Err(e),
        };
        Ok(())
    }

    /// The snapshot interval.
    pub fn snapshot_interval(&self) -> (d: Duration)
        ensures
            d == duration_of_secs(self.snapshot_interval_seconds),
    {
        from_secs(self.snapshot_interval_seconds)
    }

    /// The compaction interval.
    pub fn compaction_interval(&self) -> (d: Duration)
        ensures
            d == duration_of_secs(self.compaction_interval_seconds),
    {
        from_secs(self.compaction_interval_seconds)
    }
}

} // verus!
