//! How transactions are logged: whether at all, in which directory, and
//! whether each append is synced to disk.
use vstd::prelude::*;

verus! {

/// The directory logs go to unless another is set.
pub open spec fn default_log_dir() -> Seq<char> {
    "./interstice_logs"@
}

/// The name of the main transaction log file.
pub open spec fn log_file_name() -> Seq<char> {
    "transactions.log"@
}

/// `name` adjoined to the directory `dir`: an absolute `name` replaces
/// `dir`; otherwise a separator goes between them unless `dir` is empty or
/// already ends with one.
pub open spec fn join_path(dir: Seq<char>, name: Seq<char>) -> Seq<char> {
    if name.len() > 0 && name[0] == '/' {
        name
    } else if dir.len() == 0 {
        name
    } else if dir.last() == '/' {
        dir + name
    } else {
        dir + "/"@ + name
    }
}

/// Configuration of transaction-log persistence.
#[derive(Debug, Clone)]
pub struct PersistenceConfig {
    /// Whether transactions are logged.
    pub enabled: bool,
    /// The directory of the log files.
    pub log_dir: String,
    /// Whether every append is synced to disk.
    pub sync_on_append: bool,
}

impl PersistenceConfig {
    /// Logging on, every append synced.
    pub fn default_safe() -> (r: Self)
        ensures
            r.enabled,
            r.sync_on_append,
            r.log_dir@ == default_log_dir(),
    {
        PersistenceConfig { enabled: true, log_dir: "./interstice_logs".to_owned(), sync_on_append: true }
    }

    /// Logging on, appends buffered.
    pub fn default_fast() -> (r: Self)
        ensures
            r.enabled,
            !r.sync_on_append,
            r.log_dir@ == default_log_dir(),
    {
        PersistenceConfig { enabled: true, log_dir: "./interstice_logs".to_owned(), sync_on_append: false }
    }

    /// Logging off.
    pub fn disabled() -> (r: Self)
        ensures
            !r.enabled,
            r.sync_on_append,
            r.log_dir@ == default_log_dir(),
    {
        PersistenceConfig { enabled: false, log_dir: "./interstice_logs".to_owned(), sync_on_append: true }
    }

    /// The same configuration with the log directory `dir`.
    pub fn with_log_dir(self, dir: String) -> (r: Self)
        ensures
            r.enabled == self.enabled,
            r.sync_on_append == self.sync_on_append,
            r.log_dir@ == dir@,
    {
        PersistenceConfig { log_dir: dir, ..self }
    }

    /// The path of the main transaction log file.
    pub fn log_file_path(&self) -> (r: String)
        ensures
            r@ == join_path(self.log_dir@, log_file_name()),
    {
        proof {
            reveal_strlit("transactions.log");
            reveal_strlit("/");
        }
        let dir = self.log_dir.as_str();
        let n = dir.unicode_len();
        if n == 0 {
            return "transactions.log".to_owned();
        }
        let mut r = self.log_dir.clone();
        if dir.get_char(n - 1) != '/' {
            r.append("/");
        }
        r.append("transactions.log");
        r
    }
}

impl Default for PersistenceConfig {
    fn default() -> (r: Self)
        ensures
            r.enabled,
            r.sync_on_append,
            r.log_dir@ == default_log_dir(),
    {
        Self::default_safe()
    }
}

} // verus!
