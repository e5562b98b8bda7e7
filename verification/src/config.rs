use vstd::prelude::*;

verus! {

/// The user's settings.
#[derive(Debug, Clone, Copy, PartialEq, Eq, Structural)]
pub struct AppConfig {
    /// How many log files to watch.
    pub file_count: usize,
    /// How many records to read initially from each file.
    pub initial_logs_per_file: usize,
    /// The largest number of records kept in memory.
    pub max_cached_logs: usize,
}

impl Default for AppConfig {
    fn default() -> (r: Self)
        ensures
            r.file_count == 2,
            r.initial_logs_per_file == 5000,
            r.max_cached_logs == 10000,
    {
        AppConfig { file_count: 2, initial_logs_per_file: 5000, max_cached_logs: 10000 }
    }
}

} // verus!
