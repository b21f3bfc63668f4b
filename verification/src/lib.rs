//! Language-usage statistics for a directory tree.
//!
//! A snapshot of the tree is classified against a table of language rules:
//! each rule sums the sizes of the files that carry one of its extensions and
//! lie under no ignored or hidden directory. The rules that counted anything
//! are then ranked by size.

pub mod config;
pub mod scan;
pub mod stat;
pub mod text;

pub use crate::config::CommonConfig;
pub use crate::config::Config;
pub use crate::config::LanguageConfigItem;
pub use crate::scan::get_dir_entries;
pub use crate::scan::Entry;
pub use crate::stat::get_size;
pub use crate::stat::get_stat_with_config;
pub use crate::stat::LanguageStat;
pub use crate::stat::StatError;
