use vstd::prelude::*;

verus! {

/// One language: its name, the file extensions that belong to it (without
/// the leading dot) and the path segments it ignores on top of the shared ones.
#[derive(Debug, Clone, PartialEq, Eq)]
pub struct LanguageConfigItem {
    pub lang: String,
    pub ext: Vec<String>,
    pub ignore: Vec<String>,
}

/// The path segments that every language ignores.
#[derive(Debug, Clone, PartialEq, Eq)]
pub struct CommonConfig {
    pub ignore: Vec<String>,
}

/// The language table, in declaration order, with the shared ignore list.
#[derive(Debug, Clone, PartialEq, Eq)]
pub struct Config {
    pub language: Vec<LanguageConfigItem>,
    pub common: CommonConfig,
}

impl Config {
    /// Builds a configuration from its two parts, which it keeps unchanged.
    pub fn new(language: Vec<LanguageConfigItem>, common: CommonConfig) -> (config: Self)
        ensures
            config.language == language,
            config.common == common,
    {
        Self { language, common }
    }
}

} // verus!
