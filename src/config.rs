//! Settings that steer the decomposition: size budgets and naming.

use vstd::prelude::*;
use vstd::string::*;

verus! {

/// Default budget of lines for one generated module.
pub const DEFAULT_MAX_LINES: usize = 1000;

/// Default budget of lines for one `impl` block before it is split.
pub const DEFAULT_MAX_IMPL_LINES: usize = 500;

/// Core refactoring settings.
#[derive(Debug, Clone)]
pub struct SplitRsConfig {
    /// Maximum lines per module.
    pub max_lines: usize,
    /// Maximum lines per `impl` block before splitting.
    pub max_impl_lines: usize,
    /// Whether `impl` block splitting is enabled.
    pub split_impl_blocks: bool,
}

impl Default for SplitRsConfig {
    fn default() -> (r: Self)
        ensures
            r.max_lines == DEFAULT_MAX_LINES,
            r.max_impl_lines == DEFAULT_MAX_IMPL_LINES,
            !r.split_impl_blocks,
    {
        SplitRsConfig {
            max_lines: DEFAULT_MAX_LINES,
            max_impl_lines: DEFAULT_MAX_IMPL_LINES,
            split_impl_blocks: false,
        }
    }
}

/// Module naming conventions.
#[derive(Debug, Clone)]
pub struct NamingConfig {
    /// Suffix for type definition modules (as in `user_type`).
    pub type_module_suffix: String,
    /// Suffix for `impl` block modules (as in `user_impl`).
    pub impl_module_suffix: String,
    /// Whether module names are written in snake case.
    pub use_snake_case: bool,
}

impl Default for NamingConfig {
    fn default() -> (r: Self)
        ensures
            r.type_module_suffix@ == "_type"@,
            r.impl_module_suffix@ == "_impl"@,
            r.use_snake_case,
    {
        NamingConfig {
            type_module_suffix: String::from_str("_type"),
            impl_module_suffix: String::from_str("_impl"),
            use_snake_case: true,
        }
    }
}

/// Output generation settings.
#[derive(Debug, Clone)]
pub struct OutputConfig {
    /// Template for module documentation; `{type_name}` and
    /// `{module_name}` are placeholders.
    pub module_doc_template: String,
    /// Whether original comments are kept.
    pub preserve_comments: bool,
    /// Whether output is run through the pretty-printer.
    pub format_output: bool,
}

impl Default for OutputConfig {
    fn default() -> (r: Self)
        ensures
            r.module_doc_template@ == "//! Auto-generated module\n"@,
            r.preserve_comments,
            r.format_output,
    {
        OutputConfig {
            module_doc_template: String::from_str("//! Auto-generated module\n"),
            preserve_comments: true,
            format_output: true,
        }
    }
}

/// The whole configuration, as read from a `.splitrs.toml` file.
#[derive(Debug, Clone)]
pub struct Config {
    /// Core refactoring settings.
    pub splitrs: SplitRsConfig,
    /// Module naming conventions.
    pub naming: NamingConfig,
    /// Output generation settings.
    pub output: OutputConfig,
}

impl Default for Config {
    fn default() -> (r: Self)
        ensures
            r.splitrs.max_lines == DEFAULT_MAX_LINES,
            r.splitrs.max_impl_lines == DEFAULT_MAX_IMPL_LINES,
            !r.splitrs.split_impl_blocks,
            r.naming.type_module_suffix@ == "_type"@,
            r.naming.impl_module_suffix@ == "_impl"@,
            r.naming.use_snake_case,
            r.output.module_doc_template@ == "//! Auto-generated module\n"@,
            r.output.preserve_comments,
            r.output.format_output,
    {
        Config {
            splitrs: SplitRsConfig::default(),
            naming: NamingConfig::default(),
            output: OutputConfig::default(),
        }
    }
}

impl Config {
    /// Overrides the core settings with those given on the command line;
    /// a `None` keeps the value already held.
    pub fn merge_with_args(
        &mut self,
        max_lines: Option<usize>,
        max_impl_lines: Option<usize>,
        split_impl_blocks: Option<bool>,
    )
        ensures
            final(self).splitrs.max_lines == match max_lines {
                Some(v) => v,
                None => old(self).splitrs.max_lines,
            },
            final(self).splitrs.max_impl_lines == match max_impl_lines {
                Some(v) => v,
                None => old(self).splitrs.max_impl_lines,
            },
            final(self).splitrs.split_impl_blocks == match split_impl_blocks {
                Some(v) => v,
                None => old(self).splitrs.split_impl_blocks,
            },
            final(self).naming == old(self).naming,
            final(self).output == old(self).output,
    {
        if let Some(v) = max_lines {
            self.splitrs.max_lines = v;
        }
        if let Some(v) = max_impl_lines {
            self.splitrs.max_impl_lines = v;
        }
        if let Some(v) = split_impl_blocks {
            self.splitrs.split_impl_blocks = v;
        }
    }
}

} // verus!
