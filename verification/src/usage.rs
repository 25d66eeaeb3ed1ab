//! The usage text, and when it is shown in place of a search.

use crate::config::Config;
use vstd::prelude::*;

verus! {

/// The usage text.
pub open spec fn usage_text() -> Seq<char> {
    "Usage: grep [OPTIONS] <pattern> <files...>\n\nOptions:\n-i                Case-insensitive search\n-n                Print line numbers\n-v                Invert match (exclude lines that match the pattern)\n-r                Recursive directory search\n-f                Print filenames\n-c                Enable colored output\n-h, --help        Show help information\n"@
}

/// A run shows the usage text and searches nothing when help is asked for,
/// or when the pattern or the targets are missing.
pub open spec fn usage_is_due(cfg: Config) -> bool {
    cfg.help || cfg.pattern@.len() == 0 || cfg.targets@.len() == 0
}

/// The usage text, ending with a line break.
pub fn usage() -> (r: &'static str)
    ensures
        r@ == usage_text(),
{
    "Usage: grep [OPTIONS] <pattern> <files...>\n\nOptions:\n-i                Case-insensitive search\n-n                Print line numbers\n-v                Invert match (exclude lines that match the pattern)\n-r                Recursive directory search\n-f                Print filenames\n-c                Enable colored output\n-h, --help        Show help information\n"
}

/// Whether the run shows the usage text in place of a search.
pub fn wants_usage(cfg: &Config) -> (b: bool)
    ensures
        b == usage_is_due(*cfg),
{
    cfg.help || cfg.pattern.as_str().is_empty() || cfg.targets.len() == 0
}

} // verus!
