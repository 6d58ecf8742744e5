//! The command-line request model: what a caller asks the converter to do.
//! Argument parsing itself is the caller's concern; these are the parsed
//! values, with paths as plain strings.
use vstd::prelude::*;
use vstd::string::StringExecFns;

use crate::error::Format;

verus! {

/// One subcommand: inspect binary files, import another format into the
/// binary one, or export the binary format into another.
#[allow(inconsistent_fields)]
pub enum Commands {
    Inspect { input_paths: Vec<String> },
    Import { input_paths: Vec<String>, format: Option<String> },
    Export { input_paths: Vec<String>, format: String },
}

/// A parsed invocation: verbosity, the delimiter written between documents,
/// and the chosen subcommand.
pub struct Cli {
    pub verbose: u8,
    pub delimiter: String,
    pub command: Option<Commands>,
}

/// The delimiter used when the caller names none: the document-start marker
/// for the YAML-like target, one newline otherwise.
pub fn default_delimiter(format: Format) -> (r: String)
    ensures
        format == Format::Yaml ==> r@ == "\n---\n"@,
        format != Format::Yaml ==> r@ == "\n"@,
{
    match format {
        Format::Yaml => String::from_str("\n---\n"),
        _ => String::from_str("\n"),
    }
}

} // verus!
