//! The parsed command surface: which operation was asked for and on which
//! paths.  Parsing the actual command line happens outside the library.

use vstd::prelude::*;

verus! {

/// One explicit subcommand.
#[derive(Debug, Clone)]
pub enum Command {
    /// Decode a CRX file and export its pixels.
    Export { input: String, output: String },
    /// Re-encode an origin CRX with imported pixels.
    Import { origin: String, input: String, output: String },
    /// Extract every sub-file of a PCK archive.
    Unpack { input: String, output: String },
    /// Bundle a file or a directory's files into a PCK archive.
    Pack { input: String, output: String },
}

/// The single-path automatic mode: dispatch by extension and file kind.
#[derive(Debug, Clone)]
pub struct AutoArgs {
    pub input: String,
}

/// A parsed invocation: an explicit subcommand, a path for automatic
/// dispatch, or both absent.
#[derive(Debug, Clone)]
pub struct Arg {
    pub command: Option<Command>,
    pub auto: Option<AutoArgs>,
}

} // verus!
