//! Loader for ".env" style configuration files.
//!
//! A byte stream is first decoded under one of seven character encodings
//! (`encoding`), then tokenized into `KEY=VALUE` assignments under the rules
//! of a dialect parser (`python_dotenv_cli`), with backslash escapes inside
//! double-quoted values resolved by a shared escape decoder (`escape`).
//! Resolved pairs are handed to a variable sink (`env`).

use vstd::prelude::*;

pub mod chars;
pub mod encoding;
pub mod env;
pub mod escape;
pub mod python_dotenv_cli;

verus! {

/// A failure of one parse run.
///
/// `InvalidData` reports a byte sequence that does not match the declared
/// encoding; it is always fatal.  `Syntax` reports a malformed construct in
/// otherwise well-decoded text, with its 1-based line number and column; the
/// parser only raises it in strict mode.  `OptionsParse` reports an
/// unrecognized configuration value, before any parsing begins.
#[derive(Clone, Copy, Debug, PartialEq, Eq, Structural)]
pub enum Error {
    InvalidData,
    Syntax { line: usize, column: usize },
    OptionsParse,
}

/// The run parameters of one parse: the declared encoding of the byte
/// stream, whether malformed escapes abort the parse (`strict`), and whether
/// resolved pairs replace values already present in the sink
/// (`override_env`).
#[derive(Clone, Copy, Debug, PartialEq, Eq, Structural)]
pub struct Options {
    pub encoding: crate::encoding::Encoding,
    pub strict: bool,
    pub override_env: bool,
}

impl Default for Options {
    /// UTF-8, strict parsing, keep existing values.
    fn default() -> (r: Self)
        ensures
            r.encoding == crate::encoding::Encoding::UTF8,
            r.strict,
            !r.override_env,
    {
        Options { encoding: crate::encoding::Encoding::UTF8, strict: true, override_env: false }
    }
}

} // verus!
