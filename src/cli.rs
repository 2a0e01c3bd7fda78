//! The command line that starts a session, as plain values.

use vstd::prelude::*;

verus! {

/// What the user asked for: the command to run under the proxy, its
/// arguments, and the optional overrides of the configuration.
pub struct Cli {
    pub command: String,
    pub args: Vec<String>,
    pub max_lines: Option<usize>,
    pub history_lines: Option<usize>,
    pub lookback_key: Option<String>,
}

} // verus!
