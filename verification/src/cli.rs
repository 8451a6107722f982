//! The texts that the program prints for its command-line flags.

use vstd::prelude::*;
use vstd::string::StringExecFns;

verus! {

/// The usage text for a program called `program`: the line that names the
/// program, and the list of flags.
pub open spec fn usage_text(program: Seq<char>) -> Seq<char> {
    "Usage: "@ + program + " [options] pattern subject\n"@ + "Options:\n"@
        + "  -h, --help      Print usage and exit\n"@
        + "  --version       Print version information and exit\n"@
}

/// The line that names the program and its version.
pub open spec fn version_text() -> Seq<char> {
    "rust-http 0.1\n"@
}

/// Builds the usage text for a program called `program`.
pub fn usage(program: &str) -> (text: String)
    ensures
        text@ == usage_text(program@),
{
    let mut text = String::from_str("Usage: ");
    text.append(program);
    text.append(" [options] pattern subject\n");
    text.append("Options:\n");
    text.append("  -h, --help      Print usage and exit\n");
    text.append("  --version       Print version information and exit\n");
    text
}

/// Builds the version line.
pub fn version_info() -> (text: String)
    ensures
        text@ == version_text(),
{
    String::from_str("rust-http 0.1\n")
}

} // verus!
