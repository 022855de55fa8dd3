//! Trusted boundary to standard output, for the progress lines a sweep emits
//! while it runs.

use vstd::prelude::*;

verus! {

/// Relies on `std::io::stdout` and `std::io::Write::write_all`: prints `s`
/// followed by a newline. The line is diagnostic only, so a write failure is
/// ignored and nothing is claimed.
#[verifier::external_body]
pub(crate) fn print_line(s: &str) {
    let line = format!("{}\n", s);
    let _ = std::io::Write::write_all(&mut std::io::stdout(), line.as_bytes());
}

} // verus!
