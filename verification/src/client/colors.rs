//! Terminal colours (ANSI escape sequences).
use vstd::prelude::*;

verus! {

/// Reset.
pub const R: &'static str = "\x1b[0m";

/// Cyan.
pub const CY: &'static str = "\x1b[36m";

/// Dark grey.
pub const DG: &'static str = "\x1b[90m";

/// Bright white.
pub const W: &'static str = "\x1b[97m";

/// Yellow.
pub const Y: &'static str = "\x1b[33m";

/// Red.
pub const RE: &'static str = "\x1b[31m";

} // verus!
