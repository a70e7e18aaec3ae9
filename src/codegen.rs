//! Helpers around the code-generation core: reading its maps and asking it
//! for code.

pub mod util;
