//! Locating wildcard byte signatures inside a loaded module image and
//! resolving the pointer stored next to the match into a module-relative
//! offset.
use vstd::prelude::*;

pub mod module;
pub mod pattern;
