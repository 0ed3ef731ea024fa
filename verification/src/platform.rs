//! The operating system the program runs on, for the few choices that
//! depend on it (file names, fonts, download archives).
use vstd::prelude::*;

verus! {

/// Operating system family.
#[derive(Clone, Copy, Debug, PartialEq, Eq, Structural)]
pub enum Platform {
    Windows,
    MacOs,
    Linux,
}

} // verus!
