//! The order in which a scan reads the lines of a log.

use vstd::prelude::*;

verus! {

/// Forward reads lines as they stand in the file; reverse reads the last line first.
#[derive(PartialEq, Eq, Structural, Clone, Copy, Debug)]
pub enum ReaderDirection {
    Normal,
    Reverse,
}

} // verus!
