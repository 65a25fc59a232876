//! Fatal error conditions of a profiling run.

use vstd::prelude::*;

verus! {

/// A fatal condition that aborts a run: a missing ELF symbol section, a
/// profile stream that ends in the middle of a record, or an allocation
/// event carrying an unknown opcode. Offsets are byte positions of the
/// record or event in the profile stream.
#[derive(Debug, Clone, Copy, PartialEq, Eq, Structural)]
pub enum ProfileError {
    ElfFormat,
    TruncatedRecord { offset: usize },
    InvalidOpcode { opcode: u8, offset: usize },
}

} // verus!
