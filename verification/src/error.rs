//! Error values surfaced by the boot-information parser and the startup
//! report. Each failure is a distinct, inspectable variant so that a caller
//! can decide policy per kind.

use vstd::prelude::*;

verus! {

/// Everything that can go wrong while interpreting boot information.
#[derive(Clone, Copy, Debug, PartialEq, Eq, Structural)]
pub enum AxiomOsErr {
    /// The boot-information block is structurally broken: a tag overruns the
    /// declared bound, a tag declares a size below its own header, or the
    /// sentinel tag is missing.
    MalformedBootInfo,
    /// The block is well formed but carries no memory-area tag.
    CannotGetMemoryMapTag,
    /// The block is well formed but carries no ELF-section tag.
    CannotGetElfSectionTag,
}

impl AxiomOsErr {
    /// A human-readable description, for diagnostic output.
    pub fn message(&self) -> (r: &'static str)
        ensures
            r@ == self.message_spec(),
    {
        match self {
            AxiomOsErr::MalformedBootInfo => "Malformed boot information",
            AxiomOsErr::CannotGetMemoryMapTag => "Memory map tag required",
            AxiomOsErr::CannotGetElfSectionTag => "Elf-sections tag required",
        }
    }

    /// The characters of the diagnostic message of each variant.
    pub open spec fn message_spec(self) -> Seq<char> {
        match self {
            AxiomOsErr::MalformedBootInfo => "Malformed boot information"@,
            AxiomOsErr::CannotGetMemoryMapTag => "Memory map tag required"@,
            AxiomOsErr::CannotGetElfSectionTag => "Elf-sections tag required"@,
        }
    }
}

} // verus!
