//! The failures that building a system image can surface.

use vstd::prelude::*;

verus! {

/// Everything that can go wrong between reading a configuration and emitting
/// the boot image. Each failure of the pipeline is one distinct variant.
#[derive(Debug, Clone, PartialEq, Eq, Structural)]
pub enum Error {
    /// A configuration file is missing.
    ConfigNotFound,
    /// A configuration file is malformed.
    ConfigParse,
    /// An input ELF could not be read.
    ElfLoad,
    /// An input ELF is structurally invalid.
    ElfInvalid,
    /// A process need has no matching mapping, or a mapping references an
    /// unknown device.
    MappingUnresolved,
    /// A required kernel symbol is absent.
    SymbolMissing,
    /// The per-process virtual-address allocator ran out.
    VirtualExhausted,
    /// Free physical memory is insufficient.
    PhysicalExhausted,
    /// The page-table encoding cannot represent a required physical address.
    PageTableOverflow,
    /// Refusing to write a binary image to a terminal.
    TerminalOutput,
    /// The underlying byte sink failed.
    Io,
}

} // verus!
