//! The types that describe a configured system. These overlap with, but are
//! not the same as, the raw configuration records.

use vstd::prelude::*;

use crate::cfgtypes;
use crate::framebuffer;

verus! {

#[derive(Debug, Clone)]
pub enum MemoryRegion {
    AnonymousZeroes { size: u64 },
    Phys { size: u64, start: u64 },
}

impl MemoryRegion {
    pub open spec fn spec_size(&self) -> u64 {
        match self {
            MemoryRegion::AnonymousZeroes { size } => *size,
            MemoryRegion::Phys { size, .. } => *size,
        }
    }

    pub fn size(&self) -> (r: u64)
        ensures
            r == self.spec_size(),
    {
        match self {
            MemoryRegion::AnonymousZeroes { size } => *size,
            MemoryRegion::Phys { size, .. } => *size,
        }
    }

    /// A physical region with the bounds of a raw configuration region.
    pub fn from_config(cmem: &cfgtypes::MemoryRegion) -> (r: MemoryRegion)
        ensures
            r == (MemoryRegion::Phys { size: cmem.size, start: cmem.start }),
    {
        MemoryRegion::Phys { start: cmem.start, size: cmem.size }
    }
}

/// A memory mapping in a process.
#[derive(Debug, Clone)]
pub struct VirtualMemoryRegion {
    pub virt_start: u64,
    pub phys: MemoryRegion,
}

impl VirtualMemoryRegion {
    pub open spec fn spec_size(&self) -> u64 {
        self.phys.spec_size()
    }

    pub fn size(&self) -> (r: u64)
        ensures
            r == self.spec_size(),
    {
        self.phys.size()
    }
}

#[derive(Debug, Clone)]
pub enum ResourceMetaInfo {
    Framebuffer { format: framebuffer::Format },
    SifivePlic { ndev: u16 },
    SBITimer { freq_hz: u64 },
    SpinalGpio { ngpio: u16 },
}

/// A system resource: meta information with an optional memory mapping.
#[derive(Debug, Clone)]
pub struct Resource {
    pub meta: ResourceMetaInfo,
    pub opt_region: Option<VirtualMemoryRegion>,
}

/// Resources by need name, in resolution order.
pub type ResourceMap = Vec<(String, Resource)>;

/// Processes in ascending name order.
pub type ProcessMap = Vec<Process>;

/// A process with its binary and assigned resources.
#[derive(Debug, Clone)]
pub struct Process {
    pub name: String,
    pub binary: String,
    /// A mapping from resource name, as the application's needs declare it,
    /// to an actual resource.
    pub resources: ResourceMap,
    /// Additional anonymous memory regions: stack and heap.
    pub anon_mem: Vec<VirtualMemoryRegion>,
    pub stack_ptr: u64,
    pub heap_start: u64,
    pub heap_end: u64,
}

#[derive(Debug, Clone)]
pub struct Configuration {
    pub name: String,
    pub available_memory: Vec<cfgtypes::MemoryRegion>,
    pub kernel: Process,
    pub processes: ProcessMap,
}

} // verus!
