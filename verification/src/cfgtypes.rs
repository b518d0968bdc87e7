//! The record shapes read from configuration files. These values arrive
//! already parsed and are not meant to be modified.

use vstd::prelude::*;

use crate::framebuffer;

verus! {

#[derive(Debug, Clone)]
pub struct Process {
    pub name: String,
    pub program: String,
}

/// One resource mapping: the device `from` satisfies the need `to`, where
/// `to` is a process name and a need name joined by a dot.
#[derive(Debug, Clone)]
pub struct Mapping {
    pub from: String,
    pub to: String,
}

#[derive(Debug, Clone)]
pub struct System {
    pub name: String,
    pub machine: String,
    pub kernel: String,
    pub processes: Vec<Process>,
    pub mappings: Vec<Mapping>,
}

#[derive(Debug, Clone, Copy, PartialEq, Eq, Structural)]
pub struct MemoryRegion {
    pub start: u64,
    pub size: u64,
}

#[derive(Debug, Copy, Clone, PartialEq, Eq, Structural)]
pub enum ResourceType {
    Framebuffer,
    SiFivePLIC,
    SBITimer,
    SpinalGPIO,
}

#[derive(Debug, Clone)]
pub enum Resource {
    /// A simple framebuffer.
    Framebuffer { format: framebuffer::Format, region: MemoryRegion },
    /// A SiFive platform-level interrupt controller, with the number of
    /// supported external interrupts.
    SiFivePLIC { ndev: u16, region: MemoryRegion },
    /// The simple one-shot timer implemented by SBI.
    SBITimer { freq_hz: u64 },
    /// The GPIO controller on SaxonSoc and other cores written in SpinalHDL,
    /// with the number of supported pins.
    SpinalGPIO { ngpio: u16, region: MemoryRegion },
}

#[derive(Debug, Clone)]
pub struct NamedResource {
    pub name: String,
    pub resource: Resource,
}

#[derive(Debug, Clone)]
pub struct NamedResourceType {
    pub name: String,
    pub kind: ResourceType,
}

#[derive(Debug, Clone)]
pub struct Machine {
    pub name: String,
    pub available_memory: Vec<MemoryRegion>,
    pub devices: Vec<NamedResource>,
}

#[derive(Debug, Clone)]
pub struct Application {
    pub name: String,
    pub heap_kb: u64,
    pub needs: Vec<NamedResourceType>,
}

} // verus!
