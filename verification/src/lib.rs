//! Build-time layout of a static system image for a RISC-V microkernel:
//! interval algebra, physical-memory modelling, address spaces, page-table
//! generation and ELF serialization, with machine-checked contracts.

pub mod address_space;
pub mod boot_image;
pub mod bump_ptr_alloc;
pub mod cfgfile;
pub mod cfgtypes;
pub mod codegen;
pub mod constants;
pub mod elf;
pub mod elf_writer;
pub mod epoxy;
pub mod error;
pub mod framebuffer;
pub mod interval;
pub mod kernel_codegen;
pub mod page_table;
pub mod phys_mem;
pub mod runtypes;
pub mod strutil;
pub mod vec_utils;
