//! End-to-end: from a configured system and parsed ELFs to a bootable image.

use harden::address_space::AddressSpace;
use harden::boot_image::{generate, phys_from_config, sym_paddr, to_kernel_as, to_user_as};
use harden::cfgtypes;
use harden::elf::{elf_from_bytes, ElfImage, Permissions, Segment};
use harden::elf_writer;
use harden::page_table;
use harden::runtypes;
use harden::vec_utils::vec_u64_to_bytes;

fn kernel_elf() -> ElfImage {
    ElfImage {
        entry: 0x80000040,
        segments: vec![Segment {
            permissions: Permissions {
                read: true,
                write: true,
                execute: true,
                user: false,
            },
            vaddr: 0x80000000,
            paddr: 0x80000000,
            data: vec![0xAA; 0x80],
        }],
        symbols: vec![
            ("BOOT_SATP".to_string(), 0x80000000),
            ("USER_SATPS".to_string(), 0x80000008),
            ("USER_PCS".to_string(), 0x80000018),
        ],
    }
}

fn user_elf(entry: u64, fill: u8) -> ElfImage {
    ElfImage {
        entry,
        segments: vec![Segment {
            permissions: Permissions {
                read: true,
                write: false,
                execute: true,
                user: false,
            },
            vaddr: 0x10000,
            paddr: 0x10000,
            data: vec![fill; 0x40],
        }],
        symbols: vec![],
    }
}

fn user_process(name: &str) -> runtypes::Process {
    runtypes::Process {
        name: name.to_string(),
        binary: name.to_string(),
        resources: vec![],
        anon_mem: vec![runtypes::VirtualMemoryRegion {
            virt_start: 0x40001000,
            phys: runtypes::MemoryRegion::AnonymousZeroes { size: 0x4000 },
        }],
        stack_ptr: 0x40005000,
        heap_start: 0,
        heap_end: 0,
    }
}

fn test_system() -> runtypes::Configuration {
    runtypes::Configuration {
        name: "smoke".to_string(),
        available_memory: vec![cfgtypes::MemoryRegion {
            start: 0x84000000,
            size: 0x1000000,
        }],
        kernel: user_process("kernel"),
        processes: vec![user_process("alpha"), user_process("beta")],
    }
}

const FREE_START: u64 = 0x84000000;
const FREE_END: u64 = 0x85000000;

#[test]
fn end_to_end_page_tables_and_patches() {
    let system = test_system();
    let kernel = kernel_elf();
    let users = vec![user_elf(0x10000, 1), user_elf(0x10004, 2)];

    let mut pmem = phys_from_config(&system).unwrap();
    let mut kernel_as = to_kernel_as(&system.kernel, &kernel).unwrap();
    kernel_as.fixate(&mut pmem).unwrap();

    // The kernel's bytes were placed inside the free range.
    let kpa = kernel_as.lookup_phys(0x80000000).unwrap();
    assert!(FREE_START <= kpa && kpa < FREE_END);
    assert_eq!(pmem.read(kpa, 2), vec![0xAA, 0xAA]);

    let mut satps = vec![];
    let mut fixed_spaces: Vec<AddressSpace> = vec![];
    for (i, p) in system.processes.iter().enumerate() {
        let ua = to_user_as(p, &users[i], &kernel_as).unwrap();
        let fixed = ua.fixated(&mut pmem).unwrap();

        // Each user's own segment resolves to a physical address in the
        // free range, published to user mode.
        let (pa, perm) = fixed.lookup(0x10000).unwrap();
        assert!(FREE_START <= pa && pa < FREE_END);
        assert!(perm.user);

        // The kernel mapping stays privileged.
        let (_, kperm) = fixed.lookup(0x80000000).unwrap();
        assert!(!kperm.user);

        let satp = page_table::generate(page_table::Format::RiscvSv32, &fixed, &mut pmem).unwrap();

        // The mode bit of the address-translation register is set.
        assert_eq!(satp >> 31, 1);
        satps.push(satp);
        fixed_spaces.push(fixed);
    }

    // The two processes load different bytes, so their segments land at
    // distinct physical addresses.
    let pa0 = fixed_spaces[0].lookup_phys(0x10000).unwrap();
    let pa1 = fixed_spaces[1].lookup_phys(0x10000).unwrap();
    assert_ne!(pa0, pa1);

    // Patch the kernel symbols as the image builder does, then read back.
    let satp_bytes = vec_u64_to_bytes(&satps);
    let satps_paddr = sym_paddr("USER_SATPS", &kernel, &kernel_as).unwrap();
    pmem.write(satps_paddr, &satp_bytes);
    assert_eq!(pmem.read(satps_paddr, 16), satp_bytes);
}

#[test]
fn end_to_end_image_is_deterministic() {
    let system = test_system();
    let kernel = kernel_elf();
    let users = vec![user_elf(0x10000, 1), user_elf(0x10004, 2)];

    let image1 = generate(&system, &kernel, &users).unwrap();
    let image2 = generate(&system, &kernel, &users).unwrap();

    assert_eq!(image1, image2);
    assert_eq!(&image1[0..4], &[0x7F, 0x45, 0x4C, 0x46]);
}

#[test]
fn written_image_parses_back() {
    let system = test_system();
    let kernel = kernel_elf();
    let users = vec![user_elf(0x10000, 1), user_elf(0x10004, 2)];

    let image = generate(&system, &kernel, &users).unwrap();
    let parsed = elf_from_bytes(&image).unwrap();

    // Every segment of the written image carries its bytes at its physical
    // address; the entry point is the kernel entry's physical address.
    assert!(!parsed.segments.is_empty());
    assert!(FREE_START <= parsed.entry && parsed.entry < FREE_END);
    for seg in &parsed.segments {
        assert!(FREE_START <= seg.vaddr && seg.vaddr < FREE_END);
        assert!(!seg.data.is_empty());
    }
}

#[test]
fn malformed_elf_bytes_are_rejected() {
    assert!(elf_from_bytes(&[]).is_err());
    assert!(elf_from_bytes(&[0x7F, 0x45, 0x4C, 0x46, 0, 0, 0]).is_err());
}

#[test]
fn writer_headers_have_documented_sizes() {
    assert_eq!(elf_writer::ehdr_len(elf_writer::Format::Elf32), 0x34);
    assert_eq!(elf_writer::ehdr_len(elf_writer::Format::Elf64), 0x40);
    assert_eq!(elf_writer::phdr_len(elf_writer::Format::Elf32), 0x20);
    assert_eq!(elf_writer::phdr_len(elf_writer::Format::Elf64), 0x38);
    assert_eq!(elf_writer::shdr_len(elf_writer::Format::Elf32), 0x28);
    assert_eq!(elf_writer::shdr_len(elf_writer::Format::Elf64), 0x40);
}

#[test]
fn oversized_values_cannot_enter_a_32_bit_image() {
    assert!(elf_writer::write_native(elf_writer::Format::Elf32, 0x1_0000_0000).is_err());
    assert_eq!(
        elf_writer::write_native(elf_writer::Format::Elf32, 0x1234).unwrap(),
        vec![0x34, 0x12, 0, 0]
    );
    assert_eq!(
        elf_writer::write_native(elf_writer::Format::Elf64, 0x1_0000_0000).unwrap(),
        vec![0, 0, 0, 0, 1, 0, 0, 0]
    );
}

#[test]
fn sv39_mode_bits_are_set() {
    let system = test_system();
    let kernel = kernel_elf();

    let mut pmem = phys_from_config(&system).unwrap();
    let mut kernel_as = to_kernel_as(&system.kernel, &kernel).unwrap();
    kernel_as.fixate(&mut pmem).unwrap();

    let satp = page_table::generate(page_table::Format::RiscvSv39, &kernel_as, &mut pmem).unwrap();
    assert_eq!(satp >> 60, 8);
}

#[test]
fn misaligned_free_memory_is_rejected() {
    let mut system = test_system();
    system.available_memory[0].start = 0x84000800;
    assert!(phys_from_config(&system).is_err());
}

#[test]
fn sv32_tables_cannot_live_above_4_gib() {
    let mut system = test_system();
    system.available_memory[0].start = 0x1_0000_0000;
    let kernel = kernel_elf();

    let mut pmem = phys_from_config(&system).unwrap();
    let mut kernel_as = to_kernel_as(&system.kernel, &kernel).unwrap();
    kernel_as.fixate(&mut pmem).unwrap();

    let r = page_table::generate(page_table::Format::RiscvSv32, &kernel_as, &mut pmem);
    assert_eq!(r.unwrap_err(), harden::error::Error::PageTableOverflow);

    // The same layout is fine for a format whose tables can point that high.
    let mut pmem = phys_from_config(&system).unwrap();
    let mut kernel_as = to_kernel_as(&system.kernel, &kernel).unwrap();
    kernel_as.fixate(&mut pmem).unwrap();
    assert!(page_table::generate(page_table::Format::RiscvSv39, &kernel_as, &mut pmem).is_ok());
}
