//! Composing the boot image: physical memory from the machine description,
//! kernel and user address spaces, page tables, kernel patching, and the
//! final ELF serialization.

use vstd::prelude::*;

use crate::address_space::{AddressSpace, Backing, Mapping, lookup_spec, mapping_like,
    mappings_wf};
use crate::bump_ptr_alloc::{BumpPointerAlloc, ChainedAlloc, SimpleAlloc, spec_is_power_of_two};
use crate::constants::PAGE_SIZE;
use crate::elf::ElfImage;
use crate::elf::Permissions;
use crate::elf_writer;
use crate::error::Error;
use crate::page_table;
use crate::phys_mem::{PhysMemory, covered, mem_byte, mem_flat};
use crate::runtypes;

verus! {

/// Whether a declared free region can back a page-aligned bump allocator:
/// it starts on a page boundary and does not wrap around the address space.
pub open spec fn free_region_ok(region: crate::cfgtypes::MemoryRegion) -> bool {
    &&& region.start % PAGE_SIZE == 0
    &&& region.start + region.size <= u64::MAX
}

/// The bump allocator of a declared free region.
pub open spec fn bump_of_region(region: crate::cfgtypes::MemoryRegion) -> BumpPointerAlloc {
    BumpPointerAlloc {
        current: region.start,
        min_align: PAGE_SIZE,
        end: (region.start + region.size) as u64,
    }
}

/// Whether a declared virtual region is usable: page-aligned start and size,
/// no wrap-around, and a representable backing.
pub open spec fn vregion_ok(vr: runtypes::VirtualMemoryRegion) -> bool {
    &&& vr.virt_start % PAGE_SIZE == 0
    &&& vr.spec_size() % PAGE_SIZE == 0
    &&& vr.spec_size() <= u64::MAX - vr.virt_start
    &&& match vr.phys {
        runtypes::MemoryRegion::Phys { size, start } => start % PAGE_SIZE == 0 && size <= u64::MAX
            - start,
        runtypes::MemoryRegion::AnonymousZeroes { size } => size <= usize::MAX,
    }
}

/// Every resource-backed region of the process is usable.
pub open spec fn res_regions_ok(rs: Seq<(String, runtypes::Resource)>) -> bool {
    forall|i: int|
        0 <= i < rs.len() ==> ((#[trigger] rs[i]).1.opt_region is Some ==> vregion_ok(
            rs[i].1.opt_region->0,
        ))
}

/// Every anonymous region of the process is usable.
pub open spec fn anon_regions_ok(ms: Seq<runtypes::VirtualMemoryRegion>) -> bool {
    forall|i: int| 0 <= i < ms.len() ==> vregion_ok(#[trigger] ms[i])
}

/// A free physical region as a page-aligned bump allocator. A region whose
/// start is not page-aligned, or which wraps around the address space,
/// cannot be used.
fn bump_from_region(region: &crate::cfgtypes::MemoryRegion) -> (r: Result<BumpPointerAlloc, Error>)
    ensures
        match r {
            Ok(b) => {
                &&& free_region_ok(*region)
                &&& b.wf()
                &&& b == bump_of_region(*region)
            },
            Err(e) => e == Error::ConfigParse && !free_region_ok(*region),
        },
{
    if region.start % PAGE_SIZE != 0 {
        return Err(Error::ConfigParse);
    }
    if region.size > u64::MAX - region.start {
        return Err(Error::ConfigParse);
    }
    proof {
        let st = region.start;
        assert(st % 4096 == 0 ==> st & 0xFFF == 0) by (bit_vector);
        assert(4096u64 & 4095u64 == 0) by (bit_vector);
        assert(spec_is_power_of_two(PAGE_SIZE));
    }
    Ok(BumpPointerAlloc::new(region.start, region.start + region.size, PAGE_SIZE))
}

/// Physical memory backed by the machine's declared free-memory list.
pub fn phys_from_config(system: &runtypes::Configuration) -> (r: Result<PhysMemory, Error>)
    ensures
        match r {
            Ok(p) => {
                &&& p.wf()
                &&& forall|i: int| 0 <= i < system.available_memory@.len()
                    ==> free_region_ok(#[trigger] system.available_memory@[i])
                &&& p.model() == (crate::phys_mem::PmState {
                    mem: Seq::empty(),
                    free: Seq::new(
                        system.available_memory@.len(),
                        |i: int| bump_of_region(
                            system.available_memory@[system.available_memory@.len() - 1 - i],
                        ),
                    ),
                    shared: Seq::empty(),
                })
            },
            Err(e) => e == Error::ConfigParse && exists|i: int|
                0 <= i < system.available_memory@.len() && !free_region_ok(
                    #[trigger] system.available_memory@[i],
                ),
        },
{
    let mut bumps: Vec<BumpPointerAlloc> = Vec::new();
    let mut i: usize = 0;
    while i < system.available_memory.len()
        invariant
            i <= system.available_memory@.len(),
            bumps@.len() == i,
            forall|k: int| 0 <= k < i ==> free_region_ok(#[trigger] system.available_memory@[k]),
            forall|k: int| 0 <= k < i ==> (#[trigger] bumps@[k]) == bump_of_region(
                system.available_memory@[k],
            ),
            forall|k: int| 0 <= k < bumps@.len() ==> (#[trigger] bumps@[k]).wf(),
        decreases system.available_memory@.len() - i,
    {
        match bump_from_region(&system.available_memory[i]) {
            Ok(b) => {
                bumps.push(b);
            },
            Err(e) => {
                return Err(e);
            },
        }
        i = i + 1;
    }
    let pm = PhysMemory::new(ChainedAlloc::new(bumps));
    proof {
        let n = system.available_memory@.len() as int;
        assert forall|k: int| 0 <= k < n implies pm.free_memory.backends@[k] == bump_of_region(
            system.available_memory@[n - 1 - k],
        ) by {
            assert(pm.free_memory.backends@[k] == bumps@[n - 1 - k]);
        }
        assert(pm.free_memory.backends@ =~= Seq::new(
            n as nat,
            |i: int| bump_of_region(system.available_memory@[n - 1 - i]),
        ));
        assert(pm.model() =~= (crate::phys_mem::PmState {
            mem: Seq::empty(),
            free: Seq::new(
                n as nat,
                |i: int| bump_of_region(system.available_memory@[n - 1 - i]),
            ),
            shared: Seq::empty(),
        }));
    }
    Ok(pm)
}

/// The mapping of a declared virtual memory region: read-write, supervisor
/// only, backed by hardware or by zeroed anonymous memory. Regions that are
/// not page-aligned or not representable are rejected.
pub fn region_mapping(vr: &runtypes::VirtualMemoryRegion) -> (r: Result<Mapping, Error>)
    ensures
        match r {
            Ok(m) => {
                &&& vregion_ok(*vr)
                &&& m.wf()
                &&& m.vaddr == vr.virt_start
                &&& m.vaddr % PAGE_SIZE == 0
                &&& m.perm == (Permissions { read: true, write: true, execute: false, user: false })
                &&& m.spec_size() == vr.spec_size()
                &&& m.backing.is_initialized() <==> vr.phys is AnonymousZeroes
                &&& m.backing.is_initialized() ==> m.backing.spec_data() == crate::elf::zeroes(
                    vr.spec_size() as int,
                )
                &&& !m.backing.is_initialized() ==> m.backing.spec_phys() == vr.phys->Phys_start
                    && m.backing.spec_phys() % PAGE_SIZE == 0
            },
            Err(e) => e == Error::ConfigParse && !vregion_ok(*vr),
        },
{
    let size = vr.size();
    if vr.virt_start % PAGE_SIZE != 0 {
        return Err(Error::ConfigParse);
    }
    if size % PAGE_SIZE != 0 || size > u64::MAX - vr.virt_start {
        return Err(Error::ConfigParse);
    }
    let backing = match &vr.phys {
        runtypes::MemoryRegion::Phys { size, start } => {
            if *start % PAGE_SIZE != 0 || *size > u64::MAX - *start {
                return Err(Error::ConfigParse);
            }
            Backing::Phys { phys: *start, size: *size }
        },
        runtypes::MemoryRegion::AnonymousZeroes { size } => {
            if *size > usize::MAX as u64 {
                return Err(Error::ConfigParse);
            }
            Backing::InitializedData { data: crate::elf::zero_vec(*size as usize) }
        },
    };
    Ok(Mapping { vaddr: vr.virt_start, perm: Permissions::read_write(), backing })
}

/// The mappings of all resource-backed regions of a process, in resource
/// order.
fn resource_mappings(process: &runtypes::Process) -> (r: Result<Vec<Mapping>, Error>)
    ensures
        match r {
            Ok(ms) => res_regions_ok(process.resources@) && forall|k: int|
                0 <= k < ms@.len() ==> (#[trigger] ms@[k]).wf(),
            Err(e) => e == Error::ConfigParse && !res_regions_ok(process.resources@),
        },
{
    let mut out: Vec<Mapping> = Vec::new();
    let mut i: usize = 0;
    while i < process.resources.len()
        invariant
            i <= process.resources@.len(),
            forall|k: int| 0 <= k < i ==> ((#[trigger] process.resources@[k]).1.opt_region is Some
                ==> vregion_ok(process.resources@[k].1.opt_region->0)),
            forall|k: int| 0 <= k < out@.len() ==> (#[trigger] out@[k]).wf(),
        decreases process.resources@.len() - i,
    {
        match &process.resources[i].1.opt_region {
            Some(vr) => {
                match region_mapping(vr) {
                    Ok(m) => {
                        out.push(m);
                    },
                    Err(e) => {
                        return Err(e);
                    },
                }
            },
            None => {},
        }
        i = i + 1;
    }
    Ok(out)
}

/// The mappings of all anonymous regions of a process, in order.
fn anon_mappings(process: &runtypes::Process) -> (r: Result<Vec<Mapping>, Error>)
    ensures
        match r {
            Ok(ms) => anon_regions_ok(process.anon_mem@) && forall|k: int|
                0 <= k < ms@.len() ==> (#[trigger] ms@[k]).wf(),
            Err(e) => e == Error::ConfigParse && !anon_regions_ok(process.anon_mem@),
        },
{
    let mut out: Vec<Mapping> = Vec::new();
    let mut i: usize = 0;
    while i < process.anon_mem.len()
        invariant
            i <= process.anon_mem@.len(),
            forall|k: int| 0 <= k < i ==> vregion_ok(#[trigger] process.anon_mem@[k]),
            forall|k: int| 0 <= k < out@.len() ==> (#[trigger] out@[k]).wf(),
        decreases process.anon_mem@.len() - i,
    {
        match region_mapping(&process.anon_mem[i]) {
            Ok(m) => {
                out.push(m);
            },
            Err(e) => {
                return Err(e);
            },
        }
        i = i + 1;
    }
    Ok(out)
}

/// The page-aligned mapping a loadable segment turns into: it keeps the
/// segment's permissions and bytes, starts on the previous page boundary and
/// covers whole pages.
pub open spec fn elf_segment_mapped(m: Mapping, s: crate::elf::Segment) -> bool {
    let off = s.vaddr % PAGE_SIZE;
    &&& m.vaddr == s.vaddr - off
    &&& m.vaddr % PAGE_SIZE == 0
    &&& m.perm == s.permissions
    &&& m.backing.is_initialized()
    &&& m.spec_size() % (PAGE_SIZE as int) == 0
    &&& m.backing.spec_data() == crate::elf::zeroes(off as int) + s.data@ + crate::elf::zeroes(
        crate::address_space::spec_page_pad(s.data@.len() + off),
    )
}

/// The same mapping once published to user mode.
pub open spec fn elf_segment_mapped_user(m: Mapping, s: crate::elf::Segment) -> bool {
    elf_segment_mapped(
        Mapping { perm: Permissions { user: s.permissions.user, ..m.perm }, ..m },
        s,
    ) && m.perm.user
}

/// The kernel address space: the kernel ELF's segments plus any virtual
/// regions its resources request. Stays privileged.
pub fn to_kernel_as(process: &runtypes::Process, kernel_elf: &ElfImage) -> (r: Result<
    AddressSpace,
    Error,
>)
    requires
        kernel_elf.wf(),
    ensures
        match r {
            Ok(a) => {
                &&& a.wf()
                &&& a.mappings@.len() >= kernel_elf.segments@.len()
                &&& forall|i: int|
                    0 <= i < kernel_elf.segments@.len() ==> elf_segment_mapped(
                        #[trigger] a.mappings@[i],
                        kernel_elf.segments@[i],
                    )
                &&& res_regions_ok(process.resources@)
            },
            Err(e) => e == Error::ConfigParse && !res_regions_ok(process.resources@),
        },
{
    let mut kernel_as = AddressSpace::from_elf(kernel_elf);
    let regions = match resource_mappings(process) {
        Ok(v) => v,
        Err(e) => {
            return Err(e);
        },
    };
    kernel_as.extend(regions);
    Ok(kernel_as)
}

/// A user process's address space: its ELF's segments, its anonymous stack
/// and heap regions and its resource-backed regions, all published to user
/// mode; then the fixated kernel address space, which stays privileged.
pub fn to_user_as(
    process: &runtypes::Process,
    user_elf: &ElfImage,
    kernel_as: &AddressSpace,
) -> (r: Result<AddressSpace, Error>)
    requires
        user_elf.wf(),
        kernel_as.wf(),
    ensures
        match r {
            Ok(a) => {
                &&& a.wf()
                &&& a.mappings@.len() >= kernel_as.mappings@.len()
                &&& forall|i: int|
                    0 <= i < kernel_as.mappings@.len() ==> mapping_like(
                        #[trigger] a.mappings@[a.mappings@.len() - kernel_as.mappings@.len() + i],
                        kernel_as.mappings@[i],
                    )
                &&& a.mappings@.len() >= user_elf.segments@.len()
                &&& forall|i: int|
                    0 <= i < user_elf.segments@.len() ==> elf_segment_mapped_user(
                        #[trigger] a.mappings@[i],
                        user_elf.segments@[i],
                    )
                &&& anon_regions_ok(process.anon_mem@)
                &&& res_regions_ok(process.resources@)
            },
            Err(e) => e == Error::ConfigParse && (!anon_regions_ok(process.anon_mem@)
                || !res_regions_ok(process.resources@)),
        },
{
    let mut user_as = AddressSpace::from_elf(user_elf);
    let anon = match anon_mappings(process) {
        Ok(v) => v,
        Err(e) => {
            return Err(e);
        },
    };
    user_as.extend(anon);
    let regions = match resource_mappings(process) {
        Ok(v) => v,
        Err(e) => {
            return Err(e);
        },
    };
    user_as.extend(regions);

    // Make mappings available at the user privilege. The kernel mappings are
    // merged afterwards on purpose: they must stay invisible to user code.
    user_as.make_user();

    user_as.merge_from(kernel_as);
    Ok(user_as)
}

/// Whether every mapping starts on a page boundary, virtually and, when
/// placed, physically.
pub fn check_pt_aligned(a: &AddressSpace) -> (r: bool)
    requires
        a.wf(),
    ensures
        r == page_table::pt_aligned(a.mappings@),
{
    let n = a.mappings.len();
    let mut i: usize = 0;
    while i < n
        invariant
            n == a.mappings@.len(),
            a.wf(),
            i <= n,
            forall|k: int|
                0 <= k < i ==> (#[trigger] a.mappings@[k]).vaddr & 0xFFF == 0 && (
                !a.mappings@[k].backing.is_initialized() ==> a.mappings@[k].backing.spec_phys()
                    & 0xFFF == 0),
        decreases n - i,
    {
        let m = &a.mappings[i];
        if m.vaddr & 0xFFF != 0 {
            return false;
        }
        match &m.backing {
            Backing::Phys { phys, .. } => {
                if *phys & 0xFFF != 0 {
                    return false;
                }
            },
            Backing::InitializedData { .. } => {},
        }
        i = i + 1;
    }
    true
}

/// A page-aligned virtual address that the address space maps, if any: a
/// witness that generated page tables will be non-empty.
fn find_mapped_page(a: &AddressSpace, span: u64) -> (r: Option<u64>)
    requires
        a.wf(),
        page_table::pt_aligned(a.mappings@),
    ensures
        match r {
            Some(va) => 0 <= va < span && va % 4096 == 0 && page_table::pt_entry_spec(
                a.mappings@,
                va,
            ) != 0,
            None => true,
        },
{
    let n = a.mappings.len();
    let mut i: usize = 0;
    while i < n
        invariant
            n == a.mappings@.len(),
            a.wf(),
            page_table::pt_aligned(a.mappings@),
            i <= n,
        decreases n - i,
    {
        let va = a.mappings[i].vaddr;
        proof {
            let v = va;
            assert(v & 0xFFF == 0 ==> v % 4096 == 0) by (bit_vector);
        }
        if va < span {
            let e = page_table::pt_entry(va, a);
            if e != 0 {
                return Some(va);
            }
        }
        i = i + 1;
    }
    None
}

/// The physical address of a kernel symbol under the kernel's fixated
/// address space.
pub fn sym_paddr(name: &str, elf: &ElfImage, addr_space: &AddressSpace) -> (r: Result<u64, Error>)
    requires
        addr_space.wf(),
    ensures
        match r {
            Ok(p) => {
                &&& elf.spec_symbol(name@) is Some
                &&& lookup_spec(addr_space.mappings@, elf.spec_symbol(name@)->0) is Some
                &&& p == (lookup_spec(addr_space.mappings@, elf.spec_symbol(name@)->0)->0).0
            },
            Err(e) => {
                &&& e == Error::SymbolMissing
                &&& (elf.spec_symbol(name@) is None || lookup_spec(
                    addr_space.mappings@,
                    elf.spec_symbol(name@)->0,
                ) is None)
            },
        },
{
    let vaddr = match elf.symbol(name) {
        Some(v) => v,
        None => {
            return Err(Error::SymbolMissing);
        },
    };
    match addr_space.lookup_phys(vaddr) {
        Some(p) => Ok(p),
        None => Err(Error::SymbolMissing),
    }
}

/// Patch `data` into physical memory at the address of a kernel symbol.
fn patch_symbol(
    pmem: &mut PhysMemory,
    name: &str,
    elf: &ElfImage,
    addr_space: &AddressSpace,
    data: &Vec<u8>,
) -> (r: Result<(), Error>)
    requires
        old(pmem).wf(),
        addr_space.wf(),
    ensures
        final(pmem).wf(),
        old(pmem).memory@.is_prefix_of(final(pmem).memory@),
        final(pmem).free_memory == old(pmem).free_memory,
        final(pmem).shared() == old(pmem).shared(),
        match r {
            Ok(()) => {
                &&& elf.spec_symbol(name@) is Some
                &&& lookup_spec(addr_space.mappings@, elf.spec_symbol(name@)->0) is Some
                &&& final(pmem).memory@ == old(pmem).memory@.push(
                    (
                        (lookup_spec(addr_space.mappings@, elf.spec_symbol(name@)->0)->0).0 as int,
                        data@,
                    ),
                )
            },
            Err(e) => {
                &&& (e == Error::SymbolMissing || e == Error::Io)
                &&& final(pmem).memory@ == old(pmem).memory@
            },
        },
{
    let paddr = match sym_paddr(name, elf, addr_space) {
        Ok(p) => p,
        Err(e) => {
            return Err(e);
        },
    };
    if data.len() as u64 > u64::MAX - paddr {
        return Err(Error::Io);
    }
    let ghost pre = pmem.memory@;
    pmem.write(paddr, data.as_slice());
    proof {
        assert(pmem.memory@.take(pre.len() as int) =~= pre);
    }
    Ok(())
}

/// The chunk at `idx` patches the named kernel symbol: it sits at the
/// physical address the fixated kernel space resolves the symbol to and
/// holds exactly `bytes`.
pub open spec fn sym_patched(
    m: Seq<(int, Seq<u8>)>,
    idx: int,
    kmaps: Seq<Mapping>,
    kelf: ElfImage,
    name: Seq<char>,
    bytes: Seq<u8>,
) -> bool {
    &&& kelf.spec_symbol(name) is Some
    &&& lookup_spec(kmaps, kelf.spec_symbol(name)->0) is Some
    &&& m[idx] == (
        (lookup_spec(kmaps, kelf.spec_symbol(name)->0)->0).0 as int,
        bytes,
    )
}

/// What a successful build pins down. There are a fixated kernel space
/// `kmaps`, per-process root tokens `satps` and entry points `pcs`, and a
/// final physical memory `m` such that: the entry points are exactly the
/// user ELFs' entry points; every root token is a valid Sv32 register value;
/// the kernel space holds only placed mappings; the last three chunks of `m`
/// patch `BOOT_SATP`, `USER_SATPS` and `USER_PCS` with the little-endian
/// first token, token array and entry-point array; and the output is the
/// serialized image of a flat chunk list reading and covering exactly like
/// `m`, whose entry is the kernel ELF entry resolved through `kmaps`.
pub open spec fn build_trace(
    out: Seq<u8>,
    kelf: ElfImage,
    uelfs: Seq<ElfImage>,
    kmaps: Seq<Mapping>,
    satps: Seq<u64>,
    pcs: Seq<u64>,
    m: Seq<(int, Seq<u8>)>,
    entry: u64,
    cs: Seq<(int, Seq<u8>)>,
) -> bool {
    &&& pcs.len() == uelfs.len()
    &&& (forall|i: int| 0 <= i < pcs.len() ==> pcs[i] == (#[trigger] uelfs[i]).entry)
    &&& satps.len() == uelfs.len()
    &&& satps.len() >= 1
    &&& (forall|i: int|
        0 <= i < satps.len() ==> exists|root: u64|
            #[trigger] satps[i] == #[trigger] page_table::spec_satp(
                page_table::Format::RiscvSv32,
                root,
            ))
    &&& mappings_wf(kmaps)
    &&& (forall|i: int| 0 <= i < kmaps.len() ==> !(#[trigger] kmaps[i]).backing.is_initialized())
    &&& m.len() >= 3
    &&& sym_patched(
        m,
        m.len() - 3,
        kmaps,
        kelf,
        "BOOT_SATP"@,
        crate::vec_utils::u64s_to_bytes(seq![satps[0]]),
    )
    &&& sym_patched(
        m,
        m.len() - 2,
        kmaps,
        kelf,
        "USER_SATPS"@,
        crate::vec_utils::u64s_to_bytes(satps),
    )
    &&& sym_patched(m, m.len() - 1, kmaps, kelf, "USER_PCS"@, crate::vec_utils::u64s_to_bytes(pcs))
    &&& lookup_spec(kmaps, kelf.entry) is Some
    &&& entry == (lookup_spec(kmaps, kelf.entry)->0).0
    &&& mem_flat(cs)
    &&& (forall|a: int| mem_byte(cs, a) == mem_byte(m, a))
    &&& (forall|a: int| covered(cs, a) == covered(m, a))
    &&& elf_writer::image_fits(elf_writer::Format::Elf32, entry, cs)
    &&& out == elf_writer::spec_image(elf_writer::Format::Elf32, entry, cs)
}

/// Build the bootable image for a configured system: fixate the kernel, then
/// every user process against the shared physical memory, generate their
/// page tables, patch the kernel's boot symbols, and serialize everything as
/// a 32-bit RISC-V ELF.
///
/// The caller supplies the parsed kernel ELF and one parsed ELF per user
/// process, in the configuration's process order.
#[verifier::rlimit(100)]
#[verifier::spinoff_prover]
pub fn generate(
    system: &runtypes::Configuration,
    kernel_elf: &ElfImage,
    user_elfs: &Vec<ElfImage>,
) -> (r: Result<Vec<u8>, Error>)
    requires
        kernel_elf.wf(),
        forall|i: int| 0 <= i < user_elfs@.len() ==> (#[trigger] user_elfs@[i]).wf(),
        user_elfs@.len() == system.processes@.len(),
        user_elfs@.len() >= 1,
    ensures
        r is Err ==> (r->Err_0 == Error::ConfigParse || r->Err_0 == Error::ElfInvalid || r->Err_0
            == Error::PhysicalExhausted || r->Err_0 == Error::PageTableOverflow || r->Err_0
            == Error::SymbolMissing || r->Err_0 == Error::Io),
        r is Ok ==> exists|
            kmaps: Seq<Mapping>,
            satps: Seq<u64>,
            pcs: Seq<u64>,
            m: Seq<(int, Seq<u8>)>,
            entry: u64,
            cs: Seq<(int, Seq<u8>)>,
        |
            #[trigger] build_trace(
                (r->Ok_0)@,
                *kernel_elf,
                user_elfs@,
                kmaps,
                satps,
                pcs,
                m,
                entry,
                cs,
            ),
{
    let mut pmem = match phys_from_config(system) {
        Ok(p) => p,
        Err(e) => {
            return Err(e);
        },
    };
    let mut kernel_as = match to_kernel_as(&system.kernel, kernel_elf) {
        Ok(a) => a,
        Err(e) => {
            return Err(e);
        },
    };

    // The kernel's backing store is allocated once and reused for every user
    // address space.
    match kernel_as.fixate(&mut pmem) {
        Ok(()) => {},
        Err(e) => {
            return Err(e);
        },
    }
    let n = user_elfs.len();
    let mut user_satps: Vec<u64> = Vec::new();
    let mut user_pcs: Vec<u64> = Vec::new();
    let mut i: usize = 0;
    while i < n
        invariant
            n == user_elfs@.len(),
            n == system.processes@.len(),
            forall|k: int| 0 <= k < user_elfs@.len() ==> (#[trigger] user_elfs@[k]).wf(),
            kernel_as.wf(),
            forall|k: int| 0 <= k < kernel_as.mappings@.len()
                ==> !(#[trigger] kernel_as.mappings@[k]).backing.is_initialized(),
            pmem.wf(),
            i <= n,
            user_satps@.len() == i,
            user_pcs@.len() == i,
            forall|j: int| 0 <= j < i ==> (#[trigger] user_pcs@[j]) == user_elfs@[j].entry,
            forall|j: int|
                0 <= j < i ==> exists|root: u64|
                    (#[trigger] user_satps@[j]) == page_table::spec_satp(
                        page_table::Format::RiscvSv32,
                        root,
                    ),
        decreases n - i,
    {
        let ua = match to_user_as(&system.processes[i], &user_elfs[i], &kernel_as) {
            Ok(a) => a,
            Err(e) => {
                return Err(e);
            },
        };
        let fixed = match ua.fixated(&mut pmem) {
            Ok(a) => a,
            Err(e) => {
                return Err(e);
            },
        };
        if !check_pt_aligned(&fixed) {
            return Err(Error::ConfigParse);
        }
        match find_mapped_page(&fixed, 0xFFFFF000u64) {
            Some(_) => {},
            None => {
                // An address space that maps nothing cannot get page tables.
                return Err(Error::ElfInvalid);
            },
        }
        let ghost pre_walk = pmem.model();
        let satp = match page_table::generate(page_table::Format::RiscvSv32, &fixed, &mut pmem) {
            Ok(s) => s,
            Err(e) => {
                return Err(e);
            },
        };
        proof {
            let w = page_table::generate_walk(
                pre_walk,
                page_table::Format::RiscvSv32,
                fixed.mappings@,
            ).1;
            assert(satp == page_table::spec_satp(page_table::Format::RiscvSv32, w->Ok_0->0));
            assert(exists|root: u64|
                satp == page_table::spec_satp(page_table::Format::RiscvSv32, root));
        }
        user_satps.push(satp);
        user_pcs.push(user_elfs[i].entry);
        i = i + 1;
    }

    // Patch the page table pointer the kernel boots with, the page tables of
    // each user process and the thread entry points.
    let boot_satp = crate::vec_utils::vec_u64_to_bytes(&[user_satps[0]]);
    match patch_symbol(&mut pmem, "BOOT_SATP", kernel_elf, &kernel_as, &boot_satp) {
        Ok(()) => {},
        Err(e) => {
            return Err(e);
        },
    }
    let satp_bytes = crate::vec_utils::vec_u64_to_bytes(user_satps.as_slice());
    match patch_symbol(&mut pmem, "USER_SATPS", kernel_elf, &kernel_as, &satp_bytes) {
        Ok(()) => {},
        Err(e) => {
            return Err(e);
        },
    }
    let pc_bytes = crate::vec_utils::vec_u64_to_bytes(user_pcs.as_slice());
    match patch_symbol(&mut pmem, "USER_PCS", kernel_elf, &kernel_as, &pc_bytes) {
        Ok(()) => {},
        Err(e) => {
            return Err(e);
        },
    }
    let entry = match kernel_as.lookup_phys(kernel_elf.entry) {
        Some(p) => p,
        None => {
            return Err(Error::SymbolMissing);
        },
    };
    match pmem.checked_size() {
        Some(total) => {
            if total > usize::MAX as u64 {
                return Err(Error::PhysicalExhausted);
            }
        },
        None => {
            return Err(Error::PhysicalExhausted);
        },
    }
    let img = match elf_writer::write(elf_writer::Format::Elf32, entry, &pmem) {
        Ok(v) => v,
        Err(e) => {
            return Err(e);
        },
    };
    proof {
        let kmaps = kernel_as.mappings@;
        let satps = user_satps@;
        let pcs = user_pcs@;
        let m = pmem.memory@;
        assert(boot_satp@ == crate::vec_utils::u64s_to_bytes(seq![satps[0]])) by {
            assert(([user_satps@[0]])@ =~= seq![satps[0]]);
        }
        let cs = choose|cs: Seq<(int, Seq<u8>)>|
            {
                &&& #[trigger] mem_flat(cs)
                &&& (forall|a: int| mem_byte(cs, a) == mem_byte(pmem.memory@, a))
                &&& (forall|a: int| covered(cs, a) == covered(pmem.memory@, a))
                &&& elf_writer::image_fits(elf_writer::Format::Elf32, entry, cs)
                &&& img@ == elf_writer::spec_image(elf_writer::Format::Elf32, entry, cs)
            };
        assert(build_trace(img@, *kernel_elf, user_elfs@, kmaps, satps, pcs, m, entry, cs));
    }
    Ok(img)
}

} // verus!
