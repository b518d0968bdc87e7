//! Multi-level RISC-V page-table generation: a recursive walker that emits
//! leaf and inner tables into physical memory and returns the root pointer
//! encoded as a supervisor address-translation register value.

use vstd::arithmetic::div_mod::{lemma_fundamental_div_mod, lemma_mod_multiples_basic};
use vstd::prelude::*;

use crate::address_space::{AddressSpace, Mapping, lookup_spec, mappings_wf};
use crate::elf::Permissions;
use crate::error::Error;
use crate::phys_mem::{PhysMemory, PlaceAs, PmState, place_shareable_spec};
use crate::vec_utils::{vec_u32_to_bytes, vec_u64_to_bytes};

verus! {

/// Errors from page table generation.
#[derive(Debug, Clone, Copy, PartialEq, Eq, Structural)]
pub enum PageTableError {
    /// A physical address was not mappable in the page table. This can happen
    /// when a 32-bit page table is created but the physical address is beyond
    /// what its entries can represent.
    PhysAddressNotMappable { pte: u64 },
    /// A page table was allocated at a place its parent cannot point to.
    IllegalPageTablePlacement { paddr: u64 },
    /// Allocating backing storage for page tables failed.
    MemoryAllocationFailed,
}

/// A page table format.
#[derive(Debug, Clone, Copy, PartialEq, Eq, Structural)]
pub enum Format {
    RiscvSv32,
    RiscvSv39,
}

/// The geometry of a page-table format.
#[derive(Debug, Copy, Clone, PartialEq, Eq, Structural)]
pub struct PageTableFormat {
    pub bits_per_level: u8,
    pub levels: u8,
}

pub open spec fn fmt_wf(f: PageTableFormat) -> bool {
    ||| f == (PageTableFormat { bits_per_level: 10, levels: 2 })
    ||| f == (PageTableFormat { bits_per_level: 9, levels: 3 })
}

pub const PTE_V: u8 = 1;

pub const PTE_R: u8 = 2;

pub const PTE_W: u8 = 4;

pub const PTE_X: u8 = 8;

pub const PTE_U: u8 = 16;

pub const PTE_A: u8 = 64;

pub const PTE_D: u8 = 128;

/// The permission bits of a leaf entry: valid, accessed and dirty are always
/// set; read, write, execute and user mirror the mapping's permissions.
pub open spec fn spec_permission_bits(perm: Permissions) -> u8 {
    ((if perm.read {
        PTE_R
    } else {
        0
    }) | (if perm.write {
        PTE_W
    } else {
        0
    }) | (if perm.execute {
        PTE_X
    } else {
        0
    }) | (if perm.user {
        PTE_U
    } else {
        0
    }) | PTE_A | PTE_D | PTE_V) as u8
}

pub fn permission_bits(perm: Permissions) -> (r: u8)
    ensures
        r == spec_permission_bits(perm),
{
    (if perm.read {
        PTE_R
    } else {
        0
    }) | (if perm.write {
        PTE_W
    } else {
        0
    }) | (if perm.execute {
        PTE_X
    } else {
        0
    }) | (if perm.user {
        PTE_U
    } else {
        0
    }) | PTE_A | PTE_D | PTE_V
}

/// The 64-bit leaf entry for a virtual address: the physical address shifted
/// right by two with the permission flags in the low bits, or zero where the
/// address space maps nothing.
pub open spec fn pt_entry_spec(ms: Seq<Mapping>, vaddr: u64) -> u64 {
    match lookup_spec(ms, vaddr) {
        Some(p) => (p.0 >> 2) | spec_permission_bits(p.1) as u64,
        None => 0,
    }
}

/// Every placed mapping starts on a page boundary, virtually and physically.
pub open spec fn pt_aligned(ms: Seq<Mapping>) -> bool {
    forall|i: int|
        0 <= i < ms.len() ==> (#[trigger] ms[i]).vaddr & 0xFFF == 0 && (!ms[i].backing.is_initialized()
            ==> ms[i].backing.spec_phys() & 0xFFF == 0)
}

/// A looked-up physical address inherits page alignment from the mappings.
proof fn lemma_lookup_aligned(ms: Seq<Mapping>, vaddr: u64)
    requires
        mappings_wf(ms),
        pt_aligned(ms),
        vaddr & 0xFFF == 0,
        lookup_spec(ms, vaddr) is Some,
    ensures
        (lookup_spec(ms, vaddr)->0).0 & 0xFFF == 0,
    decreases ms.len(),
{
    if ms.first().spec_virt_ivl().spec_contains(vaddr) && !ms.first().backing.is_initialized() {
        let m = ms[0];
        assert(m.vaddr & 0xFFF == 0 && m.backing.spec_phys() & 0xFFF == 0);
        let p = m.backing.spec_phys();
        let va = m.vaddr;
        assert((p + (vaddr - va)) as u64 & 0xFFF == 0) by (bit_vector)
            requires
                p & 0xFFF == 0,
                va & 0xFFF == 0,
                vaddr & 0xFFF == 0,
                va <= vaddr,
                p + (vaddr - va) <= u64::MAX,
        ;
    } else if !ms.first().spec_virt_ivl().spec_contains(vaddr) {
        assert(forall|i: int| 0 <= i < ms.drop_first().len() ==> ms.drop_first()[i] == ms[i + 1]);
        lemma_lookup_aligned(ms.drop_first(), vaddr);
    }
}

/// A leaf entry decodes back to the physical address and permission bits it
/// was built from; a present entry is never zero.
pub proof fn lemma_pt_entry_decodes(paddr: u64, perm: Permissions)
    requires
        paddr & 0xFFF == 0,
    ensures
        ((((paddr >> 2) | spec_permission_bits(perm) as u64) >> 10) << 12) == paddr,
        (((paddr >> 2) | spec_permission_bits(perm) as u64) & 0x3FF) == spec_permission_bits(
            perm,
        ) as u64,
        ((paddr >> 2) | spec_permission_bits(perm) as u64) != 0,
{
    let f = spec_permission_bits(perm) as u64;
    let pr: u8 = if perm.read {
        PTE_R
    } else {
        0
    };
    let pw: u8 = if perm.write {
        PTE_W
    } else {
        0
    };
    let px: u8 = if perm.execute {
        PTE_X
    } else {
        0
    };
    let pu: u8 = if perm.user {
        PTE_U
    } else {
        0
    };
    let bits: u8 = pr | pw | px | pu | PTE_A | PTE_D | PTE_V;
    assert(bits == spec_permission_bits(perm));
    assert(bits & 1 == 1) by (bit_vector)
        requires
            pr == 2 || pr == 0,
            pw == 4 || pw == 0,
            px == 8 || px == 0,
            pu == 16 || pu == 0,
            bits == pr | pw | px | pu | 64 | 128 | 1,
    ;
    assert((bits as u64) & 1 == 1 && (bits as u64) < 256) by (bit_vector)
        requires
            bits & 1 == 1,
    ;
    assert(f & 1 == 1 && f < 256);
    assert(((((paddr >> 2) | f) >> 10) << 12) == paddr && (((paddr >> 2) | f) & 0x3FF) == f && ((
    paddr >> 2) | f) != 0) by (bit_vector)
        requires
            paddr & 0xFFF == 0,
            f & 1 == 1,
            f < 256,
    ;
}

/// The 64-bit leaf entry for `vaddr`.
pub fn pt_entry(vaddr: u64, addr_space: &AddressSpace) -> (r: u64)
    requires
        addr_space.wf(),
        pt_aligned(addr_space.mappings@),
        vaddr & 0xFFF == 0,
    ensures
        r == pt_entry_spec(addr_space.mappings@, vaddr),
        r != 0 ==> lookup_spec(addr_space.mappings@, vaddr) is Some,
        lookup_spec(addr_space.mappings@, vaddr) is Some ==> r != 0,
{
    match addr_space.lookup(vaddr) {
        Some((paddr, perm)) => {
            proof {
                lemma_lookup_aligned(addr_space.mappings@, vaddr);
                lemma_pt_entry_decodes(paddr, perm);
            }
            (paddr >> 2) | permission_bits(perm) as u64
        },
        None => 0,
    }
}

/// The entry pointing at a child page table, or zero where the child is
/// absent. A present pointer entry is never zero.
pub open spec fn spec_pt_next(pt: Option<u64>) -> u64 {
    match pt {
        Some(phys) => (phys >> 2) | PTE_V as u64,
        None => 0,
    }
}

/// Create a page table entry that points to another page table.
pub fn pt_next(pt: Option<u64>) -> (r: u64)
    ensures
        r == spec_pt_next(pt),
        r == 0 <==> pt is None,
{
    match pt {
        Some(phys) => {
            proof {
                let p = phys;
                assert((p >> 2) | 1u64 != 0) by (bit_vector);
            }
            (phys >> 2) | PTE_V as u64
        },
        None => 0,
    }
}

/// No aligned address in `[vbase, vbase + span)` has a leaf entry.
pub open spec fn subtree_zero(ms: Seq<Mapping>, vbase: int, span: int) -> bool {
    forall|va: int|
        vbase <= va < vbase + span && #[trigger] (va % 4096) == 0 ==> pt_entry_spec(
            ms,
            va as u64,
        ) == 0
}

/// If every child subtree is empty, the whole span is empty.
proof fn lemma_children_zero(ms: Seq<Mapping>, vbase: int, cspan: int, count: int)
    requires
        cspan > 0,
        count >= 0,
        cspan % 4096 == 0,
        forall|q: int| 0 <= q < count ==> #[trigger] subtree_zero(ms, vbase + q * cspan, cspan),
    ensures
        subtree_zero(ms, vbase, count * cspan),
{
    assert forall|va: int|
        vbase <= va < vbase + count * cspan && #[trigger] (va % 4096) == 0 implies pt_entry_spec(
        ms,
        va as u64,
    ) == 0 by {
        let d = va - vbase;
        let q = d / cspan;
        lemma_fundamental_div_mod(d, cspan);
        assert(0 <= q < count) by (nonlinear_arith)
            requires
                d == q * cspan + d % cspan,
                0 <= d % cspan < cspan,
                0 <= d < count * cspan,
                cspan > 0,
        ;
        assert(vbase + q * cspan <= va < vbase + q * cspan + cspan);
        assert(subtree_zero(ms, vbase + q * cspan, cspan));
    }
}

/// The span of addresses one entry covers at `level`.
pub open spec fn entry_span(f: PageTableFormat, level: u8) -> int {
    if f.bits_per_level == 10 {
        if level == 0 {
            0x1000
        } else {
            0x400000
        }
    } else {
        if level == 0 {
            0x1000
        } else if level == 1 {
            0x200000
        } else {
            0x40000000
        }
    }
}

/// The span of addresses a whole table covers at `level`.
pub open spec fn table_span(f: PageTableFormat, level: u8) -> int {
    if f.bits_per_level == 10 {
        entry_span(f, level) * 0x400
    } else {
        entry_span(f, level) * 0x200
    }
}

/// The serialized page for a sequence of leaf entries, in the format's entry
/// width.
pub open spec fn leaf_page_bytes(format: PageTableFormat, entries: Seq<u64>) -> Seq<u8> {
    if format.bits_per_level == 10 {
        crate::vec_utils::u32s_to_bytes(entries.map_values(|e: u64| e as u32))
    } else {
        crate::vec_utils::u64s_to_bytes(entries)
    }
}

/// A freshly generated leaf table for `vaddr`: each entry covers one page of
/// the span, in order, and the serialized page lies in physical memory at
/// `p`, either newly placed or shared with an identical earlier placement.
pub open spec fn leaf_page_placed(
    format: PageTableFormat,
    pre: crate::phys_mem::PhysMemory,
    post: crate::phys_mem::PhysMemory,
    vaddr: u64,
    p: u64,
    ms: Seq<Mapping>,
) -> bool {
    exists|entries: Seq<u64>|
        {
            &&& entries.len() == (if format.bits_per_level == 10 {
                1024int
            } else {
                512int
            })
            &&& (forall|j: int|
                0 <= j < entries.len() ==> entries[j] == pt_entry_spec(
                    ms,
                    (vaddr + j * 4096) as u64,
                ))
            &&& #[trigger] leaf_page_bytes(format, entries).len() == 4096
            &&& {
                ||| post.memory@ == pre.memory@.push((p as int, leaf_page_bytes(format, entries)))
                ||| (post == pre && crate::phys_mem::share_lookup(
                    pre.shared(),
                    leaf_page_bytes(format, entries),
                ) == Some(p as int))
            }
        }
}

/// The index of the first entry too wide for a 32-bit table, or a negative
/// value when every entry fits.
pub open spec fn first_big(es: Seq<u64>) -> int
    decreases es.len(),
{
    if es.len() == 0 {
        -1
    } else if es.first() > u32::MAX {
        0
    } else {
        let r = first_big(es.drop_first());
        if r < 0 {
            -1
        } else {
            r + 1
        }
    }
}

proof fn lemma_first_big_at(es: Seq<u64>, k: int)
    requires
        0 <= k < es.len(),
        forall|j: int| 0 <= j < k ==> es[j] <= u32::MAX,
        es[k] > u32::MAX,
    ensures
        first_big(es) == k,
    decreases k,
{
    if k > 0 {
        assert(forall|j: int| 0 <= j < es.drop_first().len() ==> es.drop_first()[j] == es[j + 1]);
        lemma_first_big_at(es.drop_first(), k - 1);
    }
}

proof fn lemma_first_big_none(es: Seq<u64>)
    requires
        forall|j: int| 0 <= j < es.len() ==> es[j] <= u32::MAX,
    ensures
        first_big(es) < 0,
    decreases es.len(),
{
    if es.len() > 0 {
        assert(forall|j: int| 0 <= j < es.drop_first().len() ==> es.drop_first()[j] == es[j + 1]);
        lemma_first_big_none(es.drop_first());
    }
}

/// The number of entries in one table of the format.
pub open spec fn fmt_count(format: PageTableFormat) -> int {
    if format.bits_per_level == 10 {
        1024
    } else {
        512
    }
}

/// The first `k` entries of the table at `level` for `vaddr`, with the
/// physical-memory state after placing all child tables they point at. The
/// first failure stops the fold with the state it left behind.
pub open spec fn entries_spec(
    st: PmState,
    format: PageTableFormat,
    level: u8,
    vaddr: u64,
    ms: Seq<Mapping>,
    k: int,
) -> (PmState, Result<Seq<u64>, PageTableError>)
    decreases level, k,
{
    if k <= 0 {
        (st, Ok(Seq::empty()))
    } else {
        let (st1, r) = entries_spec(st, format, level, vaddr, ms, k - 1);
        match r {
            Err(e) => (st1, Err(e)),
            Ok(es) => {
                let va = (vaddr + (k - 1) * entry_span(format, level)) as u64;
                if level == 0 {
                    (st1, Ok(es.push(pt_entry_spec(ms, va))))
                } else {
                    let (st2, cr) = walk_spec(st1, format, (level - 1) as u8, va, ms);
                    match cr {
                        Err(e) => (st2, Err(e)),
                        Ok(c) => (st2, Ok(es.push(spec_pt_next(c)))),
                    }
                }
            },
        }
    }
}

/// One whole page table at `level` for `vaddr`, as a function of the
/// physical-memory state: the entries are computed, an all-zero table is
/// omitted, a 32-bit table must fit its entries, the serialized page is
/// placed shareably, and a 32-bit parent must be able to point at it.
pub open spec fn walk_spec(
    st: PmState,
    format: PageTableFormat,
    level: u8,
    vaddr: u64,
    ms: Seq<Mapping>,
) -> (PmState, Result<Option<u64>, PageTableError>)
    decreases level, 2000int,
{
    let (st1, er) = entries_spec(st, format, level, vaddr, ms, fmt_count(format));
    match er {
        Err(e) => (st1, Err(e)),
        Ok(entries) => {
            if forall|j: int| 0 <= j < entries.len() ==> entries[j] == 0 {
                (st1, Ok(None))
            } else if format.bits_per_level == 10 && first_big(entries) >= 0 {
                (
                    st1,
                    Err(PageTableError::PhysAddressNotMappable { pte: entries[first_big(entries)] }),
                )
            } else {
                let bytes = leaf_page_bytes(format, entries);
                let (st2, pr) = place_shareable_spec(st1, bytes);
                match pr {
                    None => (st2, Err(PageTableError::MemoryAllocationFailed)),
                    Some(p) => {
                        if format.bits_per_level == 10 && p > u32::MAX {
                            (st2, Err(PageTableError::IllegalPageTablePlacement { paddr: p }))
                        } else {
                            (st2, Ok(Some(p)))
                        }
                    },
                }
            }
        },
    }
}

/// A failed table stays failed: past the first failing entry the fold is
/// constant.
proof fn lemma_entries_stuck(
    st: PmState,
    format: PageTableFormat,
    level: u8,
    vaddr: u64,
    ms: Seq<Mapping>,
    k: int,
    k2: int,
)
    requires
        0 <= k <= k2,
        entries_spec(st, format, level, vaddr, ms, k).1 is Err,
    ensures
        entries_spec(st, format, level, vaddr, ms, k2) == entries_spec(
            st,
            format,
            level,
            vaddr,
            ms,
            k,
        ),
    decreases k2 - k,
{
    if k2 > k {
        lemma_entries_stuck(st, format, level, vaddr, ms, k, k2 - 1);
    }
}

/// A multiple of a multiple of `m` is a multiple of `m`.
proof fn lemma_mul_mod_zero(a: int, b: int, m: int)
    requires
        m > 0,
        b % m == 0,
    ensures
        (a * b) % m == 0,
{
    lemma_fundamental_div_mod(b, m);
    assert(a * b == m * (a * (b / m))) by (nonlinear_arith)
        requires
            b == m * (b / m),
    ;
    lemma_mod_multiples_basic(a * (b / m), m);
}

/// Generate one page table at the given level; level zero is the leaf level.
///
/// Returns the physical address of a freshly placed page of entries, or
/// `None` where every entry would be zero, in which case the whole subtree
/// maps nothing.
#[verifier::rlimit(100)]
pub fn page_table(
    format: PageTableFormat,
    pmem: &mut PhysMemory,
    level: u8,
    vaddr: u64,
    addr_space: &AddressSpace,
) -> (r: Result<Option<u64>, PageTableError>)
    requires
        fmt_wf(format),
        level < format.levels,
        addr_space.wf(),
        pt_aligned(addr_space.mappings@),
        old(pmem).wf(),
        vaddr % 4096 == 0,
        vaddr + table_span(format, level) <= u64::MAX,
    ensures
        final(pmem).wf(),
        old(pmem).memory@.is_prefix_of(final(pmem).memory@),
        match r {
            Ok(opt) => {
                &&& (opt is None ==> subtree_zero(
                    addr_space.mappings@,
                    vaddr as int,
                    table_span(format, level),
                ))
                &&& (opt is Some && level == 0 ==> leaf_page_placed(
                    format,
                    *old(pmem),
                    *final(pmem),
                    vaddr,
                    opt->0,
                    addr_space.mappings@,
                ))
            },
            Err(e) => e is MemoryAllocationFailed || e is PhysAddressNotMappable
                || e is IllegalPageTablePlacement,
        },
        (final(pmem).model(), r) == walk_spec(
            old(pmem).model(),
            format,
            level,
            vaddr,
            addr_space.mappings@,
        ),
    decreases level,
{
    let ghost st0 = pmem.model();
    let ghost ms = addr_space.mappings@;
    let ghost espan = entry_span(format, level);
    let bits = format.bits_per_level;
    let count: u64 = 1u64 << bits as u64;
    let shift: u64 = 12 + level as u64 * bits as u64;
    proof {
        assert(bits == 10 ==> count == 1024 && (level == 0 ==> shift == 12) && (level == 1
            ==> shift == 22)) by (bit_vector)
            requires
                count == 1u64 << bits as u64,
                shift == 12 + level as u64 * bits as u64,
                level < 4,
        ;
        assert(bits == 9 ==> count == 512 && (level == 0 ==> shift == 12) && (level == 1
            ==> shift == 21) && (level == 2 ==> shift == 30)) by (bit_vector)
            requires
                count == 1u64 << bits as u64,
                shift == 12 + level as u64 * bits as u64,
                level < 4,
        ;
        assert((1u64 << 12u64) == 0x1000 && (1u64 << 21u64) == 0x200000 && (1u64 << 22u64)
            == 0x400000 && (1u64 << 30u64) == 0x40000000) by (bit_vector);
        assert((1u64 << shift) == espan);
        assert(table_span(format, level) == count * espan);
        assert(espan % 4096 == 0);
    }
    let mut entries: Vec<u64> = Vec::new();
    let mut all_zero = true;
    let mut i: u64 = 0;
    while i < count
        invariant
            fmt_wf(format),
            level < format.levels,
            addr_space.wf(),
            ms == addr_space.mappings@,
            pt_aligned(ms),
            pmem.wf(),
            old(pmem).memory@.is_prefix_of(pmem.memory@),
            level == 0 ==> *pmem == *old(pmem),
            bits == format.bits_per_level,
            espan == entry_span(format, level),
            count == (if bits == 10 { 1024int } else { 512int }),
            shift == 12 + level * bits,
            (1u64 << shift) == espan,
            vaddr % 4096 == 0,
            vaddr + count * espan <= u64::MAX,
            espan % 4096 == 0,
            espan > 0,
            i <= count,
            st0 == old(pmem).model(),
            fmt_count(format) == count,
            entries@.len() == i,
            entries_spec(st0, format, level, vaddr, ms, i as int) == (pmem.model(), Ok::<
                Seq<u64>,
                PageTableError,
            >(entries@)),
            level == 0 ==> forall|j: int| 0 <= j < i ==> entries@[j] == pt_entry_spec(
                ms,
                (vaddr + j * espan) as u64,
            ),
            forall|j: int| 0 <= j < i ==> ((#[trigger] entries@[j]) == 0 ==> subtree_zero(
                ms,
                vaddr + j * espan,
                espan,
            )),
            all_zero ==> forall|j: int| 0 <= j < i ==> (#[trigger] entries@[j]) == 0,
            !all_zero ==> exists|j: int| 0 <= j < i && (#[trigger] entries@[j]) != 0,
        decreases count - i,
    {
        proof {
            assert((i + 1) * espan <= count * espan && i * espan + espan == (i + 1) * espan && 0
                <= i * espan) by (nonlinear_arith)
                requires
                    i + 1 <= count,
                    espan > 0,
                    0 <= i,
            ;
            lemma_mul_mod_zero(i as int, espan, 4096);
            vstd::arithmetic::div_mod::lemma_add_mod_noop(vaddr as int, i as int * espan, 4096);
        }
        let step = i << shift;
        proof {
            let ii = i;
            let sh = shift;
            assert(sh < 31 ==> (ii << sh) == ii * (1u64 << sh)) by (bit_vector)
                requires
                    ii < 1024,
            ;
        }
        let va = vaddr + step;
        proof {
            assert(step == i * espan);
            assert(va % 4096 == 0);
            assert(va & 0xFFF == 0 <==> va % 4096 == 0) by (bit_vector);
        }
        let e = if level == 0 {
            let e0 = pt_entry(va, addr_space);
            proof {
                if e0 == 0 {
                    assert forall|v2: int|
                        va <= v2 < va + espan && #[trigger] (v2 % 4096) == 0 implies pt_entry_spec(
                        ms,
                        v2 as u64,
                    ) == 0 by {
                        lemma_fundamental_div_mod(va as int, 4096);
                        lemma_fundamental_div_mod(v2, 4096);
                        assert(v2 == va) by (nonlinear_arith)
                            requires
                                va as int == 4096 * ((va as int) / 4096),
                                v2 == 4096 * (v2 / 4096),
                                va <= v2 < va + 4096,
                        ;
                    }
                }
            }
            e0
        } else {
            let child = match page_table(format, pmem, level - 1, va, addr_space) {
                Ok(c) => c,
                Err(e) => {
                    proof {
                        assert(entries_spec(st0, format, level, vaddr, ms, i + 1) == (
                            pmem.model(),
                            Err::<Seq<u64>, PageTableError>(e),
                        ));
                        lemma_entries_stuck(st0, format, level, vaddr, ms, i + 1, count as int);
                    }
                    return Err(e);
                },
            };
            proof {
                assert(entry_span(format, level) == table_span(format, (level - 1) as u8));
            }
            pt_next(child)
        };
        proof {
            assert(old(pmem).memory@.is_prefix_of(pmem.memory@));
        }
        if e != 0 {
            all_zero = false;
        }
        let ghost entries_pre = entries@;
        let ghost was_all_zero = all_zero;
        entries.push(e);
        proof {
            assert(entries_spec(st0, format, level, vaddr, ms, i + 1) == (pmem.model(), Ok::<
                Seq<u64>,
                PageTableError,
            >(entries_pre.push(e))));
            if e != 0 {
                assert(entries@[i as int] != 0);
            } else if !was_all_zero {
                let j = choose|j: int| 0 <= j < i && (#[trigger] entries_pre[j]) != 0;
                assert(entries@[j] != 0);
            }
        }
        i = i + 1;
    }
    if all_zero {
        proof {
            assert forall|q: int| 0 <= q < count implies #[trigger] subtree_zero(
                ms,
                vaddr + q * espan,
                espan,
            ) by {
                assert(entries@[q] == 0);
            }
            lemma_children_zero(ms, vaddr as int, espan, count as int);
            assert(walk_spec(st0, format, level, vaddr, ms) == (pmem.model(), Ok::<
                Option<u64>,
                PageTableError,
            >(None)));
        }
        return Ok(None);
    }
    let data: Vec<u8> = if bits == 10 {
        let mut cropped: Vec<u32> = Vec::new();
        let mut k: usize = 0;
        while k < entries.len()
            invariant
                k <= entries@.len(),
                cropped@.len() == k,
                cropped@ == entries@.take(k as int).map_values(|e: u64| e as u32),
                forall|j: int| 0 <= j < k ==> (#[trigger] entries@[j]) <= u32::MAX,
                bits == 10,
                st0 == old(pmem).model(),
                ms == addr_space.mappings@,
                fmt_count(format) == count,
                count == entries@.len(),
                format.bits_per_level == bits,
                !(forall|j: int| 0 <= j < entries@.len() ==> entries@[j] == 0),
                entries_spec(st0, format, level, vaddr, ms, count as int) == (pmem.model(), Ok::<
                    Seq<u64>,
                    PageTableError,
                >(entries@)),
                pmem.wf(),
                old(pmem).memory@.is_prefix_of(pmem.memory@),
                level == 0 ==> *pmem == *old(pmem),
            decreases entries@.len() - k,
        {
            let e64 = entries[k];
            if e64 > u32::MAX as u64 {
                proof {
                    lemma_first_big_at(entries@, k as int);
                    assert(walk_spec(st0, format, level, vaddr, ms) == (pmem.model(), Err::<
                        Option<u64>,
                        PageTableError,
                    >(PageTableError::PhysAddressNotMappable { pte: e64 })));
                }
                return Err(PageTableError::PhysAddressNotMappable { pte: e64 });
            }
            cropped.push(e64 as u32);
            proof {
                assert(cropped@ =~= entries@.take(k + 1).map_values(|e: u64| e as u32));
            }
            k = k + 1;
        }
        proof {
            assert(entries@.take(entries@.len() as int) =~= entries@);
            assert(cropped@ =~= entries@.map_values(|e: u64| e as u32));
            lemma_first_big_none(entries@);
        }
        vec_u32_to_bytes(cropped.as_slice())
    } else {
        vec_u64_to_bytes(entries.as_slice())
    };
    let ghost pre_place = *pmem;
    let ghost mem_pre = pmem.memory@;
    proof {
        assert(data@ == leaf_page_bytes(format, entries@));
    }
    let phys = match pmem.place(data.as_slice(), PlaceAs::Shareable) {
        Some(p) => p,
        None => {
            proof {
                assert(walk_spec(st0, format, level, vaddr, ms) == (pmem.model(), Err::<
                    Option<u64>,
                    PageTableError,
                >(PageTableError::MemoryAllocationFailed)));
            }
            return Err(PageTableError::MemoryAllocationFailed);
        },
    };
    if bits == 10 && phys > u32::MAX as u64 {
        proof {
            assert(walk_spec(st0, format, level, vaddr, ms) == (pmem.model(), Err::<
                Option<u64>,
                PageTableError,
            >(PageTableError::IllegalPageTablePlacement { paddr: phys })));
            assert(old(pmem).memory@.is_prefix_of(pmem.memory@)) by {
                if pmem.memory@ != mem_pre {
                    assert(pmem.memory@.take(old(pmem).memory@.len() as int) =~= mem_pre.take(
                        old(pmem).memory@.len() as int,
                    ));
                }
            }
        }
        return Err(PageTableError::IllegalPageTablePlacement { paddr: phys });
    }
    proof {
        assert(old(pmem).memory@.is_prefix_of(pmem.memory@)) by {
            if pmem.memory@ != mem_pre {
                assert(pmem.memory@.take(old(pmem).memory@.len() as int) =~= mem_pre.take(
                    old(pmem).memory@.len() as int,
                ));
            }
        }
        assert(walk_spec(st0, format, level, vaddr, ms) == (pmem.model(), Ok::<
            Option<u64>,
            PageTableError,
        >(Some(phys))));
        if level == 0 {
            assert(leaf_page_placed(format, *old(pmem), *pmem, vaddr, phys, ms)) by {
                assert(pre_place == *old(pmem));
                assert(entries@.len() == (if format.bits_per_level == 10 {
                    1024int
                } else {
                    512int
                }));
                assert(forall|j: int| 0 <= j < entries@.len() ==> entries@[j] == pt_entry_spec(
                    ms,
                    (vaddr + j * 4096) as u64,
                ));
                assert(leaf_page_bytes(format, entries@).len() == 4096);
                if crate::phys_mem::share_lookup(pre_place.shared(), data@) is Some {
                    assert(*pmem == *old(pmem));
                    crate::phys_mem::lemma_share_lookup_found(pre_place.shared(), data@);
                    let v = crate::phys_mem::share_lookup(pre_place.shared(), data@)->0;
                    assert(0 <= v <= u64::MAX);
                    assert(crate::phys_mem::share_lookup(old(pmem).shared(), data@) == Some(
                        phys as int,
                    ));
                } else {
                    assert(pmem.memory@ == old(pmem).memory@.push((
                        phys as int,
                        leaf_page_bytes(format, entries@),
                    )));
                }
            }
        }
    }
    Ok(Some(phys))
}

/// The table geometry a format selects.
pub open spec fn fmt_of(format: Format) -> PageTableFormat {
    match format {
        Format::RiscvSv32 => PageTableFormat { bits_per_level: 10, levels: 2 },
        Format::RiscvSv39 => PageTableFormat { bits_per_level: 9, levels: 3 },
    }
}

/// The error a walk failure surfaces as: exhausted backing storage is a
/// physical-memory failure, everything else an encoding failure.
pub open spec fn map_pt_err(e: PageTableError) -> Error {
    match e {
        PageTableError::MemoryAllocationFailed => Error::PhysicalExhausted,
        _ => Error::PageTableOverflow,
    }
}

/// The whole page-table walk of a format, from virtual address zero.
pub open spec fn generate_walk(st: PmState, format: Format, ms: Seq<Mapping>) -> (
    PmState,
    Result<Option<u64>, PageTableError>,
) {
    walk_spec(st, fmt_of(format), (fmt_of(format).levels - 1) as u8, 0, ms)
}

/// The supervisor address-translation register value for a root table.
pub open spec fn spec_satp(format: Format, root: u64) -> u64 {
    match format {
        Format::RiscvSv32 => (root >> 12) | (1u64 << 31),
        Format::RiscvSv39 => (root >> 12) | (8u64 << 60),
    }
}

/// The whole virtual span a format can map.
pub open spec fn format_span(format: Format) -> int {
    match format {
        Format::RiscvSv32 => 0x100000000,
        Format::RiscvSv39 => 0x8000000000,
    }
}

/// Generate the page tables for an address space and return the register
/// value that activates them. The address space must map at least one page.
pub fn generate(format: Format, addr_space: &AddressSpace, pmem: &mut PhysMemory) -> (r: Result<
    u64,
    Error,
>)
    requires
        addr_space.wf(),
        pt_aligned(addr_space.mappings@),
        old(pmem).wf(),
        exists|va: int|
            0 <= va < format_span(format) && #[trigger] (va % 4096) == 0 && pt_entry_spec(
                addr_space.mappings@,
                va as u64,
            ) != 0,
    ensures
        final(pmem).wf(),
        old(pmem).memory@.is_prefix_of(final(pmem).memory@),
        final(pmem).model() == generate_walk(old(pmem).model(), format, addr_space.mappings@).0,
        match r {
            Ok(satp) => {
                let w = generate_walk(old(pmem).model(), format, addr_space.mappings@).1;
                &&& w is Ok
                &&& w->Ok_0 is Some
                &&& satp == spec_satp(format, w->Ok_0->0)
            },
            Err(e) => {
                let w = generate_walk(old(pmem).model(), format, addr_space.mappings@).1;
                &&& w is Err
                &&& e == map_pt_err(w->Err_0)
            },
        },
{
    let fmt = match format {
        Format::RiscvSv32 => PageTableFormat { bits_per_level: 10, levels: 2 },
        Format::RiscvSv39 => PageTableFormat { bits_per_level: 9, levels: 3 },
    };
    proof {
        assert(fmt == fmt_of(format));
        assert(table_span(fmt, (fmt.levels - 1) as u8) == format_span(format));
    }
    let root = match page_table(fmt, pmem, fmt.levels - 1, 0, addr_space) {
        Ok(Some(p)) => p,
        Ok(None) => {
            proof {
                let va = choose|va: int|
                    0 <= va < format_span(format) && #[trigger] (va % 4096) == 0 && pt_entry_spec(
                        addr_space.mappings@,
                        va as u64,
                    ) != 0;
                assert(subtree_zero(addr_space.mappings@, 0, format_span(format)));
                assert(false);
            }
            return Err(Error::PageTableOverflow);
        },
        Err(PageTableError::MemoryAllocationFailed) => {
            return Err(Error::PhysicalExhausted);
        },
        Err(_) => {
            return Err(Error::PageTableOverflow);
        },
    };
    let satp = match format {
        Format::RiscvSv32 => (root >> 12) | (1u64 << 31),
        Format::RiscvSv39 => (root >> 12) | (8u64 << 60),
    };
    proof {
        assert(satp == spec_satp(format, root));
    }
    Ok(satp)
}

} // verus!
