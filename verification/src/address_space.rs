//! An architecture-neutral address space: an ordered list of virtual
//! mappings, page alignment, and fixation into physical memory.

use vstd::prelude::*;

use crate::constants::PAGE_SIZE;
use crate::elf::{ElfImage, Permissions, zero_vec, zeroes};
use crate::error::Error;
use crate::interval::Interval;
use crate::phys_mem::{PhysMemory, PlaceAs, PmState, bumps_disjoint, bumps_wf, chain_excludes,
    lemma_chain_result_bound, lemma_place_spec_sound, lemma_share_lookup_found, mem_byte,
    place_spec, share_lookup, shared_sound};
use vstd::slice::slice_to_vec;

verus! {

/// The content source of a mapping.
#[derive(Debug, Clone)]
pub enum Backing {
    /// Pre-initialized data whose physical location has not been chosen yet.
    InitializedData { data: Vec<u8> },
    /// A mapping to a definite physical memory region.
    Phys { size: u64, phys: u64 },
}

impl Backing {
    pub open spec fn spec_size(&self) -> int {
        match self {
            Backing::InitializedData { data } => data@.len() as int,
            Backing::Phys { size, .. } => *size as int,
        }
    }

    pub open spec fn is_initialized(&self) -> bool {
        self is InitializedData
    }

    pub open spec fn spec_data(&self) -> Seq<u8> {
        match self {
            Backing::InitializedData { data } => data@,
            Backing::Phys { .. } => Seq::empty(),
        }
    }

    pub open spec fn spec_phys(&self) -> u64 {
        match self {
            Backing::InitializedData { .. } => 0,
            Backing::Phys { phys, .. } => *phys,
        }
    }

    /// A duplicate with the same content.
    pub fn duplicate(&self) -> (r: Backing)
        ensures
            r.is_initialized() == self.is_initialized(),
            r.spec_size() == self.spec_size(),
            r.spec_data() == self.spec_data(),
            r.spec_phys() == self.spec_phys(),
    {
        match self {
            Backing::InitializedData { data } => Backing::InitializedData {
                data: slice_to_vec(data.as_slice()),
            },
            Backing::Phys { size, phys } => Backing::Phys { size: *size, phys: *phys },
        }
    }

    /// The length of the backing store in bytes.
    pub fn size(&self) -> (r: u64)
        ensures
            r == self.spec_size(),
    {
        match self {
            Backing::InitializedData { data } => data.len() as u64,
            Backing::Phys { size, .. } => *size,
        }
    }

    /// A new backing store extended at the end by `bytes` bytes. Initialized
    /// content is zero-padded; a physical region is widened to the right.
    pub fn extended(&self, bytes: u64) -> (r: Backing)
        requires
            self.spec_size() + bytes <= u64::MAX,
            self.is_initialized() ==> self.spec_size() + bytes <= usize::MAX,
        ensures
            r.is_initialized() == self.is_initialized(),
            r.spec_size() == self.spec_size() + bytes,
            r.is_initialized() ==> r.spec_data() == self.spec_data() + zeroes(bytes as int),
            r.spec_phys() == self.spec_phys(),
    {
        match self {
            Backing::InitializedData { data } => {
                let mut n: Vec<u8> = slice_to_vec(data.as_slice());
                let mut pad = zero_vec(bytes as usize);
                n.append(&mut pad);
                Backing::InitializedData { data: n }
            },
            Backing::Phys { size, phys } => Backing::Phys { size: *size + bytes, phys: *phys },
        }
    }

    /// A new backing store prepended by `bytes` bytes. Initialized content is
    /// zero-padded; a physical region is widened to the left.
    pub fn prepended(&self, bytes: u64) -> (r: Backing)
        requires
            self.spec_size() + bytes <= u64::MAX,
            self.is_initialized() ==> self.spec_size() + bytes <= usize::MAX,
            !self.is_initialized() ==> self.spec_phys() >= bytes,
        ensures
            r.is_initialized() == self.is_initialized(),
            r.spec_size() == self.spec_size() + bytes,
            r.is_initialized() ==> r.spec_data() == zeroes(bytes as int) + self.spec_data(),
            !self.is_initialized() ==> r.spec_phys() == self.spec_phys() - bytes,
    {
        match self {
            Backing::InitializedData { data } => {
                let mut n: Vec<u8> = zero_vec(bytes as usize);
                let mut tail = slice_to_vec(data.as_slice());
                n.append(&mut tail);
                Backing::InitializedData { data: n }
            },
            Backing::Phys { size, phys } => Backing::Phys {
                size: *size + bytes,
                phys: *phys - bytes,
            },
        }
    }
}

/// One virtual segment with its permissions and backing.
#[derive(Debug, Clone)]
pub struct Mapping {
    pub vaddr: u64,
    pub perm: Permissions,
    pub backing: Backing,
}

impl Mapping {
    /// The mapping's addresses are representable: its virtual range ends
    /// within the address space, and so does a placed physical range.
    pub open spec fn wf(&self) -> bool {
        &&& self.vaddr + self.backing.spec_size() <= u64::MAX
        &&& !self.backing.is_initialized() ==> self.backing.spec_phys()
            + self.backing.spec_size() <= u64::MAX
    }

    pub open spec fn spec_size(&self) -> int {
        self.backing.spec_size()
    }

    /// The virtual address interval covered by the mapping.
    pub open spec fn spec_virt_ivl(&self) -> Interval {
        Interval { from: self.vaddr, to: (self.vaddr + self.backing.spec_size()) as u64 }
    }

    pub fn duplicate(&self) -> (r: Mapping)
        ensures
            r.vaddr == self.vaddr,
            r.perm == self.perm,
            r.backing.is_initialized() == self.backing.is_initialized(),
            r.backing.spec_size() == self.backing.spec_size(),
            r.backing.spec_data() == self.backing.spec_data(),
            r.backing.spec_phys() == self.backing.spec_phys(),
    {
        Mapping { vaddr: self.vaddr, perm: self.perm, backing: self.backing.duplicate() }
    }

    pub fn size(&self) -> (r: u64)
        ensures
            r == self.spec_size(),
    {
        self.backing.size()
    }

    /// Return the virtual address interval covered by the mapping.
    pub fn virt_ivl(&self) -> (r: Interval)
        requires
            self.wf(),
        ensures
            r == self.spec_virt_ivl(),
    {
        Interval::new_with_size(self.vaddr, self.backing.size())
    }

    /// A page-aligned version of this mapping: it begins on the previous page
    /// boundary and its size is rounded up to whole pages; the original bytes
    /// keep their virtual addresses, and added space is zero for initialized
    /// backings.
    pub fn page_aligned(&self) -> (r: Mapping)
        requires
            self.wf(),
            self.vaddr + self.spec_size() + 2 * PAGE_SIZE <= u64::MAX,
            self.backing.is_initialized() ==> self.spec_size() + 2 * PAGE_SIZE <= usize::MAX,
            !self.backing.is_initialized() ==> self.backing.spec_phys() >= self.vaddr % PAGE_SIZE,
            !self.backing.is_initialized() ==> self.backing.spec_phys() + self.spec_size() + 2
                * PAGE_SIZE <= u64::MAX,
        ensures
            r.vaddr == self.vaddr - (self.vaddr % PAGE_SIZE),
            r.perm == self.perm,
            r.vaddr % PAGE_SIZE == 0,
            r.spec_size() % (PAGE_SIZE as int) == 0,
            r.spec_size() == self.spec_size() + (self.vaddr % PAGE_SIZE) + spec_page_pad(
                self.spec_size() + (self.vaddr % PAGE_SIZE),
            ),
            r.backing.is_initialized() == self.backing.is_initialized(),
            r.backing.is_initialized() ==> r.backing.spec_data() == zeroes(
                (self.vaddr % PAGE_SIZE) as int,
            ) + self.backing.spec_data() + zeroes(
                spec_page_pad(self.spec_size() + (self.vaddr % PAGE_SIZE)),
            ),
            !r.backing.is_initialized() ==> r.backing.spec_phys() == self.backing.spec_phys() - (
            self.vaddr % PAGE_SIZE),
            r.wf(),
    {
        // The number of bytes the start of the mapping is past a page boundary.
        let offset = self.vaddr % PAGE_SIZE;

        // The number of bytes missing at the end for the mapping to end on a
        // page boundary.
        let pad_bytes = (PAGE_SIZE - ((self.backing.size() + offset) % PAGE_SIZE)) % PAGE_SIZE;

        let r = Mapping {
            vaddr: self.vaddr - offset,
            perm: self.perm,
            backing: self.backing.prepended(offset).extended(pad_bytes),
        };
        proof {
            let p = PAGE_SIZE as int;
            let v = self.vaddr as int;
            let so = self.spec_size() + offset;
            let q = so / p;
            vstd::arithmetic::div_mod::lemma_fundamental_div_mod(v, p);
            vstd::arithmetic::div_mod::lemma_mod_multiples_basic(v / p, p);
            vstd::arithmetic::div_mod::lemma_fundamental_div_mod(so, p);
            if so % p == 0 {
                vstd::arithmetic::div_mod::lemma_mod_self_0(p);
                assert(r.spec_size() == p * q);
                vstd::arithmetic::div_mod::lemma_mod_multiples_basic(q, p);
            } else {
                assert(r.spec_size() == p * q + p);
                assert(p * q + p == p * (q + 1)) by (nonlinear_arith);
                vstd::arithmetic::div_mod::lemma_mod_multiples_basic(q + 1, p);
            }
        }
        r
    }
}

/// The bytes missing after `n` for it to reach the next page boundary.
pub open spec fn spec_page_pad(n: int) -> int {
    (PAGE_SIZE - (n % (PAGE_SIZE as int))) % (PAGE_SIZE as int)
}

/// An architecture-neutral address space description.
#[derive(Debug)]
pub struct AddressSpace {
    pub mappings: Vec<Mapping>,
}

/// The physical address and permissions visible at `vaddr`: the first mapping
/// whose virtual interval contains `vaddr` decides, and yields an address
/// only once its backing is placed.
pub open spec fn lookup_spec(ms: Seq<Mapping>, vaddr: u64) -> Option<(u64, Permissions)>
    decreases ms.len(),
{
    if ms.len() == 0 {
        None
    } else if ms.first().spec_virt_ivl().spec_contains(vaddr) {
        if ms.first().backing.is_initialized() {
            None
        } else {
            Some(
                (
                    (ms.first().backing.spec_phys() + (vaddr - ms.first().vaddr)) as u64,
                    ms.first().perm,
                ),
            )
        }
    } else {
        lookup_spec(ms.drop_first(), vaddr)
    }
}

/// All mappings are well-formed.
pub open spec fn mappings_wf(ms: Seq<Mapping>) -> bool {
    forall|i: int| 0 <= i < ms.len() ==> (#[trigger] ms[i]).wf()
}

impl AddressSpace {
    pub open spec fn wf(&self) -> bool {
        mappings_wf(self.mappings@)
    }

    /// An address space without mappings.
    pub fn new() -> (r: AddressSpace)
        ensures
            r.mappings@.len() == 0,
            r.wf(),
    {
        AddressSpace { mappings: Vec::new() }
    }

    /// All mappings of the address space, in insertion order.
    pub fn iter(&self) -> (r: &Vec<Mapping>)
        ensures
            r@ == self.mappings@,
    {
        &self.mappings
    }

    /// Look up the physical address and the permissions at `vaddr`.
    pub fn lookup(&self, vaddr: u64) -> (r: Option<(u64, Permissions)>)
        requires
            self.wf(),
        ensures
            r == lookup_spec(self.mappings@, vaddr),
    {
        let ghost ms = self.mappings@;
        let n = self.mappings.len();
        let mut i: usize = 0;
        proof {
            assert(ms.skip(0) =~= ms);
        }
        while i < n
            invariant
                n == ms.len(),
                ms == self.mappings@,
                self.wf(),
                i <= n,
                lookup_spec(ms, vaddr) == lookup_spec(ms.skip(i as int), vaddr),
            decreases n - i,
        {
            proof {
                assert(ms.skip(i as int).first() == ms[i as int]);
                assert(ms.skip(i as int).drop_first() =~= ms.skip(i + 1));
            }
            let m = &self.mappings[i];
            if m.virt_ivl().contains(vaddr) {
                match &m.backing {
                    Backing::Phys { phys, .. } => {
                        return Some((*phys + (vaddr - m.vaddr), m.perm));
                    },
                    Backing::InitializedData { .. } => {
                        return None;
                    },
                }
            }
            i = i + 1;
        }
        proof {
            assert(ms.skip(n as int) =~= Seq::<Mapping>::empty());
        }
        None
    }

    /// Return true if a mapping intersects the given virtual address range.
    pub fn has_mappings_in_range(&self, vaddr_range: Interval) -> (r: bool)
        requires
            self.wf(),
        ensures
            r == exists|i: int|
                0 <= i < self.mappings@.len() && (#[trigger] self.mappings@[i]).spec_virt_ivl().spec_intersects(
                    vaddr_range,
                ),
    {
        let n = self.mappings.len();
        let mut i: usize = 0;
        while i < n
            invariant
                n == self.mappings@.len(),
                self.wf(),
                i <= n,
                forall|j: int|
                    0 <= j < i ==> !(#[trigger] self.mappings@[j]).spec_virt_ivl().spec_intersects(
                        vaddr_range,
                    ),
            decreases n - i,
        {
            if self.mappings[i].virt_ivl().intersects(vaddr_range) {
                return true;
            }
            i = i + 1;
        }
        false
    }

    /// Look up the physical address visible at `vaddr`, without permissions.
    pub fn lookup_phys(&self, vaddr: u64) -> (r: Option<u64>)
        requires
            self.wf(),
        ensures
            r == match lookup_spec(self.mappings@, vaddr) {
                Some(p) => Some(p.0),
                None => None::<u64>,
            },
    {
        match self.lookup(vaddr) {
            Some(p) => Some(p.0),
            None => None,
        }
    }

    /// Merge another address space into this one: its mappings are appended
    /// after the existing ones.
    pub fn merge_from(&mut self, o: &AddressSpace)
        requires
            old(self).wf(),
            o.wf(),
        ensures
            final(self).wf(),
            final(self).mappings@.len() == old(self).mappings@.len() + o.mappings@.len(),
            forall|i: int| 0 <= i < old(self).mappings@.len() ==> final(self).mappings@[i]
                == old(self).mappings@[i],
            forall|i: int|
                0 <= i < o.mappings@.len() ==> mapping_like(
                    #[trigger] final(self).mappings@[old(self).mappings@.len() + i],
                    o.mappings@[i],
                ),
    {
        let n = o.mappings.len();
        let mut i: usize = 0;
        while i < n
            invariant
                n == o.mappings@.len(),
                o.wf(),
                old(self).wf(),
                i <= n,
                mappings_wf(self.mappings@),
                self.mappings@.len() == old(self).mappings@.len() + i,
                forall|j: int| 0 <= j < old(self).mappings@.len() ==> self.mappings@[j] == old(
                    self,
                ).mappings@[j],
                forall|j: int|
                    0 <= j < i ==> mapping_like(
                        #[trigger] self.mappings@[old(self).mappings@.len() + j],
                        o.mappings@[j],
                    ),
            decreases n - i,
        {
            let d = o.mappings[i].duplicate();
            proof {
                assert(o.mappings@[i as int].wf());
                assert(d.wf());
            }
            self.mappings.push(d);
            i = i + 1;
        }
    }

    /// Mark all mappings available to user code.
    pub fn make_user(&mut self)
        requires
            old(self).wf(),
        ensures
            final(self).wf(),
            final(self).mappings@.len() == old(self).mappings@.len(),
            forall|i: int|
                0 <= i < old(self).mappings@.len() ==> {
                    let m = old(self).mappings@[i];
                    (#[trigger] final(self).mappings@[i]) == (Mapping {
                        perm: Permissions { user: true, ..m.perm },
                        ..m
                    })
                },
    {
        let n = self.mappings.len();
        let mut i: usize = 0;
        while i < n
            invariant
                n == old(self).mappings@.len(),
                self.mappings@.len() == n,
                old(self).wf(),
                i <= n,
                forall|j: int| i <= j < n ==> self.mappings@[j] == old(self).mappings@[j],
                forall|j: int|
                    0 <= j < i ==> {
                        let m = old(self).mappings@[j];
                        (#[trigger] self.mappings@[j]) == (Mapping {
                            perm: Permissions { user: true, ..m.perm },
                            ..m
                        })
                    },
            decreases n - i,
        {
            let mut m = self.mappings.remove(i);
            m.perm.user = true;
            self.mappings.insert(i, m);
            proof {
                assert forall|j: int| i < j < n implies self.mappings@[j] == old(
                    self,
                ).mappings@[j] by {}
            }
            i = i + 1;
        }
        proof {
            assert forall|j: int| 0 <= j < n implies (#[trigger] self.mappings@[j]).wf() by {
                let m = old(self).mappings@[j];
                assert(m.wf());
                assert(self.mappings@[j] == (Mapping {
                    perm: Permissions { user: true, ..m.perm },
                    ..m
                }));
                assert(self.mappings@[j].backing == m.backing);
                assert(self.mappings@[j].vaddr == m.vaddr);
            }
        }
    }

    /// Append one mapping.
    pub fn add(&mut self, mapping: Mapping)
        requires
            old(self).wf(),
            mapping.wf(),
        ensures
            final(self).wf(),
            final(self).mappings@ == old(self).mappings@.push(mapping),
    {
        self.mappings.push(mapping)
    }

    /// Extend the address space with all given mappings, in order.
    pub fn extend(&mut self, mappings: Vec<Mapping>)
        requires
            old(self).wf(),
            mappings_wf(mappings@),
        ensures
            final(self).wf(),
            final(self).mappings@ == old(self).mappings@ + mappings@,
    {
        let ghost add = mappings@;
        let mut rest = mappings;
        while rest.len() > 0
            invariant
                mappings_wf(self.mappings@),
                mappings_wf(rest@),
                self.mappings@ + rest@ == old(self).mappings@ + add,
            decreases rest@.len(),
        {
            let m = rest.remove(0);
            self.mappings.push(m);
            proof {
                assert(self.mappings@ + rest@ =~= old(self).mappings@ + add);
            }
        }
        proof {
            assert(self.mappings@ =~= self.mappings@ + rest@);
        }
    }
}

impl AddressSpace {
    /// Create an address space from an ELF binary: every segment becomes a
    /// page-aligned mapping holding the segment's bytes. Physical addresses
    /// recorded in the ELF are ignored.
    pub fn from_elf(elf: &ElfImage) -> (r: AddressSpace)
        requires
            elf.wf(),
        ensures
            r.wf(),
            r.mappings@.len() == elf.segments@.len(),
            forall|i: int|
                0 <= i < elf.segments@.len() ==> {
                    let s = elf.segments@[i];
                    let off = s.vaddr % PAGE_SIZE;
                    let m = #[trigger] r.mappings@[i];
                    &&& m.vaddr == s.vaddr - off
                    &&& m.vaddr % PAGE_SIZE == 0
                    &&& m.perm == s.permissions
                    &&& m.backing.is_initialized()
                    &&& m.spec_size() % (PAGE_SIZE as int) == 0
                    &&& m.backing.spec_data() == zeroes(off as int) + s.data@ + zeroes(
                        spec_page_pad(s.data@.len() + off),
                    )
                },
    {
        let mut out = AddressSpace::new();
        let n = elf.segments.len();
        let mut i: usize = 0;
        while i < n
            invariant
                elf.wf(),
                n == elf.segments@.len(),
                i <= n,
                out.wf(),
                out.mappings@.len() == i,
                forall|j: int|
                    0 <= j < i ==> {
                        let s = elf.segments@[j];
                        let off = s.vaddr % PAGE_SIZE;
                        let m = #[trigger] out.mappings@[j];
                        &&& m.vaddr == s.vaddr - off
                        &&& m.vaddr % PAGE_SIZE == 0
                        &&& m.perm == s.permissions
                        &&& m.backing.is_initialized()
                        &&& m.spec_size() % (PAGE_SIZE as int) == 0
                        &&& m.backing.spec_data() == zeroes(off as int) + s.data@ + zeroes(
                            spec_page_pad(s.data@.len() + off),
                        )
                    },
            decreases n - i,
        {
            let s = &elf.segments[i];
            proof {
                assert(elf.segments@[i as int].wf());
            }
            let m = Mapping {
                vaddr: s.vaddr,
                perm: s.permissions,
                backing: Backing::InitializedData { data: slice_to_vec(s.data.as_slice()) },
            };
            let aligned = m.page_aligned();
            out.add(aligned);
            i = i + 1;
        }
        out
    }

    /// The placement mode fixation uses for a mapping: writable data must
    /// not be deduplicated; read-only data may share one physical copy.
    pub open spec fn place_mode(m: Mapping) -> PlaceAs {
        if m.perm.write {
            PlaceAs::Unique
        } else {
            PlaceAs::Shareable
        }
    }

    /// Fixating the first `k` mappings, as a function: the physical-memory
    /// state after the placements and, on success, the physical address each
    /// mapping ends up at. The first failed placement stops the fold with
    /// the state it left behind.
    pub open spec fn fixate_prefix(st0: PmState, ms: Seq<Mapping>, k: int) -> (
        PmState,
        Option<Seq<u64>>,
    )
        decreases k,
    {
        if k <= 0 {
            (st0, Some(Seq::empty()))
        } else {
            let (st, r) = AddressSpace::fixate_prefix(st0, ms, k - 1);
            match r {
                None => (st, None),
                Some(addrs) => {
                    let m = ms[k - 1];
                    if m.backing.is_initialized() {
                        let (st2, pr) = place_spec(
                            st,
                            m.backing.spec_data(),
                            AddressSpace::place_mode(m),
                        );
                        match pr {
                            None => (st2, None),
                            Some(a) => (st2, Some(addrs.push(a))),
                        }
                    } else {
                        (st, Some(addrs.push(m.backing.spec_phys())))
                    }
                },
            }
        }
    }

    /// Fixate all initialized memory by writing it into the provided physical
    /// memory: every initialized backing is replaced by a placed one.
    /// Writable mappings are placed uniquely; read-only ones may share their
    /// bytes with an earlier placement. On failure the address space is left
    /// untouched and the build is abandoned.
    ///
    /// The whole effect is `fixate_prefix`, one placement per mapping in
    /// order; `lemma_fixate_reads_back` shows that under disjoint free
    /// regions every placed mapping's bytes then read back at its address.
    pub fn fixate(&mut self, pmem: &mut PhysMemory) -> (r: Result<(), Error>)
        requires
            old(self).wf(),
            old(pmem).wf(),
        ensures
            final(self).wf(),
            final(pmem).wf(),
            old(pmem).memory@.is_prefix_of(final(pmem).memory@),
            match r {
                Ok(()) => {
                    &&& final(self).mappings@.len() == old(self).mappings@.len()
                    &&& forall|i: int|
                        0 <= i < old(self).mappings@.len() ==> {
                            let m0 = old(self).mappings@[i];
                            let m1 = #[trigger] final(self).mappings@[i];
                            &&& m1.vaddr == m0.vaddr
                            &&& m1.perm == m0.perm
                            &&& !m1.backing.is_initialized()
                            &&& m1.backing.spec_size() == m0.backing.spec_size()
                            &&& (!m0.backing.is_initialized() ==> m1.backing == m0.backing)
                        }
                },
                Err(e) => {
                    &&& e == Error::PhysicalExhausted
                    &&& final(self).mappings@ == old(self).mappings@
                },
            },
            final(pmem).model() == AddressSpace::fixate_prefix(
                old(pmem).model(),
                old(self).mappings@,
                old(self).mappings@.len() as int,
            ).0,
            r is Ok <==> AddressSpace::fixate_prefix(
                old(pmem).model(),
                old(self).mappings@,
                old(self).mappings@.len() as int,
            ).1 is Some,
            r is Ok ==> forall|i: int|
                0 <= i < old(self).mappings@.len()
                    ==> (#[trigger] final(self).mappings@[i]).backing.spec_phys()
                    == AddressSpace::fixate_prefix(
                    old(pmem).model(),
                    old(self).mappings@,
                    old(self).mappings@.len() as int,
                ).1->0[i],
    {
        let ghost st0 = pmem.model();
        let ghost ms = self.mappings@;
        let n = self.mappings.len();
        let mut fixed: Vec<Mapping> = Vec::new();
        let mut i: usize = 0;
        while i < n
            invariant
                self.mappings@ == old(self).mappings@,
                self.wf(),
                pmem.wf(),
                old(pmem).memory@.is_prefix_of(pmem.memory@),
                n == self.mappings@.len(),
                st0 == old(pmem).model(),
                ms == old(self).mappings@,
                i <= n,
                fixed@.len() == i,
                AddressSpace::fixate_prefix(st0, ms, i as int).0 == pmem.model(),
                AddressSpace::fixate_prefix(st0, ms, i as int).1 == Some(
                    Seq::new(i as nat, |j: int| fixed@[j].backing.spec_phys()),
                ),
                mappings_wf(fixed@),
                forall|j: int|
                    0 <= j < i ==> {
                        let m0 = old(self).mappings@[j];
                        let m1 = #[trigger] fixed@[j];
                        &&& m1.vaddr == m0.vaddr
                        &&& m1.perm == m0.perm
                        &&& !m1.backing.is_initialized()
                        &&& m1.backing.spec_size() == m0.backing.spec_size()
                        &&& (!m0.backing.is_initialized() ==> m1.backing == m0.backing)
                    },
            decreases n - i,
        {
            let ghost pmem_pre = pmem.memory@;
            let m = &self.mappings[i];
            proof {
                assert(self.mappings@[i as int].wf());
            }
            let nm = match &m.backing {
                Backing::InitializedData { data } => {
                    let dlen = data.len();
                    let ghost free_pre = pmem.free_memory.backends@;
                    let ghost shared_pre = pmem.shared();
                    let placed = pmem.place(
                        data.as_slice(),
                        if m.perm.write {
                            PlaceAs::Unique
                        } else {
                            PlaceAs::Shareable
                        },
                    );
                    match placed {
                        Some(phys) => {
                            proof {
                                if share_lookup(shared_pre, data@) is Some && !m.perm.write {
                                    lemma_share_lookup_found(shared_pre, data@);
                                } else {
                                    lemma_chain_result_bound(free_pre, dlen as u64);
                                }
                            }
                            Mapping {
                                vaddr: m.vaddr,
                                perm: m.perm,
                                backing: Backing::Phys { size: dlen as u64, phys },
                            }
                        },
                        None => {
                            proof {
                                assert(AddressSpace::fixate_prefix(st0, ms, i + 1).1 is None);
                                lemma_fixate_prefix_stuck(st0, ms, i + 1, n as int);
                            }
                            return Err(Error::PhysicalExhausted);
                        },
                    }
                },
                Backing::Phys { size, phys } => Mapping {
                    vaddr: m.vaddr,
                    perm: m.perm,
                    backing: Backing::Phys { size: *size, phys: *phys },
                },
            };
            proof {
                assert(old(pmem).memory@.is_prefix_of(pmem.memory@)) by {
                    assert(pmem.memory@.take(old(pmem).memory@.len() as int) =~= pmem_pre.take(
                        old(pmem).memory@.len() as int,
                    ));
                }
            }
            let ghost fixed_pre = fixed@;
            fixed.push(nm);
            proof {
                assert(AddressSpace::fixate_prefix(st0, ms, i + 1).0 == pmem.model());
                assert(Seq::new(i as nat, |j: int| fixed_pre[j].backing.spec_phys()) =~= Seq::new(
                    i as nat,
                    |j: int| fixed@[j].backing.spec_phys(),
                ));
                assert(Seq::new((i + 1) as nat, |j: int| fixed@[j].backing.spec_phys()) =~= Seq::new(
                    i as nat,
                    |j: int| fixed@[j].backing.spec_phys(),
                ).push(fixed@[i as int].backing.spec_phys()));
                assert(AddressSpace::fixate_prefix(st0, ms, i + 1).1 == Some(
                    Seq::new((i + 1) as nat, |j: int| fixed@[j].backing.spec_phys()),
                ));
            }
            i = i + 1;
        }
        self.mappings = fixed;
        Ok(())
    }

    /// A fixated copy of this address space; the address space itself stays
    /// unchanged.
    pub fn fixated(&self, pmem: &mut PhysMemory) -> (r: Result<AddressSpace, Error>)
        requires
            self.wf(),
            old(pmem).wf(),
        ensures
            final(pmem).wf(),
            old(pmem).memory@.is_prefix_of(final(pmem).memory@),
            match r {
                Ok(a) => {
                    &&& a.wf()
                    &&& a.mappings@.len() == self.mappings@.len()
                    &&& forall|i: int|
                        0 <= i < self.mappings@.len() ==> {
                            let m0 = self.mappings@[i];
                            let m1 = #[trigger] a.mappings@[i];
                            &&& m1.vaddr == m0.vaddr
                            &&& m1.perm == m0.perm
                            &&& !m1.backing.is_initialized()
                            &&& m1.backing.spec_size() == m0.backing.spec_size()
                        }
                },
                Err(e) => e == Error::PhysicalExhausted,
            },
            final(pmem).model() == AddressSpace::fixate_prefix(
                old(pmem).model(),
                self.mappings@,
                self.mappings@.len() as int,
            ).0,
            r is Ok <==> AddressSpace::fixate_prefix(
                old(pmem).model(),
                self.mappings@,
                self.mappings@.len() as int,
            ).1 is Some,
            r is Ok ==> forall|i: int|
                0 <= i < self.mappings@.len()
                    ==> (#[trigger] (r->Ok_0).mappings@[i]).backing.spec_phys()
                    == AddressSpace::fixate_prefix(
                    old(pmem).model(),
                    self.mappings@,
                    self.mappings@.len() as int,
                ).1->0[i],
    {
        let mut copy = AddressSpace::new();
        copy.merge_from(self);
        let ghost pre = copy.mappings@;
        proof {
            assert forall|i: int| 0 <= i < self.mappings@.len() implies mapping_like(
                #[trigger] pre[i],
                self.mappings@[i],
            ) by {
                assert(mapping_like(pre[0 + i], self.mappings@[i]));
            }
            lemma_fixate_prefix_like(
                old(pmem).model(),
                pre,
                self.mappings@,
                self.mappings@.len() as int,
            );
        }
        match copy.fixate(pmem) {
            Ok(()) => {
                proof {
                    assert forall|i: int| 0 <= i < self.mappings@.len() implies {
                        let m0 = self.mappings@[i];
                        let m1 = #[trigger] copy.mappings@[i];
                        &&& m1.vaddr == m0.vaddr
                        &&& m1.perm == m0.perm
                        &&& !m1.backing.is_initialized()
                        &&& m1.backing.spec_size() == m0.backing.spec_size()
                    } by {
                        assert(mapping_like(pre[0 + i], self.mappings@[i]));
                        assert(mapping_like(pre[i], self.mappings@[i]));
                    }
                }
                Ok(copy)
            },
            Err(e) => Err(e),
        }
    }
}

/// A successful fixation assigns one address per mapping.
proof fn lemma_fixate_prefix_len(st0: PmState, ms: Seq<Mapping>, k: int)
    requires
        0 <= k,
        AddressSpace::fixate_prefix(st0, ms, k).1 is Some,
    ensures
        AddressSpace::fixate_prefix(st0, ms, k).1->0.len() == k,
    decreases k,
{
    if k > 0 {
        assert(AddressSpace::fixate_prefix(st0, ms, k - 1).1 is Some) by {
            if AddressSpace::fixate_prefix(st0, ms, k - 1).1 is None {
                lemma_fixate_prefix_stuck(st0, ms, k - 1, k);
            }
        }
        lemma_fixate_prefix_len(st0, ms, k - 1);
    }
}

/// Fixation reads back. Where the free regions are pairwise disjoint and
/// every pre-existing dedup record is sound, a successful fixation leaves
/// each initialized mapping's bytes readable at the address it was assigned,
/// and keeps every record sound. This is the placement discipline behind
/// sharing read-only data: a deduplicated mapping reads the one recorded
/// copy; a unique placement reads its own.
pub proof fn lemma_fixate_reads_back(st0: PmState, ms: Seq<Mapping>, k: int)
    requires
        bumps_wf(st0.free),
        bumps_disjoint(st0.free),
        shared_sound(st0),
        mappings_wf(ms),
        0 <= k <= ms.len(),
        AddressSpace::fixate_prefix(st0, ms, k).1 is Some,
    ensures
        bumps_wf(AddressSpace::fixate_prefix(st0, ms, k).0.free),
        bumps_disjoint(AddressSpace::fixate_prefix(st0, ms, k).0.free),
        shared_sound(AddressSpace::fixate_prefix(st0, ms, k).0),
        forall|i: int|
            0 <= i < k && (#[trigger] ms[i]).backing.is_initialized() ==> chain_excludes(
                AddressSpace::fixate_prefix(st0, ms, k).0.free,
                AddressSpace::fixate_prefix(st0, ms, k).1->0[i] as int,
                AddressSpace::fixate_prefix(st0, ms, k).1->0[i]
                    + ms[i].backing.spec_data().len(),
            ),
        forall|i: int, off: int|
            #![trigger ms[i].backing.spec_data()[off]]
            0 <= i < k && ms[i].backing.is_initialized() && 0 <= off
                < ms[i].backing.spec_data().len() ==> mem_byte(
                AddressSpace::fixate_prefix(st0, ms, k).0.mem,
                AddressSpace::fixate_prefix(st0, ms, k).1->0[i] + off,
            ) == ms[i].backing.spec_data()[off],
    decreases k,
{
    if k > 0 {
        assert(AddressSpace::fixate_prefix(st0, ms, k - 1).1 is Some) by {
            if AddressSpace::fixate_prefix(st0, ms, k - 1).1 is None {
                lemma_fixate_prefix_stuck(st0, ms, k - 1, k);
            }
        }
        lemma_fixate_reads_back(st0, ms, k - 1);
        lemma_fixate_prefix_len(st0, ms, k - 1);
        let (st, ar) = AddressSpace::fixate_prefix(st0, ms, k - 1);
        let addrs = ar->0;
        let m = ms[k - 1];
        if m.backing.is_initialized() {
            let data = m.backing.spec_data();
            let mode = AddressSpace::place_mode(m);
            assert(data.len() <= u64::MAX) by {
                assert(ms[k - 1].wf());
            }
            lemma_place_spec_sound(st, data, mode);
            let (st2, pr) = place_spec(st, data, mode);
            let a = pr->0;
            assert(AddressSpace::fixate_prefix(st0, ms, k).0 == st2);
            assert(AddressSpace::fixate_prefix(st0, ms, k).1 == Some(addrs.push(a)));
            assert forall|i: int|
                0 <= i < k && (#[trigger] ms[i]).backing.is_initialized() implies chain_excludes(
                st2.free,
                AddressSpace::fixate_prefix(st0, ms, k).1->0[i] as int,
                AddressSpace::fixate_prefix(st0, ms, k).1->0[i]
                    + ms[i].backing.spec_data().len(),
            ) by {
                if i < k - 1 {
                    assert(AddressSpace::fixate_prefix(st0, ms, k).1->0[i] == addrs[i]);
                    assert(chain_excludes(
                        st.free,
                        addrs[i] as int,
                        addrs[i] + ms[i].backing.spec_data().len(),
                    ));
                } else {
                    assert(AddressSpace::fixate_prefix(st0, ms, k).1->0[i] == a);
                }
            }
            assert forall|i: int, off: int|
                #![trigger ms[i].backing.spec_data()[off]]
                0 <= i < k && ms[i].backing.is_initialized() && 0 <= off
                    < ms[i].backing.spec_data().len() implies mem_byte(
                st2.mem,
                AddressSpace::fixate_prefix(st0, ms, k).1->0[i] + off,
            ) == ms[i].backing.spec_data()[off] by {
                if i < k - 1 {
                    assert(AddressSpace::fixate_prefix(st0, ms, k).1->0[i] == addrs[i]);
                    assert(chain_excludes(
                        st.free,
                        addrs[i] as int,
                        addrs[i] + ms[i].backing.spec_data().len(),
                    ));
                    assert(mem_byte(st.mem, addrs[i] + off)
                        == ms[i].backing.spec_data()[off]);
                } else {
                    assert(AddressSpace::fixate_prefix(st0, ms, k).1->0[i] == a);
                }
            }
        } else {
            assert(AddressSpace::fixate_prefix(st0, ms, k) == (
                st,
                Some(addrs.push(m.backing.spec_phys())),
            ));
            assert forall|i: int|
                0 <= i < k && (#[trigger] ms[i]).backing.is_initialized() implies chain_excludes(
                AddressSpace::fixate_prefix(st0, ms, k).0.free,
                AddressSpace::fixate_prefix(st0, ms, k).1->0[i] as int,
                AddressSpace::fixate_prefix(st0, ms, k).1->0[i]
                    + ms[i].backing.spec_data().len(),
            ) by {
                if i < k - 1 {
                    assert(AddressSpace::fixate_prefix(st0, ms, k).1->0[i] == addrs[i]);
                }
            }
            assert forall|i: int, off: int|
                #![trigger ms[i].backing.spec_data()[off]]
                0 <= i < k && ms[i].backing.is_initialized() && 0 <= off
                    < ms[i].backing.spec_data().len() implies mem_byte(
                AddressSpace::fixate_prefix(st0, ms, k).0.mem,
                AddressSpace::fixate_prefix(st0, ms, k).1->0[i] + off,
            ) == ms[i].backing.spec_data()[off] by {
                if i < k - 1 {
                    assert(AddressSpace::fixate_prefix(st0, ms, k).1->0[i] == addrs[i]);
                }
            }
        }
    }
}

/// A failed fixation stays failed: past the first failure the fold is
/// constant.
proof fn lemma_fixate_prefix_stuck(st0: PmState, ms: Seq<Mapping>, k: int, k2: int)
    requires
        0 <= k <= k2,
        AddressSpace::fixate_prefix(st0, ms, k).1 is None,
    ensures
        AddressSpace::fixate_prefix(st0, ms, k2) == AddressSpace::fixate_prefix(st0, ms, k),
    decreases k2 - k,
{
    if k2 > k {
        lemma_fixate_prefix_stuck(st0, ms, k, k2 - 1);
    }
}

/// Fixation only reads what `mapping_like` preserves, so alike mapping lists
/// fixate identically.
proof fn lemma_fixate_prefix_like(st0: PmState, ms1: Seq<Mapping>, ms2: Seq<Mapping>, k: int)
    requires
        ms1.len() == ms2.len(),
        forall|i: int| 0 <= i < ms1.len() ==> mapping_like(#[trigger] ms1[i], ms2[i]),
        0 <= k <= ms1.len(),
    ensures
        AddressSpace::fixate_prefix(st0, ms1, k) == AddressSpace::fixate_prefix(st0, ms2, k),
    decreases k,
{
    if k > 0 {
        lemma_fixate_prefix_like(st0, ms1, ms2, k - 1);
        assert(mapping_like(ms1[k - 1], ms2[k - 1]));
        assert(AddressSpace::place_mode(ms1[k - 1]) == AddressSpace::place_mode(ms2[k - 1]));
    }
}

/// Two mappings with the same address, permissions and content.
pub open spec fn mapping_like(a: Mapping, b: Mapping) -> bool {
    &&& a.vaddr == b.vaddr
    &&& a.perm == b.perm
    &&& a.backing.is_initialized() == b.backing.is_initialized()
    &&& a.backing.spec_size() == b.backing.spec_size()
    &&& a.backing.spec_data() == b.backing.spec_data()
    &&& a.backing.spec_phys() == b.backing.spec_phys()
}

} // verus!
