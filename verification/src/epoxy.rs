//! The main application logic: resolving a system description into a
//! configured system, ready for code generation and image building.

use vstd::prelude::*;
use vstd::string::StringExecFns;

use crate::bump_ptr_alloc::{BumpPointerAlloc, SimpleAlloc, spec_is_power_of_two};
use crate::cfgtypes;
use crate::constants::{KERN_RESOURCE_END, KERN_RESOURCE_START, PAGE_SIZE, USER_RESOURCE_END,
    USER_RESOURCE_START, USER_STACK_SIZE};
use crate::elf::str_eq;
use crate::error::Error;
use crate::runtypes;

verus! {

/// Whether one character sequence orders at or before another, by code
/// points. For the names this builder sorts, this is the order Rust's string
/// comparison uses.
pub open spec fn chars_le(a: Seq<char>, b: Seq<char>) -> bool
    decreases a.len(),
{
    if a.len() == 0 {
        true
    } else if b.len() == 0 {
        false
    } else if (a[0] as u32) != (b[0] as u32) {
        (a[0] as u32) < (b[0] as u32)
    } else {
        chars_le(a.drop_first(), b.drop_first())
    }
}

/// Compare two strings by code points.
pub fn str_le(a: &str, b: &str) -> (r: bool)
    ensures
        r == chars_le(a@, b@),
{
    let alen = a.unicode_len();
    let blen = b.unicode_len();
    let mut i: usize = 0;
    proof {
        assert(a@.skip(0) =~= a@);
        assert(b@.skip(0) =~= b@);
    }
    while i < alen && i < blen
        invariant
            alen == a@.len(),
            blen == b@.len(),
            i <= alen,
            i <= blen,
            chars_le(a@, b@) == chars_le(a@.skip(i as int), b@.skip(i as int)),
        decreases alen - i,
    {
        proof {
            assert(a@.skip(i as int).drop_first() =~= a@.skip(i + 1));
            assert(b@.skip(i as int).drop_first() =~= b@.skip(i + 1));
        }
        let ca = a.get_char(i);
        let cb = b.get_char(i);
        if ca as u32 != cb as u32 {
            proof {
                assert(a@.skip(i as int)[0] == a@[i as int]);
                assert(b@.skip(i as int)[0] == b@[i as int]);
            }
            return (ca as u32) < (cb as u32);
        }
        i = i + 1;
    }
    proof {
        if i >= alen {
            assert(a@.skip(i as int).len() == 0);
        } else {
            assert(b@.skip(i as int).len() == 0);
            assert(a@.skip(i as int).len() > 0);
        }
    }
    i >= alen
}

/// Code-point order is total.
proof fn lemma_chars_le_total(a: Seq<char>, b: Seq<char>)
    ensures
        chars_le(a, b) || chars_le(b, a),
    decreases a.len(),
{
    if a.len() > 0 && b.len() > 0 && (a[0] as u32) == (b[0] as u32) {
        lemma_chars_le_total(a.drop_first(), b.drop_first());
    }
}

/// Code-point order is transitive.
proof fn lemma_chars_le_trans(a: Seq<char>, b: Seq<char>, c: Seq<char>)
    requires
        chars_le(a, b),
        chars_le(b, c),
    ensures
        chars_le(a, c),
    decreases a.len(),
{
    if a.len() > 0 && b.len() > 0 && c.len() > 0 && (a[0] as u32) == (b[0] as u32) && (
    b[0] as u32) == (c[0] as u32) {
        lemma_chars_le_trans(a.drop_first(), b.drop_first(), c.drop_first());
    }
}

/// The processes are in ascending name order.
pub open spec fn processes_sorted(ps: Seq<runtypes::Process>) -> bool {
    forall|i: int, j: int|
        #![trigger ps[i], ps[j]]
        0 <= i < j < ps.len() ==> chars_le(ps[i].name@, ps[j].name@)
}

/// A per-process virtual-address allocator for resource mappings: user
/// processes and the kernel draw from different windows.
pub fn get_process_valloc(user: bool) -> (r: BumpPointerAlloc)
    ensures
        r.wf(),
        r == if user {
            BumpPointerAlloc {
                current: USER_RESOURCE_START,
                min_align: PAGE_SIZE,
                end: USER_RESOURCE_END,
            }
        } else {
            BumpPointerAlloc {
                current: KERN_RESOURCE_START,
                min_align: PAGE_SIZE,
                end: KERN_RESOURCE_END,
            }
        },
{
    proof {
        assert(4096u64 & 4095u64 == 0 && 0x40000000u64 & 4095u64 == 0 && 0x88000000u64 & 4095u64
            == 0) by (bit_vector);
        assert(spec_is_power_of_two(PAGE_SIZE));
    }
    if user {
        BumpPointerAlloc::new(USER_RESOURCE_START, USER_RESOURCE_END, PAGE_SIZE)
    } else {
        BumpPointerAlloc::new(KERN_RESOURCE_START, KERN_RESOURCE_END, PAGE_SIZE)
    }
}

/// Allocate a user stack with a guard page on both sides. Returns the stack
/// region and the initial stack pointer, which starts at the region's top.
pub fn make_user_stack<T: SimpleAlloc>(valloc: &mut T) -> (r: Result<
    (runtypes::VirtualMemoryRegion, u64),
    Error,
>)
    requires
        old(valloc).wf(),
    ensures
        final(valloc).wf(),
        match r {
            Ok(p) => {
                &&& p.0.phys == (runtypes::MemoryRegion::AnonymousZeroes {
                    size: USER_STACK_SIZE,
                })
                &&& p.0.virt_start + USER_STACK_SIZE <= u64::MAX
                &&& p.1 == p.0.virt_start + USER_STACK_SIZE
                &&& old(valloc).spec_alloc(PAGE_SIZE) is Some
                &&& exists|t1: T, t2: T|
                    {
                        &&& #[trigger] old(valloc).spec_after_alloc(PAGE_SIZE, &t1)
                        &&& t1.spec_alloc(USER_STACK_SIZE) == Some(p.0.virt_start)
                        &&& #[trigger] t1.spec_after_alloc(USER_STACK_SIZE, &t2)
                        &&& t2.spec_alloc(PAGE_SIZE) is Some
                        &&& t2.spec_after_alloc(PAGE_SIZE, final(valloc))
                    }
            },
            Err(e) => {
                &&& e == Error::VirtualExhausted
                &&& {
                    ||| (old(valloc).spec_alloc(PAGE_SIZE) is None && old(
                        valloc,
                    ).spec_after_alloc(PAGE_SIZE, final(valloc)))
                    ||| exists|t1: T|
                        {
                            &&& #[trigger] old(valloc).spec_after_alloc(PAGE_SIZE, &t1)
                            &&& t1.spec_alloc(USER_STACK_SIZE) is None
                            &&& t1.spec_after_alloc(USER_STACK_SIZE, final(valloc))
                        }
                    ||| exists|t1: T, t2: T|
                        {
                            &&& #[trigger] old(valloc).spec_after_alloc(PAGE_SIZE, &t1)
                            &&& #[trigger] t1.spec_after_alloc(USER_STACK_SIZE, &t2)
                            &&& (t2.spec_alloc(PAGE_SIZE) is None || t1.spec_alloc(
                                USER_STACK_SIZE,
                            )->0 > u64::MAX - USER_STACK_SIZE)
                            &&& (t2.spec_alloc(PAGE_SIZE) is None ==> t2.spec_after_alloc(
                                PAGE_SIZE,
                                final(valloc),
                            ))
                            &&& (t2.spec_alloc(PAGE_SIZE) is Some ==> t2.spec_after_alloc(
                                PAGE_SIZE,
                                final(valloc),
                            ))
                        }
                }
            },
        },
{
    let ghost v0 = *valloc;
    if valloc.allocate(PAGE_SIZE).is_none() {
        return Err(Error::VirtualExhausted);
    }
    let ghost v1 = *valloc;
    let virt_start = match valloc.allocate(USER_STACK_SIZE) {
        Some(v) => v,
        None => {
            return Err(Error::VirtualExhausted);
        },
    };
    let ghost v2 = *valloc;
    if valloc.allocate(PAGE_SIZE).is_none() {
        return Err(Error::VirtualExhausted);
    }
    if virt_start > u64::MAX - USER_STACK_SIZE {
        return Err(Error::VirtualExhausted);
    }
    let stack = runtypes::VirtualMemoryRegion {
        virt_start,
        phys: runtypes::MemoryRegion::AnonymousZeroes { size: USER_STACK_SIZE },
    };
    Ok((stack, virt_start + USER_STACK_SIZE))
}

/// Allocate a virtual window for a hardware memory region.
pub fn map_memory<T: SimpleAlloc>(valloc: &mut T, region: &cfgtypes::MemoryRegion) -> (r: Result<
    runtypes::VirtualMemoryRegion,
    Error,
>)
    requires
        old(valloc).wf(),
    ensures
        final(valloc).wf(),
        old(valloc).spec_after_alloc(region.size, final(valloc)),
        match r {
            Ok(vr) => {
                &&& old(valloc).spec_alloc(region.size) == Some(vr.virt_start)
                &&& vr.phys == (runtypes::MemoryRegion::Phys {
                    size: region.size,
                    start: region.start,
                })
            },
            Err(e) => {
                &&& e == Error::VirtualExhausted
                &&& old(valloc).spec_alloc(region.size) is None
            },
        },
{
    match valloc.allocate(region.size) {
        Some(virt_start) => Ok(
            runtypes::VirtualMemoryRegion {
                virt_start,
                phys: runtypes::MemoryRegion::from_config(region),
            },
        ),
        None => Err(Error::VirtualExhausted),
    }
}

/// The memory region a device needs mapped, if any.
pub open spec fn device_region(device: cfgtypes::Resource) -> Option<cfgtypes::MemoryRegion> {
    match device {
        cfgtypes::Resource::SiFivePLIC { region, .. } => Some(region),
        cfgtypes::Resource::SpinalGPIO { region, .. } => Some(region),
        cfgtypes::Resource::Framebuffer { region, .. } => Some(region),
        cfgtypes::Resource::SBITimer { .. } => None,
    }
}

/// Whether a mapped resource is the given device: same meta information and,
/// for devices that live in memory, a virtual window backed by the device's
/// physical region.
pub open spec fn resource_matches_device(
    res: runtypes::Resource,
    device: cfgtypes::Resource,
) -> bool {
    match device {
        cfgtypes::Resource::SiFivePLIC { ndev, region } => res.meta
            == (runtypes::ResourceMetaInfo::SifivePlic { ndev }) && res.opt_region is Some
            && (res.opt_region->0).phys == (runtypes::MemoryRegion::Phys {
            size: region.size,
            start: region.start,
        }),
        cfgtypes::Resource::SpinalGPIO { ngpio, region } => res.meta
            == (runtypes::ResourceMetaInfo::SpinalGpio { ngpio }) && res.opt_region is Some
            && (res.opt_region->0).phys == (runtypes::MemoryRegion::Phys {
            size: region.size,
            start: region.start,
        }),
        cfgtypes::Resource::Framebuffer { format, region } => res.meta
            == (runtypes::ResourceMetaInfo::Framebuffer { format }) && res.opt_region is Some
            && (res.opt_region->0).phys == (runtypes::MemoryRegion::Phys {
            size: region.size,
            start: region.start,
        }),
        cfgtypes::Resource::SBITimer { freq_hz } => res.meta
            == (runtypes::ResourceMetaInfo::SBITimer { freq_hz }) && res.opt_region is None,
    }
}

/// Map a resource into a process: devices that live in memory get a virtual
/// window; the SBI timer needs none.
pub fn map_resource<T: SimpleAlloc>(valloc: &mut T, device: &cfgtypes::Resource) -> (r: Result<
    runtypes::Resource,
    Error,
>)
    requires
        old(valloc).wf(),
    ensures
        final(valloc).wf(),
        match device_region(*device) {
            Some(rg) => old(valloc).spec_after_alloc(rg.size, final(valloc)),
            None => *final(valloc) == *old(valloc),
        },
        match r {
            Ok(res) => {
                &&& resource_matches_device(res, *device)
                &&& match device_region(*device) {
                    Some(rg) => old(valloc).spec_alloc(rg.size) == Some(
                        (res.opt_region->0).virt_start,
                    ),
                    None => true,
                }
            },
            Err(e) => {
                &&& e == Error::VirtualExhausted
                &&& device_region(*device) is Some
                &&& old(valloc).spec_alloc(device_region(*device)->0.size) is None
            },
        },
{
    match device {
        cfgtypes::Resource::SiFivePLIC { ndev, region } => {
            let vr = match map_memory(valloc, region) {
                Ok(v) => v,
                Err(e) => {
                    return Err(e);
                },
            };
            Ok(
                runtypes::Resource {
                    meta: runtypes::ResourceMetaInfo::SifivePlic { ndev: *ndev },
                    opt_region: Some(vr),
                },
            )
        },
        cfgtypes::Resource::SpinalGPIO { ngpio, region } => {
            let vr = match map_memory(valloc, region) {
                Ok(v) => v,
                Err(e) => {
                    return Err(e);
                },
            };
            Ok(
                runtypes::Resource {
                    meta: runtypes::ResourceMetaInfo::SpinalGpio { ngpio: *ngpio },
                    opt_region: Some(vr),
                },
            )
        },
        cfgtypes::Resource::Framebuffer { format, region } => {
            let vr = match map_memory(valloc, region) {
                Ok(v) => v,
                Err(e) => {
                    return Err(e);
                },
            };
            Ok(
                runtypes::Resource {
                    meta: runtypes::ResourceMetaInfo::Framebuffer { format: *format },
                    opt_region: Some(vr),
                },
            )
        },
        cfgtypes::Resource::SBITimer { freq_hz } => Ok(
            runtypes::Resource {
                meta: runtypes::ResourceMetaInfo::SBITimer { freq_hz: *freq_hz },
                opt_region: None,
            },
        ),
    }
}

/// The device that a mapping routes a need to: the `from` of the first
/// mapping whose `to` is the process name and the need name joined by a dot.
pub open spec fn find_mapping_from(ms: Seq<cfgtypes::Mapping>, to: Seq<char>) -> Option<Seq<char>>
    decreases ms.len(),
{
    if ms.len() == 0 {
        None
    } else if ms.first().to@ == to {
        Some(ms.first().from@)
    } else {
        find_mapping_from(ms.drop_first(), to)
    }
}

/// The resource of the first device with the given name.
pub open spec fn find_device(ds: Seq<cfgtypes::NamedResource>, name: Seq<char>) -> Option<
    cfgtypes::Resource,
>
    decreases ds.len(),
{
    if ds.len() == 0 {
        None
    } else if ds.first().name@ == name {
        Some(ds.first().resource)
    } else {
        find_device(ds.drop_first(), name)
    }
}

/// The device a need of a process resolves to: the mapping for
/// `process.need` names the device; the device's resource is the answer.
pub open spec fn need_source(
    proc_name: Seq<char>,
    need_name: Seq<char>,
    mappings: Seq<cfgtypes::Mapping>,
    devices: Seq<cfgtypes::NamedResource>,
) -> Option<cfgtypes::Resource> {
    match find_mapping_from(mappings, proc_name + "."@ + need_name) {
        None => None,
        Some(from) => find_device(devices, from),
    }
}

fn lookup_mapping_from(ms: &Vec<cfgtypes::Mapping>, to: &str) -> (r: Option<String>)
    ensures
        match r {
            Some(s) => find_mapping_from(ms@, to@) == Some(s@),
            None => find_mapping_from(ms@, to@) is None,
        },
{
    let mut i: usize = 0;
    proof {
        assert(ms@.skip(0) =~= ms@);
    }
    while i < ms.len()
        invariant
            i <= ms@.len(),
            find_mapping_from(ms@, to@) == find_mapping_from(ms@.skip(i as int), to@),
        decreases ms@.len() - i,
    {
        proof {
            assert(ms@.skip(i as int).first() == ms@[i as int]);
            assert(ms@.skip(i as int).drop_first() =~= ms@.skip(i + 1));
        }
        if str_eq(ms[i].to.as_str(), to) {
            return Some(ms[i].from.clone());
        }
        i = i + 1;
    }
    proof {
        assert(ms@.skip(ms@.len() as int) =~= Seq::<cfgtypes::Mapping>::empty());
    }
    None
}

fn lookup_device<'a>(ds: &'a Vec<cfgtypes::NamedResource>, name: &str) -> (r: Option<
    &'a cfgtypes::Resource,
>)
    ensures
        match r {
            Some(d) => find_device(ds@, name@) == Some(*d),
            None => find_device(ds@, name@) is None,
        },
{
    let mut i: usize = 0;
    proof {
        assert(ds@.skip(0) =~= ds@);
    }
    while i < ds.len()
        invariant
            i <= ds@.len(),
            find_device(ds@, name@) == find_device(ds@.skip(i as int), name@),
        decreases ds@.len() - i,
    {
        proof {
            assert(ds@.skip(i as int).first() == ds@[i as int]);
            assert(ds@.skip(i as int).drop_first() =~= ds@.skip(i + 1));
        }
        if str_eq(ds[i].name.as_str(), name) {
            return Some(&ds[i].resource);
        }
        i = i + 1;
    }
    proof {
        assert(ds@.skip(ds@.len() as int) =~= Seq::<cfgtypes::NamedResource>::empty());
    }
    None
}

/// Resolve the needs of one process against the system's mappings and the
/// machine's devices: a need `N` of process `P` is satisfied by the mapping
/// whose `to` is `P.N`, pointing at a device of the machine. Unresolved
/// needs are fatal.
pub fn to_process_resources<T: SimpleAlloc>(
    valloc: &mut T,
    proc_name: &str,
    needs: &Vec<cfgtypes::NamedResourceType>,
    mappings: &Vec<cfgtypes::Mapping>,
    devices: &Vec<cfgtypes::NamedResource>,
) -> (r: Result<runtypes::ResourceMap, Error>)
    requires
        old(valloc).wf(),
    ensures
        final(valloc).wf(),
        match r {
            Ok(rm) => {
                &&& rm@.len() == needs@.len()
                &&& forall|i: int| 0 <= i < needs@.len() ==> (#[trigger] rm@[i]).0@
                    == needs@[i].name@
                &&& forall|i: int|
                    0 <= i < needs@.len() ==> need_source(
                        proc_name@,
                        (#[trigger] needs@[i]).name@,
                        mappings@,
                        devices@,
                    ) is Some
                &&& forall|i: int|
                    0 <= i < needs@.len() ==> resource_matches_device(
                        (#[trigger] rm@[i]).1,
                        need_source(proc_name@, needs@[i].name@, mappings@, devices@)->0,
                    )
            },
            Err(e) => {
                &&& (e == Error::MappingUnresolved || e == Error::VirtualExhausted)
                &&& (e == Error::MappingUnresolved ==> exists|i: int|
                    0 <= i < needs@.len() && need_source(
                        proc_name@,
                        (#[trigger] needs@[i]).name@,
                        mappings@,
                        devices@,
                    ) is None)
            },
        },
{
    let mut rmap: runtypes::ResourceMap = Vec::new();
    let mut i: usize = 0;
    while i < needs.len()
        invariant
            valloc.wf(),
            i <= needs@.len(),
            rmap@.len() == i,
            forall|j: int| 0 <= j < i ==> (#[trigger] rmap@[j]).0@ == needs@[j].name@,
            forall|j: int|
                0 <= j < i ==> need_source(
                    proc_name@,
                    (#[trigger] needs@[j]).name@,
                    mappings@,
                    devices@,
                ) is Some,
            forall|j: int|
                0 <= j < i ==> resource_matches_device(
                    (#[trigger] rmap@[j]).1,
                    need_source(proc_name@, needs@[j].name@, mappings@, devices@)->0,
                ),
        decreases needs@.len() - i,
    {
        let need = &needs[i];

        // A needed resource `dev` for process `hello` is satisfied by a
        // mapping to `hello.dev`.
        let mut mapping_to: String = proc_name.to_owned();
        mapping_to.append(".");
        mapping_to.append(need.name.as_str());

        proof {
            assert(mapping_to@ =~= proc_name@ + "."@ + needs@[i as int].name@);
        }
        let source_name = match lookup_mapping_from(mappings, mapping_to.as_str()) {
            Some(s) => s,
            None => {
                proof {
                    assert(need_source(proc_name@, needs@[i as int].name@, mappings@, devices@)
                        is None);
                }
                return Err(Error::MappingUnresolved);
            },
        };
        let source_res = match lookup_device(devices, source_name.as_str()) {
            Some(d) => d,
            None => {
                proof {
                    assert(need_source(proc_name@, needs@[i as int].name@, mappings@, devices@)
                        is None);
                }
                return Err(Error::MappingUnresolved);
            },
        };
        let mapped = match map_resource(valloc, source_res) {
            Ok(m) => m,
            Err(e) => {
                return Err(e);
            },
        };
        rmap.push((need.name.clone(), mapped));
        i = i + 1;
    }
    Ok(rmap)
}

/// Resolve one raw process description into a configured process: the
/// kernel gets no stack or heap of its own; a user process gets a guarded
/// stack and a heap sized by its application description.
pub fn internalize_process(
    machine: &cfgtypes::Machine,
    process: &cfgtypes::Process,
    mappings: &Vec<cfgtypes::Mapping>,
    program: &cfgtypes::Application,
    user: bool,
) -> (r: Result<runtypes::Process, Error>)
    ensures
        match r {
            Ok(p) => {
                &&& p.name@ == process.name@
                &&& p.binary@ == process.program@
                &&& p.resources@.len() == program.needs@.len()
                &&& forall|i: int| 0 <= i < program.needs@.len() ==> (#[trigger] p.resources@[i]).0@
                    == program.needs@[i].name@
                &&& forall|i: int|
                    0 <= i < program.needs@.len() ==> need_source(
                        process.name@,
                        (#[trigger] program.needs@[i]).name@,
                        mappings@,
                        machine.devices@,
                    ) is Some
                &&& forall|i: int|
                    0 <= i < program.needs@.len() ==> resource_matches_device(
                        (#[trigger] p.resources@[i]).1,
                        need_source(
                            process.name@,
                            program.needs@[i].name@,
                            mappings@,
                            machine.devices@,
                        )->0,
                    )
                &&& !user ==> p.anon_mem@.len() == 0 && p.stack_ptr == 0 && p.heap_start == 0
                    && p.heap_end == 0
                &&& user ==> {
                    &&& p.anon_mem@.len() >= 1
                    &&& p.anon_mem@[0].phys == (runtypes::MemoryRegion::AnonymousZeroes {
                        size: USER_STACK_SIZE,
                    })
                    &&& p.stack_ptr == p.anon_mem@[0].virt_start + USER_STACK_SIZE
                    &&& (program.heap_kb == 0 ==> p.anon_mem@.len() == 1 && p.heap_start == 0
                        && p.heap_end == 0)
                    &&& (program.heap_kb > 0 ==> p.anon_mem@.len() == 2 && p.anon_mem@[1].phys
                        == (runtypes::MemoryRegion::AnonymousZeroes {
                        size: (program.heap_kb * 1024) as u64,
                    }) && p.heap_start == p.anon_mem@[1].virt_start && p.heap_end == p.heap_start
                        + program.heap_kb * 1024)
                }
            },
            Err(e) => e == Error::MappingUnresolved || e == Error::VirtualExhausted,
        },
{
    let mut valloc = get_process_valloc(user);
    let mut anon_mem: Vec<runtypes::VirtualMemoryRegion> = Vec::new();
    let mut stack_ptr: u64 = 0;
    let mut heap_start: u64 = 0;
    let mut heap_end: u64 = 0;
    if user {
        let (stack, sp) = match make_user_stack(&mut valloc) {
            Ok(v) => v,
            Err(e) => {
                return Err(e);
            },
        };
        anon_mem.push(stack);
        stack_ptr = sp;
        let heap_size = if program.heap_kb > u64::MAX / 1024 {
            return Err(Error::VirtualExhausted);
        } else {
            program.heap_kb * 1024
        };
        if heap_size > 0 {
            let hs = match valloc.allocate(heap_size) {
                Some(v) => v,
                None => {
                    return Err(Error::VirtualExhausted);
                },
            };
            if hs > u64::MAX - heap_size {
                return Err(Error::VirtualExhausted);
            }
            anon_mem.push(
                runtypes::VirtualMemoryRegion {
                    virt_start: hs,
                    phys: runtypes::MemoryRegion::AnonymousZeroes { size: heap_size },
                },
            );
            heap_start = hs;
            heap_end = hs + heap_size;
        }
    }
    let resources = match to_process_resources(
        &mut valloc,
        process.name.as_str(),
        &program.needs,
        mappings,
        &machine.devices,
    ) {
        Ok(r) => r,
        Err(e) => {
            return Err(e);
        },
    };
    Ok(
        runtypes::Process {
            name: process.name.clone(),
            binary: process.program.clone(),
            resources,
            anon_mem,
            stack_ptr,
            heap_start,
            heap_end,
        },
    )
}

/// Sort processes into ascending name order.
fn sort_processes(ps: Vec<runtypes::Process>) -> (r: Vec<runtypes::Process>)
    ensures
        processes_sorted(r@),
        r@.len() == ps@.len(),
        r@.to_multiset() == ps@.to_multiset(),
{
    broadcast use vstd::seq_lib::group_to_multiset_ensures;

    let mut out: Vec<runtypes::Process> = Vec::new();
    let mut rest = ps;
    let ghost orig = rest@;
    proof {
        assert(out@.to_multiset() =~= (orig.take(0)).to_multiset());
    }
    while rest.len() > 0
        invariant
            processes_sorted(out@),
            out@.len() + rest@.len() == orig.len(),
            out@.to_multiset() == orig.take(orig.len() - rest@.len()).to_multiset(),
            rest@ == orig.skip(orig.len() - rest@.len()),
        decreases rest@.len(),
    {
        let ghost k = orig.len() - rest@.len();
        let elem = rest.remove(0);
        proof {
            assert(elem == orig[k]);
            assert(rest@ =~= orig.skip(k + 1));
        }
        let mut p: usize = 0;
        while p < out.len() && str_le(out[p].name.as_str(), elem.name.as_str())
            invariant
                p <= out@.len(),
                forall|q: int| 0 <= q < p ==> chars_le((#[trigger] out@[q]).name@, elem.name@),
            decreases out@.len() - p,
        {
            p = p + 1;
        }
        let ghost pre = out@;
        let ghost pp = p as int;
        proof {
            if pp < pre.len() {
                assert(!chars_le(pre[pp].name@, elem.name@));
                lemma_chars_le_total(pre[pp].name@, elem.name@);
                assert(chars_le(elem.name@, pre[pp].name@));
            }
        }
        out.insert(p, elem);
        proof {
            assert(processes_sorted(out@)) by {
                assert forall|x: int, y: int|
                    #![trigger out@[x], out@[y]]
                    0 <= x < y < out@.len() implies chars_le(out@[x].name@, out@[y].name@) by {
                    if y < pp {
                        assert(out@[x] == pre[x] && out@[y] == pre[y]);
                    } else if y == pp {
                        assert(out@[x] == pre[x]);
                    } else if x < pp {
                        assert(out@[x] == pre[x] && out@[y] == pre[y - 1]);
                    } else if x == pp {
                        assert(out@[y] == pre[y - 1]);
                        assert(chars_le(elem.name@, pre[pp].name@));
                        if y - 1 > pp {
                            assert(chars_le(pre[pp].name@, pre[y - 1].name@));
                            lemma_chars_le_trans(elem.name@, pre[pp].name@, pre[y - 1].name@);
                        }
                    } else {
                        assert(out@[x] == pre[x - 1] && out@[y] == pre[y - 1]);
                    }
                }
            }
            assert(orig.take(k + 1).drop_last() =~= orig.take(k));
            assert(orig.take(k + 1) =~= orig.take(k).push(orig[k]));
            vstd::seq_lib::to_multiset_insert::<runtypes::Process>(pre, pp, elem);
            vstd::seq_lib::to_multiset_build::<runtypes::Process>(orig.take(k), orig[k]);
            assert(out@.to_multiset() =~= pre.to_multiset().insert(elem));
            assert(orig.take(k).push(orig[k]).to_multiset() =~= orig.take(
                k,
            ).to_multiset().insert(orig[k]));
        }
    }
    proof {
        assert(orig.take(orig.len() as int) =~= orig);
    }
    out
}

/// Resolve a system description and everything it references into a runtime
/// configuration. The kernel is internalized as a privileged process; user
/// processes are internalized in configuration order and then kept sorted by
/// name, so that every later walk over them is deterministic.
pub fn configure_system(
    system: &cfgtypes::System,
    machine: &cfgtypes::Machine,
    kernel_app: &cfgtypes::Application,
    apps: &Vec<cfgtypes::Application>,
) -> (r: Result<runtypes::Configuration, Error>)
    requires
        apps@.len() == system.processes@.len(),
    ensures
        match r {
            Ok(c) => {
                &&& c.name@ == system.name@
                &&& c.kernel.name@ == system.kernel@
                &&& c.kernel.binary@ == system.kernel@
                &&& c.kernel.anon_mem@.len() == 0
                &&& c.available_memory@ == machine.available_memory@
                &&& c.processes@.len() == system.processes@.len()
                &&& processes_sorted(c.processes@)
            },
            Err(e) => e == Error::MappingUnresolved || e == Error::VirtualExhausted,
        },
{
    let mut processes: Vec<runtypes::Process> = Vec::new();
    let mut i: usize = 0;
    while i < system.processes.len()
        invariant
            apps@.len() == system.processes@.len(),
            i <= system.processes@.len(),
            processes@.len() == i,
        decreases system.processes@.len() - i,
    {
        let p = match internalize_process(
            machine,
            &system.processes[i],
            &system.mappings,
            &apps[i],
            true,
        ) {
            Ok(p) => p,
            Err(e) => {
                return Err(e);
            },
        };
        processes.push(p);
        i = i + 1;
    }
    let kernel_proc = cfgtypes::Process { name: system.kernel.clone(), program: system.kernel.clone() };
    let kernel = match internalize_process(machine, &kernel_proc, &system.mappings, kernel_app, false) {
        Ok(p) => p,
        Err(e) => {
            return Err(e);
        },
    };
    let sorted = sort_processes(processes);
    Ok(
        runtypes::Configuration {
            name: system.name.clone(),
            available_memory: machine.available_memory.clone(),
            kernel,
            processes: sorted,
        },
    )
}

/// Check a resolved configuration. Resolution itself surfaces every failure,
/// so a configuration that exists is valid.
pub fn epoxy_verify(system: &runtypes::Configuration) -> (r: Result<(), Error>)
    ensures
        r is Ok,
{
    Ok(())
}

/// The names of all user processes, in their sorted order.
pub fn epoxy_list_processes(system: &runtypes::Configuration) -> (r: Vec<String>)
    ensures
        r@.len() == system.processes@.len(),
        forall|i: int| 0 <= i < r@.len() ==> (#[trigger] r@[i])@ == system.processes@[i].name@,
{
    let mut out: Vec<String> = Vec::new();
    let mut i: usize = 0;
    while i < system.processes.len()
        invariant
            i <= system.processes@.len(),
            out@.len() == i,
            forall|j: int| 0 <= j < i ==> (#[trigger] out@[j])@ == system.processes@[j].name@,
        decreases system.processes@.len() - i,
    {
        out.push(system.processes[i].name.clone());
        i = i + 1;
    }
    out
}

} // verus!
