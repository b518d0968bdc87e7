//! The view of an ELF binary that the rest of the builder works with:
//! loadable segments with their bytes, and a symbol table.

use vstd::prelude::*;

use crate::constants::PAGE_SIZE;
use crate::error::Error;

verus! {

/// Permissions for memory regions.
#[derive(PartialEq, Eq, Structural, Clone, Copy, Debug)]
pub struct Permissions {
    pub read: bool,
    pub write: bool,
    pub execute: bool,
    pub user: bool,
}

impl Permissions {
    /// Read-write data, not yet published to user mode.
    pub fn read_write() -> (r: Permissions)
        ensures
            r == (Permissions { read: true, write: true, execute: false, user: false }),
    {
        Permissions { read: true, write: true, execute: false, user: false }
    }
}

/// One loadable segment: its load address and the exact bytes that must
/// appear there, already zero-padded up to its size in memory.
#[derive(Debug, Clone)]
pub struct Segment {
    pub permissions: Permissions,
    pub vaddr: u64,
    pub paddr: u64,
    pub data: Vec<u8>,
}

impl Segment {
    /// The segment's addresses stay representable even after page alignment.
    pub open spec fn wf(&self) -> bool {
        &&& self.vaddr + self.data@.len() + 2 * PAGE_SIZE <= u64::MAX
        &&& self.data@.len() + 2 * PAGE_SIZE <= usize::MAX
    }
}

/// A parsed ELF binary: entry point, loadable segments and symbols. A symbol
/// name that occurs twice is resolved to its latest occurrence.
pub struct ElfImage {
    /// Entry point of the ELF.
    pub entry: u64,
    pub segments: Vec<Segment>,
    pub symbols: Vec<(String, u64)>,
}

impl ElfImage {
    pub open spec fn wf(&self) -> bool {
        forall|i: int| 0 <= i < self.segments@.len() ==> (#[trigger] self.segments@[i]).wf()
    }

    /// The virtual address recorded for `name`, if any: of several records
    /// with one name, the last wins.
    pub open spec fn spec_symbol(&self, name: Seq<char>) -> Option<u64> {
        sym_lookup(self.symbols@.map_values(|p: (String, u64)| (p.0@, p.1)), name)
    }

    /// Look up the virtual address of a symbol by name.
    pub fn symbol(&self, name: &str) -> (r: Option<u64>)
        ensures
            r == self.spec_symbol(name@),
    {
        let ghost sv = self.symbols@.map_values(|p: (String, u64)| (p.0@, p.1));
        let mut k = self.symbols.len();
        proof {
            assert(sv.take(k as int) =~= sv);
        }
        while k > 0
            invariant
                k <= self.symbols@.len(),
                sv == self.symbols@.map_values(|p: (String, u64)| (p.0@, p.1)),
                sym_lookup(sv, name@) == sym_lookup(sv.take(k as int), name@),
            decreases k,
        {
            proof {
                assert(sv.take(k as int).drop_last() =~= sv.take(k - 1));
                assert(sv.take(k as int).last() == sv[k - 1]);
            }
            let entry = &self.symbols[k - 1];
            if str_eq(entry.0.as_str(), name) {
                return Some(entry.1);
            }
            k = k - 1;
        }
        proof {
            assert(sv.take(0) =~= Seq::<(Seq<char>, u64)>::empty());
        }
        None
    }
}

/// Whether two string slices hold the same characters.
pub fn str_eq(a: &str, b: &str) -> (r: bool)
    ensures
        r == (a@ == b@),
{
    let ao: String = a.to_owned();
    ao.eq(&b.to_owned())
}

/// The address recorded for a symbol name: the latest record wins.
pub open spec fn sym_lookup(s: Seq<(Seq<char>, u64)>, name: Seq<char>) -> Option<u64>
    decreases s.len(),
{
    if s.len() == 0 {
        None
    } else if s.last().0 == name {
        Some(s.last().1)
    } else {
        sym_lookup(s.drop_last(), name)
    }
}

/// The sequence of `n` zero bytes.
pub open spec fn zeroes(n: int) -> Seq<u8> {
    Seq::new(n as nat, |i: int| 0u8)
}

/// A vector of `n` zero bytes.
pub fn zero_vec(n: usize) -> (r: Vec<u8>)
    ensures
        r@ == zeroes(n as int),
{
    let mut out: Vec<u8> = Vec::new();
    let mut i: usize = 0;
    while i < n
        invariant
            i <= n,
            out@.len() == i,
            forall|j: int| 0 <= j < i ==> out@[j] == 0u8,
        decreases n - i,
    {
        out.push(0u8);
        i = i + 1;
    }
    proof {
        assert(out@ =~= zeroes(n as int));
    }
    out
}

/// The bytes a segment must occupy in memory: the file bytes, zero-padded up
/// to the size in memory. Rejected if the file claims more bytes than the
/// memory size, or points outside the file.
pub fn elf_subslice(data: &[u8], offset: u64, filesz: u64, memsz: u64) -> (r: Result<
    Vec<u8>,
    Error,
>)
    ensures
        match r {
            Ok(v) => {
                &&& memsz >= filesz
                &&& offset + filesz <= data@.len()
                &&& memsz <= usize::MAX
                &&& v@ == data@.subrange(offset as int, (offset + filesz) as int) + zeroes(
                    (memsz - filesz) as int,
                )
            },
            Err(e) => {
                &&& e == Error::ElfInvalid
                &&& (memsz < filesz || offset + filesz > data@.len() || memsz > usize::MAX)
            },
        },
{
    if memsz < filesz {
        return Err(Error::ElfInvalid);
    }
    if filesz > data.len() as u64 || offset > data.len() as u64 - filesz {
        return Err(Error::ElfInvalid);
    }
    if memsz > usize::MAX as u64 {
        return Err(Error::ElfInvalid);
    }
    let mut out: Vec<u8> = Vec::new();
    let mut i: usize = 0;
    let flen = filesz as usize;
    let off = offset as usize;
    let dlen = data.len();
    while i < flen
        invariant
            flen == filesz,
            off == offset,
            dlen == data@.len(),
            off + flen <= dlen,
            offset + filesz <= data@.len(),
            i <= flen,
            out@.len() == i,
            forall|j: int| 0 <= j < i ==> out@[j] == data@[offset + j],
        decreases flen - i,
    {
        out.push(data[off + i]);
        i = i + 1;
    }
    let mut pad = zero_vec((memsz - filesz) as usize);
    out.append(&mut pad);
    proof {
        assert(out@ =~= data@.subrange(offset as int, (offset + filesz) as int) + zeroes(
            (memsz - filesz) as int,
        ));
    }
    Ok(out)
}

/// The fields of one ELF program header, as plain values.
pub struct RawPhdr {
    pub p_type: u32,
    pub p_flags: u32,
    pub p_offset: u64,
    pub p_vaddr: u64,
    pub p_paddr: u64,
    pub p_filesz: u64,
    pub p_memsz: u64,
}

/// The symbol list as character sequences with values.
pub open spec fn sym_view(s: Seq<(String, u64)>) -> Seq<(Seq<char>, u64)> {
    s.map_values(|p: (String, u64)| (p.0@, p.1))
}

/// What goblin's parser extracts from the bytes of an ELF file: the entry
/// point, the program headers and the named symbols. The outcome is a
/// function of the bytes alone. Bytes that do not parse as an ELF, or whose
/// symbol names cannot be resolved, yield nothing.
pub uninterp spec fn parsed_elf_of(data: Seq<u8>) -> Option<
    (u64, Seq<RawPhdr>, Seq<(Seq<char>, u64)>),
>;

/// Relies on goblin: `Object::parse` on the bytes, the fields of the parsed
/// program headers and symbols, and `Strtab::get_at` for each symbol's name.
/// All of it depends on the bytes alone, so the result is `parsed_elf_of`.
#[verifier::external_body]
fn parse_raw(data: &[u8]) -> (r: Option<(u64, Vec<RawPhdr>, Vec<(String, u64)>)>)
    ensures
        r is Some <==> parsed_elf_of(data@) is Some,
        r is Some ==> ((r->0).0, (r->0).1@, sym_view((r->0).2@)) == parsed_elf_of(data@)->0,
{
    let e = match goblin::Object::parse(data) {
        Ok(goblin::Object::Elf(e)) => e,
        _ => return None,
    };
    let mut syms: Vec<(String, u64)> = Vec::new();
    for s in e.syms.iter() {
        syms.push((e.strtab.get_at(s.st_name)?.to_string(), s.st_value));
    }
    let phs = e.program_headers.iter().map(|p| RawPhdr {
        p_type: p.p_type, p_flags: p.p_flags, p_offset: p.p_offset, p_vaddr: p.p_vaddr,
        p_paddr: p.p_paddr, p_filesz: p.p_filesz, p_memsz: p.p_memsz,
    }).collect();
    Some((e.entry, phs, syms))
}

/// The loadable-segment type tag of a program header.
pub const PT_LOAD: u32 = 1;

/// The loadable program headers, in order.
pub open spec fn loadable_phdrs(phs: Seq<RawPhdr>) -> Seq<RawPhdr>
    decreases phs.len(),
{
    if phs.len() == 0 {
        phs
    } else if phs.last().p_type == PT_LOAD {
        loadable_phdrs(phs.drop_last()).push(phs.last())
    } else {
        loadable_phdrs(phs.drop_last())
    }
}

/// Whether a loadable program header describes a segment this builder can
/// carry: the file range lies within the file, the memory size is at least
/// the file size, and the segment stays addressable even after page
/// alignment.
pub open spec fn seg_ok(ph: RawPhdr, dlen: int) -> bool {
    &&& ph.p_filesz <= ph.p_memsz
    &&& ph.p_offset + ph.p_filesz <= dlen
    &&& ph.p_memsz + 2 * PAGE_SIZE <= usize::MAX
    &&& ph.p_vaddr + ph.p_memsz + 2 * PAGE_SIZE <= u64::MAX
}

/// The segment a loadable program header denotes: its addresses, its
/// permissions decoded from the flag bits, and the file bytes zero-extended
/// to the size in memory.
pub open spec fn seg_matches(s: Segment, ph: RawPhdr, data: Seq<u8>) -> bool {
    &&& s.vaddr == ph.p_vaddr
    &&& s.paddr == ph.p_paddr
    &&& s.permissions == (Permissions {
        read: ph.p_flags & 4 != 0,
        write: ph.p_flags & 2 != 0,
        execute: ph.p_flags & 1 != 0,
        user: false,
    })
    &&& s.data@ == data.subrange(ph.p_offset as int, (ph.p_offset + ph.p_filesz) as int) + zeroes(
        (ph.p_memsz - ph.p_filesz) as int,
    )
}

/// The loadable program headers of a header list.
fn collect_loadable(phs: &Vec<RawPhdr>) -> (r: Vec<RawPhdr>)
    ensures
        r@ == loadable_phdrs(phs@),
{
    let mut out: Vec<RawPhdr> = Vec::new();
    let mut i: usize = 0;
    proof {
        assert(phs@.take(0) =~= Seq::<RawPhdr>::empty());
    }
    while i < phs.len()
        invariant
            i <= phs@.len(),
            out@ == loadable_phdrs(phs@.take(i as int)),
        decreases phs@.len() - i,
    {
        proof {
            assert(phs@.take(i + 1).drop_last() =~= phs@.take(i as int));
            assert(phs@.take(i + 1).last() == phs@[i as int]);
        }
        let ph = &phs[i];
        if ph.p_type == PT_LOAD {
            out.push(
                RawPhdr {
                    p_type: ph.p_type,
                    p_flags: ph.p_flags,
                    p_offset: ph.p_offset,
                    p_vaddr: ph.p_vaddr,
                    p_paddr: ph.p_paddr,
                    p_filesz: ph.p_filesz,
                    p_memsz: ph.p_memsz,
                },
            );
            proof {
                assert(out@.last() == phs@[i as int]);
                assert(out@.drop_last() =~= loadable_phdrs(phs@.take(i as int)));
                assert(out@ =~= loadable_phdrs(phs@.take(i + 1)));
            }
        }
        i = i + 1;
    }
    proof {
        assert(phs@.take(phs@.len() as int) =~= phs@);
    }
    out
}

/// Assemble an ELF description from its parsed pieces: one segment per
/// loadable header, in order, with the exact bytes each must occupy in
/// memory. Succeeds exactly when every loadable header describes a segment
/// that lies within the file and stays addressable.
pub fn elf_assemble(
    entry: u64,
    lphs: &Vec<RawPhdr>,
    symbols: Vec<(String, u64)>,
    data: &[u8],
) -> (r: Result<ElfImage, Error>)
    ensures
        match r {
            Ok(elf) => {
                &&& elf.wf()
                &&& elf.entry == entry
                &&& elf.symbols@ == symbols@
                &&& elf.segments@.len() == lphs@.len()
                &&& forall|i: int|
                    0 <= i < lphs@.len() ==> seg_matches(
                        #[trigger] elf.segments@[i],
                        lphs@[i],
                        data@,
                    )
                &&& forall|i: int| 0 <= i < lphs@.len() ==> seg_ok(
                    #[trigger] lphs@[i],
                    data@.len() as int,
                )
            },
            Err(e) => {
                &&& e == Error::ElfInvalid
                &&& exists|i: int|
                    0 <= i < lphs@.len() && !seg_ok(#[trigger] lphs@[i], data@.len() as int)
            },
        },
{
    let mut segments: Vec<Segment> = Vec::new();
    let mut i: usize = 0;
    while i < lphs.len()
        invariant
            i <= lphs@.len(),
            segments@.len() == i,
            forall|k: int| 0 <= k < i ==> seg_matches(#[trigger] segments@[k], lphs@[k], data@),
            forall|k: int| 0 <= k < i ==> seg_ok(#[trigger] lphs@[k], data@.len() as int),
            forall|k: int| 0 <= k < i ==> (#[trigger] segments@[k]).wf(),
        decreases lphs@.len() - i,
    {
        let ph = &lphs[i];
        let bytes = match elf_subslice(data, ph.p_offset, ph.p_filesz, ph.p_memsz) {
            Ok(b) => b,
            Err(e) => {
                return Err(e);
            },
        };
        if ph.p_vaddr > u64::MAX - 2 * PAGE_SIZE || ph.p_memsz > u64::MAX - 2 * PAGE_SIZE
            - ph.p_vaddr {
            return Err(Error::ElfInvalid);
        }
        if ph.p_memsz > (usize::MAX as u64 - 2 * PAGE_SIZE as u64) {
            return Err(Error::ElfInvalid);
        }
        let permissions = Permissions {
            read: ph.p_flags & 4 != 0,
            write: ph.p_flags & 2 != 0,
            execute: ph.p_flags & 1 != 0,
            // A conservative default: if this were wrong, user code could not
            // reach its own memory.
            user: false,
        };
        segments.push(Segment { permissions, vaddr: ph.p_vaddr, paddr: ph.p_paddr, data: bytes });
        i = i + 1;
    }
    Ok(ElfImage { entry, segments, symbols })
}

/// Parse an ELF binary into its loadable segments and symbols: one segment
/// per loadable program header, in order, with the exact bytes it must
/// occupy in memory. A file that is not an ELF, has unresolvable symbol
/// names, addresses a segment outside the file or the address space, or
/// claims more file bytes than memory size, is rejected.
pub fn elf_from_bytes(data: &[u8]) -> (r: Result<ElfImage, Error>)
    ensures
        match parsed_elf_of(data@) {
            None => r == Err::<ElfImage, Error>(Error::ElfInvalid),
            Some(raw) => {
                let lphs = loadable_phdrs(raw.1);
                match r {
                    Ok(elf) => {
                        &&& elf.wf()
                        &&& elf.entry == raw.0
                        &&& sym_view(elf.symbols@) == raw.2
                        &&& elf.segments@.len() == lphs.len()
                        &&& forall|i: int|
                            0 <= i < lphs.len() ==> seg_matches(
                                #[trigger] elf.segments@[i],
                                lphs[i],
                                data@,
                            )
                        &&& forall|i: int| 0 <= i < lphs.len() ==> seg_ok(
                            #[trigger] lphs[i],
                            data@.len() as int,
                        )
                    },
                    Err(e) => {
                        &&& e == Error::ElfInvalid
                        &&& exists|i: int|
                            0 <= i < lphs.len() && !seg_ok(#[trigger] lphs[i], data@.len() as int)
                    },
                }
            },
        },
{
    let (entry, phdrs, symbols) = match parse_raw(data) {
        Some(t) => t,
        None => {
            return Err(Error::ElfInvalid);
        },
    };
    let loadable = collect_loadable(&phdrs);
    let ghost raw = parsed_elf_of(data@)->0;
    proof {
        assert(phdrs@ == raw.1);
        assert(loadable@ == loadable_phdrs(raw.1));
    }
    let r = elf_assemble(entry, &loadable, symbols, data);
    proof {
        if r is Ok {
            assert((r->Ok_0).symbols@ == symbols@);
            assert(sym_view((r->Ok_0).symbols@) == raw.2);
        }
    }
    r
}

} // verus!
