//! A simplified ELF writer.
//!
//! The produced ELF only has to get memory to its physical place and tell the
//! boot loader where the kernel starts, so a tiny subset of the format is
//! enough. Each populated region of physical memory becomes one segment with
//! a program header; the file header points at the program headers; there are
//! no section headers.
//!
//! The file layout is: the file header, one program header per chunk, then
//! every chunk's payload bytes in order.

use vstd::bytes::{spec_u16_to_le_bytes, spec_u32_to_le_bytes, spec_u64_to_le_bytes,
    u16_to_le_bytes, u32_to_le_bytes, u64_to_le_bytes};
use vstd::prelude::*;

use crate::error::Error;
use crate::phys_mem::{Chunk, PhysMemory, covered, lemma_mem_stored_monotone, mem_byte, mem_flat,
    mem_stored, share_chunks_view};

verus! {

/// The ELF class of the produced image.
#[derive(Debug, Clone, Copy, PartialEq, Eq, Structural)]
pub enum Format {
    Elf32,
    Elf64,
}

/// The length of the file header.
pub open spec fn spec_ehdr_len(format: Format) -> int {
    match format {
        Format::Elf32 => 0x34,
        Format::Elf64 => 0x40,
    }
}

/// The length of one program header.
pub open spec fn spec_phdr_len(format: Format) -> int {
    match format {
        Format::Elf32 => 0x20,
        Format::Elf64 => 0x38,
    }
}

/// The length of one section header, as advertised in the file header.
pub open spec fn spec_shdr_len(format: Format) -> int {
    match format {
        Format::Elf32 => 0x28,
        Format::Elf64 => 0x40,
    }
}

pub fn ehdr_len(format: Format) -> (r: u64)
    ensures
        r == spec_ehdr_len(format),
{
    match format {
        Format::Elf32 => 0x34,
        Format::Elf64 => 0x40,
    }
}

pub fn phdr_len(format: Format) -> (r: u64)
    ensures
        r == spec_phdr_len(format),
{
    match format {
        Format::Elf32 => 0x20,
        Format::Elf64 => 0x38,
    }
}

pub fn shdr_len(format: Format) -> (r: u64)
    ensures
        r == spec_shdr_len(format),
{
    match format {
        Format::Elf32 => 0x28,
        Format::Elf64 => 0x40,
    }
}

/// The file offset at which segment data starts: right after all headers.
pub open spec fn spec_data_start(format: Format, chunk_count: int) -> int {
    spec_ehdr_len(format) + spec_phdr_len(format) * chunk_count
}

/// The offset at which the segment data is serialized into the resulting
/// ELF, right after all headers.
pub fn data_start(format: Format, chunks: &Vec<Chunk>) -> (r: u64)
    requires
        spec_data_start(format, chunks@.len() as int) <= u64::MAX,
    ensures
        r == spec_data_start(format, chunks@.len() as int),
{
    let clen = chunks.len() as u64;
    ehdr_len(format) + phdr_len(format) * clen
}

/// An address, offset or size, serialized in the scalar width of the class.
pub open spec fn spec_native(format: Format, value: u64) -> Seq<u8> {
    match format {
        Format::Elf32 => spec_u32_to_le_bytes(value as u32),
        Format::Elf64 => spec_u64_to_le_bytes(value),
    }
}

/// Whether `value` is representable in the scalar width of the class.
pub open spec fn native_fits(format: Format, value: u64) -> bool {
    match format {
        Format::Elf32 => value <= u32::MAX,
        Format::Elf64 => true,
    }
}

/// Serialize one scalar in the class's width; a value beyond the 32-bit range
/// cannot be written into a 32-bit ELF.
pub fn write_native(format: Format, value: u64) -> (r: Result<Vec<u8>, Error>)
    ensures
        match r {
            Ok(b) => native_fits(format, value) && b@ == spec_native(format, value),
            Err(e) => e == Error::Io && !native_fits(format, value),
        },
{
    match format {
        Format::Elf32 => {
            if value > u32::MAX as u64 {
                Err(Error::Io)
            } else {
                Ok(u32_to_le_bytes(value as u32))
            }
        },
        Format::Elf64 => Ok(u64_to_le_bytes(value)),
    }
}

/// The file header: magic, class, encoding, machine and entry point, with the
/// program header table directly after the header and no section headers.
pub open spec fn spec_ehdr(format: Format, entry: u64, phdr_count: int) -> Seq<u8> {
    seq![0x7Fu8, 0x45u8, 0x4Cu8, 0x46u8]  // Magic
     + seq![
        match format {
            Format::Elf32 => 1u8,
            Format::Elf64 => 2u8,
        },
        1u8,  // Little-Endian
        1u8,  // Version
        0u8,  // System-V ABI
    ] + seq![0u8, 0u8, 0u8, 0u8, 0u8, 0u8, 0u8, 0u8]  // Padding
     + spec_u16_to_le_bytes(2)  // Executable
     + spec_u16_to_le_bytes(0xf3)  // Machine: RISC-V
     + spec_u32_to_le_bytes(1)  // Version
     + spec_native(format, entry) + spec_native(format, spec_ehdr_len(format) as u64)  // Start of Phdrs
     + spec_native(format, 0)  // Start of Shdrs (there are none)
     + spec_u32_to_le_bytes(0)  // Flags
     + spec_u16_to_le_bytes(spec_ehdr_len(format) as u16) + spec_u16_to_le_bytes(
        spec_phdr_len(format) as u16,
    ) + spec_u16_to_le_bytes(phdr_count as u16) + spec_u16_to_le_bytes(
        spec_shdr_len(format) as u16,
    ) + spec_u16_to_le_bytes(0)  // Shdr count
     + spec_u16_to_le_bytes(0)  // stridx
}

/// Serialize the file header.
pub fn write_ehdr(format: Format, entry: u64, phdr_count: usize) -> (r: Result<Vec<u8>, Error>)
    ensures
        match r {
            Ok(b) => {
                &&& native_fits(format, entry)
                &&& phdr_count <= u16::MAX
                &&& b@ == spec_ehdr(format, entry, phdr_count as int)
            },
            Err(e) => e == Error::Io && (!native_fits(format, entry) || phdr_count > u16::MAX),
        },
{
    let mut out: Vec<u8> = Vec::new();
    out.push(0x7F);
    out.push(0x45);
    out.push(0x4C);
    out.push(0x46);
    out.push(
        match format {
            Format::Elf32 => 1,
            Format::Elf64 => 2,
        },
    );
    out.push(1);
    out.push(1);
    out.push(0);
    let mut k: usize = 0;
    while k < 8
        invariant
            k <= 8,
            out@.len() == 8 + k,
            out@ == old_prefix_ehdr(format).take(8 + k as int),
        decreases 8 - k,
    {
        out.push(0);
        proof {
            assert(out@ =~= old_prefix_ehdr(format).take(8 + k + 1));
        }
        k = k + 1;
    }
    if phdr_count > u16::MAX as usize {
        return Err(Error::Io);
    }
    let mut b = u16_to_le_bytes(2);
    out.append(&mut b);
    let mut b = u16_to_le_bytes(0xf3);
    out.append(&mut b);
    let mut b = u32_to_le_bytes(1);
    out.append(&mut b);
    let mut b = match write_native(format, entry) {
        Ok(v) => v,
        Err(e) => {
            return Err(e);
        },
    };
    out.append(&mut b);
    let mut b = match write_native(format, ehdr_len(format)) {
        Ok(v) => v,
        Err(e) => {
            return Err(e);
        },
    };
    out.append(&mut b);
    let mut b = match write_native(format, 0) {
        Ok(v) => v,
        Err(e) => {
            return Err(e);
        },
    };
    out.append(&mut b);
    let mut b = u32_to_le_bytes(0);
    out.append(&mut b);
    let mut b = u16_to_le_bytes(ehdr_len(format) as u16);
    out.append(&mut b);
    let mut b = u16_to_le_bytes(phdr_len(format) as u16);
    out.append(&mut b);
    let mut b = u16_to_le_bytes(phdr_count as u16);
    out.append(&mut b);
    let mut b = u16_to_le_bytes(shdr_len(format) as u16);
    out.append(&mut b);
    let mut b = u16_to_le_bytes(0);
    out.append(&mut b);
    let mut b = u16_to_le_bytes(0);
    out.append(&mut b);
    proof {
        assert(out@ =~= spec_ehdr(format, entry, phdr_count as int));
    }
    Ok(out)
}

/// The first 16 bytes of the file header.
pub open spec fn old_prefix_ehdr(format: Format) -> Seq<u8> {
    seq![0x7Fu8, 0x45u8, 0x4Cu8, 0x46u8] + seq![
        match format {
            Format::Elf32 => 1u8,
            Format::Elf64 => 2u8,
        },
        1u8,
        1u8,
        0u8,
    ] + seq![0u8, 0u8, 0u8, 0u8, 0u8, 0u8, 0u8, 0u8]
}

/// One program header: a loadable segment, readable, writable and
/// executable, whose virtual and physical address are the chunk's physical
/// address, with no extra alignment.
pub open spec fn spec_phdr(format: Format, offset: u64, paddr: u64, len: u64) -> Seq<u8> {
    spec_u32_to_le_bytes(1)  // PT_LOAD
     + (match format {
        Format::Elf64 => spec_u32_to_le_bytes(7),  // RWX
        Format::Elf32 => Seq::<u8>::empty(),
    }) + spec_native(format, offset)  // file offset
     + spec_native(format, paddr)  // vaddr
     + spec_native(format, paddr)  // paddr
     + spec_native(format, len)  // file size
     + spec_native(format, len)  // memory size
     + (match format {
        Format::Elf32 => spec_u32_to_le_bytes(7),  // RWX
        Format::Elf64 => Seq::<u8>::empty(),
    }) + spec_native(format, 1)  // Alignment
}

/// Whether a program header's scalars fit the class.
pub open spec fn phdr_fits(format: Format, offset: u64, paddr: u64, len: u64) -> bool {
    native_fits(format, offset) && native_fits(format, paddr) && native_fits(format, len)
}

/// Serialize one program header.
pub fn write_phdr(format: Format, offset: u64, paddr: u64, len: u64) -> (r: Result<
    Vec<u8>,
    Error,
>)
    ensures
        match r {
            Ok(b) => phdr_fits(format, offset, paddr, len) && b@ == spec_phdr(
                format,
                offset,
                paddr,
                len,
            ),
            Err(e) => e == Error::Io && !phdr_fits(format, offset, paddr, len),
        },
{
    let mut out: Vec<u8> = Vec::new();
    let mut b = u32_to_le_bytes(1);
    out.append(&mut b);
    if let Format::Elf64 = format {
        let mut b = u32_to_le_bytes(7);
        out.append(&mut b);
    }
    let mut b = match write_native(format, offset) {
        Ok(v) => v,
        Err(e) => {
            return Err(e);
        },
    };
    out.append(&mut b);
    let mut b = match write_native(format, paddr) {
        Ok(v) => v,
        Err(e) => {
            return Err(e);
        },
    };
    out.append(&mut b);
    let mut b2 = match write_native(format, paddr) {
        Ok(v) => v,
        Err(e) => {
            return Err(e);
        },
    };
    out.append(&mut b2);
    let mut b = match write_native(format, len) {
        Ok(v) => v,
        Err(e) => {
            return Err(e);
        },
    };
    out.append(&mut b);
    let mut b2 = match write_native(format, len) {
        Ok(v) => v,
        Err(e) => {
            return Err(e);
        },
    };
    out.append(&mut b2);
    if let Format::Elf32 = format {
        let mut b = u32_to_le_bytes(7);
        out.append(&mut b);
    }
    let mut b = match write_native(format, 1) {
        Ok(v) => v,
        Err(e) => {
            return Err(e);
        },
    };
    out.append(&mut b);
    proof {
        assert(out@ =~= spec_phdr(format, offset, paddr, len));
    }
    Ok(out)
}

/// The program headers of a chunk list, with cumulative file offsets.
pub open spec fn spec_phdrs(format: Format, cs: Seq<(int, Seq<u8>)>, off: int) -> Seq<u8>
    decreases cs.len(),
{
    if cs.len() == 0 {
        Seq::empty()
    } else {
        spec_phdr(format, off as u64, cs.first().0 as u64, cs.first().1.len() as u64)
            + spec_phdrs(format, cs.drop_first(), off + cs.first().1.len())
    }
}

/// The payload bytes of a chunk list, in order.
pub open spec fn spec_datas(cs: Seq<(int, Seq<u8>)>) -> Seq<u8>
    decreases cs.len(),
{
    if cs.len() == 0 {
        Seq::empty()
    } else {
        cs.first().1 + spec_datas(cs.drop_first())
    }
}

/// The whole image: file header, program headers, payload.
pub open spec fn spec_image(format: Format, entry: u64, cs: Seq<(int, Seq<u8>)>) -> Seq<u8> {
    spec_ehdr(format, entry, cs.len() as int) + spec_phdrs(
        format,
        cs,
        spec_data_start(format, cs.len() as int),
    ) + spec_datas(cs)
}

/// Whether every scalar of the image fits the class and the file layout fits
/// a 64-bit offset.
pub open spec fn image_fits(format: Format, entry: u64, cs: Seq<(int, Seq<u8>)>) -> bool {
    &&& native_fits(format, entry)
    &&& cs.len() <= u16::MAX
    &&& spec_data_start(format, cs.len() as int) + mem_stored(cs) <= u64::MAX
    &&& forall|i: int|
        0 <= i < cs.len() ==> phdr_fits(
            format,
            (spec_data_start(format, cs.len() as int) + mem_stored(cs.take(i))) as u64,
            (#[trigger] cs[i]).0 as u64,
            cs[i].1.len() as u64,
        )
}

/// Appending a chunk appends its program header, at the cumulative offset.
proof fn lemma_phdrs_push(format: Format, s: Seq<(int, Seq<u8>)>, x: (int, Seq<u8>), off: int)
    ensures
        spec_phdrs(format, s.push(x), off) == spec_phdrs(format, s, off) + spec_phdr(
            format,
            (off + mem_stored(s)) as u64,
            x.0 as u64,
            x.1.len() as u64,
        ),
    decreases s.len(),
{
    if s.len() == 0 {
        assert(s.push(x).first() == x);
        assert(s.push(x).drop_first() =~= Seq::<(int, Seq<u8>)>::empty());
        assert(spec_phdrs(format, s.push(x).drop_first(), off + x.1.len()) == Seq::<u8>::empty());
        assert(mem_stored(s) == 0);
        assert(spec_phdrs(format, s, off) == Seq::<u8>::empty());
        assert(spec_phdrs(format, s.push(x), off) =~= spec_phdrs(format, s, off) + spec_phdr(
            format,
            (off + mem_stored(s)) as u64,
            x.0 as u64,
            x.1.len() as u64,
        ));
    } else {
        assert(s.push(x).first() == s.first());
        assert(s.push(x).drop_first() =~= s.drop_first().push(x));
        lemma_phdrs_push(format, s.drop_first(), x, off + s.first().1.len());
        lemma_mem_stored_drop_first(s);
        assert(mem_stored(s) == mem_stored(s.drop_first()) + s.first().1.len());
        assert(off + s.first().1.len() + mem_stored(s.drop_first()) == off + mem_stored(s));
        assert(spec_phdrs(format, s.push(x), off) == spec_phdr(
            format,
            off as u64,
            s.first().0 as u64,
            s.first().1.len() as u64,
        ) + spec_phdrs(format, s.drop_first().push(x), off + s.first().1.len()));
        assert(spec_phdrs(format, s, off) == spec_phdr(
            format,
            off as u64,
            s.first().0 as u64,
            s.first().1.len() as u64,
        ) + spec_phdrs(format, s.drop_first(), off + s.first().1.len()));
        assert(spec_phdrs(format, s.push(x), off) =~= spec_phdrs(format, s, off) + spec_phdr(
            format,
            (off + mem_stored(s)) as u64,
            x.0 as u64,
            x.1.len() as u64,
        ));
    }
}

/// The stored total taken from the front.
proof fn lemma_mem_stored_drop_first(s: Seq<(int, Seq<u8>)>)
    requires
        s.len() > 0,
    ensures
        mem_stored(s) == s.first().1.len() + mem_stored(s.drop_first()),
    decreases s.len(),
{
    if s.len() == 1 {
        assert(s.drop_last() =~= Seq::<(int, Seq<u8>)>::empty());
        assert(s.drop_first() =~= Seq::<(int, Seq<u8>)>::empty());
    } else {
        assert(s.drop_last().first() == s.first());
        assert(s.drop_last().drop_first() =~= s.drop_first().drop_last());
        assert(s.drop_first().last() == s.last());
        lemma_mem_stored_drop_first(s.drop_last());
    }
}

/// Appending a chunk appends its payload bytes.
proof fn lemma_datas_push(s: Seq<(int, Seq<u8>)>, x: (int, Seq<u8>))
    ensures
        spec_datas(s.push(x)) == spec_datas(s) + x.1,
    decreases s.len(),
{
    if s.len() == 0 {
        assert(s.push(x).first() == x);
        assert(s.push(x).drop_first() =~= Seq::<(int, Seq<u8>)>::empty());
        assert(spec_datas(s.push(x).drop_first()) == Seq::<u8>::empty());
        assert(spec_datas(s.push(x)) == x.1 + Seq::<u8>::empty());
        assert(spec_datas(s) == Seq::<u8>::empty());
        assert(spec_datas(s.push(x)) =~= spec_datas(s) + x.1);
    } else {
        assert(s.push(x).first() == s.first());
        assert(s.push(x).drop_first() =~= s.drop_first().push(x));
        lemma_datas_push(s.drop_first(), x);
        assert(spec_datas(s.push(x)) == s.first().1 + spec_datas(s.drop_first().push(x)));
        assert(spec_datas(s) == s.first().1 + spec_datas(s.drop_first()));
        assert(spec_datas(s.push(x)) =~= spec_datas(s) + x.1);
    }
}

/// Serialize the flattened physical memory into a bootable ELF image:
/// one file header, one program header per populated chunk, then every
/// chunk's bytes. The result reads, segment for segment, exactly like the
/// physical memory that was built.
#[verifier::rlimit(100)]
#[verifier::spinoff_prover]
pub fn write(format: Format, entry: u64, pmem: &PhysMemory) -> (r: Result<Vec<u8>, Error>)
    requires
        pmem.wf(),
        mem_stored(pmem.memory@) <= usize::MAX,
    ensures
        exists|cs: Seq<(int, Seq<u8>)>|
            {
                &&& #[trigger] mem_flat(cs)
                &&& forall|a: int| mem_byte(cs, a) == mem_byte(pmem.memory@, a)
                &&& forall|a: int| covered(cs, a) == covered(pmem.memory@, a)
                &&& match r {
                    Ok(out) => image_fits(format, entry, cs) && out@ == spec_image(
                        format,
                        entry,
                        cs,
                    ),
                    Err(e) => e == Error::Io && !image_fits(format, entry, cs),
                }
            },
{
    let chunks = pmem.chunks();
    let ghost cs = share_chunks_view(chunks@);
    let n = chunks.len();
    if n > u16::MAX as usize {
        proof {
            assert(!image_fits(format, entry, cs));
        }
        return Err(Error::Io);
    }
    let mut out = match write_ehdr(format, entry, n) {
        Ok(v) => v,
        Err(e) => {
            proof {
                assert(!image_fits(format, entry, cs));
            }
            return Err(e);
        },
    };
    proof {
        assert(spec_data_start(format, cs.len() as int) <= 0x40 + 0x38 * 65535) by {
            assert(spec_phdr_len(format) * (cs.len() as int) <= 0x38 * 65535) by (nonlinear_arith)
                requires
                    cs.len() <= 65535,
                    spec_phdr_len(format) <= 0x38,
                    spec_phdr_len(format) >= 0,
            {}
        }
        lemma_mem_stored_monotone(cs);
        assert(cs.take(0) =~= Seq::<(int, Seq<u8>)>::empty());
    }
    let ds = data_start(format, &chunks);
    let mut phdrs: Vec<u8> = Vec::new();
    let mut datas: Vec<u8> = Vec::new();
    let mut off: u64 = ds;
    let mut i: usize = 0;
    while i < n
        invariant
            pmem.wf(),
            n == chunks@.len(),
            n <= u16::MAX,
            cs == share_chunks_view(chunks@),
            mem_flat(cs),
            forall|a: int| mem_byte(cs, a) == mem_byte(pmem.memory@, a),
            forall|a: int| covered(cs, a) == covered(pmem.memory@, a),
            native_fits(format, entry),
            out@ == spec_ehdr(format, entry, cs.len() as int),
            ds == spec_data_start(format, cs.len() as int),
            ds <= 0x40 + 0x38 * 65535,
            i <= n,
            off == ds + mem_stored(cs.take(i as int)),
            off <= u64::MAX,
            forall|k: int| 0 <= k <= cs.len() ==> #[trigger] mem_stored(cs.take(k))
                <= mem_stored(cs),
            phdrs@ == spec_phdrs(format, cs.take(i as int), ds as int),
            datas@ == spec_datas(cs.take(i as int)),
            forall|j: int|
                0 <= j < i ==> phdr_fits(
                    format,
                    (ds + mem_stored(cs.take(j))) as u64,
                    (#[trigger] cs[j]).0 as u64,
                    cs[j].1.len() as u64,
                ),
        decreases n - i,
    {
        let c = &chunks[i];
        proof {
            assert(cs[i as int] == chunks@[i as int]@);
            assert(cs.take(i + 1) =~= cs.take(i as int).push(cs[i as int]));
            assert(cs.take(i + 1).drop_last() =~= cs.take(i as int));
            lemma_phdrs_push(format, cs.take(i as int), cs[i as int], ds as int);
            lemma_datas_push(cs.take(i as int), cs[i as int]);
        }
        let clen = c.data.len() as u64;
        let mut p = match write_phdr(format, off, c.paddr, clen) {
            Ok(v) => v,
            Err(e) => {
                proof {
                    assert(!phdr_fits(
                        format,
                        (ds + mem_stored(cs.take(i as int))) as u64,
                        cs[i as int].0 as u64,
                        cs[i as int].1.len() as u64,
                    ));
                    assert(!image_fits(format, entry, cs));
                }
                return Err(e);
            },
        };
        phdrs.append(&mut p);
        let mut d = vstd::slice::slice_to_vec(c.data.as_slice());
        datas.append(&mut d);
        off = match off.checked_add(clen) {
            Some(v) => v,
            None => {
                proof {
                    assert(mem_stored(cs.take(i + 1)) <= mem_stored(cs));
                    assert(ds + mem_stored(cs) > u64::MAX);
                    assert(!image_fits(format, entry, cs));
                }
                return Err(Error::Io);
            },
        };
        i = i + 1;
    }
    out.append(&mut phdrs);
    out.append(&mut datas);
    proof {
        assert(cs.take(n as int) =~= cs);
        assert(mem_stored(cs.take(n as int)) == mem_stored(cs));
        assert(out@ =~= spec_image(format, entry, cs));
        assert(image_fits(format, entry, cs));
    }
    Ok(out)
}

} // verus!
