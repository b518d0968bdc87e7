//! The physical memory model: reads, writes, flattening and placement.

use harden::bump_ptr_alloc::{BumpPointerAlloc, ChainedAlloc};
use harden::phys_mem::{Memory, PhysMemory, PlaceAs};

#[test]
fn test_memory() {
    let mut m = Memory::default();

    assert_eq!(m.read(0x0000, 0), vec![]);
    assert_eq!(m.read(0x0000, 2), vec![0, 0]);

    m.write(0x1000, &[1, 2, 3]);
    assert_eq!(m.read(0x1000, 3), vec![1, 2, 3]);
    assert_eq!(m.read(0x1002, 1), vec![3]);
    assert_eq!(m.read(0x1002, 2), vec![3, 0]);
    assert_eq!(m.read(0x0FFF, 2), vec![0, 1]);
    assert_eq!(m.read(0x0FFF, 5), vec![0, 1, 2, 3, 0]);

    m.write(0x0FFF, &[4]);
    assert_eq!(m.read(0x0FFF, 2), vec![4, 1]);

    m.write(0x0FFF, &[7, 8]);
    assert_eq!(m.read(0x0FFF, 3), vec![7, 8, 2]);

    let flattened = m.flattened();
    assert_eq!(flattened.read(0x0fff, 3), vec![7, 8, 2]);
}

#[test]
fn flattening_merges_and_sorts() {
    let mut m = Memory::default();
    m.write(0x2000, &[5, 6]);
    m.write(0x1000, &[1, 2]);
    m.write(0x1002, &[3]);

    let flat = m.flattened();
    assert_eq!(flat.chunks.len(), 2);
    assert_eq!(flat.chunks[0].paddr, 0x1000);
    assert_eq!(flat.chunks[0].data, vec![1, 2, 3]);
    assert_eq!(flat.chunks[1].paddr, 0x2000);
    assert_eq!(flat.chunks[1].data, vec![5, 6]);

    // Flattening a flat memory changes nothing.
    let again = flat.flattened();
    assert_eq!(again.chunks.len(), 2);
    assert_eq!(again.chunks[0].paddr, 0x1000);
    assert_eq!(again.chunks[0].data, vec![1, 2, 3]);
    assert_eq!(again.chunks[1].paddr, 0x2000);
    assert_eq!(again.chunks[1].data, vec![5, 6]);
}

#[test]
fn memory_size_counts_all_writes() {
    let mut m = Memory::default();
    m.write(0x100, &[1, 2, 3]);
    m.write(0x100, &[9]);
    assert_eq!(m.size(), 4);
    assert_eq!(m.checked_size(), Some(4));
}

fn test_pmem() -> PhysMemory {
    PhysMemory::new(ChainedAlloc::new(vec![BumpPointerAlloc::new(
        0x10000, 0x20000, 0x1000,
    )]))
}

#[test]
fn place_shareable_deduplicates() {
    let mut p = test_pmem();

    let a1 = p.place_shareable(&[1, 2, 3]).unwrap();
    let a2 = p.place_shareable(&[1, 2, 3]).unwrap();
    let a3 = p.place_shareable(&[4, 5]).unwrap();

    // The same bytes land once; only one allocation happened for them.
    assert_eq!(a1, a2);
    assert_ne!(a1, a3);
    assert_eq!(a3, a1 + 0x1000);
    assert_eq!(p.read(a1, 3), vec![1, 2, 3]);
}

#[test]
fn place_unique_never_deduplicates() {
    let mut p = test_pmem();

    let a1 = p.place_unique(&[1, 2, 3]).unwrap();
    let a2 = p.place_unique(&[1, 2, 3]).unwrap();

    assert_ne!(a1, a2);
    assert_eq!(p.read(a1, 3), vec![1, 2, 3]);
    assert_eq!(p.read(a2, 3), vec![1, 2, 3]);
}

#[test]
fn place_fails_when_memory_is_exhausted() {
    let mut p = PhysMemory::new(ChainedAlloc::new(vec![BumpPointerAlloc::new(
        0x1000, 0x2000, 0x1000,
    )]));

    assert!(p.place(&[0; 0x1000], PlaceAs::Unique).is_some());
    assert_eq!(p.place(&[1, 2], PlaceAs::Unique), None);
}
