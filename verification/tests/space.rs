//! Backings, mappings and address spaces.

use harden::address_space::{AddressSpace, Backing, Mapping};
use harden::elf::Permissions;

#[test]
fn test_backing() {
    let init = Backing::InitializedData { data: vec![1, 2] };

    let phys = Backing::Phys { phys: 0x1010, size: 0x0010 };

    // size()
    assert_eq!(init.size(), 2);
    assert_eq!(phys.size(), 0x10);

    // extended()
    assert_eq!(init.extended(4).size(), 6);
    assert_eq!(phys.extended(4).size(), 0x14);
}

#[test]
fn test_page_aligned() {
    let map = Mapping {
        vaddr: 0xfff,
        perm: Permissions::read_write(),
        backing: Backing::InitializedData { data: vec![1, 2] },
    };

    let aligned = map.page_aligned();

    assert_eq!(aligned.vaddr, 0x0000);
    assert_eq!(aligned.size(), 0x2000);
    assert_eq!(aligned.perm, map.perm);

    match &aligned.backing {
        Backing::InitializedData { data } => {
            assert_eq!(data.len(), 0x2000);
            assert_eq!(&data[0xfff..0x1001], &[1, 2]);
            assert_eq!(data[0], 0);
            assert_eq!(data[0x1002], 0);
        }
        _ => panic!("page alignment changed backing store?"),
    }
}

#[test]
fn backing_prepended_moves_physical_start() {
    let phys = Backing::Phys { phys: 0x1010, size: 0x10 };
    match phys.prepended(0x10) {
        Backing::Phys { phys, size } => {
            assert_eq!(phys, 0x1000);
            assert_eq!(size, 0x20);
        }
        _ => panic!("prepending changed backing store?"),
    }
}

#[test]
fn lookup_follows_first_match() {
    let mut a = AddressSpace::new();
    a.add(Mapping {
        vaddr: 0x1000,
        perm: Permissions::read_write(),
        backing: Backing::Phys { phys: 0x8000, size: 0x1000 },
    });
    a.add(Mapping {
        vaddr: 0x1000,
        perm: Permissions::read_write(),
        backing: Backing::Phys { phys: 0x9000, size: 0x1000 },
    });

    // The first mapping wins; an unmapped address yields nothing.
    assert_eq!(a.lookup_phys(0x1004), Some(0x8004));
    assert_eq!(a.lookup_phys(0x2000), None);

    let (paddr, perm) = a.lookup(0x1010).unwrap();
    assert_eq!(paddr, 0x8010);
    assert!(perm.read && perm.write && !perm.execute && !perm.user);
}

#[test]
fn make_user_publishes_only_existing_mappings() {
    let mut a = AddressSpace::new();
    a.add(Mapping {
        vaddr: 0x1000,
        perm: Permissions::read_write(),
        backing: Backing::Phys { phys: 0x8000, size: 0x1000 },
    });
    a.make_user();

    let mut kernel = AddressSpace::new();
    kernel.add(Mapping {
        vaddr: 0x80000000,
        perm: Permissions::read_write(),
        backing: Backing::Phys { phys: 0x8000, size: 0x1000 },
    });

    a.merge_from(&kernel);

    assert!(a.lookup(0x1000).unwrap().1.user);
    assert!(!a.lookup(0x80000000).unwrap().1.user);
}
