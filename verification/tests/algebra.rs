//! Interval algebra and allocators.

use harden::bump_ptr_alloc::{BumpPointerAlloc, ChainedAlloc, SimpleAlloc};
use harden::interval::Interval;

#[test]
fn test_interval() {
    let i1 = Interval { from: 0, to: 5 };
    let i2 = Interval::new_with_size(0, 5);
    let i3 = Interval { from: 5, to: 6 };
    let i4 = Interval { from: 5, to: 5 };
    let i5 = Interval::new_with_size(1, 2);

    assert!(Interval::default().empty());

    assert_eq!(i1, i2);
    assert_eq!(i1.size(), 5);

    assert!(Interval::new_with_size(23, 0).empty());

    assert!(i1.adjacent(i3));
    assert!(!i1.adjacent(i4));

    assert!(i1.intersects(i1));
    assert!(!i1.intersects(i3));

    assert!(i1.intersection(i3).empty());
    assert_eq!(i1.intersection(i5), i5);
}

#[test]
fn interval_hull_and_join() {
    let a = Interval { from: 0, to: 4 };
    let b = Interval { from: 4, to: 8 };
    let c = Interval { from: 9, to: 12 };

    assert!(a.joinable(b));
    assert!(!a.joinable(c));
    assert_eq!(a.hull(b), Interval { from: 0, to: 8 });
    assert_eq!(a.hull(c), Interval { from: 0, to: 12 });
    assert!(!a.contains(4));
    assert!(a.contains(3));
}

#[test]
fn test_alloc() {
    let mut a = BumpPointerAlloc::new(0x1000, 0x2000, 0x10);

    assert_eq!(a.allocate(0x10), Some(0x1000));
    assert_eq!(a.allocate(0x1), Some(0x1010));
    assert_eq!(a.allocate(0x1), Some(0x1020));
    assert_eq!(a.allocate(0x1000), None);
}

#[test]
fn test_chained_alloc() {
    let mut a = ChainedAlloc::new(vec![
        BumpPointerAlloc::new(0x1000, 0x1040, 0x10),
        BumpPointerAlloc::new(0x2000, 0x2020, 0x10),
    ]);

    assert_eq!(a.allocate(0x10), Some(0x1000));
    assert_eq!(a.allocate(0x20), Some(0x1010));
    assert_eq!(a.allocate(0x20), Some(0x2000));
    assert_eq!(a.allocate(0x20), None);
}
