//! Align-and-bump allocation from a list of free physical ranges.

use vstd::prelude::*;

verus! {

/// The interface of an allocator that hands out addresses and never frees.
///
/// Each implementor states, as spec functions, which address an allocation
/// returns and how the allocator state evolves; `alloc` is bound to both.
pub trait SimpleAlloc: Sized {
    /// The allocator's internal invariant.
    spec fn wf(&self) -> bool;

    /// The address that the next allocation of `size` bytes returns, if any.
    spec fn spec_alloc(&self, size: u64) -> Option<u64>;

    /// How the allocator state after an allocation of `size` bytes relates to
    /// the state before.
    spec fn spec_after_alloc(&self, size: u64, next: &Self) -> bool;

    /// Allocate a piece of memory from the allocator. The actual allocator type
    /// determines the alignment; page alignment is the smallest that makes sense.
    fn allocate(&mut self, size: u64) -> (r: Option<u64>)
        requires
            old(self).wf(),
        ensures
            final(self).wf(),
            r == old(self).spec_alloc(size),
            old(self).spec_after_alloc(size, final(self)),
    ;
}

/// A simple bump pointer allocator for regions that never have to be freed.
#[derive(Debug, Clone, Copy, PartialEq, Eq, Structural)]
pub struct BumpPointerAlloc {
    pub current: u64,
    pub min_align: u64,
    pub end: u64,
}

pub open spec fn spec_is_power_of_two(n: u64) -> bool {
    n > 0 && (n & (n - 1) as u64) == 0
}

pub fn is_power_of_two(n: u64) -> (r: bool)
    ensures
        r == spec_is_power_of_two(n),
{
    n > 0 && (n & (n - 1)) == 0
}

/// Clearing bits can lower a value by at most the mask.
pub proof fn lemma_align_down_lower_bound(y: u64, m: u64)
    by (bit_vector)
    ensures
        y & !m >= y - (y & m),
        y & m <= m,
{
}

/// An aligned-down value has no mask bits set.
pub proof fn lemma_align_down_aligned_pub(y: u64, m: u64)
    ensures
        ((y & !m) & m) == 0,
        y & !m <= y,
{
    lemma_align_down_aligned(y, m);
}

proof fn lemma_align_down_aligned(y: u64, m: u64)
    by (bit_vector)
    ensures
        ((y & !m) & m) == 0,
        y & !m <= y,
{
}

impl BumpPointerAlloc {
    /// The state after a successful allocation: the cursor moved to the next
    /// aligned position past the returned region.
    pub open spec fn spec_next_cursor(self, size: u64) -> int {
        let mask = (self.min_align - 1) as u64;
        ((self.current + size + mask) as u64 & !mask) as int
    }

    /// Whether an allocation of `size` bytes succeeds: the bumped cursor must
    /// neither overflow nor pass the end of the region.
    pub open spec fn spec_alloc_ok(self, size: u64) -> bool {
        let mask = (self.min_align - 1) as u64;
        &&& size + mask <= u64::MAX
        &&& self.current + size + mask <= u64::MAX
        &&& self.spec_next_cursor(size) <= self.end
    }

    pub fn new(start: u64, end: u64, min_align: u64) -> (r: BumpPointerAlloc)
        requires
            start <= end,
            spec_is_power_of_two(min_align),
            start & (min_align - 1) as u64 == 0,
        ensures
            r == (BumpPointerAlloc { current: start, min_align, end }),
            r.wf(),
    {
        BumpPointerAlloc { current: start, min_align, end }
    }
}

impl SimpleAlloc for BumpPointerAlloc {
    open spec fn wf(&self) -> bool {
        &&& spec_is_power_of_two(self.min_align)
        &&& self.current & (self.min_align - 1) as u64 == 0
    }

    open spec fn spec_alloc(&self, size: u64) -> Option<u64> {
        if self.spec_alloc_ok(size) {
            Some(self.current)
        } else {
            None
        }
    }

    open spec fn spec_after_alloc(&self, size: u64, next: &Self) -> bool {
        &&& next.min_align == self.min_align
        &&& next.end == self.end
        &&& next.current == if self.spec_alloc_ok(size) {
            self.spec_next_cursor(size)
        } else {
            self.current as int
        }
        &&& next.current >= self.current
        &&& self.spec_alloc_ok(size) && size > 0 ==> next.current >= self.current + size
    }

    /// Allocate a region of the given size, aligned as specified when the
    /// allocator was created.
    fn allocate(&mut self, size: u64) -> (r: Option<u64>)
    {
        let mask = self.min_align - 1;
        let bumped = match size.checked_add(mask) {
            Some(v) => v,
            None => {
                return None;
            },
        };
        let next_aligned = match self.current.checked_add(bumped) {
            Some(v) => v & !mask,
            None => {
                return None;
            },
        };
        proof {
            lemma_align_down_aligned((self.current + size + mask) as u64, mask);
            lemma_align_down_lower_bound((self.current + size + mask) as u64, mask);
        }
        if next_aligned <= self.end {
            let cur = self.current;
            self.current = next_aligned;
            Some(cur)
        } else {
            None
        }
    }
}

/// An allocator that allocates from discontiguous pieces. It uses one backend
/// until that is exhausted, then retires it and continues with the next.
pub struct ChainedAlloc<T: SimpleAlloc> {
    /// The allocators in reverse order: the first allocator to use is the last
    /// element, so that exhausted backends can be popped off cheaply.
    pub backends: Vec<T>,
}

/// The address an allocation returns from a chain of backends: the last
/// element of the sequence is tried first; on failure it is discarded.
pub open spec fn chain_alloc_result<T: SimpleAlloc>(s: Seq<T>, size: u64) -> Option<u64>
    decreases s.len(),
{
    if s.len() == 0 {
        None
    } else if s.last().spec_alloc(size) is Some {
        s.last().spec_alloc(size)
    } else {
        chain_alloc_result(s.drop_last(), size)
    }
}

/// How a chain of backends evolves over one allocation: exhausted backends are
/// popped; the backend that satisfies the request evolves by its own relation.
pub open spec fn chain_after_alloc<T: SimpleAlloc>(s: Seq<T>, size: u64, s2: Seq<T>) -> bool
    decreases s.len(),
{
    if s.len() == 0 {
        s2 == s
    } else if s.last().spec_alloc(size) is Some {
        &&& s2.len() == s.len()
        &&& s2.drop_last() == s.drop_last()
        &&& s.last().spec_after_alloc(size, &s2.last())
    } else {
        chain_after_alloc(s.drop_last(), size, s2)
    }
}

impl<T: SimpleAlloc> ChainedAlloc<T> {
    /// Build a chained allocator that serves allocations from `backends` in
    /// order: the first element is used first.
    pub fn new(backends: Vec<T>) -> (r: ChainedAlloc<T>)
        requires
            forall|i: int| 0 <= i < backends@.len() ==> #[trigger] backends@[i].wf(),
        ensures
            r.wf(),
            r.backends@ == backends@.reverse(),
    {
        let ghost orig = backends@;
        let mut rev: Vec<T> = Vec::new();
        let mut rest = backends;
        while rest.len() != 0
            invariant
                forall|i: int| 0 <= i < rest@.len() ==> #[trigger] rest@[i].wf(),
                forall|i: int| 0 <= i < rev@.len() ==> #[trigger] rev@[i].wf(),
                rev@ + rest@.reverse() == orig.reverse(),
            decreases rest@.len(),
        {
            if let Some(b) = rest.pop() {
                rev.push(b);
                proof {
                    assert(rev@ + rest@.reverse() =~= orig.reverse());
                }
            }
        }
        proof {
            assert(rest@.reverse() =~= Seq::<T>::empty());
            assert(rev@ + rest@.reverse() =~= rev@);
        }
        ChainedAlloc { backends: rev }
    }
}

impl<T: SimpleAlloc> SimpleAlloc for ChainedAlloc<T> {
    open spec fn wf(&self) -> bool {
        forall|i: int| 0 <= i < self.backends@.len() ==> #[trigger] self.backends@[i].wf()
    }

    open spec fn spec_alloc(&self, size: u64) -> Option<u64> {
        chain_alloc_result(self.backends@, size)
    }

    open spec fn spec_after_alloc(&self, size: u64, next: &Self) -> bool {
        chain_after_alloc(self.backends@, size, next.backends@)
    }

    fn allocate(&mut self, size: u64) -> (r: Option<u64>)
        decreases old(self).backends@.len(),
    {
        match self.backends.pop() {
            None => None,
            Some(mut a) => {
                match a.allocate(size) {
                    Some(v) => {
                        self.backends.push(a);
                        proof {
                            assert(self.backends@.drop_last() =~= old(self).backends@.drop_last());
                        }
                        Some(v)
                    },
                    None => {
                        // This backend is exhausted. Drop it and try the next.
                        self.allocate(size)
                    },
                }
            },
        }
    }
}

} // verus!
