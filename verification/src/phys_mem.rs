//! A model of the physical memory that will be part of the generated boot
//! image: an append-only list of chunks where later writes win, with
//! flattening, allocation of free space and deduplicated placement.

use vstd::prelude::*;

use crate::bump_ptr_alloc::{BumpPointerAlloc, ChainedAlloc, SimpleAlloc, chain_alloc_result,
    chain_after_alloc, lemma_align_down_lower_bound};
use crate::interval::Interval;
use vstd::slice::slice_to_vec;

verus! {

/// How a piece of data may be placed into physical memory.
#[derive(Debug, Copy, Clone)]
pub enum PlaceAs {
    /// Memory placed as unique needs to go to a previously unused piece of
    /// physical memory.
    Unique,
    /// Memory placed as shareable is considered immutable and can be reused
    /// for other placements of the same bytes.
    Shareable,
}

/// A piece of memory content at a definite physical address.
#[derive(Debug)]
pub struct Chunk {
    pub paddr: u64,
    pub data: Vec<u8>,
}

impl View for Chunk {
    type V = (int, Seq<u8>);

    open spec fn view(&self) -> (int, Seq<u8>) {
        (self.paddr as int, self.data@)
    }
}

/// Whether the chunk at index `i` covers address `a`.
pub open spec fn covers_at(m: Seq<(int, Seq<u8>)>, i: int, a: int) -> bool {
    m[i].0 <= a < m[i].0 + m[i].1.len()
}

/// Whether any chunk covers address `a`.
pub open spec fn covered(m: Seq<(int, Seq<u8>)>, a: int) -> bool {
    exists|i: int| 0 <= i < m.len() && #[trigger] covers_at(m, i, a)
}

/// The byte visible at address `a`: the latest chunk covering `a` wins, and
/// addresses no chunk covers read as zero.
pub open spec fn mem_byte(m: Seq<(int, Seq<u8>)>, a: int) -> u8
    decreases m.len(),
{
    if m.len() == 0 {
        0
    } else if covers_at(m, m.len() - 1, a) {
        m.last().1[a - m.last().0]
    } else {
        mem_byte(m.drop_last(), a)
    }
}

/// The total number of bytes stored in all chunks.
pub open spec fn mem_stored(m: Seq<(int, Seq<u8>)>) -> int
    decreases m.len(),
{
    if m.len() == 0 {
        0
    } else {
        mem_stored(m.drop_last()) + m.last().1.len()
    }
}

/// Every chunk ends within the 64-bit address space.
pub open spec fn mem_wf(m: Seq<(int, Seq<u8>)>) -> bool {
    forall|i: int| 0 <= i < m.len() ==> (#[trigger] m[i]).0 + m[i].1.len() <= u64::MAX
        && m[i].0 >= 0
}

/// The chunks are non-empty, in ascending address order, and pairwise neither
/// overlapping nor adjacent.
pub open spec fn mem_flat(m: Seq<(int, Seq<u8>)>) -> bool {
    &&& forall|i: int| 0 <= i < m.len() ==> (#[trigger] m[i]).1.len() > 0
    &&& forall|i: int| 0 <= i < m.len() - 1 ==> (#[trigger] m[i]).0 + m[i].1.len() < m[i + 1].0
}

/// An address no chunk covers reads as zero.
proof fn lemma_uncovered_byte_zero(m: Seq<(int, Seq<u8>)>, a: int)
    requires
        !covered(m, a),
    ensures
        mem_byte(m, a) == 0,
    decreases m.len(),
{
    if m.len() > 0 {
        assert(!covers_at(m, m.len() - 1, a));
        assert(forall|i: int| 0 <= i < m.len() - 1 && #[trigger] covers_at(m.drop_last(), i, a)
            ==> covers_at(m, i, a));
        lemma_uncovered_byte_zero(m.drop_last(), a);
    }
}

/// The chunks occupy pairwise disjoint address ranges.
pub open spec fn chunks_disjoint(m: Seq<(int, Seq<u8>)>) -> bool {
    forall|x: int, y: int|
        #![trigger m[x], m[y]]
        0 <= x < y < m.len() ==> m[x].0 + m[x].1.len() <= m[y].0 || m[y].0 + m[y].1.len() <= m[x].0
}

/// In a memory whose chunks are pairwise disjoint, the chunk covering an
/// address supplies its byte.
proof fn lemma_disjoint_byte(m: Seq<(int, Seq<u8>)>, i: int, a: int)
    requires
        chunks_disjoint(m),
        0 <= i < m.len(),
        covers_at(m, i, a),
    ensures
        mem_byte(m, a) == m[i].1[a - m[i].0],
    decreases m.len(),
{
    if i == m.len() - 1 {
        assert(covers_at(m, m.len() - 1, a));
    } else {
        assert(!covers_at(m, m.len() - 1, a));
        assert(covers_at(m.drop_last(), i, a));
        lemma_disjoint_byte(m.drop_last(), i, a);
    }
}

/// A memory abstraction that allows reading and writing.
#[derive(Debug)]
pub struct Memory {
    pub chunks: Vec<Chunk>,
}

impl View for Memory {
    type V = Seq<(int, Seq<u8>)>;

    open spec fn view(&self) -> Seq<(int, Seq<u8>)> {
        self.chunks@.map_values(|c: Chunk| c@)
    }
}

impl Default for Memory {
    /// A fresh memory holds no chunks; every address reads as zero.
    fn default() -> (r: Memory)
        ensures
            r@ == Seq::<(int, Seq<u8>)>::empty(),
    {
        Memory { chunks: Vec::new() }
    }
}

impl Memory {
    pub open spec fn wf(&self) -> bool {
        mem_wf(self@)
    }

    /// Record `data` at physical address `paddr`. A later write to an
    /// overlapping range wins over this one.
    pub fn write(&mut self, paddr: u64, data: &[u8])
        requires
            old(self).wf(),
            paddr + data@.len() <= u64::MAX,
        ensures
            final(self).wf(),
            final(self)@ == old(self)@.push((paddr as int, data@)),
    {
        let d: Vec<u8> = slice_to_vec(data);
        self.chunks.push(Chunk { paddr, data: d });
        proof {
            assert(self@ =~= old(self)@.push((paddr as int, data@)));
        }
    }

    /// The byte visible at address `a`: later writes win, unwritten addresses
    /// read as zero.
    pub fn read_byte(&self, a: u64) -> (r: u8)
        ensures
            r == mem_byte(self@, a as int),
    {
        let mut k = self.chunks.len();
        proof {
            assert(self@.take(k as int) =~= self@);
        }
        while k > 0
            invariant
                k <= self.chunks.len(),
                mem_byte(self@, a as int) == mem_byte(self@.take(k as int), a as int),
            decreases k,
        {
            let c = &self.chunks[k - 1];
            proof {
                assert(self@.take(k as int).drop_last() =~= self@.take(k - 1));
                assert(self@.take(k as int).last() == self@[k - 1]);
            }
            if c.paddr <= a && a - c.paddr < c.data.len() as u64 {
                assert(covers_at(self@.take(k as int), k - 1, a as int));
                return c.data[(a - c.paddr) as usize];
            }
            assert(!covers_at(self@.take(k as int), k - 1, a as int));
            k = k - 1;
        }
        proof {
            assert(self@.take(0) =~= Seq::<(int, Seq<u8>)>::empty());
        }
        0
    }

    /// Read `size` bytes starting at `paddr`. Returns zeros for locations that
    /// have never been written.
    pub fn read(&self, paddr: u64, size: u64) -> (r: Vec<u8>)
        requires
            paddr + size <= u64::MAX,
            size <= usize::MAX,
        ensures
            r@.len() == size,
            forall|i: int| 0 <= i < size ==> r@[i] == mem_byte(self@, paddr + i),
    {
        let mut out: Vec<u8> = Vec::new();
        let n = size as usize;
        let mut i: usize = 0;
        while i < n
            invariant
                n == size,
                paddr + size <= u64::MAX,
                i <= n,
                out@.len() == i,
                forall|j: int| 0 <= j < i ==> out@[j] == mem_byte(self@, paddr + j),
            decreases n - i,
        {
            let b = self.read_byte(paddr + i as u64);
            out.push(b);
            i = i + 1;
        }
        out
    }

    /// The amount of memory stored so far, over all chunks.
    pub fn size(&self) -> (r: u64)
        requires
            mem_stored(self@) <= u64::MAX,
        ensures
            r == mem_stored(self@),
    {
        let mut total: u64 = 0;
        let mut i: usize = 0;
        proof {
            lemma_mem_stored_monotone(self@);
        }
        while i < self.chunks.len()
            invariant
                i <= self.chunks.len(),
                total == mem_stored(self@.take(i as int)),
                mem_stored(self@) <= u64::MAX,
                forall|k: int| 0 <= k <= self@.len() ==> #[trigger] mem_stored(self@.take(k))
                    <= mem_stored(self@),
            decreases self.chunks.len() - i,
        {
            proof {
                assert(self@.take(i + 1).drop_last() =~= self@.take(i as int));
                assert(self@.take(i + 1).last() == self@[i as int]);
                assert(mem_stored(self@.take(i + 1)) <= mem_stored(self@));
            }
            total = total + self.chunks[i].data.len() as u64;
            i = i + 1;
        }
        proof {
            assert(self@.take(self@.len() as int) =~= self@);
        }
        total
    }
}

/// Whether the interval at index `i` covers address `a`.
pub open spec fn ivl_covers_at(s: Seq<Interval>, i: int, a: int) -> bool {
    s[i].from <= a < s[i].to
}

/// Whether any interval covers address `a`.
pub open spec fn ivl_covered(s: Seq<Interval>, a: int) -> bool {
    exists|i: int| 0 <= i < s.len() && #[trigger] ivl_covers_at(s, i, a)
}

/// The intervals are in ascending order of their start.
pub open spec fn ivls_sorted(s: Seq<Interval>) -> bool {
    forall|i: int, j: int| #![trigger s[i], s[j]] 0 <= i < j < s.len() ==> s[i].from <= s[j].from
}

/// The intervals start at strictly ascending addresses.
pub open spec fn ivls_strict(s: Seq<Interval>) -> bool {
    forall|i: int, j: int| #![trigger s[i], s[j]] 0 <= i < j < s.len() ==> s[i].from < s[j].from
}

/// The intervals are non-empty, ordered, and pairwise neither overlapping nor
/// adjacent.
pub open spec fn ivls_separated(s: Seq<Interval>) -> bool {
    &&& forall|i: int| 0 <= i < s.len() ==> (#[trigger] s[i]).from < s[i].to
    &&& forall|i: int| 0 <= i < s.len() - 1 ==> (#[trigger] s[i]).to < s[i + 1].from
}

/// The total number of addresses the intervals cover, duplicates counted.
pub open spec fn ivls_total(s: Seq<Interval>) -> int
    decreases s.len(),
{
    if s.len() == 0 {
        0
    } else {
        ivls_total(s.drop_last()) + s.last().spec_size()
    }
}

/// The chunk intervals of a memory, one per chunk, in chunk order.
pub open spec fn chunk_ivls(m: Seq<(int, Seq<u8>)>) -> Seq<Interval> {
    m.map_values(|c: (int, Seq<u8>)| Interval { from: c.0 as u64, to: (c.0 + c.1.len()) as u64 })
}

proof fn lemma_ivls_total_nonneg(s: Seq<Interval>)
    ensures
        ivls_total(s) >= 0,
    decreases s.len(),
{
    if s.len() > 0 {
        lemma_ivls_total_nonneg(s.drop_last());
    }
}

proof fn lemma_ivls_total_insert(s: Seq<Interval>, p: int, c: Interval)
    requires
        0 <= p <= s.len(),
    ensures
        ivls_total(s.insert(p, c)) == ivls_total(s) + c.spec_size(),
    decreases s.len(),
{
    if p == s.len() {
        assert(s.insert(p, c) =~= s.push(c));
        assert(s.push(c).drop_last() =~= s);
    } else {
        assert(s.insert(p, c).drop_last() =~= s.drop_last().insert(p, c));
        assert(s.insert(p, c).last() == s.last());
        lemma_ivls_total_insert(s.drop_last(), p, c);
    }
}

/// No interval is larger than the total of its sequence.
proof fn lemma_ivls_total_elem(s: Seq<Interval>, q: int)
    requires
        0 <= q < s.len(),
    ensures
        s[q].spec_size() <= ivls_total(s),
    decreases s.len(),
{
    if q == s.len() - 1 {
        lemma_ivls_total_nonneg(s.drop_last());
    } else {
        lemma_ivls_total_elem(s.drop_last(), q);
    }
}

/// Coverage by a pushed interval sequence splits into old coverage and the new
/// interval.
proof fn lemma_ivl_covered_push(s: Seq<Interval>, x: Interval, a: int)
    ensures
        ivl_covered(s.push(x), a) == (ivl_covered(s, a) || (x.from <= a < x.to)),
{
    if ivl_covered(s.push(x), a) {
        let i = choose|i: int| 0 <= i < s.push(x).len() && #[trigger] ivl_covers_at(s.push(x), i, a);
        if i < s.len() {
            assert(ivl_covers_at(s, i, a));
        }
    }
    if ivl_covered(s, a) {
        let i = choose|i: int| 0 <= i < s.len() && #[trigger] ivl_covers_at(s, i, a);
        assert(ivl_covers_at(s.push(x), i, a));
    }
    if x.from <= a < x.to {
        assert(ivl_covers_at(s.push(x), s.len() as int, a));
    }
}

/// Coverage by a pushed chunk sequence splits in the same way.
proof fn lemma_covered_push(m: Seq<(int, Seq<u8>)>, x: (int, Seq<u8>), a: int)
    ensures
        covered(m.push(x), a) == (covered(m, a) || (x.0 <= a < x.0 + x.1.len())),
{
    if covered(m.push(x), a) {
        let i = choose|i: int| 0 <= i < m.push(x).len() && #[trigger] covers_at(m.push(x), i, a);
        if i < m.len() {
            assert(covers_at(m, i, a));
        }
    }
    if covered(m, a) {
        let i = choose|i: int| 0 <= i < m.len() && #[trigger] covers_at(m, i, a);
        assert(covers_at(m.push(x), i, a));
    }
    if x.0 <= a < x.0 + x.1.len() {
        assert(covers_at(m.push(x), m.len() as int, a));
    }
}

/// Permuted interval sequences cover the same addresses.
proof fn lemma_perm_coverage(s1: Seq<Interval>, s2: Seq<Interval>, a: int)
    requires
        s1.to_multiset() == s2.to_multiset(),
    ensures
        ivl_covered(s1, a) == ivl_covered(s2, a),
{
    broadcast use vstd::seq_lib::group_to_multiset_ensures;

    if ivl_covered(s1, a) {
        let i = choose|i: int| 0 <= i < s1.len() && #[trigger] ivl_covers_at(s1, i, a);
        assert(s1.contains(s1[i]));
        assert(s1.to_multiset().count(s1[i]) > 0);
        assert(s2.to_multiset().count(s1[i]) > 0);
        assert(s2.contains(s1[i]));
        let j = choose|j: int| 0 <= j < s2.len() && s2[j] == s1[i];
        assert(ivl_covers_at(s2, j, a));
    }
    if ivl_covered(s2, a) {
        let i = choose|i: int| 0 <= i < s2.len() && #[trigger] ivl_covers_at(s2, i, a);
        assert(s2.contains(s2[i]));
        assert(s2.to_multiset().count(s2[i]) > 0);
        assert(s1.to_multiset().count(s2[i]) > 0);
        assert(s1.contains(s2[i]));
        let j = choose|j: int| 0 <= j < s1.len() && s1[j] == s2[i];
        assert(ivl_covers_at(s1, j, a));
    }
}

/// A sorted arrangement of intervals with strictly ascending starts is unique.
proof fn lemma_sorted_perm_eq(a: Seq<Interval>, b: Seq<Interval>)
    requires
        ivls_sorted(a),
        ivls_strict(a),
        ivls_sorted(b),
        a.to_multiset() == b.to_multiset(),
    ensures
        a == b,
    decreases a.len(),
{
    broadcast use vstd::seq_lib::group_to_multiset_ensures;

    assert(a.len() == a.to_multiset().len());
    assert(b.len() == b.to_multiset().len());
    if a.len() == 0 {
        assert(a =~= b);
    } else {
        let last = a.len() - 1;
        assert(b.contains(b[last]));
        assert(b.to_multiset().count(b[last]) > 0);
        assert(a.to_multiset().count(b[last]) > 0);
        assert(a.contains(b[last]));
        let i = choose|i: int| 0 <= i < a.len() && a[i] == b[last];
        assert(a.contains(a[last]));
        assert(a.to_multiset().count(a[last]) > 0);
        assert(b.to_multiset().count(a[last]) > 0);
        assert(b.contains(a[last]));
        let j = choose|j: int| 0 <= j < b.len() && b[j] == a[last];
        assert(b[last].from >= b[j].from);
        assert(a[last].from >= a[i].from);
        assert(a[i].from == a[last].from);
        assert(i == last);
        assert(a[last] == b[last]);
        assert(a.drop_last() =~= a.remove(last));
        assert(b.drop_last() =~= b.remove(last));
        assert(a.drop_last().to_multiset() =~= b.drop_last().to_multiset());
        assert(ivls_sorted(a.drop_last())) by {
            assert(forall|x: int, y: int|
                #![trigger a.drop_last()[x], a.drop_last()[y]]
                0 <= x < y < last ==> a.drop_last()[x] == a[x] && a.drop_last()[y] == a[y]);
        }
        assert(ivls_strict(a.drop_last())) by {
            assert(forall|x: int, y: int|
                #![trigger a.drop_last()[x], a.drop_last()[y]]
                0 <= x < y < last ==> a.drop_last()[x] == a[x] && a.drop_last()[y] == a[y]);
        }
        assert(ivls_sorted(b.drop_last())) by {
            assert(forall|x: int, y: int|
                #![trigger b.drop_last()[x], b.drop_last()[y]]
                0 <= x < y < last ==> b.drop_last()[x] == b[x] && b.drop_last()[y] == b[y]);
        }
        lemma_sorted_perm_eq(a.drop_last(), b.drop_last());
        assert(a.len() == b.len());
        assert forall|x: int| 0 <= x < a.len() implies a[x] == b[x] by {
            if x < last {
                assert(a.drop_last()[x] == a[x]);
                assert(b.drop_last()[x] == b[x]);
            }
        }
        assert(a =~= b);
    }
}

/// In a flat memory the chunks lie in strictly ascending, disjoint ranges.
proof fn lemma_flat_ordered(m: Seq<(int, Seq<u8>)>, x: int, y: int)
    requires
        mem_flat(m),
        0 <= x < y < m.len(),
    ensures
        m[x].0 + m[x].1.len() < m[y].0,
    decreases y - x,
{
    if y > x + 1 {
        lemma_flat_ordered(m, x, y - 1);
    }
}

proof fn lemma_flat_disjoint(m: Seq<(int, Seq<u8>)>)
    requires
        mem_flat(m),
    ensures
        chunks_disjoint(m),
{
    assert forall|x: int, y: int| #![trigger m[x], m[y]] 0 <= x < y < m.len() implies m[x].0
        + m[x].1.len() <= m[y].0 || m[y].0 + m[y].1.len() <= m[x].0 by {
        lemma_flat_ordered(m, x, y);
    }
}

/// Intervals that are separated start at strictly ascending addresses.
proof fn lemma_separated_strict(s: Seq<Interval>)
    requires
        ivls_separated(s),
    ensures
        ivls_strict(s),
        ivls_sorted(s),
{
    assert forall|i: int, j: int| #![trigger s[i], s[j]] 0 <= i < j < s.len() implies s[i].from
        < s[j].from by {
        lemma_separated_ordered(s, i, j);
    }
}

proof fn lemma_separated_ordered(s: Seq<Interval>, x: int, y: int)
    requires
        ivls_separated(s),
        0 <= x < y < s.len(),
    ensures
        s[x].to < s[y].from,
        s[x].from < s[y].from,
    decreases y - x,
{
    if y > x + 1 {
        lemma_separated_ordered(s, x, y - 1);
    }
}

/// Sort intervals by their start address, stably enough for this module: the
/// result is ordered and holds the same intervals.
fn sorted_by_from(v: &Vec<Interval>) -> (r: Vec<Interval>)
    ensures
        ivls_sorted(r@),
        r@.to_multiset() == v@.to_multiset(),
        ivls_total(r@) == ivls_total(v@),
{
    let mut out: Vec<Interval> = Vec::new();
    let mut k: usize = 0;
    proof {
        broadcast use vstd::seq_lib::group_to_multiset_ensures;

        assert(v@.take(0) =~= Seq::<Interval>::empty());
        assert(out@.to_multiset() =~= v@.take(0).to_multiset());
    }
    while k < v.len()
        invariant
            k <= v@.len(),
            ivls_sorted(out@),
            out@.to_multiset() == v@.take(k as int).to_multiset(),
            ivls_total(out@) == ivls_total(v@.take(k as int)),
        decreases v@.len() - k,
    {
        let c = v[k];
        let mut p: usize = 0;
        while p < out.len() && out[p].from <= c.from
            invariant
                p <= out@.len(),
                forall|q: int| 0 <= q < p ==> (#[trigger] out@[q]).from <= c.from,
            decreases out@.len() - p,
        {
            p = p + 1;
        }
        let ghost pre = out@;
        out.insert(p, c);
        proof {
            broadcast use vstd::seq_lib::group_to_multiset_ensures;

            assert(ivls_sorted(out@)) by {
                assert forall|x: int, y: int|
                    #![trigger out@[x], out@[y]]
                    0 <= x < y < out@.len() implies out@[x].from <= out@[y].from by {
                    if y < p {
                        assert(out@[x] == pre[x] && out@[y] == pre[y]);
                    } else if y == p {
                        assert(out@[x] == pre[x]);
                    } else if x < p {
                        assert(out@[x] == pre[x] && out@[y] == pre[y - 1]);
                        if x < p <= y - 1 {
                            if p < pre.len() {
                                assert(pre[p - 1 + 1].from > c.from || p == x + 1);
                            }
                        }
                    } else if x == p {
                        assert(out@[y] == pre[y - 1]);
                        assert(pre[p as int].from > c.from);
                        assert(pre[y - 1].from >= pre[p as int].from);
                    } else {
                        assert(out@[x] == pre[x - 1] && out@[y] == pre[y - 1]);
                    }
                }
            }
            assert(v@.take(k + 1).drop_last() =~= v@.take(k as int));
            assert(v@.take(k + 1) =~= v@.take(k as int).push(v@[k as int]));
            lemma_ivls_total_insert(pre, p as int, c);
        }
        k = k + 1;
    }
    proof {
        assert(v@.take(v@.len() as int) =~= v@);
    }
    out
}

/// One joining step: replacing the last interval with the hull of it and a
/// joinable successor keeps coverage in step with appending the successor.
proof fn lemma_join_hull_cov(pre: Seq<Interval>, prefix: Seq<Interval>, c: Interval, a: int)
    requires
        pre.len() > 0,
        ivls_separated(pre),
        c.from < c.to,
        c.from >= pre.last().from,
        pre.last().spec_joinable(c),
        ivl_covered(pre, a) == ivl_covered(prefix, a),
    ensures
        ivl_covered(pre.drop_last().push(pre.last().spec_hull(c)), a) == ivl_covered(
            prefix.push(c),
            a,
        ),
{
    let last = pre.last();
    let h = last.spec_hull(c);
    lemma_ivl_covered_push(pre.drop_last(), h, a);
    lemma_ivl_covered_push(pre.drop_last(), last, a);
    lemma_ivl_covered_push(prefix, c, a);
    assert(pre.drop_last().push(last) =~= pre);
    assert(pre[pre.len() - 1] == last);
    assert(last.from < last.to);
    assert(c.from <= last.to);
    assert((h.from <= a < h.to) == ((last.from <= a < last.to) || (c.from <= a < c.to)));
}

/// Join a sorted list of non-empty intervals into a separated list covering
/// the same addresses. An already separated list passes through unchanged.
#[verifier::rlimit(50)]
fn join_sorted(ivls: &Vec<Interval>) -> (r: Vec<Interval>)
    requires
        ivls_sorted(ivls@),
        forall|q: int| 0 <= q < ivls@.len() ==> (#[trigger] ivls@[q]).from < ivls@[q].to,
    ensures
        ivls_separated(r@),
        forall|a: int| ivl_covered(r@, a) == ivl_covered(ivls@, a),
        ivls_total(r@) <= ivls_total(ivls@),
        ivls_separated(ivls@) ==> r@ == ivls@,
{
    let mut joined: Vec<Interval> = Vec::new();
    let mut k: usize = 0;
    proof {
        assert(ivls@.take(0) =~= Seq::<Interval>::empty());
        lemma_ivls_total_nonneg(ivls@.take(0));
    }
    while k < ivls.len()
        invariant
            k <= ivls@.len(),
            ivls_sorted(ivls@),
            forall|q: int| 0 <= q < ivls@.len() ==> (#[trigger] ivls@[q]).from < ivls@[q].to,
            ivls_separated(joined@),
            forall|a: int| ivl_covered(joined@, a) == ivl_covered(ivls@.take(k as int), a),
            ivls_total(joined@) <= ivls_total(ivls@.take(k as int)),
            joined@.len() > 0 ==> forall|j: int|
                k <= j < ivls@.len() ==> joined@.last().from <= (#[trigger] ivls@[j]).from,
            joined@.len() == 0 ==> k == 0,
            ivls_separated(ivls@) ==> joined@ == ivls@.take(k as int),
        decreases ivls@.len() - k,
    {
        let c = ivls[k];
        let ghost pre = joined@;
        let ghost prefix = ivls@.take(k as int);
        proof {
            assert(ivls@.take(k + 1).drop_last() =~= prefix);
            assert(ivls@.take(k + 1) =~= prefix.push(ivls@[k as int]));
        }
        match joined.pop() {
            None => {
                joined.push(c);
                proof {
                    assert(pre =~= Seq::<Interval>::empty());
                    assert(joined@ =~= pre.push(c));
                    assert(joined@.drop_last() =~= pre);
                    assert(ivls_total(joined@) == ivls_total(pre) + c.spec_size());
                    assert(ivls_total(ivls@.take(k + 1)) == ivls_total(prefix)
                        + ivls@[k as int].spec_size());
                    assert forall|a: int| ivl_covered(joined@, a) == ivl_covered(
                        ivls@.take(k + 1),
                        a,
                    ) by {
                        lemma_ivl_covered_push(pre, c, a);
                        lemma_ivl_covered_push(prefix, c, a);
                        assert(ivl_covered(pre, a) == ivl_covered(prefix, a));
                    }
                    if ivls_separated(ivls@) {
                        assert(joined@ =~= ivls@.take(k + 1));
                    }
                }
            },
            Some(last) => {
                if last.joinable(c) {
                    let h = last.hull(c);
                    joined.push(h);
                    proof {
                        assert(joined@ =~= pre.drop_last().push(h));
                        assert(pre.len() > 0 && last == pre.last());
                        assert(pre[pre.len() - 1] == last);
                        assert(last.from < last.to);
                        assert(c == ivls@[k as int]);
                        assert(c.from < c.to);
                        // The hull of joinable intervals covers exactly their union.
                        assert(c.from >= last.from);
                        assert(c.from <= last.to);
                        assert(h == last.spec_hull(c));
                        assert forall|a: int| ivl_covered(joined@, a) == ivl_covered(
                            ivls@.take(k + 1),
                            a,
                        ) by {
                            lemma_join_hull_cov(pre, prefix, c, a);
                        }
                        assert(ivls_separated(joined@)) by {
                            assert(forall|i: int| 0 <= i < pre.len() - 1 ==> (#[trigger] pre[i]).to
                                < pre[i + 1].from);
                            assert(forall|i: int| 0 <= i < joined@.len() - 1 ==> joined@[i]
                                == pre[i]);
                        }
                        assert(ivls_total(joined@) <= ivls_total(ivls@.take(k + 1))) by {
                            assert(joined@.drop_last() =~= pre.drop_last());
                            assert(ivls_total(pre) == ivls_total(pre.drop_last())
                                + last.spec_size());
                            assert(ivls_total(ivls@.take(k + 1)) == ivls_total(prefix)
                                + c.spec_size());
                            assert(h.spec_size() <= last.spec_size() + c.spec_size());
                        }
                        if ivls_separated(ivls@) {
                            // Separated input never reaches the joining branch.
                            assert(pre == prefix);
                            assert(pre.last() == ivls@[k - 1]);
                            assert(ivls@[k - 1].to < ivls@[k as int].from);
                            assert(false);
                        }
                    }
                } else {
                    joined.push(last);
                    joined.push(c);
                    proof {
                        assert(joined@ =~= pre.push(c));
                        // Not joinable and ordered: c starts past the last interval.
                        assert(c.from >= last.from);
                        assert(c.from > last.to);
                        assert forall|a: int| ivl_covered(joined@, a) == ivl_covered(
                            ivls@.take(k + 1),
                            a,
                        ) by {
                            lemma_ivl_covered_push(pre, c, a);
                            lemma_ivl_covered_push(prefix, c, a);
                            assert(ivl_covered(pre, a) == ivl_covered(prefix, a));
                        }
                        assert(ivls_separated(joined@)) by {
                            assert(forall|i: int| 0 <= i < joined@.len() - 1 ==> (i < pre.len() - 1
                                ==> joined@[i] == pre[i]) && (i == pre.len() - 1 ==> joined@[i]
                                == pre.last()));
                        }
                        assert(ivls_total(joined@) == ivls_total(pre) + c.spec_size()) by {
                            assert(joined@.drop_last() =~= pre);
                        }
                        assert(ivls_total(ivls@.take(k + 1)) == ivls_total(prefix)
                            + c.spec_size());
                        if ivls_separated(ivls@) {
                            assert(pre == prefix);
                            assert(joined@ =~= ivls@.take(k + 1));
                        }
                    }
                }
            },
        }
        k = k + 1;
    }
    proof {
        assert(ivls@.take(ivls@.len() as int) =~= ivls@);
    }
    joined
}

/// For an already flat memory the whole flattening pipeline is the identity.
#[verifier::spinoff_prover]
proof fn lemma_flatten_flat_summary(
    sv: Seq<(int, Seq<u8>)>,
    iv: Seq<Interval>,
    so: Seq<Interval>,
    jv: Seq<Interval>,
    rv: Seq<(int, Seq<u8>)>,
)
    requires
        mem_flat(sv),
        mem_wf(sv),
        iv == chunk_ivls(sv),
        ivls_sorted(so),
        so.to_multiset() == iv.to_multiset(),
        ivls_separated(so) ==> jv == so,
        rv.len() == jv.len(),
        forall|x: int| 0 <= x < rv.len() ==> (#[trigger] rv[x]).0 == jv[x].from
            && rv[x].1.len() == jv[x].spec_size(),
        forall|x: int, off: int|
            #![trigger rv[x].1[off]]
            0 <= x < rv.len() && 0 <= off < jv[x].spec_size() ==> rv[x].1[off] == mem_byte(
                sv,
                jv[x].from + off,
            ),
    ensures
        rv == sv,
{
    lemma_flat_sort_identity(sv, iv, so);
    lemma_flatten_flat_identity(sv, jv, rv);
}

/// Elements keep their non-emptiness through a permutation.
proof fn lemma_perm_elements_nonempty(iv: Seq<Interval>, so: Seq<Interval>)
    requires
        so.to_multiset() == iv.to_multiset(),
        forall|q: int| 0 <= q < iv.len() ==> (#[trigger] iv[q]).from < iv[q].to,
    ensures
        forall|q: int| 0 <= q < so.len() ==> (#[trigger] so[q]).from < so[q].to,
{
    broadcast use vstd::seq_lib::group_to_multiset_ensures;

    assert forall|q: int| 0 <= q < so.len() implies (#[trigger] so[q]).from < so[q].to by {
        assert(so.contains(so[q]));
        assert(so.to_multiset().count(so[q]) > 0);
        assert(iv.to_multiset().count(so[q]) > 0);
        assert(iv.contains(so[q]));
        let x = choose|x: int| 0 <= x < iv.len() && iv[x] == so[q];
        assert(iv[x].from < iv[x].to);
    }
}

/// The chunk intervals of a flat memory are separated, so sorting them is the
/// identity.
proof fn lemma_flat_sort_identity(sv: Seq<(int, Seq<u8>)>, iv: Seq<Interval>, so: Seq<Interval>)
    requires
        mem_flat(sv),
        mem_wf(sv),
        iv == chunk_ivls(sv),
        ivls_sorted(so),
        so.to_multiset() == iv.to_multiset(),
    ensures
        so == iv,
        ivls_separated(so),
{
    assert(ivls_separated(iv)) by {
        assert forall|q: int| 0 <= q < iv.len() implies (#[trigger] iv[q]).from < iv[q].to by {
            assert(sv[q].1.len() > 0);
        }
        assert forall|q: int| 0 <= q < iv.len() - 1 implies (#[trigger] iv[q]).to < iv[q
            + 1].from by {
            assert(sv[q].0 + sv[q].1.len() < sv[q + 1].0);
        }
    }
    lemma_separated_strict(iv);
    lemma_sorted_perm_eq(iv, so);
}

/// Rebuilt chunks over separated intervals read like the memory they were
/// read from, and cover the same addresses.
proof fn lemma_flatten_result(
    sv: Seq<(int, Seq<u8>)>,
    iv: Seq<Interval>,
    so: Seq<Interval>,
    jv: Seq<Interval>,
    rv: Seq<(int, Seq<u8>)>,
)
    requires
        mem_wf(sv),
        forall|a: int| ivl_covered(iv, a) == covered(sv, a),
        so.to_multiset() == iv.to_multiset(),
        ivls_separated(jv),
        forall|a: int| ivl_covered(jv, a) == ivl_covered(so, a),
        rv.len() == jv.len(),
        forall|x: int| 0 <= x < rv.len() ==> (#[trigger] rv[x]).0 == jv[x].from
            && rv[x].1.len() == jv[x].spec_size(),
        forall|x: int, off: int|
            #![trigger rv[x].1[off]]
            0 <= x < rv.len() && 0 <= off < jv[x].spec_size() ==> rv[x].1[off] == mem_byte(
                sv,
                jv[x].from + off,
            ),
    ensures
        mem_wf(rv),
        mem_flat(rv),
        forall|a: int| mem_byte(rv, a) == mem_byte(sv, a),
        forall|a: int| covered(rv, a) == covered(sv, a),
{
    assert(mem_flat(rv)) by {
        assert forall|x: int| 0 <= x < rv.len() implies (#[trigger] rv[x]).1.len() > 0 by {
            assert(jv[x].from < jv[x].to);
        }
        assert forall|x: int| 0 <= x < rv.len() - 1 implies (#[trigger] rv[x]).0 + rv[x].1.len()
            < rv[x + 1].0 by {
            assert(jv[x].from < jv[x].to);
            assert(jv[x].to < jv[x + 1].from);
        }
    }
    lemma_flat_disjoint(rv);
    assert forall|a: int| covered(rv, a) == covered(sv, a) by {
        lemma_perm_coverage(iv, so, a);
        if covered(rv, a) {
            let x = choose|x: int| 0 <= x < rv.len() && #[trigger] covers_at(rv, x, a);
            assert(jv[x].from < jv[x].to);
            assert(ivl_covers_at(jv, x, a));
        }
        if ivl_covered(jv, a) {
            let x = choose|x: int| 0 <= x < jv.len() && #[trigger] ivl_covers_at(jv, x, a);
            assert(covers_at(rv, x, a));
        }
    }
    assert forall|a: int| mem_byte(rv, a) == mem_byte(sv, a) by {
        if covered(rv, a) {
            let x = choose|x: int| 0 <= x < rv.len() && #[trigger] covers_at(rv, x, a);
            lemma_disjoint_byte(rv, x, a);
            assert(rv[x].1[a - rv[x].0] == mem_byte(sv, jv[x].from + (a - rv[x].0)));
        } else {
            lemma_uncovered_byte_zero(rv, a);
            assert(!covered(sv, a));
            lemma_uncovered_byte_zero(sv, a);
        }
    }
}

/// A chunk list whose lengths match an interval list stores the total of
/// the intervals.
proof fn lemma_stored_eq_total(rv: Seq<(int, Seq<u8>)>, jv: Seq<Interval>)
    requires
        rv.len() == jv.len(),
        forall|x: int| 0 <= x < rv.len() ==> (#[trigger] rv[x]).1.len() == jv[x].spec_size(),
    ensures
        mem_stored(rv) == ivls_total(jv),
    decreases rv.len(),
{
    if rv.len() > 0 {
        assert(forall|x: int| 0 <= x < rv.len() - 1 ==> rv.drop_last()[x] == rv[x]);
        assert(forall|x: int| 0 <= x < jv.len() - 1 ==> jv.drop_last()[x] == jv[x]);
        lemma_stored_eq_total(rv.drop_last(), jv.drop_last());
    }
}

/// Rebuilding the chunks of an already flat memory reproduces it exactly.
proof fn lemma_flatten_flat_identity(
    sv: Seq<(int, Seq<u8>)>,
    jv: Seq<Interval>,
    rv: Seq<(int, Seq<u8>)>,
)
    requires
        mem_flat(sv),
        mem_wf(sv),
        jv == chunk_ivls(sv),
        rv.len() == jv.len(),
        forall|x: int| 0 <= x < rv.len() ==> (#[trigger] rv[x]).0 == jv[x].from
            && rv[x].1.len() == jv[x].spec_size(),
        forall|x: int, off: int|
            #![trigger rv[x].1[off]]
            0 <= x < rv.len() && 0 <= off < jv[x].spec_size() ==> rv[x].1[off] == mem_byte(
                sv,
                jv[x].from + off,
            ),
    ensures
        rv == sv,
{
    lemma_flat_disjoint(sv);
    assert forall|x: int| 0 <= x < rv.len() implies rv[x] == sv[x] by {
        assert(sv[x].1.len() > 0);
        assert(rv[x].0 == sv[x].0);
        assert(rv[x].1.len() == sv[x].1.len());
        assert forall|off: int| 0 <= off < rv[x].1.len() implies rv[x].1[off] == sv[x].1[off] by {
            assert(rv[x].1[off] == mem_byte(sv, jv[x].from + off));
            assert(covers_at(sv, x, sv[x].0 + off));
            lemma_disjoint_byte(sv, x, sv[x].0 + off);
        }
        assert(rv[x].1 =~= sv[x].1);
    }
    assert(rv =~= sv);
}

impl Memory {
    /// The amount of memory stored, or `None` where the sum exceeds `u64`.
    pub fn checked_size(&self) -> (r: Option<u64>)
        ensures
            r == if mem_stored(self@) <= u64::MAX {
                Some(mem_stored(self@) as u64)
            } else {
                None::<u64>
            },
    {
        let mut total: u64 = 0;
        let mut i: usize = 0;
        proof {
            lemma_mem_stored_monotone(self@);
            assert(self@.take(0) =~= Seq::<(int, Seq<u8>)>::empty());
        }
        while i < self.chunks.len()
            invariant
                i <= self.chunks@.len(),
                self@.len() == self.chunks@.len(),
                total == mem_stored(self@.take(i as int)),
                forall|k: int| 0 <= k <= self@.len() ==> #[trigger] mem_stored(self@.take(k))
                    <= mem_stored(self@),
            decreases self.chunks@.len() - i,
        {
            proof {
                assert(self@.take(i + 1).drop_last() =~= self@.take(i as int));
                assert(self@.take(i + 1).last() == self@[i as int]);
            }
            match total.checked_add(self.chunks[i].data.len() as u64) {
                Some(t) => {
                    total = t;
                },
                None => {
                    proof {
                        assert(mem_stored(self@.take(i + 1)) > u64::MAX);
                    }
                    return None;
                },
            }
            i = i + 1;
        }
        proof {
            assert(self@.take(self@.len() as int) =~= self@);
        }
        Some(total)
    }

    /// The address interval of every non-empty chunk, in chunk order.
    fn chunk_intervals(&self) -> (ivls: Vec<Interval>)
        requires
            self.wf(),
        ensures
            forall|a: int| ivl_covered(ivls@, a) == covered(self@, a),
            forall|q: int| 0 <= q < ivls@.len() ==> (#[trigger] ivls@[q]).from < ivls@[q].to,
            ivls_total(ivls@) <= mem_stored(self@),
            mem_flat(self@) ==> ivls@ == chunk_ivls(self@),
    {
        let mut ivls: Vec<Interval> = Vec::new();
        let mut i: usize = 0;
        proof {
            assert(self@.take(0) =~= Seq::<(int, Seq<u8>)>::empty());
        }
        while i < self.chunks.len()
            invariant
                self.wf(),
                i <= self@.len(),
                self@.len() == self.chunks@.len(),
                forall|a: int| ivl_covered(ivls@, a) == covered(self@.take(i as int), a),
                forall|q: int| 0 <= q < ivls@.len() ==> (#[trigger] ivls@[q]).from < ivls@[q].to,
                ivls_total(ivls@) <= mem_stored(self@.take(i as int)),
                mem_flat(self@) ==> ivls@ == chunk_ivls(self@).take(i as int),
            decreases self@.len() - i,
        {
            let c = &self.chunks[i];
            let ghost pre = ivls@;
            proof {
                assert(self@[i as int] == self.chunks@[i as int]@);
                assert(self@.take(i + 1).drop_last() =~= self@.take(i as int));
                assert(self@.take(i + 1) =~= self@.take(i as int).push(self@[i as int]));
            }
            if c.data.len() > 0 {
                let ivl = Interval::new_with_size(c.paddr, c.data.len() as u64);
                ivls.push(ivl);
                proof {
                    assert(ivls@ =~= pre.push(ivl));
                    assert(ivls@.drop_last() =~= pre);
                    assert forall|a: int| ivl_covered(ivls@, a) == covered(
                        self@.take(i + 1),
                        a,
                    ) by {
                        lemma_ivl_covered_push(pre, ivl, a);
                        lemma_covered_push(self@.take(i as int), self@[i as int], a);
                    }
                    assert(ivls_total(ivls@) == ivls_total(pre) + ivl.spec_size());
                    assert(mem_stored(self@.take(i + 1)) == mem_stored(self@.take(i as int))
                        + self@[i as int].1.len());
                    if mem_flat(self@) {
                        assert(chunk_ivls(self@)[i as int] == ivl);
                        assert(ivls@ =~= chunk_ivls(self@).take(i + 1));
                    }
                }
            } else {
                proof {
                    assert forall|a: int| ivl_covered(ivls@, a) == covered(
                        self@.take(i + 1),
                        a,
                    ) by {
                        lemma_covered_push(self@.take(i as int), self@[i as int], a);
                    }
                    assert(mem_stored(self@.take(i + 1)) == mem_stored(self@.take(i as int)));
                    if mem_flat(self@) {
                        assert(self@[i as int].1.len() > 0);
                    }
                }
            }
            i = i + 1;
        }
        proof {
            assert(self@.take(self@.len() as int) =~= self@);
            if mem_flat(self@) {
                assert(chunk_ivls(self@).take(self@.len() as int) =~= chunk_ivls(self@));
            }
        }
        ivls
    }

    /// Simplify the representation: combine all previous writes into a minimal
    /// list of non-overlapping, address-ordered chunks that reads identically
    /// everywhere. Flattening an already flat memory returns it unchanged.
    #[verifier::rlimit(100)]
    pub fn flattened(&self) -> (r: Memory)
        requires
            self.wf(),
            mem_stored(self@) <= usize::MAX,
        ensures
            r.wf(),
            mem_flat(r@),
            forall|a: int| mem_byte(r@, a) == mem_byte(self@, a),
            forall|a: int| covered(r@, a) == covered(self@, a),
            mem_stored(r@) <= mem_stored(self@),
            mem_flat(self@) ==> r@ == self@,
    {
        let ivls = self.chunk_intervals();
        // Sort the intervals by start address and merge everything joinable.
        let sorted = sorted_by_from(&ivls);
        proof {
            lemma_perm_elements_nonempty(ivls@, sorted@);
        }
        let joined = join_sorted(&sorted);
        // Re-read each joined interval so that later writes win.
        let r = self.rebuild(&joined);
        proof {
            lemma_flatten_result(self@, ivls@, sorted@, joined@, r@);
            lemma_stored_eq_total(r@, joined@);
            if mem_flat(self@) {
                lemma_flatten_flat_summary(self@, ivls@, sorted@, joined@, r@);
            }
        }
        r
    }

    /// One chunk per interval, each read back from this memory.
    fn rebuild(&self, joined: &Vec<Interval>) -> (r: Memory)
        requires
            self.wf(),
            mem_stored(self@) <= usize::MAX,
            ivls_separated(joined@),
            ivls_total(joined@) <= mem_stored(self@),
        ensures
            r@.len() == joined@.len(),
            forall|x: int| 0 <= x < r@.len() ==> (#[trigger] r@[x]).0 == joined@[x].from
                && r@[x].1.len() == joined@[x].spec_size(),
            forall|x: int, off: int|
                #![trigger r@[x].1[off]]
                0 <= x < r@.len() && 0 <= off < joined@[x].spec_size() ==> r@[x].1[off]
                    == mem_byte(self@, joined@[x].from + off),
    {
        let mut out: Vec<Chunk> = Vec::new();
        let mut q: usize = 0;
        while q < joined.len()
            invariant
                self.wf(),
                mem_stored(self@) <= usize::MAX,
                q <= joined@.len(),
                ivls_separated(joined@),
                ivls_total(joined@) <= mem_stored(self@),
                out@.len() == q,
                forall|x: int| 0 <= x < q ==> (#[trigger] out@[x]).paddr == joined@[x].from
                    && out@[x].data@.len() == joined@[x].spec_size(),
                forall|x: int, off: int|
                    #![trigger out@[x].data@[off]]
                    0 <= x < q && 0 <= off < joined@[x].spec_size() ==> out@[x].data@[off]
                        == mem_byte(self@, joined@[x].from + off),
            decreases joined@.len() - q,
        {
            let ivl = joined[q];
            proof {
                lemma_ivls_total_elem(joined@, q as int);
                lemma_ivls_total_nonneg(joined@);
            }
            let sz = ivl.size();
            let data = self.read(ivl.from, sz);
            out.push(Chunk { paddr: ivl.from, data });
            q = q + 1;
        }
        let r = Memory { chunks: out };
        proof {
            assert(r@.len() == joined@.len());
            assert forall|x: int| 0 <= x < r@.len() implies (#[trigger] r@[x]).0
                == joined@[x].from && r@[x].1.len() == joined@[x].spec_size() by {
                assert(r@[x] == r.chunks@[x]@);
            }
            assert forall|x: int, off: int|
                #![trigger r@[x].1[off]]
                0 <= x < r@.len() && 0 <= off < joined@[x].spec_size() implies r@[x].1[off]
                == mem_byte(self@, joined@[x].from + off) by {
                assert(r@[x] == r.chunks@[x]@);
                assert(r.chunks@[x].data@[off] == mem_byte(self@, joined@[x].from + off));
            }
        }
        r
    }
}

/// Every prefix of a memory stores at most as much as the whole.
pub proof fn lemma_mem_stored_monotone(m: Seq<(int, Seq<u8>)>)
    ensures
        forall|k: int| 0 <= k <= m.len() ==> #[trigger] mem_stored(m.take(k)) <= mem_stored(m),
    decreases m.len(),
{
    assert forall|k: int| 0 <= k <= m.len() implies #[trigger] mem_stored(m.take(k))
        <= mem_stored(m) by {
        lemma_mem_stored_prefix(m, k);
    }
}

proof fn lemma_mem_stored_prefix(m: Seq<(int, Seq<u8>)>, k: int)
    requires
        0 <= k <= m.len(),
    ensures
        mem_stored(m.take(k)) <= mem_stored(m),
    decreases m.len(),
{
    if k < m.len() {
        assert(m.drop_last().take(k) =~= m.take(k));
        lemma_mem_stored_prefix(m.drop_last(), k);
    } else {
        assert(m.take(k) =~= m);
    }
}

/// The dedup records seen so far, as byte keys with their addresses.
pub open spec fn share_view(v: Seq<(Vec<u8>, u64)>) -> Seq<(Seq<u8>, int)> {
    v.map_values(|p: (Vec<u8>, u64)| (p.0@, p.1 as int))
}

/// The address recorded for `key`, if any: the earliest record wins.
pub open spec fn share_lookup(s: Seq<(Seq<u8>, int)>, key: Seq<u8>) -> Option<int>
    decreases s.len(),
{
    if s.len() == 0 {
        None
    } else if s.first().0 == key {
        Some(s.first().1)
    } else {
        share_lookup(s.drop_first(), key)
    }
}

/// Every dedup record points at a representable address range.
pub open spec fn share_records_wf(s: Seq<(Seq<u8>, int)>) -> bool {
    forall|i: int| 0 <= i < s.len() ==> 0 <= (#[trigger] s[i]).1 && s[i].1 + s[i].0.len()
        <= u64::MAX
}

/// A successful lookup returns the address of one of the records, for its
/// exact key.
pub proof fn lemma_share_lookup_found(s: Seq<(Seq<u8>, int)>, key: Seq<u8>)
    requires
        share_lookup(s, key) is Some,
    ensures
        exists|i: int| 0 <= i < s.len() && #[trigger] s[i] == (key, share_lookup(s, key)->0),
    decreases s.len(),
{
    if s.first().0 == key {
        assert(s[0] == (key, share_lookup(s, key)->0));
    } else {
        lemma_share_lookup_found(s.drop_first(), key);
        let i = choose|i: int|
            0 <= i < s.drop_first().len() && #[trigger] s.drop_first()[i] == (
                key,
                share_lookup(s.drop_first(), key)->0,
            );
        assert(s[i + 1] == (key, share_lookup(s, key)->0));
    }
}

/// Recording a key that was absent makes later lookups return its address.
pub proof fn lemma_share_lookup_after_record(s: Seq<(Seq<u8>, int)>, key: Seq<u8>, v: int)
    requires
        share_lookup(s, key) is None,
    ensures
        share_lookup(s.push((key, v)), key) == Some(v),
    decreases s.len(),
{
    if s.len() == 0 {
        assert(s.push((key, v)).first() == (key, v));
    } else {
        assert(s.push((key, v)).first() == s.first());
        assert(s.push((key, v)).drop_first() =~= s.drop_first().push((key, v)));
        lemma_share_lookup_after_record(s.drop_first(), key, v);
    }
}

/// A successful allocation from a chain of bump allocators stays within the
/// 64-bit address space.
pub proof fn lemma_chain_result_bound(s: Seq<BumpPointerAlloc>, size: u64)
    ensures
        chain_alloc_result(s, size) is Some ==> chain_alloc_result(s, size)->0 + size
            <= u64::MAX,
    decreases s.len(),
{
    if s.len() > 0 {
        if s.last().spec_alloc(size) is None {
            lemma_chain_result_bound(s.drop_last(), size);
        }
    }
}

fn bytes_eq(a: &[u8], b: &Vec<u8>) -> (r: bool)
    ensures
        r == (a@ == b@),
{
    if a.len() != b.len() {
        proof {
            assert(a@ != b@);
        }
        return false;
    }
    let n = a.len();
    let mut i: usize = 0;
    while i < n
        invariant
            n == a@.len() == b@.len(),
            i <= n,
            forall|j: int| 0 <= j < i ==> a@[j] == b@[j],
        decreases n - i,
    {
        if a[i] != b[i] {
            proof {
                assert(a@ != b@);
            }
            return false;
        }
        i = i + 1;
    }
    proof {
        assert(a@ =~= b@);
    }
    true
}

/// The state of a physical memory under construction, as mathematical
/// values: the written chunks, the free-space allocators and the dedup
/// records. Every placement operation is a function of this state.
#[verifier::ext_equal]
pub ghost struct PmState {
    pub mem: Seq<(int, Seq<u8>)>,
    pub free: Seq<BumpPointerAlloc>,
    pub shared: Seq<(Seq<u8>, int)>,
}

/// The bump allocator after a successful allocation.
pub open spec fn bump_after(b: BumpPointerAlloc, n: u64) -> BumpPointerAlloc {
    BumpPointerAlloc { current: b.spec_next_cursor(n) as u64, ..b }
}

/// The functional form of one chained allocation: the new backends and the
/// returned address.
pub open spec fn chain_bump_alloc(s: Seq<BumpPointerAlloc>, n: u64) -> (
    Seq<BumpPointerAlloc>,
    Option<u64>,
)
    decreases s.len(),
{
    if s.len() == 0 {
        (s, None)
    } else if s.last().spec_alloc_ok(n) {
        (s.drop_last().push(bump_after(s.last(), n)), Some(s.last().current))
    } else {
        chain_bump_alloc(s.drop_last(), n)
    }
}

/// For bump backends the allocation relation pins the outcome: it equals the
/// functional form.
pub proof fn lemma_chain_bump_functional(s0: Seq<BumpPointerAlloc>, n: u64, s1: Seq<
    BumpPointerAlloc,
>)
    requires
        chain_after_alloc(s0, n, s1),
    ensures
        s1 == chain_bump_alloc(s0, n).0,
        chain_alloc_result(s0, n) == chain_bump_alloc(s0, n).1,
    decreases s0.len(),
{
    if s0.len() > 0 {
        if s0.last().spec_alloc(n) is Some {
            assert(s0.last().spec_after_alloc(n, &s1.last()));
            assert(s1.last() == bump_after(s0.last(), n));
            assert(s1 =~= s0.drop_last().push(bump_after(s0.last(), n)));
        } else {
            lemma_chain_bump_functional(s0.drop_last(), n, s1);
        }
    }
}

/// The state and result of placing bytes in freshly allocated memory.
pub open spec fn place_unique_spec(st: PmState, data: Seq<u8>) -> (PmState, Option<u64>) {
    let (free2, r) = chain_bump_alloc(st.free, data.len() as u64);
    match r {
        None => (PmState { free: free2, ..st }, None),
        Some(a) => (
            PmState { mem: st.mem.push((a as int, data)), free: free2, shared: st.shared },
            Some(a),
        ),
    }
}

/// The state and result of placing bytes shareably: a recorded placement of
/// the same bytes is reused; otherwise the bytes are placed uniquely and
/// recorded.
pub open spec fn place_shareable_spec(st: PmState, data: Seq<u8>) -> (PmState, Option<u64>) {
    match share_lookup(st.shared, data) {
        Some(v) => (st, Some(v as u64)),
        None => {
            let (st2, r) = place_unique_spec(st, data);
            match r {
                None => (st2, None),
                Some(a) => (
                    PmState { shared: st2.shared.push((data, a as int)), ..st2 },
                    Some(a),
                ),
            }
        },
    }
}

/// The state and result of a placement, by mode.
pub open spec fn place_spec(st: PmState, data: Seq<u8>, mode: PlaceAs) -> (PmState, Option<u64>) {
    match mode {
        PlaceAs::Unique => place_unique_spec(st, data),
        PlaceAs::Shareable => place_shareable_spec(st, data),
    }
}

/// A representation of physical memory as it will be written into the boot
/// image.
pub struct PhysMemory {
    pub memory: Memory,
    /// An allocator for free physical space.
    pub free_memory: ChainedAlloc<BumpPointerAlloc>,
    /// A map from already placed memory content to the location where it lies
    /// in memory. Sharing is not attempted at granularities smaller than a
    /// whole placement.
    pub shareable_memory: Vec<(Vec<u8>, u64)>,
}

impl PhysMemory {
    pub open spec fn wf(&self) -> bool {
        &&& self.memory.wf()
        &&& self.free_memory.wf()
        &&& share_records_wf(self.shared())
    }

    /// This memory's state as mathematical values.
    pub open spec fn model(&self) -> PmState {
        PmState {
            mem: self.memory@,
            free: self.free_memory.backends@,
            shared: self.shared(),
        }
    }

    /// The dedup records as a sequence of byte keys with addresses.
    pub open spec fn shared(&self) -> Seq<(Seq<u8>, int)> {
        share_view(self.shareable_memory@)
    }

    pub fn new(free_memory: ChainedAlloc<BumpPointerAlloc>) -> (r: PhysMemory)
        requires
            free_memory.wf(),
        ensures
            r.wf(),
            r.memory@ == Seq::<(int, Seq<u8>)>::empty(),
            r.free_memory == free_memory,
            r.shared() == Seq::<(Seq<u8>, int)>::empty(),
    {
        let r = PhysMemory { memory: Memory::default(), shareable_memory: Vec::new(), free_memory };
        proof {
            assert(r.shared() =~= Seq::<(Seq<u8>, int)>::empty());
        }
        r
    }

    /// Writes memory to a specific location in physical memory.
    pub fn write(&mut self, paddr: u64, data: &[u8])
        requires
            old(self).wf(),
            paddr + data@.len() <= u64::MAX,
        ensures
            final(self).wf(),
            final(self).memory@ == old(self).memory@.push((paddr as int, data@)),
            final(self).free_memory == old(self).free_memory,
            final(self).shared() == old(self).shared(),
    {
        self.memory.write(paddr, data)
    }

    /// The address recorded for `data` in the dedup records, if any.
    fn lookup_shared(&self, data: &[u8]) -> (r: Option<u64>)
        ensures
            match r {
                Some(v) => share_lookup(self.shared(), data@) == Some(v as int),
                None => share_lookup(self.shared(), data@) is None,
            },
    {
        let n = self.shareable_memory.len();
        let mut i: usize = 0;
        proof {
            assert(self.shared().skip(0) =~= self.shared());
        }
        while i < n
            invariant
                n == self.shareable_memory@.len(),
                i <= n,
                share_lookup(self.shared(), data@) == share_lookup(
                    self.shared().skip(i as int),
                    data@,
                ),
            decreases n - i,
        {
            proof {
                assert(self.shared().skip(i as int).first() == self.shared()[i as int]);
                assert(self.shared().skip(i as int).drop_first() =~= self.shared().skip(i + 1));
            }
            if bytes_eq(data, &self.shareable_memory[i].0) {
                return Some(self.shareable_memory[i].1);
            }
            i = i + 1;
        }
        proof {
            assert(self.shared().skip(n as int) =~= Seq::<(Seq<u8>, int)>::empty());
        }
        None
    }

    /// Place `data` in freshly allocated physical memory and record it there.
    /// Returns the chosen address, or `None` when free memory is exhausted.
    pub fn place_unique(&mut self, data: &[u8]) -> (r: Option<u64>)
        requires
            old(self).wf(),
        ensures
            final(self).wf(),
            r == chain_alloc_result(old(self).free_memory.backends@, data@.len() as u64),
            chain_after_alloc(
                old(self).free_memory.backends@,
                data@.len() as u64,
                final(self).free_memory.backends@,
            ),
            final(self).shared() == old(self).shared(),
            match r {
                Some(v) => final(self).memory@ == old(self).memory@.push((v as int, data@)),
                None => final(self).memory@ == old(self).memory@,
            },
            (final(self).model(), r) == place_unique_spec(old(self).model(), data@),
    {
        proof {
            lemma_chain_result_bound(self.free_memory.backends@, data@.len() as u64);
        }
        let addr = match self.free_memory.allocate(data.len() as u64) {
            Some(a) => a,
            None => {
                proof {
                    lemma_chain_bump_functional(
                        old(self).free_memory.backends@,
                        data@.len() as u64,
                        self.free_memory.backends@,
                    );
                    assert(self.model() =~= place_unique_spec(old(self).model(), data@).0);
                }
                return None;
            },
        };
        self.memory.write(addr, data);
        proof {
            lemma_chain_bump_functional(
                old(self).free_memory.backends@,
                data@.len() as u64,
                self.free_memory.backends@,
            );
            assert(self.model() =~= place_unique_spec(old(self).model(), data@).0);
        }
        Some(addr)
    }

    /// Place `data`, reusing the location of an earlier placement of the same
    /// bytes if there is one. A repeated placement returns the recorded
    /// address and changes nothing.
    pub fn place_shareable(&mut self, data: &[u8]) -> (r: Option<u64>)
        requires
            old(self).wf(),
        ensures
            final(self).wf(),
            match share_lookup(old(self).shared(), data@) {
                Some(v) => r == Some(v as u64) && *final(self) == *old(self),
                None => {
                    &&& r == chain_alloc_result(
                        old(self).free_memory.backends@,
                        data@.len() as u64,
                    )
                    &&& chain_after_alloc(
                        old(self).free_memory.backends@,
                        data@.len() as u64,
                        final(self).free_memory.backends@,
                    )
                    &&& match r {
                        Some(v) => final(self).memory@ == old(self).memory@.push((
                            v as int,
                            data@,
                        )) && final(self).shared() == old(self).shared().push((data@, v as int)),
                        None => final(self).memory@ == old(self).memory@ && final(self).shared()
                            == old(self).shared(),
                    }
                },
            },
            (final(self).model(), r) == place_shareable_spec(old(self).model(), data@),
    {
        let n = data.len();
        proof {
            assert(n == data@.len());
        }
        match self.lookup_shared(data) {
            Some(v) => {
                proof {
                    lemma_share_lookup_found(old(self).shared(), data@);
                    assert((self.model(), Some(v)) =~= place_shareable_spec(
                        old(self).model(),
                        data@,
                    ));
                }
                Some(v)
            },
            None => {
                let newly_written = match self.place_unique(data) {
                    Some(v) => v,
                    None => {
                        proof {
                            assert(self.model() =~= place_shareable_spec(
                                old(self).model(),
                                data@,
                            ).0);
                        }
                        return None;
                    },
                };
                let d: Vec<u8> = slice_to_vec(data);
                self.shareable_memory.push((d, newly_written));
                proof {
                    lemma_chain_result_bound(
                        old(self).free_memory.backends@,
                        data@.len() as u64,
                    );
                    assert(self.shared() =~= old(self).shared().push((
                        data@,
                        newly_written as int,
                    )));
                    assert(self.model() =~= place_shareable_spec(old(self).model(), data@).0);
                }
                Some(newly_written)
            },
        }
    }

    /// Places data at a page-aligned free location in physical memory and
    /// returns the address at which it was written.
    ///
    /// With `PlaceAs::Shareable` the placement may be de-duplicated: placing
    /// the same shareable data twice returns the same address. This saves
    /// space for read-only memory.
    pub fn place(&mut self, data: &[u8], ptype: PlaceAs) -> (r: Option<u64>)
        requires
            old(self).wf(),
        ensures
            final(self).wf(),
            match ptype {
                PlaceAs::Shareable => match share_lookup(old(self).shared(), data@) {
                    Some(v) => r == Some(v as u64) && *final(self) == *old(self),
                    None => {
                        &&& r == chain_alloc_result(
                            old(self).free_memory.backends@,
                            data@.len() as u64,
                        )
                        &&& chain_after_alloc(
                            old(self).free_memory.backends@,
                            data@.len() as u64,
                            final(self).free_memory.backends@,
                        )
                        &&& match r {
                            Some(v) => final(self).memory@ == old(self).memory@.push((
                                v as int,
                                data@,
                            )) && final(self).shared() == old(self).shared().push((
                                data@,
                                v as int,
                            )),
                            None => final(self).memory@ == old(self).memory@
                                && final(self).shared() == old(self).shared(),
                        }
                    },
                },
                PlaceAs::Unique => {
                    &&& r == chain_alloc_result(
                        old(self).free_memory.backends@,
                        data@.len() as u64,
                    )
                    &&& chain_after_alloc(
                        old(self).free_memory.backends@,
                        data@.len() as u64,
                        final(self).free_memory.backends@,
                    )
                    &&& final(self).shared() == old(self).shared()
                    &&& match r {
                        Some(v) => final(self).memory@ == old(self).memory@.push((
                            v as int,
                            data@,
                        )),
                        None => final(self).memory@ == old(self).memory@,
                    }
                },
            },
            (final(self).model(), r) == place_spec(old(self).model(), data@, ptype),
    {
        match ptype {
            PlaceAs::Shareable => self.place_shareable(data),
            PlaceAs::Unique => self.place_unique(data),
        }
    }

    /// Reads memory from physical memory. Returns zeros for locations that
    /// have never been written before.
    pub fn read(&self, paddr: u64, size: u64) -> (r: Vec<u8>)
        requires
            paddr + size <= u64::MAX,
            size <= usize::MAX,
        ensures
            r@.len() == size,
            forall|i: int| 0 <= i < size ==> r@[i] == mem_byte(self.memory@, paddr + i),
    {
        self.memory.read(paddr, size)
    }

    /// Return the minimal list of populated memory chunks, in ascending
    /// address order, covering exactly the written addresses and reading
    /// exactly like the memory written so far. By `lemma_flat_unique` these
    /// clauses pin the list: every call returns the same chunks.
    pub fn chunks(&self) -> (r: Vec<Chunk>)
        requires
            self.wf(),
            mem_stored(self.memory@) <= usize::MAX,
        ensures
            mem_flat(share_chunks_view(r@)),
            forall|a: int| mem_byte(share_chunks_view(r@), a) == mem_byte(self.memory@, a),
            forall|a: int| covered(share_chunks_view(r@), a) == covered(self.memory@, a),
            mem_stored(share_chunks_view(r@)) <= mem_stored(self.memory@),
    {
        let flat = self.memory.flattened();
        proof {
            assert(share_chunks_view(flat.chunks@) =~= flat@);
        }
        flat.chunks
    }

    /// Return the amount of memory stored so far.
    pub fn size(&self) -> (r: u64)
        requires
            mem_stored(self.memory@) <= u64::MAX,
        ensures
            r == mem_stored(self.memory@),
    {
        self.memory.size()
    }

    /// The amount of memory stored, or `None` where the sum exceeds `u64`.
    pub fn checked_size(&self) -> (r: Option<u64>)
        ensures
            r == if mem_stored(self.memory@) <= u64::MAX {
                Some(mem_stored(self.memory@) as u64)
            } else {
                None::<u64>
            },
    {
        self.memory.checked_size()
    }
}

/// The chunk model of a plain chunk list.
pub open spec fn share_chunks_view(v: Seq<Chunk>) -> Seq<(int, Seq<u8>)> {
    v.map_values(|c: Chunk| c@)
}


/// The free regions of a chain of bump allocators are pairwise disjoint.
pub open spec fn bumps_disjoint(s: Seq<BumpPointerAlloc>) -> bool {
    forall|i: int, j: int|
        #![trigger s[i], s[j]]
        0 <= i < j < s.len() ==> s[i].end <= s[j].current || s[j].end <= s[i].current
}

pub open spec fn bumps_wf(s: Seq<BumpPointerAlloc>) -> bool {
    forall|i: int| 0 <= i < s.len() ==> (#[trigger] s[i]).wf()
}

/// A successful allocation returns the cursor of one of the backends, with
/// the allocated bytes inside that backend's free region: placements always
/// land inside the declared free memory.
pub proof fn lemma_chain_result_witness(s: Seq<BumpPointerAlloc>, n: u64)
    requires
        bumps_wf(s),
        n > 0,
        chain_alloc_result(s, n) is Some,
    ensures
        exists|j: int|
            0 <= j < s.len() && (#[trigger] s[j]).current == chain_alloc_result(s, n)->0
                && chain_alloc_result(s, n)->0 + n <= s[j].end,
    decreases s.len(),
{
    let v = chain_alloc_result(s, n)->0;
    if s.last().spec_alloc(n) is Some {
        let last = s.last();
        assert(last.spec_alloc_ok(n));
        lemma_align_down_lower_bound(
            (last.current + n + (last.min_align - 1) as u64) as u64,
            (last.min_align - 1) as u64,
        );
        assert(s[s.len() - 1].current == v && v + n <= s[s.len() - 1].end);
    } else {
        assert(bumps_wf(s.drop_last())) by {
            assert(forall|i: int| 0 <= i < s.len() - 1 ==> s.drop_last()[i] == s[i]);
        }
        lemma_chain_result_witness(s.drop_last(), n);
        let j = choose|j: int|
            0 <= j < s.drop_last().len() && (#[trigger] s.drop_last()[j]).current
                == chain_alloc_result(s.drop_last(), n)->0 && chain_alloc_result(
                s.drop_last(),
                n,
            )->0 + n <= s.drop_last()[j].end;
        assert(s[j].current == v && v + n <= s[j].end);
    }
}

/// Placing the same non-empty bytes uniquely twice yields two distinct
/// physical addresses: the second allocation starts past the first within a
/// backend, and across backends the free regions are disjoint. This is the
/// allocator-level face of `place_unique`, whose contract reduces each call
/// to `chain_alloc_result` and `chain_after_alloc`.
pub proof fn lemma_place_unique_twice_distinct(
    s0: Seq<BumpPointerAlloc>,
    s1: Seq<BumpPointerAlloc>,
    n: u64,
    a1: u64,
    a2: u64,
)
    requires
        n > 0,
        bumps_wf(s0),
        bumps_disjoint(s0),
        chain_alloc_result(s0, n) == Some(a1),
        chain_after_alloc(s0, n, s1),
        chain_alloc_result(s1, n) == Some(a2),
    ensures
        a1 != a2,
    decreases s0.len(),
{
    let last = s0.last();
    if last.spec_alloc(n) is Some {
        assert(a1 == last.current);
        assert(s1.len() == s0.len());
        let b2 = s1.last();
        assert(last.spec_after_alloc(n, &b2));
        assert(b2.current >= last.current + n);
        assert(b2.end == last.end);
        if b2.spec_alloc(n) is Some {
            assert(a2 == b2.current);
        } else {
            // The advanced backend is exhausted; the next address comes from
            // an earlier backend, whose region is disjoint from this one.
            assert(s1.drop_last() == s0.drop_last());
            assert(chain_alloc_result(s0.drop_last(), n) == Some(a2));
            assert(bumps_wf(s0.drop_last())) by {
                assert(forall|i: int| 0 <= i < s0.len() - 1 ==> s0.drop_last()[i] == s0[i]);
            }
            lemma_chain_result_witness(s0.drop_last(), n);
            let j = choose|j: int|
                0 <= j < s0.drop_last().len() && (#[trigger] s0.drop_last()[j]).current
                    == chain_alloc_result(s0.drop_last(), n)->0 && chain_alloc_result(
                    s0.drop_last(),
                    n,
                )->0 + n <= s0.drop_last()[j].end;
            assert(s0[j].current == a2 && a2 + n <= s0[j].end);
            assert(s0[j].end <= last.current || last.end <= s0[j].current);
            assert(last.spec_alloc_ok(n));
            assert(a1 + n <= last.spec_next_cursor(n) <= last.end) by {
                lemma_align_down_lower_bound(
                    (last.current + n + (last.min_align - 1) as u64) as u64,
                    (last.min_align - 1) as u64,
                );
            }
        }
    } else {
        assert(chain_alloc_result(s0.drop_last(), n) == Some(a1));
        assert(chain_after_alloc(s0.drop_last(), n, s1));
        assert(bumps_wf(s0.drop_last()) && bumps_disjoint(s0.drop_last())) by {
            assert(forall|i: int| 0 <= i < s0.len() - 1 ==> s0.drop_last()[i] == s0[i]);
        }
        lemma_place_unique_twice_distinct(s0.drop_last(), s1, n, a1, a2);
    }
}

/// Dropping a chunk that does not cover `a` leaves the byte at `a` alone.
proof fn lemma_byte_drop_first(m: Seq<(int, Seq<u8>)>, a: int)
    requires
        m.len() > 0,
        !covers_at(m, 0, a),
    ensures
        mem_byte(m.drop_first(), a) == mem_byte(m, a),
    decreases m.len(),
{
    if m.len() == 1 {
        assert(m.drop_first() =~= Seq::<(int, Seq<u8>)>::empty());
        assert(m.drop_last() =~= Seq::<(int, Seq<u8>)>::empty());
        assert(!covers_at(m, m.len() - 1, a));
    } else {
        assert(m.drop_first().last() == m.last());
        assert(m.drop_first().drop_last() =~= m.drop_last().drop_first());
        assert(covers_at(m.drop_first(), m.drop_first().len() - 1, a) == covers_at(
            m,
            m.len() - 1,
            a,
        ));
        if !covers_at(m, m.len() - 1, a) {
            assert(m.drop_last()[0] == m[0]);
            assert(!covers_at(m.drop_last(), 0, a));
            lemma_byte_drop_first(m.drop_last(), a);
            assert(mem_byte(m.drop_first(), a) == mem_byte(m.drop_last().drop_first(), a));
            assert(mem_byte(m, a) == mem_byte(m.drop_last(), a));
            assert(mem_byte(m.drop_first(), a) == mem_byte(m, a));
        } else {
            assert(mem_byte(m.drop_first(), a) == m.last().1[a - m.last().0]);
            assert(mem_byte(m, a) == m.last().1[a - m.last().0]);
        }
    }
}

/// In a flat memory, the tail covers exactly what the first chunk does not.
proof fn lemma_flat_tail_cov(m: Seq<(int, Seq<u8>)>, a: int)
    requires
        mem_flat(m),
        m.len() > 0,
    ensures
        covered(m.drop_first(), a) == (covered(m, a) && !covers_at(m, 0, a)),
{
    lemma_flat_disjoint(m);
    if covered(m.drop_first(), a) {
        let i = choose|i: int| 0 <= i < m.drop_first().len() && #[trigger] covers_at(
            m.drop_first(),
            i,
            a,
        );
        assert(covers_at(m, i + 1, a));
        assert(!covers_at(m, 0, a));
    }
    if covered(m, a) && !covers_at(m, 0, a) {
        let i = choose|i: int| 0 <= i < m.len() && #[trigger] covers_at(m, i, a);
        assert(covers_at(m.drop_first(), i - 1, a));
    }
}

/// A flat memory is determined by what it covers and what it reads: two flat
/// chunk lists that cover the same addresses and read the same bytes are the
/// same list. In particular, flattening is deterministic.
#[verifier::rlimit(100)]
#[verifier::spinoff_prover]
pub proof fn lemma_flat_unique(m1: Seq<(int, Seq<u8>)>, m2: Seq<(int, Seq<u8>)>)
    requires
        mem_flat(m1),
        mem_flat(m2),
        forall|a: int| covered(m1, a) == covered(m2, a),
        forall|a: int| mem_byte(m1, a) == mem_byte(m2, a),
    ensures
        m1 == m2,
    decreases m1.len(),
{
    lemma_flat_disjoint(m1);
    lemma_flat_disjoint(m2);
    if m1.len() == 0 {
        if m2.len() > 0 {
            assert(covers_at(m2, 0, m2[0].0));
            assert(covered(m2, m2[0].0));
            assert(forall|i: int| 0 <= i < m1.len() ==> !covers_at(m1, i, m2[0].0));
            assert(!covered(m1, m2[0].0));
        }
        assert(m1 =~= m2);
    } else if m2.len() == 0 {
        assert(covers_at(m1, 0, m1[0].0));
        assert(covered(m1, m1[0].0));
        assert(!covered(m2, m1[0].0));
    } else {
        let s1 = m1[0].0;
        let s2 = m2[0].0;
        // The first chunks start at the least covered address.
        assert(covers_at(m1, 0, s1) && covers_at(m2, 0, s2));
        assert(covered(m1, s1) && covered(m2, s2));
        assert(s1 <= s2) by {
            let i = choose|i: int| 0 <= i < m1.len() && #[trigger] covers_at(m1, i, s2);
            if i > 0 {
                lemma_flat_ordered(m1, 0, i);
            }
        }
        assert(s2 <= s1) by {
            let i = choose|i: int| 0 <= i < m2.len() && #[trigger] covers_at(m2, i, s1);
            if i > 0 {
                lemma_flat_ordered(m2, 0, i);
            }
        }
        // They end together: past either end the address is uncovered.
        let e1 = s1 + m1[0].1.len();
        let e2 = s2 + m2[0].1.len();
        assert(!covered(m1, e1)) by {
            assert forall|i: int| 0 <= i < m1.len() implies !covers_at(m1, i, e1) by {
                if i > 0 {
                    lemma_flat_ordered(m1, 0, i);
                }
            }
        }
        assert(!covered(m2, e2)) by {
            assert forall|i: int| 0 <= i < m2.len() implies !covers_at(m2, i, e2) by {
                if i > 0 {
                    lemma_flat_ordered(m2, 0, i);
                }
            }
        }
        assert(e1 == e2) by {
            if e1 < e2 {
                assert(covers_at(m2, 0, e1));
                assert(covered(m2, e1));
            }
            if e2 < e1 {
                assert(covers_at(m1, 0, e2));
                assert(covered(m1, e2));
            }
        }
        // Same bytes in the first chunk.
        assert forall|off: int| 0 <= off < m1[0].1.len() implies m1[0].1[off] == m2[0].1[off] by {
            lemma_disjoint_byte(m1, 0, s1 + off);
            lemma_disjoint_byte(m2, 0, s1 + off);
        }
        assert(m1[0].1 =~= m2[0].1);
        // The tails agree on coverage and bytes; recurse.
        assert(mem_flat(m1.drop_first())) by {
            assert(forall|i: int| 0 <= i < m1.drop_first().len() ==> m1.drop_first()[i] == m1[i
                + 1]);
        }
        assert(mem_flat(m2.drop_first())) by {
            assert(forall|i: int| 0 <= i < m2.drop_first().len() ==> m2.drop_first()[i] == m2[i
                + 1]);
        }
        assert forall|a: int| covered(m1.drop_first(), a) == covered(m2.drop_first(), a) by {
            lemma_flat_tail_cov(m1, a);
            lemma_flat_tail_cov(m2, a);
        }
        assert forall|a: int| mem_byte(m1.drop_first(), a) == mem_byte(m2.drop_first(), a) by {
            if s1 <= a < e1 {
                lemma_flat_tail_cov(m1, a);
                lemma_flat_tail_cov(m2, a);
                lemma_uncovered_byte_zero(m1.drop_first(), a);
                lemma_uncovered_byte_zero(m2.drop_first(), a);
            } else {
                lemma_byte_drop_first(m1, a);
                lemma_byte_drop_first(m2, a);
            }
        }
        lemma_flat_unique(m1.drop_first(), m2.drop_first());
        assert(m1[0] == m2[0]);
        assert forall|i: int| 0 < i < m1.len() implies m1[i] == m2[i] by {
            assert(m1[i] == m1.drop_first()[i - 1]);
            assert(m2[i] == m2.drop_first()[i - 1]);
        }
        assert(m1 =~= m2);
    }
}

/// No backend's free range meets `[lo, hi)`.
pub open spec fn chain_excludes(s: Seq<BumpPointerAlloc>, lo: int, hi: int) -> bool {
    forall|i: int| 0 <= i < s.len() ==> ((#[trigger] s[i]).end <= lo || hi <= s[i].current)
}

/// A successful allocation hands out a range no remaining backend covers
/// any more, keeps every excluded range excluded, and keeps disjoint
/// backends disjoint.
pub proof fn lemma_chain_alloc_fresh(s: Seq<BumpPointerAlloc>, n: u64)
    requires
        bumps_wf(s),
        bumps_disjoint(s),
        chain_bump_alloc(s, n).1 is Some,
    ensures
        bumps_wf(chain_bump_alloc(s, n).0),
        bumps_disjoint(chain_bump_alloc(s, n).0),
        chain_excludes(
            chain_bump_alloc(s, n).0,
            chain_bump_alloc(s, n).1->0 as int,
            chain_bump_alloc(s, n).1->0 + n,
        ),
        chain_bump_alloc(s, n).1->0 + n <= u64::MAX,
        forall|lo: int, hi: int|
            #![trigger chain_excludes(chain_bump_alloc(s, n).0, lo, hi)]
            chain_excludes(s, lo, hi) ==> chain_excludes(chain_bump_alloc(s, n).0, lo, hi),
    decreases s.len(),
{
    let (s2, r) = chain_bump_alloc(s, n);
    let last = s.last();
    if last.spec_alloc_ok(n) {
        let a = last.current;
        let b2 = bump_after(last, n);
        lemma_align_down_lower_bound(
            (last.current + n + (last.min_align - 1) as u64) as u64,
            (last.min_align - 1) as u64,
        );
        assert(b2.current >= a + n && b2.end == last.end && a + n <= last.end);
        assert(b2.wf()) by {
            crate::bump_ptr_alloc::lemma_align_down_aligned_pub(
                (last.current + n + (last.min_align - 1) as u64) as u64,
                (last.min_align - 1) as u64,
            );
        }
        assert(s2 =~= s.drop_last().push(b2));
        assert forall|i: int| 0 <= i < s2.len() implies ((#[trigger] s2[i]).end <= a as int || a
            + n <= s2[i].current) by {
            if i < s2.len() - 1 {
                assert(s2[i] == s[i]);
                assert(s[i].end <= last.current || last.end <= s[i].current);
            }
        }
        assert(bumps_wf(s2) && bumps_disjoint(s2)) by {
            assert(forall|i: int| 0 <= i < s2.len() - 1 ==> s2[i] == s[i]);
        }
    } else {
        assert(bumps_wf(s.drop_last()) && bumps_disjoint(s.drop_last())) by {
            assert(forall|i: int| 0 <= i < s.len() - 1 ==> s.drop_last()[i] == s[i]);
        }
        lemma_chain_alloc_fresh(s.drop_last(), n);
        assert forall|lo: int, hi: int|
            chain_excludes(s, lo, hi) implies #[trigger] chain_excludes(s2, lo, hi) by {
            assert(chain_excludes(s.drop_last(), lo, hi)) by {
                assert(forall|i: int| 0 <= i < s.len() - 1 ==> s.drop_last()[i] == s[i]);
            }
        }
    }
}

/// An allocation from a chain that excludes `[lo, hi)` returns a range
/// outside `[lo, hi)`.
pub proof fn lemma_chain_alloc_misses(s: Seq<BumpPointerAlloc>, n: u64, lo: int, hi: int)
    requires
        bumps_wf(s),
        chain_excludes(s, lo, hi),
        chain_bump_alloc(s, n).1 is Some,
        n >= 1,
    ensures
        chain_bump_alloc(s, n).1->0 + n <= lo || hi <= chain_bump_alloc(s, n).1->0,
    decreases s.len(),
{
    let last = s.last();
    if last.spec_alloc_ok(n) {
        lemma_align_down_lower_bound(
            (last.current + n + (last.min_align - 1) as u64) as u64,
            (last.min_align - 1) as u64,
        );
        assert(last.current + n <= last.end);
        assert(last.end <= lo || hi <= last.current);
    } else {
        assert(bumps_wf(s.drop_last()) && chain_excludes(s.drop_last(), lo, hi)) by {
            assert(forall|i: int| 0 <= i < s.len() - 1 ==> s.drop_last()[i] == s[i]);
        }
        lemma_chain_alloc_misses(s.drop_last(), n, lo, hi);
    }
}

/// A chunk pushed outside `a` leaves the byte at `a` alone.
pub proof fn lemma_push_outside(m: Seq<(int, Seq<u8>)>, c: (int, Seq<u8>), a: int)
    requires
        !(c.0 <= a < c.0 + c.1.len()),
    ensures
        mem_byte(m.push(c), a) == mem_byte(m, a),
{
    assert(m.push(c).drop_last() =~= m);
}

/// Every dedup record reads back from memory and lies outside the free
/// ranges, so later allocations cannot clobber it.
pub open spec fn shared_sound(st: PmState) -> bool {
    forall|r: int|
        0 <= r < st.shared.len() ==> {
            &&& 0 <= (#[trigger] st.shared[r]).1
            &&& st.shared[r].1 + st.shared[r].0.len() <= u64::MAX
            &&& chain_excludes(
                st.free,
                (#[trigger] st.shared[r]).1,
                st.shared[r].1 + st.shared[r].0.len(),
            )
            &&& forall|off: int|
                0 <= off < st.shared[r].0.len() ==> mem_byte(st.mem, st.shared[r].1 + off)
                    == st.shared[r].0[off]
        }
}

/// A placement keeps the physical-memory state sound: the placed bytes read
/// back at the returned address, every excluded range stays excluded and
/// keeps its bytes, and the dedup records stay sound.
pub proof fn lemma_place_spec_sound(st: PmState, data: Seq<u8>, mode: PlaceAs)
    requires
        bumps_wf(st.free),
        bumps_disjoint(st.free),
        shared_sound(st),
        data.len() <= u64::MAX,
        place_spec(st, data, mode).1 is Some,
    ensures
        bumps_wf(place_spec(st, data, mode).0.free),
        bumps_disjoint(place_spec(st, data, mode).0.free),
        shared_sound(place_spec(st, data, mode).0),
        chain_excludes(
            place_spec(st, data, mode).0.free,
            place_spec(st, data, mode).1->0 as int,
            place_spec(st, data, mode).1->0 + data.len(),
        ),
        forall|off: int|
            0 <= off < data.len() ==> mem_byte(
                place_spec(st, data, mode).0.mem,
                place_spec(st, data, mode).1->0 + off,
            ) == data[off],
        forall|lo: int, hi: int|
            #![trigger chain_excludes(place_spec(st, data, mode).0.free, lo, hi)]
            chain_excludes(st.free, lo, hi) ==> chain_excludes(
                place_spec(st, data, mode).0.free,
                lo,
                hi,
            ),
        forall|lo: int, hi: int, a: int|
            #![trigger chain_excludes(st.free, lo, hi), mem_byte(st.mem, a)]
            chain_excludes(st.free, lo, hi) && lo <= a < hi ==> mem_byte(
                place_spec(st, data, mode).0.mem,
                a,
            ) == mem_byte(st.mem, a),
{
    let (st2, pr) = place_spec(st, data, mode);
    let a = pr->0;
    let n = data.len() as u64;
    if mode is Shareable && share_lookup(st.shared, data) is Some {
        // A dedup hit: nothing changes; the record is sound.
        lemma_share_lookup_found(st.shared, data);
        let r = choose|r: int|
            0 <= r < st.shared.len() && #[trigger] st.shared[r] == (
                data,
                share_lookup(st.shared, data)->0,
            );
        assert(st.shared[r].1 == a as int && st.shared[r].0 == data);
    } else {
        // A fresh placement, possibly recorded.
        let (free2, ar) = chain_bump_alloc(st.free, n);
        lemma_chain_alloc_fresh(st.free, n);
        assert(st2.mem == st.mem.push((a as int, data)));
        assert(st2.free == free2);
        assert forall|off: int| 0 <= off < data.len() implies mem_byte(
            st2.mem,
            a + off,
        ) == data[off] by {
            assert(covers_at(st2.mem, st2.mem.len() - 1, a + off));
        }
        assert forall|lo: int, hi: int, aa: int|
            #![trigger chain_excludes(st.free, lo, hi), mem_byte(st.mem, aa)]
            chain_excludes(st.free, lo, hi) && lo <= aa < hi implies mem_byte(st2.mem, aa)
            == mem_byte(st.mem, aa) by {
            if n >= 1 {
                lemma_chain_alloc_misses(st.free, n, lo, hi);
                lemma_push_outside(st.mem, (a as int, data), aa);
            } else {
                lemma_push_outside(st.mem, (a as int, data), aa);
            }
        }
        assert(shared_sound(st2)) by {
            assert forall|r: int| 0 <= r < st2.shared.len() implies {
                &&& chain_excludes(
                    st2.free,
                    (#[trigger] st2.shared[r]).1,
                    st2.shared[r].1 + st2.shared[r].0.len(),
                )
                &&& forall|off: int|
                    0 <= off < st2.shared[r].0.len() ==> mem_byte(
                        st2.mem,
                        st2.shared[r].1 + off,
                    ) == st2.shared[r].0[off]
            } by {
                if r < st.shared.len() {
                    assert(st2.shared[r] == st.shared[r]);
                    assert(chain_excludes(
                        st.free,
                        st.shared[r].1,
                        st.shared[r].1 + st.shared[r].0.len(),
                    ));
                    assert forall|off: int| 0 <= off < st2.shared[r].0.len() implies mem_byte(
                        st2.mem,
                        st2.shared[r].1 + off,
                    ) == st2.shared[r].0[off] by {
                        if n >= 1 {
                            lemma_chain_alloc_misses(
                                st.free,
                                n,
                                st.shared[r].1,
                                st.shared[r].1 + st.shared[r].0.len(),
                            );
                        }
                        lemma_push_outside(st.mem, (a as int, data), st.shared[r].1 + off);
                    }
                } else {
                    assert(st2.shared[r] == (data, a as int));
                    assert forall|off: int| 0 <= off < data.len() implies mem_byte(
                        st2.mem,
                        a + off,
                    ) == data[off] by {
                        assert(covers_at(st2.mem, st2.mem.len() - 1, a + off));
                    }
                }
            }
        }
    }
}

} // verus!
