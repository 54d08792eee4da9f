//! The region heap: a growing list of contiguous regions, each with a bump
//! cursor. Regions are laid end to end from `HEAP_BASE`, in the order in which
//! they were created, and are never moved or freed one by one.
use vstd::prelude::*;
use linked_hash_map::LinkedHashMap;
use crate::errors::AllocatorError;
use crate::type_info::{WORD_SIZE, align_up};

verus! {

/// Size of the first region.
pub const INITIAL_SIZE: usize = 2048;

/// Each new region is this many times the size of the whole heap before it.
pub const EXPAND_FACTOR: usize = 2;

/// Address of the first region. Nothing below it is ever an object.
pub const HEAP_BASE: usize = 65536;

/// Bound on the total size of all regions, standing for the underlying
/// allocator's limit; growing past it fails with `LayoutInvalid`.
pub const MAX_HEAP_SIZE: usize = 1073741824;

/// Regions start on multiples of this.
pub const REGION_GRANULE: usize = 256;

#[verifier::external_type_specification]
#[verifier::external_body]
#[verifier::reject_recursive_types(K)]
#[verifier::reject_recursive_types(V)]
#[verifier::reject_recursive_types(S)]
pub struct ExLinkedHashMap<K, V, S>(LinkedHashMap<K, V, S>);

/// The committed regions, keyed by start address: start -> (unallocated start, size).
pub type RegionTable = LinkedHashMap<usize, (usize, usize)>;

/// The entries of a region table, in insertion order.
pub uninterp spec fn table_entries(m: RegionTable) -> Seq<(usize, (usize, usize))>;

/// Relies on LinkedHashMap::new: a new map has no entries.
#[verifier::external_body]
fn table_new() -> (r: RegionTable)
    ensures
        table_entries(r) == Seq::<(usize, (usize, usize))>::empty(),
{
    LinkedHashMap::new()
}

/// Relies on LinkedHashMap::len: the number of entries.
#[verifier::external_body]
fn table_len(m: &RegionTable) -> (r: usize)
    ensures
        r == table_entries(*m).len(),
{
    m.len()
}

/// Relies on LinkedHashMap::iter: it yields the entries in insertion order.
#[verifier::external_body]
fn table_entry(m: &RegionTable, i: usize) -> (r: (usize, (usize, usize)))
    requires
        i < table_entries(*m).len(),
    ensures
        r == table_entries(*m)[i as int],
{
    let (k, v) = m.iter().nth(i).unwrap();
    (*k, *v)
}

/// Relies on LinkedHashMap::insert: a key that is not present is appended at the back.
#[verifier::external_body]
fn table_push(m: &mut RegionTable, k: usize, v: (usize, usize))
    requires
        forall|j: int| 0 <= j < table_entries(*old(m)).len() ==> table_entries(*old(m))[j].0 != k,
    ensures
        table_entries(*final(m)) == table_entries(*old(m)).push((k, v)),
{
    m.insert(k, v);
}

/// Relies on LinkedHashMap::get_mut: the value of a present key is replaced where it stands.
#[verifier::external_body]
fn table_set(m: &mut RegionTable, i: usize, k: usize, v: (usize, usize))
    requires
        i < table_entries(*old(m)).len(),
        table_entries(*old(m))[i as int].0 == k,
        forall|j: int| 0 <= j < table_entries(*old(m)).len() && j != i ==> table_entries(*old(m))[j].0 != k,
    ensures
        table_entries(*final(m)) == table_entries(*old(m)).update(i as int, (k, v)),
{
    *m.get_mut(&k).unwrap() = v;
}

/// A region: the byte range `[start, start + size)`, allocated up to `unallocated_start`.
#[derive(Debug, Clone, Copy, PartialEq, Eq, Structural, Hash)]
pub struct HeapBlock {
    pub start: usize,
    pub unallocated_start: usize,
    pub size: usize,
}

impl HeapBlock {
    pub open spec fn spans(self, addr: int) -> bool {
        self.start <= addr < self.start + self.size
    }

    pub open spec fn end(self) -> int {
        self.start + self.size
    }

    /// What a region must be: cursor within bounds, at least `INITIAL_SIZE`
    /// bytes, starting on a granule, its footprint within the heap's bound.
    pub open spec fn wf(self) -> bool {
        &&& self.start <= self.unallocated_start <= self.start + self.size
        &&& self.size >= INITIAL_SIZE
        &&& self.start % REGION_GRANULE == 0
        &&& self.size <= footprint(self.size as int) < self.size + REGION_GRANULE
        &&& footprint(self.size as int) % REGION_GRANULE as int == 0
        &&& self.start + footprint(self.size as int) <= HEAP_BASE + MAX_HEAP_SIZE
    }

    pub fn contains(&self, ptr: usize) -> (r: bool)
        requires
            self.wf(),
        ensures
            r == self.spans(ptr as int),
    {
        ptr >= self.start && ptr < self.start + self.size
    }

    pub fn relative_offset(&self, ptr: usize) -> (r: usize)
        requires
            self.start <= ptr,
        ensures
            r == ptr - self.start,
    {
        ptr - self.start
    }

    pub fn absolute_offset(&self, offset: usize) -> (r: usize)
        requires
            self.wf(),
            offset <= self.size,
        ensures
            r == self.start + offset,
    {
        self.start + offset
    }

    pub fn block_end(&self) -> (r: usize)
        requires
            self.wf(),
        ensures
            r == self.end(),
    {
        self.start + self.size
    }

    pub fn allocated_size(&self) -> (r: usize)
        requires
            self.wf(),
        ensures
            r == self.unallocated_start - self.start,
    {
        self.unallocated_start - self.start
    }
}

/// Bytes of address space that a region of `size` bytes takes: its size
/// rounded up to whole granules, so that every region starts on a granule.
pub open spec fn footprint(size: int) -> int {
    align_up(size, REGION_GRANULE as int)
}

/// Address space taken by the first `n` regions.
pub open spec fn prefix_size(rs: Seq<HeapBlock>, n: int) -> int
    decreases n,
{
    if n <= 0 {
        0
    } else {
        prefix_size(rs, n - 1) + footprint(rs[n - 1].size as int)
    }
}

/// Sum of the sizes of the first `n` regions.
pub open spec fn size_sum(rs: Seq<HeapBlock>, n: int) -> int
    decreases n,
{
    if n <= 0 {
        0
    } else {
        size_sum(rs, n - 1) + rs[n - 1].size
    }
}

/// Whether `b` has room for `size` bytes at any alignment padding up to `align`.
pub open spec fn fits(b: HeapBlock, size: int, align: int) -> bool {
    b.size - (b.unallocated_start - b.start) >= size + (align - 1)
}

/// `i` is the first region, in insertion order, with room for the request.
pub open spec fn first_fit(rs: Seq<HeapBlock>, size: int, align: int, i: int) -> bool {
    &&& 0 <= i < rs.len()
    &&& fits(rs[i], size, align)
    &&& forall|j: int| 0 <= j < i ==> !fits(rs[j], size, align)
}

pub open spec fn none_fits(rs: Seq<HeapBlock>, size: int, align: int) -> bool {
    forall|j: int| 0 <= j < rs.len() ==> !fits(rs[j], size, align)
}

/// `b` after a bump allocation of `size` bytes at alignment `align`.
pub open spec fn bumped(b: HeapBlock, size: int, align: int) -> HeapBlock {
    HeapBlock { unallocated_start: (align_up(b.unallocated_start as int, align) + size) as usize, ..b }
}

/// Size of the region that an expansion for `min_size` bytes appends to a heap
/// of `total` bytes: the first region is `INITIAL_SIZE`, each later one twice
/// the heap, and where that is too small, twice the request aligned to `align`.
pub open spec fn expansion_size(total: int, min_size: int, align: int) -> int {
    let grown = if total == 0 { INITIAL_SIZE as int } else { total * EXPAND_FACTOR };
    if grown < min_size {
        align_up(min_size, align) * EXPAND_FACTOR
    } else {
        grown
    }
}

/// The heap can take one more region of `n` bytes.
pub open spec fn room_for(heap: HeapAllocator, n: int) -> bool {
    heap.extent + footprint(n) <= MAX_HEAP_SIZE
}

pub proof fn lemma_align_up(x: int, a: int)
    requires
        x >= 0,
        a > 0,
    ensures
        align_up(x, a) % a == 0,
        x <= align_up(x, a) < x + a,
{
    if x % a != 0 {
        assert((x + (a - x % a)) % a == 0) by (nonlinear_arith)
            requires a > 0, x >= 0;
    }
}

/// The region heap.
pub struct HeapAllocator {
    /// Total bytes of all regions.
    pub size: usize,
    /// Bytes of address space that the regions take, from `HEAP_BASE`.
    pub extent: usize,
    pub committed_regions: RegionTable,
    /// The words of all regions, the word at `HEAP_BASE + 8 * k` at index `k`.
    pub memory: Vec<u64>,
    /// False once the heap is torn down.
    pub available: bool,
}

impl HeapAllocator {
    /// The regions, in insertion order.
    pub open spec fn regions(&self) -> Seq<HeapBlock> {
        table_entries(self.committed_regions).map_values(
            |e: (usize, (usize, usize))| HeapBlock { start: e.0, unallocated_start: e.1.0, size: e.1.1 },
        )
    }

    #[verifier::opaque]
    pub open spec fn wf(&self) -> bool {
        let rs = self.regions();
        &&& forall|i: int| 0 <= i < rs.len() ==> (#[trigger] rs[i]).wf()
        &&& forall|i: int| 0 <= i < rs.len() ==> (#[trigger] rs[i]).start == HEAP_BASE + prefix_size(rs, i)
        &&& self.size == size_sum(rs, rs.len() as int)
        &&& self.extent == prefix_size(rs, rs.len() as int)
        &&& self.extent <= MAX_HEAP_SIZE
        &&& self.available ==> self.memory@.len() * WORD_SIZE == self.extent
    }

    /// Region `r` holds `addr`.
    pub open spec fn holds(&self, r: int, addr: int) -> bool {
        0 <= r < self.regions().len() && self.regions()[r].spans(addr)
    }

    pub open spec fn in_heap(&self, addr: int) -> bool {
        HEAP_BASE <= addr < HEAP_BASE + self.extent
    }

    /// Some region holds `addr`.
    pub open spec fn in_region(&self, addr: int) -> bool {
        self.holds(self.region_of(addr), addr)
    }

    /// The region that holds `addr`.
    pub open spec fn region_of(&self, addr: int) -> int {
        choose|r: int| self.holds(r, addr)
    }

    /// The word at a word-aligned address of the heap.
    pub open spec fn word_at(&self, addr: int) -> u64 {
        self.memory@[(addr - HEAP_BASE) / WORD_SIZE as int]
    }

    pub open spec fn words(&self) -> Seq<u64> {
        self.memory@
    }

    /// The parts of well-formedness that callers use directly.
    pub proof fn lemma_wf(&self)
        requires
            self.wf(),
        ensures
            forall|i: int| 0 <= i < self.regions().len() ==> (#[trigger] self.regions()[i]).wf(),
            self.extent <= MAX_HEAP_SIZE,
            self.size <= self.extent,
            self.available ==> self.memory@.len() * WORD_SIZE == self.extent,
            self.extent % REGION_GRANULE == 0,
            self.size == 0 || self.size >= INITIAL_SIZE,
            self.regions().len() == 0 <==> self.size == 0,
            self.regions().len() == 0 ==> self.extent == 0,
            self.size == size_sum(self.regions(), self.regions().len() as int),
            self.extent == prefix_size(self.regions(), self.regions().len() as int),
    {
        reveal(HeapAllocator::wf);
        Self::lemma_seq_facts(self.regions());
    }

    proof fn lemma_seq_facts(rs: Seq<HeapBlock>)
        requires
            forall|k: int| 0 <= k < rs.len() ==> (#[trigger] rs[k]).wf(),
        ensures
            size_sum(rs, rs.len() as int) == 0 || size_sum(rs, rs.len() as int) >= INITIAL_SIZE,
            rs.len() == 0 <==> size_sum(rs, rs.len() as int) == 0,
            rs.len() == 0 ==> prefix_size(rs, rs.len() as int) == 0,
            prefix_size(rs, rs.len() as int) % REGION_GRANULE as int == 0,
            size_sum(rs, rs.len() as int) <= prefix_size(rs, rs.len() as int),
    {
        if rs.len() > 0 {
            Self::lemma_size_sum_mono(rs, 1, rs.len() as int);
            assert(rs[0].wf());
            assert(size_sum(rs, 1) == size_sum(rs, 0) + rs[0].size);
            assert(size_sum(rs, 0) == 0);
        }
        Self::lemma_prefix_granule(rs, rs.len() as int);
        Self::lemma_size_le_prefix(rs, rs.len() as int);
    }

    proof fn lemma_size_sum_mono(rs: Seq<HeapBlock>, i: int, j: int)
        requires
            0 <= i <= j <= rs.len(),
        ensures
            size_sum(rs, i) <= size_sum(rs, j),
        decreases j - i,
    {
        if i < j {
            Self::lemma_size_sum_mono(rs, i, j - 1);
        }
    }

    proof fn lemma_size_le_prefix(rs: Seq<HeapBlock>, n: int)
        requires
            0 <= n <= rs.len(),
            forall|k: int| 0 <= k < rs.len() ==> (#[trigger] rs[k]).wf(),
        ensures
            size_sum(rs, n) <= prefix_size(rs, n),
        decreases n,
    {
        if n > 0 {
            Self::lemma_size_le_prefix(rs, n - 1);
            assert(rs[n - 1].wf());
        }
    }

    pub fn new() -> (r: Self)
        ensures
            r.wf(),
            r.available,
            r.regions().len() == 0,
            r.size == 0,
            r.extent == 0,
    {
        let r = HeapAllocator { size: 0, extent: 0, committed_regions: table_new(), memory: Vec::new(), available: true };
        proof {
            reveal(HeapAllocator::wf);
        }
        r
    }

    pub proof fn lemma_prefix_mono(rs: Seq<HeapBlock>, i: int, j: int)
        requires
            0 <= i <= j <= rs.len(),
            forall|k: int| 0 <= k < rs.len() ==> (#[trigger] rs[k]).wf(),
        ensures
            prefix_size(rs, i) <= prefix_size(rs, j),
        decreases j - i,
    {
        if i < j {
            Self::lemma_prefix_mono(rs, i, j - 1);
            assert(rs[j - 1].wf());
        }
    }

    /// Region `i` ends at or before region `j` starts, and every region ends
    /// within the heap.
    pub proof fn lemma_ordered(&self, i: int, j: int)
        requires
            self.wf(),
            0 <= i < self.regions().len(),
            0 <= j < self.regions().len(),
        ensures
            i < j ==> self.regions()[i].end() <= self.regions()[j].start,
            i < j ==> self.regions()[i].start + footprint(self.regions()[i].size as int) <= self.regions()[j].start,
            self.regions()[i].end() <= HEAP_BASE + self.extent,
            self.regions()[i].start + footprint(self.regions()[i].size as int) <= HEAP_BASE + self.extent,
            HEAP_BASE <= self.regions()[i].start,
    {
        reveal(HeapAllocator::wf);
        let rs = self.regions();
        assert(rs[i].wf());
        assert(rs[i].start == HEAP_BASE + prefix_size(rs, i));
        assert(rs[j].start == HEAP_BASE + prefix_size(rs, j));
        assert forall|k: int| 0 <= k < rs.len() implies (#[trigger] rs[k]).wf() by {}
        Self::lemma_prefix_mono(rs, 0, i);
        if i < j {
            Self::lemma_prefix_mono(rs, i + 1, j);
        }
        Self::lemma_prefix_mono(rs, i + 1, rs.len() as int);
    }

    /// No address lies in two regions, and each lies in the heap.
    pub proof fn lemma_unique(&self, r1: int, r2: int, a: int)
        requires
            self.wf(),
            self.holds(r1, a),
            self.holds(r2, a),
        ensures
            r1 == r2,
            self.in_heap(a),
            self.region_of(a) == r1,
    {
        self.lemma_ordered(r1, r2);
        self.lemma_ordered(r2, r1);
        let r = self.region_of(a);
        assert(self.holds(r, a));
        self.lemma_ordered(r, r1);
        self.lemma_ordered(r1, r);
    }

}

/// Index in the word vector of the word at `addr`.
pub open spec fn word_index(addr: int) -> int {
    (addr - HEAP_BASE) / WORD_SIZE as int
}

impl HeapAllocator {
    pub fn region_count(&self) -> (r: usize)
        ensures
            r == self.regions().len(),
    {
        table_len(&self.committed_regions)
    }

    pub fn region(&self, i: usize) -> (r: HeapBlock)
        requires
            i < self.regions().len(),
        ensures
            r == self.regions()[i as int],
    {
        let (k, v) = table_entry(&self.committed_regions, i);
        HeapBlock { start: k, unallocated_start: v.0, size: v.1 }
    }

    /// The index of the region that holds `addr`, if any.
    pub fn region_index_of(&self, addr: usize) -> (r: Option<usize>)
        requires
            self.wf(),
        ensures
            r matches Some(i) ==> self.holds(i as int, addr as int) && self.region_of(addr as int) == i,
            r is None <==> !self.in_region(addr as int),
    {
        let n = self.region_count();
        let mut i: usize = 0;
        while i < n
            invariant
                self.wf(),
                n == self.regions().len(),
                i <= n,
                forall|j: int| 0 <= j < i ==> !self.holds(j, addr as int),
            decreases n - i,
        {
            let b = self.region(i);
            if addr >= b.start && addr - b.start < b.size {
                proof {
                    self.lemma_unique(i as int, i as int, addr as int);
                }
                return Some(i);
            }
            i = i + 1;
        }
        None
    }

    /// The region that holds `ptr`, if any.
    pub fn get_block(&self, ptr: usize) -> (r: Option<HeapBlock>)
        requires
            self.wf(),
        ensures
            r matches Some(b) ==> b == self.regions()[self.region_of(ptr as int)] && self.holds(
                self.region_of(ptr as int),
                ptr as int,
            ),
            r is None <==> !self.in_region(ptr as int),
    {
        match self.region_index_of(ptr) {
            Some(i) => Some(self.region(i)),
            None => None,
        }
    }

    /// The position, in insertion order, of the region that starts where `block` does.
    pub fn block_index(&self, block: &HeapBlock) -> (r: Option<usize>)
        ensures
            r matches Some(i) ==> i < self.regions().len() && self.regions()[i as int].start == block.start
                && forall|j: int| 0 <= j < i ==> self.regions()[j].start != block.start,
            r is None ==> forall|j: int|
                0 <= j < self.regions().len() ==> self.regions()[j].start != block.start,
    {
        let n = self.region_count();
        let mut i: usize = 0;
        while i < n
            invariant
                n == self.regions().len(),
                i <= n,
                forall|j: int| 0 <= j < i ==> self.regions()[j].start != block.start,
            decreases n - i,
        {
            if self.region(i).start == block.start {
                return Some(i);
            }
            i = i + 1;
        }
        None
    }

    /// The word at the word-aligned heap address `addr`.
    pub fn read_word(&self, addr: usize) -> (r: u64)
        requires
            self.wf(),
            self.available,
            self.in_heap(addr as int),
            addr % WORD_SIZE == 0,
        ensures
            r == self.word_at(addr as int),
    {
        proof {
            self.lemma_wf();
        }
        self.memory[(addr - HEAP_BASE) / WORD_SIZE]
    }

    /// Stores `value` at the word-aligned heap address `addr`.
    pub fn write_word(&mut self, addr: usize, value: u64)
        requires
            old(self).wf(),
            old(self).available,
            old(self).in_heap(addr as int),
            addr % WORD_SIZE == 0,
        ensures
            final(self).wf(),
            final(self).available,
            final(self).size == old(self).size,
            final(self).extent == old(self).extent,
            final(self).regions() == old(self).regions(),
            final(self).words() == old(self).words().update(word_index(addr as int), value),
    {
        proof {
            reveal(HeapAllocator::wf);
        }
        let k = (addr - HEAP_BASE) / WORD_SIZE;
        self.memory.set(k, value);
    }

    /// The first region, in insertion order, with room for `size` bytes at alignment `align`.
    fn find_fit(&self, size: usize, align: usize) -> (r: Option<usize>)
        requires
            self.wf(),
            size <= MAX_HEAP_SIZE,
            1 <= align <= MAX_HEAP_SIZE,
        ensures
            r matches Some(i) ==> first_fit(self.regions(), size as int, align as int, i as int),
            r is None ==> none_fits(self.regions(), size as int, align as int),
    {
        proof {
            self.lemma_wf();
        }
        let n = self.region_count();
        let mut i: usize = 0;
        while i < n
            invariant
                n == self.regions().len(),
                i <= n,
                size <= MAX_HEAP_SIZE,
                1 <= align <= MAX_HEAP_SIZE,
                forall|j: int| 0 <= j < n ==> (#[trigger] self.regions()[j]).wf(),
                forall|j: int| 0 <= j < i ==> !fits(self.regions()[j], size as int, align as int),
            decreases n - i,
        {
            let b = self.region(i);
            proof {
                assert(self.regions()[i as int].wf());
            }
            if b.allocated_size() + size + (align - 1) <= b.size {
                return Some(i);
            }
            i = i + 1;
        }
        None
    }

    /// Appends a zeroed region of `expansion_size(size, min_size, align)` bytes,
    /// placed at the next granule after the last region.
    pub fn expand(&mut self, min_size: usize, align: usize) -> (r: Result<(), AllocatorError>)
        requires
            old(self).wf(),
            1 <= align,
        ensures
            final(self).wf(),
            final(self).available == old(self).available,
            !old(self).available ==> r == Err::<(), AllocatorError>(AllocatorError::AllocatorClosed) && *final(self) == *old(self),
            old(self).available && !room_for(*old(self), expansion_size(old(self).size as int, min_size as int, align as int))
                ==> r == Err::<(), AllocatorError>(AllocatorError::LayoutInvalid) && *final(self) == *old(self),
            r is Ok <==> old(self).available && room_for(*old(self), expansion_size(old(self).size as int, min_size as int, align as int)),
            r is Ok ==> {
                let n = expansion_size(old(self).size as int, min_size as int, align as int);
                let start = (HEAP_BASE + old(self).extent) as usize;
                &&& final(self).regions() == old(self).regions().push(HeapBlock { start, unallocated_start: start, size: n as usize })
                &&& final(self).size == old(self).size + n
                &&& final(self).extent == old(self).extent + footprint(n)
                &&& final(self).words().len() == old(self).words().len() + footprint(n) / (WORD_SIZE as int)
                &&& final(self).words().subrange(0, old(self).words().len() as int) == old(self).words()
                &&& forall|k: int| old(self).words().len() <= k < final(self).words().len() ==> final(self).words()[k] == 0
            },
    {
        if !self.available {
            return Err(AllocatorError::AllocatorClosed);
        }
        proof {
            self.lemma_wf();
        }
        let (n, fp) = match new_region_size(self.size, self.extent, min_size, align) {
            Some(p) => p,
            None => return Err(AllocatorError::LayoutInvalid),
        };
        self.append_region(n, fp);
        Ok(())
    }

    fn append_region(&mut self, n: usize, fp: usize)
        requires
            old(self).wf(),
            old(self).available,
            n >= INITIAL_SIZE,
            fp == footprint(n as int),
            old(self).extent + fp <= MAX_HEAP_SIZE,
        ensures
            final(self).wf(),
            final(self).available,
            ({
                let start = (HEAP_BASE + old(self).extent) as usize;
                &&& final(self).regions() == old(self).regions().push(HeapBlock { start, unallocated_start: start, size: n })
                &&& final(self).size == old(self).size + n
                &&& final(self).extent == old(self).extent + fp
                &&& final(self).words().len() == old(self).words().len() + (fp / WORD_SIZE) as int
                &&& final(self).words().subrange(0, old(self).words().len() as int) == old(self).words()
                &&& forall|k: int| old(self).words().len() <= k < final(self).words().len() ==> final(self).words()[k] == 0
            }),
    {
        proof {
            self.lemma_wf();
            self.lemma_start_fresh();
            lemma_align_up(n as int, REGION_GRANULE as int);
        }
        let start = HEAP_BASE + self.extent;
        let ghost old_self = *self;
        extend_zeroed(&mut self.memory, fp / WORD_SIZE);
        table_push(&mut self.committed_regions, start, (start, n));
        self.size = self.size + n;
        self.extent = self.extent + fp;
        proof {
            let nb = HeapBlock { start, unallocated_start: start, size: n };
            assert(self.regions() =~= old_self.regions().push(nb));
            assert((fp / 8) * 8 == fp);
            Self::lemma_wf_push(old_self, *self, nb);
        }
    }

    /// The address just past the heap starts no region.
    proof fn lemma_start_fresh(&self)
        requires
            self.wf(),
        ensures
            forall|j: int| 0 <= j < table_entries(self.committed_regions).len()
                ==> table_entries(self.committed_regions)[j].0 != HEAP_BASE + self.extent,
    {
        let rs = self.regions();
        assert forall|j: int| 0 <= j < table_entries(self.committed_regions).len()
            implies table_entries(self.committed_regions)[j].0 != HEAP_BASE + self.extent by {
            self.lemma_ordered(j, j);
            self.lemma_wf();
            assert(rs[j].wf());
            assert(rs[j].start == table_entries(self.committed_regions)[j].0);
        }
    }

    proof fn lemma_wf_push(old_heap: HeapAllocator, heap: HeapAllocator, nb: HeapBlock)
        requires
            old_heap.wf(),
            nb.wf(),
            nb.start == HEAP_BASE + old_heap.extent,
            heap.regions() == old_heap.regions().push(nb),
            heap.size == old_heap.size + nb.size,
            heap.extent == old_heap.extent + footprint(nb.size as int),
            heap.extent <= MAX_HEAP_SIZE,
            heap.available,
            heap.memory@.len() * WORD_SIZE == heap.extent,
        ensures
            heap.wf(),
    {
        reveal(HeapAllocator::wf);
        let old_regions = old_heap.regions();
        let rs = heap.regions();
        Self::lemma_prefix_push(old_regions, nb, old_regions.len() as int);
        assert forall|i: int| 0 <= i < rs.len() implies (#[trigger] rs[i]).start == HEAP_BASE + prefix_size(rs, i) by {
            if i < old_regions.len() {
                Self::lemma_prefix_push(old_regions, nb, i);
                assert(rs[i] == old_regions[i]);
            }
        }
        assert forall|i: int| 0 <= i < rs.len() implies (#[trigger] rs[i]).wf() by {
            if i < old_regions.len() {
                assert(rs[i] == old_regions[i]);
            }
        }
    }

    proof fn lemma_wf_set(old_heap: HeapAllocator, heap: HeapAllocator, i: int, nb: HeapBlock)
        requires
            old_heap.wf(),
            0 <= i < old_heap.regions().len(),
            nb.wf(),
            nb.start == old_heap.regions()[i].start,
            nb.size == old_heap.regions()[i].size,
            heap.regions() == old_heap.regions().update(i, nb),
            heap.size == old_heap.size,
            heap.extent == old_heap.extent,
            heap.available == old_heap.available,
            heap.memory == old_heap.memory,
        ensures
            heap.wf(),
    {
        reveal(HeapAllocator::wf);
        let old_regions = old_heap.regions();
        let rs = heap.regions();
        assert forall|n: int| 0 <= n <= rs.len() implies prefix_size(rs, n) == prefix_size(old_regions, n)
            && size_sum(rs, n) == size_sum(old_regions, n) by {
            Self::lemma_prefix_same(old_regions, rs, n);
        }
        assert forall|k: int| 0 <= k < rs.len() implies (#[trigger] rs[k]).wf() by {
            if k != i {
                assert(rs[k] == old_regions[k]);
            }
        }
        assert forall|k: int| 0 <= k < rs.len() implies (#[trigger] rs[k]).start == HEAP_BASE + prefix_size(rs, k) by {
            assert(old_regions[k].start == HEAP_BASE + prefix_size(old_regions, k));
        }
    }

    proof fn lemma_prefix_same(a: Seq<HeapBlock>, b: Seq<HeapBlock>, n: int)
        requires
            0 <= n <= a.len(),
            a.len() == b.len(),
            forall|k: int| 0 <= k < a.len() ==> a[k].size == b[k].size,
        ensures
            prefix_size(a, n) == prefix_size(b, n),
            size_sum(a, n) == size_sum(b, n),
        decreases n,
    {
        if n > 0 {
            Self::lemma_prefix_same(a, b, n - 1);
        }
    }

    /// Bump-allocates `size` bytes at alignment `align` in region `i`.
    fn bump(&mut self, i: usize, size: usize, align: usize) -> (r: usize)
        requires
            old(self).wf(),
            old(self).available,
            i < old(self).regions().len(),
            size <= MAX_HEAP_SIZE,
            1 <= align <= MAX_HEAP_SIZE,
            fits(old(self).regions()[i as int], size as int, align as int),
        ensures
            final(self).wf(),
            final(self).available,
            final(self).size == old(self).size,
            final(self).extent == old(self).extent,
            final(self).words() == old(self).words(),
            final(self).regions() == old(self).regions().update(
                i as int,
                bumped(old(self).regions()[i as int], size as int, align as int),
            ),
            r == align_up(old(self).regions()[i as int].unallocated_start as int, align as int),
            r % align == 0,
    {
        proof {
            self.lemma_wf();
        }
        let b = self.region(i);
        proof {
            lemma_align_up(b.unallocated_start as int, align as int);
        }
        let rem = b.unallocated_start % align;
        let padding = if rem == 0 { 0 } else { align - rem };
        let addr = b.unallocated_start + padding;
        proof {
            assert forall|j: int| 0 <= j < table_entries(self.committed_regions).len() && j != i
                implies table_entries(self.committed_regions)[j].0 != b.start by {
                assert(self.regions()[j].start == table_entries(self.committed_regions)[j].0);
                if j < i {
                    self.lemma_ordered(j, i as int);
                } else {
                    self.lemma_ordered(i as int, j);
                }
                assert(self.regions()[j].wf());
            }
        }
        let ghost old_self = *self;
        table_set(&mut self.committed_regions, i, b.start, (addr + size, b.size));
        proof {
            let nb = bumped(b, size as int, align as int);
            assert(self.regions() =~= old_self.regions().update(i as int, nb));
            Self::lemma_wf_set(old_self, *self, i as int, nb);
        }
        addr
    }

    /// Allocates `size` bytes at alignment `align` in the first region, in
    /// insertion order, with room for them; expands the heap once if none has.
    pub fn allocate(&mut self, size: usize, align: usize) -> (r: Result<usize, AllocatorError>)
        requires
            old(self).wf(),
            1 <= size,
            1 <= align,
        ensures
            final(self).wf(),
            final(self).available == old(self).available,
            !old(self).available ==> r == Err::<usize, AllocatorError>(AllocatorError::AllocatorClosed)
                && *final(self) == *old(self),
            forall|i: int| #![auto] old(self).available && first_fit(old(self).regions(), size as int, align as int, i) ==> {
                &&& r == Ok::<usize, AllocatorError>(
                    align_up(old(self).regions()[i].unallocated_start as int, align as int) as usize,
                )
                &&& final(self).regions() == old(self).regions().update(
                    i,
                    bumped(old(self).regions()[i], size as int, align as int),
                )
                &&& final(self).size == old(self).size
                &&& final(self).extent == old(self).extent
                &&& final(self).words() == old(self).words()
            },
            old(self).available && none_fits(old(self).regions(), size as int, align as int) ==> {
                let n = expansion_size(old(self).size as int, size + align - 1, align as int);
                let start = (HEAP_BASE + old(self).extent) as usize;
                let nb = HeapBlock { start, unallocated_start: start, size: n as usize };
                &&& !room_for(*old(self), n) ==> r == Err::<usize, AllocatorError>(
                    AllocatorError::LayoutInvalid,
                ) && *final(self) == *old(self)
                &&& room_for(*old(self), n) ==> {
                    &&& r == Ok::<usize, AllocatorError>(align_up(start as int, align as int) as usize)
                    &&& final(self).regions() == old(self).regions().push(nb).update(
                        old(self).regions().len() as int,
                        bumped(nb, size as int, align as int),
                    )
                    &&& final(self).size == old(self).size + n
                    &&& final(self).extent == old(self).extent + footprint(n)
                    &&& final(self).words().subrange(0, old(self).words().len() as int) == old(self).words()
                    &&& forall|k: int|
                        old(self).words().len() <= k < final(self).words().len() ==> final(self).words()[k] == 0
                }
            },
            r matches Ok(addr) ==> {
                let i = final(self).region_of(addr as int);
                &&& final(self).holds(i, addr as int)
                &&& addr % align == 0
                &&& addr + size == final(self).regions()[i].unallocated_start
            },
            r matches Ok(addr) ==> {
                let i = final(self).region_of(addr as int);
                &&& old(self).regions().len() <= final(self).regions().len()
                &&& forall|k: int|
                    0 <= k < old(self).regions().len() ==> {
                        let a = old(self).regions()[k];
                        let b = #[trigger] final(self).regions()[k];
                        &&& b.start == a.start
                        &&& b.size == a.size
                        &&& a.unallocated_start <= b.unallocated_start
                    }
                &&& old(self).size <= final(self).size
                &&& old(self).extent <= final(self).extent
                &&& final(self).words().subrange(0, old(self).words().len() as int) == old(self).words()
                &&& i < old(self).regions().len() ==> old(self).regions()[i].unallocated_start <= addr
            },
            r is Err ==> *final(self) == *old(self),
            old(self).available && r is Err ==> r == Err::<usize, AllocatorError>(AllocatorError::LayoutInvalid),
            old(self).available && r is Err ==> none_fits(old(self).regions(), size as int, align as int)
                && !room_for(*old(self), expansion_size(old(self).size as int, size + align - 1, align as int)),
            final(self).size == old(self).size || final(self).size == old(self).size + expansion_size(
                old(self).size as int,
                size + align - 1,
                align as int,
            ),
    {
        if !self.available {
            return Err(AllocatorError::AllocatorClosed);
        }
        if size > MAX_HEAP_SIZE || align > MAX_HEAP_SIZE {
            proof {
                self.lemma_too_large(size as int, align as int);
            }
            return Err(AllocatorError::LayoutInvalid);
        }
        let ghost old_self = *self;
        match self.find_fit(size, align) {
            Some(i) => {
                let addr = self.bump(i, size, align);
                proof {
                    self.lemma_after_bump(old_self, i as int, size as int, align as int, addr as int);
                    assert(self.words().subrange(0, old_self.words().len() as int) =~= old_self.words());
                    Self::lemma_bump_frame(old_self, self.regions(), i as int, size as int, align as int);
                }
                Ok(addr)
            },
            None => {
                match self.expand(size + (align - 1), align) {
                    Ok(()) => {},
                    Err(e) => {
                        return Err(e);
                    },
                }
                let ghost mid = *self;
                proof {
                    mid.lemma_wf();
                    let last = old_self.regions().len() as int;
                    assert(mid.regions()[last].wf());
                    assert(fits(mid.regions()[last], size as int, align as int));
                    assert forall|j: int| 0 <= j < last implies !fits(mid.regions()[j], size as int, align as int) by {
                        assert(mid.regions()[j] == old_self.regions()[j]);
                    }
                }
                match self.find_fit(size, align) {
                    Some(i) => {
                        proof {
                            let last = old_self.regions().len() as int;
                            if i < last {
                                assert(mid.regions()[i as int] == old_self.regions()[i as int]);
                            }
                            assert(i == last);
                        }
                        let addr = self.bump(i, size, align);
                        proof {
                            self.lemma_after_bump(mid, i as int, size as int, align as int, addr as int);
                            Self::lemma_bump_frame(mid, self.regions(), i as int, size as int, align as int);
                            assert(self.words().subrange(0, old_self.words().len() as int) =~= old_self.words()) by {
                                assert(mid.words().subrange(0, old_self.words().len() as int) == old_self.words());
                            }
                        }
                        Ok(addr)
                    },
                    None => {
                        proof {
                            let last = old_self.regions().len() as int;
                            assert(!fits(mid.regions()[last], size as int, align as int));
                        }
                        Err(AllocatorError::LayoutInvalid)
                    },
                }
            },
        }
    }

    /// A request larger than any region can be has no room anywhere.
    proof fn lemma_too_large(&self, size: int, align: int)
        requires
            self.wf(),
            size >= 1,
            align >= 1,
            size > MAX_HEAP_SIZE || align > MAX_HEAP_SIZE,
        ensures
            none_fits(self.regions(), size, align),
            !room_for(*self, expansion_size(self.size as int, size + align - 1, align)),
    {
        self.lemma_wf();
        assert forall|j: int| 0 <= j < self.regions().len() implies !fits(self.regions()[j], size, align) by {
            assert(self.regions()[j].wf());
            self.lemma_ordered(j, j);
        }
        let m = size + align - 1;
        lemma_align_up(m, align);
        let n = expansion_size(self.size as int, m, align);
        lemma_align_up(n, REGION_GRANULE as int);
    }

    proof fn lemma_bump_frame(before: HeapAllocator, rs: Seq<HeapBlock>, i: int, size: int, align: int)
        requires
            before.wf(),
            0 <= i < before.regions().len(),
            size >= 0,
            align >= 1,
            fits(before.regions()[i], size, align),
            rs == before.regions().update(i, bumped(before.regions()[i], size, align)),
        ensures
            forall|k: int|
                0 <= k < before.regions().len() ==> {
                    let a = before.regions()[k];
                    let b = #[trigger] rs[k];
                    &&& b.start == a.start
                    &&& b.size == a.size
                    &&& a.unallocated_start <= b.unallocated_start
                },
    {
        before.lemma_wf();
        let b = before.regions()[i];
        assert(b.wf());
        lemma_align_up(b.unallocated_start as int, align);
        assert(align_up(b.unallocated_start as int, align) + size <= b.end());
        assert(rs[i].unallocated_start == align_up(b.unallocated_start as int, align) + size);
    }

    proof fn lemma_after_bump(&self, before: HeapAllocator, i: int, size: int, align: int, addr: int)
        requires
            before.wf(),
            self.wf(),
            0 <= i < before.regions().len(),
            size >= 1,
            align >= 1,
            fits(before.regions()[i], size, align),
            self.regions() == before.regions().update(i, bumped(before.regions()[i], size, align)),
            addr == align_up(before.regions()[i].unallocated_start as int, align),
        ensures
            self.holds(i, addr),
            self.region_of(addr) == i,
            addr + size == self.regions()[i].unallocated_start,
    {
        before.lemma_wf();
        let b = before.regions()[i];
        assert(b.wf());
        lemma_align_up(b.unallocated_start as int, align);
        assert(self.regions()[i] == bumped(b, size, align));
        self.lemma_unique(i, i, addr);
    }

    proof fn lemma_prefix_push(rs: Seq<HeapBlock>, b: HeapBlock, n: int)
        requires
            0 <= n <= rs.len(),
        ensures
            prefix_size(rs.push(b), n) == prefix_size(rs, n),
            size_sum(rs.push(b), n) == size_sum(rs, n),
        decreases n,
    {
        if n > 0 {
            Self::lemma_prefix_push(rs, b, n - 1);
        }
    }

    proof fn lemma_prefix_granule(rs: Seq<HeapBlock>, n: int)
        requires
            0 <= n <= rs.len(),
            forall|j: int| 0 <= j < rs.len() ==> (#[trigger] rs[j]).wf(),
        ensures
            prefix_size(rs, n) % REGION_GRANULE as int == 0,
        decreases n,
    {
        if n > 0 {
            Self::lemma_prefix_granule(rs, n - 1);
            assert(rs[n - 1].wf());
        }
    }
}

/// The size of the region that an expansion appends, and its footprint, if
/// the heap has room for it.
fn new_region_size(total: usize, extent: usize, min_size: usize, align: usize) -> (r: Option<(usize, usize)>)
    requires
        total <= extent <= MAX_HEAP_SIZE,
        total == 0 || total >= INITIAL_SIZE,
        1 <= align,
    ensures
        r matches Some((n, fp)) ==> n == expansion_size(total as int, min_size as int, align as int)
            && fp == footprint(n as int) && extent + fp <= MAX_HEAP_SIZE && n >= INITIAL_SIZE,
        r is None <==> extent + footprint(expansion_size(total as int, min_size as int, align as int)) > MAX_HEAP_SIZE,
{
    let n: usize = if total == 0 {
        INITIAL_SIZE
    } else {
        total * EXPAND_FACTOR
    };
    let n = if n < min_size {
        proof {
            lemma_align_up(min_size as int, align as int);
        }
        if min_size > MAX_HEAP_SIZE {
            proof {
                lemma_align_up(align_up(min_size as int, align as int) * 2, REGION_GRANULE as int);
            }
            return None;
        }
        let rem = min_size % align;
        let aligned: usize = if rem == 0 {
            min_size
        } else {
            if align - rem > MAX_HEAP_SIZE {
                proof {
                    lemma_align_up(align_up(min_size as int, align as int) * 2, REGION_GRANULE as int);
                }
                return None;
            }
            min_size + (align - rem)
        };
        if aligned > MAX_HEAP_SIZE {
            proof {
                lemma_align_up(align_up(min_size as int, align as int) * 2, REGION_GRANULE as int);
            }
            return None;
        }
        aligned * EXPAND_FACTOR
    } else {
        n
    };
    proof {
        lemma_align_up(n as int, REGION_GRANULE as int);
    }
    if n > MAX_HEAP_SIZE {
        return None;
    }
    let rem = n % REGION_GRANULE;
    let fp = if rem == 0 { n } else { n + (REGION_GRANULE - rem) };
    if fp > MAX_HEAP_SIZE - extent {
        return None;
    }
    Some((n, fp))
}

/// Appends `n` zero words to `memory`.
fn extend_zeroed(memory: &mut Vec<u64>, n: usize)
    ensures
        final(memory)@.len() == old(memory)@.len() + n,
        final(memory)@.subrange(0, old(memory)@.len() as int) == old(memory)@,
        forall|j: int| old(memory)@.len() <= j < final(memory)@.len() ==> final(memory)@[j] == 0,
{
    let ghost old_words = memory@;
    let mut k: usize = 0;
    while k < n
        invariant
            k <= n,
            memory@.len() == old_words.len() + k,
            memory@.subrange(0, old_words.len() as int) == old_words,
            forall|j: int| old_words.len() <= j < memory@.len() ==> memory@[j] == 0,
        decreases n - k,
    {
        memory.push(0);
        k = k + 1;
    }
}

impl HeapAllocator {
    /// Moves the cursor of region `i` to `cursor`.
    pub fn set_cursor(&mut self, i: usize, cursor: usize)
        requires
            old(self).wf(),
            i < old(self).regions().len(),
            old(self).regions()[i as int].start <= cursor <= old(self).regions()[i as int].end(),
        ensures
            final(self).wf(),
            final(self).available == old(self).available,
            final(self).size == old(self).size,
            final(self).extent == old(self).extent,
            final(self).words() == old(self).words(),
            final(self).regions() == old(self).regions().update(
                i as int,
                HeapBlock { unallocated_start: cursor, ..old(self).regions()[i as int] },
            ),
    {
        proof {
            self.lemma_wf();
        }
        let b = self.region(i);
        proof {
            assert forall|j: int| 0 <= j < table_entries(self.committed_regions).len() && j != i
                implies table_entries(self.committed_regions)[j].0 != b.start by {
                assert(self.regions()[j].start == table_entries(self.committed_regions)[j].0);
                if j < i {
                    self.lemma_ordered(j, i as int);
                } else {
                    self.lemma_ordered(i as int, j);
                }
                assert(self.regions()[j].wf());
            }
        }
        let ghost old_self = *self;
        table_set(&mut self.committed_regions, i, b.start, (cursor, b.size));
        proof {
            let nb = HeapBlock { unallocated_start: cursor, ..b };
            assert(self.regions() =~= old_self.regions().update(i as int, nb));
            assert(b.wf());
            Self::lemma_wf_set(old_self, *self, i as int, nb);
        }
    }
}

impl HeapAllocator {
    /// Bytes allocated in all regions, padding included; 0 once torn down.
    pub fn allocated(&self) -> (r: usize)
        requires
            self.wf(),
        ensures
            !self.available ==> r == 0,
            self.available ==> r == allocated_sum(self.regions(), self.regions().len() as int),
    {
        if !self.available {
            return 0;
        }
        proof {
            self.lemma_wf();
        }
        let n = self.region_count();
        let mut total: usize = 0;
        let mut i: usize = 0;
        while i < n
            invariant
                self.wf(),
                n == self.regions().len(),
                i <= n,
                total == allocated_sum(self.regions(), i as int),
                total <= prefix_size(self.regions(), i as int),
                forall|k: int| 0 <= k < n ==> (#[trigger] self.regions()[k]).wf(),
                prefix_size(self.regions(), n as int) <= MAX_HEAP_SIZE,
            decreases n - i,
        {
            let b = self.region(i);
            proof {
                assert(b.wf());
                assert forall|k: int| 0 <= k < self.regions().len() implies (#[trigger] self.regions()[k]).size >= 0 by {
                    assert(self.regions()[k].wf());
                }
                Self::lemma_prefix_mono(self.regions(), i as int + 1, n as int);
            }
            total = total + b.allocated_size();
            i = i + 1;
        }
        total
    }

    /// Tears the heap down: every later allocation fails with `AllocatorClosed`.
    pub fn free(&mut self)
        requires
            old(self).wf(),
        ensures
            final(self).wf(),
            !final(self).available,
            final(self).regions() == old(self).regions(),
            final(self).size == old(self).size,
    {
        proof {
            reveal(HeapAllocator::wf);
        }
        self.available = false;
        self.memory = Vec::new();
    }
}

/// Bytes allocated in the first `n` regions.
pub open spec fn allocated_sum(rs: Seq<HeapBlock>, n: int) -> int
    decreases n,
{
    if n <= 0 {
        0
    } else {
        allocated_sum(rs, n - 1) + (rs[n - 1].unallocated_start - rs[n - 1].start)
    }
}

} // verus!
