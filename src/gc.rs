//! The mark-compact collector: a bitmap of live object starts per region, a
//! live-size map, tracing from roots, and sliding compaction driven by
//! per-block offset tables.
use vstd::prelude::*;
use std::collections::HashMap;
use crate::bits::{bit_of, bit_set, lemma_clear_bit, lemma_set_bit, lemma_zero_byte};
use vstd::set_lib::lemma_len_subset;
use vstd::seq_lib::seq_to_set_is_finite;
use crate::codec::{lemma_slot_index, slot_addr, ObjectAllocator};
use crate::errors::{AllocatorError, GCError};
use crate::codec::{grown_by, heap_full, write_effect};
use crate::object::{schema_ok, write_error, Data, DataView, Schema, SchemaView};
use crate::heap::{HeapBlock, HEAP_BASE};
use crate::type_info::WORD_SIZE;
use crate::object::{slot_kinds, total_size};
use crate::type_sig::{TypeSig, SIG_NAT, SIG_SUM};

verus! {

broadcast use vstd::std_specs::hash::group_hash_axioms;

/// Bytes in a compaction block.
pub const BYTES_PER_BLOCK: usize = 256;

/// The position of a bit: region (logical index), byte of its bitmap, bit of that byte.
#[derive(Debug, Clone, Copy, PartialEq, Eq, Structural)]
pub struct BitmapIndex {
    pub bitmap_nth: usize,
    pub offset: usize,
    pub bit: usize,
}

impl BitmapIndex {
    pub fn new(bitmap_nth: usize, offset: usize, bit: usize) -> (r: BitmapIndex)
        requires
            bit < 8,
        ensures
            r == (BitmapIndex { bitmap_nth, offset, bit }),
    {
        BitmapIndex { bitmap_nth, offset, bit }
    }

    pub fn bitmap_nth(&self) -> (r: usize)
        ensures
            r == self.bitmap_nth,
    {
        self.bitmap_nth
    }

    pub fn offset(&self) -> (r: usize)
        ensures
            r == self.offset,
    {
        self.offset
    }

    pub fn bit(&self) -> (r: usize)
        ensures
            r == self.bit,
    {
        self.bit
    }

    pub fn unpack(&self) -> (r: (usize, usize, usize))
        ensures
            r == (self.bitmap_nth, self.offset, self.bit),
    {
        (self.bitmap_nth, self.offset, self.bit)
    }

    /// Index of the word that the bit stands for, within its region.
    pub open spec fn word(self) -> int {
        self.offset * 8 + self.bit
    }
}

/// The collector and the heap it owns. Writes made through `write_object`
/// grow the bitmap with the heap, one row per region.
pub struct GarbageCollector {
    pub heap: ObjectAllocator,
    /// One bit per word of each region: set where a live object starts.
    pub bitmap: Vec<Vec<u8>>,
    /// The size of each live object, keyed by its address.
    pub size_of_living: HashMap<usize, usize>,
}

impl GarbageCollector {
    pub open spec fn regions(&self) -> Seq<HeapBlock> {
        self.heap.allocator.regions()
    }

    /// Address of word `w` of region `r`.
    pub open spec fn addr_of(&self, r: int, w: int) -> int {
        self.regions()[r].start + WORD_SIZE * w
    }

    /// Words in region `r`, a last partial word included.
    pub open spec fn words_in(&self, r: int) -> int {
        (self.regions()[r].size as int + 7) / WORD_SIZE as int
    }

    /// The bitmap has one byte per eight words of each region, a last partial
    /// byte included.
    pub open spec fn bm_wf(&self) -> bool {
        &&& self.heap.wf()
        &&& self.heap.allocator.available
        &&& self.bitmap@.len() == self.regions().len()
        &&& forall|r: int|
            0 <= r < self.regions().len() ==> (#[trigger] self.bitmap@[r])@.len() == (self.regions()[r].size as int + 63) / 64
    }

    /// The bit of word `w` of region `r`.
    pub open spec fn bit_at(&self, r: int, w: int) -> bool {
        bit_of(self.bitmap@[r]@[w / 8], w % 8)
    }

    /// The object at `a` is marked.
    pub open spec fn marked(&self, a: int) -> bool {
        let r = self.heap.allocator.region_of(a);
        &&& self.heap.allocator.holds(r, a)
        &&& a % WORD_SIZE as int == 0
        &&& self.bit_at(r, (a - self.regions()[r].start) / WORD_SIZE as int)
    }

    /// Every set bit marks an object of the heap, and the live-size map holds
    /// exactly the marked objects, each with its size.
    pub open spec fn marks_ok(&self) -> bool {
        &&& forall|r: int, w: int|
            0 <= r < self.regions().len() && 0 <= w < self.words_in(r) && #[trigger] self.bit_at(r, w)
                ==> self.heap.is_handle(self.addr_of(r, w))
        &&& forall|a: usize| #[trigger] self.size_of_living@.contains_key(a) <==> self.marked(a as int)
        &&& forall|a: usize|
            #[trigger] self.size_of_living@.contains_key(a) ==> self.size_of_living@[a] == self.heap.object_size(
                a as int,
            )
    }

    pub open spec fn wf(&self) -> bool {
        self.bm_wf() && self.marks_ok()
    }

    /// The marked addresses.
    pub open spec fn marked_set(&self) -> Set<int> {
        Set::new(|a: int| self.marked(a))
    }

    pub fn new() -> (r: GarbageCollector)
        ensures
            r.wf(),
            r.heap.allocated_objects@.len() == 0,
            r.regions().len() == 0,
            r.heap.allocator.size == 0,
            r.heap.allocator.extent == 0,
            r.heap.allocator.available,
            r.bitmap@.len() == 0,
            r.size_of_living@ == Map::<usize, usize>::empty(),
    {
        let r = GarbageCollector { heap: ObjectAllocator::new(), bitmap: Vec::new(), size_of_living: HashMap::new() };
        proof {
            assert forall|a: usize| #[trigger] r.size_of_living@.contains_key(a) <==> r.marked(a as int) by {
                if r.marked(a as int) {
                    let reg = r.heap.allocator.region_of(a as int);
                    assert(r.heap.allocator.holds(reg, a as int));
                }
            }
        }
        r
    }

    /// Word `w` of region `r` is the address `addr_of(r, w)`, which lies in region `r`.
    pub proof fn lemma_word_addr(&self, r: int, w: int)
        requires
            self.bm_wf(),
            0 <= r < self.regions().len(),
            0 <= w < self.words_in(r),
        ensures
            self.heap.allocator.holds(r, self.addr_of(r, w)),
            self.heap.allocator.region_of(self.addr_of(r, w)) == r,
            self.addr_of(r, w) % WORD_SIZE as int == 0,
            (self.addr_of(r, w) - self.regions()[r].start) / WORD_SIZE as int == w,
            w / 8 < self.bitmap@[r]@.len(),
    {
        let heap = self.heap.allocator;
        heap.lemma_wf();
        let b = self.regions()[r];
        assert(b.wf());
        let a = self.addr_of(r, w);
        let len = self.bitmap@[r]@.len() as int;
        assert(len == (b.size as int + 63) / 64);
        assert(w * 8 < b.size) by (nonlinear_arith)
            requires 0 <= w < (b.size + 7) / 8;
        assert(heap.holds(r, a));
        heap.lemma_unique(r, r, a);
        assert(a % 8 == 0) by (nonlinear_arith)
            requires a == b.start + 8 * w, b.start % 256 == 0, w >= 0;
        assert((a - b.start) / 8 == w) by (nonlinear_arith)
            requires a == b.start + 8 * w, w >= 0;
        assert(w / 8 < len) by (nonlinear_arith)
            requires 0 <= w, w * 8 < b.size, len == (b.size + 63) / 64;
    }

    /// An aligned address in a region is word `(a - start) / 8` of it.
    pub proof fn lemma_addr_word(&self, a: int)
        requires
            self.bm_wf(),
            self.heap.allocator.in_region(a),
            a % WORD_SIZE as int == 0,
        ensures
            ({
                let r = self.heap.allocator.region_of(a);
                let w = (a - self.regions()[r].start) / WORD_SIZE as int;
                &&& self.heap.allocator.holds(r, a)
                &&& 0 <= w < self.words_in(r)
                &&& self.addr_of(r, w) == a
                &&& w / 8 < self.bitmap@[r]@.len()
            }),
    {
        let heap = self.heap.allocator;
        heap.lemma_wf();
        let r = heap.region_of(a);
        let b = self.regions()[r];
        assert(b.wf());
        let w = (a - b.start) / 8;
        assert(0 <= w < (b.size + 7) / 8 && b.start + 8 * w == a) by (nonlinear_arith)
            requires b.start <= a < b.start + b.size, a % 8 == 0, b.start % 256 == 0, w == (a - b.start) / 8;
        self.lemma_word_addr(r, w);
    }

    /// The bit that stands for the word-aligned heap address `address`.
    pub fn address_to_bitmap_index(&self, address: usize) -> (r: BitmapIndex)
        requires
            self.bm_wf(),
            self.heap.allocator.in_region(address as int),
            address % WORD_SIZE == 0,
        ensures
            r.bitmap_nth == self.heap.allocator.region_of(address as int),
            r.word() == (address - self.regions()[r.bitmap_nth as int].start) / WORD_SIZE as int,
            r.bit < 8,
            r.bitmap_nth < self.bitmap@.len(),
            r.offset < self.bitmap@[r.bitmap_nth as int]@.len(),
            0 <= r.word() < self.words_in(r.bitmap_nth as int),
    {
        proof {
            self.lemma_addr_word(address as int);
        }
        let nth = match self.heap.allocator.region_index_of(address) {
            Some(i) => i,
            None => 0,
        };
        let block = self.heap.allocator.region(nth);
        let w = block.relative_offset(address) / WORD_SIZE;
        BitmapIndex::new(nth, w / 8, w % 8)
    }

    /// The address that the bit `index` stands for.
    pub fn bitmap_index_to_address(&self, index: BitmapIndex) -> (r: usize)
        requires
            self.bm_wf(),
            index.bitmap_nth < self.regions().len(),
            index.bit < 8,
            index.word() < self.words_in(index.bitmap_nth as int),
        ensures
            r == self.addr_of(index.bitmap_nth as int, index.word()),
    {
        proof {
            self.heap.allocator.lemma_wf();
            assert(self.regions()[index.bitmap_nth as int].wf());
            assert(index.word() * 8 < self.regions()[index.bitmap_nth as int].size) by (nonlinear_arith)
                requires index.word() < (self.regions()[index.bitmap_nth as int].size + 7) / 8;
        }
        let block = self.heap.allocator.region(index.bitmap_nth);
        block.absolute_offset((index.offset * 8 + index.bit) * WORD_SIZE)
    }

    /// Whether the object at `address` is marked.
    pub fn is_marked(&self, address: usize) -> (r: bool)
        requires
            self.bm_wf(),
            self.heap.allocator.in_region(address as int),
            address % WORD_SIZE == 0,
        ensures
            r == self.marked(address as int),
    {
        proof {
            self.lemma_addr_word(address as int);
        }
        let idx = self.address_to_bitmap_index(address);
        bit_set(self.bitmap[idx.bitmap_nth][idx.offset], idx.bit)
    }
}

impl GarbageCollector {
    /// Sets (`value`) or clears the bit of the object at `address`, and records
    /// or forgets its size.
    pub fn set_marked(&mut self, address: usize, value: bool)
        requires
            old(self).bm_wf(),
            old(self).heap.is_handle(address as int),
        ensures
            final(self).bm_wf(),
            final(self).heap == old(self).heap,
            forall|a: int| #[trigger] final(self).marked(a) == if a == address { value } else { old(self).marked(a) },
            forall|r: int, w: int|
                0 <= r < final(self).regions().len() && 0 <= w < final(self).words_in(r) ==> #[trigger] final(self).bit_at(r, w)
                    == if final(self).addr_of(r, w) == address { value } else { old(self).bit_at(r, w) },
            value ==> final(self).size_of_living@ == old(self).size_of_living@.insert(
                address,
                old(self).heap.object_size(address as int) as usize,
            ),
            !value ==> final(self).size_of_living@ == old(self).size_of_living@.remove(address),
            old(self).marks_ok() ==> final(self).marks_ok(),
    {
        proof {
            let i = choose|i: int| 0 <= i < self.heap.allocated_objects@.len() && self.heap.allocated_objects@[i] == address;
            assert(self.heap.valid_object(self.heap.allocated_objects@[i] as int));
            let heap = self.heap.allocator;
            heap.lemma_unique(heap.region_of(address as int), heap.region_of(address as int), address as int);
            self.lemma_addr_word(address as int);
        }
        let idx = self.address_to_bitmap_index(address);
        let (nth, offset, bit) = idx.unpack();
        let byte = self.bitmap[nth][offset];
        let ghost old_self = *self;
        if value {
            let size = self.heap.object_size_of(address);
            self.size_of_living.insert(address, size);
            self.bitmap[nth].set(offset, byte | (1u8 << (bit as u8)));
            proof {
                lemma_set_bit(byte, bit as u8);
            }
        } else {
            self.size_of_living.remove(&address);
            self.bitmap[nth].set(offset, byte & !(1u8 << (bit as u8)));
            proof {
                lemma_clear_bit(byte, bit as u8);
            }
        }
        proof {
            self.lemma_after_set(old_self, nth as int, idx.word(), address as int, value);
        }
    }

    proof fn lemma_after_set(&self, old_self: GarbageCollector, nth: int, word: int, address: int, value: bool)
        requires
            old_self.bm_wf(),
            old_self.heap.is_handle(address),
            self.heap == old_self.heap,
            0 <= nth < old_self.regions().len(),
            0 <= word < old_self.words_in(nth),
            old_self.addr_of(nth, word) == address,
            nth == old_self.heap.allocator.region_of(address),
            self.bitmap@.len() == old_self.bitmap@.len(),
            forall|r: int| 0 <= r < self.bitmap@.len() && r != nth ==> self.bitmap@[r] == old_self.bitmap@[r],
            self.bitmap@[nth]@.len() == old_self.bitmap@[nth]@.len(),
            forall|o: int| 0 <= o < self.bitmap@[nth]@.len() && o != word / 8 ==> self.bitmap@[nth]@[o] == old_self.bitmap@[nth]@[o],
            forall|j: int| 0 <= j < 8 ==> #[trigger] bit_of(self.bitmap@[nth]@[word / 8], j) == if j == word % 8 { value } else { bit_of(old_self.bitmap@[nth]@[word / 8], j) },
            value ==> self.size_of_living@ == old_self.size_of_living@.insert(address as usize, old_self.heap.object_size(address) as usize),
            !value ==> self.size_of_living@ == old_self.size_of_living@.remove(address as usize),
        ensures
            self.bm_wf(),
            forall|a: int| #[trigger] self.marked(a) == if a == address { value } else { old_self.marked(a) },
            forall|r: int, w: int|
                0 <= r < self.regions().len() && 0 <= w < self.words_in(r) ==> #[trigger] self.bit_at(r, w)
                    == if self.addr_of(r, w) == address { value } else { old_self.bit_at(r, w) },
            old_self.marks_ok() ==> self.marks_ok(),
    {
        let heap = self.heap.allocator;
        assert forall|r: int| 0 <= r < self.regions().len() implies (#[trigger] self.bitmap@[r])@.len() == (self.regions()[r].size as int + 63) / 64 by {
            if r != nth {
                assert(self.bitmap@[r] == old_self.bitmap@[r]);
            }
        }
        assert forall|r: int, w: int|
            0 <= r < self.regions().len() && 0 <= w < self.words_in(r) implies #[trigger] self.bit_at(r, w)
                == if self.addr_of(r, w) == address { value } else { old_self.bit_at(r, w) } by {
            self.lemma_word_addr(r, w);
            if r != nth {
                assert(self.bitmap@[r] == old_self.bitmap@[r]);
                assert(self.addr_of(r, w) != address);
            } else if w != word {
                assert(self.addr_of(r, w) != address);
                if w / 8 != word / 8 {
                } else {
                    assert(w % 8 != word % 8);
                }
            }
        }
        assert forall|a: int| #[trigger] self.marked(a) == if a == address { value } else { old_self.marked(a) } by {
            let r = heap.region_of(a);
            if heap.holds(r, a) && a % 8 == 0 {
                heap.lemma_unique(r, r, a);
                self.lemma_addr_word(a);
                let w = (a - self.regions()[r].start) / 8;
                assert(self.bit_at(r, w) == if self.addr_of(r, w) == address { value } else { old_self.bit_at(r, w) });
            }
        }
        if old_self.marks_ok() {
            assert forall|r: int, w: int|
                0 <= r < self.regions().len() && 0 <= w < self.words_in(r) && #[trigger] self.bit_at(r, w)
                    implies self.heap.is_handle(self.addr_of(r, w)) by {
                if self.addr_of(r, w) != address {
                    assert(old_self.bit_at(r, w));
                }
            }
            assert forall|a: usize| #[trigger] self.size_of_living@.contains_key(a) <==> self.marked(a as int) by {
                if a as int != address {
                    assert(old_self.size_of_living@.contains_key(a) <==> old_self.marked(a as int));
                }
            }
            assert forall|a: usize|
                #[trigger] self.size_of_living@.contains_key(a) implies self.size_of_living@[a] == self.heap.object_size(a as int) by {
                if a as int != address {
                    assert(old_self.size_of_living@.contains_key(a));
                }
            }
        }
    }
}

/// `x` is one of the addresses in `v`.
pub open spec fn in_list(v: Seq<usize>, x: int) -> bool {
    exists|i: int| 0 <= i < v.len() && v[i] as int == x
}

/// Position `(r1, w1)` comes before `(r2, w2)`: logical region order, then word order.
pub open spec fn pos_lt(r1: int, w1: int, r2: int, w2: int) -> bool {
    r1 < r2 || (r1 == r2 && w1 < w2)
}

/// A bitmap row of `n` zero bytes.
fn zero_row(n: usize) -> (r: Vec<u8>)
    ensures
        r@.len() == n,
        forall|i: int| 0 <= i < n ==> r@[i] == 0,
{
    let mut row: Vec<u8> = Vec::new();
    let mut i: usize = 0;
    while i < n
        invariant
            i <= n,
            row@.len() == i,
            forall|j: int| 0 <= j < i ==> row@[j] == 0,
        decreases n - i,
    {
        row.push(0);
        i = i + 1;
    }
    row
}

/// One zeroed bitmap row per region of `heap`, a byte per eight words.
fn zero_rows(heap: &crate::heap::HeapAllocator) -> (rows: Vec<Vec<u8>>)
    requires
        heap.wf(),
    ensures
        rows@.len() == heap.regions().len(),
        forall|i: int| 0 <= i < rows@.len() ==> (#[trigger] rows@[i])@.len() == (heap.regions()[i].size as int + 63) / 64,
        forall|i: int, j: int| 0 <= i < rows@.len() && 0 <= j < rows@[i]@.len() ==> #[trigger] rows@[i]@[j] == 0,
{
    let n = heap.region_count();
    let mut rows: Vec<Vec<u8>> = Vec::new();
    let mut r: usize = 0;
    while r < n
        invariant
            r <= n,
            n == heap.regions().len(),
            heap.wf(),
            rows@.len() == r,
            forall|i: int| 0 <= i < r ==> (#[trigger] rows@[i])@.len() == (heap.regions()[i].size as int + 63) / 64,
            forall|i: int, j: int| 0 <= i < r && 0 <= j < rows@[i]@.len() ==> #[trigger] rows@[i]@[j] == 0,
        decreases n - r,
    {
        let b = heap.region(r);
        proof {
            heap.lemma_wf();
            assert(b.wf());
        }
        let row = zero_row((b.size + 63) / 64);
        rows.push(row);
        r = r + 1;
    }
    rows
}

impl GarbageCollector {
    /// No bit is set at a position from `(r0, w0)` up to, not including, `(r1, w1)`.
    pub open spec fn clear_between(&self, r0: int, w0: int, r1: int, w1: int) -> bool {
        forall|r: int, w: int|
            0 <= r < self.regions().len() && 0 <= w < self.words_in(r) && !pos_lt(r, w, r0, w0) && pos_lt(r, w, r1, w1)
                ==> !#[trigger] self.bit_at(r, w)
    }

    /// Clears every bit and the live-size map, with one bitmap row per region.
    pub fn reset_all_marks(&mut self)
        requires
            old(self).heap.wf(),
            old(self).heap.allocator.available,
        ensures
            final(self).wf(),
            final(self).heap == old(self).heap,
            final(self).size_of_living@ == Map::<usize, usize>::empty(),
            forall|a: int| !#[trigger] final(self).marked(a),
            forall|r: int, w: int| 0 <= r < final(self).regions().len() && 0 <= w < final(self).words_in(r) ==> !#[trigger] final(self).bit_at(r, w),
    {
        let rows = zero_rows(&self.heap.allocator);
        self.bitmap = rows;
        self.size_of_living.clear();
        proof {
            lemma_zero_byte(0);
            assert forall|r: int, w: int| 0 <= r < self.regions().len() && 0 <= w < self.words_in(r) implies !#[trigger] self.bit_at(r, w) by {
                self.lemma_word_addr(r, w);
                assert(self.bitmap@[r]@[w / 8] == 0);
            }
            assert forall|a: int| !#[trigger] self.marked(a) by {
                let reg = self.heap.allocator.region_of(a);
                if self.heap.allocator.holds(reg, a) && a % 8 == 0 {
                    self.heap.allocator.lemma_unique(reg, reg, a);
                    self.lemma_addr_word(a);
                }
            }
            assert(self.size_of_living@ =~= Map::<usize, usize>::empty());
        }
    }

    /// The first set bit at or after position `(r0, w0)`, in logical order.
    pub fn first_set_from(&self, r0: usize, w0: usize) -> (res: Option<(usize, usize)>)
        requires
            self.bm_wf(),
        ensures
            res matches Some((r, w)) ==> {
                &&& r < self.regions().len()
                &&& w < self.words_in(r as int)
                &&& self.bit_at(r as int, w as int)
                &&& !pos_lt(r as int, w as int, r0 as int, w0 as int)
                &&& self.clear_between(r0 as int, w0 as int, r as int, w as int)
            },
            res is None ==> self.clear_between(r0 as int, w0 as int, self.regions().len() as int, 0),
    {
        let n = self.bitmap.len();
        if r0 >= n {
            return None;
        }
        let mut r: usize = r0;
        let mut w: usize = w0;
        while r < n
            invariant
                self.bm_wf(),
                n == self.regions().len(),
                r0 <= r <= n,
                r == r0 ==> w == w0,
                r > r0 ==> w == 0,
                self.clear_between(r0 as int, w0 as int, r as int, w as int),
            decreases n - r,
        {
            let b = self.heap.allocator.region(r);
            proof {
                self.heap.allocator.lemma_wf();
                assert(b.wf());
            }
            let words = (b.size + 7) / WORD_SIZE;
            while w < words
                invariant
                    self.bm_wf(),
                    n == self.regions().len(),
                    r0 <= r < n,
                    words == self.words_in(r as int),
                    self.clear_between(r0 as int, w0 as int, r as int, w as int),
                    r == r0 ==> w >= w0,
                decreases words - w,
            {
                proof {
                    self.lemma_word_addr(r as int, w as int);
                }
                let byte = self.bitmap[r][w / 8];
                if w % 8 == 0 && byte == 0 && w + 8 <= words {
                    proof {
                        lemma_zero_byte(byte);
                        assert forall|rr: int, ww: int|
                            0 <= rr < self.regions().len() && 0 <= ww < self.words_in(rr) && !pos_lt(rr, ww, r0 as int, w0 as int)
                                && pos_lt(rr, ww, r as int, w + 8) implies !#[trigger] self.bit_at(rr, ww) by {
                            if rr == r && ww >= w {
                                assert(ww / 8 == w / 8);
                            }
                        }
                    }
                    w = w + 8;
                } else {
                    if bit_set(byte, w % 8) {
                        return Some((r, w));
                    }
                    w = w + 1;
                }
            }
            proof {
                assert forall|rr: int, ww: int|
                    0 <= rr < self.regions().len() && 0 <= ww < self.words_in(rr) && !pos_lt(rr, ww, r0 as int, w0 as int)
                        && pos_lt(rr, ww, r + 1, 0) implies !#[trigger] self.bit_at(rr, ww) by {
                    if rr == r {
                        assert(pos_lt(rr, ww, r as int, w as int));
                    }
                }
            }
            r = r + 1;
            w = 0;
        }
        None
    }
}

impl GarbageCollector {
    /// Address order of words agrees with logical position order.
    pub proof fn lemma_pos_order(&self, r1: int, w1: int, r2: int, w2: int)
        requires
            self.bm_wf(),
            0 <= r1 < self.regions().len(),
            0 <= w1 < self.words_in(r1),
            0 <= r2 < self.regions().len(),
            0 <= w2 < self.words_in(r2),
        ensures
            self.addr_of(r1, w1) < self.addr_of(r2, w2) <==> pos_lt(r1, w1, r2, w2),
            self.addr_of(r1, w1) == self.addr_of(r2, w2) <==> (r1 == r2 && w1 == w2),
    {
        self.lemma_word_addr(r1, w1);
        self.lemma_word_addr(r2, w2);
        if r1 < r2 {
            self.heap.allocator.lemma_ordered(r1, r2);
        } else if r2 < r1 {
            self.heap.allocator.lemma_ordered(r2, r1);
        }
    }

    /// A marked address is the address of a set bit.
    pub proof fn lemma_marked_pos(&self, x: int)
        requires
            self.bm_wf(),
            self.marked(x),
        ensures
            ({
                let r = self.heap.allocator.region_of(x);
                let w = (x - self.regions()[r].start) / WORD_SIZE as int;
                &&& 0 <= r < self.regions().len()
                &&& 0 <= w < self.words_in(r)
                &&& self.addr_of(r, w) == x
                &&& self.bit_at(r, w)
                &&& self.heap.allocator.in_region(x)
                &&& self.heap.allocator.in_heap(x)
            }),
    {
        let r = self.heap.allocator.region_of(x);
        self.heap.allocator.lemma_unique(r, r, x);
        self.lemma_addr_word(x);
    }

    /// A set bit marks its address.
    pub proof fn lemma_bit_marked(&self, r: int, w: int)
        requires
            self.bm_wf(),
            0 <= r < self.regions().len(),
            0 <= w < self.words_in(r),
        ensures
            self.marked(self.addr_of(r, w)) == self.bit_at(r, w),
    {
        self.lemma_word_addr(r, w);
    }

    /// The first marked object after `this_object`, in logical order.
    pub fn next_in_bitmap(&self, this_object: usize) -> (res: Option<usize>)
        requires
            self.bm_wf(),
            self.heap.allocator.in_region(this_object as int),
            this_object % WORD_SIZE == 0,
        ensures
            res matches Some(n) ==> self.marked(n as int) && this_object < n && forall|x: int|
                this_object < x < n ==> !#[trigger] self.marked(x),
            res is None ==> forall|x: int| this_object < x ==> !#[trigger] self.marked(x),
    {
        proof {
            self.lemma_addr_word(this_object as int);
        }
        let idx = self.address_to_bitmap_index(this_object);
        let rc = idx.bitmap_nth;
        let wc = idx.offset * 8 + idx.bit;
        let found = self.first_set_from(rc, wc + 1);
        match found {
            Some((r, w)) => {
                proof {
                    self.lemma_word_addr(r as int, w as int);
                    self.lemma_pos_order(rc as int, wc as int, r as int, w as int);
                }
                let n = self.bitmap_index_to_address(BitmapIndex::new(r, w / 8, w % 8));
                proof {
                    self.lemma_bit_marked(r as int, w as int);
                    assert forall|x: int| this_object < x < n implies !#[trigger] self.marked(x) by {
                        if self.marked(x) {
                            self.lemma_marked_pos(x);
                            let rx = self.heap.allocator.region_of(x);
                            let wx = (x - self.regions()[rx].start) / 8;
                            self.lemma_pos_order(rc as int, wc as int, rx, wx);
                            self.lemma_pos_order(rx, wx, r as int, w as int);
                        }
                    }
                }
                Some(n)
            },
            None => {
                proof {
                    assert forall|x: int| this_object < x implies !#[trigger] self.marked(x) by {
                        if self.marked(x) {
                            self.lemma_marked_pos(x);
                            let rx = self.heap.allocator.region_of(x);
                            let wx = (x - self.regions()[rx].start) / 8;
                            self.lemma_pos_order(rc as int, wc as int, rx, wx);
                        }
                    }
                }
                None
            },
        }
    }

    /// The first marked object of region `bitmap_nth`.
    pub fn first_in_bitmap(&self, bitmap_nth: usize) -> (res: Option<usize>)
        requires
            self.bm_wf(),
            bitmap_nth < self.regions().len(),
        ensures
            res matches Some(n) ==> self.marked(n as int) && self.heap.allocator.holds(bitmap_nth as int, n as int)
                && forall|x: int| self.regions()[bitmap_nth as int].start <= x < n ==> !#[trigger] self.marked(x),
            res is None ==> forall|x: int|
                #[trigger] self.marked(x) ==> !self.heap.allocator.holds(bitmap_nth as int, x),
    {
        let found = self.first_set_from(bitmap_nth, 0);
        let ghost start = self.regions()[bitmap_nth as int].start as int;
        match found {
            Some((r, w)) => {
                if r != bitmap_nth {
                    proof {
                        assert forall|x: int| #[trigger] self.marked(x) implies !self.heap.allocator.holds(bitmap_nth as int, x) by {
                            self.lemma_marked_pos(x);
                            let rx = self.heap.allocator.region_of(x);
                            let wx = (x - self.regions()[rx].start) / 8;
                            if self.heap.allocator.holds(bitmap_nth as int, x) {
                                self.heap.allocator.lemma_unique(rx, bitmap_nth as int, x);
                            }
                        }
                    }
                    return None;
                }
                proof {
                    self.lemma_word_addr(r as int, w as int);
                }
                let n = self.bitmap_index_to_address(BitmapIndex::new(r, w / 8, w % 8));
                proof {
                    self.lemma_bit_marked(r as int, w as int);
                    assert forall|x: int| start <= x < n implies !#[trigger] self.marked(x) by {
                        if self.marked(x) {
                            self.lemma_marked_pos(x);
                            let rx = self.heap.allocator.region_of(x);
                            let wx = (x - self.regions()[rx].start) / 8;
                            self.lemma_pos_order(rx, wx, r as int, w as int);
                            if rx < bitmap_nth {
                                self.heap.allocator.lemma_ordered(rx, bitmap_nth as int);
                            }
                        }
                    }
                }
                Some(n)
            },
            None => {
                proof {
                    assert forall|x: int| #[trigger] self.marked(x) implies !self.heap.allocator.holds(bitmap_nth as int, x) by {
                        self.lemma_marked_pos(x);
                        let rx = self.heap.allocator.region_of(x);
                        if self.heap.allocator.holds(bitmap_nth as int, x) {
                            self.heap.allocator.lemma_unique(rx, bitmap_nth as int, x);
                        }
                    }
                }
                None
            },
        }
    }

    /// The first marked object of the heap, in logical order.
    pub fn first_marked(&self) -> (res: Option<usize>)
        requires
            self.bm_wf(),
        ensures
            res matches Some(n) ==> self.marked(n as int) && forall|x: int| x < n ==> !#[trigger] self.marked(x),
            res is None ==> forall|x: int| !#[trigger] self.marked(x),
    {
        let found = self.first_set_from(0, 0);
        match found {
            Some((r, w)) => {
                proof {
                    self.lemma_word_addr(r as int, w as int);
                }
                let n = self.bitmap_index_to_address(BitmapIndex::new(r, w / 8, w % 8));
                proof {
                    self.lemma_bit_marked(r as int, w as int);
                    assert forall|x: int| x < n implies !#[trigger] self.marked(x) by {
                        if self.marked(x) {
                            self.lemma_marked_pos(x);
                            let rx = self.heap.allocator.region_of(x);
                            let wx = (x - self.regions()[rx].start) / 8;
                            self.lemma_pos_order(rx, wx, r as int, w as int);
                        }
                    }
                }
                Some(n)
            },
            None => {
                proof {
                    assert forall|x: int| !#[trigger] self.marked(x) by {
                        if self.marked(x) {
                            self.lemma_marked_pos(x);
                        }
                    }
                }
                None
            },
        }
    }

    /// Every marked address, in increasing order.
    pub fn all_marked_bits(&self) -> (res: Vec<usize>)
        requires
            self.bm_wf(),
        ensures
            forall|x: int| #[trigger] self.marked(x) <==> exists|i: int| 0 <= i < res@.len() && res@[i] == x,
            forall|i: int, j: int| 0 <= i < j < res@.len() ==> res@[i] < res@[j],
    {
        let mut out: Vec<usize> = Vec::new();
        let mut cur = self.first_marked();
        let ghost end = HEAP_BASE + self.heap.allocator.extent;
        while cur.is_some()
            invariant
                self.bm_wf(),
                end == HEAP_BASE + self.heap.allocator.extent,
                forall|i: int| 0 <= i < out@.len() ==> #[trigger] self.marked(out@[i] as int),
                forall|i: int, j: int| 0 <= i < j < out@.len() ==> out@[i] < out@[j],
                cur matches Some(c) ==> self.marked(c as int) && (out@.len() > 0 ==> out@.last() < c)
                    && forall|x: int| #[trigger] self.marked(x) && x < c ==> exists|i: int| 0 <= i < out@.len() && out@[i] == x,
                cur is None ==> forall|x: int| #[trigger] self.marked(x) ==> exists|i: int| 0 <= i < out@.len() && out@[i] == x,
            decreases
                match cur { Some(c) => end - c, None => 0 },
        {
            let c = match cur {
                Some(c) => c,
                None => 0,
            };
            proof {
                self.lemma_marked_pos(c as int);
            }
            let ghost prev = out@;
            out.push(c);
            let next = self.next_in_bitmap(c);
            proof {
                assert forall|x: int| #[trigger] self.marked(x) && (next matches Some(n) ==> x < n) implies exists|i: int|
                    0 <= i < out@.len() && out@[i] == x by {
                    if x < c {
                        let i = choose|i: int| 0 <= i < prev.len() && prev[i] == x;
                        assert(out@[i] == x);
                    } else if x == c {
                        assert(out@[out@.len() - 1] == x);
                    }
                }
                if let Some(n) = next {
                    self.lemma_marked_pos(n as int);
                }
            }
            cur = next;
        }
        out
    }
}

impl GarbageCollector {
    /// The handles of the heap's objects.
    pub open spec fn handle_set(&self) -> Set<int> {
        self.heap.allocated_objects@.map_values(|h: usize| h as int).to_set()
    }

    /// Objects not yet marked.
    pub open spec fn unmarked_count(&self) -> int {
        self.handle_set().len() - self.marked_set().len()
    }

    /// Every non-null reference held by a marked object names a marked object.
    pub open spec fn closed(&self) -> bool {
        forall|p: int, q: int| #[trigger] self.marked(p) && #[trigger] self.heap.points_to(p, q) ==> self.marked(q)
    }

    pub proof fn lemma_marked_handle(&self, a: int)
        requires
            self.wf(),
            self.marked(a),
        ensures
            self.heap.is_handle(a),
            self.handle_set().contains(a),
            self.marked_set().contains(a),
    {
        self.lemma_marked_pos(a);
        let i = choose|i: int| 0 <= i < self.heap.allocated_objects@.len() && self.heap.allocated_objects@[i] == a;
        assert(self.heap.allocated_objects@.map_values(|h: usize| h as int)[i] == a);
    }

    pub proof fn lemma_counts(&self)
        requires
            self.wf(),
        ensures
            self.marked_set().subset_of(self.handle_set()),
            self.marked_set().finite(),
            self.handle_set().finite(),
            self.unmarked_count() >= 0,
    {
        seq_to_set_is_finite(self.heap.allocated_objects@.map_values(|h: usize| h as int));
        assert forall|a: int| self.marked_set().contains(a) implies self.handle_set().contains(a) by {
            self.lemma_marked_handle(a);
        }
        lemma_len_subset(self.marked_set(), self.handle_set());
    }

    /// Marking one more object lowers the count of unmarked ones.
    pub proof fn lemma_mark_one(&self, old_self: GarbageCollector, q: int)
        requires
            old_self.wf(),
            self.wf(),
            self.heap == old_self.heap,
            !old_self.marked(q),
            forall|a: int| #[trigger] self.marked(a) == (a == q || old_self.marked(a)),
        ensures
            self.unmarked_count() == old_self.unmarked_count() - 1,
    {
        old_self.lemma_counts();
        assert(self.marked_set() =~= old_self.marked_set().insert(q));
    }

    /// Whether `q` is logically before `cur`: in an earlier region, or earlier in the same region.
    fn logically_before(&self, q: usize, cur: usize) -> (r: bool)
        requires
            self.bm_wf(),
            self.heap.allocator.in_region(q as int),
            self.heap.allocator.in_region(cur as int),
        ensures
            r == (q < cur),
    {
        let rq = self.heap.allocator.region_index_of(q);
        let rc = self.heap.allocator.region_index_of(cur);
        match (rq, rc) {
            (Some(a), Some(b)) => {
                proof {
                    if a < b {
                        self.heap.allocator.lemma_ordered(a as int, b as int);
                    } else if b < a {
                        self.heap.allocator.lemma_ordered(b as int, a as int);
                    }
                }
                a < b || (a == b && q < cur)
            },
            _ => q < cur,
        }
    }

    /// Marks the object at `q`; says whether it was unmarked before.
    fn mark_object(&mut self, q: usize) -> (newly: bool)
        requires
            old(self).wf(),
            old(self).heap.is_handle(q as int),
        ensures
            final(self).wf(),
            final(self).heap == old(self).heap,
            newly == !old(self).marked(q as int),
            forall|x: int| #[trigger] final(self).marked(x) == (x == q || old(self).marked(x)),
            newly ==> final(self).unmarked_count() == old(self).unmarked_count() - 1,
            !newly ==> final(self).unmarked_count() == old(self).unmarked_count(),
            final(self).unmarked_count() >= 0,
    {
        proof {
            let i = choose|i: int| 0 <= i < self.heap.allocated_objects@.len() && self.heap.allocated_objects@[i] == q;
            assert(self.heap.valid_object(self.heap.allocated_objects@[i] as int));
            let hq = self.heap.allocator;
            let rq = hq.region_of(q as int);
            hq.lemma_unique(rq, rq, q as int);
            self.lemma_counts();
        }
        if self.is_marked(q) {
            proof {
                assert(self.marked_set() =~= self.marked_set());
            }
            return false;
        }
        let ghost before = *self;
        self.set_marked(q, true);
        proof {
            self.lemma_mark_one(before, q as int);
            self.lemma_counts();
        }
        true
    }

    /// Traces from `first_root_in_block`, the first marked object in logical
    /// order: a sweep over the marked objects in logical order, with a work
    /// list for references that point back behind the sweep.
    fn mark_single(&mut self, first_root_in_block: usize, Ghost(roots): Ghost<Seq<usize>>) -> (r: Result<(), GCError>)
        requires
            old(self).wf(),
            old(self).marked(first_root_in_block as int),
            forall|x: int| x < first_root_in_block ==> !#[trigger] old(self).marked(x),
            forall|x: int| #[trigger] old(self).marked(x) ==> old(self).heap.reaches(roots, x),
        ensures
            final(self).wf(),
            final(self).heap == old(self).heap,
            forall|x: int| #[trigger] old(self).marked(x) ==> final(self).marked(x),
            forall|x: int| #[trigger] final(self).marked(x) ==> final(self).heap.reaches(roots, x),
            r is Ok ==> final(self).closed(),
            r matches Err(e) ==> e matches GCError::InvalidObject(q) && q != 0 && !final(self).heap.is_handle(q as int)
                && exists|p: int| #[trigger] final(self).marked(p) && final(self).heap.points_to(p, q as int),
    {
        let ghost old_self = *self;
        let mut cur = first_root_in_block;
        let ghost mut traced: Set<int> = Set::empty();
        proof {
            self.lemma_marked_pos(cur as int);
        }
        loop
            invariant
                old_self == *old(self),
                self.wf(),
                self.heap == old_self.heap,
                self.marked(cur as int),
                self.heap.allocator.in_region(cur as int),
                cur % WORD_SIZE == 0,
                forall|x: int| #[trigger] self.marked(x) && x < cur ==> traced.contains(x),
                forall|t: int| #[trigger] traced.contains(t) ==> self.marked(t),
                forall|t: int, q: int| #[trigger] traced.contains(t) && #[trigger] self.heap.points_to(t, q) ==> self.marked(q),
                forall|x: int| #[trigger] old_self.marked(x) ==> self.marked(x),
                forall|x: int| #[trigger] self.marked(x) ==> self.heap.reaches(roots, x),
            decreases HEAP_BASE + self.heap.allocator.extent - cur,
        {
            let mut work: Vec<usize> = Vec::new();
            work.push(cur);
            proof {
                assert forall|x: int| #[trigger] self.marked(x) && x <= cur implies traced.contains(x) || in_list(work@, x) by {
                    if x == cur {
                        assert(work@[0] as int == x);
                    }
                }
                self.lemma_counts();
            }
            while work.len() > 0
                invariant
                    old_self == *old(self),
                    self.wf(),
                    self.heap == old_self.heap,
                    self.marked(cur as int),
                    self.heap.allocator.in_region(cur as int),
                    cur % WORD_SIZE == 0,
                    forall|x: int| #[trigger] self.marked(x) && x <= cur ==> traced.contains(x) || in_list(work@, x),
                    forall|i: int| 0 <= i < work@.len() ==> #[trigger] self.marked(work@[i] as int),
                    forall|t: int| #[trigger] traced.contains(t) ==> self.marked(t),
                    forall|t: int, q: int| #[trigger] traced.contains(t) && #[trigger] self.heap.points_to(t, q) ==> self.marked(q),
                    forall|x: int| #[trigger] old_self.marked(x) ==> self.marked(x),
                    forall|x: int| #[trigger] self.marked(x) ==> self.heap.reaches(roots, x),
                    self.unmarked_count() >= 0,
                decreases self.unmarked_count(), work@.len(),
            {
                let ghost w0 = work@;
                let ghost u0 = self.unmarked_count();
                let p = match work.pop() {
                    Some(p) => p,
                    None => 0,
                };
                proof {
                    assert(p == w0.last());
                    assert(work@ == w0.drop_last());
                    assert forall|x: int| in_list(w0, x) implies x == p || in_list(work@, x) by {
                        let i = choose|i: int| 0 <= i < w0.len() && w0[i] as int == x;
                        if i < w0.len() - 1 {
                            assert(work@[i] as int == x);
                        }
                    }
                    assert(self.marked(p as int));
                    self.lemma_marked_handle(p as int);
                    let i = choose|i: int| 0 <= i < self.heap.allocated_objects@.len() && self.heap.allocated_objects@[i] == p;
                    assert(self.heap.valid_object(self.heap.allocated_objects@[i] as int));
                }
                let ptrs = match self.heap.pointers(p) {
                    Ok(v) => v,
                    Err(e) => {
                        return Err(e);
                    },
                };
                let mut j: usize = 0;
                while j < ptrs.len()
                    invariant
                        old_self == *old(self),
                        self.wf(),
                        self.heap == old_self.heap,
                        self.marked(cur as int),
                        self.marked(p as int),
                        self.heap.allocator.in_region(cur as int),
                        cur % WORD_SIZE == 0,
                        ptrs@ == self.heap.ref_slots(p as int),
                        j <= ptrs@.len(),
                        forall|k: int| 0 <= k < j && ptrs@[k].0 != 0 ==> self.marked(#[trigger] ptrs@[k].0 as int),
                        forall|x: int| #[trigger] self.marked(x) && x <= cur ==> traced.contains(x) || x == p
                            || in_list(work@, x),
                        forall|i: int| 0 <= i < work@.len() ==> #[trigger] self.marked(work@[i] as int),
                        forall|t: int| #[trigger] traced.contains(t) ==> self.marked(t),
                        forall|t: int, q: int| #[trigger] traced.contains(t) && #[trigger] self.heap.points_to(t, q) ==> self.marked(q),
                        forall|x: int| #[trigger] old_self.marked(x) ==> self.marked(x),
                        forall|x: int| #[trigger] self.marked(x) ==> self.heap.reaches(roots, x),
                        self.unmarked_count() <= u0,
                        self.unmarked_count() >= 0,
                        self.unmarked_count() == u0 ==> work@.len() == w0.len() - 1,
                    decreases ptrs@.len() - j,
                {
                    let q = ptrs[j].0;
                    if q != 0 {
                        proof {
                            assert(self.heap.points_to(p as int, q as int)) by {
                                assert(self.heap.ref_slots(p as int)[j as int].0 == q);
                            }
                        }
                        if !self.heap.is_allocated(q) {
                            return Err(GCError::InvalidObject(q));
                        }
                        proof {
                            let i = choose|i: int| 0 <= i < self.heap.allocated_objects@.len() && self.heap.allocated_objects@[i] == q;
                            assert(self.heap.valid_object(self.heap.allocated_objects@[i] as int));
                            let hq = self.heap.allocator;
                            let rq = hq.region_of(q as int);
                            hq.lemma_unique(rq, rq, q as int);
                            self.heap.lemma_reaches_step(roots, p as int, q as int);
                        }
                        let ghost wl = work@;
                        if self.mark_object(q) {
                            if self.logically_before(q, cur) {
                                work.push(q);
                                proof {
                                    assert(work@[work@.len() - 1] as int == q);
                                    assert forall|x: int| in_list(wl, x) implies in_list(work@, x) by {
                                        let i = choose|i: int| 0 <= i < wl.len() && wl[i] as int == x;
                                        assert(work@[i] as int == x);
                                    }
                                }
                            }
                        }
                    }
                    j = j + 1;
                }
                proof {
                    assert forall|q: int| #[trigger] self.heap.points_to(p as int, q) implies self.marked(q) by {
                        let k = choose|k: int| 0 <= k < self.heap.ref_slots(p as int).len() && #[trigger] self.heap.ref_slots(p as int)[k].0 == q;
                        assert(ptrs@[k].0 == q);
                    }
                    traced = traced.insert(p as int);
                    self.lemma_counts();
                }
            }
            proof {
                assert forall|x: int| #[trigger] self.marked(x) && x <= cur implies traced.contains(x) by {
                    assert(traced.contains(x) || in_list(work@, x));
                }
            }
            match self.next_in_bitmap(cur) {
                Some(n) => {
                    proof {
                        self.lemma_marked_pos(n as int);
                        assert forall|x: int| #[trigger] self.marked(x) && x < n implies traced.contains(x) by {
                            assert(x <= cur);
                        }
                    }
                    cur = n;
                },
                None => {
                    proof {
                        assert forall|a: int, q: int| #[trigger] self.marked(a) && #[trigger] self.heap.points_to(a, q)
                            implies self.marked(q) by {
                            assert(a <= cur);
                            assert(traced.contains(a));
                        }
                    }
                    return Ok(());
                },
            }
        }
    }
}

impl GarbageCollector {
    /// Marks every object reached from the non-null roots, after clearing all marks.
    pub fn mark_living(&mut self, gc_roots: &Vec<usize>) -> (r: Result<(), GCError>)
        requires
            old(self).heap.wf(),
        ensures
            !old(self).heap.allocator.available ==> r == Err::<(), GCError>(GCError::AllocatorClosed) && *final(self) == *old(self),
            old(self).heap.allocator.available ==> final(self).wf(),
            final(self).heap == old(self).heap,
            old(self).heap.allocator.available ==> ((r == Err::<(), GCError>(GCError::InvalidRoots)) <==> exists|i: int|
                0 <= i < gc_roots@.len() && gc_roots@[i] != 0 && !old(self).heap.is_handle(#[trigger] gc_roots@[i] as int)),
            old(self).heap.allocator.available ==> (r is Ok <==> forall|x: int|
                #[trigger] old(self).heap.reaches(gc_roots@, x) ==> old(self).heap.is_handle(x)),
            r is Ok ==> forall|x: int| #[trigger] final(self).marked(x) <==> final(self).heap.reaches(gc_roots@, x),
            r is Ok ==> final(self).closed(),
            r matches Err(GCError::InvalidObject(q)) ==> q != 0 && !final(self).heap.is_handle(q as int) && exists|p: int|
                #[trigger] final(self).heap.reaches(gc_roots@, p) && final(self).heap.points_to(p, q as int),
            old(self).heap.allocator.available && r is Err ==> r == Err::<(), GCError>(GCError::InvalidRoots) || r is Err
                && r->Err_0 is InvalidObject,
    {
        if !self.heap.allocator.available {
            return Err(GCError::AllocatorClosed);
        }
        self.reset_all_marks();
        let ghost roots = gc_roots@;
        let mut i: usize = 0;
        while i < gc_roots.len()
            invariant
                self.wf(),
                self.heap == old(self).heap,
                i <= gc_roots@.len(),
                forall|k: int| 0 <= k < i && gc_roots@[k] != 0 ==> self.heap.is_handle(#[trigger] gc_roots@[k] as int),
            decreases gc_roots@.len() - i,
        {
            let root = gc_roots[i];
            if root != 0 && !self.heap.is_allocated(root) {
                proof {
                    self.heap.lemma_reaches_root(gc_roots@, i as int);
                }
                return Err(GCError::InvalidRoots);
            }
            i = i + 1;
        }
        let mut i: usize = 0;
        while i < gc_roots.len()
            invariant
                self.wf(),
                self.heap == old(self).heap,
                i <= gc_roots@.len(),
                forall|k: int| 0 <= k < gc_roots@.len() && gc_roots@[k] != 0 ==> self.heap.is_handle(#[trigger] gc_roots@[k] as int),
                forall|x: int| #[trigger] self.marked(x) <==> exists|k: int| 0 <= k < i && gc_roots@[k] != 0 && gc_roots@[k] as int == x,
            decreases gc_roots@.len() - i,
        {
            let root = gc_roots[i];
            if root != 0 {
                self.mark_object(root);
            }
            proof {
                assert forall|x: int| #[trigger] self.marked(x) <==> exists|k: int| 0 <= k < i + 1 && gc_roots@[k] != 0 && gc_roots@[k] as int == x by {
                    if self.marked(x) && !(exists|k: int| 0 <= k < i && gc_roots@[k] != 0 && gc_roots@[k] as int == x) {
                        assert(gc_roots@[i as int] as int == x);
                    }
                }
            }
            i = i + 1;
        }
        proof {
            assert forall|x: int| #[trigger] self.marked(x) implies self.heap.reaches(roots, x) by {
                let k = choose|k: int| 0 <= k < gc_roots@.len() && gc_roots@[k] != 0 && gc_roots@[k] as int == x;
                self.heap.lemma_reaches_root(roots, k);
            }
        }
        let first = match self.first_marked() {
            Some(f) => f,
            None => {
                proof {
                    assert forall|x: int| #[trigger] self.marked(x) <==> self.heap.reaches(roots, x) by {
                        if self.heap.reaches(roots, x) {
                            let (path, k) = choose|path: Seq<int>, k: int|
                                #[trigger] self.heap.is_path(path) && 0 <= k < roots.len() && roots[k] != 0 && path[0] == #[trigger] roots[k] as int
                                    && path.last() == x;
                            assert(self.marked(roots[k] as int));
                        }
                    }
                    assert forall|x: int| #[trigger] self.heap.reaches(roots, x) implies self.heap.is_handle(x) by {
                        self.lemma_marked_handle(x);
                    }
                }
                return Ok(());
            },
        };
        let ghost before = *self;
        let r = self.mark_single(first, Ghost(roots));
        proof {
            if r is Ok {
                assert forall|x: int| #[trigger] self.marked(x) <==> self.heap.reaches(roots, x) by {
                    if self.heap.reaches(roots, x) {
                        assert forall|k: int| 0 <= k < roots.len() && roots[k] != 0 implies self.marked_set().contains(#[trigger] roots[k] as int) by {
                            assert(before.marked(roots[k] as int));
                        }
                        self.heap.lemma_reached_in_closed(roots, self.marked_set(), x);
                    }
                }
                assert forall|x: int| #[trigger] self.heap.reaches(roots, x) implies self.heap.is_handle(x) by {
                    self.lemma_marked_handle(x);
                }
            } else {
                if let Err(GCError::InvalidObject(q)) = r {
                    let p = choose|p: int| #[trigger] self.marked(p) && self.heap.points_to(p, q as int);
                    self.heap.lemma_reaches_step(roots, p, q as int);
                }
            }
        }
        r
    }
}

impl GarbageCollector {
    /// The object that follows `this_object` in the region `block`, reading
    /// objects as packed one after another: the region's first object when
    /// `this_object` is `None`, and `None` past the cursor or where no valid
    /// signature follows.
    pub fn next_object(&self, block: &HeapBlock, this_object_option: Option<usize>) -> (r: Option<usize>)
        requires
            self.heap.wf(),
            self.heap.allocator.available,
            exists|i: int| 0 <= i < self.regions().len() && self.regions()[i] == *block,
            this_object_option matches Some(h) ==> self.heap.is_handle(h as int) && block.spans(h as int),
        ensures
            this_object_option is None ==> r == if block.unallocated_start != block.start {
                Some(block.start)
            } else {
                None::<usize>
            },
            this_object_option matches Some(h) ==> {
                let next = h + self.heap.object_size(h as int);
                r == if next < block.unallocated_start && SIG_NAT <= self.heap.word(next) <= SIG_SUM {
                    Some(next as usize)
                } else {
                    None::<usize>
                }
            },
    {
        let this_object = match this_object_option {
            None => {
                return if block.unallocated_start != block.start {
                    Some(block.start)
                } else {
                    None
                };
            },
            Some(h) => h,
        };
        let ghost bi = choose|i: int| 0 <= i < self.regions().len() && self.regions()[i] == *block;
        proof {
            let i = choose|i: int| 0 <= i < self.heap.allocated_objects@.len() && self.heap.allocated_objects@[i] == this_object;
            assert(self.heap.valid_object(self.heap.allocated_objects@[i] as int));
            self.heap.allocator.lemma_wf();
            assert(block.wf());
            assert(self.heap.allocator.holds(bi, this_object as int));
            self.heap.allocator.lemma_unique(bi, bi, this_object as int);
            let sch = self.heap.object_schema(this_object as int);
            assert(total_size(sch) % 8 == 0) by (nonlinear_arith)
                requires total_size(sch) == 24 + 8 * slot_kinds(sch).len();
        }
        let size = self.heap.object_size_of(this_object);
        let next = this_object + size;
        if next < block.unallocated_start {
            proof {
                assert(self.heap.allocator.holds(bi, next as int));
                self.heap.allocator.lemma_unique(bi, bi, next as int);
            }
            let sig = self.heap.allocator.read_word(next);
            if sig <= SIG_SUM as u64 && TypeSig::within_valid_range(sig as usize) {
                return Some(next);
            }
            None
        } else {
            None
        }
    }
}

impl GarbageCollector {
    /// Adds a zeroed bitmap row for each region that has none yet.
    fn grow_bitmap(&mut self)
        requires
            old(self).heap.wf(),
            old(self).heap.allocator.available,
            old(self).bitmap@.len() <= old(self).regions().len(),
            forall|r: int|
                0 <= r < old(self).bitmap@.len() ==> (#[trigger] old(self).bitmap@[r])@.len() == (old(self).regions()[r].size as int + 63) / 64,
        ensures
            final(self).bm_wf(),
            final(self).heap == old(self).heap,
            final(self).size_of_living == old(self).size_of_living,
            final(self).bitmap@.len() == final(self).regions().len(),
            forall|r: int| 0 <= r < old(self).bitmap@.len() ==> #[trigger] final(self).bitmap@[r] == old(self).bitmap@[r],
            forall|r: int, o: int|
                old(self).bitmap@.len() <= r < final(self).bitmap@.len() && 0 <= o < final(self).bitmap@[r]@.len()
                    ==> #[trigger] final(self).bitmap@[r]@[o] == 0,
    {
        let n = self.heap.allocator.region_count();
        let ghost old_rows = self.bitmap@;
        while self.bitmap.len() < n
            invariant
                self.heap == old(self).heap,
                self.size_of_living == old(self).size_of_living,
                self.heap.wf(),
                n == self.regions().len(),
                old_rows == old(self).bitmap@,
                old_rows.len() <= self.bitmap@.len() <= n,
                forall|r: int| 0 <= r < old_rows.len() ==> #[trigger] self.bitmap@[r] == old_rows[r],
                forall|r: int| 0 <= r < self.bitmap@.len() ==> (#[trigger] self.bitmap@[r])@.len() == (self.regions()[r].size as int + 63) / 64,
                forall|r: int, o: int|
                    old_rows.len() <= r < self.bitmap@.len() && 0 <= o < self.bitmap@[r]@.len() ==> #[trigger] self.bitmap@[r]@[o] == 0,
            decreases n - self.bitmap@.len(),
        {
            let b = self.heap.allocator.region(self.bitmap.len());
            proof {
                self.heap.allocator.lemma_wf();
                assert(b.wf());
            }
            self.bitmap.push(zero_row((b.size + 63) / 64));
        }
    }

    /// Writes `data` as an object of schema `schema`, growing the bitmap with
    /// the heap; the result is that of the heap's write.
    pub fn write_object(&mut self, schema: Schema, data: Data) -> (r: Result<usize, AllocatorError>)
        requires
            old(self).wf(),
        ensures
            final(self).wf(),
            ({
                let h0 = old(self).heap;
                let s = schema@;
                let d = data@;
                &&& old(self).heap.allocator.available && !schema_ok(s) ==> r == Err::<usize, AllocatorError>(AllocatorError::LayoutInvalid)
                &&& old(self).heap.allocator.available && schema_ok(s) && write_error(s, d) is Some ==> r == Err::<usize, AllocatorError>(
                    write_error(s, d)->0,
                )
                &&& old(self).heap.allocator.available && schema_ok(s) && write_error(s, d) is None && r is Err
                    ==> r == Err::<usize, AllocatorError>(AllocatorError::LayoutInvalid) && heap_full(h0.allocator, total_size(s))
                &&& r matches Ok(h) ==> final(self).heap.read_spec(h as int) == Ok::<(SchemaView, DataView), AllocatorError>((s, d))
                    && final(self).heap.allocated_objects@ == h0.allocated_objects@.push(h)
                &&& r is Err ==> final(self).heap.allocated_objects@ == h0.allocated_objects@
                &&& grown_by(h0.allocator, final(self).heap.allocator, total_size(s))
                &&& write_effect(h0, final(self).heap, total_size(s), schema_ok(s) && write_error(s, d) is None, r)
            }),
            forall|x: int| #[trigger] final(self).marked(x) == old(self).marked(x),
    {
        let ghost old_self = *self;
        let r = self.heap.allocate_general(schema, data);
        let ghost mid = *self;
        proof {
            self.heap.allocator.lemma_wf();
            assert forall|k: int| 0 <= k < self.bitmap@.len() implies (#[trigger] self.bitmap@[k])@.len() == (self.regions()[k].size as int + 63) / 64 by {
                assert(old_self.bitmap@[k]@.len() == (old_self.regions()[k].size as int + 63) / 64);
            }
            assert forall|h: int| #[trigger] old_self.heap.is_handle(h) implies self.heap.is_handle(h)
                && self.heap.object_size(h) == old_self.heap.object_size(h) by {
                let i = choose|i: int| 0 <= i < old_self.heap.allocated_objects@.len() && old_self.heap.allocated_objects@[i] == h;
                assert(old_self.heap.valid_object(old_self.heap.allocated_objects@[i] as int));
                assert(self.heap.allocated_objects@[i] == h);
            }
        }
        self.grow_bitmap();
        proof {
            self.lemma_marks_after_write(old_self);
        }
        r
    }

    proof fn lemma_marks_after_write(&self, old_self: GarbageCollector)
        requires
            old_self.wf(),
            self.bm_wf(),
            self.size_of_living == old_self.size_of_living,
            old_self.regions().len() <= self.regions().len(),
            forall|k: int| 0 <= k < old_self.regions().len() ==> {
                let a = old_self.regions()[k];
                let b = #[trigger] self.regions()[k];
                &&& b.start == a.start
                &&& b.size == a.size
            },
            forall|r: int| 0 <= r < old_self.bitmap@.len() ==> #[trigger] self.bitmap@[r] == old_self.bitmap@[r],
            forall|r: int, o: int|
                old_self.bitmap@.len() <= r < self.bitmap@.len() && 0 <= o < self.bitmap@[r]@.len() ==> #[trigger] self.bitmap@[r]@[o] == 0,
            forall|h: int| #[trigger] old_self.heap.is_handle(h) ==> self.heap.is_handle(h)
                && self.heap.object_size(h) == old_self.heap.object_size(h),
        ensures
            self.wf(),
            forall|x: int| #[trigger] self.marked(x) == old_self.marked(x),
    {
        lemma_zero_byte(0);
        let n0 = old_self.regions().len() as int;
        assert forall|r: int, w: int| 0 <= r < self.regions().len() && 0 <= w < self.words_in(r) implies #[trigger] self.bit_at(r, w)
            == (r < n0 && old_self.bit_at(r, w)) by {
            self.lemma_word_addr(r, w);
            if r >= n0 {
                assert(self.bitmap@[r]@[w / 8] == 0);
            }
        }
        assert forall|x: int| #[trigger] self.marked(x) == old_self.marked(x) by {
            if old_self.marked(x) {
                old_self.lemma_marked_pos(x);
                let r = old_self.heap.allocator.region_of(x);
                assert(self.heap.allocator.holds(r, x));
                self.heap.allocator.lemma_unique(r, r, x);
                self.lemma_addr_word(x);
            }
            if self.marked(x) {
                self.lemma_marked_pos(x);
                let r = self.heap.allocator.region_of(x);
                let w = (x - self.regions()[r].start) / 8;
                assert(r < n0);
                assert(old_self.heap.allocator.holds(r, x));
                old_self.heap.allocator.lemma_unique(r, r, x);
                old_self.lemma_words_in(r);
                old_self.lemma_addr_word(x);
            }
        }
        assert forall|r: int, w: int|
            0 <= r < self.regions().len() && 0 <= w < self.words_in(r) && #[trigger] self.bit_at(r, w)
                implies self.heap.is_handle(self.addr_of(r, w)) by {
            old_self.lemma_words_in(r);
            assert(old_self.bit_at(r, w));
        }
        assert forall|a: usize| #[trigger] self.size_of_living@.contains_key(a) implies self.size_of_living@[a] == self.heap.object_size(
            a as int,
        ) by {
            assert(old_self.marked(a as int));
            old_self.lemma_marked_handle(a as int);
        }
    }
}

} // verus!
