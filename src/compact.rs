//! Compaction by the Compressor: live bytes before each object give its new
//! address, through a table of per-block offsets and a count within the block.
use vstd::prelude::*;
use crate::bits::{bit_of, bit_set, count_bits_set_range, set_bits_in};
use crate::gc::{GarbageCollector, BYTES_PER_BLOCK};
use crate::heap::HeapBlock;
use crate::type_info::WORD_SIZE;

verus! {

broadcast use vstd::std_specs::hash::group_hash_axioms;

/// Words in a compaction block.
pub const WORDS_PER_BLOCK: usize = 32;

impl GarbageCollector {
    /// Bytes of the live object whose bit is word `w` of region `r`, or 0.
    pub open spec fn live_size_at(&self, r: int, w: int) -> int {
        if self.bit_at(r, w) {
            self.heap.object_size(self.addr_of(r, w))
        } else {
            0
        }
    }

    /// Bytes of the live objects that start in the first `n` words of region `r`.
    pub open spec fn live_prefix(&self, r: int, n: int) -> int
        decreases n,
    {
        if n <= 0 {
            0
        } else {
            self.live_prefix(r, n - 1) + self.live_size_at(r, n - 1)
        }
    }

    /// The furthest end of a live object that starts in the first `n` words of region `r`.
    pub open spec fn reach_end(&self, r: int, n: int) -> int
        decreases n,
    {
        if n <= 0 {
            self.regions()[r].start as int
        } else if self.bit_at(r, n - 1) {
            let e = self.addr_of(r, n - 1) + self.heap.object_size(self.addr_of(r, n - 1));
            if self.reach_end(r, n - 1) < e {
                e
            } else {
                self.reach_end(r, n - 1)
            }
        } else {
            self.reach_end(r, n - 1)
        }
    }

    /// Where compaction moves the live object at `a`: the start of its region plus
    /// the bytes of the live objects before it in that region.
    pub open spec fn new_location(&self, a: int) -> int {
        let r = self.heap.allocator.region_of(a);
        self.regions()[r].start + self.live_prefix(r, (a - self.regions()[r].start) / WORD_SIZE as int)
    }

    pub proof fn lemma_live_prefix_mono(&self, r: int, m: int, n: int)
        requires
            self.wf(),
            0 <= r < self.regions().len(),
            0 <= m <= n,
        ensures
            self.live_prefix(r, m) <= self.live_prefix(r, n),
        decreases n - m,
    {
        if m < n {
            self.lemma_live_prefix_mono(r, m, n - 1);
        }
    }

    /// A live object lies in its region, below the cursor.
    pub proof fn lemma_live_object(&self, r: int, w: int)
        requires
            self.wf(),
            0 <= r < self.regions().len(),
            0 <= w < self.words_in(r),
            self.bit_at(r, w),
        ensures
            self.heap.is_handle(self.addr_of(r, w)),
            self.heap.valid_object(self.addr_of(r, w)),
            self.addr_of(r, w) + self.heap.object_size(self.addr_of(r, w)) <= self.regions()[r].unallocated_start,
            self.heap.object_size(self.addr_of(r, w)) >= 24,
    {
        self.lemma_word_addr(r, w);
        let a = self.addr_of(r, w);
        let i = choose|i: int| 0 <= i < self.heap.allocated_objects@.len() && self.heap.allocated_objects@[i] == a;
        assert(self.heap.valid_object(self.heap.allocated_objects@[i] as int));
    }

    /// Live objects of a region do not overlap: the bytes before word `n` hold at
    /// most the live bytes of the objects that start there, and none of them
    /// reaches past a later live object or the cursor.
    pub proof fn lemma_reach(&self, r: int, n: int)
        requires
            self.wf(),
            0 <= r < self.regions().len(),
            0 <= n <= self.words_in(r),
        ensures
            self.live_prefix(r, n) <= self.reach_end(r, n) - self.regions()[r].start,
            self.regions()[r].start <= self.reach_end(r, n) <= self.regions()[r].unallocated_start,
            forall|w: int| n <= w < self.words_in(r) && #[trigger] self.bit_at(r, w) ==> self.reach_end(r, n) <= self.addr_of(r, w),
        decreases n,
    {
        self.heap.allocator.lemma_wf();
        assert(self.regions()[r].wf());
        if n > 0 {
            self.lemma_reach(r, n - 1);
            if self.bit_at(r, n - 1) {
                let x = self.addr_of(r, n - 1);
                self.lemma_live_object(r, n - 1);
                assert forall|w: int| n <= w < self.words_in(r) && #[trigger] self.bit_at(r, w) implies self.reach_end(r, n) <= self.addr_of(r, w) by {
                    let y = self.addr_of(r, w);
                    self.lemma_live_object(r, w);
                    self.lemma_pos_order(r, n - 1, r, w);
                    let i = choose|i: int| 0 <= i < self.heap.allocated_objects@.len() && self.heap.allocated_objects@[i] == x;
                    let j = choose|j: int| 0 <= j < self.heap.allocated_objects@.len() && self.heap.allocated_objects@[j] == y;
                    assert(self.heap.allocated_objects@[i] as int == x);
                    assert(self.heap.allocated_objects@[j] as int == y);
                    assert(i != j);
                }
            }
        }
    }

    /// Live bytes before a live object fit below it: compaction never moves an
    /// object up.
    pub proof fn lemma_moves_down(&self, r: int, w: int)
        requires
            self.wf(),
            0 <= r < self.regions().len(),
            0 <= w < self.words_in(r),
            self.bit_at(r, w),
        ensures
            self.regions()[r].start + self.live_prefix(r, w) <= self.addr_of(r, w),
            self.regions()[r].start + self.live_prefix(r, w + 1) <= self.addr_of(r, w) + self.heap.object_size(self.addr_of(r, w)),
    {
        self.lemma_reach(r, w);
    }

    /// All live bytes of a region fit below its cursor.
    pub proof fn lemma_live_total(&self, r: int, n: int)
        requires
            self.wf(),
            0 <= r < self.regions().len(),
            0 <= n <= self.words_in(r),
        ensures
            0 <= self.live_prefix(r, n) <= self.regions()[r].unallocated_start - self.regions()[r].start,
    {
        self.lemma_reach(r, n);
        self.lemma_live_prefix_mono(r, 0, n);
    }
}

impl GarbageCollector {
    /// Bytes of the live objects whose bits are listed in `bits`, bits of byte `k` of region `r`.
    pub open spec fn bits_sum(&self, r: int, k: int, bits: Seq<usize>) -> int
        decreases bits.len(),
    {
        if bits.len() == 0 {
            0
        } else {
            self.bits_sum(r, k, bits.drop_last()) + self.live_size_at(r, 8 * k + bits.last())
        }
    }

    pub proof fn lemma_bits_sum(&self, r: int, k: int, lo: int, hi: int)
        requires
            self.bm_wf(),
            0 <= r < self.regions().len(),
            0 <= k < self.bitmap@[r]@.len(),
            0 <= lo <= hi <= 8,
        ensures
            self.bits_sum(r, k, set_bits_in(self.bitmap@[r]@[k], lo, hi)) == self.live_prefix(r, 8 * k + hi)
                - self.live_prefix(r, 8 * k + lo),
        decreases hi - lo,
    {
        let b = self.bitmap@[r]@[k];
        if hi > lo {
            self.lemma_bits_sum(r, k, lo, hi - 1);
            let j = hi - 1;
            assert((8 * k + j) / 8 == k && (8 * k + j) % 8 == j) by (nonlinear_arith)
                requires 0 <= j < 8, k >= 0;
            assert(self.bit_at(r, 8 * k + j) == bit_of(b, j));
            if bit_of(b, j) {
                let bits = set_bits_in(b, lo, hi);
                assert(bits.drop_last() == set_bits_in(b, lo, hi - 1));
                assert(bits.last() == j as usize);
            }
        }
    }

    /// The size of the live object whose bit is word `w` of region `r`.
    fn live_size(&self, r: usize, w: usize) -> (s: usize)
        requires
            self.wf(),
            r < self.regions().len(),
            w < self.words_in(r as int),
        ensures
            s == self.live_size_at(r as int, w as int),
    {
        proof {
            self.lemma_word_addr(r as int, w as int);
        }
        let byte = self.bitmap[r][w / 8];
        if !bit_set(byte, w % 8) {
            return 0;
        }
        let addr = self.bitmap_index_to_address(crate::gc::BitmapIndex::new(r, w / 8, w % 8));
        proof {
            self.lemma_bit_marked(r as int, w as int);
            assert(self.size_of_living@.contains_key(addr));
        }
        match self.size_of_living.get(&addr) {
            Some(v) => *v,
            None => 0,
        }
    }

    /// The sum of the sizes of the live objects whose bits are set in byte `k`
    /// of region `r` at positions `0..hi`.
    fn byte_live_bytes(&self, r: usize, k: usize, hi: usize) -> (s: usize)
        requires
            self.wf(),
            r < self.regions().len(),
            k < self.bitmap@[r as int]@.len(),
            hi <= 8,
            8 * k + hi <= self.words_in(r as int),
        ensures
            s == self.live_prefix(r as int, 8 * k + hi) - self.live_prefix(r as int, 8 * k),
    {
        let byte = self.bitmap[r][k];
        let bits = count_bits_set_range(byte, 0, hi);
        proof {
            self.lemma_bits_sum(r as int, k as int, 0, hi as int);
            self.lemma_words_in(r as int);
            self.lemma_live_total(r as int, 8 * k + hi);
            self.lemma_live_prefix_mono(r as int, 0, 8 * k as int);
            self.lemma_live_prefix_mono(r as int, 8 * k as int, 8 * k + hi);
            self.heap.allocator.lemma_wf();
            assert(self.regions()[r as int].wf());
        }
        let mut sum: usize = 0;
        let mut j: usize = 0;
        while j < bits.len()
            invariant
                self.wf(),
                r < self.regions().len(),
                k < self.bitmap@[r as int]@.len(),
                hi <= 8,
                8 * k + hi <= self.words_in(r as int),
                self.words_in(r as int) <= usize::MAX,
                bits@ == set_bits_in(self.bitmap@[r as int]@[k as int], 0, hi as int),
                j <= bits@.len(),
                sum == self.bits_sum(r as int, k as int, bits@.take(j as int)),
                self.bits_sum(r as int, k as int, bits@) <= self.regions()[r as int].unallocated_start,
                self.regions()[r as int].unallocated_start <= usize::MAX,
            decreases bits@.len() - j,
        {
            proof {
                self.lemma_set_bits_in_range(self.bitmap@[r as int]@[k as int], 0, hi as int, j as int);
                assert(bits@.take(j as int + 1).drop_last() =~= bits@.take(j as int));
                self.lemma_bits_sum_prefix(r as int, k as int, bits@, j as int + 1);
            }
            let w = 8 * k + bits[j];
            sum = sum + self.live_size(r, w);
            j = j + 1;
        }
        proof {
            assert(bits@.take(bits@.len() as int) =~= bits@);
        }
        sum
    }

    pub proof fn lemma_words_in(&self, r: int)
        requires
            self.bm_wf(),
            0 <= r < self.regions().len(),
        ensures
            self.words_in(r) <= self.bitmap@[r]@.len() * 8,
            self.words_in(r) <= usize::MAX,
            self.words_in(r) >= 1,
    {
        self.heap.allocator.lemma_wf();
        let b = self.regions()[r];
        assert(b.wf());
        self.heap.allocator.lemma_ordered(r, r);
        let n = self.bitmap@[r]@.len();
        assert(n == (b.size as int + 63) / 64);
        assert((b.size as int + 7) / 8 <= n * 8) by (nonlinear_arith)
            requires n == (b.size + 63) / 64, b.size >= 0;
    }

    proof fn lemma_set_bits_in_range(&self, b: u8, lo: int, hi: int, j: int)
        requires
            0 <= lo <= hi <= 8,
            0 <= j < set_bits_in(b, lo, hi).len(),
        ensures
            lo <= set_bits_in(b, lo, hi)[j] < hi,
        decreases hi - lo,
    {
        if hi > lo {
            if j < set_bits_in(b, lo, hi - 1).len() {
                self.lemma_set_bits_in_range(b, lo, hi - 1, j);
            }
        }
    }

    proof fn lemma_bits_sum_prefix(&self, r: int, k: int, bits: Seq<usize>, n: int)
        requires
            self.wf(),
            0 <= r < self.regions().len(),
            0 <= n <= bits.len(),
        ensures
            0 <= self.bits_sum(r, k, bits.take(n)) <= self.bits_sum(r, k, bits),
        decreases bits.len(),
    {
        if bits.len() > 0 {
            if n == bits.len() {
                assert(bits.take(n) =~= bits);
                self.lemma_bits_sum_nonneg(r, k, bits);
            } else {
                assert(bits.take(n) =~= bits.drop_last().take(n));
                self.lemma_bits_sum_prefix(r, k, bits.drop_last(), n);
                self.lemma_live_size_nonneg(r, 8 * k + bits.last());
            }
        } else {
            assert(bits.take(n) =~= bits);
        }
    }

    proof fn lemma_bits_sum_nonneg(&self, r: int, k: int, bits: Seq<usize>)
        ensures
            self.bits_sum(r, k, bits) >= 0,
        decreases bits.len(),
    {
        if bits.len() > 0 {
            self.lemma_bits_sum_nonneg(r, k, bits.drop_last());
            self.lemma_live_size_nonneg(r, 8 * k + bits.last());
        }
    }

    proof fn lemma_live_size_nonneg(&self, r: int, w: int)
        ensures
            self.live_size_at(r, w) >= 0,
    {
    }
}

impl GarbageCollector {
    /// The offset table of region `region`: for each compaction block, where its
    /// first live object lands, which is the region's start plus the live bytes
    /// of the blocks before it.
    pub fn compute_locations(&self, region: usize) -> (offset: Vec<usize>)
        requires
            self.wf(),
            region < self.regions().len(),
        ensures
            offset@.len() == (self.words_in(region as int) + 31) / WORDS_PER_BLOCK as int,
            forall|b: int| 0 <= b < offset@.len() ==> #[trigger] offset@[b] == self.regions()[region as int].start
                + self.live_prefix(region as int, WORDS_PER_BLOCK * b),
    {
        let heap_block = self.heap.allocator.region(region);
        let ghost r = region as int;
        proof {
            self.lemma_words_in(r);
            self.heap.allocator.lemma_wf();
            assert(heap_block.wf());
            self.heap.allocator.lemma_ordered(r, r);
        }
        let words = (heap_block.size + 7) / WORD_SIZE;
        let mut location = heap_block.start;
        let mut offset: Vec<usize> = Vec::new();
        let mut w: usize = 0;
        while w < words
            invariant
                self.wf(),
                r == region as int,
                region < self.regions().len(),
                heap_block == self.regions()[r],
                heap_block.wf(),
                words == self.words_in(r),
                heap_block.start + heap_block.size <= usize::MAX,
                w <= words,
                location == heap_block.start + self.live_prefix(r, w as int),
                offset@.len() == (w + 31) / 32,
                forall|b: int| 0 <= b < offset@.len() ==> #[trigger] offset@[b] == heap_block.start + self.live_prefix(r, 32 * b),
            decreases words - w,
        {
            proof {
                self.lemma_live_total(r, w + 1);
                assert((w * 8) % 256 == 0 <==> w % 32 == 0) by (nonlinear_arith);
            }
            if (w * WORD_SIZE) % BYTES_PER_BLOCK == 0 {
                proof {
                    assert((w + 31) / 32 == w / 32) by (nonlinear_arith)
                        requires w % 32 == 0;
                    assert(32 * (w / 32) == w) by (nonlinear_arith)
                        requires w % 32 == 0;
                }
                offset.push(location);
                proof {
                    assert((w + 1 + 31) / 32 == w / 32 + 1) by (nonlinear_arith)
                        requires w % 32 == 0;
                }
            } else {
                proof {
                    assert((w + 1 + 31) / 32 == (w + 31) / 32) by (nonlinear_arith)
                        requires w % 32 != 0, w >= 0;
                }
            }
            location = location + self.live_size(region, w);
            w = w + 1;
        }
        offset
    }

    /// Live bytes in the compaction block of `address`, before `address`: the
    /// bits of the block's bytes before the one of `address`, and the lower bits
    /// of that byte.
    pub fn preceding_offset_in_compaction_block(&self, address: usize, region: usize) -> (s: usize)
        requires
            self.wf(),
            region < self.regions().len(),
            self.heap.allocator.holds(region as int, address as int),
            address % WORD_SIZE == 0,
        ensures
            ({
                let w = (address - self.regions()[region as int].start) / WORD_SIZE as int;
                s == self.live_prefix(region as int, w) - self.live_prefix(region as int, WORDS_PER_BLOCK * (w / WORDS_PER_BLOCK as int))
            }),
    {
        let heap_block = self.heap.allocator.region(region);
        proof {
            self.heap.allocator.lemma_unique(region as int, region as int, address as int);
            self.lemma_addr_word(address as int);
            self.lemma_words_in(region as int);
        }
        let w = heap_block.relative_offset(address) / WORD_SIZE;
        let start_word = (w / WORDS_PER_BLOCK) * WORDS_PER_BLOCK;
        let start_byte = start_word / 8;
        let end_byte = w / 8;
        let end_bit = w % 8;
        let ghost r = region as int;
        proof {
            assert(start_word % 8 == 0 && start_word <= w) by (nonlinear_arith)
                requires start_word == (w / 32) * 32;
            assert(8 * start_byte == start_word);
            assert(8 * end_byte + end_bit == w);
            self.lemma_live_total(r, w as int);
            self.lemma_live_prefix_mono(r, start_word as int, w as int);
            self.lemma_live_prefix_mono(r, 0, start_word as int);
            self.heap.allocator.lemma_wf();
            assert(heap_block.wf());
        }
        let mut sum: usize = 0;
        let mut k: usize = start_byte;
        while k < end_byte
            invariant
                self.wf(),
                r == region as int,
                region < self.regions().len(),
                heap_block == self.regions()[r],
                start_byte <= k <= end_byte,
                8 * start_byte == start_word,
                8 * end_byte + end_bit == w,
                end_bit < 8,
                w < self.words_in(r),
                sum == self.live_prefix(r, 8 * k) - self.live_prefix(r, start_word as int),
                self.live_prefix(r, start_word as int) >= 0,
                self.live_prefix(r, w as int) <= heap_block.unallocated_start - heap_block.start,
                heap_block.wf(),
                heap_block.unallocated_start <= usize::MAX,
            decreases end_byte - k,
        {
            proof {
                self.lemma_live_prefix_mono(r, 8 * k + 8, w as int);
                self.lemma_live_prefix_mono(r, start_word as int, 8 * k as int);
            }
            sum = sum + self.byte_live_bytes(region, k, 8);
            k = k + 1;
        }
        proof {
            self.lemma_live_prefix_mono(r, 8 * end_byte as int, w as int);
        }
        sum = sum + self.byte_live_bytes(region, end_byte, end_bit);
        sum
    }

    /// The address that compaction gives the live object at `old_address`.
    pub fn new_address_after_compaction(&self, old_address: usize, offset_table: &Vec<usize>, region: usize) -> (r: usize)
        requires
            self.wf(),
            region < self.regions().len(),
            self.heap.allocator.holds(region as int, old_address as int),
            old_address % WORD_SIZE == 0,
            offset_table@.len() == (self.words_in(region as int) + 31) / WORDS_PER_BLOCK as int,
            forall|b: int| 0 <= b < offset_table@.len() ==> #[trigger] offset_table@[b] == self.regions()[region as int].start
                + self.live_prefix(region as int, WORDS_PER_BLOCK * b),
        ensures
            r == self.new_location(old_address as int),
    {
        let heap_block = self.heap.allocator.region(region);
        proof {
            self.heap.allocator.lemma_unique(region as int, region as int, old_address as int);
            self.lemma_addr_word(old_address as int);
            self.lemma_words_in(region as int);
        }
        let block = heap_block.relative_offset(old_address) / BYTES_PER_BLOCK;
        let ghost w = (old_address - heap_block.start) / WORD_SIZE as int;
        proof {
            assert(block == w / 32) by (nonlinear_arith)
                requires block == (old_address - heap_block.start) / 256, w == (old_address - heap_block.start) / 8,
                    old_address >= heap_block.start;
            assert(block < offset_table@.len()) by (nonlinear_arith)
                requires block == w / 32, 0 <= w < self.words_in(region as int),
                    offset_table@.len() == (self.words_in(region as int) + 31) / 32;
            self.lemma_live_total(region as int, w);
            self.heap.allocator.lemma_wf();
            assert(heap_block.wf());
        }
        let precede = self.preceding_offset_in_compaction_block(old_address, region);
        offset_table[block] + precede
    }
}

impl GarbageCollector {
    /// Bytes of all the live objects of region `region`.
    pub fn region_live_bytes(&self, region: usize) -> (s: usize)
        requires
            self.wf(),
            region < self.regions().len(),
        ensures
            s == self.live_prefix(region as int, self.words_in(region as int)),
    {
        let heap_block = self.heap.allocator.region(region);
        let ghost r = region as int;
        proof {
            self.lemma_words_in(r);
            self.heap.allocator.lemma_wf();
            assert(heap_block.wf());
        }
        let words = (heap_block.size + 7) / WORD_SIZE;
        let mut sum: usize = 0;
        let mut w: usize = 0;
        while w < words
            invariant
                self.wf(),
                r == region as int,
                region < self.regions().len(),
                heap_block == self.regions()[r],
                heap_block.wf(),
                words == self.words_in(r),
                w <= words,
                sum == self.live_prefix(r, w as int),
            decreases words - w,
        {
            proof {
                self.lemma_live_total(r, w + 1);
            }
            sum = sum + self.live_size(region, w);
            w = w + 1;
        }
        sum
    }
}

} // verus!
