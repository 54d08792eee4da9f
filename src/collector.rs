//! A full collection: mark from the roots, plan each live object's move,
//! slide the objects down, and hand back the new addresses of the roots.
use vstd::prelude::*;
use std::collections::HashMap;
use crate::codec::{lemma_ref_indices, lemma_ref_indices_sorted, lemma_slot_index, ref_indices, slot_addr, ObjectAllocator};
use crate::errors::GCError;
use crate::gc::{in_list, GarbageCollector};
use crate::heap::{word_index, HeapAllocator, HEAP_BASE};
use crate::object::{decode, lemma_decode_encode, slot_kinds, total_size, Value};
use crate::relocate::{apply_patches, lemma_apply_hit, lemma_apply_len, lemma_apply_untouched, moved_image, moves_ok, patch_seqs, slide};
use crate::type_info::{HEADER_SIZE, WORD_SIZE};
use crate::type_sig::TypeKind;

verus! {

broadcast use vstd::std_specs::hash::group_hash_axioms;

impl GarbageCollector {
    /// The patches for the live object at `a`: each reference slot gets the new
    /// address of what it refers to, or stays null.
    pub open spec fn patch_for(&self, a: int) -> Seq<(usize, u64)> {
        self.heap.ref_slots(a).map_values(
            |e: (usize, usize)|
                (
                    (a + HEADER_SIZE + e.1) as usize,
                    if e.0 == 0 { 0u64 } else { self.new_location(e.0 as int) as u64 },
                ),
        )
    }

    pub proof fn lemma_live_prefix_words(&self, r: int, n: int)
        requires
            self.wf(),
            0 <= r < self.regions().len(),
            0 <= n,
        ensures
            self.live_prefix(r, n) % WORD_SIZE as int == 0,
        decreases n,
    {
        if n > 0 {
            self.lemma_live_prefix_words(r, n - 1);
            if self.bit_at(r, n - 1) {
                let a = self.addr_of(r, n - 1);
                let s = self.heap.object_schema(a);
                assert(total_size(s) % 8 == 0) by (nonlinear_arith)
                    requires total_size(s) == 24 + 8 * slot_kinds(s).len();
            }
        }
    }

    /// Where a live object goes, and why that move is sound.
    pub proof fn lemma_live_move(&self, a: int)
        requires
            self.wf(),
            self.marked(a),
        ensures
            ({
                let r = self.heap.allocator.region_of(a);
                let w = (a - self.regions()[r].start) / WORD_SIZE as int;
                let n = self.heap.object_size(a);
                &&& 0 <= r < self.regions().len()
                &&& 0 <= w < self.words_in(r)
                &&& self.addr_of(r, w) == a
                &&& self.bit_at(r, w)
                &&& self.heap.valid_object(a)
                &&& self.heap.is_handle(a)
                &&& self.new_location(a) == self.regions()[r].start + self.live_prefix(r, w)
                &&& self.new_location(a) + n == self.regions()[r].start + self.live_prefix(r, w + 1)
                &&& HEAP_BASE <= self.regions()[r].start <= self.new_location(a) <= a
                &&& self.new_location(a) % WORD_SIZE as int == 0
                &&& n % WORD_SIZE as int == 0
                &&& n >= HEADER_SIZE
                &&& a + n <= self.regions()[r].unallocated_start
                &&& self.regions()[r].unallocated_start <= self.regions()[r].end()
                &&& self.regions()[r].end() <= HEAP_BASE + self.heap.allocator.extent
            }),
    {
        self.lemma_marked_pos(a);
        let r = self.heap.allocator.region_of(a);
        let w = (a - self.regions()[r].start) / 8;
        self.lemma_live_object(r, w);
        self.lemma_moves_down(r, w);
        self.lemma_live_prefix_words(r, w);
        self.lemma_live_prefix_mono(r, 0, w);
        self.heap.allocator.lemma_ordered(r, r);
        self.heap.allocator.lemma_wf();
        assert(self.regions()[r].wf());
        let s = self.heap.object_schema(a);
        assert(total_size(s) % 8 == 0) by (nonlinear_arith)
            requires total_size(s) == 24 + 8 * slot_kinds(s).len();
        assert(self.regions()[r].start % 8 == 0);
    }

    /// Two live objects, in address order, move in the same order and stay apart.
    pub proof fn lemma_two_moves(&self, a: int, b: int)
        requires
            self.wf(),
            self.marked(a),
            self.marked(b),
            a < b,
        ensures
            a + self.heap.object_size(a) <= b,
            self.new_location(a) + self.heap.object_size(a) <= self.new_location(b),
            self.new_location(a) + self.heap.object_size(a) <= a + self.heap.object_size(a),
    {
        self.lemma_live_move(a);
        self.lemma_live_move(b);
        let ra = self.heap.allocator.region_of(a);
        let rb = self.heap.allocator.region_of(b);
        let wa = (a - self.regions()[ra].start) / 8;
        let wb = (b - self.regions()[rb].start) / 8;
        let i = choose|i: int| 0 <= i < self.heap.allocated_objects@.len() && self.heap.allocated_objects@[i] == a;
        let j = choose|j: int| 0 <= j < self.heap.allocated_objects@.len() && self.heap.allocated_objects@[j] == b;
        assert(self.heap.allocated_objects@[i] as int == a);
        assert(self.heap.allocated_objects@[j] as int == b);
        self.lemma_pos_order(ra, wa, rb, wb);
        if ra == rb {
            self.lemma_live_prefix_mono(ra, wa + 1, wb);
        } else {
            self.heap.allocator.lemma_ordered(ra, rb);
        }
    }
}

impl GarbageCollector {
    /// The new address of the live object at `a`, from the offset tables.
    fn relocated_address(&self, a: usize, tables: &Vec<Vec<usize>>) -> (r: usize)
        requires
            self.wf(),
            self.marked(a as int),
            tables@.len() == self.regions().len(),
            forall|i: int| 0 <= i < tables@.len() ==> (#[trigger] tables@[i])@.len() == (self.words_in(i) + 31) / 32,
            forall|i: int, b: int| 0 <= i < tables@.len() && 0 <= b < tables@[i]@.len() ==> #[trigger] tables@[i]@[b]
                == self.regions()[i].start + self.live_prefix(i, 32 * b),
        ensures
            r == self.new_location(a as int),
    {
        proof {
            self.lemma_marked_pos(a as int);
        }
        let ri = match self.heap.allocator.region_index_of(a) {
            Some(i) => i,
            None => 0,
        };
        self.new_address_after_compaction(a, &tables[ri], ri)
    }

    /// The patches of the live object at `a`.
    fn plan_patches(&self, a: usize, tables: &Vec<Vec<usize>>) -> (ps: Vec<(usize, u64)>)
        requires
            self.wf(),
            self.closed(),
            self.marked(a as int),
            tables@.len() == self.regions().len(),
            forall|i: int| 0 <= i < tables@.len() ==> (#[trigger] tables@[i])@.len() == (self.words_in(i) + 31) / 32,
            forall|i: int, b: int| 0 <= i < tables@.len() && 0 <= b < tables@[i]@.len() ==> #[trigger] tables@[i]@[b]
                == self.regions()[i].start + self.live_prefix(i, 32 * b),
        ensures
            ps@ == self.patch_for(a as int),
    {
        proof {
            self.lemma_live_move(a as int);
        }
        let ptrs = match self.heap.pointers(a) {
            Ok(v) => v,
            Err(_) => Vec::new(),
        };
        let mut ps: Vec<(usize, u64)> = Vec::new();
        let mut j: usize = 0;
        let ghost target = self.patch_for(a as int);
        proof {
            let kinds = slot_kinds(self.heap.object_schema(a as int));
            lemma_ref_indices(kinds);
        }
        while j < ptrs.len()
            invariant
                self.wf(),
                self.closed(),
                self.marked(a as int),
                tables@.len() == self.regions().len(),
                forall|i: int| 0 <= i < tables@.len() ==> (#[trigger] tables@[i])@.len() == (self.words_in(i) + 31) / 32,
                forall|i: int, b: int| 0 <= i < tables@.len() && 0 <= b < tables@[i]@.len() ==> #[trigger] tables@[i]@[b]
                    == self.regions()[i].start + self.live_prefix(i, 32 * b),
                ptrs@ == self.heap.ref_slots(a as int),
                target == self.patch_for(a as int),
                j <= ptrs@.len(),
                ps@ == target.take(j as int),
                a + self.heap.object_size(a as int) <= usize::MAX,
                forall|k: int| 0 <= k < ref_indices(slot_kinds(self.heap.object_schema(a as int))).len() ==> 0 <= #[trigger] ref_indices(slot_kinds(self.heap.object_schema(a as int)))[k] < slot_kinds(self.heap.object_schema(a as int)).len(),
            decreases ptrs@.len() - j,
        {
            let (q, off) = ptrs[j];
            proof {
                let kinds = slot_kinds(self.heap.object_schema(a as int));
                let k = ref_indices(kinds)[j as int];
                assert(0 <= k < kinds.len());
                assert(off == (WORD_SIZE * k) as usize);
                assert(self.heap.object_size(a as int) == 24 + 8 * kinds.len());
                assert(a + 24 + 8 * k < a + self.heap.object_size(a as int));
            }
            let value: u64 = if q == 0 {
                0
            } else {
                proof {
                    assert(self.heap.points_to(a as int, q as int)) by {
                        assert(self.heap.ref_slots(a as int)[j as int].0 == q);
                    }
                    assert(self.marked(q as int));
                    self.lemma_live_move(q as int);
                }
                self.relocated_address(q, tables) as u64
            };
            ps.push((a + HEADER_SIZE + off, value));
            j = j + 1;
            proof {
                assert(ps@ =~= target.take(j as int));
            }
        }
        proof {
            assert(target.take(ptrs@.len() as int) =~= target);
        }
        ps
    }
}

/// Live bytes, among the first `n` words of region `r`, of the objects reached from `roots`.
pub open spec fn reached_prefix(heap: ObjectAllocator, roots: Seq<usize>, r: int, n: int) -> int
    decreases n,
{
    if n <= 0 {
        0
    } else {
        let a = heap.allocator.regions()[r].start + WORD_SIZE * (n - 1);
        reached_prefix(heap, roots, r, n - 1) + if heap.reaches(roots, a) { heap.object_size(a) } else { 0 }
    }
}

/// Where collecting with `roots` moves the object at `a`: the start of its region
/// plus the bytes of the reached objects before it there.
pub open spec fn compact_target(heap: ObjectAllocator, roots: Seq<usize>, a: int) -> int {
    let r = heap.allocator.region_of(a);
    let start = heap.allocator.regions()[r].start as int;
    start + reached_prefix(heap, roots, r, (a - start) / WORD_SIZE as int)
}

/// The object moved from `a` to `t` keeps its header words and the words of
/// every slot that is not a reference.
pub open spec fn kept_words(pre: ObjectAllocator, post: ObjectAllocator, a: int, t: int) -> bool {
    forall|m: int|
        0 <= m < pre.object_size(a) / WORD_SIZE as int && (m < 3 || slot_kinds(pre.object_schema(a))[m - 3]
            != TypeKind::Reference) ==> #[trigger] post.word(slot_addr(t, m)) == pre.word(slot_addr(a, m))
}

/// A value after collection: a non-null reference now names its target's new address.
pub open spec fn relocated_value(heap: ObjectAllocator, roots: Seq<usize>, v: Value) -> Value {
    match v {
        Value::Reference(q) => Value::Reference(if q == 0 { 0 } else { compact_target(heap, roots, q as int) as usize }),
        _ => v,
    }
}

/// The values of the object at `a` after collection.
pub open spec fn relocated_values(heap: ObjectAllocator, roots: Seq<usize>, a: int) -> Seq<Value> {
    heap.object_values(a).map_values(|v: Value| relocated_value(heap, roots, v))
}

impl GarbageCollector {
    /// With the reached objects marked, the live bytes are those of the reached objects.
    pub proof fn lemma_prefix_reached(&self, roots: Seq<usize>, r: int, n: int)
        requires
            self.wf(),
            forall|x: int| #[trigger] self.marked(x) <==> self.heap.reaches(roots, x),
            0 <= r < self.regions().len(),
            0 <= n <= self.words_in(r),
        ensures
            self.live_prefix(r, n) == reached_prefix(self.heap, roots, r, n),
        decreases n,
    {
        if n > 0 {
            self.lemma_prefix_reached(roots, r, n - 1);
            self.lemma_bit_marked(r, n - 1);
        }
    }

    pub proof fn lemma_target(&self, roots: Seq<usize>, a: int)
        requires
            self.wf(),
            forall|x: int| #[trigger] self.marked(x) <==> self.heap.reaches(roots, x),
            self.marked(a),
        ensures
            self.new_location(a) == compact_target(self.heap, roots, a),
    {
        self.lemma_live_move(a);
        let r = self.heap.allocator.region_of(a);
        let w = (a - self.regions()[r].start) / 8;
        self.lemma_prefix_reached(roots, r, w);
    }

    proof fn lemma_moves_ok(&self, live: Seq<usize>, moves: Seq<(usize, usize, usize)>, patches: Seq<Vec<(usize, u64)>>)
        requires
            self.wf(),
            forall|i: int| 0 <= i < live.len() ==> #[trigger] self.marked(live[i] as int),
            forall|i: int, j: int| 0 <= i < j < live.len() ==> live[i] < live[j],
            moves.len() == live.len(),
            patches.len() == live.len(),
            forall|i: int| 0 <= i < live.len() ==> #[trigger] moves[i] == (
                live[i],
                self.new_location(live[i] as int) as usize,
                self.heap.object_size(live[i] as int) as usize,
            ),
            forall|i: int| 0 <= i < live.len() ==> (#[trigger] patches[i])@ == self.patch_for(live[i] as int),
        ensures
            moves_ok(self.heap.allocator, moves, patch_seqs(patches)),
    {
        let ps = patch_seqs(patches);
        assert forall|i: int| 0 <= i < moves.len() implies {
            let (s, d, n) = #[trigger] moves[i];
            &&& s % WORD_SIZE == 0
            &&& d % WORD_SIZE == 0
            &&& n % WORD_SIZE == 0
            &&& HEAP_BASE <= d <= s
            &&& s + n <= HEAP_BASE + self.heap.allocator.extent
        } by {
            self.lemma_live_move(live[i] as int);
        }
        assert forall|i: int, j: int| 0 <= i < j < moves.len() implies {
            let (si, di, ni) = #[trigger] moves[i];
            let (sj, dj, nj) = #[trigger] moves[j];
            &&& si + ni <= sj
            &&& di + ni <= dj
            &&& di + ni <= sj
        } by {
            self.lemma_live_move(live[i] as int);
            self.lemma_live_move(live[j] as int);
            self.lemma_two_moves(live[i] as int, live[j] as int);
        }
        assert forall|i: int, k: int| 0 <= i < moves.len() && 0 <= k < ps[i].len() implies {
            let (s, d, n) = moves[i];
            let a = (#[trigger] ps[i][k]).0 as int;
            &&& a % WORD_SIZE as int == 0
            &&& s <= a < s + n
        } by {
            let x = live[i] as int;
            self.lemma_live_move(x);
            let kinds = slot_kinds(self.heap.object_schema(x));
            lemma_ref_indices(kinds);
            assert(ps[i] == patches[i]@);
            let slot = ref_indices(kinds)[k];
            assert(0 <= slot < kinds.len());
            assert(self.heap.object_size(x) == 24 + 8 * kinds.len());
            assert(ps[i][k].0 == (x + 24 + 8 * slot) as usize);
            assert((x + 24 + 8 * slot) % 8 == 0) by (nonlinear_arith)
                requires x % 8 == 0;
        }
    }
}

/// The facts that a finished collection leaves, as its proof assembles them.
#[verifier::opaque]
pub open spec fn slid(
    g: GarbageCollector,
    f: ObjectAllocator,
    live: Seq<usize>,
    moves: Seq<(usize, usize, usize)>,
    patches: Seq<Vec<(usize, u64)>>,
) -> bool {
    &&& g.wf()
    &&& g.closed()
    &&& forall|i: int| 0 <= i < live.len() ==> #[trigger] g.marked(live[i] as int)
    &&& forall|x: int| #[trigger] g.marked(x) ==> in_list(live, x)
    &&& forall|i: int, j: int| 0 <= i < j < live.len() ==> live[i] < live[j]
    &&& moves.len() == live.len()
    &&& patches.len() == live.len()
    &&& forall|i: int| 0 <= i < live.len() ==> #[trigger] moves[i] == (
        live[i],
        g.new_location(live[i] as int) as usize,
        g.heap.object_size(live[i] as int) as usize,
    )
    &&& forall|i: int| 0 <= i < live.len() ==> (#[trigger] patches[i])@ == g.patch_for(live[i] as int)
    &&& f.allocator.wf()
    &&& f.allocator.available
    &&& f.schemas@ == g.heap.schemas@
    &&& f.allocator.extent == g.heap.allocator.extent
    &&& f.allocator.regions().len() == g.regions().len()
    &&& forall|r: int| 0 <= r < g.regions().len() ==> {
        let a = g.regions()[r];
        let b = #[trigger] f.allocator.regions()[r];
        &&& b.start == a.start
        &&& b.size == a.size
        &&& b.unallocated_start == a.start + g.live_prefix(r, g.words_in(r))
    }
    &&& f.allocator.words().len() == g.heap.allocator.words().len()
    &&& forall|i: int, m: int|
        0 <= i < moves.len() && 0 <= m < moves[i].2 as int / WORD_SIZE as int ==> f.allocator.words()[word_index(
            moves[i].1 as int,
        ) + m] == #[trigger] moved_image(g.heap.allocator.words(), moves, patch_seqs(patches), i, m)
    &&& f.allocated_objects@.len() == live.len()
    &&& forall|i: int| 0 <= i < live.len() ==> #[trigger] f.allocated_objects@[i] == moves[i].1
}

/// A moved object: its header is the old one, its values are the old ones
/// with references renamed.
proof fn lemma_moved_object(
    g: GarbageCollector,
    f: ObjectAllocator,
    live: Seq<usize>,
    moves: Seq<(usize, usize, usize)>,
    patches: Seq<Vec<(usize, u64)>>,
    roots: Seq<usize>,
    i: int,
)
    requires
        slid(g, f, live, moves, patches),
        forall|x: int| #[trigger] g.marked(x) <==> g.heap.reaches(roots, x),
        0 <= i < live.len(),
    ensures
        f.valid_object(moves[i].1 as int),
        f.object_schema(moves[i].1 as int) == g.heap.object_schema(live[i] as int),
        f.object_size(moves[i].1 as int) == g.heap.object_size(live[i] as int),
        f.object_values(moves[i].1 as int) == relocated_values(g.heap, roots, live[i] as int),
        moves[i].1 as int == compact_target(g.heap, roots, live[i] as int),
        kept_words(g.heap, f, live[i] as int, moves[i].1 as int),
{
    reveal(slid);
    let a = live[i] as int;
    let d = moves[i].1 as int;
    let n = g.heap.object_size(a);
    let ps = patch_seqs(patches);
    let mem0 = g.heap.allocator.words();
    g.lemma_live_move(a);
    g.lemma_target(roots, a);
    let r = g.heap.allocator.region_of(a);
    let w = (a - g.regions()[r].start) / 8;
    let sch = g.heap.object_schema(a);
    let kinds = slot_kinds(sch);
    assert(n == 24 + 8 * kinds.len());
    assert(ps[i] == patches[i]@);
    lemma_ref_indices(kinds);
    lemma_ref_indices_sorted(kinds);
    g.lemma_live_prefix_mono(r, w + 1, g.words_in(r));
    g.heap.allocator.lemma_wf();
    f.allocator.lemma_wf();
    lemma_apply_len(mem0, ps[i]);
    // the words of the object at its new place
    assert forall|m: int| 0 <= m < n / 8 implies #[trigger] f.word(slot_addr(d, m)) == apply_patches(mem0, ps[i])[word_index(a) + m] by {
        lemma_slot_index(d, m);
        assert(moved_image(mem0, moves, ps, i, m) == apply_patches(mem0, ps[i])[word_index(a) + m]);
    }
    // words of the patches
    assert forall|j: int| 0 <= j < ps[i].len() implies word_index(#[trigger] ps[i][j].0 as int) == word_index(a) + 3 + ref_indices(kinds)[j] by {
        lemma_slot_index(a, 3 + ref_indices(kinds)[j]);
        assert(ps[i][j].0 == (a + 24 + 8 * ref_indices(kinds)[j]) as usize);
    }
    assert forall|j1: int, j2: int| 0 <= j1 < j2 < ps[i].len() implies word_index(#[trigger] ps[i][j1].0 as int) != word_index(#[trigger] ps[i][j2].0 as int) by {
        assert(ref_indices(kinds)[j1] < ref_indices(kinds)[j2]);
    }
    // the old words of the object
    assert forall|m: int| 0 <= m < n / 8 implies #[trigger] mem0[word_index(a) + m] == g.heap.word(slot_addr(a, m)) by {
        lemma_slot_index(a, m);
    }
    assert(word_index(a) + n / 8 <= mem0.len()) by {
        lemma_slot_index(a, n / 8);
        g.heap.allocator.lemma_ordered(r, r);
        assert((a + n - 65536) / 8 <= mem0.len()) by (nonlinear_arith)
            requires a + n <= 65536 + g.heap.allocator.extent, mem0.len() * 8 == g.heap.allocator.extent, a >= 65536, (a + n) % 8 == 0;
    }
    // the header is untouched
    assert forall|m: int| 0 <= m < 3 implies #[trigger] f.word(slot_addr(d, m)) == g.heap.word(slot_addr(a, m)) by {
        assert(m < n / 8);
        assert(f.word(slot_addr(d, m)) == apply_patches(mem0, ps[i])[word_index(a) + m]);
        lemma_apply_untouched(mem0, ps[i], word_index(a) + m);
        assert(mem0[word_index(a) + m] == g.heap.word(slot_addr(a, m)));
    }
    assert(slot_addr(d, 0) == d && slot_addr(a, 0) == a);
    assert(f.object_schema(d) == sch);
    // the new place lies in the same region, below the reset cursor
    assert(f.allocator.regions()[r].start == g.regions()[r].start);
    assert(f.allocator.holds(r, d));
    f.allocator.lemma_unique(r, r, d);
    assert(f.valid_object(d));
    // the values
    assert forall|k: int| 0 <= k < kinds.len() implies #[trigger] f.object_values(d)[k] == relocated_values(g.heap, roots, a)[k] by {
        assert(3 + k < n / 8);
        let fw = f.word(slot_addr(d, 3 + k));
        assert(fw == apply_patches(mem0, ps[i])[word_index(a) + 3 + k]);
        assert(mem0[word_index(a) + 3 + k] == g.heap.word(slot_addr(a, 3 + k)));
        lemma_moved_value(g, roots, a, k, ps[i], mem0, fw);
        assert(relocated_values(g.heap, roots, a)[k] == relocated_value(g.heap, roots, g.heap.object_values(a)[k]));
    }
    assert(f.object_values(d) =~= relocated_values(g.heap, roots, a));
    assert forall|m: int|
        0 <= m < n / WORD_SIZE as int && (m < 3 || kinds[m - 3] != TypeKind::Reference) implies #[trigger] f.word(slot_addr(d, m))
            == g.heap.word(slot_addr(a, m)) by {
        assert(f.word(slot_addr(d, m)) == apply_patches(mem0, ps[i])[word_index(a) + m]);
        assert forall|j: int| 0 <= j < ps[i].len() implies word_index(#[trigger] ps[i][j].0 as int) != word_index(a) + m by {
            assert(kinds[ref_indices(kinds)[j]] == TypeKind::Reference);
        }
        lemma_apply_untouched(mem0, ps[i], word_index(a) + m);
        assert(mem0[word_index(a) + m] == g.heap.word(slot_addr(a, m)));
    }
}

/// One value of a moved object: the old one, or for a non-null reference, the
/// new address of its target.
proof fn lemma_moved_value(g: GarbageCollector, roots: Seq<usize>, a: int, k: int, ps: Seq<(usize, u64)>, mem0: Seq<u64>, fw: u64)
    requires
        g.wf(),
        g.closed(),
        forall|x: int| #[trigger] g.marked(x) <==> g.heap.reaches(roots, x),
        g.marked(a),
        g.heap.valid_object(a),
        0 <= k < slot_kinds(g.heap.object_schema(a)).len(),
        ps == g.patch_for(a),
        forall|j: int| 0 <= j < ps.len() ==> word_index(#[trigger] ps[j].0 as int) == word_index(a) + 3 + ref_indices(
            slot_kinds(g.heap.object_schema(a)),
        )[j],
        forall|j1: int, j2: int| 0 <= j1 < j2 < ps.len() ==> word_index(#[trigger] ps[j1].0 as int) != word_index(#[trigger] ps[j2].0 as int),
        0 <= word_index(a) + 3 + k < mem0.len(),
        mem0[word_index(a) + 3 + k] == g.heap.word(slot_addr(a, 3 + k)),
        fw == apply_patches(mem0, ps)[word_index(a) + 3 + k],
    ensures
        decode(slot_kinds(g.heap.object_schema(a))[k], fw) == relocated_value(g.heap, roots, g.heap.object_values(a)[k]),
{
    let kinds = slot_kinds(g.heap.object_schema(a));
    lemma_ref_indices(kinds);
    let ow = g.heap.word(slot_addr(a, 3 + k));
    let v = g.heap.object_values(a)[k];
    assert(v == decode(kinds[k], ow));
    if kinds[k] == TypeKind::Reference {
        let j = choose|j: int| 0 <= j < ref_indices(kinds).len() && #[trigger] ref_indices(kinds)[j] == k;
        lemma_apply_hit(mem0, ps, j);
        let q = g.heap.ref_slots(a)[j].0;
        assert(g.heap.ref_slots(a)[j] == (g.heap.word(slot_addr(a, 3 + k)) as usize, (WORD_SIZE * k) as usize));
        assert(q == ow as usize);
        if q != 0 {
            assert(g.heap.points_to(a, q as int));
            assert(g.marked(q as int));
            g.lemma_target(roots, q as int);
            g.lemma_live_move(q as int);
            let nl = g.new_location(q as int);
            assert((nl as usize) as int == nl);
            assert((nl as u64) as int == nl);
            lemma_decode_encode(Value::Reference(nl as usize));
            assert(fw == nl as u64);
            assert(((nl as usize) as u64) == fw);
            assert(decode(TypeKind::Reference, fw) == Value::Reference(nl as usize));
            assert(v == Value::Reference(q));
            assert(compact_target(g.heap, roots, q as int) == nl);
            assert(relocated_value(g.heap, roots, v) == Value::Reference(nl as usize));
        } else {
            assert(fw == 0);
            assert(decode(TypeKind::Reference, fw) == Value::Reference(0));
            assert(v == Value::Reference(0));
        }
    } else {
        assert forall|j: int| 0 <= j < ps.len() implies word_index(#[trigger] ps[j].0 as int) != word_index(a) + 3 + k by {
            assert(kinds[ref_indices(kinds)[j]] == TypeKind::Reference);
        }
        lemma_apply_untouched(mem0, ps, word_index(a) + 3 + k);
        assert(fw == ow);
        assert(!(v is Reference));
    }
}

/// The state after marking from `roots`, which the planning of a collection reads.
pub open spec fn marked_from(g: GarbageCollector, roots: Seq<usize>) -> bool {
    &&& g.wf()
    &&& g.closed()
    &&& forall|x: int| #[trigger] g.marked(x) <==> g.heap.reaches(roots, x)
}

impl GarbageCollector {
    /// Marks from `roots`, moves every reached object down to its compacted
    /// address, rewrites every reference, and returns the new address of each
    /// non-null root.
    pub fn collect(&mut self, roots: &Vec<usize>) -> (r: Result<HashMap<usize, usize>, GCError>)
        requires
            old(self).heap.wf(),
        ensures
            !old(self).heap.allocator.available ==> r == Err::<HashMap<usize, usize>, GCError>(GCError::AllocatorClosed),
            old(self).heap.allocator.available ==> final(self).wf(),
            r is Err ==> final(self).heap == old(self).heap,
            old(self).heap.allocator.available ==> ((r == Err::<HashMap<usize, usize>, GCError>(GCError::InvalidRoots)) <==> exists|i: int|
                0 <= i < roots@.len() && roots@[i] != 0 && !old(self).heap.is_handle(#[trigger] roots@[i] as int)),
            old(self).heap.allocator.available ==> (r is Ok <==> forall|x: int|
                #[trigger] old(self).heap.reaches(roots@, x) ==> old(self).heap.is_handle(x)),
            old(self).heap.allocator.available && r is Err ==> r == Err::<HashMap<usize, usize>, GCError>(GCError::InvalidRoots)
                || r->Err_0 is InvalidObject,
            r matches Err(GCError::InvalidObject(q)) ==> q != 0 && !old(self).heap.is_handle(q as int) && exists|p: int|
                #[trigger] old(self).heap.reaches(roots@, p) && old(self).heap.points_to(p, q as int),
            r matches Ok(m) ==> {
                &&& forall|i: int| 0 <= i < roots@.len() && roots@[i] != 0 ==> m@.contains_key(#[trigger] roots@[i])
                    && m@[roots@[i]] == compact_target(old(self).heap, roots@, roots@[i] as int) as usize
                &&& forall|k: usize| #[trigger] m@.contains_key(k) ==> k != 0 && exists|i: int| 0 <= i < roots@.len() && roots@[i] == k
                &&& forall|a: int| #[trigger] old(self).heap.reaches(roots@, a) ==> {
                    let t = compact_target(old(self).heap, roots@, a);
                    &&& final(self).heap.is_handle(t)
                    &&& final(self).heap.valid_object(t)
                    &&& final(self).heap.object_schema(t) == old(self).heap.object_schema(a)
                    &&& final(self).heap.object_size(t) == old(self).heap.object_size(a)
                    &&& final(self).heap.object_values(t) == relocated_values(old(self).heap, roots@, a)
                    &&& kept_words(old(self).heap, final(self).heap, a, t)
                }
                &&& forall|t: int| #[trigger] final(self).heap.is_handle(t) ==> exists|a: int|
                    old(self).heap.reaches(roots@, a) && t == compact_target(old(self).heap, roots@, a)
                &&& forall|x: int| !#[trigger] final(self).marked(x)
                &&& final(self).regions().len() == old(self).heap.allocator.regions().len()
                &&& forall|r: int| 0 <= r < final(self).regions().len() ==> {
                    let a = old(self).heap.allocator.regions()[r];
                    let b = #[trigger] final(self).regions()[r];
                    &&& b.start == a.start
                    &&& b.size == a.size
                    &&& b.unallocated_start == a.start + reached_prefix(
                        old(self).heap,
                        roots@,
                        r,
                        (a.size as int + 7) / WORD_SIZE as int,
                    )
                }
            },
    {
        match self.mark_living(roots) {
            Ok(()) => {},
            Err(e) => {
                return Err(e);
            },
        }
        let ghost g = *self;
        let ghost rs = roots@;
        let live = self.all_marked_bits();
        let n = self.heap.allocator.region_count();
        let mut tables: Vec<Vec<usize>> = Vec::new();
        let mut cursors: Vec<usize> = Vec::new();
        let mut r: usize = 0;
        while r < n
            invariant
                *self == g,
                marked_from(g, rs),
                n == g.regions().len(),
                r <= n,
                tables@.len() == r,
                cursors@.len() == r,
                forall|i: int| 0 <= i < r ==> (#[trigger] tables@[i])@.len() == (g.words_in(i) + 31) / 32,
                forall|i: int, b: int| 0 <= i < r && 0 <= b < tables@[i]@.len() ==> #[trigger] tables@[i]@[b]
                    == g.regions()[i].start + g.live_prefix(i, 32 * b),
                forall|i: int| 0 <= i < r ==> #[trigger] cursors@[i] == g.regions()[i].start + g.live_prefix(i, g.words_in(i)),
            decreases n - r,
        {
            tables.push(self.compute_locations(r));
            let b = self.heap.allocator.region(r);
            proof {
                self.lemma_live_total(r as int, self.words_in(r as int));
                self.heap.allocator.lemma_wf();
                assert(b.wf());
            }
            cursors.push(b.start + self.region_live_bytes(r));
            r = r + 1;
        }
        let mut moves: Vec<(usize, usize, usize)> = Vec::new();
        let mut patches: Vec<Vec<(usize, u64)>> = Vec::new();
        let mut i: usize = 0;
        while i < live.len()
            invariant
                *self == g,
                marked_from(g, rs),
                tables@.len() == g.regions().len(),
                forall|k: int| 0 <= k < tables@.len() ==> (#[trigger] tables@[k])@.len() == (g.words_in(k) + 31) / 32,
                forall|k: int, b: int| 0 <= k < tables@.len() && 0 <= b < tables@[k]@.len() ==> #[trigger] tables@[k]@[b]
                    == g.regions()[k].start + g.live_prefix(k, 32 * b),
                forall|x: int| #[trigger] g.marked(x) <==> exists|j: int| 0 <= j < live@.len() && live@[j] == x,
                i <= live@.len(),
                moves@.len() == i,
                patches@.len() == i,
                forall|j: int| 0 <= j < i ==> #[trigger] moves@[j] == (
                    live@[j],
                    g.new_location(live@[j] as int) as usize,
                    g.heap.object_size(live@[j] as int) as usize,
                ),
                forall|j: int| 0 <= j < i ==> (#[trigger] patches@[j])@ == g.patch_for(live@[j] as int),
            decreases live@.len() - i,
        {
            let a = live[i];
            proof {
                assert(g.marked(a as int));
                g.lemma_live_move(a as int);
            }
            let na = self.relocated_address(a, &tables);
            let size = self.heap.object_size_of(a);
            moves.push((a, na, size));
            patches.push(self.plan_patches(a, &tables));
            i = i + 1;
        }
        let mut new_root: HashMap<usize, usize> = HashMap::new();
        let mut i: usize = 0;
        while i < roots.len()
            invariant
                *self == g,
                marked_from(g, rs),
                rs == roots@,
                tables@.len() == g.regions().len(),
                forall|k: int| 0 <= k < tables@.len() ==> (#[trigger] tables@[k])@.len() == (g.words_in(k) + 31) / 32,
                forall|k: int, b: int| 0 <= k < tables@.len() && 0 <= b < tables@[k]@.len() ==> #[trigger] tables@[k]@[b]
                    == g.regions()[k].start + g.live_prefix(k, 32 * b),
                i <= roots@.len(),
                forall|j: int| 0 <= j < i && roots@[j] != 0 ==> new_root@.contains_key(#[trigger] roots@[j])
                    && new_root@[roots@[j]] == g.new_location(roots@[j] as int) as usize,
                forall|k: usize| #[trigger] new_root@.contains_key(k) ==> k != 0 && exists|j: int| 0 <= j < roots@.len() && roots@[j] == k,
            decreases roots@.len() - i,
        {
            let root = roots[i];
            if root != 0 {
                proof {
                    g.heap.lemma_reaches_root(rs, i as int);
                }
                let nr = self.relocated_address(root, &tables);
                new_root.insert(root, nr);
            }
            i = i + 1;
        }
        proof {
            g.lemma_moves_ok(live@, moves@, patches@);
        }
        slide(&mut self.heap.allocator, &moves, &patches);
        let ghost after_slide = self.heap.allocator;
        let mut r: usize = 0;
        while r < n
            invariant
                n == g.regions().len(),
                marked_from(g, rs),
                r <= n,
                cursors@.len() == n,
                forall|k: int| 0 <= k < n ==> #[trigger] cursors@[k] == g.regions()[k].start + g.live_prefix(k, g.words_in(k)),
                self.heap.allocator.wf(),
                self.heap.allocator.available,
                self.heap.allocator.extent == g.heap.allocator.extent,
                self.heap.allocator.words() == after_slide.words(),
                self.heap.allocator.regions().len() == n,
                self.heap.schemas == g.heap.schemas,
                forall|k: int| 0 <= k < n ==> {
                    let a = g.regions()[k];
                    let b = #[trigger] self.heap.allocator.regions()[k];
                    &&& b.start == a.start
                    &&& b.size == a.size
                    &&& k < r ==> b.unallocated_start == cursors@[k]
                },
            decreases n - r,
        {
            proof {
                g.lemma_live_total(r as int, g.words_in(r as int));
                g.heap.allocator.lemma_wf();
                assert(g.regions()[r as int].wf());
            }
            self.heap.allocator.set_cursor(r, cursors[r]);
            r = r + 1;
        }
        let mut objs: Vec<usize> = Vec::new();
        let mut i: usize = 0;
        while i < moves.len()
            invariant
                i <= moves@.len(),
                objs@.len() == i,
                forall|j: int| 0 <= j < i ==> #[trigger] objs@[j] == moves@[j].1,
            decreases moves@.len() - i,
        {
            objs.push(moves[i].1);
            i = i + 1;
        }
        self.heap.allocated_objects = objs;
        proof {
            reveal(slid);
            assert(slid(g, self.heap, live@, moves@, patches@));
            self.lemma_collected(g, live@, moves@, patches@, rs);
            assert forall|k: int| 0 <= k < n implies #[trigger] cursors@[k] == g.regions()[k].start + reached_prefix(g.heap, rs, k, (g.regions()[k].size as int + 7) / WORD_SIZE as int) by {
                g.lemma_prefix_reached(rs, k, g.words_in(k));
            }
            assert forall|i: int| 0 <= i < roots@.len() && roots@[i] != 0 implies new_root@.contains_key(#[trigger] roots@[i])
                && new_root@[roots@[i]] == compact_target(g.heap, rs, roots@[i] as int) as usize by {
                g.heap.lemma_reaches_root(rs, i);
                g.lemma_target(rs, roots@[i] as int);
            }
        }
        self.reset_all_marks();
        Ok(new_root)
    }
}

impl GarbageCollector {
    proof fn lemma_collected(
        &self,
        g: GarbageCollector,
        live: Seq<usize>,
        moves: Seq<(usize, usize, usize)>,
        patches: Seq<Vec<(usize, u64)>>,
        roots: Seq<usize>,
    )
        requires
            marked_from(g, roots),
            slid(g, self.heap, live, moves, patches),
        ensures
            self.heap.wf(),
            forall|a: int| #[trigger] g.heap.reaches(roots, a) ==> {
                let t = compact_target(g.heap, roots, a);
                &&& self.heap.is_handle(t)
                &&& self.heap.valid_object(t)
                &&& self.heap.object_schema(t) == g.heap.object_schema(a)
                &&& self.heap.object_size(t) == g.heap.object_size(a)
                &&& self.heap.object_values(t) == relocated_values(g.heap, roots, a)
                &&& kept_words(g.heap, self.heap, a, t)
            },
            forall|t: int| #[trigger] self.heap.is_handle(t) ==> exists|a: int|
                g.heap.reaches(roots, a) && t == compact_target(g.heap, roots, a),
    {
        let f = self.heap;
        assert forall|i: int| 0 <= i < live.len() implies {
            &&& f.valid_object(#[trigger] moves[i].1 as int)
            &&& f.object_schema(moves[i].1 as int) == g.heap.object_schema(live[i] as int)
            &&& f.object_size(moves[i].1 as int) == g.heap.object_size(live[i] as int)
            &&& f.object_values(moves[i].1 as int) == relocated_values(g.heap, roots, live[i] as int)
            &&& moves[i].1 as int == compact_target(g.heap, roots, live[i] as int)
            &&& kept_words(g.heap, f, live[i] as int, moves[i].1 as int)
        } by {
            lemma_moved_object(g, f, live, moves, patches, roots, i);
        }
        lemma_slid_facts(g, f, live, moves, patches);
        lemma_collected_wf(g, f, live, moves);
        assert forall|a: int| #[trigger] g.heap.reaches(roots, a) implies {
            let t = compact_target(g.heap, roots, a);
            &&& self.heap.is_handle(t)
            &&& self.heap.valid_object(t)
            &&& self.heap.object_schema(t) == g.heap.object_schema(a)
            &&& self.heap.object_size(t) == g.heap.object_size(a)
            &&& self.heap.object_values(t) == relocated_values(g.heap, roots, a)
            &&& kept_words(g.heap, self.heap, a, t)
        } by {
            assert(g.marked(a));
            assert(in_list(live, a));
            let i = choose|i: int| 0 <= i < live.len() && live[i] as int == a;
            assert(f.valid_object(moves[i].1 as int));
            assert(f.allocated_objects@[i] == moves[i].1);
        }
        assert forall|t: int| #[trigger] self.heap.is_handle(t) implies exists|a: int|
            g.heap.reaches(roots, a) && t == compact_target(g.heap, roots, a) by {
            let i = choose|i: int| 0 <= i < f.allocated_objects@.len() && f.allocated_objects@[i] == t;
            assert(f.allocated_objects@[i] == moves[i].1);
            assert(f.valid_object(moves[i].1 as int));
            assert(g.marked(live[i] as int));
            assert(g.heap.reaches(roots, live[i] as int));
        }
    }
}

proof fn lemma_slid_facts(
    g: GarbageCollector,
    f: ObjectAllocator,
    live: Seq<usize>,
    moves: Seq<(usize, usize, usize)>,
    patches: Seq<Vec<(usize, u64)>>,
)
    requires
        slid(g, f, live, moves, patches),
    ensures
        g.wf(),
        forall|i: int| 0 <= i < live.len() ==> #[trigger] g.marked(live[i] as int),
        forall|x: int| #[trigger] g.marked(x) ==> in_list(live, x),
        forall|i: int, j: int| 0 <= i < j < live.len() ==> live[i] < live[j],
        moves.len() == live.len(),
        forall|i: int| 0 <= i < live.len() ==> #[trigger] moves[i] == (
            live[i],
            g.new_location(live[i] as int) as usize,
            g.heap.object_size(live[i] as int) as usize,
        ),
        f.allocator.wf(),
        f.allocated_objects@.len() == live.len(),
        forall|i: int| 0 <= i < live.len() ==> #[trigger] f.allocated_objects@[i] == moves[i].1,
{
    reveal(slid);
}

proof fn lemma_collected_wf(g: GarbageCollector, f: ObjectAllocator, live: Seq<usize>, moves: Seq<(usize, usize, usize)>)
    requires
        g.wf(),
        forall|i: int| 0 <= i < live.len() ==> #[trigger] g.marked(live[i] as int),
        forall|i: int, j: int| 0 <= i < j < live.len() ==> live[i] < live[j],
        moves.len() == live.len(),
        forall|i: int| 0 <= i < live.len() ==> #[trigger] moves[i] == (
            live[i],
            g.new_location(live[i] as int) as usize,
            g.heap.object_size(live[i] as int) as usize,
        ),
        f.allocator.wf(),
        f.allocated_objects@.len() == live.len(),
        forall|i: int| 0 <= i < live.len() ==> #[trigger] f.allocated_objects@[i] == moves[i].1,
        forall|i: int| 0 <= i < live.len() ==> f.valid_object(#[trigger] moves[i].1 as int) && f.object_size(
            moves[i].1 as int,
        ) == g.heap.object_size(live[i] as int),
    ensures
        f.wf(),
{
    assert forall|i: int| 0 <= i < f.allocated_objects@.len() implies f.valid_object(#[trigger] f.allocated_objects@[i] as int) by {
        assert(f.allocated_objects@[i] == moves[i].1);
        assert(f.valid_object(moves[i].1 as int));
    }
    assert forall|i: int, j: int|
        0 <= i < f.allocated_objects@.len() && 0 <= j < f.allocated_objects@.len() && i != j implies {
            let x = #[trigger] f.allocated_objects@[i] as int;
            let y = #[trigger] f.allocated_objects@[j] as int;
            x + f.object_size(x) <= y || y + f.object_size(y) <= x
        } by {
        assert(f.allocated_objects@[i] == moves[i].1);
        assert(f.allocated_objects@[j] == moves[j].1);
        assert(f.valid_object(moves[i].1 as int));
        assert(f.valid_object(moves[j].1 as int));
        assert(g.marked(live[i] as int));
        assert(g.marked(live[j] as int));
        g.lemma_live_move(live[i] as int);
        g.lemma_live_move(live[j] as int);
        if i < j {
            g.lemma_two_moves(live[i] as int, live[j] as int);
        } else {
            g.lemma_two_moves(live[j] as int, live[i] as int);
        }
    }
}

} // verus!
