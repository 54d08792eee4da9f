//! Laws of the heap and the collector, each proved from the contracts of the
//! functions it speaks of.
use vstd::prelude::*;
use crate::codec::{lemma_ref_indices, ref_indices, slot_addr, ObjectAllocator};
use crate::collector::{compact_target, reached_prefix, relocated_value, relocated_values};
use crate::errors::AllocatorError;
use crate::gc::GarbageCollector;
use crate::object::{decode, slot_kinds, DataView, SchemaView, Value};
use crate::type_info::WORD_SIZE;
use crate::type_sig::TypeKind;

verus! {

/// Every object handle lies in the region that holds it and is word aligned.
pub proof fn lemma_handle_placement(heap: ObjectAllocator, h: int)
    requires
        heap.wf(),
        heap.allocator.available,
        heap.is_handle(h),
    ensures
        heap.allocator.holds(heap.allocator.region_of(h), h),
        h % WORD_SIZE as int == 0,
{
    let i = choose|i: int| 0 <= i < heap.allocated_objects@.len() && heap.allocated_objects@[i] == h;
    assert(heap.valid_object(heap.allocated_objects@[i] as int));
}

/// The bit of an aligned heap address converts back to exactly that address,
/// and the address of a bit position converts back to that position.
pub proof fn lemma_bit_round_trip(gc: GarbageCollector, h: int, r: int, w: int)
    requires
        gc.bm_wf(),
    ensures
        gc.heap.allocator.in_region(h) && h % WORD_SIZE as int == 0 ==> {
            let rh = gc.heap.allocator.region_of(h);
            gc.addr_of(rh, (h - gc.regions()[rh].start) / WORD_SIZE as int) == h
        },
        0 <= r < gc.regions().len() && 0 <= w < gc.words_in(r) ==> {
            let a = gc.addr_of(r, w);
            &&& gc.heap.allocator.region_of(a) == r
            &&& (a - gc.regions()[r].start) / WORD_SIZE as int == w
        },
{
    if gc.heap.allocator.in_region(h) && h % WORD_SIZE as int == 0 {
        gc.lemma_addr_word(h);
    }
    if 0 <= r < gc.regions().len() && 0 <= w < gc.words_in(r) {
        gc.lemma_word_addr(r, w);
    }
}

/// The live bytes of a region fit between its start and its cursor.
pub proof fn lemma_live_bytes_fit(gc: GarbageCollector, r: int)
    requires
        gc.wf(),
        0 <= r < gc.regions().len(),
    ensures
        gc.live_prefix(r, gc.words_in(r)) <= gc.regions()[r].unallocated_start - gc.regions()[r].start,
{
    gc.lemma_live_total(r, gc.words_in(r));
}

/// After a full mark, every non-null reference that the walker yields for a
/// marked object is the handle of a marked object.
pub proof fn lemma_walker_marked(gc: GarbageCollector, p: int, j: int)
    requires
        gc.wf(),
        gc.closed(),
        gc.marked(p),
        0 <= j < gc.heap.ref_slots(p).len(),
        gc.heap.ref_slots(p)[j].0 != 0,
    ensures
        gc.marked(gc.heap.ref_slots(p)[j].0 as int),
        gc.heap.is_handle(gc.heap.ref_slots(p)[j].0 as int),
{
    let q = gc.heap.ref_slots(p)[j].0 as int;
    assert(gc.heap.points_to(p, q));
    gc.lemma_marked_handle(q);
}

/// Reading an object gives back the schema and the data it was written with.
pub proof fn lemma_round_trip(heap: ObjectAllocator, h: int, s: SchemaView, d: DataView)
    requires
        heap.allocator.available,
        heap.valid_object(h),
        heap.object_schema(h) == s,
        heap.object_data(h) == d,
    ensures
        heap.read_spec(h) == Ok::<(SchemaView, DataView), AllocatorError>((s, d)),
{
}

/// Two marks from the same roots over the same heap set the same bits and
/// record the same live sizes.
pub proof fn lemma_mark_idempotent(g1: GarbageCollector, g2: GarbageCollector, roots: Seq<usize>)
    requires
        g1.wf(),
        g2.wf(),
        g1.heap == g2.heap,
        forall|x: int| #[trigger] g1.marked(x) <==> g1.heap.reaches(roots, x),
        forall|x: int| #[trigger] g2.marked(x) <==> g2.heap.reaches(roots, x),
    ensures
        g1.marked_set() == g2.marked_set(),
        g1.size_of_living@ == g2.size_of_living@,
        forall|r: int, w: int|
            0 <= r < g1.regions().len() && 0 <= w < g1.words_in(r) ==> #[trigger] g1.bit_at(r, w) == g2.bit_at(r, w),
{
    assert(g1.marked_set() =~= g2.marked_set());
    assert(g1.size_of_living@ =~= g2.size_of_living@) by {
        assert forall|a: usize| #[trigger] g1.size_of_living@.contains_key(a) == g2.size_of_living@.contains_key(a) by {
            assert(g1.marked(a as int) == g2.marked(a as int));
        }
        assert forall|a: usize| #[trigger] g1.size_of_living@.contains_key(a) implies g1.size_of_living@[a] == g2.size_of_living@[a] by {
            assert(g1.marked(a as int) == g2.marked(a as int));
        }
    }
    assert forall|r: int, w: int| 0 <= r < g1.regions().len() && 0 <= w < g1.words_in(r) implies #[trigger] g1.bit_at(r, w) == g2.bit_at(r, w) by {
        g1.lemma_bit_marked(r, w);
        g2.lemma_bit_marked(r, w);
    }
}

/// Relocation keeps the object graph: if `a` referred to `b` before a
/// collection, the object at `a`'s new address refers to `b`'s new address.
pub proof fn lemma_topology(pre: ObjectAllocator, post: ObjectAllocator, roots: Seq<usize>, a: int, b: int)
    requires
        pre.wf(),
        pre.allocator.available,
        post.wf(),
        forall|x: int| #[trigger] pre.reaches(roots, x) ==> {
            let t = compact_target(pre, roots, x);
            &&& post.valid_object(t)
            &&& post.object_schema(t) == pre.object_schema(x)
            &&& post.object_values(t) == relocated_values(pre, roots, x)
        },
        pre.reaches(roots, a),
        pre.points_to(a, b),
    ensures
        post.points_to(compact_target(pre, roots, a), compact_target(pre, roots, b)),
{
    pre.lemma_reaches_step(roots, a, b);
    let ta = compact_target(pre, roots, a);
    let tb = compact_target(pre, roots, b);
    let kinds = slot_kinds(pre.object_schema(a));
    lemma_ref_indices(kinds);
    let j = choose|j: int| 0 <= j < pre.ref_slots(a).len() && #[trigger] pre.ref_slots(a)[j].0 == b;
    let k = ref_indices(kinds)[j];
    assert(pre.ref_slots(a)[j] == (pre.word(slot_addr(a, 3 + k)) as usize, (WORD_SIZE * k) as usize));
    let ow = pre.word(slot_addr(a, 3 + k));
    assert(pre.object_values(a)[k] == decode(TypeKind::Reference, ow));
    assert(relocated_values(pre, roots, a)[k] == relocated_value(pre, roots, pre.object_values(a)[k]));
    let nw = post.word(slot_addr(ta, 3 + k));
    assert(post.object_values(ta)[k] == decode(TypeKind::Reference, nw));
    assert(nw as usize == tb as usize);
    assert(slot_kinds(post.object_schema(ta)) == kinds);
    assert(post.ref_slots(ta)[j] == (post.word(slot_addr(ta, 3 + k)) as usize, (WORD_SIZE * k) as usize));
    let tbu = tb as usize;
    assert(post.ref_slots(ta)[j].0 == tbu);
    assert(tbu as int == tb) by {
        assert(post.valid_object(tb));
    }
    let rb = post.allocator.region_of(tb);
    post.allocator.lemma_ordered(rb, rb);
    assert(tb != 0);
    assert(j < post.ref_slots(ta).len());
}

/// Reached bytes before a word never decrease as the word advances.
proof fn lemma_reached_prefix_mono(pre: ObjectAllocator, roots: Seq<usize>, r: int, m: int, n: int)
    requires
        0 <= m <= n,
    ensures
        reached_prefix(pre, roots, r, m) <= reached_prefix(pre, roots, r, n),
    decreases n - m,
{
    if m < n {
        lemma_reached_prefix_mono(pre, roots, r, m, n - 1);
        let x = pre.allocator.regions()[r].start + WORD_SIZE * (n - 1);
        assert(pre.object_size(x) >= 0);
    }
}

/// Compaction keeps the order of the live objects of a region.
pub proof fn lemma_compaction_monotone(pre: ObjectAllocator, roots: Seq<usize>, a: int, b: int)
    requires
        pre.wf(),
        pre.allocator.available,
        pre.is_handle(a),
        pre.is_handle(b),
        pre.reaches(roots, a),
        pre.allocator.region_of(a) == pre.allocator.region_of(b),
        a < b,
    ensures
        compact_target(pre, roots, a) < compact_target(pre, roots, b),
{
    let r = pre.allocator.region_of(a);
    let start = pre.allocator.regions()[r].start as int;
    lemma_handle_placement(pre, a);
    lemma_handle_placement(pre, b);
    let wa = (a - start) / WORD_SIZE as int;
    let wb = (b - start) / WORD_SIZE as int;
    assert(start % 8 == 0) by {
        pre.allocator.lemma_wf();
        assert(pre.allocator.regions()[r].wf());
    }
    assert(wa < wb && start + 8 * wa == a) by (nonlinear_arith)
        requires a < b, a % 8 == 0, b % 8 == 0, start % 8 == 0, start <= a, wa == (a - start) / 8, wb == (b - start) / 8;
    lemma_reached_prefix_mono(pre, roots, r, wa + 1, wb);
    let i = choose|i: int| 0 <= i < pre.allocated_objects@.len() && pre.allocated_objects@[i] == a;
    assert(pre.valid_object(pre.allocated_objects@[i] as int));
    assert(pre.object_size(a) > 0);
}

/// The addresses that the offset tables give keep the order of the live
/// objects, and each moved object ends before the next one begins.
pub proof fn lemma_new_location_monotone(gc: GarbageCollector, a: int, b: int)
    requires
        gc.wf(),
        gc.marked(a),
        gc.marked(b),
        a < b,
    ensures
        gc.new_location(a) + gc.heap.object_size(a) <= gc.new_location(b),
        gc.new_location(a) < gc.new_location(b),
{
    gc.lemma_two_moves(a, b);
    gc.lemma_live_move(a);
}

/// Bytes reached from `roots` in the first `n` regions of `heap`.
pub open spec fn reached_bytes(heap: ObjectAllocator, roots: Seq<usize>, n: int) -> int
    decreases n,
{
    if n <= 0 {
        0
    } else {
        let b = heap.allocator.regions()[n - 1];
        reached_bytes(heap, roots, n - 1) + reached_prefix(heap, roots, n - 1, (b.size as int + 7) / WORD_SIZE as int)
    }
}

/// Bytes below the cursors of the first `n` regions of `heap`.
pub open spec fn bytes_in_use(heap: ObjectAllocator, n: int) -> int
    decreases n,
{
    if n <= 0 {
        0
    } else {
        let b = heap.allocator.regions()[n - 1];
        bytes_in_use(heap, n - 1) + (b.unallocated_start - b.start)
    }
}

/// A collection conserves the live bytes: afterwards the regions hold, below
/// their cursors, exactly the bytes that were reached from the roots.
pub proof fn lemma_conservation(pre: ObjectAllocator, post: ObjectAllocator, roots: Seq<usize>, n: int)
    requires
        0 <= n <= pre.allocator.regions().len(),
        post.allocator.regions().len() == pre.allocator.regions().len(),
        forall|r: int| 0 <= r < post.allocator.regions().len() ==> {
            let a = pre.allocator.regions()[r];
            let b = #[trigger] post.allocator.regions()[r];
            &&& b.start == a.start
            &&& b.unallocated_start == a.start + reached_prefix(pre, roots, r, (a.size as int + 7) / WORD_SIZE as int)
        },
    ensures
        bytes_in_use(post, n) == reached_bytes(pre, roots, n),
    decreases n,
{
    if n > 0 {
        lemma_conservation(pre, post, roots, n - 1);
        assert(post.allocator.regions()[n - 1].start == pre.allocator.regions()[n - 1].start);
    }
}

/// A single root whose references are all null or the root itself reaches
/// exactly itself: marking from it sets exactly its bit.
pub proof fn lemma_lone_root(heap: ObjectAllocator, h: usize, x: int)
    requires
        h != 0,
        forall|j: int| 0 <= j < heap.ref_slots(h as int).len() ==> {
            let q = #[trigger] heap.ref_slots(h as int)[j].0;
            q == 0 || q == h
        },
    ensures
        heap.reaches(seq![h], x) <==> x == h,
{
    let roots = seq![h];
    if x == h {
        heap.lemma_reaches_root(roots, 0);
    }
    if heap.reaches(roots, x) {
        let (path, k) = choose|path: Seq<int>, k: int|
            #[trigger] heap.is_path(path) && 0 <= k < roots.len() && roots[k] != 0 && path[0] == #[trigger] roots[k] as int
                && path.last() == x;
        lemma_path_stays(heap, h, path, path.len() - 1);
    }
}

proof fn lemma_path_stays(heap: ObjectAllocator, h: usize, path: Seq<int>, i: int)
    requires
        heap.is_path(path),
        path[0] == h as int,
        0 <= i < path.len(),
        forall|j: int| 0 <= j < heap.ref_slots(h as int).len() ==> {
            let q = #[trigger] heap.ref_slots(h as int)[j].0;
            q == 0 || q == h
        },
    ensures
        path[i] == h as int,
    decreases i,
{
    if i > 0 {
        lemma_path_stays(heap, h, path, i - 1);
        let p = i - 1;
        assert(heap.points_to(path[p], path[p + 1]));
        let j = choose|j: int| 0 <= j < heap.ref_slots(path[p]).len() && #[trigger] heap.ref_slots(path[p])[j].0 == path[p + 1];
        assert(heap.ref_slots(h as int)[j].0 == path[i]);
    }
}

} // verus!
