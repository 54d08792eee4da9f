//! Sliding objects down to their new addresses, after patching their
//! reference slots in place.
use vstd::prelude::*;
use crate::heap::{word_index, HeapAllocator, HEAP_BASE};
use crate::type_info::WORD_SIZE;

verus! {

/// `mem` after storing each `(address, word)` of `ps`, in order.
pub open spec fn apply_patches(mem: Seq<u64>, ps: Seq<(usize, u64)>) -> Seq<u64>
    decreases ps.len(),
{
    if ps.len() == 0 {
        mem
    } else {
        let prev = apply_patches(mem, ps.drop_last());
        let t = word_index(ps.last().0 as int);
        if 0 <= t < prev.len() {
            prev.update(t, ps.last().1)
        } else {
            prev
        }
    }
}

pub proof fn lemma_apply_len(mem: Seq<u64>, ps: Seq<(usize, u64)>)
    ensures
        apply_patches(mem, ps).len() == mem.len(),
    decreases ps.len(),
{
    if ps.len() > 0 {
        lemma_apply_len(mem, ps.drop_last());
    }
}

/// A word that no patch addresses keeps its value.
pub proof fn lemma_apply_untouched(mem: Seq<u64>, ps: Seq<(usize, u64)>, t: int)
    requires
        0 <= t < mem.len(),
        forall|k: int| 0 <= k < ps.len() ==> word_index(#[trigger] ps[k].0 as int) != t,
    ensures
        apply_patches(mem, ps)[t] == mem[t],
    decreases ps.len(),
{
    if ps.len() > 0 {
        lemma_apply_len(mem, ps.drop_last());
        assert(ps.last() == ps[ps.len() - 1]);
        lemma_apply_untouched(mem, ps.drop_last(), t);
    }
}

/// Patching acts word by word: equal words stay equal.
pub proof fn lemma_apply_pointwise(a: Seq<u64>, b: Seq<u64>, ps: Seq<(usize, u64)>, t: int)
    requires
        a.len() == b.len(),
        0 <= t < a.len(),
        a[t] == b[t],
    ensures
        apply_patches(a, ps)[t] == apply_patches(b, ps)[t],
    decreases ps.len(),
{
    if ps.len() > 0 {
        lemma_apply_len(a, ps.drop_last());
        lemma_apply_len(b, ps.drop_last());
        lemma_apply_pointwise(a, b, ps.drop_last(), t);
    }
}

/// With distinct addresses, a patched word holds its patch.
pub proof fn lemma_apply_hit(mem: Seq<u64>, ps: Seq<(usize, u64)>, k: int)
    requires
        0 <= k < ps.len(),
        0 <= word_index(ps[k].0 as int) < mem.len(),
        forall|i: int, j: int| 0 <= i < j < ps.len() ==> word_index(#[trigger] ps[i].0 as int) != word_index(#[trigger] ps[j].0 as int),
    ensures
        apply_patches(mem, ps)[word_index(ps[k].0 as int)] == ps[k].1,
    decreases ps.len(),
{
    lemma_apply_len(mem, ps.drop_last());
    if k < ps.len() - 1 {
        lemma_apply_hit(mem, ps.drop_last(), k);
        assert(ps.last() == ps[ps.len() - 1]);
    }
}

/// Word indices `[lo, lo + n)`.
pub open spec fn in_span(t: int, lo: int, n: int) -> bool {
    lo <= t < lo + n
}

/// Each move `(src, dst, bytes)` is word aligned, slides down, and the moves are
/// in increasing order: sources disjoint, and each destination ends before the
/// next source and the next destination begin.
pub open spec fn moves_ok(heap: HeapAllocator, moves: Seq<(usize, usize, usize)>, patches: Seq<Seq<(usize, u64)>>) -> bool {
    &&& moves.len() == patches.len()
    &&& forall|i: int| 0 <= i < moves.len() ==> {
        let (s, d, n) = #[trigger] moves[i];
        &&& s % WORD_SIZE == 0
        &&& d % WORD_SIZE == 0
        &&& n % WORD_SIZE == 0
        &&& HEAP_BASE <= d <= s
        &&& s + n <= HEAP_BASE + heap.extent
    }
    &&& forall|i: int, j: int| 0 <= i < j < moves.len() ==> {
        let (si, di, ni) = #[trigger] moves[i];
        let (sj, dj, nj) = #[trigger] moves[j];
        &&& si + ni <= sj
        &&& di + ni <= dj
        &&& di + ni <= sj
    }
    &&& forall|i: int, k: int| 0 <= i < moves.len() && 0 <= k < patches[i].len() ==> {
        let (s, d, n) = moves[i];
        let a = (#[trigger] patches[i][k]).0 as int;
        &&& a % WORD_SIZE as int == 0
        &&& s <= a < s + n
    }
}

/// What move `i` writes: its source words, patched.
pub open spec fn moved_image(old_mem: Seq<u64>, moves: Seq<(usize, usize, usize)>, patches: Seq<Seq<(usize, u64)>>, i: int, m: int) -> u64 {
    apply_patches(old_mem, patches[i])[word_index(moves[i].0 as int) + m]
}

pub proof fn lemma_word_index_span(a: int, n: int)
    requires
        a >= HEAP_BASE,
        a % WORD_SIZE as int == 0,
        n >= 0,
        n % WORD_SIZE as int == 0,
    ensures
        word_index(a + n) == word_index(a) + n / WORD_SIZE as int,
        word_index(a) * WORD_SIZE == a - HEAP_BASE,
{
    assert((a + n - 65536) / 8 == (a - 65536) / 8 + n / 8) by (nonlinear_arith)
        requires a % 8 == 0, n % 8 == 0, a >= 65536, n >= 0;
    assert(((a - 65536) / 8) * 8 == a - 65536) by (nonlinear_arith)
        requires a % 8 == 0, a >= 65536;
}

/// Stores each `(address, word)` of `ps`, in order.
fn apply_patch_list(heap: &mut HeapAllocator, ps: &Vec<(usize, u64)>)
    requires
        old(heap).wf(),
        old(heap).available,
        forall|k: int| 0 <= k < ps@.len() ==> {
            let a = (#[trigger] ps@[k]).0 as int;
            &&& a % WORD_SIZE as int == 0
            &&& old(heap).in_heap(a)
        },
    ensures
        final(heap).wf(),
        final(heap).available,
        final(heap).extent == old(heap).extent,
        final(heap).size == old(heap).size,
        final(heap).regions() == old(heap).regions(),
        final(heap).words() == apply_patches(old(heap).words(), ps@),
{
    let ghost mem0 = heap.words();
    let mut k: usize = 0;
    proof {
        assert(ps@.take(0) =~= Seq::<(usize, u64)>::empty());
    }
    while k < ps.len()
        invariant
            heap.wf(),
            heap.available,
            heap.extent == old(heap).extent,
            heap.size == old(heap).size,
            heap.regions() == old(heap).regions(),
            mem0 == old(heap).words(),
            k <= ps@.len(),
            heap.words() == apply_patches(mem0, ps@.take(k as int)),
            forall|j: int| 0 <= j < ps@.len() ==> {
                let a = (#[trigger] ps@[j]).0 as int;
                &&& a % WORD_SIZE as int == 0
                &&& heap.in_heap(a)
            },
        decreases ps@.len() - k,
    {
        let (a, v) = ps[k];
        proof {
            assert(ps@.take(k as int + 1).drop_last() =~= ps@.take(k as int));
            heap.lemma_wf();
            lemma_apply_len(mem0, ps@.take(k as int));
            assert(0 <= word_index(a as int) < heap.words().len()) by (nonlinear_arith)
                requires a >= 65536, a < 65536 + heap.extent, heap.words().len() * 8 == heap.extent,
                    word_index(a as int) == (a - 65536) / 8;
        }
        heap.write_word(a, v);
        k = k + 1;
    }
    proof {
        assert(ps@.take(ps@.len() as int) =~= ps@);
    }
}

/// Copies `nwords` words from `src` to `dst`, through a buffer.
fn copy_words(heap: &mut HeapAllocator, src: usize, dst: usize, nwords: usize)
    requires
        old(heap).wf(),
        old(heap).available,
        src % WORD_SIZE == 0,
        dst % WORD_SIZE == 0,
        HEAP_BASE <= src,
        HEAP_BASE <= dst,
        src + WORD_SIZE * nwords <= HEAP_BASE + old(heap).extent,
        dst + WORD_SIZE * nwords <= HEAP_BASE + old(heap).extent,
    ensures
        final(heap).wf(),
        final(heap).available,
        final(heap).extent == old(heap).extent,
        final(heap).size == old(heap).size,
        final(heap).regions() == old(heap).regions(),
        final(heap).words().len() == old(heap).words().len(),
        forall|t: int| 0 <= t < old(heap).words().len() ==> #[trigger] final(heap).words()[t] == if in_span(t, word_index(dst as int), nwords as int) {
            old(heap).words()[word_index(src as int) + (t - word_index(dst as int))]
        } else {
            old(heap).words()[t]
        },
{
    let ghost mem0 = heap.words();
    proof {
        lemma_word_index_span(src as int, WORD_SIZE * nwords);
        lemma_word_index_span(dst as int, WORD_SIZE * nwords);
        heap.lemma_wf();
    }
    let mut buf: Vec<u64> = Vec::new();
    let mut m: usize = 0;
    while m < nwords
        invariant
            heap.wf(),
            heap.available,
            heap.words() == mem0,
            m <= nwords,
            buf@.len() == m,
            src % WORD_SIZE == 0,
            HEAP_BASE <= src,
            src + WORD_SIZE * nwords <= HEAP_BASE + heap.extent,
            HEAP_BASE + heap.extent <= usize::MAX,
            forall|j: int| 0 <= j < m ==> buf@[j] == mem0[word_index(src as int) + j],
        decreases nwords - m,
    {
        proof {
            lemma_word_index_span(src as int, WORD_SIZE * m);
            assert(heap.in_heap(src + WORD_SIZE * m));
            assert((src + 8 * m) % 8 == 0) by (nonlinear_arith)
                requires src % 8 == 0;
        }
        buf.push(heap.read_word(src + WORD_SIZE * m));
        m = m + 1;
    }
    let mut m: usize = 0;
    while m < nwords
        invariant
            heap.wf(),
            heap.available,
            heap.extent == old(heap).extent,
            heap.size == old(heap).size,
            heap.regions() == old(heap).regions(),
            heap.words().len() == mem0.len(),
            mem0 == old(heap).words(),
            m <= nwords,
            buf@.len() == nwords,
            dst % WORD_SIZE == 0,
            HEAP_BASE <= dst,
            dst + WORD_SIZE * nwords <= HEAP_BASE + heap.extent,
            HEAP_BASE + heap.extent <= usize::MAX,
            word_index(dst as int) + nwords <= mem0.len(),
            forall|j: int| 0 <= j < nwords ==> buf@[j] == mem0[word_index(src as int) + j],
            forall|t: int| 0 <= t < mem0.len() ==> #[trigger] heap.words()[t] == if in_span(t, word_index(dst as int), m as int) {
                mem0[word_index(src as int) + (t - word_index(dst as int))]
            } else {
                mem0[t]
            },
        decreases nwords - m,
    {
        proof {
            lemma_word_index_span(dst as int, WORD_SIZE * m);
            assert(heap.in_heap(dst + WORD_SIZE * m));
            assert((dst + 8 * m) % 8 == 0) by (nonlinear_arith)
                requires dst % 8 == 0;
        }
        heap.write_word(dst + WORD_SIZE * m, buf[m]);
        m = m + 1;
    }
}

/// The patches as sequences.
pub open spec fn patch_seqs(patches: Seq<Vec<(usize, u64)>>) -> Seq<Seq<(usize, u64)>> {
    patches.map_values(|v: Vec<(usize, u64)>| v@)
}

/// Performs each move in order: patches its source words, then copies them to
/// its destination. Every destination then holds its patched source image.
pub fn slide(heap: &mut HeapAllocator, moves: &Vec<(usize, usize, usize)>, patches: &Vec<Vec<(usize, u64)>>)
    requires
        old(heap).wf(),
        old(heap).available,
        moves_ok(*old(heap), moves@, patch_seqs(patches@)),
    ensures
        final(heap).wf(),
        final(heap).available,
        final(heap).extent == old(heap).extent,
        final(heap).size == old(heap).size,
        final(heap).regions() == old(heap).regions(),
        final(heap).words().len() == old(heap).words().len(),
        forall|i: int, m: int|
            0 <= i < moves@.len() && 0 <= m < moves@[i].2 as int / WORD_SIZE as int ==> final(heap).words()[word_index(
                moves@[i].1 as int,
            ) + m] == #[trigger] moved_image(old(heap).words(), moves@, patch_seqs(patches@), i, m),
{
    let ghost mem0 = heap.words();
    let ghost ps = patch_seqs(patches@);
    let ghost heap0 = *heap;
    proof {
        heap.lemma_wf();
    }
    let mut i: usize = 0;
    while i < moves.len()
        invariant
            heap.wf(),
            heap.available,
            heap.extent == old(heap).extent,
            heap.size == old(heap).size,
            heap.regions() == old(heap).regions(),
            heap.words().len() == mem0.len(),
            mem0 == old(heap).words(),
            heap0 == *old(heap),
            ps == patch_seqs(patches@),
            moves_ok(heap0, moves@, ps),
            mem0.len() * WORD_SIZE == heap.extent,
            i <= moves@.len(),
            forall|j: int, m: int|
                0 <= j < i && 0 <= m < moves@[j].2 as int / WORD_SIZE as int ==> heap.words()[word_index(moves@[j].1 as int) + m]
                    == #[trigger] moved_image(mem0, moves@, ps, j, m),
            forall|j: int, t: int|
                i <= j < moves@.len() && #[trigger] in_span(t, word_index(moves@[j].0 as int), moves@[j].2 as int / WORD_SIZE as int)
                    ==> heap.words()[t] == mem0[t],
        decreases moves@.len() - i,
    {
        let (src, dst, n) = moves[i];
        let ghost w_before = heap.words();
        proof {
            assert(moves@[i as int] == (src, dst, n));
            lemma_word_index_span(src as int, n as int);
            lemma_word_index_span(dst as int, n as int);
            assert forall|k: int| 0 <= k < patches@[i as int]@.len() implies {
                let a = (#[trigger] patches@[i as int]@[k]).0 as int;
                &&& a % WORD_SIZE as int == 0
                &&& heap.in_heap(a)
            } by {
                assert(ps[i as int][k] == patches@[i as int]@[k]);
            }
        }
        apply_patch_list(heap, &patches[i]);
        let ghost w_patched = heap.words();
        proof {
            lemma_apply_len(w_before, ps[i as int]);
            lemma_apply_len(mem0, ps[i as int]);
            assert(ps[i as int] == patches@[i as int]@);
            // patches stay inside the source of move i
            assert forall|t: int| 0 <= t < mem0.len() && !in_span(t, word_index(src as int), n as int / 8) implies
                w_patched[t] == w_before[t] by {
                assert forall|k: int| 0 <= k < ps[i as int].len() implies word_index(#[trigger] ps[i as int][k].0 as int) != t by {
                    let a = ps[i as int][k].0 as int;
                    assert(src <= a < src + n);
                    assert(a % 8 == 0);
                    lemma_word_index_span(src as int, a - src);
                    assert((a - src) % 8 == 0) by (nonlinear_arith)
                        requires a % 8 == 0, src % 8 == 0;
                    assert((a - src) / 8 < n / 8) by (nonlinear_arith)
                        requires 0 <= a - src < n, (a - src) % 8 == 0, n % 8 == 0;
                }
                lemma_apply_untouched(w_before, ps[i as int], t);
            }
            assert forall|t: int| #[trigger] in_span(t, word_index(src as int), n as int / 8) implies w_patched[t]
                == apply_patches(mem0, ps[i as int])[t] by {
                lemma_apply_pointwise(w_before, mem0, ps[i as int], t);
            }
        }
        copy_words(heap, src, dst, n / WORD_SIZE);
        proof {
            assert(8 * (n / 8) == n) by (nonlinear_arith)
                requires n % 8 == 0;
            assert forall|j: int, m: int|
                0 <= j < i + 1 && 0 <= m < moves@[j].2 as int / WORD_SIZE as int implies heap.words()[word_index(moves@[j].1 as int) + m]
                    == #[trigger] moved_image(mem0, moves@, ps, j, m) by {
                let (sj, dj, nj) = moves@[j];
                lemma_word_index_span(dj as int, nj as int);
                let t = word_index(dj as int) + m;
                assert(dj + nj <= HEAP_BASE + heap.extent);
                assert(t < mem0.len()) by (nonlinear_arith)
                    requires t == word_index(dj as int) + m, m < nj / 8, word_index(dj as int) * 8 == dj - 65536,
                        dj + nj <= 65536 + heap.extent, mem0.len() * 8 == heap.extent, nj % 8 == 0;
                if j < i {
                    assert(dj + nj <= dst);
                    lemma_word_index_span(dj as int, nj as int);
                    assert(!in_span(t, word_index(dst as int), n as int / 8));
                    assert(dst <= src);
                    lemma_word_index_span(dst as int, (src - dst) as int);
                    assert((src - dst) % 8 == 0) by (nonlinear_arith)
                        requires src % 8 == 0, dst % 8 == 0, dst <= src;
                    assert(!in_span(t, word_index(src as int), n as int / 8));
                    assert(heap.words()[t] == w_patched[t]);
                    assert(w_patched[t] == w_before[t]);
                } else {
                    assert(j == i);
                    assert(in_span(t, word_index(dst as int), n as int / 8));
                    assert(heap.words()[t] == w_patched[word_index(src as int) + m]);
                    assert(in_span(word_index(src as int) + m, word_index(src as int), n as int / 8));
                }
            }
            assert forall|j: int, t: int|
                i + 1 <= j < moves@.len() && #[trigger] in_span(t, word_index(moves@[j].0 as int), moves@[j].2 as int / WORD_SIZE as int)
                    implies heap.words()[t] == mem0[t] by {
                let (sj, dj, nj) = moves@[j];
                assert(src + n <= sj);
                assert(dst + n <= sj);
                lemma_word_index_span(dst as int, (sj - dst) as int);
                lemma_word_index_span(src as int, (sj - src) as int);
                assert((sj - dst) % 8 == 0 && (sj - src) % 8 == 0) by (nonlinear_arith)
                    requires sj % 8 == 0, dst % 8 == 0, src % 8 == 0, dst <= sj, src <= sj;
                assert(!in_span(t, word_index(dst as int), n as int / 8));
                assert(!in_span(t, word_index(src as int), n as int / 8));
            }
        }
        i = i + 1;
    }
}

} // verus!
