//! The object codec: writes typed values into the region heap and reads them back.
use vstd::prelude::*;
use crate::errors::AllocatorError;
use crate::heap::{bumped, expansion_size, first_fit, none_fits, room_for, HeapAllocator, HeapBlock, HEAP_BASE, MAX_HEAP_SIZE, word_index};
use crate::object::{
    data_values, decode, decode_value, encode, encode_value, field_error, kind_of, lemma_decode_encode,
    schema_kind, schema_ok, slot_kinds, total_size, value_kind, write_error, Data, DataView, Schema,
    SchemaView, Value,
};
use crate::type_info::{align_up, 
    BoolType, CharType, DoubleType, IntType, NatType, ProductType, RecordType, ReferenceType, SumType,
    HEADER_SIZE, MAX_PAYLOAD, WORD_SIZE,
};
use crate::type_sig::{is_primitive, kind_sig, sig_valid, TypeKind, TypeSig};
use vstd::seq_lib::seq_to_set_is_finite;

verus! {

/// No region has room for an object of `total` bytes, and the heap cannot grow
/// by a region that has.
pub open spec fn heap_full(heap: HeapAllocator, total: int) -> bool {
    &&& none_fits(heap.regions(), total, WORD_SIZE as int)
    &&& !room_for(heap, expansion_size(heap.size as int, total + WORD_SIZE - 1, WORD_SIZE as int))
}

/// The heap kept its size, or grew by the region that an expansion for an
/// object of `total` bytes appends.
pub open spec fn grown_by(before: HeapAllocator, after: HeapAllocator, total: int) -> bool {
    after.size == before.size || after.size == before.size + expansion_size(
        before.size as int,
        total + WORD_SIZE - 1,
        WORD_SIZE as int,
    )
}

/// Where the allocator puts an object of `total` bytes: at the aligned cursor
/// of the first region with room, or at the start of the region that an
/// expansion appends, the cursor moving past the object.
pub open spec fn placed(before: HeapAllocator, after: HeapAllocator, total: int, r: Result<usize, AllocatorError>) -> bool {
    &&& forall|i: int| #![auto] before.available && first_fit(before.regions(), total, WORD_SIZE as int, i) ==> {
        &&& r == Ok::<usize, AllocatorError>(align_up(before.regions()[i].unallocated_start as int, WORD_SIZE as int) as usize)
        &&& after.regions() == before.regions().update(i, bumped(before.regions()[i], total, WORD_SIZE as int))
    }
    &&& before.available && none_fits(before.regions(), total, WORD_SIZE as int) && room_for(
        before,
        expansion_size(before.size as int, total + WORD_SIZE - 1, WORD_SIZE as int),
    ) ==> {
        let n = expansion_size(before.size as int, total + WORD_SIZE - 1, WORD_SIZE as int);
        let start = (HEAP_BASE + before.extent) as usize;
        let nb = HeapBlock { start, unallocated_start: start, size: n as usize };
        &&& r == Ok::<usize, AllocatorError>(align_up(start as int, WORD_SIZE as int) as usize)
        &&& after.regions() == before.regions().push(nb).update(before.regions().len() as int, bumped(nb, total, WORD_SIZE as int))
    }
}

/// What a write of an object of `total` bytes leaves: the new handle appended,
/// or nothing changed; every earlier object as it was; the heap grown by at
/// most one region; and, when the write is well formed (`ok`), the object
/// where the allocator puts it.
pub open spec fn write_effect(
    before: ObjectAllocator,
    after: ObjectAllocator,
    total: int,
    ok: bool,
    r: Result<usize, AllocatorError>,
) -> bool {
    &&& r matches Ok(h) ==> after.allocated_objects@ == before.allocated_objects@.push(h)
    &&& r is Err ==> after.allocated_objects@ == before.allocated_objects@ && after.allocator == before.allocator
    &&& forall|g: int|
        before.allocator.available && #[trigger] before.valid_object(g) ==> after.valid_object(g) && after.object_schema(g)
            == before.object_schema(g) && after.object_data(g) == before.object_data(g)
    &&& grown_by(before.allocator, after.allocator, total)
    &&& ok ==> placed(before.allocator, after.allocator, total, r)
}

/// The header at the start of every object.
#[derive(Debug, Clone, Copy, PartialEq, Eq, Structural)]
pub struct ObjectHeader {
    pub type_sig: usize,
    /// Header, payload and trailing alignment, in bytes.
    pub size: usize,
    /// Index of the object's schema in the allocator's schema store.
    pub type_info: usize,
}

impl ObjectHeader {
    pub fn new(type_sig: usize, size: usize, type_info: usize) -> (r: Self)
        ensures
            r.type_sig == type_sig,
            r.size == size,
            r.type_info == type_info,
    {
        ObjectHeader { type_sig, size, type_info }
    }

    pub fn type_sig_within_valid_range(i: usize) -> (r: bool)
        ensures
            r == sig_valid(i),
    {
        TypeSig::within_valid_range(i)
    }
}

/// Word `k` of the object at `h`.
pub open spec fn slot_addr(h: int, k: int) -> int {
    h + WORD_SIZE * k
}

pub proof fn lemma_slot_index(h: int, k: int)
    requires
        h % WORD_SIZE as int == 0,
        h >= HEAP_BASE,
        k >= 0,
    ensures
        word_index(slot_addr(h, k)) == word_index(h) + k,
        slot_addr(h, k) % WORD_SIZE as int == 0,
{
    assert((h + 8 * k - 65536) / 8 == (h - 65536) / 8 + k) by (nonlinear_arith)
        requires h % 8 == 0, k >= 0, h >= 65536;
    assert((h + 8 * k) % 8 == 0) by (nonlinear_arith)
        requires h % 8 == 0, k >= 0;
}

/// The object store: the heap, the schemas of the objects written so far, and
/// the handles of those objects.
pub struct ObjectAllocator {
    pub allocator: HeapAllocator,
    pub schemas: Vec<Schema>,
    pub allocated_objects: Vec<usize>,
}

impl ObjectAllocator {
    pub open spec fn word(&self, a: int) -> u64 {
        self.allocator.word_at(a)
    }

    /// The schema named by the header of the object at `h`.
    pub open spec fn object_schema(&self, h: int) -> SchemaView {
        self.schemas@[self.word(slot_addr(h, 2)) as int]@
    }

    /// `h` is the handle of an object: an aligned address in a region whose
    /// header names a schema of the store, with the signature and size that
    /// the schema gives, and whose bytes lie below the region's cursor.
    pub open spec fn valid_object(&self, h: int) -> bool {
        let heap = self.allocator;
        let r = heap.region_of(h);
        &&& heap.holds(r, h)
        &&& h % WORD_SIZE as int == 0
        &&& h + HEADER_SIZE <= heap.regions()[r].unallocated_start
        &&& (self.word(slot_addr(h, 2)) as int) < self.schemas@.len()
        &&& schema_ok(self.object_schema(h))
        &&& self.word(h) == kind_sig(schema_kind(self.object_schema(h)))
        &&& self.word(slot_addr(h, 1)) == total_size(self.object_schema(h))
        &&& h + total_size(self.object_schema(h)) <= heap.regions()[r].unallocated_start
    }

    /// The values in the payload slots of the object at `h`.
    pub open spec fn object_values(&self, h: int) -> Seq<Value> {
        let kinds = slot_kinds(self.object_schema(h));
        Seq::new(kinds.len(), |k: int| decode(kinds[k], self.word(slot_addr(h, 3 + k))))
    }

    /// What the object at `h` holds.
    pub open spec fn object_data(&self, h: int) -> DataView {
        match self.object_schema(h) {
            SchemaView::Scalar(_, _) => DataView::Scalar(self.object_values(h)[0]),
            _ => DataView::Fields(self.object_values(h)),
        }
    }

    /// Bytes of the object at `h`, as its schema gives them.
    pub open spec fn object_size(&self, h: int) -> int {
        total_size(self.object_schema(h))
    }

    /// `h` is the handle of an object that this store wrote.
    pub open spec fn is_handle(&self, h: int) -> bool {
        exists|i: int| 0 <= i < self.allocated_objects@.len() && self.allocated_objects@[i] == h
    }

    pub open spec fn wf(&self) -> bool {
        &&& self.allocator.wf()
        &&& self.allocator.available ==> forall|i: int|
            0 <= i < self.allocated_objects@.len() ==> self.valid_object(#[trigger] self.allocated_objects@[i] as int)
        &&& self.allocator.available ==> forall|i: int, j: int|
            0 <= i < self.allocated_objects@.len() && 0 <= j < self.allocated_objects@.len() && i != j ==> {
                let a = #[trigger] self.allocated_objects@[i] as int;
                let b = #[trigger] self.allocated_objects@[j] as int;
                a + self.object_size(a) <= b || b + self.object_size(b) <= a
            }
    }

    pub fn new() -> (r: Self)
        ensures
            r.wf(),
            r.allocator.available,
            r.allocated_objects@.len() == 0,
            r.allocator.regions().len() == 0,
            r.allocator.size == 0,
            r.allocator.extent == 0,
    {
        ObjectAllocator { allocator: HeapAllocator::new(), schemas: Vec::new(), allocated_objects: Vec::new() }
    }
}

impl ObjectAllocator {
    /// The position in the schema store of a schema equal to `s`, if any.
    fn find_schema(&self, s: &Schema) -> (r: Option<usize>)
        ensures
            r matches Some(i) ==> i < self.schemas@.len() && self.schemas@[i as int]@ == s@,
            r is None ==> forall|j: int| 0 <= j < self.schemas@.len() ==> self.schemas@[j]@ != s@,
    {
        let mut i: usize = 0;
        while i < self.schemas.len()
            invariant
                i <= self.schemas@.len(),
                forall|j: int| 0 <= j < i ==> self.schemas@[j]@ != s@,
            decreases self.schemas@.len() - i,
        {
            if self.schemas[i].same_as(s) {
                return Some(i);
            }
            i = i + 1;
        }
        None
    }

    /// Writes `data` as an object of schema `schema` and returns its handle.
    pub fn allocate_general(&mut self, schema: Schema, data: Data) -> (r: Result<usize, AllocatorError>)
        requires
            old(self).wf(),
        ensures
            final(self).wf(),
            final(self).allocator.available == old(self).allocator.available,
            !old(self).allocator.available ==> r == Err::<usize, AllocatorError>(AllocatorError::AllocatorClosed),
            old(self).allocator.available && !schema_ok(schema@) ==> r == Err::<usize, AllocatorError>(
                AllocatorError::LayoutInvalid,
            ),
            old(self).allocator.available && schema_ok(schema@) && write_error(schema@, data@) is Some ==> r == Err::<
                usize,
                AllocatorError,
            >(write_error(schema@, data@)->0),
            old(self).allocator.available && schema_ok(schema@) && write_error(schema@, data@) is None && r is Err
                ==> r == Err::<usize, AllocatorError>(AllocatorError::LayoutInvalid),
            old(self).allocator.available && schema_ok(schema@) && write_error(schema@, data@) is None && r is Err
                ==> heap_full(old(self).allocator, total_size(schema@)),
            r is Err ==> final(self).allocated_objects@ == old(self).allocated_objects@,
            r is Err ==> final(self).allocator == old(self).allocator,
            grown_by(old(self).allocator, final(self).allocator, total_size(schema@)),
            write_effect(*old(self), *final(self), total_size(schema@), schema_ok(schema@) && write_error(schema@, data@) is None, r),
            forall|j: int| 0 <= j < old(self).schemas@.len() ==> #[trigger] final(self).schemas@[j] == old(self).schemas@[j],
            final(self).schemas@.len() <= old(self).schemas@.len() + 1,
            (exists|j: int| 0 <= j < old(self).schemas@.len() && #[trigger] old(self).schemas@[j]@ == schema@)
                ==> final(self).schemas@.len() == old(self).schemas@.len(),
            old(self).allocator.regions().len() <= final(self).allocator.regions().len(),
            forall|k: int| 0 <= k < old(self).allocator.regions().len() ==> {
                let a = old(self).allocator.regions()[k];
                let b = #[trigger] final(self).allocator.regions()[k];
                &&& b.start == a.start
                &&& b.size == a.size
            },
            r matches Ok(h) ==> {
                &&& final(self).valid_object(h as int)
                &&& final(self).object_schema(h as int) == schema@
                &&& final(self).object_data(h as int) == data@
                &&& final(self).allocated_objects@ == old(self).allocated_objects@.push(h)
                &&& final(self).read_spec(h as int) == Ok::<(SchemaView, DataView), AllocatorError>((schema@, data@))
            },
            forall|h: int|
                old(self).allocator.available && #[trigger] old(self).valid_object(h) ==> final(self).valid_object(h)
                    && final(self).object_schema(h) == old(self).object_schema(h) && final(self).object_data(h)
                    == old(self).object_data(h),
    {
        if !self.allocator.available {
            return Err(AllocatorError::AllocatorClosed);
        }
        if !schema.check() {
            return Err(AllocatorError::LayoutInvalid);
        }
        let kinds = schema.slot_kinds();
        match check_write(&schema, &kinds, &data) {
            Some(e) => {
                return Err(e);
            },
            None => {},
        }
        let vals: Vec<Value> = match data {
            Data::Scalar(v) => {
                let mut vs: Vec<Value> = Vec::new();
                vs.push(v);
                vs
            },
            Data::Fields(vs) => vs,
        };
        proof {
            assert(vals@ =~= data_values(data@));
            match schema@ {
                SchemaView::Scalar(_, _) => {},
                _ => lemma_field_error_none(kinds@, vals@),
            }
        }
        let total = HEADER_SIZE + schema.payload_size();
        let sig = schema.kind().to_type_sig();
        let ghost old_self = *self;
        let h = match self.allocator.allocate(total, WORD_SIZE) {
            Ok(h) => h,
            Err(e) => {
                return Err(e);
            },
        };
        let ghost mid = self.allocator;
        let ghost sv = schema@;
        let si = match self.find_schema(&schema) {
            Some(i) => i,
            None => {
                self.schemas.push(schema);
                self.schemas.len() - 1
            },
        };
        let image = object_image(sig, total, si, &vals);
        proof {
            assert(self.schemas@[si as int]@ == sv);
            let i = mid.region_of(h as int);
            mid.lemma_wf();
            mid.lemma_ordered(i, i);
            assert(h + WORD_SIZE * image@.len() <= HEAP_BASE + mid.extent);
        }
        write_image(&mut self.allocator, h, &image);
        self.allocated_objects.push(h);
        proof {
            self.lemma_written(old_self, mid, h as int, total as int, si as int, image@, vals@, sig as int);
        }
        Ok(h)
    }

    proof fn lemma_written(
        &self,
        old_self: ObjectAllocator,
        mid: HeapAllocator,
        h: int,
        total: int,
        si: int,
        image: Seq<u64>,
        vals: Seq<Value>,
        sig: int,
    )
        requires
            old_self.wf(),
            old_self.allocator.available,
            mid.wf(),
            mid.available,
            self.allocator.wf(),
            self.allocator.available,
            // the allocation
            ({
                let i = mid.region_of(h);
                &&& mid.holds(i, h)
                &&& h % WORD_SIZE as int == 0
                &&& h + total == mid.regions()[i].unallocated_start
                &&& old_self.allocator.regions().len() <= mid.regions().len()
                &&& forall|k: int|
                    0 <= k < old_self.allocator.regions().len() ==> {
                        let a = old_self.allocator.regions()[k];
                        let b = #[trigger] mid.regions()[k];
                        &&& b.start == a.start
                        &&& b.size == a.size
                        &&& a.unallocated_start <= b.unallocated_start
                    }
                &&& old_self.allocator.extent <= mid.extent
                &&& mid.words().subrange(0, old_self.allocator.words().len() as int) == old_self.allocator.words()
                &&& i < old_self.allocator.regions().len() ==> old_self.allocator.regions()[i].unallocated_start <= h
            }),
            // the image written at h
            self.allocator.extent == mid.extent,
            self.allocator.regions() == mid.regions(),
            self.allocator.words().len() == mid.words().len(),
            forall|j: int|
                0 <= j < mid.words().len() ==> #[trigger] self.allocator.words()[j] == if word_index(h) <= j
                    < word_index(h) + image.len() {
                    image[j - word_index(h)]
                } else {
                    mid.words()[j]
                },
            // the schema store and the handles
            0 <= si < self.schemas@.len(),
            old_self.schemas@.len() <= self.schemas@.len() <= old_self.schemas@.len() + 1,
            forall|j: int| 0 <= j < old_self.schemas@.len() ==> self.schemas@[j] == old_self.schemas@[j],
            schema_ok(self.schemas@[si]@),
            self.allocated_objects@ == old_self.allocated_objects@.push(h as usize),
            total == total_size(self.schemas@[si]@),
            sig == kind_sig(schema_kind(self.schemas@[si]@)),
            vals.len() == slot_kinds(self.schemas@[si]@).len(),
            forall|k: int| 0 <= k < vals.len() ==> value_kind(#[trigger] vals[k]) == slot_kinds(self.schemas@[si]@)[k],
            image.len() == 3 + vals.len(),
            image[0] == sig as u64,
            image[1] == total as u64,
            image[2] == si as u64,
            forall|k: int| 0 <= k < vals.len() ==> #[trigger] image[3 + k] == encode(vals[k]),
            0 <= si <= u64::MAX,
            0 <= sig <= u64::MAX,
            0 <= total <= u64::MAX,
        ensures
            self.wf(),
            self.valid_object(h),
            self.object_schema(h) == self.schemas@[si]@,
            self.object_values(h) == vals,
            forall|g: int| #[trigger] old_self.valid_object(g) ==> self.valid_object(g)
                && self.object_schema(g) == old_self.object_schema(g) && self.object_data(g)
                == old_self.object_data(g),
    {
        let oh = old_self.allocator;
        let nh = self.allocator;
        let i = mid.region_of(h);
        mid.lemma_wf();
        oh.lemma_wf();
        mid.lemma_ordered(i, i);
        assert(nh.holds(i, h));
        nh.lemma_unique(i, i, h);
        // the words of the new object
        assert forall|k: int| 0 <= k < image.len() implies #[trigger] self.word(slot_addr(h, k)) == image[k] by {
            lemma_slot_index(h, k);
            assert(word_index(slot_addr(h, k)) < mid.words().len()) by {
                assert(slot_addr(h, k) < h + total);
            }
        }
        assert(slot_addr(h, 0) == h);
        assert(self.word(slot_addr(h, 2)) == si as u64);
        assert((si as u64) as int == si);
        assert(self.object_schema(h) == self.schemas@[si]@);
        assert((sig as u64) as int == sig);
        assert((total as u64) as int == total);
        assert(self.valid_object(h));
        let kinds = slot_kinds(self.schemas@[si]@);
        assert forall|k: int| 0 <= k < vals.len() implies #[trigger] self.object_values(h)[k] == vals[k] by {
            assert(self.word(slot_addr(h, 3 + k)) == image[3 + k]);
            lemma_decode_encode(vals[k]);
        }
        assert(self.object_values(h) =~= vals);
        // every earlier object is untouched
        let new_self = *self;
        let mid_self = ObjectAllocator { allocator: mid, schemas: self.schemas, allocated_objects: self.allocated_objects };
        assert forall|g: int| #[trigger] old_self.valid_object(g) implies self.valid_object(g)
            && self.object_schema(g) == old_self.object_schema(g) && self.object_data(g) == old_self.object_data(g) by {
            assert forall|a: int|
                #![trigger new_self.word(a)]
                oh.in_heap(a) && a % WORD_SIZE as int == 0 && (a < h || h + total <= a) implies new_self.word(a)
                    == old_self.word(a) by {
                let w = word_index(a);
                assert(0 <= w < oh.words().len()) by {
                    assert((a - 65536) / 8 < oh.words().len()) by (nonlinear_arith)
                        requires a < 65536 + oh.extent, oh.words().len() * 8 == oh.extent, a >= 65536;
                }
                assert(mid.words()[w] == oh.words()[w]) by {
                    assert(mid.words().subrange(0, oh.words().len() as int)[w] == oh.words()[w]);
                }
                if a < h {
                    assert(w < word_index(h)) by (nonlinear_arith)
                        requires a < h, a % 8 == 0, h % 8 == 0, a >= 65536, w == (a - 65536) / 8,
                            word_index(h) == (h - 65536) / 8;
                } else {
                    lemma_slot_index(h, image.len() as int);
                    assert(w >= word_index(h) + image.len()) by (nonlinear_arith)
                        requires a >= h + 8 * image.len(), a % 8 == 0, h % 8 == 0, h >= 65536,
                            w == (a - 65536) / 8, word_index(h) == (h - 65536) / 8;
                }
            }
            assert forall|r: int|
                0 <= r < oh.regions().len() && r != i implies oh.regions()[r].end() <= h || h + total
                    <= oh.regions()[r].start by {
                assert(mid.regions()[r].start == oh.regions()[r].start);
                assert(mid.regions()[r].size == oh.regions()[r].size);
                if r < i {
                    mid.lemma_ordered(r, i);
                } else {
                    mid.lemma_ordered(i, r);
                }
            }
            lemma_frame(old_self, new_self, h, h + total, i, g);
        }
        assert forall|j: int| 0 <= j < self.allocated_objects@.len() implies self.valid_object(
            #[trigger] self.allocated_objects@[j] as int,
        ) by {
            if j < old_self.allocated_objects@.len() {
                assert(old_self.valid_object(old_self.allocated_objects@[j] as int));
            }
        }
        // the new object lies apart from every earlier one
        assert forall|j: int| 0 <= j < old_self.allocated_objects@.len() implies {
            let g = #[trigger] old_self.allocated_objects@[j] as int;
            g + old_self.object_size(g) <= h || h + total <= g
        } by {
            let g = old_self.allocated_objects@[j] as int;
            assert(old_self.valid_object(g));
            let rg = oh.region_of(g);
            oh.lemma_ordered(rg, rg);
            assert(mid.regions()[rg].start == oh.regions()[rg].start);
            assert(mid.regions()[rg].size == oh.regions()[rg].size);
            if rg < i {
                mid.lemma_ordered(rg, i);
            } else if i < rg {
                mid.lemma_ordered(i, rg);
            }
        }
        let n = old_self.allocated_objects@.len() as int;
        assert forall|a: int, b: int|
            0 <= a < self.allocated_objects@.len() && 0 <= b < self.allocated_objects@.len() && a != b implies {
                let x = #[trigger] self.allocated_objects@[a] as int;
                let y = #[trigger] self.allocated_objects@[b] as int;
                x + self.object_size(x) <= y || y + self.object_size(y) <= x
            } by {
            let x = self.allocated_objects@[a] as int;
            let y = self.allocated_objects@[b] as int;
            if a < n {
                assert(old_self.valid_object(x));
            }
            if b < n {
                assert(old_self.valid_object(y));
            }
            if a < n && b < n {
                assert(old_self.allocated_objects@[a] as int == x);
                assert(old_self.allocated_objects@[b] as int == y);
            } else if a == n {
                assert(old_self.allocated_objects@[b] as int == y);
            } else {
                assert(old_self.allocated_objects@[a] as int == x);
            }
        }
    }
}

impl ObjectAllocator {
    /// What reading the handle `h` gives.
    pub open spec fn read_spec(&self, h: int) -> Result<(SchemaView, DataView), AllocatorError> {
        if !self.allocator.available {
            Err(AllocatorError::AllocatorClosed)
        } else if self.valid_object(h) {
            Ok((self.object_schema(h), self.object_data(h)))
        } else {
            Err(AllocatorError::InvalidObject(h as usize))
        }
    }

    /// Reads the object at `h`: its schema and what it holds.
    pub fn read_obj(&self, h: usize) -> (r: Result<(Schema, Data), AllocatorError>)
        requires
            self.wf(),
        ensures
            r matches Ok((s, d)) ==> self.read_spec(h as int) == Ok::<(SchemaView, DataView), AllocatorError>(
                (s@, d@),
            ),
            r matches Err(e) ==> self.read_spec(h as int) == Err::<(SchemaView, DataView), AllocatorError>(e),
    {
        let bad = Err(AllocatorError::InvalidObject(h));
        if !self.allocator.available {
            return Err(AllocatorError::AllocatorClosed);
        }
        let heap = &self.allocator;
        proof {
            heap.lemma_wf();
        }
        let ri = match heap.region_index_of(h) {
            Some(i) => i,
            None => {
                proof {
                    if self.valid_object(h as int) {
                        let r = heap.region_of(h as int);
                        heap.lemma_unique(r, r, h as int);
                    }
                }
                return bad;
            },
        };
        let b = heap.region(ri);
        proof {
            heap.lemma_ordered(ri as int, ri as int);
        }
        if h % WORD_SIZE != 0 || h > b.unallocated_start || b.unallocated_start - h < HEADER_SIZE {
            return bad;
        }
        proof {
            lemma_slot_index(h as int, 1);
            lemma_slot_index(h as int, 2);
            heap.lemma_unique(ri as int, ri as int, h as int);
            assert(heap.in_heap(h as int + 16));
        }
        let sig = heap.read_word(h);
        let size = heap.read_word(h + WORD_SIZE);
        let si = heap.read_word(h + 2 * WORD_SIZE);
        if si >= self.schemas.len() as u64 {
            return bad;
        }
        let schema = &self.schemas[si as usize];
        if !schema.check() {
            return bad;
        }
        if sig != schema.kind().to_type_sig() as u64 {
            return bad;
        }
        let total = HEADER_SIZE + schema.payload_size();
        if size != total as u64 || b.unallocated_start - h < total {
            return bad;
        }
        proof {
            assert(slot_addr(h as int, 0) == h);
            assert(self.valid_object(h as int));
        }
        let kinds = schema.slot_kinds();
        let mut vals: Vec<Value> = Vec::new();
        let mut k: usize = 0;
        while k < kinds.len()
            invariant
                self.wf(),
                self.allocator.available,
                self.valid_object(h as int),
                kinds@ == slot_kinds(self.object_schema(h as int)),
                k <= kinds@.len(),
                vals@.len() == k,
                h + total <= b.unallocated_start,
                total == HEADER_SIZE + WORD_SIZE * kinds@.len(),
                b == self.allocator.regions()[ri as int],
                self.allocator.holds(ri as int, h as int),
                HEAP_BASE <= b.start,
                forall|j: int| 0 <= j < k ==> vals@[j] == #[trigger] self.object_values(h as int)[j],
            decreases kinds@.len() - k,
        {
            proof {
                lemma_slot_index(h as int, 3 + k);
                self.allocator.lemma_ordered(ri as int, ri as int);
                assert(slot_addr(h as int, 3 + k) < h + total);
                self.allocator.lemma_wf();
                assert(b.wf());
                assert(self.allocator.holds(ri as int, slot_addr(h as int, 3 + k)));
                self.allocator.lemma_unique(ri as int, ri as int, slot_addr(h as int, 3 + k));
            }
            let w = self.allocator.read_word(h + WORD_SIZE * (3 + k));
            vals.push(decode_value(kinds[k], w));
            k = k + 1;
        }
        proof {
            assert(vals@ =~= self.object_values(h as int));
        }
        let scalar = match schema {
            Schema::Product(_) | Schema::Record(_) | Schema::Sum(_) => false,
            _ => true,
        };
        let data = if scalar {
            Data::Scalar(vals[0])
        } else {
            Data::Fields(vals)
        };
        Ok((schema.duplicate(), data))
    }

    pub fn write_int(&mut self, value: i64) -> (r: Result<usize, AllocatorError>)
        requires
            old(self).wf(),
        ensures
            final(self).wf(),
            !old(self).allocator.available ==> r == Err::<usize, AllocatorError>(AllocatorError::AllocatorClosed),
            r is Err && old(self).allocator.available ==> r == Err::<usize, AllocatorError>(AllocatorError::LayoutInvalid)
                && heap_full(old(self).allocator, HEADER_SIZE + WORD_SIZE),
            r is Err ==> final(self).allocated_objects@ == old(self).allocated_objects@,
            grown_by(old(self).allocator, final(self).allocator, HEADER_SIZE + WORD_SIZE),
            write_effect(*old(self), *final(self), HEADER_SIZE + WORD_SIZE, true, r),
            r matches Ok(h) ==> final(self).read_spec(h as int) == Ok::<(SchemaView, DataView), AllocatorError>(
                (SchemaView::Scalar(TypeKind::Int, 0), DataView::Scalar(Value::Int(value))),
            ),
    {
        self.allocate_general(Schema::Int(IntType), Data::Scalar(Value::Int(value)))
    }

    pub fn write_nat(&mut self, value: u64) -> (r: Result<usize, AllocatorError>)
        requires
            old(self).wf(),
        ensures
            final(self).wf(),
            !old(self).allocator.available ==> r == Err::<usize, AllocatorError>(AllocatorError::AllocatorClosed),
            r is Err && old(self).allocator.available ==> r == Err::<usize, AllocatorError>(AllocatorError::LayoutInvalid)
                && heap_full(old(self).allocator, HEADER_SIZE + WORD_SIZE),
            r is Err ==> final(self).allocated_objects@ == old(self).allocated_objects@,
            grown_by(old(self).allocator, final(self).allocator, HEADER_SIZE + WORD_SIZE),
            write_effect(*old(self), *final(self), HEADER_SIZE + WORD_SIZE, true, r),
            r matches Ok(h) ==> final(self).read_spec(h as int) == Ok::<(SchemaView, DataView), AllocatorError>(
                (SchemaView::Scalar(TypeKind::Nat, 0), DataView::Scalar(Value::Nat(value))),
            ),
    {
        self.allocate_general(Schema::Nat(NatType), Data::Scalar(Value::Nat(value)))
    }

    /// Writes a double, given as its IEEE-754 bits.
    pub fn write_double(&mut self, bits: u64) -> (r: Result<usize, AllocatorError>)
        requires
            old(self).wf(),
        ensures
            final(self).wf(),
            !old(self).allocator.available ==> r == Err::<usize, AllocatorError>(AllocatorError::AllocatorClosed),
            r is Err && old(self).allocator.available ==> r == Err::<usize, AllocatorError>(AllocatorError::LayoutInvalid)
                && heap_full(old(self).allocator, HEADER_SIZE + WORD_SIZE),
            r is Err ==> final(self).allocated_objects@ == old(self).allocated_objects@,
            grown_by(old(self).allocator, final(self).allocator, HEADER_SIZE + WORD_SIZE),
            write_effect(*old(self), *final(self), HEADER_SIZE + WORD_SIZE, true, r),
            r matches Ok(h) ==> final(self).read_spec(h as int) == Ok::<(SchemaView, DataView), AllocatorError>(
                (SchemaView::Scalar(TypeKind::Double, 0), DataView::Scalar(Value::Double(bits))),
            ),
    {
        self.allocate_general(Schema::Double(DoubleType), Data::Scalar(Value::Double(bits)))
    }

    /// Writes a character, given as its code point.
    pub fn write_char(&mut self, value: u32) -> (r: Result<usize, AllocatorError>)
        requires
            old(self).wf(),
        ensures
            final(self).wf(),
            !old(self).allocator.available ==> r == Err::<usize, AllocatorError>(AllocatorError::AllocatorClosed),
            r is Err && old(self).allocator.available ==> r == Err::<usize, AllocatorError>(AllocatorError::LayoutInvalid)
                && heap_full(old(self).allocator, HEADER_SIZE + WORD_SIZE),
            r is Err ==> final(self).allocated_objects@ == old(self).allocated_objects@,
            grown_by(old(self).allocator, final(self).allocator, HEADER_SIZE + WORD_SIZE),
            write_effect(*old(self), *final(self), HEADER_SIZE + WORD_SIZE, true, r),
            r matches Ok(h) ==> final(self).read_spec(h as int) == Ok::<(SchemaView, DataView), AllocatorError>(
                (SchemaView::Scalar(TypeKind::Char, 0), DataView::Scalar(Value::Char(value))),
            ),
    {
        self.allocate_general(Schema::Char(CharType), Data::Scalar(Value::Char(value)))
    }

    pub fn write_bool(&mut self, value: bool) -> (r: Result<usize, AllocatorError>)
        requires
            old(self).wf(),
        ensures
            final(self).wf(),
            !old(self).allocator.available ==> r == Err::<usize, AllocatorError>(AllocatorError::AllocatorClosed),
            r is Err && old(self).allocator.available ==> r == Err::<usize, AllocatorError>(AllocatorError::LayoutInvalid)
                && heap_full(old(self).allocator, HEADER_SIZE + WORD_SIZE),
            r is Err ==> final(self).allocated_objects@ == old(self).allocated_objects@,
            grown_by(old(self).allocator, final(self).allocator, HEADER_SIZE + WORD_SIZE),
            write_effect(*old(self), *final(self), HEADER_SIZE + WORD_SIZE, true, r),
            r matches Ok(h) ==> final(self).read_spec(h as int) == Ok::<(SchemaView, DataView), AllocatorError>(
                (SchemaView::Scalar(TypeKind::Bool, 0), DataView::Scalar(Value::Bool(value))),
            ),
    {
        self.allocate_general(Schema::Bool(BoolType), Data::Scalar(Value::Bool(value)))
    }

    /// Writes a reference to the object at `value`; `type_info` names its kind.
    pub fn write_reference(&mut self, value: usize, type_info: ReferenceType) -> (r: Result<usize, AllocatorError>)
        requires
            old(self).wf(),
        ensures
            final(self).wf(),
            !old(self).allocator.available ==> r == Err::<usize, AllocatorError>(AllocatorError::AllocatorClosed),
            r is Err && old(self).allocator.available ==> r == Err::<usize, AllocatorError>(AllocatorError::LayoutInvalid)
                && heap_full(old(self).allocator, HEADER_SIZE + WORD_SIZE),
            r is Err ==> final(self).allocated_objects@ == old(self).allocated_objects@,
            grown_by(old(self).allocator, final(self).allocator, HEADER_SIZE + WORD_SIZE),
            write_effect(*old(self), *final(self), HEADER_SIZE + WORD_SIZE, true, r),
            r matches Ok(h) ==> final(self).read_spec(h as int) == Ok::<(SchemaView, DataView), AllocatorError>(
                (SchemaView::Scalar(TypeKind::Reference, type_info.0), DataView::Scalar(Value::Reference(value))),
            ),
    {
        self.allocate_general(Schema::Reference(type_info), Data::Scalar(Value::Reference(value)))
    }

    /// Writes a tuple; `data` holds one value per field, in declaration order.
    pub fn write_product(&mut self, data: Vec<Value>, type_info: ProductType) -> (r: Result<usize, AllocatorError>)
        requires
            old(self).wf(),
        ensures
            final(self).wf(),
            ({
                let s = SchemaView::Product(type_info.0@);
                let d = DataView::Fields(data@);
                &&& !old(self).allocator.available ==> r == Err::<usize, AllocatorError>(AllocatorError::AllocatorClosed)
                &&& old(self).allocator.available && !schema_ok(s) ==> r == Err::<usize, AllocatorError>(AllocatorError::LayoutInvalid)
                &&& old(self).allocator.available && schema_ok(s) && write_error(s, d) is Some
                    ==> r == Err::<usize, AllocatorError>(write_error(s, d)->0)
                &&& old(self).allocator.available && schema_ok(s) && write_error(s, d) is None && r is Err
                    ==> r == Err::<usize, AllocatorError>(AllocatorError::LayoutInvalid) && heap_full(old(self).allocator, total_size(s))
                &&& r is Err ==> final(self).allocated_objects@ == old(self).allocated_objects@
                &&& grown_by(old(self).allocator, final(self).allocator, total_size(s))
                &&& write_effect(*old(self), *final(self), total_size(s), schema_ok(s) && write_error(s, d) is None, r)
                &&& r matches Ok(h) ==> final(self).read_spec(h as int) == Ok::<(SchemaView, DataView), AllocatorError>((s, d))
            }),
    {
        let ghost s = SchemaView::Product(type_info.0@);
        self.allocate_general(Schema::Product(type_info), Data::Fields(data))
    }

    /// Writes a record; `data` holds one value per field, in declaration order.
    pub fn write_record(&mut self, data: Vec<Value>, type_info: RecordType) -> (r: Result<usize, AllocatorError>)
        requires
            old(self).wf(),
        ensures
            final(self).wf(),
            ({
                let s = Schema::Record(type_info)@;
                let d = DataView::Fields(data@);
                &&& !old(self).allocator.available ==> r == Err::<usize, AllocatorError>(AllocatorError::AllocatorClosed)
                &&& old(self).allocator.available && !schema_ok(s) ==> r == Err::<usize, AllocatorError>(AllocatorError::LayoutInvalid)
                &&& old(self).allocator.available && schema_ok(s) && write_error(s, d) is Some
                    ==> r == Err::<usize, AllocatorError>(write_error(s, d)->0)
                &&& old(self).allocator.available && schema_ok(s) && write_error(s, d) is None && r is Err
                    ==> r == Err::<usize, AllocatorError>(AllocatorError::LayoutInvalid) && heap_full(old(self).allocator, total_size(s))
                &&& r is Err ==> final(self).allocated_objects@ == old(self).allocated_objects@
                &&& grown_by(old(self).allocator, final(self).allocator, total_size(s))
                &&& write_effect(*old(self), *final(self), total_size(s), schema_ok(s) && write_error(s, d) is None, r)
                &&& r matches Ok(h) ==> final(self).read_spec(h as int) == Ok::<(SchemaView, DataView), AllocatorError>((s, d))
            }),
    {
        self.allocate_general(Schema::Record(type_info), Data::Fields(data))
    }

    /// Writes a value of a tagged union; `data` fills the live case's fields.
    pub fn write_sum(&mut self, data: Vec<Value>, type_info: SumType) -> (r: Result<usize, AllocatorError>)
        requires
            old(self).wf(),
        ensures
            final(self).wf(),
            ({
                let s = Schema::Sum(type_info)@;
                let d = DataView::Fields(data@);
                &&& !old(self).allocator.available ==> r == Err::<usize, AllocatorError>(AllocatorError::AllocatorClosed)
                &&& old(self).allocator.available && !schema_ok(s) ==> r == Err::<usize, AllocatorError>(AllocatorError::LayoutInvalid)
                &&& old(self).allocator.available && schema_ok(s) && write_error(s, d) is Some
                    ==> r == Err::<usize, AllocatorError>(write_error(s, d)->0)
                &&& old(self).allocator.available && schema_ok(s) && write_error(s, d) is None && r is Err
                    ==> r == Err::<usize, AllocatorError>(AllocatorError::LayoutInvalid) && heap_full(old(self).allocator, total_size(s))
                &&& r is Err ==> final(self).allocated_objects@ == old(self).allocated_objects@
                &&& grown_by(old(self).allocator, final(self).allocator, total_size(s))
                &&& write_effect(*old(self), *final(self), total_size(s), schema_ok(s) && write_error(s, d) is None, r)
                &&& r matches Ok(h) ==> final(self).read_spec(h as int) == Ok::<(SchemaView, DataView), AllocatorError>((s, d))
            }),
    {
        self.allocate_general(Schema::Sum(type_info), Data::Fields(data))
    }
}

/// Positions of the reference slots among slots of kinds `kinds`, in order.
pub open spec fn ref_indices(kinds: Seq<TypeKind>) -> Seq<int>
    decreases kinds.len(),
{
    if kinds.len() == 0 {
        Seq::empty()
    } else {
        let p = ref_indices(kinds.drop_last());
        if kinds.last() == TypeKind::Reference {
            p.push(kinds.len() - 1)
        } else {
            p
        }
    }
}

pub proof fn lemma_ref_indices(kinds: Seq<TypeKind>)
    ensures
        forall|j: int| 0 <= j < ref_indices(kinds).len() ==> 0 <= #[trigger] ref_indices(kinds)[j] < kinds.len()
            && kinds[ref_indices(kinds)[j]] == TypeKind::Reference,
        forall|k: int| 0 <= k < kinds.len() && kinds[k] == TypeKind::Reference ==> exists|j: int|
            0 <= j < ref_indices(kinds).len() && #[trigger] ref_indices(kinds)[j] == k,
    decreases kinds.len(),
{
    if kinds.len() > 0 {
        lemma_ref_indices(kinds.drop_last());
        let p = ref_indices(kinds.drop_last());
        assert forall|k: int| 0 <= k < kinds.len() && kinds[k] == TypeKind::Reference implies exists|j: int|
            0 <= j < ref_indices(kinds).len() && #[trigger] ref_indices(kinds)[j] == k by {
            if k < kinds.len() - 1 {
                assert(kinds.drop_last()[k] == kinds[k]);
                let j = choose|j: int| 0 <= j < p.len() && #[trigger] p[j] == k;
                assert(ref_indices(kinds)[j] == k);
            } else {
                assert(ref_indices(kinds)[p.len() as int] == k);
            }
        }
    }
}

/// Reference slot positions come in increasing order.
pub proof fn lemma_ref_indices_sorted(kinds: Seq<TypeKind>)
    ensures
        forall|i: int, j: int| 0 <= i < j < ref_indices(kinds).len() ==> #[trigger] ref_indices(kinds)[i] < #[trigger] ref_indices(kinds)[j],
    decreases kinds.len(),
{
    if kinds.len() > 0 {
        lemma_ref_indices_sorted(kinds.drop_last());
        lemma_ref_indices(kinds.drop_last());
    }
}

impl ObjectAllocator {
    /// The reference slots of the object at `h`: for each, the address it holds
    /// and its offset in the payload.
    pub open spec fn ref_slots(&self, h: int) -> Seq<(usize, usize)> {
        ref_indices(slot_kinds(self.object_schema(h))).map_values(
            |k: int| (self.word(slot_addr(h, 3 + k)) as usize, (WORD_SIZE * k) as usize),
        )
    }

    /// `q` is a non-null reference held by the object at `p`.
    pub open spec fn points_to(&self, p: int, q: int) -> bool {
        q != 0 && exists|j: int| 0 <= j < self.ref_slots(p).len() && #[trigger] self.ref_slots(p)[j].0 == q
    }

    /// Whether `h` is the handle of a well-formed object.
    fn check_object(&self, h: usize) -> (r: bool)
        requires
            self.wf(),
            self.allocator.available,
        ensures
            r == self.valid_object(h as int),
    {
        let heap = &self.allocator;
        proof {
            heap.lemma_wf();
        }
        let ri = match heap.region_index_of(h) {
            Some(i) => i,
            None => {
                proof {
                    if self.valid_object(h as int) {
                        let r = heap.region_of(h as int);
                        heap.lemma_unique(r, r, h as int);
                    }
                }
                return false;
            },
        };
        let b = heap.region(ri);
        proof {
            heap.lemma_ordered(ri as int, ri as int);
        }
        if h % WORD_SIZE != 0 || h > b.unallocated_start || b.unallocated_start - h < HEADER_SIZE {
            return false;
        }
        proof {
            lemma_slot_index(h as int, 1);
            lemma_slot_index(h as int, 2);
            heap.lemma_unique(ri as int, ri as int, h as int);
            assert(heap.in_heap(h as int + 16));
            assert(slot_addr(h as int, 0) == h);
        }
        let sig = heap.read_word(h);
        let size = heap.read_word(h + WORD_SIZE);
        let si = heap.read_word(h + 2 * WORD_SIZE);
        if si >= self.schemas.len() as u64 {
            return false;
        }
        let schema = &self.schemas[si as usize];
        if !schema.check() {
            return false;
        }
        if sig != schema.kind().to_type_sig() as u64 {
            return false;
        }
        let total = HEADER_SIZE + schema.payload_size();
        size == total as u64 && b.unallocated_start - h >= total
    }

    /// Whether `h` is the handle of an object that this store wrote.
    pub fn is_allocated(&self, h: usize) -> (r: bool)
        ensures
            r == self.is_handle(h as int),
    {
        let mut i: usize = 0;
        while i < self.allocated_objects.len()
            invariant
                i <= self.allocated_objects@.len(),
                forall|j: int| 0 <= j < i ==> self.allocated_objects@[j] != h,
            decreases self.allocated_objects@.len() - i,
        {
            if self.allocated_objects[i] == h {
                return true;
            }
            i = i + 1;
        }
        false
    }

    /// The reference slots of the object at `obj_start`.
    pub fn pointers(&self, obj_start: usize) -> (r: Result<Vec<(usize, usize)>, crate::errors::GCError>)
        requires
            self.wf(),
        ensures
            !self.allocator.available ==> r == Err::<Vec<(usize, usize)>, crate::errors::GCError>(
                crate::errors::GCError::AllocatorClosed,
            ),
            r matches Ok(v) ==> self.valid_object(obj_start as int) && v@ == self.ref_slots(obj_start as int),
            self.allocator.available ==> (r is Err <==> !self.valid_object(obj_start as int)),
            self.allocator.available && r is Err ==> r == Err::<Vec<(usize, usize)>, crate::errors::GCError>(
                crate::errors::GCError::InvalidObject(obj_start),
            ),
    {
        if !self.allocator.available {
            return Err(crate::errors::GCError::AllocatorClosed);
        }
        if !self.check_object(obj_start) {
            return Err(crate::errors::GCError::InvalidObject(obj_start));
        }
        let h = obj_start;
        proof {
            let heap = self.allocator;
            let ri = heap.region_of(h as int);
            heap.lemma_wf();
            heap.lemma_ordered(ri, ri);
            lemma_slot_index(h as int, 2);
            assert(heap.regions()[ri].wf());
            assert(heap.holds(ri, h as int + 16));
            heap.lemma_unique(ri, ri, h as int + 16);
        }
        let si = self.allocator.read_word(h + 2 * WORD_SIZE);
        proof {
            assert(slot_addr(h as int, 2) == h + 16);
            assert(si == self.word(slot_addr(h as int, 2)));
            assert((si as int) < self.schemas@.len());
        }
        if si >= self.schemas.len() as u64 {
            return Err(crate::errors::GCError::InvalidObject(obj_start));
        }
        let kinds = self.schemas[si as usize].slot_kinds();
        let ghost total = self.object_size(h as int);
        let mut out: Vec<(usize, usize)> = Vec::new();
        let mut k: usize = 0;
        while k < kinds.len()
            invariant
                self.wf(),
                self.allocator.available,
                self.valid_object(h as int),
                kinds@ == slot_kinds(self.object_schema(h as int)),
                k <= kinds@.len(),
                total == HEADER_SIZE + WORD_SIZE * kinds@.len(),
                out@ == ref_indices(kinds@.take(k as int)).map_values(
                    |j: int| (self.word(slot_addr(h as int, 3 + j)) as usize, (WORD_SIZE * j) as usize),
                ),
            decreases kinds@.len() - k,
        {
            proof {
                assert(kinds@.take(k as int + 1).drop_last() =~= kinds@.take(k as int));
            }
            if kinds[k] == TypeKind::Reference {
                proof {
                    let heap = self.allocator;
                    let ri = heap.region_of(h as int);
                    heap.lemma_wf();
                    heap.lemma_ordered(ri, ri);
                    lemma_slot_index(h as int, 3 + k);
                    assert(heap.regions()[ri].wf());
                    assert(slot_addr(h as int, 3 + k) < h + total);
                    heap.lemma_unique(ri, ri, slot_addr(h as int, 3 + k));
                }
                let w = self.allocator.read_word(h + WORD_SIZE * (3 + k));
                out.push((w as usize, WORD_SIZE * k));
            }
            k = k + 1;
            proof {
                assert(out@ =~= ref_indices(kinds@.take(k as int)).map_values(
                    |j: int| (self.word(slot_addr(h as int, 3 + j)) as usize, (WORD_SIZE * j) as usize),
                ));
            }
        }
        proof {
            assert(kinds@.take(kinds@.len() as int) =~= kinds@);
        }
        Ok(out)
    }
}

/// An object whose words are all unchanged, in a heap whose regions and schema
/// store are unchanged, is unchanged.
proof fn lemma_same_words(old_oa: ObjectAllocator, new_oa: ObjectAllocator, g: int)
    requires
        old_oa.allocator.wf(),
        new_oa.allocator.wf(),
        new_oa.allocator.regions() == old_oa.allocator.regions(),
        new_oa.schemas@ == old_oa.schemas@,
        old_oa.valid_object(g),
        forall|k: int| 0 <= k < old_oa.object_size(g) / WORD_SIZE as int ==> #[trigger] new_oa.word(slot_addr(g, k))
            == old_oa.word(slot_addr(g, k)),
    ensures
        new_oa.valid_object(g),
        new_oa.object_schema(g) == old_oa.object_schema(g),
        new_oa.object_values(g) == old_oa.object_values(g),
        new_oa.object_data(g) == old_oa.object_data(g),
{
    let s = old_oa.object_schema(g);
    let total = total_size(s);
    let r = old_oa.allocator.region_of(g);
    assert(new_oa.allocator.holds(r, g));
    new_oa.allocator.lemma_unique(r, r, g);
    assert(total / 8 == 3 + slot_kinds(s).len());
    assert(new_oa.word(slot_addr(g, 2)) == old_oa.word(slot_addr(g, 2)));
    assert(new_oa.word(slot_addr(g, 0)) == old_oa.word(slot_addr(g, 0)));
    assert(new_oa.word(slot_addr(g, 1)) == old_oa.word(slot_addr(g, 1)));
    assert(slot_addr(g, 0) == g);
    assert(new_oa.object_values(g) =~= old_oa.object_values(g)) by {
        assert forall|k: int| 0 <= k < slot_kinds(s).len() implies #[trigger] new_oa.object_values(g)[k]
            == old_oa.object_values(g)[k] by {
            assert(new_oa.word(slot_addr(g, 3 + k)) == old_oa.word(slot_addr(g, 3 + k)));
        }
    }
}

impl ObjectAllocator {
    /// Stores `value` in field `k` of the object at `h`.
    pub fn set_field(&mut self, h: usize, k: usize, value: Value) -> (r: Result<(), AllocatorError>)
        requires
            old(self).wf(),
        ensures
            final(self).wf(),
            final(self).allocator.available == old(self).allocator.available,
            final(self).allocated_objects == old(self).allocated_objects,
            r is Err ==> *final(self) == *old(self),
            !old(self).allocator.available ==> r == Err::<(), AllocatorError>(AllocatorError::AllocatorClosed),
            old(self).allocator.available && !old(self).is_handle(h as int) ==> r == Err::<(), AllocatorError>(
                AllocatorError::InvalidObject(h),
            ),
            old(self).allocator.available && old(self).is_handle(h as int) ==> {
                let kinds = slot_kinds(old(self).object_schema(h as int));
                &&& k >= kinds.len() ==> r == Err::<(), AllocatorError>(AllocatorError::SizeMismatch)
                &&& k < kinds.len() && value_kind(value) != kinds[k as int] ==> r == Err::<(), AllocatorError>(
                    AllocatorError::DataReadFailed,
                )
                &&& k < kinds.len() && value_kind(value) == kinds[k as int] ==> r is Ok
            },
            r is Ok ==> {
                &&& final(self).object_schema(h as int) == old(self).object_schema(h as int)
                &&& final(self).object_values(h as int) == old(self).object_values(h as int).update(k as int, value)
            },
            forall|g: int|
                old(self).allocator.available && #[trigger] old(self).is_handle(g) ==> final(self).valid_object(g)
                    && final(self).object_schema(g) == old(self).object_schema(g) && (g != h
                    ==> final(self).object_data(g) == old(self).object_data(g)),
    {
        if !self.allocator.available {
            return Err(AllocatorError::AllocatorClosed);
        }
        if !self.is_allocated(h) {
            return Err(AllocatorError::InvalidObject(h));
        }
        proof {
            let i = choose|i: int| 0 <= i < self.allocated_objects@.len() && self.allocated_objects@[i] == h;
            assert(self.valid_object(self.allocated_objects@[i] as int));
            let heap = self.allocator;
            let ri = heap.region_of(h as int);
            heap.lemma_wf();
            heap.lemma_ordered(ri, ri);
            lemma_slot_index(h as int, 2);
            assert(heap.regions()[ri].wf());
            assert(heap.holds(ri, h as int + 16));
            heap.lemma_unique(ri, ri, h as int + 16);
            assert(slot_addr(h as int, 2) == h + 16);
        }
        let si = self.allocator.read_word(h + 2 * WORD_SIZE);
        if si >= self.schemas.len() as u64 {
            return Err(AllocatorError::InvalidObject(h));
        }
        let kinds = self.schemas[si as usize].slot_kinds();
        if k >= kinds.len() {
            return Err(AllocatorError::SizeMismatch);
        }
        if kind_of(&value) != kinds[k] {
            return Err(AllocatorError::DataReadFailed);
        }
        let ghost old_self = *self;
        let ghost slot = slot_addr(h as int, 3 + k);
        proof {
            let heap = self.allocator;
            let ri = heap.region_of(h as int);
            lemma_slot_index(h as int, 3 + k);
            assert(slot < h + self.object_size(h as int));
            assert(heap.holds(ri, slot));
            heap.lemma_unique(ri, ri, slot);
        }
        self.allocator.write_word(h + WORD_SIZE * (3 + k), encode_value(value));
        proof {
            let new_self = *self;
            let heap = old_self.allocator;
            heap.lemma_wf();
            assert forall|a: int|
                #![trigger new_self.word(a)]
                heap.in_heap(a) && a % 8 == 0 && a != slot implies new_self.word(a) == old_self.word(a) by {
                assert(word_index(a) != word_index(slot)) by (nonlinear_arith)
                    requires a != slot, a % 8 == 0, slot % 8 == 0, a >= 65536, slot >= 65536,
                        word_index(a) == (a - 65536) / 8, word_index(slot) == (slot - 65536) / 8;
                assert(0 <= word_index(a) < heap.words().len()) by (nonlinear_arith)
                    requires a < 65536 + heap.extent, heap.words().len() * 8 == heap.extent, a >= 65536,
                        word_index(a) == (a - 65536) / 8;
            }
            assert(new_self.word(slot) == encode(value));
            // the object at h keeps its header and gains the value
            let hh = h as int;
            let sch = old_self.object_schema(hh);
            assert forall|j: int| 0 <= j < 3 implies #[trigger] new_self.word(slot_addr(hh, j)) == old_self.word(
                slot_addr(hh, j),
            ) by {
                lemma_slot_index(hh, j);
                let ri = heap.region_of(hh);
                heap.lemma_ordered(ri, ri);
                assert(heap.regions()[ri].wf());
                assert(heap.holds(ri, slot_addr(hh, j)));
                heap.lemma_unique(ri, ri, slot_addr(hh, j));
                lemma_slot_index(hh, 3 + k);
            }
            assert(slot_addr(hh, 0) == hh);
            assert(new_self.object_schema(hh) == sch);
            let rh = heap.region_of(hh);
            assert(new_self.allocator.holds(rh, hh));
            new_self.allocator.lemma_unique(rh, rh, hh);
            assert(new_self.valid_object(hh));
            assert forall|j: int| 0 <= j < slot_kinds(sch).len() implies #[trigger] new_self.object_values(hh)[j]
                == old_self.object_values(hh).update(k as int, value)[j] by {
                lemma_slot_index(hh, 3 + j);
                let ri = heap.region_of(hh);
                heap.lemma_ordered(ri, ri);
                assert(heap.regions()[ri].wf());
                assert(slot_addr(hh, 3 + j) < hh + old_self.object_size(hh));
                assert(heap.holds(ri, slot_addr(hh, 3 + j)));
                heap.lemma_unique(ri, ri, slot_addr(hh, 3 + j));
                if j == k {
                    lemma_decode_encode(value);
                } else {
                    lemma_slot_index(hh, 3 + k);
                }
            }
            assert(new_self.object_values(hh) =~= old_self.object_values(hh).update(k as int, value));
            // every other object is untouched
            assert forall|g: int| #[trigger] old_self.is_handle(g) implies new_self.valid_object(g)
                && new_self.object_schema(g) == old_self.object_schema(g) && (g != hh
                ==> new_self.object_data(g) == old_self.object_data(g)) by {
                if g != hh {
                    let ig = choose|i: int| 0 <= i < old_self.allocated_objects@.len() && old_self.allocated_objects@[i] == g;
                    let ih = choose|i: int| 0 <= i < old_self.allocated_objects@.len() && old_self.allocated_objects@[i] == hh;
                    assert(old_self.valid_object(old_self.allocated_objects@[ig] as int));
                    assert(old_self.allocated_objects@[ih] as int == hh);
                    assert(g + old_self.object_size(g) <= hh || hh + old_self.object_size(hh) <= g);
                    let rg = heap.region_of(g);
                    heap.lemma_ordered(rg, rg);
                    assert(heap.regions()[rg].wf());
                    assert forall|j: int| 0 <= j < old_self.object_size(g) / WORD_SIZE as int implies #[trigger] new_self.word(
                        slot_addr(g, j),
                    ) == old_self.word(slot_addr(g, j)) by {
                        lemma_slot_index(g, j);
                        assert(slot_addr(g, j) < g + old_self.object_size(g)) by (nonlinear_arith)
                            requires 0 <= j < old_self.object_size(g) / 8, old_self.object_size(g) >= 0;
                        assert(heap.holds(rg, slot_addr(g, j)));
                        heap.lemma_unique(rg, rg, slot_addr(g, j));
                        lemma_slot_index(hh, 3 + k);
                        assert(slot_addr(hh, 3 + k) < hh + old_self.object_size(hh));
                    }
                    lemma_same_words(old_self, new_self, g);
                } else {
                    assert(new_self.object_schema(g) == old_self.object_schema(g));
                }
            }
            assert forall|i: int| 0 <= i < new_self.allocated_objects@.len() implies new_self.valid_object(
                #[trigger] new_self.allocated_objects@[i] as int,
            ) by {
                assert(old_self.is_handle(old_self.allocated_objects@[i] as int));
            }
            assert forall|i: int, j: int|
                0 <= i < new_self.allocated_objects@.len() && 0 <= j < new_self.allocated_objects@.len() && i != j implies {
                    let x = #[trigger] new_self.allocated_objects@[i] as int;
                    let y = #[trigger] new_self.allocated_objects@[j] as int;
                    x + new_self.object_size(x) <= y || y + new_self.object_size(y) <= x
                } by {
                assert(old_self.is_handle(old_self.allocated_objects@[i] as int));
                assert(old_self.is_handle(old_self.allocated_objects@[j] as int));
            }
        }
        Ok(())
    }
}

impl ObjectAllocator {
    /// The size of the object at `h`, as its header records it.
    pub fn object_size_of(&self, h: usize) -> (r: usize)
        requires
            self.wf(),
            self.allocator.available,
            self.is_handle(h as int),
        ensures
            r == self.object_size(h as int),
    {
        proof {
            let i = choose|i: int| 0 <= i < self.allocated_objects@.len() && self.allocated_objects@[i] == h;
            assert(self.valid_object(self.allocated_objects@[i] as int));
            let heap = self.allocator;
            let ri = heap.region_of(h as int);
            heap.lemma_wf();
            heap.lemma_ordered(ri, ri);
            lemma_slot_index(h as int, 2);
            assert(heap.regions()[ri].wf());
            assert(heap.holds(ri, h as int + 16));
            heap.lemma_unique(ri, ri, h as int + 16);
            assert(slot_addr(h as int, 2) == h + 16);
        }
        let si = self.allocator.read_word(h + 2 * WORD_SIZE);
        if si >= self.schemas.len() as u64 {
            return 0;
        }
        HEADER_SIZE + self.schemas[si as usize].payload_size()
    }
}

impl ObjectAllocator {
    /// Each object of `path` holds a reference to the next.
    pub open spec fn is_path(&self, path: Seq<int>) -> bool {
        &&& path.len() >= 1
        &&& forall|i: int| 0 <= i < path.len() - 1 ==> #[trigger] self.points_to(path[i], path[i + 1])
    }

    /// `x` is a non-null root, or is reached from one by following references.
    pub open spec fn reaches(&self, roots: Seq<usize>, x: int) -> bool {
        exists|path: Seq<int>, k: int|
            #[trigger] self.is_path(path) && 0 <= k < roots.len() && roots[k] != 0 && path[0] == #[trigger] roots[k] as int
                && path.last() == x
    }

    /// Following a reference from a reached object reaches its target.
    pub proof fn lemma_reaches_step(&self, roots: Seq<usize>, p: int, q: int)
        requires
            self.reaches(roots, p),
            self.points_to(p, q),
        ensures
            self.reaches(roots, q),
    {
        let (path, k) = choose|path: Seq<int>, k: int|
            #[trigger] self.is_path(path) && 0 <= k < roots.len() && roots[k] != 0 && path[0] == #[trigger] roots[k] as int
                && path.last() == p;
        let np = path.push(q);
        assert forall|i: int| 0 <= i < np.len() - 1 implies #[trigger] self.points_to(np[i], np[i + 1]) by {
            if i < path.len() - 1 {
                assert(np[i] == path[i] && np[i + 1] == path[i + 1]);
            }
        }
        assert(self.is_path(np));
        assert(np[0] == roots[k] as int);
    }

    /// A non-null root reaches itself.
    pub proof fn lemma_reaches_root(&self, roots: Seq<usize>, i: int)
        requires
            0 <= i < roots.len(),
            roots[i] != 0,
        ensures
            self.reaches(roots, roots[i] as int),
    {
        let path = seq![roots[i] as int];
        assert(self.is_path(path));
        assert(path[0] == roots[i] as int);
    }

    proof fn lemma_path_in_closed(&self, path: Seq<int>, s: Set<int>, i: int)
        requires
            self.is_path(path),
            0 <= i < path.len(),
            s.contains(path[0]),
            forall|p: int, q: int| s.contains(p) && #[trigger] self.points_to(p, q) ==> s.contains(q),
        ensures
            s.contains(path[i]),
        decreases i,
    {
        if i > 0 {
            self.lemma_path_in_closed(path, s, i - 1);
            let j = i - 1;
            assert(self.points_to(path[j], path[j + 1]));
        }
    }

    /// Every object reached from the roots lies in any set that holds the
    /// non-null roots and is closed under references.
    pub proof fn lemma_reached_in_closed(&self, roots: Seq<usize>, s: Set<int>, x: int)
        requires
            self.reaches(roots, x),
            forall|i: int| 0 <= i < roots.len() && roots[i] != 0 ==> s.contains(#[trigger] roots[i] as int),
            forall|p: int, q: int| s.contains(p) && #[trigger] self.points_to(p, q) ==> s.contains(q),
        ensures
            s.contains(x),
    {
        let (path, k) = choose|path: Seq<int>, k: int|
            #[trigger] self.is_path(path) && 0 <= k < roots.len() && roots[k] != 0 && path[0] == #[trigger] roots[k] as int
                && path.last() == x;
        assert(s.contains(roots[k] as int));
        self.lemma_path_in_closed(path, s, path.len() - 1);
    }
}

/// `x` is one of the addresses in `v`.
pub open spec fn listed(v: Seq<usize>, x: int) -> bool {
    exists|i: int| 0 <= i < v.len() && v[i] as int == x
}

/// The addresses in `v`.
pub open spec fn listed_set(v: Seq<usize>) -> Set<int> {
    Set::new(|x: int| listed(v, x))
}

/// Records `q` as found, and as still to visit, unless it was found before.
fn note_found(result: &mut Vec<usize>, work: &mut Vec<usize>, q: usize) -> (added: bool)
    ensures
        added == !listed(old(result)@, q as int),
        forall|x: int| #[trigger] listed(final(result)@, x) <==> listed(old(result)@, x) || x == q,
        added ==> final(work)@ == old(work)@.push(q),
        !added ==> final(work)@ == old(work)@,
        added ==> listed_set(final(result)@) == listed_set(old(result)@).insert(q as int),
        !added ==> listed_set(final(result)@) == listed_set(old(result)@),
{
    let mut i: usize = 0;
    while i < result.len()
        invariant
            i <= result@.len(),
            forall|j: int| 0 <= j < i ==> result@[j] != q,
        decreases result@.len() - i,
    {
        if result[i] == q {
            proof {
                assert(listed(result@, q as int));
                assert(listed_set(result@) =~= listed_set(result@));
            }
            return false;
        }
        i = i + 1;
    }
    let ghost old_result = result@;
    result.push(q);
    work.push(q);
    proof {
        assert forall|x: int| #[trigger] listed(result@, x) <==> listed(old_result, x) || x == q by {
            if listed(old_result, x) {
                let j = choose|j: int| 0 <= j < old_result.len() && old_result[j] as int == x;
                assert(result@[j] as int == x);
            }
            if x == q {
                assert(result@[result@.len() - 1] as int == x);
            }
            if listed(result@, x) {
                let j = choose|j: int| 0 <= j < result@.len() && result@[j] as int == x;
                if j < old_result.len() {
                    assert(old_result[j] as int == x);
                }
            }
        }
        assert(listed_set(result@) =~= listed_set(old_result).insert(q as int));
    }
    true
}

impl ObjectAllocator {
    /// The store is well formed and open.
    #[verifier::opaque]
    pub open spec fn ready(&self) -> bool {
        self.wf() && self.allocator.available
    }

    /// The handles of the store's objects.
    pub open spec fn handle_set(&self) -> Set<int> {
        Set::new(|x: int| self.is_handle(x))
    }

    proof fn lemma_handle_set_finite(&self)
        ensures
            self.handle_set().finite(),
    {
        let s = self.allocated_objects@.map_values(|h: usize| h as int).to_set();
        seq_to_set_is_finite(self.allocated_objects@.map_values(|h: usize| h as int));
        assert forall|x: int| self.handle_set().contains(x) implies s.contains(x) by {
            let i = choose|i: int| 0 <= i < self.allocated_objects@.len() && self.allocated_objects@[i] == x;
            assert(self.allocated_objects@.map_values(|h: usize| h as int)[i] == x);
        }
        vstd::set_lib::lemma_len_subset(self.handle_set(), s);
    }

    /// The reference slots of the object at the handle `p`.
    fn refs_of(&self, p: usize) -> (r: Vec<(usize, usize)>)
        requires
            self.ready(),
            self.is_handle(p as int),
        ensures
            r@ == self.ref_slots(p as int),
    {
        proof {
            reveal(ObjectAllocator::ready);
            let i = choose|i: int| 0 <= i < self.allocated_objects@.len() && self.allocated_objects@[i] == p;
            assert(self.valid_object(self.allocated_objects@[i] as int));
        }
        match self.pointers(p) {
            Ok(v) => v,
            Err(_) => Vec::new(),
        }
    }

    /// Every object reached from the non-null roots by following references.
    pub fn reachable(&self, root_objects: &Vec<usize>) -> (r: Result<Vec<usize>, crate::errors::GCError>)
        requires
            self.wf(),
        ensures
            !self.allocator.available ==> r == Err::<Vec<usize>, crate::errors::GCError>(crate::errors::GCError::AllocatorClosed),
            r matches Ok(v) ==> forall|x: int| #[trigger] listed(v@, x) <==> self.reaches(root_objects@, x),
            self.allocator.available ==> (r matches Err(e) ==> e matches crate::errors::GCError::InvalidObject(q) && q != 0
                && !self.is_handle(q as int) && self.reaches(root_objects@, q as int)),
            self.allocator.available ==> (r is Ok <==> forall|x: int| #[trigger] self.reaches(root_objects@, x) ==> self.is_handle(x)),
    {
        if !self.allocator.available {
            return Err(crate::errors::GCError::AllocatorClosed);
        }
        let ghost roots = root_objects@;
        let mut result: Vec<usize> = Vec::new();
        let mut work: Vec<usize> = Vec::new();
        let ghost mut done: Set<int> = Set::empty();
        proof {
            self.lemma_handle_set_finite();
            reveal(ObjectAllocator::ready);
            assert(self.ready());
        }
        let mut i: usize = 0;
        while i < root_objects.len()
            invariant
                self.allocator.available,
                roots == root_objects@,
                i <= roots.len(),
                forall|x: int| #[trigger] listed(result@, x) ==> self.is_handle(x) && self.reaches(roots, x),
                forall|x: int| #[trigger] listed(result@, x) ==> listed(work@, x),
                forall|j: int| 0 <= j < work@.len() ==> listed(result@, #[trigger] work@[j] as int),
                forall|k: int| 0 <= k < i && roots[k] != 0 ==> listed(result@, #[trigger] roots[k] as int),
            decreases roots.len() - i,
        {
            let root = root_objects[i];
            if root != 0 {
                proof {
                    self.lemma_reaches_root(roots, i as int);
                }
                if !self.is_allocated(root) {
                    return Err(crate::errors::GCError::InvalidObject(root));
                }
                let ghost (r0, w0) = (result@, work@);
                note_found(&mut result, &mut work, root);
                proof {
                    assert forall|j: int| 0 <= j < work@.len() implies listed(result@, #[trigger] work@[j] as int) by {
                        if j < w0.len() {
                            assert(listed(r0, w0[j] as int));
                        }
                    }
                    assert forall|x: int| #[trigger] listed(result@, x) implies listed(work@, x) by {
                        if listed(r0, x) {
                            let j = choose|j: int| 0 <= j < w0.len() && w0[j] as int == x;
                            assert(work@[j] as int == x);
                        } else {
                            assert(work@[work@.len() - 1] as int == x);
                        }
                    }
                }
            }
            i = i + 1;
        }
        while work.len() > 0
            invariant
                self.ready(),
                self.allocator.available,
                roots == root_objects@,
                self.handle_set().finite(),
                forall|x: int| #[trigger] listed(result@, x) ==> self.is_handle(x) && self.reaches(roots, x),
                forall|x: int| #[trigger] listed(result@, x) ==> done.contains(x) || listed(work@, x),
                forall|j: int| 0 <= j < work@.len() ==> listed(result@, #[trigger] work@[j] as int),
                forall|d: int, q: int| #[trigger] done.contains(d) && #[trigger] self.points_to(d, q) ==> listed(result@, q),
                forall|d: int| #[trigger] done.contains(d) ==> listed(result@, d),
                forall|k: int| 0 <= k < roots.len() && roots[k] != 0 ==> listed(result@, #[trigger] roots[k] as int),
            decreases self.handle_set().len() - listed_set(result@).len(), work@.len(),
        {
            proof {
                assert(listed_set(result@).subset_of(self.handle_set()));
                vstd::set_lib::lemma_len_subset(listed_set(result@), self.handle_set());
            }
            let ghost w_before = work@;
            let ghost n_before = listed_set(result@).len();
            let p = match work.pop() {
                Some(p) => p,
                None => 0,
            };
            proof {
                assert(p == w_before.last());
                assert(listed(result@, p as int));
                assert forall|x: int| #[trigger] listed(result@, x) implies done.contains(x) || x == p || listed(work@, x) by {
                    if listed(w_before, x) {
                        let j = choose|j: int| 0 <= j < w_before.len() && w_before[j] as int == x;
                        if j < w_before.len() - 1 {
                            assert(work@[j] as int == x);
                        }
                    }
                }
            }
            let ptrs = self.refs_of(p);
            let mut j: usize = 0;
            while j < ptrs.len()
                invariant
                    self.ready(),
                    self.allocator.available,
                    roots == root_objects@,
                    self.handle_set().finite(),
                    ptrs@ == self.ref_slots(p as int),
                    listed(result@, p as int),
                    j <= ptrs@.len(),
                    forall|k: int| 0 <= k < j && ptrs@[k].0 != 0 ==> listed(result@, #[trigger] ptrs@[k].0 as int),
                    forall|x: int| #[trigger] listed(result@, x) ==> self.is_handle(x) && self.reaches(roots, x),
                    forall|x: int| #[trigger] listed(result@, x) ==> done.contains(x) || x == p || listed(work@, x),
                    forall|jj: int| 0 <= jj < work@.len() ==> listed(result@, #[trigger] work@[jj] as int),
                    forall|d: int, q: int| #[trigger] done.contains(d) && #[trigger] self.points_to(d, q) ==> listed(result@, q),
                    forall|d: int| #[trigger] done.contains(d) ==> listed(result@, d),
                    forall|k: int| 0 <= k < roots.len() && roots[k] != 0 ==> listed(result@, #[trigger] roots[k] as int),
                    listed_set(result@).len() >= n_before,
                    listed_set(result@).len() == n_before ==> work@.len() == w_before.len() - 1,
                    listed_set(result@).subset_of(self.handle_set()),
                decreases ptrs@.len() - j,
            {
                let q = ptrs[j].0;
                if q != 0 {
                    proof {
                        assert(self.points_to(p as int, q as int)) by {
                            assert(self.ref_slots(p as int)[j as int].0 == q);
                        }
                        self.lemma_reaches_step(roots, p as int, q as int);
                    }
                    if !self.is_allocated(q) {
                        return Err(crate::errors::GCError::InvalidObject(q));
                    }
                    let ghost (r0, w0) = (result@, work@);
                    let added = note_found(&mut result, &mut work, q);
                    proof {
                        assert forall|jj: int| 0 <= jj < work@.len() implies listed(result@, #[trigger] work@[jj] as int) by {
                            if jj < w0.len() {
                                assert(listed(r0, w0[jj] as int));
                            }
                        }
                        assert forall|x: int| #[trigger] listed(result@, x) implies done.contains(x) || x == p || listed(work@, x) by {
                            if listed(r0, x) {
                                if listed(w0, x) {
                                    let jj = choose|jj: int| 0 <= jj < w0.len() && w0[jj] as int == x;
                                    assert(work@[jj] as int == x);
                                }
                            } else {
                                assert(work@[work@.len() - 1] as int == x);
                            }
                        }
                        assert(listed_set(result@).subset_of(self.handle_set()));
                        if added {
                            vstd::set_lib::lemma_len_subset(listed_set(r0), self.handle_set());
                        }
                    }
                }
                j = j + 1;
            }
            proof {
                assert forall|q: int| #[trigger] self.points_to(p as int, q) implies listed(result@, q) by {
                    let k = choose|k: int| 0 <= k < self.ref_slots(p as int).len() && #[trigger] self.ref_slots(p as int)[k].0 == q;
                    assert(ptrs@[k].0 == q);
                }
                done = done.insert(p as int);
                vstd::set_lib::lemma_len_subset(listed_set(result@), self.handle_set());
            }
        }
        proof {
            self.lemma_search_done(roots, result@, done);
            assert forall|x: int| #[trigger] self.reaches(roots, x) implies self.is_handle(x) by {
                assert(listed(result@, x));
            }
        }
        Ok(result)
    }

    proof fn lemma_search_done(&self, roots: Seq<usize>, result: Seq<usize>, done: Set<int>)
        requires
            forall|x: int| #[trigger] listed(result, x) ==> self.is_handle(x) && self.reaches(roots, x),
            forall|x: int| #[trigger] listed(result, x) ==> done.contains(x) || listed(Seq::<usize>::empty(), x),
            forall|d: int, q: int| #[trigger] done.contains(d) && #[trigger] self.points_to(d, q) ==> listed(result, q),
            forall|k: int| 0 <= k < roots.len() && roots[k] != 0 ==> listed(result, #[trigger] roots[k] as int),
        ensures
            forall|x: int| #[trigger] listed(result, x) <==> self.reaches(roots, x),
    {
        let s = listed_set(result);
        assert forall|d: int, q: int| s.contains(d) && #[trigger] self.points_to(d, q) implies s.contains(q) by {
            assert(listed(result, d));
            assert(done.contains(d));
        }
        assert forall|x: int| #[trigger] listed(result, x) <==> self.reaches(roots, x) by {
            if self.reaches(roots, x) {
                self.lemma_reached_in_closed(roots, s, x);
            }
        }
    }
}

impl ObjectAllocator {
    /// The addresses held by the reference slots of the objects `objs`, object
    /// by object.
    pub open spec fn refs_all(&self, objs: Seq<usize>) -> Seq<usize>
        decreases objs.len(),
    {
        if objs.len() == 0 {
            Seq::empty()
        } else {
            self.refs_all(objs.drop_last()) + self.ref_slots(objs.last() as int).map_values(|e: (usize, usize)| e.0)
        }
    }

    /// The addresses held by the reference slots of each object of `obj_starts`.
    pub fn pointers_all(&self, obj_starts: &Vec<usize>) -> (r: Result<Vec<usize>, crate::errors::GCError>)
        requires
            self.wf(),
        ensures
            !self.allocator.available ==> r == Err::<Vec<usize>, crate::errors::GCError>(crate::errors::GCError::AllocatorClosed),
            r matches Ok(v) ==> v@ == self.refs_all(obj_starts@) && forall|i: int|
                0 <= i < obj_starts@.len() ==> self.valid_object(#[trigger] obj_starts@[i] as int),
            self.allocator.available ==> (r is Err <==> exists|i: int| 0 <= i < obj_starts@.len() && !self.valid_object(#[trigger] obj_starts@[i] as int)),
            self.allocator.available ==> (r matches Err(e) ==> e matches crate::errors::GCError::InvalidObject(q) && !self.valid_object(q as int)),
    {
        if !self.allocator.available {
            return Err(crate::errors::GCError::AllocatorClosed);
        }
        let mut out: Vec<usize> = Vec::new();
        let mut i: usize = 0;
        while i < obj_starts.len()
            invariant
                self.wf(),
                self.allocator.available,
                i <= obj_starts@.len(),
                out@ == self.refs_all(obj_starts@.take(i as int)),
                forall|k: int| 0 <= k < i ==> self.valid_object(#[trigger] obj_starts@[k] as int),
            decreases obj_starts@.len() - i,
        {
            let o = obj_starts[i];
            let ptrs = match self.pointers(o) {
                Ok(v) => v,
                Err(e) => {
                    return Err(e);
                },
            };
            let ghost before = out@;
            let mut j: usize = 0;
            while j < ptrs.len()
                invariant
                    j <= ptrs@.len(),
                    out@ == before + ptrs@.take(j as int).map_values(|e: (usize, usize)| e.0),
                decreases ptrs@.len() - j,
            {
                out.push(ptrs[j].0);
                j = j + 1;
                proof {
                    assert(out@ =~= before + ptrs@.take(j as int).map_values(|e: (usize, usize)| e.0));
                }
            }
            proof {
                assert(ptrs@.take(ptrs@.len() as int) =~= ptrs@);
                assert(obj_starts@.take(i as int + 1).drop_last() =~= obj_starts@.take(i as int));
            }
            i = i + 1;
        }
        proof {
            assert(obj_starts@.take(obj_starts@.len() as int) =~= obj_starts@);
        }
        Ok(out)
    }
}

/// Stores `image` in consecutive words from the word-aligned address `h` on.
fn write_image(heap: &mut HeapAllocator, h: usize, image: &Vec<u64>)
    requires
        old(heap).wf(),
        old(heap).available,
        h % WORD_SIZE == 0,
        h >= HEAP_BASE,
        h + WORD_SIZE * image@.len() <= HEAP_BASE + old(heap).extent,
    ensures
        final(heap).wf(),
        final(heap).available,
        final(heap).extent == old(heap).extent,
        final(heap).size == old(heap).size,
        final(heap).regions() == old(heap).regions(),
        final(heap).words().len() == old(heap).words().len(),
        forall|j: int|
            0 <= j < old(heap).words().len() ==> #[trigger] final(heap).words()[j] == if word_index(h as int) <= j
                < word_index(h as int) + image@.len() {
                image@[j - word_index(h as int)]
            } else {
                old(heap).words()[j]
            },
{
    let ghost old_words = heap.words();
    let mut k: usize = 0;
    while k < image.len()
        invariant
            heap.wf(),
            heap.available,
            heap.extent == old(heap).extent,
            heap.size == old(heap).size,
            heap.regions() == old(heap).regions(),
            heap.words().len() == old_words.len(),
            h % WORD_SIZE == 0,
            h >= HEAP_BASE,
            h + WORD_SIZE * image@.len() <= HEAP_BASE + heap.extent,
            k <= image@.len(),
            forall|j: int|
                0 <= j < old_words.len() ==> #[trigger] heap.words()[j] == if word_index(h as int) <= j < word_index(
                    h as int,
                ) + k {
                    image@[j - word_index(h as int)]
                } else {
                    old_words[j]
                },
        decreases image@.len() - k,
    {
        proof {
            lemma_slot_index(h as int, k as int);
            heap.lemma_wf();
        }
        let a = h + WORD_SIZE * k;
        heap.write_word(a, image[k]);
        k = k + 1;
    }
}

/// Writing outside the bytes of the existing objects, and growing regions and
/// the schema store, leaves every existing object as it was.
proof fn lemma_frame(old_oa: ObjectAllocator, new_oa: ObjectAllocator, lo: int, hi: int, i: int, h: int)
    requires
        old_oa.allocator.wf(),
        new_oa.allocator.wf(),
        old_oa.allocator.available,
        new_oa.allocator.available,
        old_oa.schemas@.len() <= new_oa.schemas@.len(),
        forall|j: int| 0 <= j < old_oa.schemas@.len() ==> (#[trigger] new_oa.schemas@[j])@ == old_oa.schemas@[j]@,
        old_oa.allocator.regions().len() <= new_oa.allocator.regions().len(),
        forall|r: int|
            0 <= r < old_oa.allocator.regions().len() ==> {
                let a = old_oa.allocator.regions()[r];
                let b = #[trigger] new_oa.allocator.regions()[r];
                &&& b.start == a.start
                &&& b.size == a.size
                &&& a.unallocated_start <= b.unallocated_start
            },
        old_oa.allocator.extent <= new_oa.allocator.extent,
        forall|a: int|
            #![trigger new_oa.word(a)]
            old_oa.allocator.in_heap(a) && a % WORD_SIZE as int == 0 && (a < lo || hi <= a) ==> new_oa.word(a)
                == old_oa.word(a),
        forall|r: int|
            0 <= r < old_oa.allocator.regions().len() && r != i ==> old_oa.allocator.regions()[r].end() <= lo
                || hi <= old_oa.allocator.regions()[r].start,
        0 <= i < old_oa.allocator.regions().len() ==> old_oa.allocator.regions()[i].unallocated_start <= lo,
        old_oa.valid_object(h),
    ensures
        new_oa.valid_object(h),
        new_oa.object_schema(h) == old_oa.object_schema(h),
        new_oa.object_values(h) == old_oa.object_values(h),
        new_oa.object_data(h) == old_oa.object_data(h),
{
    let oh = old_oa.allocator;
    let nh = new_oa.allocator;
    let r = oh.region_of(h);
    oh.lemma_wf();
    nh.lemma_wf();
    assert(oh.regions()[r].wf());
    let s = old_oa.object_schema(h);
    let total = total_size(s);
    // every word of the object lies below the cursor of its region, away from [lo, hi)
    assert forall|k: int| 0 <= k < total / WORD_SIZE as int implies #[trigger] new_oa.word(slot_addr(h, k))
        == old_oa.word(slot_addr(h, k)) by {
        oh.lemma_ordered(r, r);
        lemma_slot_index(h, k);
        assert(slot_addr(h, k) < h + total) by (nonlinear_arith)
            requires 0 <= k < total / 8, total >= 0;
        oh.lemma_unique(r, r, h);
        oh.lemma_ordered(r, r);
        if r != i {
            assert(oh.regions()[r].end() <= lo || hi <= oh.regions()[r].start);
        }
        assert(oh.in_heap(slot_addr(h, k)));
    }
    assert(total == 24 + 8 * slot_kinds(s).len());
    assert(total / 8 == 3 + slot_kinds(s).len());
    assert(new_oa.word(slot_addr(h, 2)) == old_oa.word(slot_addr(h, 2)));
    assert(new_oa.word(slot_addr(h, 0)) == old_oa.word(slot_addr(h, 0)));
    assert(new_oa.word(slot_addr(h, 1)) == old_oa.word(slot_addr(h, 1)));
    assert(slot_addr(h, 0) == h);
    assert(new_oa.object_schema(h) == s);
    assert(nh.holds(r, h));
    nh.lemma_unique(r, r, h);
    assert(new_oa.object_values(h) =~= old_oa.object_values(h)) by {
        assert forall|k: int| 0 <= k < slot_kinds(s).len() implies #[trigger] new_oa.object_values(h)[k]
            == old_oa.object_values(h)[k] by {
            assert(0 <= 3 + k < total / 8);
            assert(new_oa.word(slot_addr(h, 3 + k)) == old_oa.word(slot_addr(h, 3 + k)));
        }
    }
}

/// Field values that pass the field check match their slots' kinds.
proof fn lemma_field_error_none(kinds: Seq<TypeKind>, vals: Seq<Value>)
    requires
        kinds.len() == vals.len(),
        field_error(kinds, vals) is None,
    ensures
        forall|k: int| 0 <= k < kinds.len() ==> is_primitive(kinds[k]) && value_kind(#[trigger] vals[k]) == kinds[k],
    decreases kinds.len(),
{
    if kinds.len() > 0 {
        lemma_field_error_none(kinds.drop_first(), vals.drop_first());
        assert forall|k: int| 0 <= k < kinds.len() implies is_primitive(kinds[k]) && value_kind(#[trigger] vals[k])
            == kinds[k] by {
            if k > 0 {
                assert(kinds[k] == kinds.drop_first()[k - 1]);
                assert(vals[k] == vals.drop_first()[k - 1]);
            }
        }
    }
}

/// Why field values `vals` cannot fill slots of kinds `kinds`, as `field_error` states.
fn check_fields(kinds: &Vec<TypeKind>, vals: &Vec<Value>) -> (r: Option<AllocatorError>)
    requires
        kinds@.len() == vals@.len(),
    ensures
        r == field_error(kinds@, vals@),
{
    let mut i: usize = 0;
    proof {
        assert(kinds@.skip(0) =~= kinds@);
        assert(vals@.skip(0) =~= vals@);
    }
    while i < kinds.len()
        invariant
            i <= kinds@.len(),
            kinds@.len() == vals@.len(),
            field_error(kinds@, vals@) == field_error(kinds@.skip(i as int), vals@.skip(i as int)),
        decreases kinds@.len() - i,
    {
        let k = kinds[i];
        proof {
            assert(kinds@.skip(i as int)[0] == k);
            assert(vals@.skip(i as int)[0] == vals@[i as int]);
            assert(kinds@.skip(i as int).drop_first() =~= kinds@.skip(i as int + 1));
            assert(vals@.skip(i as int).drop_first() =~= vals@.skip(i as int + 1));
        }
        if !k.is_primitive() {
            return Some(AllocatorError::UnsupportedFieldKind);
        }
        if kind_of(&vals[i]) != k {
            return Some(AllocatorError::DataReadFailed);
        }
        i = i + 1;
    }
    None
}

/// Why `data` cannot be written under `schema`, as `write_error` states.
fn check_write(schema: &Schema, kinds: &Vec<TypeKind>, data: &Data) -> (r: Option<AllocatorError>)
    requires
        schema.ok(),
        kinds@ == slot_kinds(schema@),
    ensures
        r == write_error(schema@, data@),
{
    let scalar = match schema {
        Schema::Product(_) | Schema::Record(_) | Schema::Sum(_) => false,
        _ => true,
    };
    match data {
        Data::Scalar(v) => {
            if scalar && kind_of(v) == schema.kind() {
                None
            } else {
                Some(AllocatorError::DataReadFailed)
            }
        },
        Data::Fields(vs) => {
            if scalar {
                Some(AllocatorError::DataReadFailed)
            } else if vs.len() != kinds.len() {
                Some(AllocatorError::SizeMismatch)
            } else {
                check_fields(kinds, vs)
            }
        },
    }
}

/// The words of an object: header, then one word per field value.
fn object_image(sig: usize, total: usize, schema_index: usize, vals: &Vec<Value>) -> (r: Vec<u64>)
    ensures
        r@.len() == 3 + vals@.len(),
        r@[0] == sig as u64,
        r@[1] == total as u64,
        r@[2] == schema_index as u64,
        forall|k: int| 0 <= k < vals@.len() ==> #[trigger] r@[3 + k] == encode(vals@[k]),
{
    let mut image: Vec<u64> = Vec::new();
    image.push(sig as u64);
    image.push(total as u64);
    image.push(schema_index as u64);
    let mut k: usize = 0;
    while k < vals.len()
        invariant
            k <= vals@.len(),
            image@.len() == 3 + k,
            image@[0] == sig as u64,
            image@[1] == total as u64,
            image@[2] == schema_index as u64,
            forall|j: int| 0 <= j < k ==> #[trigger] image@[3 + j] == encode(vals@[j]),
        decreases vals@.len() - k,
    {
        image.push(encode_value(vals[k]));
        k = k + 1;
    }
    image
}

} // verus!
