//! Type schemas: what an object's payload holds and where each field lies.
//!
//! Every primitive slot is one word wide and word aligned, which is what the
//! collector relies on when it reads reference slots.
use vstd::prelude::*;
use crate::type_sig::TypeKind;

verus! {

/// Bytes in a machine word.
pub const WORD_SIZE: usize = 8;

/// Bytes in an object header: signature, total size and schema handle.
pub const HEADER_SIZE: usize = 24;

/// The largest payload, in bytes, that an object may have.
pub const MAX_PAYLOAD: usize = 134217728;

/// Size and alignment of one payload slot of kind `k`: a word in each case.
pub open spec fn kind_size(k: TypeKind) -> nat {
    WORD_SIZE as nat
}

/// `x` rounded up to a multiple of `a`.
pub open spec fn align_up(x: int, a: int) -> int
    recommends
        a > 0,
{
    if x % a == 0 {
        x
    } else {
        x + (a - x % a)
    }
}

/// Offsets of the fields of a product laid out in declaration order, each field at
/// `align_up(end of the previous one, its alignment)`.
pub open spec fn product_offsets(fields: Seq<TypeKind>) -> Seq<int>
    decreases fields.len(),
{
    if fields.len() == 0 {
        Seq::empty()
    } else {
        let prev = product_offsets(fields.drop_last());
        let end = if fields.len() == 1 {
            0
        } else {
            prev.last() + kind_size(fields[fields.len() - 2]) as int
        };
        prev.push(align_up(end, kind_size(fields.last()) as int))
    }
}

/// Payload size of a product: the last field's offset plus its size.
pub open spec fn product_size(fields: Seq<TypeKind>) -> nat {
    if fields.len() == 0 {
        0
    } else {
        (product_offsets(fields).last() + kind_size(fields.last())) as nat
    }
}

/// In this layout field `i` of a product sits at word `i`.
pub proof fn lemma_product_offsets(fields: Seq<TypeKind>)
    ensures
        product_offsets(fields).len() == fields.len(),
        forall|i: int| 0 <= i < fields.len() ==> #[trigger] product_offsets(fields)[i] == WORD_SIZE * i,
        product_size(fields) == WORD_SIZE * fields.len(),
    decreases fields.len(),
{
    if fields.len() > 0 {
        lemma_product_offsets(fields.drop_last());
        let n = fields.len() as int;
        if n > 1 {
            assert(product_offsets(fields.drop_last()).last() == WORD_SIZE * (n - 2));
        }
        assert((WORD_SIZE * (n - 1)) % 8 == 0) by (nonlinear_arith);
    }
}

/// Reported by every schema node: its payload size, alignment and kind.
pub trait TypeInfo {
    spec fn layout_size(&self) -> nat;

    spec fn layout_alignment(&self) -> nat;

    spec fn type_kind(&self) -> TypeKind;

    /// The payload size fits a machine word, with room for the header.
    spec fn layout_ok(&self) -> bool;

    fn size(&self) -> (r: usize)
        requires
            self.layout_ok(),
        ensures
            r == self.layout_size(),
    ;

    fn alignment(&self) -> (r: usize)
        requires
            self.layout_ok(),
        ensures
            r == self.layout_alignment(),
    ;

    fn kind(&self) -> (r: TypeKind)
        ensures
            r == self.type_kind(),
    ;
}

#[derive(Debug, Clone, Copy)]
pub struct NatType;

#[derive(Debug, Clone, Copy)]
pub struct IntType;

#[derive(Debug, Clone, Copy)]
pub struct DoubleType;

#[derive(Debug, Clone, Copy)]
pub struct CharType;

#[derive(Debug, Clone, Copy)]
pub struct BoolType;

/// A reference, with the signature of the kind it points to.
#[derive(Debug, Clone, Copy)]
pub struct ReferenceType(pub usize);

impl TypeInfo for NatType {
    open spec fn layout_size(&self) -> nat { WORD_SIZE as nat }
    open spec fn layout_alignment(&self) -> nat { WORD_SIZE as nat }
    open spec fn type_kind(&self) -> TypeKind { TypeKind::Nat }
    open spec fn layout_ok(&self) -> bool { true }
    fn size(&self) -> (r: usize) { WORD_SIZE }
    fn alignment(&self) -> (r: usize) { WORD_SIZE }
    fn kind(&self) -> (r: TypeKind) { TypeKind::Nat }
}

impl TypeInfo for IntType {
    open spec fn layout_size(&self) -> nat { WORD_SIZE as nat }
    open spec fn layout_alignment(&self) -> nat { WORD_SIZE as nat }
    open spec fn type_kind(&self) -> TypeKind { TypeKind::Int }
    open spec fn layout_ok(&self) -> bool { true }
    fn size(&self) -> (r: usize) { WORD_SIZE }
    fn alignment(&self) -> (r: usize) { WORD_SIZE }
    fn kind(&self) -> (r: TypeKind) { TypeKind::Int }
}

impl TypeInfo for DoubleType {
    open spec fn layout_size(&self) -> nat { WORD_SIZE as nat }
    open spec fn layout_alignment(&self) -> nat { WORD_SIZE as nat }
    open spec fn type_kind(&self) -> TypeKind { TypeKind::Double }
    open spec fn layout_ok(&self) -> bool { true }
    fn size(&self) -> (r: usize) { WORD_SIZE }
    fn alignment(&self) -> (r: usize) { WORD_SIZE }
    fn kind(&self) -> (r: TypeKind) { TypeKind::Double }
}

impl TypeInfo for CharType {
    open spec fn layout_size(&self) -> nat { WORD_SIZE as nat }
    open spec fn layout_alignment(&self) -> nat { WORD_SIZE as nat }
    open spec fn type_kind(&self) -> TypeKind { TypeKind::Char }
    open spec fn layout_ok(&self) -> bool { true }
    fn size(&self) -> (r: usize) { WORD_SIZE }
    fn alignment(&self) -> (r: usize) { WORD_SIZE }
    fn kind(&self) -> (r: TypeKind) { TypeKind::Char }
}

impl TypeInfo for BoolType {
    open spec fn layout_size(&self) -> nat { WORD_SIZE as nat }
    open spec fn layout_alignment(&self) -> nat { WORD_SIZE as nat }
    open spec fn type_kind(&self) -> TypeKind { TypeKind::Bool }
    open spec fn layout_ok(&self) -> bool { true }
    fn size(&self) -> (r: usize) { WORD_SIZE }
    fn alignment(&self) -> (r: usize) { WORD_SIZE }
    fn kind(&self) -> (r: TypeKind) { TypeKind::Bool }
}

impl TypeInfo for ReferenceType {
    open spec fn layout_size(&self) -> nat { WORD_SIZE as nat }
    open spec fn layout_alignment(&self) -> nat { WORD_SIZE as nat }
    open spec fn type_kind(&self) -> TypeKind { TypeKind::Reference }
    open spec fn layout_ok(&self) -> bool { true }
    fn size(&self) -> (r: usize) { WORD_SIZE }
    fn alignment(&self) -> (r: usize) { WORD_SIZE }
    fn kind(&self) -> (r: TypeKind) { TypeKind::Reference }
}

/// A tuple: fields laid out in declaration order.
#[derive(Debug, Clone)]
pub struct ProductType(pub Vec<TypeKind>);

/// Offsets of `fields` laid out in order, as `product_offsets` states.
fn offsets_in_order(fields: &Vec<TypeKind>) -> (r: Vec<usize>)
    requires
        fields.len() * WORD_SIZE <= MAX_PAYLOAD,
    ensures
        r@.len() == fields@.len(),
        forall|i: int| 0 <= i < r@.len() ==> r@[i] == product_offsets(fields@)[i],
{
    proof {
        lemma_product_offsets(fields@);
    }
    let mut table: Vec<usize> = Vec::new();
    if fields.len() == 0 {
        return table;
    }
    let mut offset: usize = 0;
    table.push(offset);
    offset = offset + WORD_SIZE;
    let mut i: usize = 1;
    while i < fields.len()
        invariant
            1 <= i <= fields.len(),
            fields.len() * WORD_SIZE <= MAX_PAYLOAD,
            table@.len() == i,
            offset == WORD_SIZE * i,
            forall|j: int| 0 <= j < i ==> table@[j] == WORD_SIZE * j,
        decreases fields.len() - i,
    {
        let align = WORD_SIZE;
        let padding_discriminant = offset % align;
        let padding = if padding_discriminant == 0 { 0 } else { align - padding_discriminant };
        assert((WORD_SIZE * i) % 8 == 0) by (nonlinear_arith);
        offset = offset + padding;
        table.push(offset);
        offset = offset + WORD_SIZE;
        i = i + 1;
    }
    table
}

impl ProductType {
    pub open spec fn fits(&self) -> bool {
        self.0.len() * WORD_SIZE <= MAX_PAYLOAD
    }

    /// The offset of each field within the payload.
    pub fn alignment_table(&self) -> (r: Vec<usize>)
        requires
            self.fits(),
        ensures
            r@.len() == self.0@.len(),
            forall|i: int| 0 <= i < r@.len() ==> r@[i] == product_offsets(self.0@)[i],
            forall|i: int| 0 <= i < r@.len() ==> r@[i] == WORD_SIZE * i,
    {
        proof {
            lemma_product_offsets(self.0@);
        }
        offsets_in_order(&self.0)
    }
}

impl TypeInfo for ProductType {
    open spec fn layout_size(&self) -> nat { product_size(self.0@) }
    open spec fn layout_alignment(&self) -> nat {
        if self.0.len() == 0 { 0 } else { WORD_SIZE as nat }
    }
    open spec fn type_kind(&self) -> TypeKind { TypeKind::Product }
    open spec fn layout_ok(&self) -> bool { self.fits() }

    fn size(&self) -> (r: usize) {
        proof {
            lemma_product_offsets(self.0@);
        }
        if self.0.len() == 0 {
            0
        } else {
            let table = self.alignment_table();
            table[table.len() - 1] + WORD_SIZE
        }
    }

    fn alignment(&self) -> (r: usize) {
        if self.0.len() == 0 { 0 } else { WORD_SIZE }
    }

    fn kind(&self) -> (r: TypeKind) { TypeKind::Product }
}

/// A record: named fields, grouped by descending alignment. Every slot of this
/// layout has one alignment, so the grouping keeps declaration order.
#[derive(Debug, Clone)]
pub struct RecordType(pub Vec<(String, TypeKind)>);

impl RecordType {
    pub open spec fn kinds(&self) -> Seq<TypeKind> {
        self.0@.map_values(|f: (String, TypeKind)| f.1)
    }

    pub open spec fn fits(&self) -> bool {
        self.0.len() * WORD_SIZE <= MAX_PAYLOAD
    }

    /// The field kinds, in declaration order.
    pub fn field_kinds(&self) -> (r: Vec<TypeKind>)
        ensures
            r@ == self.kinds(),
    {
        let mut r: Vec<TypeKind> = Vec::new();
        let mut i: usize = 0;
        while i < self.0.len()
            invariant
                i <= self.0.len(),
                r@ == self.kinds().take(i as int),
            decreases self.0.len() - i,
        {
            r.push(self.0[i].1);
            i = i + 1;
            assert(r@ =~= self.kinds().take(i as int));
        }
        assert(r@ =~= self.kinds());
        r
    }

    /// The offset of each field within the payload, in declaration order.
    pub fn alignment_table(&self) -> (r: Vec<usize>)
        requires
            self.fits(),
        ensures
            r@.len() == self.0@.len(),
            forall|i: int| 0 <= i < r@.len() ==> r@[i] == product_offsets(self.kinds())[i],
            forall|i: int| 0 <= i < r@.len() ==> r@[i] == WORD_SIZE * i,
    {
        proof {
            lemma_product_offsets(self.kinds());
        }
        let kinds = self.field_kinds();
        offsets_in_order(&kinds)
    }
}

impl TypeInfo for RecordType {
    open spec fn layout_size(&self) -> nat { product_size(self.kinds()) }
    open spec fn layout_alignment(&self) -> nat {
        if self.0.len() == 0 { 0 } else { WORD_SIZE as nat }
    }
    open spec fn type_kind(&self) -> TypeKind { TypeKind::Record }
    open spec fn layout_ok(&self) -> bool { self.fits() }

    fn size(&self) -> (r: usize) {
        proof {
            lemma_product_offsets(self.kinds());
        }
        if self.0.len() == 0 {
            0
        } else {
            let table = self.alignment_table();
            table[table.len() - 1] + WORD_SIZE
        }
    }

    fn alignment(&self) -> (r: usize) {
        if self.0.len() == 0 { 0 } else { WORD_SIZE }
    }

    fn kind(&self) -> (r: TypeKind) { TypeKind::Record }
}

/// A tagged union: named cases, each a product, and the case that is live.
#[derive(Debug, Clone)]
pub struct SumType {
    pub cases: Vec<(String, ProductType)>,
    pub selected: usize,
}

impl SumType {
    pub open spec fn wf(&self) -> bool {
        self.selected < self.cases.len()
    }

    /// The fields of the live case.
    pub open spec fn live_fields(&self) -> Seq<TypeKind> {
        self.cases@[self.selected as int].1.0@
    }

    pub open spec fn fits(&self) -> bool {
        self.wf() && self.cases@[self.selected as int].1.fits()
    }

    /// The offsets of the live case's fields.
    pub fn alignment_table(&self) -> (r: Vec<usize>)
        requires
            self.fits(),
        ensures
            r@.len() == self.live_fields().len(),
            forall|i: int| 0 <= i < r@.len() ==> r@[i] == WORD_SIZE * i,
    {
        self.cases[self.selected].1.alignment_table()
    }
}

impl TypeInfo for SumType {
    open spec fn layout_size(&self) -> nat { product_size(self.live_fields()) }
    open spec fn layout_alignment(&self) -> nat {
        if self.live_fields().len() == 0 { 0 } else { WORD_SIZE as nat }
    }
    open spec fn type_kind(&self) -> TypeKind { TypeKind::Sum }
    open spec fn layout_ok(&self) -> bool { self.fits() }

    fn size(&self) -> (r: usize) {
        self.cases[self.selected].1.size()
    }

    fn alignment(&self) -> (r: usize) {
        self.cases[self.selected].1.alignment()
    }

    fn kind(&self) -> (r: TypeKind) { TypeKind::Sum }
}

/// Total in-heap size of an object with a payload of `data_size` bytes.
pub fn object_size(data_size: usize) -> (r: usize)
    requires
        data_size <= MAX_PAYLOAD,
    ensures
        r == HEADER_SIZE + data_size,
{
    HEADER_SIZE + data_size
}

} // verus!
