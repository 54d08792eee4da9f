//! Objects in the heap: a three-word header followed by one word per field.
use vstd::prelude::*;
use crate::type_info::{
    BoolType, CharType, DoubleType, IntType, NatType, ProductType, RecordType, ReferenceType,
    SumType, TypeInfo, HEADER_SIZE, MAX_PAYLOAD, WORD_SIZE,
};
use crate::type_sig::{is_primitive, kind_sig, sig_name, sig_valid, TypeKind, TypeSig};
use vstd::string::StringExecFns;

verus! {

/// The value held in one payload slot. A double is carried as its IEEE-754 bits,
/// a character as its code point.
#[derive(Debug, Clone, Copy, PartialEq, Eq, Structural)]
pub enum Value {
    Nat(u64),
    Int(i64),
    Double(u64),
    Char(u32),
    Bool(bool),
    Reference(usize),
}

pub open spec fn value_kind(v: Value) -> TypeKind {
    match v {
        Value::Nat(_) => TypeKind::Nat,
        Value::Int(_) => TypeKind::Int,
        Value::Double(_) => TypeKind::Double,
        Value::Char(_) => TypeKind::Char,
        Value::Bool(_) => TypeKind::Bool,
        Value::Reference(_) => TypeKind::Reference,
    }
}

/// The word that stores `v`.
pub open spec fn encode(v: Value) -> u64 {
    match v {
        Value::Nat(n) => n,
        Value::Int(i) => i as u64,
        Value::Double(bits) => bits,
        Value::Char(c) => c as u64,
        Value::Bool(b) => if b { 1 } else { 0 },
        Value::Reference(a) => a as u64,
    }
}

/// The value of kind `k` that the word `w` stores. No slot holds a composite;
/// such a word reads as a plain word.
pub open spec fn decode(k: TypeKind, w: u64) -> Value {
    match k {
        TypeKind::Nat => Value::Nat(w),
        TypeKind::Int => Value::Int(w as i64),
        TypeKind::Double => Value::Double(w),
        TypeKind::Char => Value::Char(w as u32),
        TypeKind::Bool => Value::Bool(w != 0),
        TypeKind::Reference => Value::Reference(w as usize),
        _ => Value::Nat(w),
    }
}

/// Decoding a word as the kind it was encoded from gives the value back.
pub proof fn lemma_decode_encode(v: Value)
    ensures
        decode(value_kind(v), encode(v)) == v,
{
    match v {
        Value::Int(i) => {
            assert((i as u64) as i64 == i) by (bit_vector);
        },
        Value::Char(c) => {
            assert((c as u64) as u32 == c) by (bit_vector);
        },
        Value::Reference(a) => {
            assert((a as u64) as usize == a) by (bit_vector);
        },
        _ => {},
    }
}

pub fn encode_value(v: Value) -> (r: u64)
    ensures
        r == encode(v),
{
    match v {
        Value::Nat(n) => n,
        Value::Int(i) => i as u64,
        Value::Double(bits) => bits,
        Value::Char(c) => c as u64,
        Value::Bool(b) => if b { 1 } else { 0 },
        Value::Reference(a) => a as u64,
    }
}

pub fn decode_value(k: TypeKind, w: u64) -> (r: Value)
    ensures
        r == decode(k, w),
{
    match k {
        TypeKind::Nat => Value::Nat(w),
        TypeKind::Int => Value::Int(w as i64),
        TypeKind::Double => Value::Double(w),
        TypeKind::Char => Value::Char(w as u32),
        TypeKind::Bool => Value::Bool(w != 0),
        TypeKind::Reference => Value::Reference(w as usize),
        _ => Value::Nat(w),
    }
}

/// The kind of a value.
pub fn kind_of(v: &Value) -> (r: TypeKind)
    ensures
        r == value_kind(*v),
{
    match v {
        Value::Nat(_) => TypeKind::Nat,
        Value::Int(_) => TypeKind::Int,
        Value::Double(_) => TypeKind::Double,
        Value::Char(_) => TypeKind::Char,
        Value::Bool(_) => TypeKind::Bool,
        Value::Reference(_) => TypeKind::Reference,
    }
}

/// The schema of an object.
#[derive(Debug)]
pub enum Schema {
    Nat(NatType),
    Int(IntType),
    Double(DoubleType),
    Char(CharType),
    Bool(BoolType),
    Reference(ReferenceType),
    Product(ProductType),
    Record(RecordType),
    Sum(SumType),
}

/// A schema as a mathematical value.
pub enum SchemaView {
    /// A primitive kind; for a reference, also the signature of what it points to.
    Scalar(TypeKind, usize),
    Product(Seq<TypeKind>),
    Record(Seq<(Seq<char>, TypeKind)>),
    Sum(Seq<(Seq<char>, Seq<TypeKind>)>, nat),
}

impl View for Schema {
    type V = SchemaView;

    open spec fn view(&self) -> SchemaView {
        match self {
            Schema::Nat(_) => SchemaView::Scalar(TypeKind::Nat, 0),
            Schema::Int(_) => SchemaView::Scalar(TypeKind::Int, 0),
            Schema::Double(_) => SchemaView::Scalar(TypeKind::Double, 0),
            Schema::Char(_) => SchemaView::Scalar(TypeKind::Char, 0),
            Schema::Bool(_) => SchemaView::Scalar(TypeKind::Bool, 0),
            Schema::Reference(r) => SchemaView::Scalar(TypeKind::Reference, r.0),
            Schema::Product(p) => SchemaView::Product(p.0@),
            Schema::Record(r) => SchemaView::Record(r.0@.map_values(|f: (String, TypeKind)| (f.0@, f.1))),
            Schema::Sum(s) => SchemaView::Sum(
                s.cases@.map_values(|c: (String, ProductType)| (c.0@, c.1.0@)),
                s.selected as nat,
            ),
        }
    }
}

/// The kind of object that a schema describes.
pub open spec fn schema_kind(s: SchemaView) -> TypeKind {
    match s {
        SchemaView::Scalar(k, _) => k,
        SchemaView::Product(_) => TypeKind::Product,
        SchemaView::Record(_) => TypeKind::Record,
        SchemaView::Sum(_, _) => TypeKind::Sum,
    }
}

/// The kinds of the payload slots, in layout order.
pub open spec fn slot_kinds(s: SchemaView) -> Seq<TypeKind> {
    match s {
        SchemaView::Scalar(k, _) => seq![k],
        SchemaView::Product(f) => f,
        SchemaView::Record(f) => f.map_values(|x: (Seq<char>, TypeKind)| x.1),
        SchemaView::Sum(c, sel) => c[sel as int].1,
    }
}

/// A schema that can be laid out: a scalar kind, or a composite within the
/// size bound whose selected case exists.
pub open spec fn schema_ok(s: SchemaView) -> bool {
    &&& match s {
        SchemaView::Scalar(k, _) => is_primitive(k),
        SchemaView::Sum(c, sel) => sel < c.len(),
        _ => true,
    }
    &&& slot_kinds(s).len() * WORD_SIZE <= MAX_PAYLOAD
}

/// Total in-heap size of an object of schema `s`.
pub open spec fn total_size(s: SchemaView) -> int {
    HEADER_SIZE + WORD_SIZE * slot_kinds(s).len()
}

impl Schema {
    pub open spec fn ok(&self) -> bool {
        schema_ok(self@)
    }

    pub fn kind(&self) -> (r: TypeKind)
        ensures
            r == schema_kind(self@),
    {
        match self {
            Schema::Nat(t) => t.kind(),
            Schema::Int(t) => t.kind(),
            Schema::Double(t) => t.kind(),
            Schema::Char(t) => t.kind(),
            Schema::Bool(t) => t.kind(),
            Schema::Reference(t) => t.kind(),
            Schema::Product(t) => t.kind(),
            Schema::Record(t) => t.kind(),
            Schema::Sum(t) => t.kind(),
        }
    }

    /// Whether the schema can be laid out.
    pub fn check(&self) -> (r: bool)
        ensures
            r == self.ok(),
    {
        match self {
            Schema::Product(p) => p.0.len() <= MAX_PAYLOAD / WORD_SIZE,
            Schema::Record(t) => {
                proof {
                    assert(slot_kinds(self@).len() == t.0@.len());
                }
                t.0.len() <= MAX_PAYLOAD / WORD_SIZE
            },
            Schema::Sum(t) => {
                if t.selected >= t.cases.len() {
                    false
                } else {
                    proof {
                        assert(slot_kinds(self@) == t.cases@[t.selected as int].1.0@);
                    }
                    t.cases[t.selected].1.0.len() <= MAX_PAYLOAD / WORD_SIZE
                }
            },
            _ => true,
        }
    }

    /// The kinds of the payload slots, in layout order.
    pub fn slot_kinds(&self) -> (r: Vec<TypeKind>)
        requires
            self.ok(),
        ensures
            r@ == slot_kinds(self@),
    {
        match self {
            Schema::Product(p) => copy_kinds(&p.0),
            Schema::Record(t) => {
                let r = t.field_kinds();
                proof {
                    assert(r@ =~= slot_kinds(self@));
                }
                r
            },
            Schema::Sum(t) => copy_kinds(&t.cases[t.selected].1.0),
            _ => {
                let mut r: Vec<TypeKind> = Vec::new();
                r.push(self.kind());
                proof {
                    assert(r@ =~= slot_kinds(self@));
                }
                r
            },
        }
    }

    /// The payload size that the schema reports.
    pub fn payload_size(&self) -> (r: usize)
        requires
            self.ok(),
        ensures
            r == WORD_SIZE * slot_kinds(self@).len(),
    {
        proof {
            crate::type_info::lemma_product_offsets(slot_kinds(self@));
        }
        match self {
            Schema::Nat(t) => t.size(),
            Schema::Int(t) => t.size(),
            Schema::Double(t) => t.size(),
            Schema::Char(t) => t.size(),
            Schema::Bool(t) => t.size(),
            Schema::Reference(t) => t.size(),
            Schema::Product(t) => t.size(),
            Schema::Record(t) => {
                proof {
                    assert(t.kinds() =~= slot_kinds(self@));
                }
                t.size()
            },
            Schema::Sum(t) => t.size(),
        }
    }

    /// A copy of the schema.
    pub fn duplicate(&self) -> (r: Schema)
        ensures
            r@ == self@,
    {
        match self {
            Schema::Nat(_) => Schema::Nat(NatType),
            Schema::Int(_) => Schema::Int(IntType),
            Schema::Double(_) => Schema::Double(DoubleType),
            Schema::Char(_) => Schema::Char(CharType),
            Schema::Bool(_) => Schema::Bool(BoolType),
            Schema::Reference(t) => Schema::Reference(ReferenceType(t.0)),
            Schema::Product(p) => Schema::Product(ProductType(copy_kinds(&p.0))),
            Schema::Record(t) => {
                let mut fields: Vec<(String, TypeKind)> = Vec::new();
                let mut i: usize = 0;
                while i < t.0.len()
                    invariant
                        i <= t.0.len(),
                        fields@.len() == i,
                        forall|j: int| 0 <= j < i ==> fields@[j].0@ == t.0@[j].0@ && fields@[j].1 == t.0@[j].1,
                    decreases t.0.len() - i,
                {
                    fields.push((t.0[i].0.clone(), t.0[i].1));
                    i = i + 1;
                }
                let r = Schema::Record(RecordType(fields));
                proof {
                    assert(fields@.map_values(|f: (String, TypeKind)| (f.0@, f.1)) =~= t.0@.map_values(
                        |f: (String, TypeKind)| (f.0@, f.1),
                    ));
                }
                r
            },
            Schema::Sum(t) => {
                let mut cases: Vec<(String, ProductType)> = Vec::new();
                let mut i: usize = 0;
                while i < t.cases.len()
                    invariant
                        i <= t.cases.len(),
                        cases@.len() == i,
                        forall|j: int|
                            0 <= j < i ==> cases@[j].0@ == t.cases@[j].0@ && cases@[j].1.0@ == t.cases@[j].1.0@,
                    decreases t.cases.len() - i,
                {
                    cases.push((t.cases[i].0.clone(), ProductType(copy_kinds(&t.cases[i].1.0))));
                    i = i + 1;
                }
                let r = Schema::Sum(SumType { cases, selected: t.selected });
                proof {
                    assert(cases@.map_values(|c: (String, ProductType)| (c.0@, c.1.0@)) =~= t.cases@.map_values(
                        |c: (String, ProductType)| (c.0@, c.1.0@),
                    ));
                }
                r
            },
        }
    }
}

/// A copy of a list of kinds.
fn copy_kinds(v: &Vec<TypeKind>) -> (r: Vec<TypeKind>)
    ensures
        r@ == v@,
{
    let mut r: Vec<TypeKind> = Vec::new();
    let mut i: usize = 0;
    while i < v.len()
        invariant
            i <= v.len(),
            r@ == v@.take(i as int),
        decreases v.len() - i,
    {
        r.push(v[i]);
        i = i + 1;
        assert(r@ =~= v@.take(i as int));
    }
    assert(r@ =~= v@);
    r
}

/// What an object holds: one value, or the values of its fields in layout order.
#[derive(Debug)]
pub enum Data {
    Scalar(Value),
    Fields(Vec<Value>),
}

pub enum DataView {
    Scalar(Value),
    Fields(Seq<Value>),
}

impl View for Data {
    type V = DataView;

    open spec fn view(&self) -> DataView {
        match self {
            Data::Scalar(v) => DataView::Scalar(*v),
            Data::Fields(vs) => DataView::Fields(vs@),
        }
    }
}

/// The values of the payload slots.
pub open spec fn data_values(d: DataView) -> Seq<Value> {
    match d {
        DataView::Scalar(v) => seq![v],
        DataView::Fields(vs) => vs,
    }
}

/// Why field values `vals` cannot be written into slots of kinds `kinds`, going
/// through the fields in order; `None` if they can.
pub open spec fn field_error(kinds: Seq<TypeKind>, vals: Seq<Value>) -> Option<crate::errors::AllocatorError>
    decreases kinds.len(),
{
    if kinds.len() == 0 || vals.len() == 0 {
        None
    } else if !is_primitive(kinds[0]) {
        Some(crate::errors::AllocatorError::UnsupportedFieldKind)
    } else if value_kind(vals[0]) != kinds[0] {
        Some(crate::errors::AllocatorError::DataReadFailed)
    } else {
        field_error(kinds.drop_first(), vals.drop_first())
    }
}

/// Why `d` cannot be written under schema `s`; `None` if it can.
pub open spec fn write_error(s: SchemaView, d: DataView) -> Option<crate::errors::AllocatorError> {
    match s {
        SchemaView::Scalar(k, _) => match d {
            DataView::Scalar(v) => if value_kind(v) == k {
                None
            } else {
                Some(crate::errors::AllocatorError::DataReadFailed)
            },
            _ => Some(crate::errors::AllocatorError::DataReadFailed),
        },
        _ => match d {
            DataView::Fields(vs) => if vs.len() != slot_kinds(s).len() {
                Some(crate::errors::AllocatorError::SizeMismatch)
            } else {
                field_error(slot_kinds(s), vs)
            },
            _ => Some(crate::errors::AllocatorError::DataReadFailed),
        },
    }
}

/// The display name of a kind.
pub open spec fn kind_name(k: TypeKind) -> Seq<char> {
    sig_name(kind_sig(k))
}

/// Kind names separated by `", "`.
pub open spec fn join_kinds(ks: Seq<TypeKind>) -> Seq<char>
    decreases ks.len(),
{
    if ks.len() == 0 {
        Seq::empty()
    } else if ks.len() == 1 {
        kind_name(ks[0])
    } else {
        join_kinds(ks.drop_last()) + ", "@ + kind_name(ks.last())
    }
}

/// `name: Kind` for each record field, separated by `", "`.
pub open spec fn join_fields(fs: Seq<(Seq<char>, TypeKind)>) -> Seq<char>
    decreases fs.len(),
{
    if fs.len() == 0 {
        Seq::empty()
    } else {
        let item = fs.last().0 + ": "@ + kind_name(fs.last().1);
        if fs.len() == 1 {
            item
        } else {
            join_fields(fs.drop_last()) + ", "@ + item
        }
    }
}

/// `name(Kinds)` for each case of a sum, separated by `", "`.
pub open spec fn join_cases(cs: Seq<(Seq<char>, Seq<TypeKind>)>) -> Seq<char>
    decreases cs.len(),
{
    if cs.len() == 0 {
        Seq::empty()
    } else {
        let item = cs.last().0 + "("@ + join_kinds(cs.last().1) + ")"@;
        if cs.len() == 1 {
            item
        } else {
            join_cases(cs.drop_last()) + ", "@ + item
        }
    }
}

/// The display name of a schema: `Int`, `&Int`, `(Int, Bool)`, `{a: Int}`,
/// `{Some(Int), None()}`.
pub open spec fn schema_name(s: SchemaView) -> Seq<char> {
    match s {
        SchemaView::Scalar(k, t) => if k == TypeKind::Reference {
            "&"@ + if sig_valid(t) { sig_name(t) } else { Seq::empty() }
        } else {
            kind_name(k)
        },
        SchemaView::Product(f) => "("@ + join_kinds(f) + ")"@,
        SchemaView::Record(f) => "{"@ + join_fields(f) + "}"@,
        SchemaView::Sum(c, _) => "{"@ + join_cases(c) + "}"@,
    }
}

/// Appends the names of `ks`, separated by `", "`.
fn append_kinds(out: &mut String, ks: &Vec<TypeKind>)
    ensures
        final(out)@ == old(out)@ + join_kinds(ks@),
{
    let ghost start = out@;
    let mut i: usize = 0;
    while i < ks.len()
        invariant
            i <= ks@.len(),
            out@ == start + join_kinds(ks@.take(i as int)),
        decreases ks@.len() - i,
    {
        proof {
            assert(ks@.take(i as int + 1).drop_last() =~= ks@.take(i as int));
            assert(ks@.take(i as int + 1).last() == ks@[i as int]);
        }
        if i > 0 {
            out.append(", ");
        }
        out.append(TypeSig::type_sig_to_string(ks[i].to_type_sig()));
        i = i + 1;
        proof {
            assert(out@ =~= start + join_kinds(ks@.take(i as int)));
        }
    }
    proof {
        assert(ks@.take(ks@.len() as int) =~= ks@);
    }
}

impl Schema {
    /// The schema's display name.
    pub fn name(&self) -> (r: String)
        ensures
            r@ == schema_name(self@),
    {
        let mut out = String::new();
        match self {
            Schema::Reference(t) => {
                out.append("&");
                if TypeSig::within_valid_range(t.0) {
                    out.append(TypeSig::type_sig_to_string(t.0));
                }
                proof {
                    assert(out@ =~= schema_name(self@));
                }
            },
            Schema::Product(p) => {
                out.append("(");
                append_kinds(&mut out, &p.0);
                out.append(")");
                proof {
                    assert(out@ =~= schema_name(self@));
                }
            },
            Schema::Record(rt) => {
                out.append("{");
                let ghost fs = rt.0@.map_values(|f: (String, TypeKind)| (f.0@, f.1));
                let ghost start = out@;
                let mut i: usize = 0;
                while i < rt.0.len()
                    invariant
                        i <= rt.0@.len(),
                        fs == rt.0@.map_values(|f: (String, TypeKind)| (f.0@, f.1)),
                        out@ == start + join_fields(fs.take(i as int)),
                    decreases rt.0@.len() - i,
                {
                    proof {
                        assert(fs.take(i as int + 1).drop_last() =~= fs.take(i as int));
                        assert(fs.take(i as int + 1).last() == fs[i as int]);
                    }
                    if i > 0 {
                        out.append(", ");
                    }
                    out.append(rt.0[i].0.as_str());
                    out.append(": ");
                    out.append(TypeSig::type_sig_to_string(rt.0[i].1.to_type_sig()));
                    i = i + 1;
                    proof {
                        assert(out@ =~= start + join_fields(fs.take(i as int)));
                    }
                }
                proof {
                    assert(fs.take(fs.len() as int) =~= fs);
                }
                out.append("}");
                proof {
                    assert(out@ =~= schema_name(self@));
                }
            },
            Schema::Sum(st) => {
                out.append("{");
                let ghost cs = st.cases@.map_values(|c: (String, ProductType)| (c.0@, c.1.0@));
                let ghost start = out@;
                let mut i: usize = 0;
                while i < st.cases.len()
                    invariant
                        i <= st.cases@.len(),
                        cs == st.cases@.map_values(|c: (String, ProductType)| (c.0@, c.1.0@)),
                        out@ == start + join_cases(cs.take(i as int)),
                    decreases st.cases@.len() - i,
                {
                    proof {
                        assert(cs.take(i as int + 1).drop_last() =~= cs.take(i as int));
                        assert(cs.take(i as int + 1).last() == cs[i as int]);
                    }
                    if i > 0 {
                        out.append(", ");
                    }
                    out.append(st.cases[i].0.as_str());
                    out.append("(");
                    append_kinds(&mut out, &st.cases[i].1.0);
                    out.append(")");
                    i = i + 1;
                    proof {
                        assert(out@ =~= start + join_cases(cs.take(i as int)));
                    }
                }
                proof {
                    assert(cs.take(cs.len() as int) =~= cs);
                }
                out.append("}");
                proof {
                    assert(out@ =~= schema_name(self@));
                }
            },
            _ => {
                out.append(TypeSig::type_sig_to_string(self.kind().to_type_sig()));
            },
        }
        out
    }
}

/// Whether two lists of kinds are equal.
fn same_kinds(a: &Vec<TypeKind>, b: &Vec<TypeKind>) -> (r: bool)
    ensures
        r == (a@ == b@),
{
    if a.len() != b.len() {
        return false;
    }
    let mut i: usize = 0;
    while i < a.len()
        invariant
            a@.len() == b@.len(),
            i <= a@.len(),
            forall|j: int| 0 <= j < i ==> a@[j] == b@[j],
        decreases a@.len() - i,
    {
        if a[i] != b[i] {
            return false;
        }
        i = i + 1;
    }
    proof {
        assert(a@ =~= b@);
    }
    true
}

impl Schema {
    /// Whether `self` and `other` describe the same schema.
    pub fn same_as(&self, other: &Schema) -> (r: bool)
        ensures
            r == (self@ == other@),
    {
        match (self, other) {
            (Schema::Nat(_), Schema::Nat(_)) => true,
            (Schema::Int(_), Schema::Int(_)) => true,
            (Schema::Double(_), Schema::Double(_)) => true,
            (Schema::Char(_), Schema::Char(_)) => true,
            (Schema::Bool(_), Schema::Bool(_)) => true,
            (Schema::Reference(a), Schema::Reference(b)) => a.0 == b.0,
            (Schema::Product(a), Schema::Product(b)) => same_kinds(&a.0, &b.0),
            (Schema::Record(a), Schema::Record(b)) => {
                let ghost fa = a.0@.map_values(|f: (String, TypeKind)| (f.0@, f.1));
                let ghost fb = b.0@.map_values(|f: (String, TypeKind)| (f.0@, f.1));
                if a.0.len() != b.0.len() {
                    proof {
                        assert(fa.len() != fb.len());
                    }
                    return false;
                }
                let mut i: usize = 0;
                while i < a.0.len()
                    invariant
                        a.0@.len() == b.0@.len(),
                        fa == a.0@.map_values(|f: (String, TypeKind)| (f.0@, f.1)),
                        fb == b.0@.map_values(|f: (String, TypeKind)| (f.0@, f.1)),
                        self@ == SchemaView::Record(fa),
                        other@ == SchemaView::Record(fb),
                        i <= a.0@.len(),
                        forall|j: int| 0 <= j < i ==> fa[j] == fb[j],
                    decreases a.0@.len() - i,
                {
                    if a.0[i].0 != b.0[i].0 || a.0[i].1 != b.0[i].1 {
                        proof {
                            assert(fa[i as int] != fb[i as int]);
                            assert(self@ == SchemaView::Record(fa));
                            assert(other@ == SchemaView::Record(fb));
                        }
                        return false;
                    }
                    i = i + 1;
                }
                proof {
                    assert(fa =~= fb);
                }
                true
            },
            (Schema::Sum(a), Schema::Sum(b)) => {
                let ghost ca = a.cases@.map_values(|c: (String, ProductType)| (c.0@, c.1.0@));
                let ghost cb = b.cases@.map_values(|c: (String, ProductType)| (c.0@, c.1.0@));
                if a.selected != b.selected || a.cases.len() != b.cases.len() {
                    proof {
                        assert(a.selected != b.selected || ca.len() != cb.len());
                    }
                    return false;
                }
                let mut i: usize = 0;
                while i < a.cases.len()
                    invariant
                        a.cases@.len() == b.cases@.len(),
                        ca == a.cases@.map_values(|c: (String, ProductType)| (c.0@, c.1.0@)),
                        cb == b.cases@.map_values(|c: (String, ProductType)| (c.0@, c.1.0@)),
                        self@ == SchemaView::Sum(ca, a.selected as nat),
                        other@ == SchemaView::Sum(cb, b.selected as nat),
                        i <= a.cases@.len(),
                        forall|j: int| 0 <= j < i ==> ca[j] == cb[j],
                    decreases a.cases@.len() - i,
                {
                    if a.cases[i].0 != b.cases[i].0 || !same_kinds(&a.cases[i].1.0, &b.cases[i].1.0) {
                        proof {
                            assert(ca[i as int] != cb[i as int]);
                            assert(self@ == SchemaView::Sum(ca, a.selected as nat));
                            assert(other@ == SchemaView::Sum(cb, b.selected as nat));
                        }
                        return false;
                    }
                    i = i + 1;
                }
                proof {
                    assert(ca =~= cb);
                }
                true
            },
            _ => false,
        }
    }
}

} // verus!
