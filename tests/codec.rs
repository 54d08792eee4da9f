use region_gc::codec::ObjectAllocator;
use region_gc::errors::AllocatorError;
use region_gc::object::{Data, Schema, Value};
use region_gc::type_info::{IntType, ProductType, RecordType, SumType, TypeInfo};
use region_gc::type_sig::TypeKind;

fn scalar(d: &Data) -> Value {
    match d {
        Data::Scalar(v) => *v,
        Data::Fields(_) => panic!("expected a scalar"),
    }
}

#[test]
fn ints_and_double_round_trip() {
    let mut heap = ObjectAllocator::new();
    let a = heap.write_int(123).unwrap();
    let b = heap.write_int(-7).unwrap();
    let c = heap.write_double(1.5f64.to_bits()).unwrap();
    let (sa, da) = heap.read_obj(a).unwrap();
    let (sb, db) = heap.read_obj(b).unwrap();
    let (sc, dc) = heap.read_obj(c).unwrap();
    assert!(matches!(sa, Schema::Int(_)));
    assert!(matches!(sb, Schema::Int(_)));
    assert!(matches!(sc, Schema::Double(_)));
    assert_eq!(scalar(&da), Value::Int(123));
    assert_eq!(scalar(&db), Value::Int(-7));
    match scalar(&dc) {
        Value::Double(bits) => assert_eq!(f64::from_bits(bits), 1.5),
        other => panic!("unexpected {:?}", other),
    }
}

#[test]
fn product_size_matches_bytes_consumed() {
    let mut heap = ObjectAllocator::new();
    let kinds = vec![TypeKind::Int, TypeKind::Char, TypeKind::Bool, TypeKind::Int, TypeKind::Bool, TypeKind::Double];
    let product = ProductType(kinds.clone());
    let payload = product.size();
    assert_eq!(payload, 48);
    let values = vec![
        Value::Int(1),
        Value::Char('a' as u32),
        Value::Bool(true),
        Value::Int(2),
        Value::Bool(false),
        Value::Double(3.14f64.to_bits()),
    ];
    let h = heap.write_product(values.clone(), product).unwrap();
    let block = heap.allocator.get_block(h).unwrap();
    assert_eq!(block.unallocated_start - h, 24 + payload);
    let (schema, data) = heap.read_obj(h).unwrap();
    assert!(matches!(schema, Schema::Product(_)));
    match data {
        Data::Fields(vs) => assert_eq!(vs, values),
        Data::Scalar(_) => panic!("expected fields"),
    }
}

#[test]
fn product_with_wrong_count_is_rejected() {
    let mut heap = ObjectAllocator::new();
    let product = ProductType(vec![TypeKind::Int, TypeKind::Int]);
    let r = heap.write_product(vec![Value::Int(1)], product);
    assert_eq!(r, Err(AllocatorError::SizeMismatch));
}

#[test]
fn record_and_sum_round_trip() {
    let mut heap = ObjectAllocator::new();
    let record = RecordType(vec![
        ("int1".to_string(), TypeKind::Int),
        ("char1".to_string(), TypeKind::Char),
        ("bool1".to_string(), TypeKind::Bool),
    ]);
    let vals = vec![Value::Int(123), Value::Char('a' as u32), Value::Bool(true)];
    let h = heap.write_record(vals.clone(), record).unwrap();
    match heap.read_obj(h).unwrap() {
        (Schema::Record(r), Data::Fields(vs)) => {
            assert_eq!(r.0.len(), 3);
            assert_eq!(r.0[1].0, "char1");
            assert_eq!(vs, vals);
        },
        _ => panic!("expected a record"),
    }
    let sum = SumType {
        cases: vec![
            ("Some".to_string(), ProductType(vec![TypeKind::Int])),
            ("None".to_string(), ProductType(vec![])),
        ],
        selected: 0,
    };
    let s = heap.write_sum(vec![Value::Int(123)], sum).unwrap();
    match heap.read_obj(s).unwrap() {
        (Schema::Sum(t), Data::Fields(vs)) => {
            assert_eq!(t.selected, 0);
            assert_eq!(t.cases[0].0, "Some");
            assert_eq!(vs, vec![Value::Int(123)]);
        },
        _ => panic!("expected a sum"),
    }
}

#[test]
fn write_errors() {
    let mut heap = ObjectAllocator::new();
    let r = heap.write_product(vec![Value::Int(1), Value::Bool(true)], ProductType(vec![TypeKind::Int, TypeKind::Int]));
    assert_eq!(r, Err(AllocatorError::DataReadFailed));
    let r = heap.write_product(vec![Value::Int(1)], ProductType(vec![TypeKind::Product]));
    assert_eq!(r, Err(AllocatorError::UnsupportedFieldKind));
    let r = heap.allocate_general(Schema::Int(IntType), Data::Scalar(Value::Bool(false)));
    assert_eq!(r, Err(AllocatorError::DataReadFailed));
    let bad_sum = SumType { cases: vec![], selected: 0 };
    assert_eq!(heap.write_sum(vec![], bad_sum), Err(AllocatorError::LayoutInvalid));
    assert_eq!(heap.read_obj(12345).unwrap_err(), AllocatorError::InvalidObject(12345));
    let ok = heap.write_bool(true).unwrap();
    assert_eq!(heap.read_obj(ok + 8).unwrap_err(), AllocatorError::InvalidObject(ok + 8));
    heap.allocator.free();
    assert_eq!(heap.write_nat(1), Err(AllocatorError::AllocatorClosed));
    assert_eq!(heap.read_obj(ok).unwrap_err(), AllocatorError::AllocatorClosed);
}

#[test]
fn chars_and_nats_round_trip() {
    let mut heap = ObjectAllocator::new();
    let c = heap.write_char('z' as u32).unwrap();
    let n = heap.write_nat(u64::MAX).unwrap();
    let b = heap.write_bool(false).unwrap();
    assert_eq!(scalar(&heap.read_obj(c).unwrap().1), Value::Char('z' as u32));
    assert_eq!(scalar(&heap.read_obj(n).unwrap().1), Value::Nat(u64::MAX));
    assert_eq!(scalar(&heap.read_obj(b).unwrap().1), Value::Bool(false));
    assert_eq!(heap.object_size_of(c), 32);
}

#[test]
fn schema_names() {
    use_names();
}

fn use_names() {
    let mut heap = ObjectAllocator::new();
    let a = heap.write_int(123).unwrap();
    let d = heap.write_double(1.5f64.to_bits()).unwrap();
    assert_eq!(heap.read_obj(a).unwrap().0.name(), "Int");
    assert_eq!(heap.read_obj(d).unwrap().0.name(), "Double");
    let p = Schema::Product(ProductType(vec![TypeKind::Int, TypeKind::Char, TypeKind::Bool]));
    assert_eq!(p.name(), "(Int, Char, Bool)");
    let r = Schema::Record(RecordType(vec![("x".to_string(), TypeKind::Int), ("y".to_string(), TypeKind::Reference)]));
    assert_eq!(r.name(), "{x: Int, y: Reference}");
    let s = Schema::Sum(SumType {
        cases: vec![
            ("Some".to_string(), ProductType(vec![TypeKind::Int])),
            ("None".to_string(), ProductType(vec![])),
        ],
        selected: 0,
    });
    assert_eq!(s.name(), "{Some(Int), None()}");
    assert_eq!(Schema::Reference(region_gc::type_info::ReferenceType(2)).name(), "&Int");
}

#[test]
fn equal_schemas_are_stored_once() {
    let mut heap = ObjectAllocator::new();
    heap.write_int(1).unwrap();
    heap.write_int(2).unwrap();
    assert_eq!(heap.schemas.len(), 1);
    let p = || ProductType(vec![TypeKind::Int, TypeKind::Bool]);
    heap.write_product(vec![Value::Int(1), Value::Bool(true)], p()).unwrap();
    heap.write_product(vec![Value::Int(2), Value::Bool(false)], p()).unwrap();
    assert_eq!(heap.schemas.len(), 2);
    heap.write_product(vec![Value::Int(2)], ProductType(vec![TypeKind::Int])).unwrap();
    assert_eq!(heap.schemas.len(), 3);
}

#[test]
fn product_consumes_header_plus_schema_size() {
    let mut heap = ObjectAllocator::new();
    let t = ProductType(vec![TypeKind::Int, TypeKind::Char, TypeKind::Bool, TypeKind::Int, TypeKind::Bool, TypeKind::Double]);
    assert_eq!(t.alignment_table(), vec![0, 8, 16, 24, 32, 40]);
    let h = heap.write_product(
        vec![Value::Int(1), Value::Char('a' as u32), Value::Bool(true), Value::Int(2), Value::Bool(false), Value::Double(3.14f64.to_bits())],
        t,
    ).unwrap();
    let block = heap.allocator.get_block(h).unwrap();
    assert_eq!(block.unallocated_start - h, 24 + 48);
    assert_eq!(heap.object_size_of(h), 72);
}
