use region_gc::bits::{bit_set, count_bits_set, count_bits_set_range};
use region_gc::codec::ObjectHeader;
use region_gc::heap::HeapAllocator;
use region_gc::errors::AllocatorError;
use region_gc::type_info::{object_size, ProductType, RecordType, SumType, TypeInfo};
use region_gc::type_sig::{TypeKind, TypeSig};

#[test]
fn bit_queries() {
    assert!(bit_set(0b0000_0101, 0));
    assert!(!bit_set(0b0000_0101, 1));
    assert!(bit_set(0b1000_0000, 7));
    assert_eq!(count_bits_set(0b1010_0011), vec![0, 1, 5, 7]);
    assert_eq!(count_bits_set(0), Vec::<usize>::new());
    assert_eq!(count_bits_set_range(0b1010_0011, 1, 6), vec![1, 5]);
    assert_eq!(count_bits_set_range(0xff, 3, 3), Vec::<usize>::new());
}

#[test]
fn signatures_round_trip() {
    let kinds = [
        TypeKind::Nat,
        TypeKind::Int,
        TypeKind::Reference,
        TypeKind::Double,
        TypeKind::Char,
        TypeKind::Bool,
        TypeKind::Product,
        TypeKind::Record,
        TypeKind::Sum,
    ];
    for k in kinds.iter() {
        let sig = k.to_type_sig();
        assert!(TypeSig::within_valid_range(sig));
        assert!(ObjectHeader::type_sig_within_valid_range(sig));
        assert_eq!(TypeSig::to_type_kind(sig), *k);
    }
    assert_eq!(TypeKind::Nat.to_type_sig(), 1);
    assert_eq!(TypeKind::Sum.to_type_sig(), 9);
    assert!(!TypeSig::within_valid_range(0));
    assert!(!TypeSig::within_valid_range(10));
    assert_eq!(TypeSig::type_sig_to_string(4), "Char");
    assert_eq!(TypeSig::type_sig_to_string(7), "$Product");
}

#[test]
fn header_fields() {
    let h = ObjectHeader::new(2, 32, 5);
    assert_eq!((h.type_sig, h.size, h.type_info), (2, 32, 5));
}

#[test]
fn product_offsets_are_word_slots() {
    let p = ProductType(vec![TypeKind::Int, TypeKind::Char, TypeKind::Bool, TypeKind::Int]);
    assert_eq!(p.alignment_table(), vec![0, 8, 16, 24]);
    assert_eq!(p.size(), 32);
    assert_eq!(p.alignment(), 8);
    let empty = ProductType(vec![]);
    assert_eq!(empty.alignment_table(), Vec::<usize>::new());
    assert_eq!(empty.size(), 0);
    assert_eq!(object_size(p.size()), 56);
}

#[test]
fn record_and_sum_layouts() {
    let r = RecordType(vec![("a".to_string(), TypeKind::Int), ("b".to_string(), TypeKind::Bool)]);
    assert_eq!(r.alignment_table(), vec![0, 8]);
    assert_eq!(r.size(), 16);
    let s = SumType {
        cases: vec![
            ("Some".to_string(), ProductType(vec![TypeKind::Int])),
            ("None".to_string(), ProductType(vec![])),
        ],
        selected: 0,
    };
    assert_eq!(s.alignment_table(), vec![0]);
    assert_eq!(s.size(), 8);
}

#[test]
fn first_region_and_growth() {
    let mut heap = HeapAllocator::new();
    assert_eq!(heap.region_count(), 0);
    let a = heap.allocate(24, 8).unwrap();
    assert_eq!(heap.region_count(), 1);
    let first = heap.region(0);
    assert_eq!(first.size, 2048);
    assert_eq!(a, first.start);
    assert_eq!(a % 8, 0);
    // an odd-sized request leaves the cursor unaligned; the next one is padded
    let b = heap.allocate(5, 1).unwrap();
    assert_eq!(b, a + 24);
    let c = heap.allocate(8, 8).unwrap();
    assert_eq!(c, a + 32);
    assert_eq!(heap.allocated(), 40);
    // a request that does not fit makes a region twice the heap's size
    let d = heap.allocate(3000, 8).unwrap();
    assert_eq!(heap.region_count(), 2);
    let second = heap.region(1);
    assert_eq!(second.size, 4096);
    assert_eq!(second.start, first.start + first.size);
    assert_eq!(d, second.start);
    assert_eq!(heap.block_index(&second), Some(1));
    assert_eq!(heap.get_block(d), Some(second));
    assert_eq!(heap.get_block(1), None);
}

#[test]
fn large_request_sizes_region_from_request() {
    let mut heap = HeapAllocator::new();
    let a = heap.allocate(5000, 8).unwrap();
    let first = heap.region(0);
    // twice the request plus its padding, aligned: (5000 + 7 rounded to 8) * 2
    assert_eq!(first.size, 10016);
    assert_eq!(a, first.start);
    // the next region starts on the next 256-byte boundary
    heap.allocate(9000, 8).unwrap();
    let second = heap.region(1);
    assert_eq!(second.start, first.start + 10240);
    assert_eq!(second.size, 20032);
}

#[test]
fn expansion_follows_the_growth_rule() {
    let mut heap = HeapAllocator::new();
    heap.expand(5000, 8).unwrap();
    assert_eq!(heap.region(0).size, 10000);
    heap.expand(3000, 8).unwrap();
    assert_eq!(heap.region(1).size, 20000);
    assert_eq!(heap.size, 30000);
    heap.expand(100000, 16).unwrap();
    assert_eq!(heap.region(2).size, 200000);
}

#[test]
fn closed_heap_refuses_allocation() {
    let mut heap = HeapAllocator::new();
    heap.allocate(16, 8).unwrap();
    heap.free();
    assert_eq!(heap.allocate(16, 8), Err(AllocatorError::AllocatorClosed));
    assert_eq!(heap.allocated(), 0);
}
