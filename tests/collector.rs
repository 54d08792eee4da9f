use std::collections::HashSet;
use rand::Rng;
use region_gc::codec::ObjectAllocator;
use region_gc::errors::{AllocatorError, GCError};
use region_gc::gc::GarbageCollector;
use region_gc::object::{Data, Schema, Value};
use region_gc::type_info::{ProductType, ReferenceType};
use region_gc::type_sig::TypeKind;

/// A product of one integer tag and `refs` references, all null.
fn node(gc: &mut GarbageCollector, tag: i64, refs: usize) -> usize {
    let mut kinds = vec![TypeKind::Int];
    let mut values = vec![Value::Int(tag)];
    for _ in 0..refs {
        kinds.push(TypeKind::Reference);
        values.push(Value::Reference(0));
    }
    gc.write_object(Schema::Product(ProductType(kinds)), Data::Fields(values)).unwrap()
}

fn link(gc: &mut GarbageCollector, from: usize, slot: usize, to: usize) {
    gc.heap.set_field(from, 1 + slot, Value::Reference(to)).unwrap();
}

fn fields(heap: &ObjectAllocator, h: usize) -> Vec<Value> {
    match heap.read_obj(h).unwrap().1 {
        Data::Fields(vs) => vs,
        Data::Scalar(v) => vec![v],
    }
}

fn reachable(heap: &ObjectAllocator, roots: &[usize]) -> HashSet<usize> {
    let mut seen = HashSet::new();
    let mut stack: Vec<usize> = roots.iter().copied().filter(|r| *r != 0).collect();
    while let Some(p) = stack.pop() {
        if seen.insert(p) {
            for (q, _) in heap.pointers(p).unwrap() {
                if q != 0 {
                    stack.push(q);
                }
            }
        }
    }
    seen
}

#[test]
fn zero_roots_empty_remap_and_clear_bitmap() {
    let mut gc = GarbageCollector::new();
    node(&mut gc, 1, 0);
    node(&mut gc, 2, 1);
    let map = gc.collect(&vec![]).unwrap();
    assert!(map.is_empty());
    assert!(gc.all_marked_bits().is_empty());
    assert!(gc.bitmap.iter().all(|row| row.iter().all(|b| *b == 0)));
    assert!(gc.heap.allocated_objects.is_empty());
}

#[test]
fn single_root_without_references_marks_one_bit() {
    let mut gc = GarbageCollector::new();
    let a = node(&mut gc, 1, 0);
    node(&mut gc, 2, 0);
    gc.mark_living(&vec![a]).unwrap();
    assert_eq!(gc.all_marked_bits(), vec![a]);
    assert_eq!(gc.size_of_living.get(&a), Some(&32));
}

#[test]
fn self_reference_marked_once_and_rewritten() {
    let mut gc = GarbageCollector::new();
    let garbage = node(&mut gc, 9, 0);
    let a = node(&mut gc, 1, 1);
    link(&mut gc, a, 0, a);
    gc.mark_living(&vec![a]).unwrap();
    assert_eq!(gc.all_marked_bits(), vec![a]);
    let map = gc.collect(&vec![a]).unwrap();
    let na = map[&a];
    assert_eq!(na, garbage);
    assert_eq!(fields(&gc.heap, na), vec![Value::Int(1), Value::Reference(na)]);
}

#[test]
fn cyclic_pair_relocated_consistently() {
    let mut gc = GarbageCollector::new();
    node(&mut gc, 7, 0);
    let a = node(&mut gc, 1, 1);
    node(&mut gc, 8, 0);
    let b = node(&mut gc, 2, 1);
    link(&mut gc, a, 0, b);
    link(&mut gc, b, 0, a);
    let map = gc.collect(&vec![a]).unwrap();
    let na = map[&a];
    assert_eq!(gc.heap.allocated_objects.len(), 2);
    let nb = gc.heap.allocated_objects[1];
    assert!(na < nb);
    assert_eq!(fields(&gc.heap, na), vec![Value::Int(1), Value::Reference(nb)]);
    assert_eq!(fields(&gc.heap, nb), vec![Value::Int(2), Value::Reference(na)]);
}

#[test]
fn three_cycle_survives_collection() {
    let mut gc = GarbageCollector::new();
    let a = node(&mut gc, 1, 1);
    node(&mut gc, 100, 0);
    let b = node(&mut gc, 2, 1);
    node(&mut gc, 101, 0);
    let c = node(&mut gc, 3, 1);
    link(&mut gc, a, 0, b);
    link(&mut gc, b, 0, c);
    link(&mut gc, c, 0, a);
    let map = gc.collect(&vec![a]).unwrap();
    let objs = gc.heap.allocated_objects.clone();
    assert_eq!(objs.len(), 3);
    let (ma, mb, mc) = (objs[0], objs[1], objs[2]);
    assert_eq!(map[&a], ma);
    assert_eq!(mb, ma + 40);
    assert_eq!(mc, mb + 40);
    assert_eq!(fields(&gc.heap, ma), vec![Value::Int(1), Value::Reference(mb)]);
    assert_eq!(fields(&gc.heap, mb), vec![Value::Int(2), Value::Reference(mc)]);
    assert_eq!(fields(&gc.heap, mc), vec![Value::Int(3), Value::Reference(ma)]);
}

#[test]
fn expansion_keeps_earlier_objects_readable() {
    let mut heap = ObjectAllocator::new();
    let mut handles = vec![];
    let mut i: i64 = 0;
    while heap.allocator.region_count() < 3 {
        handles.push((heap.write_int(i * 3 - 50).unwrap(), i * 3 - 50));
        i += 1;
    }
    for (h, v) in handles.iter() {
        match heap.read_obj(*h).unwrap().1 {
            Data::Scalar(x) => assert_eq!(x, Value::Int(*v)),
            Data::Fields(_) => panic!("expected a scalar"),
        }
    }
}

#[test]
fn offset_table_packs_marked_objects() {
    let mut gc = GarbageCollector::new();
    // sizes 56, 48, 64, 128, 48, 64, 56: a 24-byte header and 8 bytes per field
    let sizes = [56usize, 48, 64, 128, 48, 64, 56];
    let mut objs = vec![];
    for s in sizes.iter() {
        let n = (s - 24) / 8;
        let h = gc.heap.write_product(vec![Value::Nat(0); n], ProductType(vec![TypeKind::Nat; n])).unwrap();
        objs.push(h);
    }
    for i in 0..objs.len() - 1 {
        assert_eq!(objs[i + 1] - objs[i], sizes[i]);
    }
    gc.reset_all_marks();
    for i in [0usize, 2, 4, 6].iter() {
        gc.set_marked(objs[*i], true);
    }
    let table = gc.compute_locations(0);
    let start = gc.heap.allocator.region(0).start;
    assert_eq!(table[0], start);
    let moved: Vec<usize> =
        [0usize, 2, 4, 6].iter().map(|i| gc.new_address_after_compaction(objs[*i], &table, 0)).collect();
    assert_eq!(moved, vec![start, start + 56, start + 56 + 64, start + 56 + 64 + 48]);
}

#[test]
fn root_in_later_region_traces_back_into_earlier_one() {
    let mut gc = GarbageCollector::new();
    let early = node(&mut gc, 42, 0);
    while gc.heap.allocator.region_count() < 2 {
        node(&mut gc, 0, 0);
    }
    let late = node(&mut gc, 7, 1);
    assert_eq!(gc.heap.allocator.region_index_of(late), Some(1));
    link(&mut gc, late, 0, early);
    gc.mark_living(&vec![late]).unwrap();
    assert_eq!(gc.all_marked_bits(), vec![early, late]);
    let map = gc.collect(&vec![late]).unwrap();
    let nl = map[&late];
    let objs = gc.heap.allocated_objects.clone();
    assert_eq!(objs.len(), 2);
    assert_eq!(fields(&gc.heap, nl), vec![Value::Int(7), Value::Reference(objs[0])]);
    assert_eq!(fields(&gc.heap, objs[0]), vec![Value::Int(42)]);
}

#[test]
fn random_graph_marks_exactly_the_reachable_objects() {
    let mut rng = rand::thread_rng();
    let mut gc = GarbageCollector::new();
    let mut handles: Vec<usize> = vec![];
    for i in 0..1000 {
        let h = match rng.gen_range(0..4) {
            0 => gc.heap.write_int(rng.gen_range(i64::MIN..=i64::MAX)).unwrap(),
            1 => gc.heap.write_nat(rng.gen_range(0..=u64::MAX)).unwrap(),
            _ => node(&mut gc, i as i64, rng.gen_range(1..=4)),
        };
        handles.push(h);
    }
    for h in handles.clone() {
        let slots = gc.heap.pointers(h).unwrap().len();
        for s in 0..slots {
            if rng.gen_bool(0.7) {
                let to = handles[rng.gen_range(0..handles.len())];
                link(&mut gc, h, s, to);
            }
        }
    }
    let roots: Vec<usize> = (0..20).map(|_| handles[rng.gen_range(0..handles.len())]).collect();
    let expected = reachable(&gc.heap, &roots);
    let closure: HashSet<usize> = gc.heap.reachable(&roots).unwrap().into_iter().collect();
    assert_eq!(closure, expected);
    gc.mark_living(&roots).unwrap();
    let marked: HashSet<usize> = gc.all_marked_bits().into_iter().collect();
    assert_eq!(marked.symmetric_difference(&expected).count(), 0);
    assert!(handles.iter().all(|h| h % 8 == 0));

    // a full collection keeps the graph, renamed
    let before: Vec<(usize, Vec<Value>)> = expected.iter().map(|h| (*h, fields(&gc.heap, *h))).collect();
    let live_bytes: usize = expected.iter().map(|h| gc.heap.object_size_of(*h)).sum();
    let map = gc.collect(&roots).unwrap();
    assert_eq!(gc.heap.allocated_objects.len(), expected.len());
    let after_bytes: usize = gc.heap.allocated_objects.iter().map(|h| gc.heap.object_size_of(*h)).sum();
    assert_eq!(live_bytes, after_bytes);
    for r in roots.iter() {
        assert!(map.contains_key(r));
    }
    let mut old_sorted: Vec<usize> = expected.iter().copied().collect();
    old_sorted.sort();
    let rename = |a: usize| -> usize { gc.heap.allocated_objects[old_sorted.binary_search(&a).unwrap()] };
    for (h, vals) in before.iter() {
        let moved = fields(&gc.heap, rename(*h));
        let want: Vec<Value> = vals
            .iter()
            .map(|v| match v {
                Value::Reference(q) if *q != 0 => Value::Reference(rename(*q)),
                other => *other,
            })
            .collect();
        assert_eq!(moved, want);
    }
    for r in roots.iter() {
        assert_eq!(map[r], rename(*r));
    }
}

#[test]
fn invalid_root_is_rejected() {
    let mut gc = GarbageCollector::new();
    let a = node(&mut gc, 1, 0);
    assert_eq!(gc.collect(&vec![a + 8]).unwrap_err(), GCError::InvalidRoots);
    assert_eq!(gc.collect(&vec![0, 12345]).unwrap_err(), GCError::InvalidRoots);
}

#[test]
fn dangling_reference_aborts_tracing() {
    let mut gc = GarbageCollector::new();
    let a = node(&mut gc, 1, 1);
    link(&mut gc, a, 0, a + 8);
    assert_eq!(gc.collect(&vec![a]).unwrap_err(), GCError::InvalidObject(a + 8));
}

#[test]
fn field_updates_are_checked() {
    let mut gc = GarbageCollector::new();
    let a = node(&mut gc, 1, 1);
    assert_eq!(gc.heap.set_field(a, 5, Value::Int(0)), Err(AllocatorError::SizeMismatch));
    assert_eq!(gc.heap.set_field(a, 0, Value::Bool(true)), Err(AllocatorError::DataReadFailed));
    assert_eq!(gc.heap.set_field(a + 8, 0, Value::Int(0)), Err(AllocatorError::InvalidObject(a + 8)));
    gc.heap.set_field(a, 0, Value::Int(5)).unwrap();
    assert_eq!(fields(&gc.heap, a), vec![Value::Int(5), Value::Reference(0)]);
}

#[test]
fn reference_objects_are_traced() {
    let mut gc = GarbageCollector::new();
    let target = gc.heap.write_int(11).unwrap();
    let r = gc.heap.write_reference(target, ReferenceType(2)).unwrap();
    let (schema, data) = gc.heap.read_obj(r).unwrap();
    assert!(matches!(schema, Schema::Reference(ReferenceType(2))));
    assert!(matches!(data, Data::Scalar(Value::Reference(t)) if t == target));
    gc.mark_living(&vec![r]).unwrap();
    assert_eq!(gc.all_marked_bits(), vec![target, r]);
}

#[test]
fn objects_walk_in_allocation_order() {
    let mut gc = GarbageCollector::new();
    let a = node(&mut gc, 1, 2);
    let b = gc.heap.write_int(5).unwrap();
    let c = node(&mut gc, 3, 0);
    let block = gc.heap.allocator.region(0);
    assert_eq!(gc.next_object(&block, None), Some(a));
    assert_eq!(gc.next_object(&block, Some(a)), Some(b));
    assert_eq!(gc.next_object(&block, Some(b)), Some(c));
    assert_eq!(gc.next_object(&block, Some(c)), None);
}

#[test]
fn reachability_and_pointer_listing() {
    let mut gc = GarbageCollector::new();
    let a = node(&mut gc, 1, 2);
    let b = node(&mut gc, 2, 1);
    let c = node(&mut gc, 3, 0);
    let d = node(&mut gc, 4, 0);
    link(&mut gc, a, 0, b);
    link(&mut gc, b, 0, c);
    let mut found = gc.heap.reachable(&vec![a, 0]).unwrap();
    found.sort();
    assert_eq!(found, vec![a, b, c]);
    assert_eq!(gc.heap.reachable(&vec![d]).unwrap(), vec![d]);
    assert!(gc.heap.reachable(&vec![]).unwrap().is_empty());
    assert_eq!(gc.heap.pointers_all(&vec![a, b, c]).unwrap(), vec![b, 0, c]);
    assert_eq!(gc.heap.pointers_all(&vec![a, a + 8]).unwrap_err(), GCError::InvalidObject(a + 8));
    assert_eq!(gc.heap.pointers(a).unwrap(), vec![(b, 8), (0, 16)]);
    link(&mut gc, a, 1, d + 16);
    assert_eq!(gc.heap.reachable(&vec![a]).unwrap_err(), GCError::InvalidObject(d + 16));
}

#[test]
fn bitmap_grows_with_the_heap() {
    let mut gc = GarbageCollector::new();
    assert_eq!(gc.bitmap.len(), 0);
    node(&mut gc, 1, 0);
    assert_eq!(gc.bitmap.len(), 1);
    assert_eq!(gc.bitmap[0].len(), 2048 / 64);
    while gc.heap.allocator.region_count() < 3 {
        node(&mut gc, 2, 3);
        assert_eq!(gc.bitmap.len(), gc.heap.allocator.region_count());
    }
    assert_eq!(gc.bitmap[2].len(), (gc.heap.allocator.region(2).size + 63) / 64);
    assert!(gc.all_marked_bits().is_empty());
}

#[test]
fn closed_heap_refuses_collection() {
    let mut gc = GarbageCollector::new();
    let a = node(&mut gc, 1, 0);
    gc.heap.allocator.free();
    assert_eq!(gc.collect(&vec![a]).unwrap_err(), GCError::AllocatorClosed);
    assert_eq!(gc.heap.pointers(a).unwrap_err(), GCError::AllocatorClosed);
    assert_eq!(gc.heap.reachable(&vec![a]).unwrap_err(), GCError::AllocatorClosed);
}
