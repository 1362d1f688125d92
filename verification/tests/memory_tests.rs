use dplane::memory::{Heap, LinearList, Ptr, Vector, VectorMeta};

#[test]
fn vector_grows_by_its_extend_size() {
    let mut v: Vector<u32> = Vector::new(1, 2);
    v.push(10);
    v.push(20);
    assert_eq!(v.len(), 2);
    assert_eq!(*v.get(1), 20);
    assert_eq!(*v.last(), 20);
    v.set(0, 5);
    assert_eq!(v.as_slice(), &[5, 20]);
    assert_eq!(v.as_ptr(), &[5, 20]);
    let c = v.clone();
    assert_eq!(c.as_slice(), &[5, 20]);
    v.free();
}

#[test]
fn vector_from_parts() {
    let v = Vector::new_manual(vec![1u8, 2, 3], VectorMeta { pos: 3, len: 8, extend_size: 4 });
    assert_eq!(v.len(), 3);
    assert_eq!(*v.get(2), 3);
}

#[test]
fn ptr_holds_its_value() {
    let p = Ptr::new(41u64);
    assert_eq!(*p.deref(), 41);
}

#[test]
fn linear_list_fills_its_chunk_in_order() {
    let mut list: LinearList<u32> = LinearList::new(4);
    assert_eq!(list.insert(1), (0, 0));
    assert_eq!(list.insert(2), (0, 1));
    assert_eq!(list.insert(3), (0, 2));
    assert_eq!(list.insert(4), (0, 3));
}

#[test]
fn heap_allocations_do_not_overlap() {
    let mut heap = Heap::new();
    heap.init(100, 3);
    assert_eq!(heap.malloc::<u32>(10), (0, 0));
    assert_eq!(heap.malloc::<u8>(20), (0, 41));
    // 62 + 50 > 100: the next zone
    assert_eq!(heap.malloc::<u8>(50), (1, 0));
    assert_eq!(heap.malloc::<u16>(5), (1, 51));
}
