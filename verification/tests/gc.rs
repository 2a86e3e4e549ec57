use starlight_core::heap::{
    Cell, CellPayload, GcPointer, Handle, Heap, Value, type_id_of_object_stub, TYPE_ID_NODE,
    TYPE_ID_OBJECT,
};

fn node(children: Vec<GcPointer>) -> Cell {
    Cell { payload: CellPayload::Node(children) }
}

#[test]
fn alias_keeps_value_reachable_and_last_release_deregisters() {
    let mut heap = Heap::new();
    let p = heap.allocate(node(vec![]));
    let h1 = Handle::new(&mut heap, p);
    let slot = h1.slot_index();
    assert!(heap.is_rooted(slot));
    let h2 = h1.alias(&mut heap);
    assert_eq!(h2.slot_index(), slot);
    // Releasing one alias leaves the slot registered and the value
    // reachable through the surviving alias.
    h1.release(&mut heap);
    assert!(heap.is_rooted(slot));
    assert_eq!(h2.get(&heap), p);
    heap.collect();
    assert!(heap.try_cell_ref(p).is_some());
    // Releasing the last alias removes the address from the root registry.
    h2.release(&mut heap);
    assert!(!heap.is_rooted(slot));
}

#[test]
fn handle_rooted_object_survives_collection() {
    let mut heap = Heap::new();
    let p = heap.allocate(node(vec![]));
    let h = Handle::new(&mut heap, p);
    heap.collect();
    assert!(heap.try_cell_ref(p).is_some());
    assert_eq!(type_id_of_object_stub(&heap, p), TYPE_ID_NODE);
    h.release(&mut heap);
}

#[test]
fn unrooted_object_does_not_survive_two_collections() {
    let mut heap = Heap::new();
    let p = heap.allocate(node(vec![]));
    let h = Handle::new(&mut heap, p);
    h.release(&mut heap);
    heap.collect();
    heap.collect();
    assert!(heap.try_cell_ref(p).is_none());
}

#[test]
fn tracing_follows_references_from_roots() {
    let mut heap = Heap::new();
    let leaf = heap.allocate(node(vec![]));
    let mid = heap.allocate(node(vec![leaf]));
    let root = heap.allocate(node(vec![mid]));
    let stray = heap.allocate(node(vec![]));
    heap.push_root(root);
    heap.collect();
    // Everything reachable from the native root survives; the stray cell is
    // reclaimed.
    assert!(heap.try_cell_ref(root).is_some());
    assert!(heap.try_cell_ref(mid).is_some());
    assert!(heap.try_cell_ref(leaf).is_some());
    assert!(heap.try_cell_ref(stray).is_none());
    heap.pop_root();
    heap.collect();
    assert!(heap.try_cell_ref(root).is_none());
    assert!(heap.try_cell_ref(mid).is_none());
    assert!(heap.try_cell_ref(leaf).is_none());
}

#[test]
fn object_cells_trace_their_property_references() {
    let mut heap = Heap::new();
    let target = heap.allocate(node(vec![]));
    let obj = heap.allocate(
        Cell {
            payload: CellPayload::Object(vec![
                (1, Value::Int(10)),
                (2, Value::Obj(target)),
            ]),
        },
    );
    let h = Handle::new(&mut heap, obj);
    heap.collect();
    assert!(heap.try_cell_ref(obj).is_some());
    assert!(heap.try_cell_ref(target).is_some());
    assert_eq!(type_id_of_object_stub(&heap, obj), TYPE_ID_OBJECT);
    h.release(&mut heap);
    heap.collect();
    assert!(heap.try_cell_ref(obj).is_none());
    assert!(heap.try_cell_ref(target).is_none());
}

#[test]
fn collection_leaves_handles_and_roots_untouched() {
    let mut heap = Heap::new();
    let a = heap.allocate(node(vec![]));
    let b = heap.allocate(node(vec![]));
    let h = Handle::new(&mut heap, a);
    heap.push_root(b);
    let slot = h.slot_index();
    heap.collect();
    assert!(heap.is_rooted(slot));
    assert_eq!(h.get(&heap), a);
    assert!(heap.try_cell_ref(b).is_some());
    heap.pop_root();
    h.release(&mut heap);
}

#[test]
fn put_prop_replaces_or_appends() {
    let mut heap = Heap::new();
    let obj = heap.alloc_object(vec![(1, Value::Int(10))]);
    // Replacing an existing key keeps one entry for it.
    assert!(heap.put_prop(obj, 1, Value::Int(11)));
    // Writing a fresh key appends it.
    assert!(heap.put_prop(obj, 2, Value::Str("two".to_string())));
    match &heap.cell_ref(obj).payload {
        CellPayload::Object(props) => {
            assert_eq!(
                props,
                &vec![(1, Value::Int(11)), (2, Value::Str("two".to_string()))]
            );
        },
        _ => panic!("expected an object cell"),
    }
    // A non-object target changes nothing and says so.
    let n = heap.allocate(node(vec![]));
    assert!(!heap.put_prop(n, 1, Value::Null));
}

#[test]
fn put_prop_reference_keeps_target_alive() {
    let mut heap = Heap::new();
    let target = heap.allocate(node(vec![]));
    let obj = heap.alloc_object(vec![]);
    assert!(heap.put_prop(obj, 5, Value::Obj(target)));
    let h = Handle::new(&mut heap, obj);
    heap.collect();
    assert!(heap.try_cell_ref(target).is_some());
    h.release(&mut heap);
    heap.collect();
    assert!(heap.try_cell_ref(target).is_none());
}
