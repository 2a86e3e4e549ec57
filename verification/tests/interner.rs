use starlight_core::symbol_table::{
    decimal_string, dummy_symbol, Internable, JsSymbol, Symbol, SymbolID, SymbolTable,
    PUBLIC_START,
};
use starlight_core::heap::{Heap, TYPE_ID_SYMBOL};

#[test]
fn intern_is_idempotent() {
    let mut t = SymbolTable::new();
    let a = t.intern("prototype");
    let b = t.intern("prototype");
    assert_eq!(a, b);
}

#[test]
fn distinct_strings_get_distinct_ids() {
    let mut t = SymbolTable::new();
    let a = t.intern("toString");
    let b = t.intern("length");
    assert_ne!(a, b);
}

#[test]
fn fresh_ids_are_strictly_increasing() {
    let mut t = SymbolTable::new();
    let a = t.intern("alpha");
    let b = t.intern("beta");
    let c = t.intern("gamma");
    assert!(a.0 < b.0);
    assert!(b.0 < c.0);
    let a2 = t.intern("alpha");
    assert_eq!(a, a2);
    let d = t.intern("delta");
    assert!(c.0 < d.0);
}

#[test]
fn description_round_trips() {
    let mut t = SymbolTable::new();
    let id = t.intern("call");
    assert_eq!(t.description(id), "call".to_string());
    let id2 = t.intern("apply");
    assert_eq!(t.description(id2), "apply".to_string());
    assert_eq!(t.description(id), "call".to_string());
}

#[test]
fn first_user_id_is_public_start() {
    let mut t = SymbolTable::new();
    assert_eq!(t.next_key(), PUBLIC_START);
    let id = t.intern("length");
    assert_eq!(id.0, 128);
    assert_eq!(id.0, PUBLIC_START);
    assert_eq!(t.next_key(), PUBLIC_START + 1);
}

#[test]
fn builtins_occupy_reserved_range() {
    let mut t = SymbolTable::new();
    t.register_builtin(0, "prototype");
    t.register_builtin(1, "toString");
    assert_eq!(t.description(SymbolID(0)), "prototype".to_string());
    assert_eq!(t.description(SymbolID(1)), "toString".to_string());
    // A builtin string interns to its reserved identifier, not a new one.
    let id = t.intern("prototype");
    assert_eq!(id.0, 0);
    // The first user string still lands exactly at the public start.
    let user = t.intern("userName");
    assert_eq!(user.0, PUBLIC_START);
}

#[test]
fn try_description_absent_id() {
    let mut t = SymbolTable::new();
    assert_eq!(t.try_description(SymbolID(5)), None);
    let id = t.intern("x");
    assert_eq!(t.try_description(id), Some("x".to_string()));
    assert_eq!(t.try_description(SymbolID(id.0 + 1)), None);
}

#[test]
fn symbol_variant_accessors() {
    let mut t = SymbolTable::new();
    let key = Symbol::Key(t.intern("k"));
    assert!(key.is_key());
    assert!(!key.is_index());
    let p = key.private();
    assert!(matches!(p, Symbol::Private(_)));
    assert!(p.is_key());
    let idx = Symbol::Index(7);
    assert!(idx.is_index());
    assert!(!idx.is_key());
    assert_eq!(idx.get_index(), 7);
    assert_eq!(idx.try_get_index(), Some(7));
    assert_eq!(key.try_get_index(), None);
    assert_eq!(idx.try_private(), None);
    assert!(key.try_private().is_some());
}

#[test]
fn internable_forms() {
    let mut t = SymbolTable::new();
    let a = "answer".intern(&mut t);
    let b = String::from("answer").intern(&mut t);
    assert_eq!(a, b);
    assert!(a.is_key());
    let i = 42u32.intern(&mut t);
    assert_eq!(i, Symbol::Index(42));
    // Index symbols never touch the interner.
    assert_eq!(t.next_key(), PUBLIC_START + 1);
}

#[test]
fn usize_interns_as_index_or_decimal_key() {
    let mut t = SymbolTable::new();
    // A value in the dense-index range bypasses the interner.
    let small = 42usize.intern(&mut t);
    assert_eq!(small, Symbol::Index(42));
    assert_eq!(t.next_key(), PUBLIC_START);
    // A larger value interns its decimal rendering.
    let big: usize = 4_294_967_296;
    let sym = big.intern(&mut t);
    match sym {
        Symbol::Key(id) => assert_eq!(t.description(id), "4294967296".to_string()),
        _ => panic!("expected a key symbol"),
    }
}

#[test]
fn decimal_rendering_is_exact() {
    assert_eq!(decimal_string(0), "0".to_string());
    assert_eq!(decimal_string(9), "9".to_string());
    assert_eq!(decimal_string(10), "10".to_string());
    assert_eq!(decimal_string(907), "907".to_string());
}

#[test]
fn dummy_symbol_is_key_zero() {
    assert_eq!(dummy_symbol(), Symbol::Key(SymbolID(0)));
    assert!(dummy_symbol().is_key());
}

#[test]
fn js_symbol_cell_wraps_symbol() {
    let mut heap = Heap::new();
    let mut t = SymbolTable::new();
    let sym = Symbol::Key(t.intern("wellKnown"));
    let ptr = JsSymbol::new(&mut heap, sym);
    let cell = heap.cell_ref(ptr);
    assert_eq!(cell.type_id(), TYPE_ID_SYMBOL);
    assert_eq!(cell.deser_pair(), (TYPE_ID_SYMBOL, TYPE_ID_SYMBOL));
    match &cell.payload {
        starlight_core::heap::CellPayload::Sym(js) => assert_eq!(js.symbol(), sym),
        _ => panic!("expected a symbol cell"),
    }
}
