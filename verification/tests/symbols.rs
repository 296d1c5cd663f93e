use monkey::code::{Scope, Symbol, SymbolTable};

#[test]
fn define_counts_slots_from_zero() {
    let mut table = SymbolTable::new(None);
    let a = table.define("a");
    let b = table.define("b");
    assert_eq!(a, Symbol { name: String::from("a"), scope: Scope::Global, index: 0 });
    assert_eq!(b, Symbol { name: String::from("b"), scope: Scope::Global, index: 1 });
    assert_eq!(table.num_definitions(), 2);
    assert!(table.is_global());
}

#[test]
fn define_again_takes_a_new_slot() {
    let mut table = SymbolTable::new(None);
    table.define("a");
    table.define("b");
    let again = table.define("a");
    assert_eq!(again.index, 2);
    assert_eq!(table.num_definitions(), 3);
    assert_eq!(table.resolve("a"), Some(again));
    assert_eq!(table.resolve("b").unwrap().index, 1);
}

#[test]
fn every_stored_slot_is_below_the_count() {
    let mut table = SymbolTable::new(None);
    let names = ["x", "y", "x", "z", "y", "w"];
    for name in names.iter() {
        table.define(name);
    }
    assert_eq!(table.num_definitions(), names.len());
    let mut seen = Vec::new();
    for name in ["x", "y", "z", "w"].iter() {
        let symbol = table.resolve(name).unwrap();
        assert!(symbol.index < table.num_definitions());
        assert!(!seen.contains(&symbol.index));
        seen.push(symbol.index);
    }
}

#[test]
fn inner_table_is_local_and_sees_outer_names() {
    let mut outer = SymbolTable::new(None);
    outer.define("a");
    outer.define("b");
    let mut inner = SymbolTable::new(Some(Box::new(outer)));
    assert!(!inner.is_global());
    let a = inner.define("a");
    assert_eq!(a, Symbol { name: String::from("a"), scope: Scope::Local, index: 0 });
    assert_eq!(inner.resolve("a"), Some(a));
    assert_eq!(
        inner.resolve("b"),
        Some(Symbol { name: String::from("b"), scope: Scope::Global, index: 1 })
    );
    assert_eq!(inner.resolve("c"), None);
    let outer = inner.get_outer().unwrap();
    assert_eq!(outer.num_definitions(), 2);
    assert_eq!(outer.resolve("a").unwrap().scope, Scope::Global);
}

#[test]
fn outermost_table_has_no_outer() {
    let table = SymbolTable::new(None);
    assert!(table.get_outer().is_none());
}

#[test]
fn copy_of_a_table_resolves_alike() {
    let mut table = SymbolTable::new(None);
    table.define("a");
    let copy = table.clone();
    table.define("b");
    assert_eq!(copy.num_definitions(), 1);
    assert_eq!(copy.resolve("a"), table.resolve("a"));
    assert_eq!(copy.resolve("b"), None);
}
