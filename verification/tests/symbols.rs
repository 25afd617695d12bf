use lator::symbols::SymbolTable;

#[test]
fn a_new_table_binds_nothing() {
    let table = SymbolTable::new();
    assert_eq!(table.len(), 0);
    assert_eq!(table.get("a"), None);
    assert!(table.entries().is_empty());
}

#[test]
fn insert_binds_a_name() {
    let mut table = SymbolTable::new();
    table.insert("a".to_string(), 1);
    table.insert("b".to_string(), -2);
    assert_eq!(table.len(), 2);
    assert_eq!(table.get("a"), Some(1));
    assert_eq!(table.get("b"), Some(-2));
    assert_eq!(table.get("c"), None);
    assert_eq!(table.lookup(&"b".to_string()), Some(-2));
}

#[test]
fn insert_replaces_the_value_of_a_bound_name() {
    let mut table = SymbolTable::new();
    table.insert("a".to_string(), 1);
    table.insert("b".to_string(), 2);
    table.insert("a".to_string(), 3);
    assert_eq!(table.len(), 2);
    assert_eq!(table.get("a"), Some(3));
    assert_eq!(table.get("b"), Some(2));
}

#[test]
fn names_differ_by_case_and_length() {
    let mut table = SymbolTable::new();
    table.insert("a".to_string(), 1);
    table.insert("A".to_string(), 2);
    table.insert("aa".to_string(), 3);
    assert_eq!(table.len(), 3);
    assert_eq!(table.get("a"), Some(1));
    assert_eq!(table.get("A"), Some(2));
    assert_eq!(table.get("aa"), Some(3));
    assert_eq!(table.get(""), None);
}

#[test]
fn entries_lists_every_binding_once() {
    let mut table = SymbolTable::new();
    table.insert("x".to_string(), 10);
    table.insert("y".to_string(), 20);
    table.insert("x".to_string(), 30);
    let mut pairs = table.entries();
    pairs.sort();
    assert_eq!(pairs, vec![("x".to_string(), 30), ("y".to_string(), 20)]);
}

#[test]
fn a_clone_has_the_same_bindings_and_its_own_life() {
    let mut table = SymbolTable::new();
    table.insert("x".to_string(), 10);
    let mut copy = table.clone();
    assert_eq!(copy.get("x"), Some(10));
    assert_eq!(copy.len(), 1);
    copy.insert("x".to_string(), 11);
    copy.insert("y".to_string(), 12);
    assert_eq!(table.get("x"), Some(10));
    assert_eq!(table.get("y"), None);
    assert_eq!(table.len(), 1);
}
