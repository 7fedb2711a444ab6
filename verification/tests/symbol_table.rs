use fluxpack::error::FluxPackError;
use fluxpack::symbol_table::{common_ml_key, SymbolTable, COMMON_ML_KEY_COUNT};

#[test]
fn test_resolve_o1() {
    let table = SymbolTable::with_predefined();
    // Common ML keys should be at known token IDs
    assert_eq!(table.resolve(1), Some("epoch"));
    assert_eq!(table.resolve(2), Some("loss"));
    assert_eq!(table.resolve(20), Some("recall"));
}

#[test]
fn test_intern_and_resolve() {
    let mut table = SymbolTable::new();
    let token = table.intern("my_custom_key").unwrap();
    assert_eq!(table.resolve(token), Some("my_custom_key"));
}

#[test]
fn test_store_def() {
    let mut table = SymbolTable::new();
    table.store_def(100, "custom_key").unwrap();
    assert_eq!(table.resolve(100), Some("custom_key"));
}

#[test]
fn test_resolve_nonexistent() {
    let table = SymbolTable::new();
    assert_eq!(table.resolve(9999), None);
}

#[test]
fn table_intern_is_idempotent() {
    let mut table = SymbolTable::new();
    assert_eq!(table.next_token(), 21);
    let a = table.intern("alpha").unwrap();
    let b = table.intern("beta").unwrap();
    assert_eq!((a, b), (21, 22));
    assert_eq!(table.intern("alpha").unwrap(), 21);
    assert_eq!(table.intern("epoch").unwrap(), 1);
    assert!(table.contains_key("beta"));
    assert!(!table.contains_key("gamma"));
    assert_eq!(table.size(), 22);
    assert!(!table.is_empty());
}

#[test]
fn table_common_keys() {
    assert_eq!(COMMON_ML_KEY_COUNT, 20);
    assert_eq!(common_ml_key(0), "epoch");
    assert_eq!(common_ml_key(19), "recall");
    let table = SymbolTable::with_predefined();
    for i in 0..COMMON_ML_KEY_COUNT {
        assert_eq!(table.resolve(i as u16 + 1), Some(common_ml_key(i)));
    }
    assert_eq!(table.resolve(0), None);
}

#[test]
fn table_store_def_conflicts() {
    let mut table = SymbolTable::new();
    table.store_def(50, "k").unwrap();
    // the same definition again is fine
    table.store_def(50, "k").unwrap();
    assert_eq!(table.store_def(50, "other"), Err(FluxPackError::DuplicateDef(50)));
    assert_eq!(table.store_def(0x4000, "x"), Err(FluxPackError::TableOverflow));
    assert_eq!(table.next_token(), 51);
}

#[test]
fn table_pending_defs() {
    let mut table = SymbolTable::new();
    // every pre-defined token counts as sent
    assert_eq!(table.pending_defs_count(), 0);
    assert!(table.pending_defs().is_empty());
    assert!(table.all_defs_emitted());
    for tok in 1..=20u16 {
        assert!(table.def_emitted(tok));
    }
    table.mark_def_emitted(20);
    assert_eq!(table.pending_defs_count(), 0);
    assert!(table.all_defs_emitted());
    let t = table.intern("x").unwrap();
    let u = table.intern("y").unwrap();
    assert_eq!(table.pending_defs(), vec![(t, "x".to_string()), (u, "y".to_string())]);
    assert!(!table.def_emitted(t));
    table.mark_def_emitted(t);
    assert!(table.def_emitted(t));
    assert_eq!(table.pending_defs_count(), 1);
    assert_eq!(table.pending_defs(), vec![(u, "y".to_string())]);
    table.mark_def_emitted(u);
    assert!(table.all_defs_emitted());
    let all = table.iter();
    assert_eq!(all.len(), 22);
    assert_eq!(all[0], (1, "epoch".to_string()));
    assert_eq!(all[21], (22, "y".to_string()));
}

#[test]
fn table_fingerprint_and_reset() {
    let mut table = SymbolTable::new();
    table.intern("x").unwrap();
    let fp = table.schema_fingerprint();
    assert_ne!(fp, 0);
    assert!(table.schema_matches(fp));
    assert_eq!(table.schema_fingerprint(), fp);
    let copy = table.clone();
    assert_eq!(copy.resolve(21), Some("x"));
    table.reset();
    assert_eq!(table.resolve(21), None);
    assert_eq!(table.next_token(), 21);
    assert_eq!(copy.resolve(21), Some("x"));
}
