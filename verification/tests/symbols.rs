use std::collections::BTreeMap;

use jbm::symbols::{find_finish_task_switch, SymbolTable};

#[test]
fn prefers_exact_finish_task_switch_symbol() {
    let symbols = BTreeMap::from([
        (1, "finish_task_switch.isra.0".to_string()),
        (2, "finish_task_switch".to_string()),
    ]);
    assert_eq!(
        find_finish_task_switch(&symbols),
        Some("finish_task_switch")
    );
}

#[test]
fn accepts_non_cold_compiler_suffix() {
    let symbols = BTreeMap::from([
        (1, "finish_task_switch.isra.0.cold".to_string()),
        (2, "finish_task_switch.isra.0".to_string()),
    ]);
    assert_eq!(
        find_finish_task_switch(&symbols),
        Some("finish_task_switch.isra.0")
    );
}

#[test]
fn takes_the_variant_with_the_lowest_address() {
    let symbols = BTreeMap::from([
        (9, "finish_task_switch.constprop.1".to_string()),
        (4, "finish_task_switch.isra.0".to_string()),
    ]);
    assert_eq!(
        find_finish_task_switch(&symbols),
        Some("finish_task_switch.isra.0")
    );
}

#[test]
fn other_symbols_are_no_substitute() {
    let symbols = BTreeMap::from([
        (1, "finish_task_switches".to_string()),
        (2, "prepare_task_switch".to_string()),
        (3, "finish_task_switch.cold".to_string()),
    ]);
    assert_eq!(find_finish_task_switch(&symbols), None);
    assert_eq!(find_finish_task_switch(&BTreeMap::new()), None);
}

#[test]
fn an_address_resolves_to_the_last_symbol_at_or_before_it() {
    let table = SymbolTable::new(&BTreeMap::from([
        (0x100, "first".to_string()),
        (0x200, "second".to_string()),
        (0x300, "third".to_string()),
    ]));
    assert_eq!(table.resolve(0xff), None);
    assert_eq!(table.resolve(0x100).map(String::as_str), Some("first"));
    assert_eq!(table.resolve(0x1ff).map(String::as_str), Some("first"));
    assert_eq!(table.resolve(0x200).map(String::as_str), Some("second"));
    assert_eq!(table.resolve(u64::MAX).map(String::as_str), Some("third"));
    assert_eq!(SymbolTable::new(&BTreeMap::new()).resolve(7), None);
}
