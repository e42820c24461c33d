use data_structures::slot_table::SlotTable;

#[test]
fn slot_table_hands_out_free_slots_first() {
    let mut table: SlotTable<String> = SlotTable::new();
    let a = table.insert(String::from("a"));
    let b = table.insert(String::from("b"));
    let c = table.insert(String::from("c"));
    assert_eq!((a, b, c), (0, 1, 2));
    assert_eq!(table.get(b), "b");
    assert_eq!(table.remove(b), "b");
    assert_eq!(table.remove(a), "a");
    let d = table.insert(String::from("d"));
    let e = table.insert(String::from("e"));
    let f = table.insert(String::from("f"));
    assert_eq!((d, e, f), (0, 1, 3));
    assert_eq!(table.get(c), "c");
    assert_eq!(table.get(d), "d");
    assert_eq!(table.get(e), "e");
    assert_eq!(table.get(f), "f");
}

#[test]
fn slot_table_changes_items_in_place() {
    let mut table: SlotTable<u32> = SlotTable::new();
    let a = table.insert(1);
    let b = table.insert(2);
    *table.get_mut(a) = 10;
    *table.get_mut(b) += 18;
    assert_eq!(*table.get(a), 10);
    assert_eq!(*table.get(b), 20);
    assert_eq!(table.remove(a), 10);
    assert_eq!(*table.get(b), 20);
}
