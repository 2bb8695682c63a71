use esostats::model::{MasterTable, ItemSet};
use esostats::resolve::build_resolver;
use esostats::intern::InternTable;

fn item_set(id: u16, name: &str) -> ItemSet {
    ItemSet { id, name: name.to_string() }
}

fn sets_table(sets: Vec<ItemSet>) -> MasterTable {
    MasterTable { rows: Vec::new(), players: Vec::new(), skills: Vec::new(), sets }
}

#[test]
fn resolver_maps_variants_to_base_member() {
    let t = sets_table(vec![
        item_set(1, "Perfected Mantle"),
        item_set(2, "Mantle"),
        item_set(3, "Cuirass"),
    ]);
    let r = build_resolver(&t);
    // both variants resolve to the non-prefixed member
    assert_eq!(r.resolve(1), 2);
    assert_eq!(r.resolve(2), 2);
    assert_eq!(r.resolve(3), 3);
    // id 0 and unknown ids pass through unchanged
    assert_eq!(r.resolve(0), 0);
    assert_eq!(r.resolve(77), 77);
}

#[test]
fn resolver_without_base_member_uses_first_listed() {
    let t = sets_table(vec![
        item_set(1, "Perfected Relic"),
        item_set(2, "Perfected Relic"),
    ]);
    let r = build_resolver(&t);
    assert_eq!(r.resolve(1), 1);
    assert_eq!(r.resolve(2), 1);
}

#[test]
fn resolution_is_idempotent() {
    let t = sets_table(vec![
        item_set(1, "Perfected Mantle"),
        item_set(2, "Mantle"),
        item_set(3, "Perfected Relic"),
        item_set(4, "Cuirass"),
        item_set(5, "Perfected Cuirass"),
    ]);
    let r = build_resolver(&t);
    for id in 0..8u16 {
        assert_eq!(r.resolve(r.resolve(id)), r.resolve(id));
    }
}

#[test]
fn intern_table_assigns_dense_ids_push_if_absent() {
    let mut t = InternTable::new();
    assert_eq!(t.len(), 0);
    let a = t.get_or_insert("alpha".to_string());
    let b = t.get_or_insert("beta".to_string());
    let a2 = t.get_or_insert("alpha".to_string());
    assert_eq!(a, 1);
    assert_eq!(b, 2);
    assert_eq!(a2, 1);
    assert_eq!(t.len(), 2);
    assert_eq!(t.lookup(&"beta".to_string()), Some(2));
    assert_eq!(t.lookup(&"gamma".to_string()), None);
    assert_eq!(t.name_of(1), Some("alpha".to_string()));
    assert_eq!(t.name_of(3), None);
}
