use food_inventory::store::{Food, Foods};

fn sample(id: i64, name: &str, stock: i32, price: i32) -> Food {
    Food { id, name: String::from(name), stock, price }
}

#[test]
fn next_id_empty_store_is_one() {
    let store = Foods::new();
    assert_eq!(store.next_id(), 1);
}

#[test]
fn next_id_is_max_plus_one() {
    let mut store = Foods::new();
    store.add(sample(1, "A", 1, 1));
    store.add(sample(3, "B", 2, 2));
    store.add(sample(5, "C", 3, 3));
    assert_eq!(store.next_id(), 6);
}

#[test]
fn next_id_ignores_gaps_and_order() {
    let mut store = Foods::new();
    store.add(sample(5, "C", 3, 3));
    store.add(sample(1, "A", 1, 1));
    assert_eq!(store.next_id(), 6);
}

#[test]
fn next_id_saturates_at_top_of_range() {
    let mut store = Foods::new();
    store.add(sample(i64::MAX, "Top", 1, 1));
    assert_eq!(store.next_id(), i64::MAX);
}

#[test]
fn next_id_with_negative_ids() {
    let mut store = Foods::new();
    store.add(sample(-5, "Neg", 1, 1));
    assert_eq!(store.next_id(), -4);
}

#[test]
fn remove_missing_id_changes_nothing() {
    let mut store = Foods::new();
    store.add(sample(1, "Soup", 10, 5000));
    store.add(sample(2, "Rice", 20, 15000));
    let removed = store.remove(99);
    assert!(removed.is_none());
    let all = store.into_vec();
    assert_eq!(all.len(), 2);
    assert_eq!(all[0].id, 1);
    assert_eq!(all[0].name, "Soup");
    assert_eq!(all[1].id, 2);
    assert_eq!(all[1].name, "Rice");
}

#[test]
fn remove_existing_id_returns_the_record() {
    let mut store = Foods::new();
    store.add(sample(1, "Soup", 10, 5000));
    store.add(sample(2, "Rice", 20, 15000));
    let removed = store.remove(1).expect("record 1 should be there");
    assert_eq!(removed.id, 1);
    assert_eq!(removed.name, "Soup");
    assert_eq!(removed.stock, 10);
    assert_eq!(removed.price, 5000);
    let all = store.into_vec();
    assert_eq!(all.len(), 1);
    assert_eq!(all[0].id, 2);
}

#[test]
fn add_overwrites_record_with_same_id() {
    let mut store = Foods::new();
    store.add(sample(1, "Soup", 10, 5000));
    store.add(sample(1, "Stew", 7, 6000));
    let all = store.into_vec();
    assert_eq!(all.len(), 1);
    assert_eq!(all[0].name, "Stew");
    assert_eq!(all[0].stock, 7);
    assert_eq!(all[0].price, 6000);
}

#[test]
fn edit_overwrites_all_fields_but_the_id() {
    let mut store = Foods::new();
    store.add(sample(4, "Soup", 10, 5000));
    store.edit(4, "Broth", 3, 4500);
    let all = store.into_vec();
    assert_eq!(all.len(), 1);
    assert_eq!(all[0].id, 4);
    assert_eq!(all[0].name, "Broth");
    assert_eq!(all[0].stock, 3);
    assert_eq!(all[0].price, 4500);
}

#[test]
fn edit_inserts_when_the_id_is_absent() {
    let mut store = Foods::new();
    store.edit(9, "New", 1, 2);
    let all = store.into_vec();
    assert_eq!(all.len(), 1);
    assert_eq!(all[0].id, 9);
    assert_eq!(all[0].name, "New");
}

#[test]
fn into_vec_sorts_ascending_by_id() {
    let mut store = Foods::new();
    store.add(sample(3, "C", 1, 1));
    store.add(sample(1, "A", 1, 1));
    store.add(sample(-2, "Z", 1, 1));
    store.add(sample(2, "B", 1, 1));
    let all = store.into_vec();
    let ids: Vec<i64> = all.iter().map(|f| f.id).collect();
    assert_eq!(ids, vec![-2, 1, 2, 3]);
}

#[test]
fn search_matches_case_insensitively() {
    let mut store = Foods::new();
    store.add(sample(1, "Fried Rice", 20, 15000));
    store.add(sample(2, "Noodles", 15, 12000));
    let hits = store.search("rice");
    assert_eq!(hits.len(), 1);
    assert_eq!(hits[0].id, 1);
    assert_eq!(hits[0].name, "Fried Rice");
    let hits_upper = store.search("RICE");
    assert_eq!(hits_upper.len(), 1);
    assert_eq!(hits_upper[0].id, 1);
}

#[test]
fn search_without_match_is_empty() {
    let mut store = Foods::new();
    store.add(sample(1, "Fried Rice", 20, 15000));
    assert!(store.search("pizza").is_empty());
}

#[test]
fn search_empty_query_matches_everything() {
    let mut store = Foods::new();
    store.add(sample(1, "Fried Rice", 20, 15000));
    store.add(sample(2, "Noodles", 15, 12000));
    assert_eq!(store.search("").len(), 2);
}

#[test]
fn duplicate_copies_every_field() {
    let f = sample(7, "Soup", 10, 5000);
    let g = f.duplicate();
    assert_eq!(g.id, f.id);
    assert_eq!(g.name, f.name);
    assert_eq!(g.stock, f.stock);
    assert_eq!(g.price, f.price);
}
