use bills::store::Bill;
use bills::store::Bills;

fn amount_of(store: &Bills, name: &str) -> Option<u64> {
    let all = store.get_all();
    for b in all {
        if b.name == name {
            return Some(b.amount);
        }
    }
    None
}

#[test]
fn two_distinct_adds() {
    let mut store = Bills::new();
    store.add(Bill { name: "Rent".to_string(), amount: 1200.0f64.to_bits() });
    store.add(Bill { name: "Power".to_string(), amount: 45.5f64.to_bits() });
    let all = store.get_all();
    assert_eq!(all.len(), 2);
    assert_eq!(amount_of(&store, "Rent"), Some(1200.0f64.to_bits()));
    assert_eq!(amount_of(&store, "Power"), Some(45.5f64.to_bits()));
    assert_eq!(f64::from_bits(amount_of(&store, "Rent").unwrap()), 1200.0);
    assert_eq!(f64::from_bits(amount_of(&store, "Power").unwrap()), 45.5);
}

#[test]
fn add_same_name_overwrites() {
    let mut store = Bills::new();
    store.add(Bill { name: "Rent".to_string(), amount: 1200.0f64.to_bits() });
    store.add(Bill { name: "Rent".to_string(), amount: 1300.0f64.to_bits() });
    let all = store.get_all();
    assert_eq!(all.len(), 1);
    assert_eq!(all[0].name, "Rent");
    assert_eq!(f64::from_bits(all[0].amount), 1300.0);
}

#[test]
fn remove_absent_returns_false() {
    let mut store = Bills::new();
    assert!(!store.remove("Rent"));
    assert_eq!(store.get_all().len(), 0);
}

#[test]
fn remove_present_returns_true_and_name_is_gone() {
    let mut store = Bills::new();
    store.add(Bill { name: "Rent".to_string(), amount: 1200.0f64.to_bits() });
    store.add(Bill { name: "Power".to_string(), amount: 45.5f64.to_bits() });
    assert!(store.remove("Rent"));
    let all = store.get_all();
    assert_eq!(all.len(), 1);
    assert_eq!(amount_of(&store, "Rent"), None);
    assert_eq!(amount_of(&store, "Power"), Some(45.5f64.to_bits()));
    assert!(!store.remove("Rent"));
}

#[test]
fn update_absent_returns_false_and_mutates_nothing() {
    let mut store = Bills::new();
    store.add(Bill { name: "Power".to_string(), amount: 45.5f64.to_bits() });
    assert!(!store.update("Rent", 1.0f64.to_bits()));
    let all = store.get_all();
    assert_eq!(all.len(), 1);
    assert_eq!(amount_of(&store, "Power"), Some(45.5f64.to_bits()));
}

#[test]
fn update_present_sets_amount_in_place() {
    let mut store = Bills::new();
    store.add(Bill { name: "Rent".to_string(), amount: 1200.0f64.to_bits() });
    store.add(Bill { name: "Power".to_string(), amount: 45.5f64.to_bits() });
    assert!(store.update("Rent", 999.25f64.to_bits()));
    let all = store.get_all();
    assert_eq!(all.len(), 2);
    assert_eq!(amount_of(&store, "Rent"), Some(999.25f64.to_bits()));
    assert_eq!(amount_of(&store, "Power"), Some(45.5f64.to_bits()));
}

#[test]
fn many_distinct_adds_all_kept() {
    let mut store = Bills::new();
    let names = ["a", "b", "c", "d", "e"];
    for (i, n) in names.iter().enumerate() {
        store.add(Bill { name: n.to_string(), amount: (i as f64).to_bits() });
    }
    let all = store.get_all();
    assert_eq!(all.len(), names.len());
    for (i, n) in names.iter().enumerate() {
        assert_eq!(amount_of(&store, n), Some((i as f64).to_bits()));
    }
}

#[test]
fn negative_and_zero_amounts_are_kept_exactly() {
    let mut store = Bills::new();
    store.add(Bill { name: "refund".to_string(), amount: (-12.75f64).to_bits() });
    store.add(Bill { name: "zero".to_string(), amount: 0.0f64.to_bits() });
    assert_eq!(f64::from_bits(amount_of(&store, "refund").unwrap()), -12.75);
    assert_eq!(f64::from_bits(amount_of(&store, "zero").unwrap()), 0.0);
}
