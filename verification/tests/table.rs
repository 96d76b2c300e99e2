use hash_table::table::{HashTable, HashTableErrors, KeyValuePair};

#[test]
fn insert_no_collision() {
    let mut table = HashTable::<u64, &'static str, _>::new(|x: &u64| (x % 8) as usize, 8);
    assert!(table.insert(12, "hi").is_ok());
    assert!(table.array[4].as_ref().unwrap().key == 12);
    assert!(table.array[4].as_ref().unwrap().value == "hi");
}

#[test]
fn insert_with_collision() {
    let mut table = HashTable::<u64, &'static str, _>::new(|x: &u64| (x % 8) as usize, 8);
    assert!(table.insert(12, "hi").is_ok());
    assert!(table.insert(20, "bye").is_ok());
    assert!(table.array[4].as_ref().unwrap().key == 12);
    assert!(table.array[4].as_ref().unwrap().value == "hi");
    assert!(table.array[5].as_ref().unwrap().key == 20);
    assert!(table.array[5].as_ref().unwrap().value == "bye");
}

#[test]
fn lookup() {
    let mut table = HashTable::<u64, &'static str, _>::new(|x: &u64| (x % 8) as usize, 8);
    assert!(table.insert(12, "hi").is_ok());
    assert!(table.insert(20, "bye").is_ok());
    assert!(table.lookup(12).unwrap() == &"hi");
    assert!(table.lookup(20).unwrap() == &"bye");
}

#[test]
fn key_value_pair_new() {
    let pair = KeyValuePair::new(3u64, "three");
    assert!(pair.key == 3);
    assert!(pair.value == "three");
}

#[test]
fn update_overwrites_value_in_place() {
    let mut table = HashTable::<u64, &'static str, _>::new(|x: &u64| (x % 8) as usize, 8);
    assert!(table.insert(12, "old").is_ok());
    assert!(table.insert(12, "new").is_ok());
    assert!(table.array[4].as_ref().unwrap().key == 12);
    assert!(table.array[4].as_ref().unwrap().value == "new");
    let occupied = table.array.iter().filter(|slot| slot.is_some()).count();
    assert_eq!(occupied, 1);
    assert!(table.lookup(12).unwrap() == &"new");
}

#[test]
fn probe_wraps_around_the_end() {
    let mut table = HashTable::<u64, &'static str, _>::new(|x: &u64| (x % 8) as usize, 8);
    assert!(table.insert(7, "seven").is_ok());
    assert!(table.insert(15, "fifteen").is_ok());
    assert!(table.array[7].as_ref().unwrap().key == 7);
    assert!(table.array[0].as_ref().unwrap().key == 15);
    assert!(table.lookup(7).unwrap() == &"seven");
    assert!(table.lookup(15).unwrap() == &"fifteen");
}

#[test]
fn full_table_rejects_new_key() {
    let mut table = HashTable::<u64, &'static str, _>::new(|x: &u64| (x % 2) as usize, 2);
    assert!(table.insert(0, "a").is_ok());
    assert!(table.insert(1, "b").is_ok());
    let result = table.insert(2, "c");
    assert!(matches!(result, Err(HashTableErrors::IsFull)));
    assert!(table.array[0].as_ref().unwrap().key == 0);
    assert!(table.array[0].as_ref().unwrap().value == "a");
    assert!(table.array[1].as_ref().unwrap().key == 1);
    assert!(table.array[1].as_ref().unwrap().value == "b");
}

#[test]
fn hash_at_capacity_is_rejected() {
    let mut table = HashTable::<u64, &'static str, _>::new(|_x: &u64| 8, 8);
    let result = table.insert(1, "x");
    assert!(matches!(result, Err(HashTableErrors::HashFunctionRange)));
    assert!(table.array.iter().all(|slot| slot.is_none()));
}

#[test]
fn hash_past_capacity_is_rejected() {
    let mut table = HashTable::<u64, &'static str, _>::new(|_x: &u64| 1000, 8);
    let result = table.insert(1, "x");
    assert!(matches!(result, Err(HashTableErrors::HashFunctionRange)));
}

#[test]
fn zero_capacity_rejects_every_insert() {
    let mut table = HashTable::<u64, &'static str, _>::new(|x: &u64| (x % 8) as usize, 0);
    let result = table.insert(1, "x");
    assert!(matches!(result, Err(HashTableErrors::HashFunctionRange)));
}

#[test]
fn lookup_missing_key_with_empty_home_slot() {
    let mut table = HashTable::<u64, &'static str, _>::new(|x: &u64| (x % 8) as usize, 8);
    assert!(table.insert(12, "hi").is_ok());
    assert!(table.lookup(3).is_none());
}

#[test]
fn lookup_missing_key_with_occupied_home_slot() {
    let mut table = HashTable::<u64, &'static str, _>::new(|x: &u64| (x % 8) as usize, 8);
    assert!(table.insert(12, "hi").is_ok());
    assert!(table.insert(20, "bye").is_ok());
    assert!(table.lookup(28).is_none());
}

#[test]
fn lookup_missing_key_in_full_table() {
    let mut table = HashTable::<u64, &'static str, _>::new(|x: &u64| (x % 2) as usize, 2);
    assert!(table.insert(0, "a").is_ok());
    assert!(table.insert(1, "b").is_ok());
    assert!(table.lookup(2).is_none());
    assert!(table.lookup(3).is_none());
}
