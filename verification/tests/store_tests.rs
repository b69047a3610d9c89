use multi_key_map::MultiKeyMap;

#[test]
fn new_store_is_empty() {
    let map: MultiKeyMap<&str, &str> = MultiKeyMap::new();
    assert!(map.is_empty());
    assert_eq!(map.len(), 0);
    assert_eq!(map.get(&"key1"), None);
    assert!(!map.contains_key(&"key1"));
    assert!(map.keys().is_empty());
}

#[test]
fn insert_get_round_trip() {
    let mut map = MultiKeyMap::new();
    map.insert("key1", "value1");
    assert_eq!(map.get(&"key1"), Some(&"value1"));
    assert!(map.contains_key(&"key1"));
    assert_eq!(map.len(), 1);
    assert!(!map.is_empty());
}

#[test]
fn get_mut_updates_value() {
    let mut map = MultiKeyMap::new();
    map.insert("key1", "value1");
    if let Some(value) = map.get_mut(&"key1") {
        *value = "value2";
    }
    assert_eq!(map.get(&"key1"), Some(&"value2"));
}

#[test]
fn alias_resolves_to_same_value() {
    let mut map = MultiKeyMap::new();
    map.insert("key1", "value1");
    assert_eq!(map.insert_alias(&"key1", "key2"), Some(2));
    assert_eq!(map.get(&"key2"), Some(&"value1"));
    assert!(map.are_aliases(&"key1", &"key2"));
    assert!(!map.are_aliases(&"key1", &"key3"));
    let mut aliases = map.aliases(&"key1").unwrap();
    aliases.sort();
    assert_eq!(aliases, vec!["key1", "key2"]);
    assert_eq!(map.len(), 1);
}

#[test]
fn reference_counting_keeps_value_until_last_alias() {
    let mut map = MultiKeyMap::new();
    map.insert("a1", 7);
    assert_eq!(map.insert_alias(&"a1", "a2"), Some(2));
    assert_eq!(map.insert_alias(&"a1", "a3"), Some(3));
    assert_eq!(map.insert_alias(&"a1", "a4"), Some(4));
    assert_eq!(map.remove_alias(&"a1"), Some(3));
    assert_eq!(map.remove_alias(&"a3"), Some(2));
    assert_eq!(map.remove_alias(&"a4"), Some(1));
    assert_eq!(map.get(&"a2"), Some(&7));
    assert_eq!(map.len(), 1);
    assert_eq!(map.remove_alias(&"a2"), Some(0));
    assert_eq!(map.get(&"a1"), None);
    assert_eq!(map.get(&"a2"), None);
    assert_eq!(map.get(&"a3"), None);
    assert_eq!(map.get(&"a4"), None);
    assert!(map.is_empty());
}

#[test]
fn removing_middle_value_keeps_others_reachable() {
    let mut map = MultiKeyMap::new();
    map.insert("first", 1);
    map.insert("second", 2);
    map.insert("third", 3);
    assert_eq!(map.remove(&"second"), Some(2));
    assert_eq!(map.len(), 2);
    assert_eq!(map.get(&"first"), Some(&1));
    assert_eq!(map.get(&"third"), Some(&3));
    assert_eq!(map.get(&"second"), None);
}

#[test]
fn removing_last_value_keeps_others_reachable() {
    let mut map = MultiKeyMap::new();
    map.insert("first", 1);
    map.insert("second", 2);
    map.insert("third", 3);
    assert_eq!(map.remove(&"third"), Some(3));
    assert_eq!(map.len(), 2);
    assert_eq!(map.get(&"first"), Some(&1));
    assert_eq!(map.get(&"second"), Some(&2));
}

#[test]
fn remove_detaches_all_aliases() {
    let mut map = MultiKeyMap::new();
    map.insert("k1", "v");
    map.insert_alias(&"k1", "k2");
    map.insert_alias(&"k1", "k3");
    assert_eq!(map.remove(&"k1"), Some("v"));
    assert_eq!(map.get(&"k1"), None);
    assert_eq!(map.get(&"k2"), None);
    assert_eq!(map.get(&"k3"), None);
    assert!(map.is_empty());
}

#[test]
fn remove_via_alias_removes_value_for_all_keys() {
    let mut map = MultiKeyMap::new();
    map.insert("k1", "v");
    map.insert_alias(&"k1", "k2");
    assert_eq!(map.remove(&"k2"), Some("v"));
    assert_eq!(map.get(&"k1"), None);
    assert_eq!(map.get(&"k2"), None);
}

#[test]
fn remove_alias_compacts_when_count_reaches_zero() {
    let mut map = MultiKeyMap::new();
    map.insert("solo", 10);
    map.insert("other", 20);
    assert_eq!(map.remove_alias(&"solo"), Some(0));
    assert_eq!(map.len(), 1);
    assert_eq!(map.get(&"solo"), None);
    assert_eq!(map.get(&"other"), Some(&20));
}

#[test]
fn clear_removes_everything() {
    let mut map = MultiKeyMap::new();
    map.insert("key1", "value1");
    map.insert_alias(&"key1", "alias1");
    map.insert("key2", "value2");
    map.clear();
    assert!(map.is_empty());
    assert_eq!(map.len(), 0);
    assert_eq!(map.get(&"key1"), None);
    assert_eq!(map.get(&"alias1"), None);
    assert_eq!(map.get(&"key2"), None);
    assert!(map.keys().is_empty());
}

#[test]
fn equal_structures_compare_equal() {
    let mut map1 = MultiKeyMap::new();
    map1.insert("key1", "value1");
    map1.insert_alias(&"key1", "alias1");

    let mut map2 = MultiKeyMap::new();
    map2.insert("key1", "value1");
    map2.insert_alias(&"key1", "alias1");

    assert!(map1 == map2);

    map2.remove_alias(&"alias1");
    assert!(map1 != map2);
}

#[test]
fn different_values_compare_unequal() {
    let mut map1 = MultiKeyMap::new();
    map1.insert("key1", "value1");

    let mut map2 = MultiKeyMap::new();
    map2.insert("key1", "other");

    assert!(map1 != map2);
}

#[test]
fn clone_is_independent() {
    let mut original = MultiKeyMap::new();
    original.insert("key1", String::from("value1"));
    original.insert_alias(&"key1", "alias1");

    let mut copy = original.clone();
    assert!(original == copy);

    if let Some(value) = copy.get_mut(&"key1") {
        *value = String::from("changed");
    }
    assert_eq!(original.get(&"key1"), Some(&String::from("value1")));
    assert_eq!(copy.get(&"key1"), Some(&String::from("changed")));
    assert_eq!(copy.get(&"alias1"), Some(&String::from("changed")));
    assert!(original != copy);
}

#[test]
fn alias_scenario_counts() {
    let mut map = MultiKeyMap::new();
    map.insert("key1", "value1");
    assert_eq!(map.insert_alias(&"key1", "alias1"), Some(2));
    assert_eq!(map.remove_alias(&"alias1"), Some(1));
    assert_eq!(map.get(&"key1"), Some(&"value1"));
    assert_eq!(map.get(&"alias1"), None);
}

#[test]
fn re_adding_an_existing_alias_keeps_the_count() {
    let mut map = MultiKeyMap::new();
    map.insert("key1", "value1");
    assert_eq!(map.insert_alias(&"key1", "alias1"), Some(2));
    assert_eq!(map.insert_alias(&"key1", "alias1"), Some(2));
    assert_eq!(map.len(), 1);
    let mut aliases = map.aliases(&"alias1").unwrap();
    aliases.sort();
    assert_eq!(aliases, vec!["alias1", "key1"]);
}

#[test]
fn self_alias_is_rejected() {
    let mut map = MultiKeyMap::new();
    map.insert("key1", "value1");
    assert_eq!(map.insert_alias(&"key1", "key1"), None);
    assert_eq!(map.len(), 1);
    assert_eq!(map.get(&"key1"), Some(&"value1"));
}

#[test]
fn alias_of_missing_key_is_rejected() {
    let mut map: MultiKeyMap<&str, &str> = MultiKeyMap::new();
    assert_eq!(map.insert_alias(&"missing", "alias1"), None);
    assert!(map.is_empty());
}

#[test]
fn missing_key_removals_return_none() {
    let mut map = MultiKeyMap::new();
    map.insert("key1", "value1");
    assert_eq!(map.remove(&"missing"), None);
    assert_eq!(map.remove_alias(&"missing"), None);
    assert_eq!(map.len(), 1);
}

#[test]
fn overwriting_insert_repoints_key_and_keeps_old_slot() {
    let mut map = MultiKeyMap::new();
    map.insert("key1", 1);
    map.insert("key1", 2);
    assert_eq!(map.get(&"key1"), Some(&2));
    // The overwritten value's slot is orphaned, not freed.
    assert_eq!(map.len(), 2);
    let keys = map.keys();
    assert_eq!(keys, vec!["key1"]);
}

#[test]
fn alias_reassignment_repoints_existing_key() {
    let mut map = MultiKeyMap::new();
    map.insert("k1", 1);
    map.insert("k2", 2);
    assert_eq!(map.insert_alias(&"k1", "k2"), Some(2));
    assert_eq!(map.get(&"k2"), Some(&1));
    assert!(map.are_aliases(&"k1", &"k2"));
    // The slot that held the reassigned key's old value is orphaned.
    assert_eq!(map.len(), 2);
}

#[test]
fn keys_lists_originals_and_aliases() {
    let mut map = MultiKeyMap::new();
    map.insert("key1", "value1");
    map.insert_alias(&"key1", "alias1");
    map.insert("key2", "value2");
    let mut keys = map.keys();
    keys.sort();
    assert_eq!(keys, vec!["alias1", "key1", "key2"]);
}

#[test]
fn aliases_of_missing_key_is_none() {
    let map: MultiKeyMap<&str, &str> = MultiKeyMap::new();
    assert!(map.aliases(&"key1").is_none());
}

#[test]
fn integer_keys_work() {
    let mut map: MultiKeyMap<u64, u64> = MultiKeyMap::new();
    map.insert(1, 10);
    map.insert(2, 20);
    assert_eq!(map.insert_alias(&1, 3), Some(2));
    assert_eq!(map.get(&3), Some(&10));
    assert_eq!(map.remove(&1), Some(10));
    assert_eq!(map.get(&3), None);
    assert_eq!(map.get(&2), Some(&20));
    assert_eq!(map.len(), 1);
}
