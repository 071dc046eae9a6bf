use learn_std::HashMap;

#[test]
fn test_hash_map() {
    let mut map = HashMap::with_capacity(1);
    map.insert("key1".to_string(), "value1");
    map.insert("key2".to_string(), "value2");
    assert_eq!(map.get(&"key1".to_string()), Some(&"value1"));
    assert_eq!(map.get(&"key2".to_string()), Some(&"value2"));
    assert_eq!(map.get(&"key3".to_string()), None);
    assert_eq!(map.remove(&"key1".to_string()), Some("value1"));
    assert_eq!(map.get(&"key1".to_string()), None);
}

#[test]
fn test_match_group() {
    let map: HashMap<(), ()> = HashMap::with_capacity(1);
    let tag = 0x7A; // 0b01111010
    let group_bytes = 0xFF7AFEFFFE7A7AFF;
    assert_eq!(map.match_group(group_bytes, tag), 0b01000110);
}

use learn_std::HashKey;

#[test]
fn hash_map_fresh_finds_nothing() {
    let mut map: HashMap<u64, u64> = HashMap::new();
    assert_eq!(map.get(&1), None);
    assert_eq!(map.remove(&1), None);
    let map: HashMap<u64, u64> = HashMap::with_capacity(20);
    assert_eq!(map.get(&7), None);
}

#[test]
fn hash_map_insert_into_new_allocates() {
    let mut map = HashMap::new();
    map.insert(3u64, "three");
    assert_eq!(map.get(&3), Some(&"three"));
    assert_eq!(map.get(&4), None);
}

#[test]
fn hash_map_many_keys_survive_growth() {
    let mut map = HashMap::with_capacity(1);
    for k in 0..1000u64 {
        map.insert(k, k * 10);
    }
    for k in 0..1000u64 {
        assert_eq!(map.get(&k), Some(&(k * 10)));
    }
    assert_eq!(map.get(&1000), None);
    for k in (0..1000u64).step_by(2) {
        assert_eq!(map.remove(&k), Some(k * 10));
    }
    for k in 0..1000u64 {
        if k % 2 == 0 {
            assert_eq!(map.get(&k), None);
        } else {
            assert_eq!(map.get(&k), Some(&(k * 10)));
        }
    }
    for k in (0..1000u64).step_by(2) {
        map.insert(k, k + 1);
    }
    for k in (0..1000u64).step_by(2) {
        assert_eq!(map.get(&k), Some(&(k + 1)));
    }
}

#[test]
fn hash_map_remove_then_insert_again() {
    let mut map = HashMap::with_capacity(4);
    map.insert("a".to_string(), 1);
    assert_eq!(map.remove(&"a".to_string()), Some(1));
    assert_eq!(map.remove(&"a".to_string()), None);
    map.insert("a".to_string(), 2);
    assert_eq!(map.get(&"a".to_string()), Some(&2));
}

#[test]
fn hash_map_second_insert_of_a_key_is_shadowed() {
    // A second insertion of a key stores a second entry after the first one;
    // lookups find the first until it is removed.
    let mut map = HashMap::with_capacity(8);
    map.insert(5u64, "first");
    map.insert(5u64, "second");
    assert_eq!(map.get(&5), Some(&"first"));
    assert_eq!(map.remove(&5), Some("first"));
    assert_eq!(map.get(&5), Some(&"second"));
    assert_eq!(map.remove(&5), Some("second"));
    assert_eq!(map.get(&5), None);
}

#[test]
fn match_group_flags_every_match() {
    let map: HashMap<(), ()> = HashMap::new();
    assert_eq!(map.match_group(0xFFFFFFFFFFFFFFFF, 0xFF), 0xFF);
    assert_eq!(map.match_group(0x0001020304050607, 0xFF), 0);
    assert_eq!(map.match_group(0x0001020304050607, 0x00), 0b10000000);
    assert_eq!(map.match_group(0x0001020304050607, 0x07), 0b00000001);
    assert_eq!(map.match_group(0xFEFEFEFEFEFEFEFE, 0xFE), 0xFF);
}

#[test]
fn hash_keys_are_deterministic() {
    assert_eq!(42u64.key_hash(), 42u64.key_hash());
    assert_eq!("abc".to_string().key_hash(), "abc".to_string().key_hash());
    assert_ne!("abc".to_string().key_hash(), "abd".to_string().key_hash());
    assert_eq!(().key_hash(), ().key_hash());
    assert!("x".to_string().key_eq(&"x".to_string()));
    assert!(!"x".to_string().key_eq(&"y".to_string()));
    assert!(7u64.key_eq(&7));
    assert!(!7u64.key_eq(&8));
}

#[test]
fn hash_map_text_of_fresh_table() {
    let map: HashMap<u64, u64> = HashMap::with_capacity(3);
    let mut expected = String::from("{\n");
    for i in 0..8 {
        expected.push_str(&format!("group {}: empty\n", i));
    }
    expected.push_str("}\n");
    assert_eq!(map.to_string(), expected);
}

#[test]
fn hash_map_text_shows_entries_and_deleted_slots() {
    let mut map = HashMap::with_capacity(8);
    map.insert(1u64, 100u64);
    map.insert(2u64, 200u64);
    map.remove(&2);
    let text = map.to_string();
    assert!(text.starts_with("{\n"));
    assert!(text.ends_with("}\n"));
    assert_eq!(text.lines().count(), 10);
    assert_eq!(text.matches("): 1 => 100\n").count(), 1);
    assert_eq!(text.matches(": deleted\n").count(), 1);
    assert_eq!(text.matches(": empty\n").count(), 6);
    assert!(text.contains("occupied (tag: "));
    assert!(!text.contains("200"));
}

#[test]
fn hash_map_text_of_unallocated_table() {
    let map: HashMap<u64, u64> = HashMap::new();
    assert_eq!(map.to_string(), "{\n}\n");
}

#[test]
fn hash_map_insert_then_remove_restores_lookups() {
    let mut map = HashMap::with_capacity(2);
    map.insert("a".to_string(), 1);
    map.insert("b".to_string(), 2);
    map.insert("c".to_string(), 3);
    assert_eq!(map.remove(&"c".to_string()), Some(3));
    assert_eq!(map.get(&"a".to_string()), Some(&1));
    assert_eq!(map.get(&"b".to_string()), Some(&2));
    assert_eq!(map.get(&"c".to_string()), None);
}

#[test]
fn hash_map_with_capacity_zero_has_no_table() {
    let mut map: HashMap<u64, u8> = HashMap::with_capacity(0);
    assert_eq!(map.to_string(), "{\n}\n");
    map.insert(9, 1);
    assert_eq!(map.get(&9), Some(&1));
    assert_eq!(map.to_string().lines().count(), 10);
}

#[test]
fn hash_map_unit_key_holds_one_entry() {
    let mut map: HashMap<(), u8> = HashMap::new();
    assert_eq!(map.get(&()), None);
    map.insert((), 4);
    assert_eq!(map.get(&()), Some(&4));
    assert_eq!(map.remove(&()), Some(4));
    assert_eq!(map.get(&()), None);
}

#[test]
fn hash_map_many_string_keys() {
    let mut map = HashMap::new();
    for i in 0..300u32 {
        map.insert(format!("key{}", i), i);
    }
    for i in 0..300u32 {
        assert_eq!(map.get(&format!("key{}", i)), Some(&i));
    }
    assert_eq!(map.get(&"key300".to_string()), None);
}

#[test]
fn hash_map_grows_when_half_full() {
    let mut map = HashMap::with_capacity(8);
    for k in 0..4u64 {
        map.insert(k, k);
    }
    // Eight slots take three new keys, and the fourth, before growing.
    assert_eq!(map.to_string().lines().count(), 10);
    map.insert(4, 4);
    assert_eq!(map.to_string().lines().count(), 18);
    for k in 0..5u64 {
        assert_eq!(map.get(&k), Some(&k));
    }
}

#[test]
fn hash_map_growth_keeps_both_entries_of_a_key() {
    let mut map = HashMap::with_capacity(8);
    map.insert(5u64, "first");
    map.insert(5u64, "second");
    map.insert(6u64, "six");
    map.insert(7u64, "seven");
    map.insert(8u64, "eight");
    assert_eq!(map.to_string().lines().count(), 18);
    assert_eq!(map.get(&6), Some(&"six"));
    let a = map.remove(&5).unwrap();
    let b = map.remove(&5).unwrap();
    assert!((a, b) == ("first", "second") || (a, b) == ("second", "first"));
    assert_eq!(map.remove(&5), None);
    assert_eq!(map.get(&8), Some(&"eight"));
}

#[test]
fn hash_keys_of_other_integer_types() {
    let mut map = HashMap::new();
    map.insert(-3i64, 'a');
    map.insert(4i64, 'b');
    assert_eq!(map.get(&-3), Some(&'a'));
    assert_eq!(map.get(&3), None);
    let mut small = HashMap::new();
    for k in 0..=255u8 {
        small.insert(k, k as u32);
    }
    for k in 0..=255u8 {
        assert_eq!(small.get(&k), Some(&(k as u32)));
    }
    let mut mid: HashMap<u16, u8> = HashMap::new();
    mid.insert(300, 1);
    assert_eq!(mid.get(&300), Some(&1));
    let mut wide: HashMap<u32, u8> = HashMap::new();
    wide.insert(70000, 2);
    assert_eq!(wide.remove(&70000), Some(2));
    let mut signed: HashMap<i32, u8> = HashMap::new();
    signed.insert(-1, 3);
    assert_eq!(signed.get(&-1), Some(&3));
}

fn std_hash<T: std::hash::Hash + ?Sized>(value: &T) -> u64 {
    let mut hasher = std::hash::DefaultHasher::new();
    value.hash(&mut hasher);
    std::hash::Hasher::finish(&hasher)
}

#[test]
fn hash_keys_agree_with_std_hash() {
    assert_eq!(42u64.key_hash(), std_hash(&42u64));
    assert_eq!(42u32.key_hash(), std_hash(&42u32));
    assert_eq!(42u16.key_hash(), std_hash(&42u16));
    assert_eq!(42u8.key_hash(), std_hash(&42u8));
    assert_eq!(u128::MAX.key_hash(), std_hash(&u128::MAX));
    assert_eq!(12345usize.key_hash(), std_hash(&12345usize));
    assert_eq!((-42i64).key_hash(), std_hash(&-42i64));
    assert_eq!((-42i32).key_hash(), std_hash(&-42i32));
    assert_eq!((-42i16).key_hash(), std_hash(&-42i16));
    assert_eq!((-42i8).key_hash(), std_hash(&-42i8));
    assert_eq!(i128::MIN.key_hash(), std_hash(&i128::MIN));
    assert_eq!((-12345isize).key_hash(), std_hash(&-12345isize));
    assert_eq!(true.key_hash(), std_hash(&true));
    assert_eq!(false.key_hash(), std_hash(&false));
    assert_eq!('\u{e9}'.key_hash(), std_hash(&'\u{e9}'));
    assert_eq!("h\u{e9}llo".key_hash(), std_hash("h\u{e9}llo"));
    assert_eq!("h\u{e9}llo".to_string().key_hash(), std_hash(&"h\u{e9}llo".to_string()));
    assert_eq!(().key_hash(), std_hash(&()));
}

#[test]
fn hash_map_keys_of_further_types() {
    let mut flags: HashMap<bool, u8> = HashMap::new();
    flags.insert(true, 1);
    flags.insert(false, 0);
    assert_eq!(flags.get(&true), Some(&1));
    assert_eq!(flags.get(&false), Some(&0));
    let mut letters: HashMap<char, u32> = HashMap::new();
    for (i, c) in "abcd\u{e9}z".chars().enumerate() {
        letters.insert(c, i as u32);
    }
    assert_eq!(letters.get(&'\u{e9}'), Some(&4));
    assert_eq!(letters.get(&'y'), None);
    let mut words: HashMap<&str, usize> = HashMap::new();
    words.insert("one", 1);
    words.insert("two", 2);
    assert_eq!(words.get(&"two"), Some(&2));
    assert_eq!(words.get(&"tw"), None);
    assert!("same".key_eq(&"same"));
    assert!(!"same".key_eq(&"sane"));
    assert!(!"same".key_eq(&"sam"));
    let mut small: HashMap<i8, i16> = HashMap::new();
    for k in -128i8..=127 {
        small.insert(k, -(k as i16));
    }
    assert_eq!(small.get(&-128), Some(&128));
    assert_eq!(small.get(&127), Some(&-127));
    let mut mid: HashMap<i16, u8> = HashMap::new();
    mid.insert(-300, 9);
    assert_eq!(mid.get(&-300), Some(&9));
    let mut wide: HashMap<u128, u8> = HashMap::new();
    wide.insert(1u128 << 100, 7);
    assert_eq!(wide.get(&(1u128 << 100)), Some(&7));
    assert_eq!(wide.get(&1), None);
    let mut sizes: HashMap<usize, u8> = HashMap::new();
    sizes.insert(usize::MAX, 5);
    assert_eq!(sizes.remove(&usize::MAX), Some(5));
    assert_eq!(sizes.get(&usize::MAX), None);
    let mut signed_wide: HashMap<i128, u8> = HashMap::new();
    signed_wide.insert(-1, 1);
    assert_eq!(signed_wide.get(&-1), Some(&1));
    let mut signed_sizes: HashMap<isize, u8> = HashMap::new();
    signed_sizes.insert(isize::MIN, 2);
    assert_eq!(signed_sizes.get(&isize::MIN), Some(&2));
    assert_eq!(signed_sizes.get(&0), None);
}

#[test]
fn hash_map_entry_sits_at_its_home_slot_under_its_tag() {
    let mut map = HashMap::with_capacity(8);
    map.insert(5u64, 1u64);
    let hash = 5u64.key_hash() as usize;
    let slot = hash & 7;
    let tag = hash & 0x7F;
    let text = map.to_string();
    let line = format!("group {}: occupied (tag: {}): 5 => 1\n", slot, tag);
    assert!(text.contains(&line));
    assert_eq!(text.matches(": empty\n").count(), 7);
}

#[test]
fn hash_map_lookups_follow_a_history_of_calls() {
    let mut map = HashMap::new();
    let mut model = std::collections::HashMap::new();
    let mut state = 7u64;
    for step in 0..600u64 {
        state = state.wrapping_mul(6364136223846793005).wrapping_add(1442695040888963407);
        let key = (state >> 33) % 64;
        if step % 3 == 2 {
            assert_eq!(map.remove(&key), model.remove(&key));
        } else if model.contains_key(&key) {
            assert_eq!(map.remove(&key), model.remove(&key));
            map.insert(key, step);
            model.insert(key, step);
        } else {
            map.insert(key, step);
            model.insert(key, step);
        }
        for probe in 0..64u64 {
            assert_eq!(map.get(&probe), model.get(&probe));
        }
    }
}
