use ordered_table::hashing::key_to_index;
use ordered_table::probing::next_slot;
use ordered_table::table::optimal_initial_size_factor;
use ordered_table::table::HashMap;
use ordered_table::table::MapItem;
use ordered_table::table::TableError;
use ordered_table::table::GROWTH_FACTOR;
use ordered_table::words::words;
use ordered_table::words::WORD_PATTERN;
use std::collections::hash_map::DefaultHasher;
use std::hash::Hash;
use std::hash::Hasher;

const WORDS: [&str; 4] = ["abcd", "1984", "Gutenberg", "eBook"];

fn table_of_words() -> HashMap {
    let mut table = HashMap::new(WORDS.len());
    for (place, word) in WORDS.iter().enumerate() {
        table.insert(MapItem::new(word, place as i32 + 100)).unwrap();
    }
    table
}

fn pairs(table: &HashMap) -> Vec<(String, i32)> {
    table.entries()
}

fn pair(key: &str, value: i32) -> (String, i32) {
    (key.to_string(), value)
}

/// A key, not among `taken`, whose probe in a table of `capacity` slots
/// starts at `start`.
fn key_starting_at(start: usize, capacity: usize, taken: &[String]) -> String {
    let mut n = 0usize;
    loop {
        let candidate = format!("key{}", n);
        if key_to_index(&candidate, capacity) == start && !taken.contains(&candidate) {
            return candidate;
        }
        n += 1;
    }
}

#[test]
fn size_is_guess_times_growth_factor() {
    assert_eq!(GROWTH_FACTOR, 2);
    assert_eq!(optimal_initial_size_factor(4), 8);
    assert_eq!(optimal_initial_size_factor(0), 0);
    assert_eq!(optimal_initial_size_factor(21), 42);
}

#[test]
fn start_index_is_hash_modulo_length() {
    for word in WORDS.iter().chain(["", "asdf", "naïve"].iter()) {
        for len in [1usize, 2, 7, 8, 1000] {
            let mut hasher = DefaultHasher::new();
            word.hash(&mut hasher);
            let expected = (hasher.finish() as usize) % len;
            assert_eq!(key_to_index(word, len), expected);
            assert!(key_to_index(word, len) < len);
        }
    }
}

#[test]
fn start_index_depends_on_the_key() {
    let starts: Vec<usize> = (0..64).map(|n| key_to_index(&format!("key{}", n), 1 << 20)).collect();
    let first = starts[0];
    assert!(starts.iter().any(|start| *start != first));
}

#[test]
fn probe_steps_wrap_at_the_end() {
    assert_eq!(next_slot(0, 8), 1);
    assert_eq!(next_slot(6, 8), 7);
    assert_eq!(next_slot(7, 8), 0);
    assert_eq!(next_slot(0, 1), 0);
}

#[test]
fn new_item_is_unlinked() {
    let item = MapItem::new("test", 33);
    assert_eq!(item.key, "test");
    assert_eq!(item.value, 33);
    assert_eq!(item.index_prev, None);
    assert_eq!(item.index_next, None);
}

#[test]
fn fresh_table_holds_nothing() {
    for size in [0usize, 1, 4, 100] {
        let table = HashMap::new(size);
        assert!(table.get_first().is_none());
        assert!(table.get_last().is_none());
        assert_eq!(table.get("abcd"), None);
        assert_eq!(table.get(""), None);
        assert!(table.entries().is_empty());
    }
}

#[test]
fn stored_values_are_found_again() {
    let mut table = HashMap::new(50);
    for n in 0..100 {
        table.insert(MapItem::new(&format!("word{}", n), n)).unwrap();
        assert_eq!(table.get(&format!("word{}", n)), Some(n));
    }
    for n in 0..100 {
        assert_eq!(table.get(&format!("word{}", n)), Some(n));
    }
    assert_eq!(table.get("word100"), None);
    assert_eq!(table.entries().len(), 100);
}

#[test]
fn links_given_by_the_caller_are_ignored() {
    let mut table = HashMap::new(4);
    let mut item = MapItem::new("abcd", 1);
    item.index_prev = Some(5);
    item.index_next = Some(6);
    table.insert(item).unwrap();
    let first = table.get_first().unwrap();
    assert_eq!(first.index_prev, None);
    assert_eq!(first.index_next, None);
    assert_eq!(pairs(&table), vec![pair("abcd", 1)]);
}

#[test]
fn second_insert_updates_in_place() {
    let mut table = table_of_words();
    table.insert(MapItem::new("1984", 7)).unwrap();
    assert_eq!(table.get("1984"), Some(7));
    assert_eq!(
        pairs(&table),
        vec![pair("abcd", 100), pair("1984", 7), pair("Gutenberg", 102), pair("eBook", 103)]
    );
    table.insert(MapItem::new("eBook", -1)).unwrap();
    table.insert(MapItem::new("abcd", 0)).unwrap();
    assert_eq!(
        pairs(&table),
        vec![pair("abcd", 0), pair("1984", 7), pair("Gutenberg", 102), pair("eBook", -1)]
    );
    items_agree(&table.get_first().unwrap(), "abcd", 0);
    items_agree(&table.get_last().unwrap(), "eBook", -1);
}

fn items_agree(item: &MapItem, key: &str, value: i32) {
    assert_eq!(item.key, key);
    assert_eq!(item.value, value);
}

#[test]
fn keys_stand_in_insertion_order() {
    let table = table_of_words();
    items_agree(&table.get_first().unwrap(), "abcd", 100);
    items_agree(&table.get_last().unwrap(), "eBook", 103);
    assert_eq!(
        pairs(&table),
        vec![pair("abcd", 100), pair("1984", 101), pair("Gutenberg", 102), pair("eBook", 103)]
    );
}

#[test]
fn links_name_the_slots_of_the_neighbours() {
    let table = table_of_words();
    let capacity = 8;
    let first = table.get_first().unwrap();
    let last = table.get_last().unwrap();
    assert_eq!(first.index_prev, None);
    assert_eq!(last.index_next, None);
    assert!(first.index_next.unwrap() < capacity);
    assert!(last.index_prev.unwrap() < capacity);
    assert_ne!(first.index_next, last.index_prev);
}

#[test]
fn removing_the_first_promotes_the_second() {
    let mut table = table_of_words();
    table.remove("abcd");
    let first = table.get_first().unwrap();
    items_agree(&first, "1984", 101);
    assert_eq!(first.index_prev, None);
    assert_eq!(pairs(&table), vec![pair("1984", 101), pair("Gutenberg", 102), pair("eBook", 103)]);
}

#[test]
fn removing_the_last_promotes_the_one_before() {
    let mut table = table_of_words();
    table.remove("eBook");
    let last = table.get_last().unwrap();
    items_agree(&last, "Gutenberg", 102);
    assert_eq!(last.index_next, None);
    assert_eq!(pairs(&table), vec![pair("abcd", 100), pair("1984", 101), pair("Gutenberg", 102)]);
}

#[test]
fn removing_from_the_middle_joins_the_neighbours() {
    let mut table = HashMap::new(WORDS.len());
    table.insert(MapItem::new("abcd", 100)).unwrap();
    table.insert(MapItem::new("1984", 101)).unwrap();
    let slot_of_first = table.get_last().unwrap().index_prev;
    let slot_of_second = table.get_first().unwrap().index_next;
    table.insert(MapItem::new("Gutenberg", 102)).unwrap();
    table.insert(MapItem::new("eBook", 103)).unwrap();
    let slot_of_third = table.get_last().unwrap().index_prev;
    assert_eq!(table.get_first().unwrap().index_next, slot_of_second);

    table.remove("1984");
    assert_eq!(table.get_first().unwrap().index_next, slot_of_third);
    assert_eq!(table.get_last().unwrap().index_prev, slot_of_third);
    table.remove("Gutenberg");
    assert_eq!(pairs(&table), vec![pair("abcd", 100), pair("eBook", 103)]);
    let first = table.get_first().unwrap();
    let last = table.get_last().unwrap();
    assert_eq!(last.index_prev, slot_of_first);
    assert!(first.index_next.is_some());
    assert_ne!(first.index_next, slot_of_first);
    assert_ne!(first.index_next, slot_of_second);
    assert_ne!(first.index_next, slot_of_third);
    assert_eq!(table.get("1984"), None);
    assert_eq!(table.get("Gutenberg"), None);
    assert_eq!(table.get("abcd"), Some(100));
    assert_eq!(table.get("eBook"), Some(103));
}

#[test]
fn unlinking_a_slot_takes_its_entry_out() {
    let mut table = table_of_words();
    let slot_of_first = key_to_index("abcd", 8);
    let slot_of_second = table.get_first().unwrap().index_next.unwrap();
    table.rewire_neighbours_and_remove(slot_of_second);
    assert_eq!(pairs(&table), vec![pair("abcd", 100), pair("Gutenberg", 102), pair("eBook", 103)]);
    assert_eq!(table.get("1984"), None);
    let slot_of_third = table.get_first().unwrap().index_next.unwrap();
    assert_ne!(slot_of_third, slot_of_second);
    table.rewire_neighbours_and_remove(slot_of_third);
    assert_eq!(pairs(&table), vec![pair("abcd", 100), pair("eBook", 103)]);
    assert_eq!(table.get_last().unwrap().index_prev, Some(slot_of_first));
    table.rewire_neighbours_and_remove(slot_of_first);
    assert_eq!(pairs(&table), vec![pair("eBook", 103)]);
    let only = table.get_first().unwrap();
    assert_eq!(only.index_prev, None);
    assert_eq!(only.index_next, None);
}

#[test]
fn removing_two_from_the_end_leaves_the_second_last() {
    let mut table = table_of_words();
    table.remove("Gutenberg");
    table.remove("eBook");
    items_agree(&table.get_last().unwrap(), "1984", 101);
    items_agree(&table.get_first().unwrap(), "abcd", 100);
}

#[test]
fn removing_an_unknown_key_changes_nothing() {
    let mut table = table_of_words();
    table.remove("unknown");
    table.remove("");
    assert_eq!(
        pairs(&table),
        vec![pair("abcd", 100), pair("1984", 101), pair("Gutenberg", 102), pair("eBook", 103)]
    );
}

#[test]
fn removing_the_only_entry_empties_the_table() {
    let mut table = HashMap::new(4);
    table.insert(MapItem::new("abcd", 100)).unwrap();
    table.remove("abcd");
    assert!(table.get_first().is_none());
    assert!(table.get_last().is_none());
    assert_eq!(table.get("abcd"), None);
    assert!(table.entries().is_empty());
}

#[test]
fn removed_key_comes_back_at_the_end() {
    let mut table = table_of_words();
    table.remove("abcd");
    table.insert(MapItem::new("abcd", 5)).unwrap();
    assert_eq!(
        pairs(&table),
        vec![pair("1984", 101), pair("Gutenberg", 102), pair("eBook", 103), pair("abcd", 5)]
    );
}

#[test]
fn colliding_key_lands_in_the_next_slot() {
    let capacity = 8;
    let mut table = table_of_words();
    let taken: Vec<String> = WORDS.iter().map(|word| word.to_string()).collect();
    let start = key_to_index("abcd", capacity);
    let fifth = key_starting_at(start, capacity, &taken);
    assert_eq!(key_to_index(&fifth, capacity), key_to_index("abcd", capacity));
    table.insert(MapItem::new(&fifth, 33)).unwrap();
    assert_eq!(table.get(&fifth), Some(33));
    for (place, word) in WORDS.iter().enumerate() {
        assert_eq!(table.get(word), Some(place as i32 + 100));
    }
    items_agree(&table.get_last().unwrap(), &fifth, 33);
}

#[test]
fn displaced_key_goes_where_the_probe_first_finds_room() {
    let capacity = 8;
    for start in 0..capacity {
        let mut table = HashMap::new(4);
        let a = key_starting_at(start, capacity, &[]);
        let b = key_starting_at(start, capacity, &[a.clone()]);
        let c = key_starting_at(start, capacity, &[a.clone(), b.clone()]);
        table.insert(MapItem::new(&a, 1)).unwrap();
        table.insert(MapItem::new(&b, 2)).unwrap();
        table.insert(MapItem::new(&c, 3)).unwrap();
        let first = table.get_first().unwrap();
        let last = table.get_last().unwrap();
        let second_slot = next_slot(start, capacity);
        assert_eq!(first.index_next, Some(second_slot));
        assert_eq!(last.index_prev, Some(second_slot));
        table.remove(&b);
        let d = key_starting_at(start, capacity, &[a.clone(), b.clone(), c.clone()]);
        table.insert(MapItem::new(&d, 4)).unwrap();
        let third = table.get_last().unwrap();
        items_agree(&third, &d, 4);
        assert_eq!(third.index_prev, Some(next_slot(second_slot, capacity)));
        table.insert(MapItem::new(&b, 5)).unwrap();
        let fourth = table.get_last().unwrap();
        assert_eq!(fourth.index_prev, Some(second_slot));
        assert_eq!(table.get(&a), Some(1));
        assert_eq!(table.get(&b), Some(5));
        assert_eq!(table.get(&c), Some(3));
        assert_eq!(table.get(&d), Some(4));
    }
}

#[test]
fn displaced_key_is_found_after_the_one_before_it_is_removed() {
    let capacity = 8;
    for start in 0..capacity {
        let mut table = HashMap::new(4);
        let a = key_starting_at(start, capacity, &[]);
        let b = key_starting_at(start, capacity, &[a.clone()]);
        table.insert(MapItem::new(&a, 1)).unwrap();
        table.insert(MapItem::new(&b, 2)).unwrap();
        table.remove(&a);
        assert_eq!(table.get(&a), None);
        assert_eq!(table.get(&b), Some(2));
        table.insert(MapItem::new(&b, 3)).unwrap();
        assert_eq!(pairs(&table), vec![(b.clone(), 3)]);
        table.remove(&b);
        assert_eq!(table.get(&b), None);
        assert!(table.entries().is_empty());
    }
}

#[test]
fn full_table_refuses_a_new_key() {
    let mut table = HashMap::new(1);
    assert_eq!(table.insert(MapItem::new("one", 1)), Ok(()));
    assert_eq!(table.insert(MapItem::new("two", 2)), Ok(()));
    assert_eq!(table.insert(MapItem::new("three", 3)), Err(TableError::CapacityExceeded));
    assert_eq!(pairs(&table), vec![pair("one", 1), pair("two", 2)]);
    assert_eq!(table.get("three"), None);
    assert_eq!(table.get("one"), Some(1));
    assert_eq!(table.get("two"), Some(2));
}

#[test]
fn full_table_still_takes_updates() {
    let mut table = HashMap::new(1);
    table.insert(MapItem::new("one", 1)).unwrap();
    table.insert(MapItem::new("two", 2)).unwrap();
    assert_eq!(table.insert(MapItem::new("one", 10)), Ok(()));
    assert_eq!(table.insert(MapItem::new("two", 20)), Ok(()));
    assert_eq!(pairs(&table), vec![pair("one", 10), pair("two", 20)]);
}

#[test]
fn removal_makes_room_in_a_full_table() {
    let mut table = HashMap::new(2);
    for (n, key) in ["a", "b", "c", "d"].iter().enumerate() {
        table.insert(MapItem::new(key, n as i32)).unwrap();
    }
    assert_eq!(table.insert(MapItem::new("e", 4)), Err(TableError::CapacityExceeded));
    table.remove("b");
    assert_eq!(table.insert(MapItem::new("e", 4)), Ok(()));
    assert_eq!(table.insert(MapItem::new("f", 5)), Err(TableError::CapacityExceeded));
    assert_eq!(pairs(&table), vec![pair("a", 0), pair("c", 2), pair("d", 3), pair("e", 4)]);
    for round in 0..20 {
        table.remove("a");
        table.insert(MapItem::new("a", round)).unwrap();
        assert_eq!(table.get("a"), Some(round));
        assert_eq!(table.get("c"), Some(2));
        assert_eq!(table.get("d"), Some(3));
        assert_eq!(table.get("e"), Some(4));
        assert_eq!(table.get("b"), None);
    }
}

#[test]
fn table_without_slots_holds_nothing() {
    let mut table = HashMap::new(0);
    assert_eq!(table.insert(MapItem::new("one", 1)), Err(TableError::CapacityExceeded));
    assert_eq!(table.get("one"), None);
    table.remove("one");
    assert!(table.get_first().is_none());
    assert!(table.get_last().is_none());
}

#[test]
fn many_inserts_and_removals_agree_with_a_list() {
    let mut table = HashMap::new(16);
    let mut list: Vec<(String, i32)> = Vec::new();
    let mut seed = 12345u32;
    for _ in 0..2000 {
        seed = seed.wrapping_mul(1664525).wrapping_add(1013904223);
        let key = format!("k{}", (seed >> 8) % 40);
        let value = (seed >> 16) as i32;
        if (seed >> 4) % 3 == 0 {
            table.remove(&key);
            list.retain(|entry| entry.0 != key);
        } else {
            let known = list.iter().position(|entry| entry.0 == key);
            let outcome = table.insert(MapItem::new(&key, value));
            match known {
                Some(place) => {
                    assert_eq!(outcome, Ok(()));
                    list[place].1 = value;
                }
                None if list.len() < 32 => {
                    assert_eq!(outcome, Ok(()));
                    list.push((key.clone(), value));
                }
                None => assert_eq!(outcome, Err(TableError::CapacityExceeded)),
            }
        }
        assert_eq!(table.entries(), list);
        assert_eq!(table.get(&key), list.iter().find(|entry| entry.0 == key).map(|entry| entry.1));
    }
}

#[test]
fn text_is_cut_into_words() {
    assert_eq!(WORD_PATTERN, r"\b\w+\b");
    assert_eq!(
        words("The Project Gutenberg eBook, of 1984; by_me!").unwrap(),
        vec!["The", "Project", "Gutenberg", "eBook", "of", "1984", "by_me"]
    );
    assert_eq!(words("").unwrap(), Vec::<String>::new());
    assert_eq!(words(" ,;- ").unwrap(), Vec::<String>::new());
    assert_eq!(words("naïve café").unwrap(), vec!["naïve", "café"]);
    assert_eq!(words("one").unwrap(), vec!["one"]);
}

#[test]
fn words_of_a_text_count_up_in_a_table() {
    let text = "the cat and the dog and the bird";
    let found = words(text).unwrap();
    let mut table = HashMap::new(found.len());
    for word in &found {
        let seen = table.get(word).unwrap_or(0);
        table.insert(MapItem::new(word, seen + 1)).unwrap();
    }
    assert_eq!(
        pairs(&table),
        vec![pair("the", 3), pair("cat", 1), pair("and", 2), pair("dog", 1), pair("bird", 1)]
    );
}
